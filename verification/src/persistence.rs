//! The append-only file: the record written for each command, and the replay
//! of a file's records into the key space.
use vstd::prelude::*;
use crate::commands::{outcome, args_of, bulks, execute_at, extract_args, bulk_replies, lemma_texts, lemma_names};
use crate::ext::{uppercase, to_upper, parse_u64};
use crate::text::{decimal_u64, nat_digits, digits_text, str_eq};
use crate::ext::clock_millis;
use crate::resp::{parse, parse_frame, Parsed, Frame, RespValue, encode_frame, lemma_parse_length};
use crate::store::{Store, Entry, texts, deadline};

verus! {

/// The record of a command: an array of its arguments as bulk strings.
pub open spec fn record_frame(args: Seq<Seq<char>>) -> Frame {
    Frame::Array(Some(bulks(args)))
}

/// `args` is a SET with an expiry given by EX or PX, in range.
pub open spec fn sets_relative_expiry(args: Seq<Seq<char>>) -> bool {
    &&& args.len() == 5
    &&& uppercase(args[0]) == "SET"@
    &&& decimal_u64(args[4]) is Some
    &&& (uppercase(args[3]) == "EX"@ || uppercase(args[3]) == "PX"@)
}

/// `args` is an EXPIRE with a number of seconds in range.
pub open spec fn expires_relative(args: Seq<Seq<char>>) -> bool {
    &&& args.len() == 3
    &&& uppercase(args[0]) == "EXPIRE"@
    &&& decimal_u64(args[2]) is Some
}

/// The command that the file records for `args`, run at `now`: a SET with
/// EX or PX, and an EXPIRE, are recorded with the deadline they set, as
/// `SET key value PXAT deadline` and `PEXPIREAT key deadline`, so that a
/// replay keeps the deadline rather than starting it again; every other
/// command is recorded as it came.
pub open spec fn record_args(args: Seq<Seq<char>>, now: u64) -> Seq<Seq<char>> {
    if sets_relative_expiry(args) {
        let amount = decimal_u64(args[4])->0;
        let ms = if uppercase(args[3]) == "EX"@ { amount * 1000 } else { amount as int };
        seq![args[0], args[1], args[2], "PXAT"@, nat_digits(deadline(now, ms) as nat)]
    } else if expires_relative(args) {
        seq!["PEXPIREAT"@, args[1], nat_digits(deadline(now, decimal_u64(args[2])->0 * 1000) as nat)]
    } else {
        args
    }
}

/// The command that the file records for `args` run at `now`; see
/// `record_args`.
pub fn record_args_at(args: &Vec<String>, now: u64) -> (r: Vec<String>)
    ensures
        texts(r@) == record_args(texts(args@), now),
{
    proof {
        lemma_texts(args@);
        lemma_names();
    }
    let mut copy: Vec<String> = Vec::new();
    let mut i: usize = 0;
    while i < args.len()
        invariant
            i <= args@.len(),
            texts(copy@) == texts(args@).take(i as int),
        decreases args@.len() - i,
    {
        let ghost before = copy@;
        copy.push(args[i].clone());
        assert(texts(copy@) =~= texts(before).push(args@[i as int]@));
        assert(texts(args@).take(i + 1) =~= texts(args@).take(i as int).push(args@[i as int]@));
        i = i + 1;
    }
    assert(texts(args@).take(i as int) =~= texts(args@));
    if args.len() == 0 {
        return copy;
    }
    let name = to_upper(args[0].as_str());
    if str_eq(name.as_str(), "SET") && args.len() == 5 {
        let option = to_upper(args[3].as_str());
        let is_ex = str_eq(option.as_str(), "EX");
        let is_px = str_eq(option.as_str(), "PX");
        if is_ex || is_px {
            if let Some(amount) = parse_u64(args[4].as_str()) {
                let ms: u128 = if is_ex { (amount as u128) * 1000 } else { amount as u128 };
                let t: u128 = (now as u128) + ms;
                let mut r: Vec<String> = Vec::new();
                r.push(args[0].clone());
                r.push(args[1].clone());
                r.push(args[2].clone());
                r.push("PXAT".to_string());
                r.push(digits_text(t));
                assert(texts(r@) =~= record_args(texts(args@), now));
                return r;
            }
        }
    }
    if str_eq(name.as_str(), "EXPIRE") && args.len() == 3 {
        if let Some(seconds) = parse_u64(args[2].as_str()) {
            let t: u128 = (now as u128) + (seconds as u128) * 1000;
            let mut r: Vec<String> = Vec::new();
            r.push("PEXPIREAT".to_string());
            r.push(args[1].clone());
            r.push(digits_text(t));
            assert(texts(r@) =~= record_args(texts(args@), now));
            return r;
        }
    }
    copy
}

/// The bytes appended to the file for the command `args`.
pub fn aof_record(args: &[String]) -> (r: Vec<u8>)
    ensures
        r@ == encode_frame(record_frame(texts(args@))),
{
    let mut copies: Vec<String> = Vec::new();
    let mut i: usize = 0;
    while i < args.len()
        invariant
            i <= args@.len(),
            texts(copies@) == texts(args@.take(i as int)),
        decreases args@.len() - i,
    {
        copies.push(args[i].clone());
        assert(texts(args@.take(i + 1)) =~= texts(args@.take(i as int)).push(args@[i as int]@));
        i = i + 1;
    }
    assert(args@.take(i as int) =~= args@);
    let value = RespValue::Array(Some(bulk_replies(copies)));
    value.serialize()
}

/// Replaying the bytes `b` at time `now` on the key space `m` runs each
/// complete record in turn, stops at the end or at the first bytes that are
/// not a complete record, takes `consumed` bytes and leaves `after`.
pub open spec fn replays(b: Seq<u8>, m: Map<Seq<char>, Entry>, now: u64, consumed: nat, after: Map<Seq<char>, Entry>) -> bool
    decreases b.len(), 1int,
{
    if b.len() == 0 {
        consumed == 0 && after == m
    } else {
        match parse_frame(b) {
            Parsed::Done(f, k) => replays_command(b, m, now, f, k, consumed, after),
            _ => consumed == 0 && after == m,
        }
    }
}

/// Replaying `b`, whose first `k` bytes hold the command `f`: the command
/// runs, then the rest is replayed.
pub open spec fn replays_command(
    b: Seq<u8>,
    m: Map<Seq<char>, Entry>,
    now: u64,
    f: Frame,
    k: nat,
    consumed: nat,
    after: Map<Seq<char>, Entry>,
) -> bool
    decreases b.len(), 0int,
{
    if 1 <= k <= b.len() {
        exists|reply: Frame, mid: Map<Seq<char>, Entry>| {
            &&& #[trigger] outcome(args_of(f), m, now, reply, mid)
            &&& k <= consumed
            &&& replays(b.subrange(k as int, b.len() as int), mid, now, (consumed - k) as nat, after)
        }
    } else {
        false
    }
}

pub proof fn lemma_replays_step(
    b: Seq<u8>,
    m: Map<Seq<char>, Entry>,
    now: u64,
    f: Frame,
    k: nat,
    reply: Frame,
    mid: Map<Seq<char>, Entry>,
    c: nat,
    a: Map<Seq<char>, Entry>,
)
    requires
        b.len() > 0,
        parse_frame(b) == Parsed::Done(f, k),
        1 <= k <= b.len(),
        outcome(args_of(f), m, now, reply, mid),
        replays(b.subrange(k as int, b.len() as int), mid, now, c, a),
    ensures
        replays(b, m, now, k + c, a),
{
    assert(replays_command(b, m, now, f, k, k + c, a));
}

/// Replays the records in `bytes` at time `now` on `store`, and says how
/// many bytes it used; see `replays`.
pub fn replay_aof_at(bytes: &[u8], store: &mut Store, now: u64) -> (r: usize)
    requires
        old(store).wf(),
    ensures
        final(store).wf(),
        replays(bytes@, old(store)@, now, r as nat, final(store)@),
{
    let ghost m0 = store@;
    let mut offset: usize = 0;
    assert(bytes@.subrange(0, bytes@.len() as int) =~= bytes@);
    while offset < bytes.len()
        invariant_except_break
            store.wf(),
            m0 == old(store)@,
            offset <= bytes@.len(),
            offset == bytes@.len() ==> replays(bytes@, m0, now, offset as nat, store@),
            forall|c: nat, a: Map<Seq<char>, Entry>|
                #[trigger] replays(bytes@.subrange(offset as int, bytes@.len() as int), store@, now, c, a)
                    ==> replays(bytes@, m0, now, (offset + c) as nat, a),
        ensures
            store.wf(),
            replays(bytes@, m0, now, offset as nat, store@),
        decreases bytes@.len() - offset,
    {
        let rest = &bytes[offset..bytes.len()];
        let ghost rb = rest@;
        let ghost m = store@;
        match parse(rest) {
            Ok((value, n)) => {
                proof {
                    lemma_parse_length(rb);
                }
                let ghost f = value@;
                let args = extract_args(value);
                let reply = execute_at(args, store, now);
                let ghost rf = reply@;
                let ghost mid = store@;
                proof {
                    assert forall|c: nat, a: Map<Seq<char>, Entry>|
                        #[trigger] replays(bytes@.subrange(offset + n, bytes@.len() as int), mid, now, c, a)
                            implies replays(bytes@, m0, now, (offset + n + c) as nat, a) by {
                        assert(rb.subrange(n as int, rb.len() as int) =~= bytes@.subrange(offset + n, bytes@.len() as int));
                        lemma_replays_step(rb, m, now, f, n as nat, rf, mid, c, a);
                    }
                }
                offset = offset + n;
                proof {
                    if offset == bytes.len() {
                        assert(bytes@.subrange(offset as int, bytes@.len() as int) =~= Seq::<u8>::empty());
                        assert(replays(bytes@.subrange(offset as int, bytes@.len() as int), store@, now, 0, store@));
                    }
                }
            },
            Err(_) => {
                proof {
                    assert(replays(rb, m, now, 0, m));
                    assert(replays(bytes@, m0, now, (offset + 0) as nat, m));
                }
                break;
            },
        }
    }
    offset
}

/// Replaying the bytes `b` on the key space `m`, each record at the time the
/// clock reads when it runs: as `replays`, but every command at a time of its
/// own.
pub open spec fn replays_clocked(b: Seq<u8>, m: Map<Seq<char>, Entry>, consumed: nat, after: Map<Seq<char>, Entry>) -> bool
    decreases b.len(), 1int,
{
    if b.len() == 0 {
        consumed == 0 && after == m
    } else {
        match parse_frame(b) {
            Parsed::Done(f, k) => replays_clocked_command(b, m, f, k, consumed, after),
            _ => consumed == 0 && after == m,
        }
    }
}

/// Replaying `b`, whose first `k` bytes hold the command `f`, at some time:
/// the command runs, then the rest is replayed.
pub open spec fn replays_clocked_command(
    b: Seq<u8>,
    m: Map<Seq<char>, Entry>,
    f: Frame,
    k: nat,
    consumed: nat,
    after: Map<Seq<char>, Entry>,
) -> bool
    decreases b.len(), 0int,
{
    if 1 <= k <= b.len() {
        exists|now: u64, reply: Frame, mid: Map<Seq<char>, Entry>| {
            &&& #[trigger] outcome(args_of(f), m, now, reply, mid)
            &&& k <= consumed
            &&& replays_clocked(b.subrange(k as int, b.len() as int), mid, (consumed - k) as nat, after)
        }
    } else {
        false
    }
}

pub proof fn lemma_replays_clocked_step(
    b: Seq<u8>,
    m: Map<Seq<char>, Entry>,
    now: u64,
    f: Frame,
    k: nat,
    reply: Frame,
    mid: Map<Seq<char>, Entry>,
    c: nat,
    a: Map<Seq<char>, Entry>,
)
    requires
        b.len() > 0,
        parse_frame(b) == Parsed::Done(f, k),
        1 <= k <= b.len(),
        outcome(args_of(f), m, now, reply, mid),
        replays_clocked(b.subrange(k as int, b.len() as int), mid, c, a),
    ensures
        replays_clocked(b, m, k + c, a),
{
    assert(replays_clocked_command(b, m, f, k, k + c, a));
}

/// Replays the records in `bytes` on `store`, each at the time the clock
/// reads when it runs, and says how many bytes it used; see
/// `replays_clocked`.
pub fn replay_aof(bytes: &[u8], store: &mut Store) -> (r: usize)
    requires
        old(store).wf(),
    ensures
        final(store).wf(),
        replays_clocked(bytes@, old(store)@, r as nat, final(store)@),
{
    let ghost m0 = store@;
    let mut offset: usize = 0;
    assert(bytes@.subrange(0, bytes@.len() as int) =~= bytes@);
    while offset < bytes.len()
        invariant_except_break
            store.wf(),
            m0 == old(store)@,
            offset <= bytes@.len(),
            offset == bytes@.len() ==> replays_clocked(bytes@, m0, offset as nat, store@),
            forall|c: nat, a: Map<Seq<char>, Entry>|
                #[trigger] replays_clocked(bytes@.subrange(offset as int, bytes@.len() as int), store@, c, a)
                    ==> replays_clocked(bytes@, m0, (offset + c) as nat, a),
        ensures
            store.wf(),
            replays_clocked(bytes@, m0, offset as nat, store@),
        decreases bytes@.len() - offset,
    {
        let rest = &bytes[offset..bytes.len()];
        let ghost rb = rest@;
        let ghost m = store@;
        match parse(rest) {
            Ok((value, n)) => {
                proof {
                    lemma_parse_length(rb);
                }
                let ghost f = value@;
                let args = extract_args(value);
                let now = clock_millis();
                let reply = execute_at(args, store, now);
                let ghost rf = reply@;
                let ghost mid = store@;
                proof {
                    assert forall|c: nat, a: Map<Seq<char>, Entry>|
                        #[trigger] replays_clocked(bytes@.subrange(offset + n, bytes@.len() as int), mid, c, a)
                            implies replays_clocked(bytes@, m0, (offset + n + c) as nat, a) by {
                        assert(rb.subrange(n as int, rb.len() as int) =~= bytes@.subrange(offset + n, bytes@.len() as int));
                        lemma_replays_clocked_step(rb, m, now, f, n as nat, rf, mid, c, a);
                    }
                }
                offset = offset + n;
                proof {
                    if offset == bytes.len() {
                        assert(bytes@.subrange(offset as int, bytes@.len() as int) =~= Seq::<u8>::empty());
                        assert(replays_clocked(bytes@.subrange(offset as int, bytes@.len() as int), store@, 0, store@));
                    }
                }
            },
            Err(_) => {
                proof {
                    assert(replays_clocked(rb, m, 0, m));
                    assert(replays_clocked(bytes@, m0, (offset + 0) as nat, m));
                }
                break;
            },
        }
    }
    offset
}

} // verus!
