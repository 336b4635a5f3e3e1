//! Command dispatch: what each command answers and what it does to the key
//! space.
use vstd::prelude::*;
use crate::ext::{uppercase, to_upper, parse_u64, parse_u128, parse_i64, clock_millis};
use crate::resp::{RespValue, Frame};
use crate::store::{
    Store, Entry, texts, wrong_type, live_at, get_reply, drop_expired, string_entry, deadline, count_live,
    live_keys, with_expiry, ttl_reply, holds_other, after_push, pushed_list, pop_reply, after_pop,
    lrange_reply, live_other, hash_at, members_at, with_hash, with_members, entries_map, distinct_keys,
};
use crate::glob::{glob_match, glob_matches};
use crate::text::{decimal_u64, decimal_u128, decimal_i64, join, str_eq, all_ascii, ascii_upper};
use vstd::string::StringExecFns;

verus! {

/// The reply to a command called with the wrong number of arguments.
pub open spec fn arity_error(cmd: Seq<char>) -> Frame {
    Frame::Error("ERR wrong number of arguments for '"@ + cmd + "' command"@)
}

/// The reply to a number argument that is not a number in range.
pub open spec fn not_integer(cmd: Seq<char>) -> Frame {
    Frame::Error("ERR value is not an integer or out of range for '"@ + cmd + "' command"@)
}

/// The reply to a SET option that is neither EX nor PX.
pub open spec fn syntax_error(cmd: Seq<char>) -> Frame {
    Frame::Error("ERR syntax error for '"@ + cmd + "' command"@)
}

/// The reply to a command that is not known.
pub open spec fn unknown_command(cmd: Seq<char>) -> Frame {
    Frame::Error("ERR unknown command '"@ + cmd + "'"@)
}

/// A bulk string reply for each text.
pub open spec fn bulks(ks: Seq<Seq<char>>) -> Seq<Frame> {
    ks.map_values(|k: Seq<char>| Frame::Bulk(Some(k)))
}

/// A string reply, or the null reply for none.
pub open spec fn bulk_or_null(v: Option<Seq<char>>) -> Frame {
    Frame::Bulk(v)
}

/// The pattern that a KEYS command lists by: its argument, or `*`.
pub open spec fn keys_pattern(args: Seq<Seq<char>>) -> Seq<char> {
    if args.len() == 2 { args[1] } else { "*"@ }
}

/// The keys held and not expired at `now` that the pattern `p` matches.
pub open spec fn matching_keys(m: Map<Seq<char>, Entry>, now: u64, p: Seq<char>) -> Set<Seq<char>> {
    live_keys(m, now).filter(|k: Seq<char>| glob_match(p, k))
}

/// A bulk string reply for each field, then its value, pair by pair.
pub open spec fn pair_bulks(ps: Seq<(String, String)>) -> Seq<Frame>
    decreases ps.len(),
{
    if ps.len() == 0 {
        seq![]
    } else {
        pair_bulks(ps.drop_last()) + seq![Frame::Bulk(Some(ps.last().0@)), Frame::Bulk(Some(ps.last().1@))]
    }
}

/// What the command `args`, named `cmd` once upper-cased, answers and the
/// key space it leaves at time `now`, for every command but one that lists
/// (see `outcome_for`): for those it gives only the arity and kind errors.
pub open spec fn command_reply(cmd: Seq<char>, args: Seq<Seq<char>>, m: Map<Seq<char>, Entry>, now: u64) -> (Frame, Map<Seq<char>, Entry>) {
    let n = args.len();
    if cmd == "PING"@ {
        if n == 1 {
            (Frame::Simple("PONG"@), m)
        } else if n == 2 {
            (Frame::Bulk(Some(args[1])), m)
        } else {
            (arity_error(cmd), m)
        }
    } else if cmd == "GET"@ {
        if n != 2 {
            (arity_error(cmd), m)
        } else {
            let reply = match get_reply(m, args[1], now) {
                Ok(v) => bulk_or_null(v),
                Err(_) => Frame::Error("ERR wrong kind of value"@),
            };
            (reply, drop_expired(m, args[1], now))
        }
    } else if cmd == "SET"@ {
        if n == 3 {
            (Frame::Simple("OK"@), m.insert(args[1], string_entry(args[2], None)))
        } else if n == 5 && uppercase(args[3]) == "PXAT"@ {
            match decimal_u128(args[4]) {
                None => (not_integer(cmd), m),
                Some(t) => (Frame::Simple("OK"@), m.insert(args[1], string_entry(args[2], Some(t)))),
            }
        } else if n == 5 {
            match decimal_u64(args[4]) {
                None => (not_integer(cmd), m),
                Some(amount) => {
                    let option = uppercase(args[3]);
                    if option == "EX"@ {
                        (Frame::Simple("OK"@), m.insert(args[1], string_entry(args[2], Some(deadline(now, amount * 1000)))))
                    } else if option == "PX"@ {
                        (Frame::Simple("OK"@), m.insert(args[1], string_entry(args[2], Some(deadline(now, amount as int)))))
                    } else {
                        (syntax_error(cmd), m)
                    }
                },
            }
        } else {
            (arity_error(cmd), m)
        }
    } else if cmd == "DEL"@ {
        if n < 2 {
            (arity_error(cmd), m)
        } else {
            let ks = args.skip(1).to_set();
            (Frame::Integer(m.dom().intersect(ks).len() as i64), m.remove_keys(ks))
        }
    } else if cmd == "EXISTS"@ {
        if n < 2 {
            (arity_error(cmd), m)
        } else {
            (Frame::Integer(count_live(m, args.skip(1), now) as i64), m)
        }
    } else if cmd == "KEYS"@ {
        (arity_error(cmd), m)
    } else if cmd == "EXPIRE"@ {
        if n != 3 {
            (arity_error(cmd), m)
        } else {
            match decimal_u64(args[2]) {
                None => (not_integer(cmd), m),
                Some(seconds) => if live_at(m, args[1], now) {
                    (Frame::Integer(1), with_expiry(m, args[1], Some(deadline(now, seconds * 1000))))
                } else {
                    (Frame::Integer(0), drop_expired(m, args[1], now))
                },
            }
        }
    } else if cmd == "PEXPIREAT"@ {
        if n != 3 {
            (arity_error(cmd), m)
        } else {
            match decimal_u128(args[2]) {
                None => (not_integer(cmd), m),
                Some(t) => if live_at(m, args[1], now) {
                    (Frame::Integer(1), with_expiry(m, args[1], Some(t)))
                } else {
                    (Frame::Integer(0), drop_expired(m, args[1], now))
                },
            }
        }
    } else if cmd == "PERSIST"@ {
        if n != 2 {
            (arity_error(cmd), m)
        } else if live_at(m, args[1], now) {
            (Frame::Integer(if m[args[1]].expires_at is Some { 1 } else { 0 }), with_expiry(m, args[1], None))
        } else {
            (Frame::Integer(0), drop_expired(m, args[1], now))
        }
    } else if cmd == "TTL"@ {
        if n != 2 {
            (arity_error(cmd), m)
        } else {
            (Frame::Integer(ttl_reply(m, args[1], now)), drop_expired(m, args[1], now))
        }
    } else if cmd == "LPUSH"@ || cmd == "RPUSH"@ {
        let front = cmd == "LPUSH"@;
        if n < 3 {
            (arity_error(cmd), m)
        } else if holds_other(drop_expired(m, args[1], now), args[1]) {
            (Frame::Error(wrong_type()), m)
        } else {
            let vals = args.skip(2);
            let d = drop_expired(m, args[1], now);
            (Frame::Integer(pushed_list(d, args[1], vals, front).len() as i64), after_push(d, args[1], vals, front))
        }
    } else if cmd == "LPOP"@ || cmd == "RPOP"@ {
        let front = cmd == "LPOP"@;
        if n != 2 {
            (arity_error(cmd), m)
        } else {
            let d = drop_expired(m, args[1], now);
            let reply = match pop_reply(d, args[1], front) {
                Ok(v) => bulk_or_null(v),
                Err(e) => Frame::Error(e),
            };
            (reply, after_pop(d, args[1], front))
        }
    } else if cmd == "LRANGE"@ {
        if n != 4 {
            (arity_error(cmd), m)
        } else {
            match (decimal_i64(args[2]), decimal_i64(args[3])) {
                (None, _) => (not_integer(cmd), m),
                (Some(_), None) => (not_integer(cmd), m),
                (Some(start), Some(stop)) => match lrange_reply(drop_expired(m, args[1], now), args[1], start, stop) {
                    Ok(vs) => (Frame::Array(Some(bulks(vs))), m),
                    Err(e) => (Frame::Error(e), m),
                },
            }
        }
    } else if cmd == "HSET"@ {
        if n != 4 {
            (arity_error(cmd), m)
        } else if live_other(m, args[1], now, true) {
            (Frame::Error(wrong_type()), m)
        } else {
            let h = hash_at(m, args[1], now);
            (Frame::Integer(if h.contains_key(args[2]) { 0 } else { 1 }), with_hash(m, args[1], now, h.insert(args[2], args[3])))
        }
    } else if cmd == "HGET"@ {
        if n != 3 {
            (arity_error(cmd), m)
        } else if live_other(m, args[1], now, true) {
            (Frame::Error(wrong_type()), m)
        } else {
            let h = hash_at(m, args[1], now);
            (Frame::Bulk(if h.contains_key(args[2]) { Some(h[args[2]]) } else { None }), m)
        }
    } else if cmd == "HDEL"@ {
        if n < 3 {
            (arity_error(cmd), m)
        } else if live_other(m, args[1], now, true) {
            (Frame::Error(wrong_type()), m)
        } else {
            let h = hash_at(m, args[1], now);
            let fs = args.skip(2).to_set();
            (Frame::Integer(h.dom().intersect(fs).len() as i64),
                if live_at(m, args[1], now) { with_hash(m, args[1], now, h.remove_keys(fs)) } else { m })
        }
    } else if cmd == "HGETALL"@ || cmd == "SMEMBERS"@ {
        if n != 2 {
            (arity_error(cmd), m)
        } else {
            (Frame::Error(wrong_type()), m)
        }
    } else if cmd == "SADD"@ {
        if n < 3 {
            (arity_error(cmd), m)
        } else if live_other(m, args[1], now, false) {
            (Frame::Error(wrong_type()), m)
        } else {
            let s = members_at(m, args[1], now);
            let ms = args.skip(2).to_set();
            (Frame::Integer(ms.difference(s).len() as i64), with_members(m, args[1], now, s.union(ms)))
        }
    } else if cmd == "SREM"@ {
        if n < 3 {
            (arity_error(cmd), m)
        } else if live_other(m, args[1], now, false) {
            (Frame::Error(wrong_type()), m)
        } else {
            let s = members_at(m, args[1], now);
            let ms = args.skip(2).to_set();
            (Frame::Integer(s.intersect(ms).len() as i64),
                if live_at(m, args[1], now) { with_members(m, args[1], now, s.difference(ms)) } else { m })
        }
    } else if cmd == "SISMEMBER"@ {
        if n != 3 {
            (arity_error(cmd), m)
        } else if live_other(m, args[1], now, false) {
            (Frame::Error(wrong_type()), m)
        } else {
            (Frame::Integer(if members_at(m, args[1], now).contains(args[2]) { 1 } else { 0 }), m)
        }
    } else {
        (unknown_command(cmd), m)
    }
}

/// `reply` and `after` are what running `args`, named `cmd` once upper-cased,
/// on `m` at time `now` comes to. A command that lists answers each item
/// once, in any order, and leaves the key space as it was: KEYS the live
/// keys that its pattern matches, HGETALL each field and its value, and
/// SMEMBERS each member. Every other command is `command_reply`.
pub open spec fn outcome_for(cmd: Seq<char>, args: Seq<Seq<char>>, m: Map<Seq<char>, Entry>, now: u64, reply: Frame, after: Map<Seq<char>, Entry>) -> bool {
    if cmd == "KEYS"@ && args.len() <= 2 {
        &&& after == m
        &&& exists|ks: Seq<Seq<char>>| {
            &&& reply == Frame::Array(Some(#[trigger] bulks(ks)))
            &&& ks.no_duplicates()
            &&& ks.to_set() == matching_keys(m, now, keys_pattern(args))
        }
    } else if cmd == "HGETALL"@ && args.len() == 2 && !live_other(m, args[1], now, true) {
        &&& after == m
        &&& exists|ps: Seq<(String, String)>| {
            &&& reply == Frame::Array(Some(#[trigger] pair_bulks(ps)))
            &&& distinct_keys(ps)
            &&& entries_map(ps) == hash_at(m, args[1], now)
        }
    } else if cmd == "SMEMBERS"@ && args.len() == 2 && !live_other(m, args[1], now, false) {
        &&& after == m
        &&& exists|ks: Seq<Seq<char>>| {
            &&& reply == Frame::Array(Some(#[trigger] bulks(ks)))
            &&& ks.no_duplicates()
            &&& ks.to_set() == members_at(m, args[1], now)
        }
    } else {
        (reply, after) == command_reply(cmd, args, m, now)
    }
}

/// `reply` and `after` are what running `args` on `m` at time `now` comes to:
/// an error for an empty command; otherwise see `outcome_for`, with the
/// command's name upper-cased.
pub open spec fn outcome(args: Seq<Seq<char>>, m: Map<Seq<char>, Entry>, now: u64, reply: Frame, after: Map<Seq<char>, Entry>) -> bool {
    if args.len() == 0 {
        reply == Frame::Error("ERR empty command"@) && after == m
    } else {
        outcome_for(uppercase(args[0]), args, m, now, reply, after)
    }
}

/// The names of the commands are the texts they spell.
pub proof fn lemma_names()
    ensures
        "PING"@ == seq!['P', 'I', 'N', 'G'],
        "GET"@ == seq!['G', 'E', 'T'],
        "SET"@ == seq!['S', 'E', 'T'],
        "DEL"@ == seq!['D', 'E', 'L'],
        "EXISTS"@ == seq!['E', 'X', 'I', 'S', 'T', 'S'],
        "KEYS"@ == seq!['K', 'E', 'Y', 'S'],
        "EXPIRE"@ == seq!['E', 'X', 'P', 'I', 'R', 'E'],
        "PERSIST"@ == seq!['P', 'E', 'R', 'S', 'I', 'S', 'T'],
        "TTL"@ == seq!['T', 'T', 'L'],
        "LPUSH"@ == seq!['L', 'P', 'U', 'S', 'H'],
        "RPUSH"@ == seq!['R', 'P', 'U', 'S', 'H'],
        "LPOP"@ == seq!['L', 'P', 'O', 'P'],
        "RPOP"@ == seq!['R', 'P', 'O', 'P'],
        "LRANGE"@ == seq!['L', 'R', 'A', 'N', 'G', 'E'],
        "HSET"@ == seq!['H', 'S', 'E', 'T'],
        "HGET"@ == seq!['H', 'G', 'E', 'T'],
        "HDEL"@ == seq!['H', 'D', 'E', 'L'],
        "HGETALL"@ == seq!['H', 'G', 'E', 'T', 'A', 'L', 'L'],
        "SADD"@ == seq!['S', 'A', 'D', 'D'],
        "SREM"@ == seq!['S', 'R', 'E', 'M'],
        "SISMEMBER"@ == seq!['S', 'I', 'S', 'M', 'E', 'M', 'B', 'E', 'R'],
        "SMEMBERS"@ == seq!['S', 'M', 'E', 'M', 'B', 'E', 'R', 'S'],
        "*"@ == seq!['*'],
        "PEXPIREAT"@ == seq!['P', 'E', 'X', 'P', 'I', 'R', 'E', 'A', 'T'],
        "PXAT"@ == seq!['P', 'X', 'A', 'T'],
        "EX"@ == seq!['E', 'X'],
        "PX"@ == seq!['P', 'X'],
{
    reveal_strlit("PING");
    reveal_strlit("GET");
    reveal_strlit("SET");
    reveal_strlit("DEL");
    reveal_strlit("EXISTS");
    reveal_strlit("KEYS");
    reveal_strlit("EXPIRE");
    reveal_strlit("PERSIST");
    reveal_strlit("TTL");
    reveal_strlit("LPUSH");
    reveal_strlit("RPUSH");
    reveal_strlit("LPOP");
    reveal_strlit("RPOP");
    reveal_strlit("LRANGE");
    reveal_strlit("HSET");
    reveal_strlit("HGET");
    reveal_strlit("HDEL");
    reveal_strlit("HGETALL");
    reveal_strlit("SADD");
    reveal_strlit("SREM");
    reveal_strlit("SISMEMBER");
    reveal_strlit("SMEMBERS");
    reveal_strlit("*");
    reveal_strlit("PEXPIREAT");
    reveal_strlit("PXAT");
    reveal_strlit("EX");
    reveal_strlit("PX");
}

/// The text `a`, then `b`, then `c`.
fn join3(a: &str, b: &str, c: &str) -> (r: String)
    ensures
        r@ == a@ + b@ + c@,
{
    let ab = join(a, b);
    ab.concat(c)
}

/// The reply to a wrong number of arguments for `cmd`.
pub(crate) fn arity_reply(cmd: &str) -> (r: RespValue)
    ensures
        r@ == arity_error(cmd@),
{
    RespValue::Error(join3("ERR wrong number of arguments for '", cmd, "' command"))
}

/// The reply to a bad number argument for `cmd`.
fn not_integer_reply(cmd: &str) -> (r: RespValue)
    ensures
        r@ == not_integer(cmd@),
{
    RespValue::Error(join3("ERR value is not an integer or out of range for '", cmd, "' command"))
}

/// Copies of the arguments from `k` on.
fn args_from(args: &Vec<String>, k: usize) -> (r: Vec<String>)
    requires
        k <= args@.len(),
    ensures
        texts(r@) == texts(args@).skip(k as int),
{
    let mut out: Vec<String> = Vec::new();
    let mut i: usize = k;
    while i < args.len()
        invariant
            k <= i <= args@.len(),
            texts(out@) == texts(args@).subrange(k as int, i as int),
        decreases args@.len() - i,
    {
        let ghost before = out@;
        out.push(args[i].clone());
        assert(texts(out@) =~= texts(before).push(args@[i as int]@));
        assert(texts(args@).subrange(k as int, i + 1) =~= texts(args@).subrange(k as int, i as int).push(args@[i as int]@));
        i = i + 1;
    }
    assert(texts(args@).subrange(k as int, i as int) =~= texts(args@).skip(k as int));
    out
}

/// A bulk string reply for each string.
pub fn bulk_replies(vs: Vec<String>) -> (r: Vec<RespValue>)
    ensures
        crate::resp::frames_of(r@) == bulks(texts(vs@)),
{
    let mut out: Vec<RespValue> = Vec::new();
    let mut i: usize = 0;
    while i < vs.len()
        invariant
            i <= vs@.len(),
            crate::resp::frames_of(out@) == bulks(texts(vs@.take(i as int))),
        decreases vs@.len() - i,
    {
        let ghost before = out@;
        out.push(RespValue::bulk(vs[i].clone()));
        assert(crate::resp::frames_of(out@) =~= crate::resp::frames_of(before).push(Frame::Bulk(Some(vs@[i as int]@))));
        assert(bulks(texts(vs@.take(i + 1))) =~= bulks(texts(vs@.take(i as int))).push(Frame::Bulk(Some(vs@[i as int]@))));
        i = i + 1;
    }
    assert(vs@.take(i as int) =~= vs@);
    out
}


/// The arguments, their number and their first one, as the commands read them.
pub(crate) proof fn lemma_texts(args: Seq<String>)
    ensures
        texts(args).len() == args.len(),
        forall|i: int| 0 <= i < args.len() ==> #[trigger] texts(args)[i] == args[i]@,
{
}

fn run_ping(args: &Vec<String>, cmd: &String, store: &mut Store, now: u64) -> (r: RespValue)
    requires
        old(store).wf(),
        args@.len() > 0,
        cmd@ == "PING"@,
    ensures
        final(store).wf(),
        outcome_for(cmd@, texts(args@), old(store)@, now, r@, final(store)@),
{
    proof {
        lemma_names();
        lemma_texts(args@);
    }
    if args.len() == 1 {
        RespValue::SimpleString("PONG".to_owned())
    } else if args.len() == 2 {
        RespValue::bulk(args[1].clone())
    } else {
        arity_reply(cmd.as_str())
    }
}

fn run_get(args: &Vec<String>, cmd: &String, store: &mut Store, now: u64) -> (r: RespValue)
    requires
        old(store).wf(),
        args@.len() > 0,
        cmd@ == "GET"@,
    ensures
        final(store).wf(),
        outcome_for(cmd@, texts(args@), old(store)@, now, r@, final(store)@),
{
    proof {
        lemma_names();
        lemma_texts(args@);
    }
    if args.len() != 2 {
        return arity_reply(cmd.as_str());
    }
    match store.get_at(args[1].as_str(), now) {
        Ok(Some(v)) => RespValue::bulk(v),
        Ok(None) => RespValue::null(),
        Err(_) => RespValue::err("ERR wrong kind of value"),
    }
}

fn run_set(args: &Vec<String>, cmd: &String, store: &mut Store, now: u64) -> (r: RespValue)
    requires
        old(store).wf(),
        args@.len() > 0,
        cmd@ == "SET"@,
    ensures
        final(store).wf(),
        outcome_for(cmd@, texts(args@), old(store)@, now, r@, final(store)@),
{
    proof {
        lemma_names();
        lemma_texts(args@);
    }
    if args.len() == 3 {
        store.set(args[1].clone(), args[2].clone());
        return RespValue::ok();
    }
    if args.len() != 5 {
        return arity_reply(cmd.as_str());
    }
    let option = to_upper(args[3].as_str());
    if str_eq(option.as_str(), "PXAT") {
        return match parse_u128(args[4].as_str()) {
            Some(t) => {
                store.set_until(args[1].clone(), args[2].clone(), t);
                RespValue::ok()
            },
            None => not_integer_reply(cmd.as_str()),
        };
    }
    let amount = match parse_u64(args[4].as_str()) {
        Some(v) => v,
        None => {
            return not_integer_reply(cmd.as_str());
        },
    };
    if str_eq(option.as_str(), "EX") {
        store.set_with_expiry_at(args[1].clone(), args[2].clone(), (amount as u128) * 1000, now);
        RespValue::ok()
    } else if str_eq(option.as_str(), "PX") {
        store.set_with_expiry_at(args[1].clone(), args[2].clone(), amount as u128, now);
        RespValue::ok()
    } else {
        RespValue::Error(join3("ERR syntax error for '", cmd.as_str(), "' command"))
    }
}

fn run_del(args: &Vec<String>, cmd: &String, store: &mut Store, now: u64) -> (r: RespValue)
    requires
        old(store).wf(),
        args@.len() > 0,
        cmd@ == "DEL"@,
    ensures
        final(store).wf(),
        outcome_for(cmd@, texts(args@), old(store)@, now, r@, final(store)@),
{
    proof {
        lemma_names();
        lemma_texts(args@);
    }
    if args.len() < 2 {
        return arity_reply(cmd.as_str());
    }
    let keys = &args.as_slice()[1..args.len()];
    assert(texts(keys@) =~= texts(args@).skip(1));
    let count = store.del(keys);
    RespValue::Integer(count)
}

fn run_exists(args: &Vec<String>, cmd: &String, store: &mut Store, now: u64) -> (r: RespValue)
    requires
        old(store).wf(),
        args@.len() > 0,
        cmd@ == "EXISTS"@,
    ensures
        final(store).wf(),
        outcome_for(cmd@, texts(args@), old(store)@, now, r@, final(store)@),
{
    proof {
        lemma_names();
        lemma_texts(args@);
    }
    if args.len() < 2 {
        return arity_reply(cmd.as_str());
    }
    let keys = &args.as_slice()[1..args.len()];
    assert(texts(keys@) =~= texts(args@).skip(1));
    let count = store.exists_keys_at(keys, now);
    RespValue::Integer(count)
}

fn run_keys(args: &Vec<String>, cmd: &String, store: &mut Store, now: u64) -> (r: RespValue)
    requires
        old(store).wf(),
        args@.len() > 0,
        cmd@ == "KEYS"@,
    ensures
        final(store).wf(),
        outcome_for(cmd@, texts(args@), old(store)@, now, r@, final(store)@),
{
    proof {
        lemma_names();
        lemma_texts(args@);
    }
    if args.len() > 2 {
        return arity_reply(cmd.as_str());
    }
    let all = store.keys_at(now);
    let keys = if args.len() == 2 {
        keys_matching(all, args[1].as_str())
    } else {
        keys_matching(all, "*")
    };
    let ghost ks = texts(keys@);
    assert(ks.to_set() =~= matching_keys(old(store)@, now, keys_pattern(texts(args@))));
    let r = RespValue::Array(Some(bulk_replies(keys)));
    assert(r@ == Frame::Array(Some(bulks(ks))));
    r
}

/// The keys among `keys` that `pattern` matches, in their order.
fn keys_matching(keys: Vec<String>, pattern: &str) -> (r: Vec<String>)
    requires
        texts(keys@).no_duplicates(),
    ensures
        texts(r@).no_duplicates(),
        texts(r@).to_set() == texts(keys@).to_set().filter(|k: Seq<char>| glob_match(pattern@, k)),
{
    let mut out: Vec<String> = Vec::new();
    let mut i: usize = 0;
    while i < keys.len()
        invariant
            i <= keys@.len(),
            texts(keys@).no_duplicates(),
            texts(out@).no_duplicates(),
            forall|k: Seq<char>| #[trigger] texts(out@).contains(k)
                <==> (texts(keys@).take(i as int).contains(k) && glob_match(pattern@, k)),
        decreases keys@.len() - i,
    {
        let ghost before = texts(out@);
        let ghost x = keys@[i as int]@;
        let ghost t0 = texts(keys@).take(i as int);
        let ghost t1 = texts(keys@).take(i + 1);
        assert(texts(keys@).take(i + 1) =~= texts(keys@).take(i as int).push(x));
        assert(!texts(keys@).take(i as int).contains(x)) by {
            if texts(keys@).take(i as int).contains(x) {
                let j = choose|j: int| 0 <= j < t0.len() && t0[j] == x;
                assert(texts(keys@)[j] == texts(keys@)[i as int]);
            }
        }
        if glob_matches(pattern, keys[i].as_str()) {
            out.push(keys[i].clone());
            assert(texts(out@) =~= before.push(x));
            assert forall|a: int, b: int| 0 <= a < b < texts(out@).len() implies texts(out@)[a] != texts(out@)[b] by {
                if b == before.len() {
                    assert(before.contains(before[a]));
                }
            }
            assert forall|k: Seq<char>| #[trigger] texts(out@).contains(k)
                <==> (texts(keys@).take(i + 1).contains(k) && glob_match(pattern@, k)) by {
                assert(t1[i as int] == x);
                assert(texts(out@)[before.len() as int] == x);
                if k == x {
                    assert(texts(out@).contains(k));
                    assert(t1.contains(k));
                } else {
                    if texts(out@).contains(k) {
                        let j = choose|j: int| 0 <= j < texts(out@).len() && texts(out@)[j] == k;
                        assert(before[j] == k);
                        assert(before.contains(k));
                        assert(t0.contains(k));
                        let j2 = choose|j2: int| 0 <= j2 < t0.len() && t0[j2] == k;
                        assert(t1[j2] == k);
                    }
                    if t1.contains(k) && glob_match(pattern@, k) {
                        let j = choose|j: int| 0 <= j < t1.len() && t1[j] == k;
                        assert(t0[j] == k);
                        assert(t0.contains(k));
                        assert(before.contains(k));
                        let j2 = choose|j2: int| 0 <= j2 < before.len() && before[j2] == k;
                        assert(texts(out@)[j2] == k);
                    }
                }
            }
        } else {
            assert forall|k: Seq<char>| #[trigger] texts(out@).contains(k)
                <==> (texts(keys@).take(i + 1).contains(k) && glob_match(pattern@, k)) by {
                if texts(keys@).take(i + 1).contains(k) && k != x {
                    let j = choose|j: int| 0 <= j < t1.len() && t1[j] == k;
                    assert(t0[j] == k);
                }
                if texts(keys@).take(i as int).contains(k) {
                    let j = choose|j: int| 0 <= j < t0.len() && t0[j] == k;
                    assert(t1[j] == k);
                }
            }
        }
        i = i + 1;
    }
    assert(texts(keys@).take(i as int) =~= texts(keys@));
    assert(texts(out@).to_set() =~= texts(keys@).to_set().filter(|k: Seq<char>| glob_match(pattern@, k)));
    out
}

fn run_expire(args: &Vec<String>, cmd: &String, store: &mut Store, now: u64) -> (r: RespValue)
    requires
        old(store).wf(),
        args@.len() > 0,
        cmd@ == "EXPIRE"@,
    ensures
        final(store).wf(),
        outcome_for(cmd@, texts(args@), old(store)@, now, r@, final(store)@),
{
    proof {
        lemma_names();
        lemma_texts(args@);
    }
    if args.len() != 3 {
        return arity_reply(cmd.as_str());
    }
    let seconds = match parse_u64(args[2].as_str()) {
        Some(v) => v,
        None => {
            return not_integer_reply(cmd.as_str());
        },
    };
    let success = store.expire_at(args[1].as_str(), seconds, now);
    RespValue::Integer(if success { 1 } else { 0 })
}

fn run_pexpireat(args: &Vec<String>, cmd: &String, store: &mut Store, now: u64) -> (r: RespValue)
    requires
        old(store).wf(),
        args@.len() > 0,
        cmd@ == "PEXPIREAT"@,
    ensures
        final(store).wf(),
        outcome_for(cmd@, texts(args@), old(store)@, now, r@, final(store)@),
{
    proof {
        lemma_names();
        lemma_texts(args@);
    }
    if args.len() != 3 {
        return arity_reply(cmd.as_str());
    }
    let t = match parse_u128(args[2].as_str()) {
        Some(v) => v,
        None => {
            return not_integer_reply(cmd.as_str());
        },
    };
    let success = store.expire_until_at(args[1].as_str(), t, now);
    RespValue::Integer(if success { 1 } else { 0 })
}

fn run_persist(args: &Vec<String>, cmd: &String, store: &mut Store, now: u64) -> (r: RespValue)
    requires
        old(store).wf(),
        args@.len() > 0,
        cmd@ == "PERSIST"@,
    ensures
        final(store).wf(),
        outcome_for(cmd@, texts(args@), old(store)@, now, r@, final(store)@),
{
    proof {
        lemma_names();
        lemma_texts(args@);
    }
    if args.len() != 2 {
        return arity_reply(cmd.as_str());
    }
    let success = store.persist_at(args[1].as_str(), now);
    RespValue::Integer(if success { 1 } else { 0 })
}

fn run_ttl(args: &Vec<String>, cmd: &String, store: &mut Store, now: u64) -> (r: RespValue)
    requires
        old(store).wf(),
        args@.len() > 0,
        cmd@ == "TTL"@,
    ensures
        final(store).wf(),
        outcome_for(cmd@, texts(args@), old(store)@, now, r@, final(store)@),
{
    proof {
        lemma_names();
        lemma_texts(args@);
    }
    if args.len() != 2 {
        return arity_reply(cmd.as_str());
    }
    let ttl = store.ttl_at(args[1].as_str(), now);
    RespValue::Integer(ttl)
}

fn run_push(args: &Vec<String>, cmd: &String, store: &mut Store, now: u64) -> (r: RespValue)
    requires
        old(store).wf(),
        args@.len() > 0,
        cmd@ == "LPUSH"@ || cmd@ == "RPUSH"@,
    ensures
        final(store).wf(),
        outcome_for(cmd@, texts(args@), old(store)@, now, r@, final(store)@),
{
    proof {
        lemma_names();
        lemma_texts(args@);
    }
    if args.len() < 3 {
        return arity_reply(cmd.as_str());
    }
    let values = args_from(args, 2);
    let key = args[1].clone();
    let result = if str_eq(cmd.as_str(), "LPUSH") {
        store.lpush_at(key, values, now)
    } else {
        store.rpush_at(key, values, now)
    };
    match result {
        Ok(len) => RespValue::Integer(len),
        Err(e) => RespValue::Error(e),
    }
}

fn run_pop(args: &Vec<String>, cmd: &String, store: &mut Store, now: u64) -> (r: RespValue)
    requires
        old(store).wf(),
        args@.len() > 0,
        cmd@ == "LPOP"@ || cmd@ == "RPOP"@,
    ensures
        final(store).wf(),
        outcome_for(cmd@, texts(args@), old(store)@, now, r@, final(store)@),
{
    proof {
        lemma_names();
        lemma_texts(args@);
    }
    if args.len() != 2 {
        return arity_reply(cmd.as_str());
    }
    let result = if str_eq(cmd.as_str(), "LPOP") {
        store.lpop_at(args[1].as_str(), now)
    } else {
        store.rpop_at(args[1].as_str(), now)
    };
    match result {
        Ok(Some(value)) => RespValue::bulk(value),
        Ok(None) => RespValue::null(),
        Err(e) => RespValue::Error(e),
    }
}

fn run_lrange(args: &Vec<String>, cmd: &String, store: &mut Store, now: u64) -> (r: RespValue)
    requires
        old(store).wf(),
        args@.len() > 0,
        cmd@ == "LRANGE"@,
    ensures
        final(store).wf(),
        outcome_for(cmd@, texts(args@), old(store)@, now, r@, final(store)@),
{
    proof {
        lemma_names();
        lemma_texts(args@);
    }
    if args.len() != 4 {
        return arity_reply(cmd.as_str());
    }
    let start = match parse_i64(args[2].as_str()) {
        Ok(v) => v,
        Err(_) => {
            return not_integer_reply(cmd.as_str());
        },
    };
    let stop = match parse_i64(args[3].as_str()) {
        Ok(v) => v,
        Err(_) => {
            return not_integer_reply(cmd.as_str());
        },
    };
    match store.lrange_at(args[1].as_str(), start, stop, now) {
        Ok(values) => RespValue::Array(Some(bulk_replies(values))),
        Err(e) => RespValue::Error(e),
    }
}

/// The arguments from `k` on, as a slice.
proof fn lemma_tail_texts(args: Seq<String>, k: int)
    requires
        0 <= k <= args.len(),
    ensures
        texts(args.subrange(k, args.len() as int)) == texts(args).skip(k),
{
    assert(texts(args.subrange(k, args.len() as int)) =~= texts(args).skip(k));
}

fn run_hset(args: &Vec<String>, cmd: &String, store: &mut Store, now: u64) -> (r: RespValue)
    requires
        old(store).wf(),
        args@.len() > 0,
        cmd@ == "HSET"@,
    ensures
        final(store).wf(),
        outcome_for(cmd@, texts(args@), old(store)@, now, r@, final(store)@),
{
    proof {
        lemma_names();
        lemma_texts(args@);
    }
    if args.len() != 4 {
        return arity_reply(cmd.as_str());
    }
    match store.hset_at(args[1].clone(), args[2].clone(), args[3].clone(), now) {
        Ok(n) => RespValue::Integer(n),
        Err(e) => RespValue::Error(e),
    }
}

fn run_hget(args: &Vec<String>, cmd: &String, store: &mut Store, now: u64) -> (r: RespValue)
    requires
        old(store).wf(),
        args@.len() > 0,
        cmd@ == "HGET"@,
    ensures
        final(store).wf(),
        outcome_for(cmd@, texts(args@), old(store)@, now, r@, final(store)@),
{
    proof {
        lemma_names();
        lemma_texts(args@);
    }
    if args.len() != 3 {
        return arity_reply(cmd.as_str());
    }
    match store.hget_at(args[1].as_str(), args[2].as_str(), now) {
        Ok(Some(v)) => RespValue::bulk(v),
        Ok(None) => RespValue::null(),
        Err(e) => RespValue::Error(e),
    }
}

fn run_hdel(args: &Vec<String>, cmd: &String, store: &mut Store, now: u64) -> (r: RespValue)
    requires
        old(store).wf(),
        args@.len() > 0,
        cmd@ == "HDEL"@,
    ensures
        final(store).wf(),
        outcome_for(cmd@, texts(args@), old(store)@, now, r@, final(store)@),
{
    proof {
        lemma_names();
        lemma_texts(args@);
    }
    if args.len() < 3 {
        return arity_reply(cmd.as_str());
    }
    let fields = &args.as_slice()[2..args.len()];
    proof {
        lemma_tail_texts(args@, 2);
    }
    match store.hdel_at(args[1].as_str(), fields, now) {
        Ok(n) => RespValue::Integer(n),
        Err(e) => RespValue::Error(e),
    }
}

/// A bulk string reply for each field, then its value, pair by pair.
pub fn pair_replies(ps: Vec<(String, String)>) -> (r: Vec<RespValue>)
    ensures
        crate::resp::frames_of(r@) == pair_bulks(ps@),
{
    let mut out: Vec<RespValue> = Vec::new();
    let mut i: usize = 0;
    while i < ps.len()
        invariant
            i <= ps@.len(),
            crate::resp::frames_of(out@) == pair_bulks(ps@.take(i as int)),
        decreases ps@.len() - i,
    {
        let ghost before = out@;
        out.push(RespValue::bulk(ps[i].0.clone()));
        out.push(RespValue::bulk(ps[i].1.clone()));
        assert(ps@.take(i + 1).drop_last() =~= ps@.take(i as int));
        assert(crate::resp::frames_of(out@) =~= crate::resp::frames_of(before)
            + seq![Frame::Bulk(Some(ps@[i as int].0@)), Frame::Bulk(Some(ps@[i as int].1@))]);
        i = i + 1;
    }
    assert(ps@.take(i as int) =~= ps@);
    out
}

fn run_hgetall(args: &Vec<String>, cmd: &String, store: &mut Store, now: u64) -> (r: RespValue)
    requires
        old(store).wf(),
        args@.len() > 0,
        cmd@ == "HGETALL"@,
    ensures
        final(store).wf(),
        outcome_for(cmd@, texts(args@), old(store)@, now, r@, final(store)@),
{
    proof {
        lemma_names();
        lemma_texts(args@);
    }
    if args.len() != 2 {
        return arity_reply(cmd.as_str());
    }
    match store.hgetall_at(args[1].as_str(), now) {
        Ok(ps) => {
            let ghost g = ps@;
            let r = RespValue::Array(Some(pair_replies(ps)));
            assert(r@ == Frame::Array(Some(pair_bulks(g))));
            r
        },
        Err(e) => RespValue::Error(e),
    }
}

fn run_sadd(args: &Vec<String>, cmd: &String, store: &mut Store, now: u64) -> (r: RespValue)
    requires
        old(store).wf(),
        args@.len() > 0,
        cmd@ == "SADD"@,
    ensures
        final(store).wf(),
        outcome_for(cmd@, texts(args@), old(store)@, now, r@, final(store)@),
{
    proof {
        lemma_names();
        lemma_texts(args@);
    }
    if args.len() < 3 {
        return arity_reply(cmd.as_str());
    }
    let members = &args.as_slice()[2..args.len()];
    proof {
        lemma_tail_texts(args@, 2);
    }
    match store.sadd_at(args[1].clone(), members, now) {
        Ok(n) => RespValue::Integer(n),
        Err(e) => RespValue::Error(e),
    }
}

fn run_srem(args: &Vec<String>, cmd: &String, store: &mut Store, now: u64) -> (r: RespValue)
    requires
        old(store).wf(),
        args@.len() > 0,
        cmd@ == "SREM"@,
    ensures
        final(store).wf(),
        outcome_for(cmd@, texts(args@), old(store)@, now, r@, final(store)@),
{
    proof {
        lemma_names();
        lemma_texts(args@);
    }
    if args.len() < 3 {
        return arity_reply(cmd.as_str());
    }
    let members = &args.as_slice()[2..args.len()];
    proof {
        lemma_tail_texts(args@, 2);
    }
    match store.srem_at(args[1].as_str(), members, now) {
        Ok(n) => RespValue::Integer(n),
        Err(e) => RespValue::Error(e),
    }
}

fn run_sismember(args: &Vec<String>, cmd: &String, store: &mut Store, now: u64) -> (r: RespValue)
    requires
        old(store).wf(),
        args@.len() > 0,
        cmd@ == "SISMEMBER"@,
    ensures
        final(store).wf(),
        outcome_for(cmd@, texts(args@), old(store)@, now, r@, final(store)@),
{
    proof {
        lemma_names();
        lemma_texts(args@);
    }
    if args.len() != 3 {
        return arity_reply(cmd.as_str());
    }
    match store.sismember_at(args[1].as_str(), args[2].as_str(), now) {
        Ok(b) => RespValue::Integer(if b { 1 } else { 0 }),
        Err(e) => RespValue::Error(e),
    }
}

fn run_smembers(args: &Vec<String>, cmd: &String, store: &mut Store, now: u64) -> (r: RespValue)
    requires
        old(store).wf(),
        args@.len() > 0,
        cmd@ == "SMEMBERS"@,
    ensures
        final(store).wf(),
        outcome_for(cmd@, texts(args@), old(store)@, now, r@, final(store)@),
{
    proof {
        lemma_names();
        lemma_texts(args@);
    }
    if args.len() != 2 {
        return arity_reply(cmd.as_str());
    }
    match store.smembers_at(args[1].as_str(), now) {
        Ok(vs) => {
            let ghost ks = texts(vs@);
            let r = RespValue::Array(Some(bulk_replies(vs)));
            assert(r@ == Frame::Array(Some(bulks(ks))));
            r
        },
        Err(e) => RespValue::Error(e),
    }
}

/// Runs the command `args`, whose name upper-cased is `cmd`, on `store` at
/// time `now` and gives its reply; see `outcome_for`.
pub fn dispatch(cmd: &String, args: &Vec<String>, store: &mut Store, now: u64) -> (r: RespValue)
    requires
        old(store).wf(),
        args@.len() > 0,
    ensures
        final(store).wf(),
        outcome_for(cmd@, texts(args@), old(store)@, now, r@, final(store)@),
{
    proof {
        lemma_names();
        lemma_texts(args@);
    }
    if str_eq(cmd.as_str(), "PING") {
        run_ping(args, cmd, store, now)
    } else if str_eq(cmd.as_str(), "GET") {
        run_get(args, cmd, store, now)
    } else if str_eq(cmd.as_str(), "SET") {
        run_set(args, cmd, store, now)
    } else if str_eq(cmd.as_str(), "DEL") {
        run_del(args, cmd, store, now)
    } else if str_eq(cmd.as_str(), "EXISTS") {
        run_exists(args, cmd, store, now)
    } else if str_eq(cmd.as_str(), "KEYS") {
        run_keys(args, cmd, store, now)
    } else if str_eq(cmd.as_str(), "EXPIRE") {
        run_expire(args, cmd, store, now)
    } else if str_eq(cmd.as_str(), "PEXPIREAT") {
        run_pexpireat(args, cmd, store, now)
    } else if str_eq(cmd.as_str(), "PERSIST") {
        run_persist(args, cmd, store, now)
    } else if str_eq(cmd.as_str(), "TTL") {
        run_ttl(args, cmd, store, now)
    } else if str_eq(cmd.as_str(), "LPUSH") || str_eq(cmd.as_str(), "RPUSH") {
        run_push(args, cmd, store, now)
    } else if str_eq(cmd.as_str(), "LPOP") || str_eq(cmd.as_str(), "RPOP") {
        run_pop(args, cmd, store, now)
    } else if str_eq(cmd.as_str(), "LRANGE") {
        run_lrange(args, cmd, store, now)
    } else if str_eq(cmd.as_str(), "HSET") {
        run_hset(args, cmd, store, now)
    } else if str_eq(cmd.as_str(), "HGET") {
        run_hget(args, cmd, store, now)
    } else if str_eq(cmd.as_str(), "HDEL") {
        run_hdel(args, cmd, store, now)
    } else if str_eq(cmd.as_str(), "HGETALL") {
        run_hgetall(args, cmd, store, now)
    } else if str_eq(cmd.as_str(), "SADD") {
        run_sadd(args, cmd, store, now)
    } else if str_eq(cmd.as_str(), "SREM") {
        run_srem(args, cmd, store, now)
    } else if str_eq(cmd.as_str(), "SISMEMBER") {
        run_sismember(args, cmd, store, now)
    } else if str_eq(cmd.as_str(), "SMEMBERS") {
        run_smembers(args, cmd, store, now)
    } else {
        RespValue::Error(join3("ERR unknown command '", cmd.as_str(), "'"))
    }
}

/// Runs the command `args` on `store` at time `now` and gives its reply; see
/// `outcome`.
pub fn execute_at(args: Vec<String>, store: &mut Store, now: u64) -> (r: RespValue)
    requires
        old(store).wf(),
    ensures
        final(store).wf(),
        outcome(texts(args@), old(store)@, now, r@, final(store)@),
        args@.len() > 0 && all_ascii(args@[0]@)
            ==> outcome_for(ascii_upper(args@[0]@), texts(args@), old(store)@, now, r@, final(store)@),
{
    proof {
        lemma_texts(args@);
    }
    if args.len() == 0 {
        return RespValue::err("ERR empty command");
    }
    let cmd = to_upper(args[0].as_str());
    dispatch(&cmd, &args, store, now)
}

/// Runs the command `args` on `store` and gives its reply; see `outcome`,
/// at the time the clock read.
pub fn execute(args: Vec<String>, store: &mut Store) -> (r: RespValue)
    requires
        old(store).wf(),
    ensures
        final(store).wf(),
        exists|now: u64| #[trigger] outcome(texts(args@), old(store)@, now, r@, final(store)@)
            && (args@.len() > 0 && all_ascii(args@[0]@)
                ==> outcome_for(ascii_upper(args@[0]@), texts(args@), old(store)@, now, r@, final(store)@)),
{
    let now = clock_millis();
    execute_at(args, store, now)
}


/// The text a frame gives as a command argument: that of a bulk or simple
/// string; none for any other frame.
pub open spec fn arg_text(f: Frame) -> Option<Seq<char>> {
    match f {
        Frame::Bulk(Some(s)) => Some(s),
        Frame::Simple(s) => Some(s),
        _ => None,
    }
}

/// The argument texts of a list of frames, in order, skipping the frames
/// that give none.
pub open spec fn arg_texts(items: Seq<Frame>) -> Seq<Seq<char>>
    decreases items.len(),
{
    if items.len() == 0 {
        seq![]
    } else {
        let before = arg_texts(items.drop_last());
        match arg_text(items.last()) {
            Some(t) => before.push(t),
            None => before,
        }
    }
}

/// The command that a frame carries: the argument texts of an array; nothing
/// for any other frame.
pub open spec fn args_of(f: Frame) -> Seq<Seq<char>> {
    match f {
        Frame::Array(Some(items)) => arg_texts(items),
        _ => seq![],
    }
}

/// The command arguments that a parsed value carries; see `args_of`.
pub fn extract_args(value: RespValue) -> (r: Vec<String>)
    ensures
        texts(r@) == args_of(value@),
{
    let mut out: Vec<String> = Vec::new();
    match value {
        RespValue::Array(Some(items)) => {
            let ghost fs = crate::resp::frames_of(items@);
            let mut i: usize = 0;
            assert(fs.take(0) =~= Seq::<Frame>::empty());
            while i < items.len()
                invariant
                    i <= items@.len(),
                    fs == crate::resp::frames_of(items@),
                    texts(out@) == arg_texts(fs.take(i as int)),
                decreases items@.len() - i,
            {
                let ghost before = out@;
                assert(fs.take(i + 1).drop_last() =~= fs.take(i as int));
                assert(fs[i as int] == items@[i as int]@);
                match &items[i] {
                    RespValue::BulkString(Some(s)) => {
                        out.push(s.clone());
                        assert(texts(out@) =~= texts(before).push(s@));
                    },
                    RespValue::SimpleString(s) => {
                        out.push(s.clone());
                        assert(texts(out@) =~= texts(before).push(s@));
                    },
                    _ => {},
                }
                i = i + 1;
            }
            assert(fs.take(i as int) =~= fs);
            out
        },
        _ => {
            assert(texts(out@) =~= Seq::<Seq<char>>::empty());
            out
        },
    }
}

/// The commands that change the key space, whose records go to the
/// append-only file.
pub open spec fn is_write_name(name: Seq<char>) -> bool {
    ||| name == "SET"@
    ||| name == "DEL"@
    ||| name == "EXPIRE"@
    ||| name == "PEXPIREAT"@
    ||| name == "PERSIST"@
    ||| name == "LPUSH"@
    ||| name == "RPUSH"@
    ||| name == "LPOP"@
    ||| name == "RPOP"@
    ||| name == "HSET"@
    ||| name == "HDEL"@
    ||| name == "SADD"@
    ||| name == "SREM"@
}

/// `args` is a command that changes the key space.
pub open spec fn is_write(args: Seq<Seq<char>>) -> bool {
    args.len() > 0 && is_write_name(uppercase(args[0]))
}

/// Whether `args` is a command that changes the key space.
pub fn writes(args: &Vec<String>) -> (r: bool)
    ensures
        r == is_write(texts(args@)),
{
    proof {
        lemma_texts(args@);
    }
    if args.len() == 0 {
        return false;
    }
    let name = to_upper(args[0].as_str());
    let n = name.as_str();
    str_eq(n, "SET") || str_eq(n, "DEL") || str_eq(n, "EXPIRE") || str_eq(n, "PEXPIREAT") || str_eq(n, "PERSIST") || str_eq(n, "LPUSH")
        || str_eq(n, "RPUSH") || str_eq(n, "LPOP") || str_eq(n, "RPOP") || str_eq(n, "HSET") || str_eq(n, "HDEL")
        || str_eq(n, "SADD") || str_eq(n, "SREM")
}

} // verus!
