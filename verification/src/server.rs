//! What a connection does with the bytes a client has sent: the replies it
//! writes back and the bytes it keeps for later.
use vstd::prelude::*;
use crate::commands::{outcome, args_of, execute_at, extract_args, arity_error, lemma_texts, is_write, writes};
use crate::persistence::{record_frame, aof_record, record_args, record_args_at};
use crate::ext::{uppercase, to_upper};
use crate::pubsub::{
    Subscriptions, Registry, join_notices, joined, leave_notices, left, leaving, notice, pairs_for, listeners,
    message_frame, subscribe_command, unsubscribe_command, publish_command,
};
use crate::resp::frames_of;
use crate::store::texts;
use crate::text::str_eq;
use crate::ext::clock_millis;
use crate::resp::{parse, parse_frame, Parsed, Frame, RespValue, RespError, encode_frame, lemma_parse_length, lemma_parse_agree};
use crate::store::{Store, Entry};
use crate::text::join;

verus! {

/// The reply to a buffer that does not hold RESP.
pub open spec fn protocol_reply(msg: Seq<char>) -> Frame {
    Frame::Error("Protocol error: "@ + msg)
}

/// What a connection works on: the key space, the channels it listens to,
/// and which connection listens to which channel.
pub struct Conn {
    pub keys: Map<Seq<char>, Entry>,
    pub subs: Seq<Seq<char>>,
    pub reg: Set<(Seq<char>, u64)>,
}

/// The connection state with another key space.
pub open spec fn with_keys(st: Conn, keys: Map<Seq<char>, Entry>) -> Conn {
    Conn { keys, subs: st.subs, reg: st.reg }
}

/// The bytes of the replies, one after another.
pub open spec fn encode_all(replies: Seq<Frame>) -> Seq<u8>
    decreases replies.len(),
{
    if replies.len() == 0 {
        seq![]
    } else {
        encode_all(replies.drop_last()) + encode_frame(replies.last())
    }
}

/// The name of a command, upper-cased; empty for an empty command.
pub open spec fn command_name(args: Seq<Seq<char>>) -> Seq<char> {
    if args.len() > 0 { uppercase(args[0]) } else { seq![] }
}

/// One command `args` on connection `client`, at time `now`: it answers
/// `replies`, leaves `after`, and hands `sends` (the connections to deliver
/// to, and the message) to be delivered. SUBSCRIBE, UNSUBSCRIBE and PUBLISH
/// work on the channels; every other command is `outcome` on the key space
/// and answers one reply.
pub open spec fn session_step(
    args: Seq<Seq<char>>,
    client: u64,
    st: Conn,
    now: u64,
    replies: Seq<Frame>,
    after: Conn,
    sends: Seq<(Seq<u64>, Frame)>,
) -> bool {
    let name = command_name(args);
    if name == "SUBSCRIBE"@ {
        &&& sends.len() == 0
        &&& if args.len() < 2 {
            replies == seq![arity_error("SUBSCRIBE"@)] && after == st
        } else {
            &&& replies == join_notices(st.subs, args.skip(1))
            &&& after == Conn { keys: st.keys, subs: joined(st.subs, args.skip(1)), reg: st.reg.union(pairs_for(args.skip(1), client)) }
        }
    } else if name == "UNSUBSCRIBE"@ {
        let chs = leaving(args, st.subs);
        &&& sends.len() == 0
        &&& if chs.len() == 0 {
            replies == seq![notice("unsubscribe"@, None, 0)] && after == st
        } else {
            &&& replies == leave_notices(st.subs, chs)
            &&& after == Conn { keys: st.keys, subs: left(st.subs, chs), reg: st.reg.difference(pairs_for(chs, client)) }
        }
    } else if name == "PUBLISH"@ {
        &&& after == st
        &&& if args.len() != 3 {
            replies == seq![arity_error("PUBLISH"@)] && sends.len() == 0
        } else {
            exists|ids: Seq<u64>| {
                &&& #[trigger] ids.no_duplicates()
                &&& ids.to_set() == listeners(st.reg, args[1])
                &&& replies == seq![Frame::Integer(ids.len() as i64)]
                &&& sends == seq![(ids, message_frame(args[1], args[2]))]
            }
        }
    } else {
        &&& sends.len() == 0
        &&& replies.len() == 1
        &&& after.subs == st.subs
        &&& after.reg == st.reg
        &&& outcome(args, st.keys, now, replies[0], after.keys)
    }
}

/// Serving the bytes `b` on connection `client` at time `now`, from the
/// state `st`, writes `out`, takes `consumed` bytes, says whether to drop the
/// whole buffer (`clear`), leaves the state `after` and hands `sends` to be
/// delivered, and `log`, the records of the commands that change the key
/// space: each complete value is a command whose replies are written in
/// turn; an incomplete value waits for more bytes; a value that is not RESP
/// gets a protocol error reply and the buffer is dropped.
pub open spec fn serves(
    b: Seq<u8>,
    client: u64,
    st: Conn,
    now: u64,
    out: Seq<u8>,
    consumed: nat,
    clear: bool,
    after: Conn,
    sends: Seq<(Seq<u64>, Frame)>,
    log: Seq<u8>,
) -> bool
    decreases b.len(), 1int,
{
    match parse_frame(b) {
        Parsed::Incomplete => out == Seq::<u8>::empty() && consumed == 0 && !clear && after == st && sends.len() == 0
            && log.len() == 0,
        Parsed::Protocol(msg) => out == encode_frame(protocol_reply(msg)) && consumed == 0 && clear && after == st
            && sends.len() == 0 && log.len() == 0,
        Parsed::Done(f, k) => serves_command(b, client, st, now, f, k, out, consumed, clear, after, sends, log),
    }
}

/// The record of `args`, run at `now`, for the append-only file if it
/// changes the key space (see `record_args`); nothing otherwise.
pub open spec fn logged(args: Seq<Seq<char>>, now: u64) -> Seq<u8> {
    if is_write(args) { encode_frame(record_frame(record_args(args, now))) } else { seq![] }
}

/// Serving `b`, whose first `k` bytes hold the command `f`: its replies, its
/// record and what it hands to deliver come first, then what serving the
/// rest comes to.
pub open spec fn serves_command(
    b: Seq<u8>,
    client: u64,
    st: Conn,
    now: u64,
    f: Frame,
    k: nat,
    out: Seq<u8>,
    consumed: nat,
    clear: bool,
    after: Conn,
    sends: Seq<(Seq<u64>, Frame)>,
    log: Seq<u8>,
) -> bool
    decreases b.len(), 0int,
{
    if 1 <= k <= b.len() {
        exists|replies: Seq<Frame>, mid: Conn, s1: Seq<(Seq<u64>, Frame)>| {
            let n = encode_all(replies).len() as int;
            &&& #[trigger] session_step(args_of(f), client, st, now, replies, mid, s1)
            &&& n <= out.len()
            &&& out.take(n) == encode_all(replies)
            &&& s1.len() <= sends.len()
            &&& sends.take(s1.len() as int) == s1
            &&& logged(args_of(f), now).len() <= log.len()
            &&& log.take(logged(args_of(f), now).len() as int) == logged(args_of(f), now)
            &&& k <= consumed
            &&& serves(b.subrange(k as int, b.len() as int), client, mid, now, out.skip(n), (consumed - k) as nat, clear,
                after, sends.skip(s1.len() as int), log.skip(logged(args_of(f), now).len() as int))
        }
    } else {
        false
    }
}

pub proof fn lemma_serves_step(
    b: Seq<u8>,
    client: u64,
    st: Conn,
    now: u64,
    f: Frame,
    k: nat,
    replies: Seq<Frame>,
    mid: Conn,
    s1: Seq<(Seq<u64>, Frame)>,
    o: Seq<u8>,
    c: nat,
    cl: bool,
    a: Conn,
    s2: Seq<(Seq<u64>, Frame)>,
    l2: Seq<u8>,
)
    requires
        parse_frame(b) == Parsed::Done(f, k),
        1 <= k <= b.len(),
        session_step(args_of(f), client, st, now, replies, mid, s1),
        serves(b.subrange(k as int, b.len() as int), client, mid, now, o, c, cl, a, s2, l2),
    ensures
        serves(b, client, st, now, encode_all(replies) + o, k + c, cl, a, s1 + s2, logged(args_of(f), now) + l2),
{
    let out = encode_all(replies) + o;
    let l1 = logged(args_of(f), now);
    assert(out.take(encode_all(replies).len() as int) =~= encode_all(replies));
    assert(out.skip(encode_all(replies).len() as int) =~= o);
    assert((s1 + s2).take(s1.len() as int) =~= s1);
    assert((s1 + s2).skip(s1.len() as int) =~= s2);
    assert((l1 + l2).take(l1.len() as int) =~= l1);
    assert((l1 + l2).skip(l1.len() as int) =~= l2);
    assert(serves_command(b, client, st, now, f, k, out, k + c, cl, a, s1 + s2, l1 + l2));
}

/// Writes each reply in turn.
fn write_all(replies: &Vec<RespValue>, out: &mut Vec<u8>)
    ensures
        final(out)@ == old(out)@ + encode_all(frames_of(replies@)),
{
    let mut i: usize = 0;
    assert(frames_of(replies@).take(0) =~= Seq::<Frame>::empty());
    assert(old(out)@ + encode_all(Seq::<Frame>::empty()) =~= old(out)@);
    while i < replies.len()
        invariant
            i <= replies@.len(),
            out@ == old(out)@ + encode_all(frames_of(replies@).take(i as int)),
        decreases replies@.len() - i,
    {
        let ghost before = out@;
        replies[i].write_to(out);
        let ghost fs = frames_of(replies@);
        assert(fs.take(i + 1).drop_last() =~= fs.take(i as int));
        assert(fs.take(i + 1).last() == replies@[i as int]@);
        assert(out@ =~= old(out)@ + encode_all(fs.take(i + 1)));
        i = i + 1;
    }
    assert(frames_of(replies@).take(i as int) =~= frames_of(replies@));
}

/// What is handed to be delivered, messages taken as frames.
pub open spec fn sends_of(d: Seq<(Vec<u64>, RespValue)>) -> Seq<(Seq<u64>, Frame)> {
    d.map_values(|x: (Vec<u64>, RespValue)| (x.0@, x.1@))
}

/// Runs the command `args` on connection `client` at time `now`: its
/// replies, and the messages to deliver; see `session_step`.
pub fn execute_session_at(
    args: Vec<String>,
    client: u64,
    store: &mut Store,
    subs: &mut Subscriptions,
    reg: &mut Registry,
    now: u64,
) -> (r: (Vec<RespValue>, Vec<(Vec<u64>, RespValue)>))
    requires
        old(store).wf(),
        old(subs).wf(),
        old(reg).wf(),
    ensures
        final(store).wf(),
        final(subs).wf(),
        final(reg).wf(),
        session_step(texts(args@), client, Conn { keys: old(store)@, subs: old(subs)@, reg: old(reg)@ }, now,
            frames_of(r.0@), Conn { keys: final(store)@, subs: final(subs)@, reg: final(reg)@ }, sends_of(r.1@)),
{
    proof {
        lemma_texts(args@);
        lemma_channel_names();
    }
    let mut sends: Vec<(Vec<u64>, RespValue)> = Vec::new();
    assert(sends_of(sends@) =~= Seq::<(Seq<u64>, Frame)>::empty());
    if args.len() == 0 {
        assert(command_name(texts(args@)) =~= Seq::<char>::empty());
    }
    if args.len() > 0 {
        let name = to_upper(args[0].as_str());
        assert(name@ == command_name(texts(args@)));
        if str_eq(name.as_str(), "SUBSCRIBE") {
            let replies = subscribe_command(&args, client, subs, reg);
            return (replies, sends);
        } else if str_eq(name.as_str(), "UNSUBSCRIBE") {
            let replies = unsubscribe_command(&args, client, subs, reg);
            return (replies, sends);
        } else if str_eq(name.as_str(), "PUBLISH") {
            let (reply, targets, message) = publish_command(&args, reg);
            let mut replies: Vec<RespValue> = Vec::new();
            replies.push(reply);
            assert(frames_of(replies@) =~= seq![replies@[0]@]);
            if args.len() == 3 {
                let ghost ids = targets@;
                let ghost m = message@;
                sends.push((targets, message));
                assert(sends_of(sends@) =~= seq![(ids, m)]);
                assert(ids.no_duplicates());
            }
            return (replies, sends);
        }
    }
    let ghost a = texts(args@);
    assert(command_name(a) != "SUBSCRIBE"@ && command_name(a) != "UNSUBSCRIBE"@ && command_name(a) != "PUBLISH"@);
    let reply = execute_at(args, store, now);
    let ghost rf = reply@;
    let mut replies: Vec<RespValue> = Vec::new();
    replies.push(reply);
    assert(frames_of(replies@) =~= seq![rf]);
    assert(outcome(a, old(store)@, now, rf, store@));
    assert(sends_of(sends@).len() == 0);
    (replies, sends)
}

/// The names of the channel commands are the texts they spell.
proof fn lemma_channel_names()
    ensures
        "SUBSCRIBE"@ == seq!['S', 'U', 'B', 'S', 'C', 'R', 'I', 'B', 'E'],
        "UNSUBSCRIBE"@ == seq!['U', 'N', 'S', 'U', 'B', 'S', 'C', 'R', 'I', 'B', 'E'],
        "PUBLISH"@ == seq!['P', 'U', 'B', 'L', 'I', 'S', 'H'],
{
    reveal_strlit("SUBSCRIBE");
    reveal_strlit("UNSUBSCRIBE");
    reveal_strlit("PUBLISH");
}

/// Serves the bytes that connection `client` has sent, at time `now`: runs
/// each complete command on `store` and the channels, and gives the replies
/// to write back, how many bytes were used, whether the whole buffer is to
/// be dropped, the messages to deliver, and the records to append to the
/// append-only file; see `serves`.
pub fn serve_buffer_at(
    buf: &[u8],
    client: u64,
    store: &mut Store,
    subs: &mut Subscriptions,
    reg: &mut Registry,
    now: u64,
) -> (r: (Vec<u8>, usize, bool, Vec<(Vec<u64>, RespValue)>, Vec<u8>))
    requires
        old(store).wf(),
        old(subs).wf(),
        old(reg).wf(),
    ensures
        final(store).wf(),
        final(subs).wf(),
        final(reg).wf(),
        serves(buf@, client, Conn { keys: old(store)@, subs: old(subs)@, reg: old(reg)@ }, now, r.0@, r.1 as nat, r.2,
            Conn { keys: final(store)@, subs: final(subs)@, reg: final(reg)@ }, sends_of(r.3@), r.4@),
{
    let ghost st0 = Conn { keys: store@, subs: subs@, reg: reg@ };
    let mut out: Vec<u8> = Vec::new();
    let mut sends: Vec<(Vec<u64>, RespValue)> = Vec::new();
    let mut log: Vec<u8> = Vec::new();
    let mut consumed: usize = 0;
    assert(buf@.subrange(0, buf@.len() as int) =~= buf@);
    assert forall|o: Seq<u8>| #[trigger] (out@ + o) == o by {
        assert(out@ + o =~= o);
    }
    assert forall|d: Seq<(Seq<u64>, Frame)>| #[trigger] (sends_of(sends@) + d) == d by {
        assert(sends_of(sends@) + d =~= d);
    }
    assert forall|l: Seq<u8>| #[trigger] (log@ + l) == l by {
        assert(log@ + l =~= l);
    }
    loop
        invariant
            store.wf(),
            subs.wf(),
            reg.wf(),
            st0 == (Conn { keys: old(store)@, subs: old(subs)@, reg: old(reg)@ }),
            consumed <= buf@.len(),
            forall|o: Seq<u8>, c: nat, cl: bool, a: Conn, d: Seq<(Seq<u64>, Frame)>, l: Seq<u8>|
                #[trigger] serves(buf@.subrange(consumed as int, buf@.len() as int), client,
                    Conn { keys: store@, subs: subs@, reg: reg@ }, now, o, c, cl, a, d, l)
                    ==> serves(buf@, client, st0, now, out@ + o, (consumed + c) as nat, cl, a, sends_of(sends@) + d,
                        log@ + l),
        decreases buf@.len() - consumed,
    {
        let rest = &buf[consumed..buf.len()];
        let ghost rb = rest@;
        let ghost st = Conn { keys: store@, subs: subs@, reg: reg@ };
        let ghost o0 = out@;
        let ghost d0 = sends_of(sends@);
        let ghost l0 = log@;
        match parse(rest) {
            Ok((value, n)) => {
                proof {
                    lemma_parse_length(rb);
                }
                let ghost f = value@;
                let args = extract_args(value);
                if writes(&args) {
                    let kept = record_args_at(&args, now);
                    let mut record = aof_record(kept.as_slice());
                    log.append(&mut record);
                }
                assert(log@ =~= l0 + logged(args_of(f), now));
                let (replies, more) = execute_session_at(args, client, store, subs, reg, now);
                write_all(&replies, &mut out);
                let ghost rs = frames_of(replies@);
                let ghost s1 = sends_of(more@);
                let ghost mid = Conn { keys: store@, subs: subs@, reg: reg@ };
                let mut more = more;
                sends.append(&mut more);
                proof {
                    assert(sends_of(sends@) =~= d0 + s1);
                    assert(rb.subrange(n as int, rb.len() as int) =~= buf@.subrange(consumed + n, buf@.len() as int));
                    assert forall|o: Seq<u8>, c: nat, cl: bool, a: Conn, d: Seq<(Seq<u64>, Frame)>, l: Seq<u8>|
                        #[trigger] serves(buf@.subrange(consumed + n, buf@.len() as int), client, mid, now, o, c, cl, a, d, l)
                            implies serves(buf@, client, st0, now, out@ + o, (consumed + n + c) as nat, cl, a,
                                sends_of(sends@) + d, log@ + l) by {
                        lemma_serves_step(rb, client, st, now, f, n as nat, rs, mid, s1, o, c, cl, a, d, l);
                        assert(o0 + (encode_all(rs) + o) =~= out@ + o);
                        assert(d0 + (s1 + d) =~= sends_of(sends@) + d);
                        assert(l0 + (logged(args_of(f), now) + l) =~= log@ + l);
                    }
                }
                consumed = consumed + n;
            },
            Err(RespError::Incomplete) => {
                proof {
                    assert(serves(rb, client, st, now, Seq::<u8>::empty(), 0, false, st, Seq::<(Seq<u64>, Frame)>::empty(),
                        Seq::<u8>::empty()));
                    assert(out@ + Seq::<u8>::empty() =~= out@);
                    assert(d0 + Seq::<(Seq<u64>, Frame)>::empty() =~= d0);
                    assert(log@ + Seq::<u8>::empty() =~= log@);
                }
                return (out, consumed, false, sends, log);
            },
            Err(RespError::Protocol(msg)) => {
                let reply = RespValue::Error(join("Protocol error: ", msg.as_str()));
                reply.write_to(&mut out);
                proof {
                    assert(serves(rb, client, st, now, encode_frame(protocol_reply(msg@)), 0, true, st,
                        Seq::<(Seq<u64>, Frame)>::empty(), Seq::<u8>::empty()));
                    assert(o0 + encode_frame(protocol_reply(msg@)) =~= out@);
                    assert(d0 + Seq::<(Seq<u64>, Frame)>::empty() =~= d0);
                    assert(log@ + Seq::<u8>::empty() =~= log@);
                }
                return (out, consumed, true, sends, log);
            },
        }
    }
}

/// Serves the bytes that connection `client` has sent; see
/// `serve_buffer_at`, at the time the clock read.
pub fn serve_buffer(
    buf: &[u8],
    client: u64,
    store: &mut Store,
    subs: &mut Subscriptions,
    reg: &mut Registry,
) -> (r: (Vec<u8>, usize, bool, Vec<(Vec<u64>, RespValue)>, Vec<u8>))
    requires
        old(store).wf(),
        old(subs).wf(),
        old(reg).wf(),
    ensures
        final(store).wf(),
        final(subs).wf(),
        final(reg).wf(),
        exists|now: u64| #[trigger] serves(buf@, client, Conn { keys: old(store)@, subs: old(subs)@, reg: old(reg)@ },
            now, r.0@, r.1 as nat, r.2, Conn { keys: final(store)@, subs: final(subs)@, reg: final(reg)@ }, sends_of(r.3@),
            r.4@),
{
    let now = clock_millis();
    serve_buffer_at(buf, client, store, subs, reg, now)
}

/// Serving takes no more bytes than there are.
pub proof fn lemma_serves_consumed(
    b: Seq<u8>,
    client: u64,
    st: Conn,
    now: u64,
    out: Seq<u8>,
    consumed: nat,
    clear: bool,
    after: Conn,
    sends: Seq<(Seq<u64>, Frame)>,
    log: Seq<u8>,
)
    requires
        serves(b, client, st, now, out, consumed, clear, after, sends, log),
    ensures
        consumed <= b.len(),
    decreases b.len(),
{
    if let Parsed::Done(f, k) = parse_frame(b) {
        let (replies, mid, s1) = choose|replies: Seq<Frame>, mid: Conn, s1: Seq<(Seq<u64>, Frame)>| {
            let n = encode_all(replies).len() as int;
            &&& #[trigger] session_step(args_of(f), client, st, now, replies, mid, s1)
            &&& n <= out.len()
            &&& out.take(n) == encode_all(replies)
            &&& s1.len() <= sends.len()
            &&& sends.take(s1.len() as int) == s1
            &&& logged(args_of(f), now).len() <= log.len()
            &&& log.take(logged(args_of(f), now).len() as int) == logged(args_of(f), now)
            &&& k <= consumed
            &&& serves(b.subrange(k as int, b.len() as int), client, mid, now, out.skip(n), (consumed - k) as nat, clear,
                after, sends.skip(s1.len() as int), log.skip(logged(args_of(f), now).len() as int))
        };
        let n = encode_all(replies).len() as int;
        lemma_serves_consumed(b.subrange(k as int, b.len() as int), client, mid, now, out.skip(n), (consumed - k) as nat,
            clear, after, sends.skip(s1.len() as int), log.skip(logged(args_of(f), now).len() as int));
    }
}

/// Serving bytes that came in two pieces, the first served as it came and
/// its unused bytes kept and followed by the second, writes and does what
/// serving both pieces at once does.
pub proof fn lemma_serves_in_two(
    b1: Seq<u8>,
    b2: Seq<u8>,
    client: u64,
    st: Conn,
    now: u64,
    o1: Seq<u8>,
    c1: nat,
    st1: Conn,
    d1: Seq<(Seq<u64>, Frame)>,
    l1: Seq<u8>,
    o2: Seq<u8>,
    c2: nat,
    clear: bool,
    st2: Conn,
    d2: Seq<(Seq<u64>, Frame)>,
    l2: Seq<u8>,
)
    requires
        serves(b1, client, st, now, o1, c1, false, st1, d1, l1),
        c1 <= b1.len(),
        serves(b1.skip(c1 as int) + b2, client, st1, now, o2, c2, clear, st2, d2, l2),
    ensures
        serves(b1 + b2, client, st, now, o1 + o2, c1 + c2, clear, st2, d1 + d2, l1 + l2),
    decreases b1.len(), 1int,
{
    match parse_frame(b1) {
        Parsed::Incomplete => {
            assert(b1.skip(0) =~= b1);
            assert(o1 + o2 =~= o2);
            assert(d1 + d2 =~= d2);
            assert(l1 + l2 =~= l2);
        },
        Parsed::Protocol(_) => {},
        Parsed::Done(f, k) => {
            let (replies, mid, s1) = choose|replies: Seq<Frame>, mid: Conn, s1: Seq<(Seq<u64>, Frame)>| {
                let n = encode_all(replies).len() as int;
                &&& #[trigger] session_step(args_of(f), client, st, now, replies, mid, s1)
                &&& n <= o1.len()
                &&& o1.take(n) == encode_all(replies)
                &&& s1.len() <= d1.len()
                &&& d1.take(s1.len() as int) == s1
                &&& logged(args_of(f), now).len() <= l1.len()
                &&& l1.take(logged(args_of(f), now).len() as int) == logged(args_of(f), now)
                &&& k <= c1
                &&& serves(b1.subrange(k as int, b1.len() as int), client, mid, now, o1.skip(n), (c1 - k) as nat, false,
                    st1, d1.skip(s1.len() as int), l1.skip(logged(args_of(f), now).len() as int))
            };
            lemma_serves_in_two_first(b1, b2, client, st, now, o1, c1, st1, d1, l1, o2, c2, clear, st2, d2, l2, f, k,
                replies, mid, s1);
        },
    }
}

/// The step of `lemma_serves_in_two` where the first piece starts with a
/// whole command.
#[verifier::rlimit(40)]
proof fn lemma_serves_in_two_first(
    b1: Seq<u8>,
    b2: Seq<u8>,
    client: u64,
    st: Conn,
    now: u64,
    o1: Seq<u8>,
    c1: nat,
    st1: Conn,
    d1: Seq<(Seq<u64>, Frame)>,
    l1: Seq<u8>,
    o2: Seq<u8>,
    c2: nat,
    clear: bool,
    st2: Conn,
    d2: Seq<(Seq<u64>, Frame)>,
    l2: Seq<u8>,
    f: Frame,
    k: nat,
    replies: Seq<Frame>,
    mid: Conn,
    s1: Seq<(Seq<u64>, Frame)>,
)
    requires
        parse_frame(b1) == Parsed::Done(f, k),
        session_step(args_of(f), client, st, now, replies, mid, s1),
        encode_all(replies).len() <= o1.len(),
        o1.take(encode_all(replies).len() as int) == encode_all(replies),
        s1.len() <= d1.len(),
        d1.take(s1.len() as int) == s1,
        logged(args_of(f), now).len() <= l1.len(),
        l1.take(logged(args_of(f), now).len() as int) == logged(args_of(f), now),
        k <= c1,
        c1 <= b1.len(),
        serves(b1.subrange(k as int, b1.len() as int), client, mid, now, o1.skip(encode_all(replies).len() as int),
            (c1 - k) as nat, false, st1, d1.skip(s1.len() as int), l1.skip(logged(args_of(f), now).len() as int)),
        serves(b1.skip(c1 as int) + b2, client, st1, now, o2, c2, clear, st2, d2, l2),
    ensures
        serves(b1 + b2, client, st, now, o1 + o2, c1 + c2, clear, st2, d1 + d2, l1 + l2),
    decreases b1.len(), 0int,
{
    let b = b1 + b2;
    let n = encode_all(replies).len() as int;
    let g = logged(args_of(f), now);
    let r1 = b1.subrange(k as int, b1.len() as int);
    lemma_parse_length(b1);
    assert(b.take(k as int) =~= b1.take(k as int));
    lemma_parse_agree(b1, b);
    assert(r1.skip(c1 - k) =~= b1.skip(c1 as int));
    lemma_serves_in_two(r1, b2, client, mid, now, o1.skip(n), (c1 - k) as nat, st1, d1.skip(s1.len() as int),
        l1.skip(g.len() as int), o2, c2, clear, st2, d2, l2);
    assert(b.subrange(k as int, b.len() as int) =~= r1 + b2);
    lemma_serves_step(b, client, st, now, f, k, replies, mid, s1, o1.skip(n) + o2, (c1 - k + c2) as nat, clear,
        st2, d1.skip(s1.len() as int) + d2, l1.skip(g.len() as int) + l2);
    assert(encode_all(replies) + (o1.skip(n) + o2) =~= o1 + o2);
    assert(s1 + (d1.skip(s1.len() as int) + d2) =~= d1 + d2);
    assert(g + (l1.skip(g.len() as int) + l2) =~= l1 + l2);
}

/// Serving `b` as `serves` does, but each command at a time of its own: the
/// relation for bytes served over several clock readings.
pub open spec fn serves_clocked(
    b: Seq<u8>,
    client: u64,
    st: Conn,
    out: Seq<u8>,
    consumed: nat,
    clear: bool,
    after: Conn,
    sends: Seq<(Seq<u64>, Frame)>,
    log: Seq<u8>,
) -> bool
    decreases b.len(), 1int,
{
    match parse_frame(b) {
        Parsed::Incomplete => out == Seq::<u8>::empty() && consumed == 0 && !clear && after == st && sends.len() == 0
            && log.len() == 0,
        Parsed::Protocol(msg) => out == encode_frame(protocol_reply(msg)) && consumed == 0 && clear && after == st
            && sends.len() == 0 && log.len() == 0,
        Parsed::Done(f, k) => serves_clocked_command(b, client, st, f, k, out, consumed, clear, after, sends, log),
    }
}

/// Serving `b`, whose first `k` bytes hold the command `f`, that command at
/// some time; see `serves_command`.
pub open spec fn serves_clocked_command(
    b: Seq<u8>,
    client: u64,
    st: Conn,
    f: Frame,
    k: nat,
    out: Seq<u8>,
    consumed: nat,
    clear: bool,
    after: Conn,
    sends: Seq<(Seq<u64>, Frame)>,
    log: Seq<u8>,
) -> bool
    decreases b.len(), 0int,
{
    if 1 <= k <= b.len() {
        exists|now: u64, replies: Seq<Frame>, mid: Conn, s1: Seq<(Seq<u64>, Frame)>| {
            let n = encode_all(replies).len() as int;
            &&& #[trigger] session_step(args_of(f), client, st, now, replies, mid, s1)
            &&& n <= out.len()
            &&& out.take(n) == encode_all(replies)
            &&& s1.len() <= sends.len()
            &&& sends.take(s1.len() as int) == s1
            &&& logged(args_of(f), now).len() <= log.len()
            &&& log.take(logged(args_of(f), now).len() as int) == logged(args_of(f), now)
            &&& k <= consumed
            &&& serves_clocked(b.subrange(k as int, b.len() as int), client, mid, out.skip(n), (consumed - k) as nat, clear,
                after, sends.skip(s1.len() as int), log.skip(logged(args_of(f), now).len() as int))
        }
    } else {
        false
    }
}

pub proof fn lemma_serves_clocked_step(
    b: Seq<u8>,
    client: u64,
    st: Conn,
    now: u64,
    f: Frame,
    k: nat,
    replies: Seq<Frame>,
    mid: Conn,
    s1: Seq<(Seq<u64>, Frame)>,
    o: Seq<u8>,
    c: nat,
    cl: bool,
    a: Conn,
    s2: Seq<(Seq<u64>, Frame)>,
    l2: Seq<u8>,
)
    requires
        parse_frame(b) == Parsed::Done(f, k),
        1 <= k <= b.len(),
        session_step(args_of(f), client, st, now, replies, mid, s1),
        serves_clocked(b.subrange(k as int, b.len() as int), client, mid, o, c, cl, a, s2, l2),
    ensures
        serves_clocked(b, client, st, encode_all(replies) + o, k + c, cl, a, s1 + s2, logged(args_of(f), now) + l2),
{
    let out = encode_all(replies) + o;
    let l1 = logged(args_of(f), now);
    assert(out.take(encode_all(replies).len() as int) =~= encode_all(replies));
    assert(out.skip(encode_all(replies).len() as int) =~= o);
    assert((s1 + s2).take(s1.len() as int) =~= s1);
    assert((s1 + s2).skip(s1.len() as int) =~= s2);
    assert((l1 + l2).take(l1.len() as int) =~= l1);
    assert((l1 + l2).skip(l1.len() as int) =~= l2);
    assert(serves_clocked_command(b, client, st, f, k, out, k + c, cl, a, s1 + s2, l1 + l2));
}

/// What serving comes to at one time is what it comes to when each command
/// may have a time of its own; and serving that is not dropped stops at
/// bytes that are incomplete.
pub proof fn lemma_serves_at_one_time(
    b: Seq<u8>,
    client: u64,
    st: Conn,
    now: u64,
    out: Seq<u8>,
    consumed: nat,
    clear: bool,
    after: Conn,
    sends: Seq<(Seq<u64>, Frame)>,
    log: Seq<u8>,
)
    requires
        serves(b, client, st, now, out, consumed, clear, after, sends, log),
    ensures
        serves_clocked(b, client, st, out, consumed, clear, after, sends, log),
        consumed <= b.len(),
        !clear ==> parse_frame(b.skip(consumed as int)) is Incomplete,
    decreases b.len(),
{
    match parse_frame(b) {
        Parsed::Incomplete => {
            assert(b.skip(0) =~= b);
        },
        Parsed::Protocol(_) => {},
        Parsed::Done(f, k) => {
            let (replies, mid, s1) = choose|replies: Seq<Frame>, mid: Conn, s1: Seq<(Seq<u64>, Frame)>| {
                let n = encode_all(replies).len() as int;
                &&& #[trigger] session_step(args_of(f), client, st, now, replies, mid, s1)
                &&& n <= out.len()
                &&& out.take(n) == encode_all(replies)
                &&& s1.len() <= sends.len()
                &&& sends.take(s1.len() as int) == s1
                &&& logged(args_of(f), now).len() <= log.len()
                &&& log.take(logged(args_of(f), now).len() as int) == logged(args_of(f), now)
                &&& k <= consumed
                &&& serves(b.subrange(k as int, b.len() as int), client, mid, now, out.skip(n), (consumed - k) as nat, clear,
                    after, sends.skip(s1.len() as int), log.skip(logged(args_of(f), now).len() as int))
            };
            let n = encode_all(replies).len() as int;
            let g = logged(args_of(f), now).len() as int;
            let r = b.subrange(k as int, b.len() as int);
            lemma_serves_at_one_time(r, client, mid, now, out.skip(n), (consumed - k) as nat, clear, after,
                sends.skip(s1.len() as int), log.skip(g));
            lemma_serves_clocked_step(b, client, st, now, f, k, replies, mid, s1, out.skip(n), (consumed - k) as nat, clear,
                after, sends.skip(s1.len() as int), log.skip(g));
            assert(encode_all(replies) + out.skip(n) =~= out);
            assert(s1 + sends.skip(s1.len() as int) =~= sends);
            assert(logged(args_of(f), now) + log.skip(g) =~= log);
            assert(r.skip(consumed - k) =~= b.skip(consumed as int));
        },
    }
}

/// Serving that may give each command a time of its own takes no more
/// bytes than there are.
pub proof fn lemma_serves_clocked_consumed(
    b: Seq<u8>,
    client: u64,
    st: Conn,
    out: Seq<u8>,
    consumed: nat,
    clear: bool,
    after: Conn,
    sends: Seq<(Seq<u64>, Frame)>,
    log: Seq<u8>,
)
    requires
        serves_clocked(b, client, st, out, consumed, clear, after, sends, log),
    ensures
        consumed <= b.len(),
    decreases b.len(),
{
    if let Parsed::Done(f, k) = parse_frame(b) {
        let (now, replies, mid, s1) = choose|now: u64, replies: Seq<Frame>, mid: Conn, s1: Seq<(Seq<u64>, Frame)>| {
            let n = encode_all(replies).len() as int;
            &&& #[trigger] session_step(args_of(f), client, st, now, replies, mid, s1)
            &&& n <= out.len()
            &&& out.take(n) == encode_all(replies)
            &&& s1.len() <= sends.len()
            &&& sends.take(s1.len() as int) == s1
            &&& logged(args_of(f), now).len() <= log.len()
            &&& log.take(logged(args_of(f), now).len() as int) == logged(args_of(f), now)
            &&& k <= consumed
            &&& serves_clocked(b.subrange(k as int, b.len() as int), client, mid, out.skip(n), (consumed - k) as nat, clear,
                after, sends.skip(s1.len() as int), log.skip(logged(args_of(f), now).len() as int))
        };
        let n = encode_all(replies).len() as int;
        lemma_serves_clocked_consumed(b.subrange(k as int, b.len() as int), client, mid, out.skip(n), (consumed - k) as nat,
            clear, after, sends.skip(s1.len() as int), log.skip(logged(args_of(f), now).len() as int));
    }
}

/// Serving bytes that came in two pieces, each command at a time of its
/// own, writes and does what serving both pieces at once does.
pub proof fn lemma_serves_clocked_in_two(
    b1: Seq<u8>,
    b2: Seq<u8>,
    client: u64,
    st: Conn,
    o1: Seq<u8>,
    c1: nat,
    st1: Conn,
    d1: Seq<(Seq<u64>, Frame)>,
    l1: Seq<u8>,
    o2: Seq<u8>,
    c2: nat,
    clear: bool,
    st2: Conn,
    d2: Seq<(Seq<u64>, Frame)>,
    l2: Seq<u8>,
)
    requires
        serves_clocked(b1, client, st, o1, c1, false, st1, d1, l1),
        c1 <= b1.len(),
        serves_clocked(b1.skip(c1 as int) + b2, client, st1, o2, c2, clear, st2, d2, l2),
    ensures
        serves_clocked(b1 + b2, client, st, o1 + o2, c1 + c2, clear, st2, d1 + d2, l1 + l2),
    decreases b1.len(), 1int,
{
    match parse_frame(b1) {
        Parsed::Incomplete => {
            assert(b1.skip(0) =~= b1);
            assert(o1 + o2 =~= o2);
            assert(d1 + d2 =~= d2);
            assert(l1 + l2 =~= l2);
        },
        Parsed::Protocol(_) => {},
        Parsed::Done(f, k) => {
            let (now, replies, mid, s1) = choose|now: u64, replies: Seq<Frame>, mid: Conn, s1: Seq<(Seq<u64>, Frame)>| {
                let n = encode_all(replies).len() as int;
                &&& #[trigger] session_step(args_of(f), client, st, now, replies, mid, s1)
                &&& n <= o1.len()
                &&& o1.take(n) == encode_all(replies)
                &&& s1.len() <= d1.len()
                &&& d1.take(s1.len() as int) == s1
                &&& logged(args_of(f), now).len() <= l1.len()
                &&& l1.take(logged(args_of(f), now).len() as int) == logged(args_of(f), now)
                &&& k <= c1
                &&& serves_clocked(b1.subrange(k as int, b1.len() as int), client, mid, o1.skip(n), (c1 - k) as nat, false,
                    st1, d1.skip(s1.len() as int), l1.skip(logged(args_of(f), now).len() as int))
            };
            lemma_serves_clocked_in_two_first(b1, b2, client, st, o1, c1, st1, d1, l1, o2, c2, clear, st2, d2, l2, f, k,
                now, replies, mid, s1);
        },
    }
}

/// The step of `lemma_serves_clocked_in_two` where the first piece starts
/// with a whole command.
#[verifier::rlimit(40)]
proof fn lemma_serves_clocked_in_two_first(
    b1: Seq<u8>,
    b2: Seq<u8>,
    client: u64,
    st: Conn,
    o1: Seq<u8>,
    c1: nat,
    st1: Conn,
    d1: Seq<(Seq<u64>, Frame)>,
    l1: Seq<u8>,
    o2: Seq<u8>,
    c2: nat,
    clear: bool,
    st2: Conn,
    d2: Seq<(Seq<u64>, Frame)>,
    l2: Seq<u8>,
    f: Frame,
    k: nat,
    now: u64,
    replies: Seq<Frame>,
    mid: Conn,
    s1: Seq<(Seq<u64>, Frame)>,
)
    requires
        parse_frame(b1) == Parsed::Done(f, k),
        session_step(args_of(f), client, st, now, replies, mid, s1),
        encode_all(replies).len() <= o1.len(),
        o1.take(encode_all(replies).len() as int) == encode_all(replies),
        s1.len() <= d1.len(),
        d1.take(s1.len() as int) == s1,
        logged(args_of(f), now).len() <= l1.len(),
        l1.take(logged(args_of(f), now).len() as int) == logged(args_of(f), now),
        k <= c1,
        c1 <= b1.len(),
        serves_clocked(b1.subrange(k as int, b1.len() as int), client, mid, o1.skip(encode_all(replies).len() as int),
            (c1 - k) as nat, false, st1, d1.skip(s1.len() as int), l1.skip(logged(args_of(f), now).len() as int)),
        serves_clocked(b1.skip(c1 as int) + b2, client, st1, o2, c2, clear, st2, d2, l2),
    ensures
        serves_clocked(b1 + b2, client, st, o1 + o2, c1 + c2, clear, st2, d1 + d2, l1 + l2),
    decreases b1.len(), 0int,
{
    let b = b1 + b2;
    let n = encode_all(replies).len() as int;
    let g = logged(args_of(f), now);
    let r1 = b1.subrange(k as int, b1.len() as int);
    lemma_parse_length(b1);
    assert(b.take(k as int) =~= b1.take(k as int));
    lemma_parse_agree(b1, b);
    assert(r1.skip(c1 - k) =~= b1.skip(c1 as int));
    lemma_serves_clocked_in_two(r1, b2, client, mid, o1.skip(n), (c1 - k) as nat, st1, d1.skip(s1.len() as int),
        l1.skip(g.len() as int), o2, c2, clear, st2, d2, l2);
    assert(b.subrange(k as int, b.len() as int) =~= r1 + b2);
    lemma_serves_clocked_step(b, client, st, now, f, k, replies, mid, s1, o1.skip(n) + o2, (c1 - k + c2) as nat, clear,
        st2, d1.skip(s1.len() as int) + d2, l1.skip(g.len() as int) + l2);
    assert(encode_all(replies) + (o1.skip(n) + o2) =~= o1 + o2);
    assert(s1 + (d1.skip(s1.len() as int) + d2) =~= d1 + d2);
    assert(g + (l1.skip(g.len() as int) + l2) =~= l1 + l2);
}

} // verus!
