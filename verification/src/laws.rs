//! Properties that span operations of the key space and the wire format.
use vstd::prelude::*;
use crate::commands::{outcome, args_of, arg_texts, bulks, lemma_names, matching_keys, is_write};
use crate::glob::{glob_match, lemma_star_matches};
use crate::ext::uppercase;
use crate::persistence::{
    replays, record_frame, lemma_replays_step, replays_clocked, lemma_replays_clocked_step, record_args,
    sets_relative_expiry, expires_relative,
};
use crate::text::lemma_u128_digits;
use crate::resp::{encode_frame, frame_wf, items_wf, Frame, Parsed, parse_frame, lemma_parse_encode, lemma_prefix_incomplete, lemma_parse_agree, lemma_parse_length};
use crate::server::{
    serves_clocked_command, encode_all, logged,
    serves, Conn, lemma_serves_consumed, lemma_serves_in_two, session_step, command_name, serves_clocked,
    lemma_serves_at_one_time, lemma_serves_clocked_in_two,
};
use crate::pubsub::{message_frame, leaving, pairs_for};
use vstd::utf8::encode_utf8;
use crate::store::{
    Entry, string_entry, get_reply, drop_expired, ttl_reply, deadline, with_expiry, after_push,
    pop_reply, lrange_reply, holds_other, live_keys, without_expired, is_live, count_live,
    live_other, hash_at, members_at, with_hash, with_members, live_at, pushed_list, after_pop, range_of,
};

verus! {

/// A string that was set is what GET reads back, at any time, and GET drops
/// nothing then.
pub proof fn law_get_after_set(m: Map<Seq<char>, Entry>, k: Seq<char>, v: Seq<char>, now: u64)
    ensures
        get_reply(m.insert(k, string_entry(v, None)), k, now) == Ok::<Option<Seq<char>>, Seq<char>>(Some(v)),
        drop_expired(m.insert(k, string_entry(v, None)), k, now) == m.insert(k, string_entry(v, None)),
{
}

/// A key set without an expiry has a TTL of -1.
pub proof fn law_ttl_after_set(m: Map<Seq<char>, Entry>, k: Seq<char>, v: Seq<char>, now: u64)
    ensures
        ttl_reply(m.insert(k, string_entry(v, None)), k, now) == -1,
{
}

/// A key set to expire `d` milliseconds after `now` has, at `now`, a TTL of
/// the whole seconds in `d`, and is readable.
pub proof fn law_ttl_after_set_with_expiry(m: Map<Seq<char>, Entry>, k: Seq<char>, v: Seq<char>, now: u64, d: u64)
    requires
        d > 0,
    ensures
        ttl_reply(m.insert(k, string_entry(v, Some(deadline(now, d as int)))), k, now) == (d / 1000) as i64,
        get_reply(m.insert(k, string_entry(v, Some(deadline(now, d as int)))), k, now)
            == Ok::<Option<Seq<char>>, Seq<char>>(Some(v)),
{
}

/// Once its expiry has come, a key reads as missing, GET drops it, and TTL
/// answers -2.
pub proof fn law_expired_reads_missing(m: Map<Seq<char>, Entry>, k: Seq<char>, v: Seq<char>, t: u128, now: u64)
    requires
        t <= now,
    ensures
        get_reply(m.insert(k, string_entry(v, Some(t))), k, now) == Ok::<Option<Seq<char>>, Seq<char>>(None),
        drop_expired(m.insert(k, string_entry(v, Some(t))), k, now) == m.remove(k),
        ttl_reply(m.insert(k, string_entry(v, Some(t))), k, now) == -2,
{
    assert(m.insert(k, string_entry(v, Some(t))).remove(k) =~= m.remove(k));
}

/// After PERSIST, a held key has a TTL of -1 while its value stays.
pub proof fn law_persist_clears_ttl(m: Map<Seq<char>, Entry>, k: Seq<char>, now: u64)
    requires
        m.contains_key(k),
    ensures
        ttl_reply(with_expiry(m, k, None), k, now) == -1,
        with_expiry(m, k, None)[k].value == m[k].value,
{
}

/// LPUSH then LPOP gives back the last value pushed; RPUSH then RPOP too.
pub proof fn law_push_then_pop(m: Map<Seq<char>, Entry>, k: Seq<char>, vals: Seq<Seq<char>>, front: bool)
    requires
        vals.len() > 0,
        !holds_other(m, k),
    ensures
        pop_reply(after_push(m, k, vals, front), k, front) == Ok::<Option<Seq<char>>, Seq<char>>(Some(vals.last())),
{
    let a = after_push(m, k, vals, front);
    let l = a[k].value->List_0;
    if front {
        assert(l[0] == vals.reverse()[0]);
    } else {
        assert(l.last() == vals.last());
    }
}

/// RPUSH on a missing key, then LRANGE from 0 to -1, reads back the values
/// in order.
pub proof fn law_rpush_then_lrange(m: Map<Seq<char>, Entry>, k: Seq<char>, vals: Seq<Seq<char>>)
    requires
        !m.contains_key(k),
        vals.len() <= i64::MAX,
    ensures
        lrange_reply(after_push(m, k, vals, false), k, 0i64, -1i64) == Ok::<Seq<Seq<char>>, Seq<char>>(vals),
{
    let a = after_push(m, k, vals, false);
    let l = a[k].value->List_0;
    assert(l =~= vals);
    if vals.len() > 0 {
        assert(l.subrange(0, vals.len() as int) =~= vals);
    } else {
        assert(vals =~= Seq::<Seq<char>>::empty());
    }
}

/// A deleted key reads as missing.
pub proof fn law_get_after_del(m: Map<Seq<char>, Entry>, keys: Seq<Seq<char>>, i: int, now: u64)
    requires
        0 <= i < keys.len(),
    ensures
        get_reply(m.remove_keys(keys.to_set()), keys[i], now) == Ok::<Option<Seq<char>>, Seq<char>>(None),
{
    assert(keys.to_set().contains(keys[i]));
}

/// The expiry pass keeps exactly the keys that have not expired, unchanged,
/// so KEYS answers the same before and after it.
pub proof fn law_expiry_pass(m: Map<Seq<char>, Entry>, now: u64)
    ensures
        forall|k: Seq<char>| #[trigger] without_expired(m, now).contains_key(k) ==> is_live(without_expired(m, now)[k], now)
            && m.contains_key(k) && without_expired(m, now)[k] == m[k],
        forall|k: Seq<char>| m.contains_key(k) && is_live(m[k], now) ==> #[trigger] without_expired(m, now).contains_key(k),
        live_keys(without_expired(m, now), now) == live_keys(m, now),
{
    assert(live_keys(without_expired(m, now), now) =~= live_keys(m, now));
}

/// EXISTS counts a key given once exactly when KEYS lists it.
pub proof fn law_exists_agrees_with_keys(m: Map<Seq<char>, Entry>, k: Seq<char>, now: u64)
    ensures
        count_live(m, seq![k], now) == (if live_keys(m, now).contains(k) { 1nat } else { 0nat }),
{
    reveal_with_fuel(Seq::filter, 2);
    assert(seq![k].drop_last() =~= Seq::<Seq<char>>::empty());
}


/// The texts of a command fit the wire format: each is shorter than
/// `i64::MAX` bytes and there are no more than `i64::MAX` of them.
pub open spec fn command_fits(args: Seq<Seq<char>>) -> bool {
    &&& args.len() <= i64::MAX
    &&& forall|i: int| 0 <= i < args.len() ==> #[trigger] encode_utf8(args[i]).len() <= i64::MAX
}

proof fn lemma_bulks_wf(args: Seq<Seq<char>>)
    requires
        forall|i: int| 0 <= i < args.len() ==> #[trigger] encode_utf8(args[i]).len() <= i64::MAX,
    ensures
        items_wf(bulks(args)),
    decreases args.len(),
{
    if args.len() > 0 {
        assert(bulks(args).drop_first() =~= bulks(args.drop_first()));
        assert(encode_utf8(args[0]).len() <= i64::MAX);
        assert forall|i: int| 0 <= i < args.drop_first().len() implies #[trigger] encode_utf8(args.drop_first()[i]).len() <= i64::MAX by {
            assert(args.drop_first()[i] == args[i + 1]);
        }
        lemma_bulks_wf(args.drop_first());
        assert(bulks(args)[0] == Frame::Bulk(Some(args[0])));
        assert(frame_wf(bulks(args)[0]));
    }
}

proof fn lemma_bulks_args(args: Seq<Seq<char>>)
    ensures
        arg_texts(bulks(args)) == args,
    decreases args.len(),
{
    if args.len() > 0 {
        assert(bulks(args).drop_last() =~= bulks(args.drop_last()));
        lemma_bulks_args(args.drop_last());
        assert(args.drop_last().push(args.last()) =~= args);
    } else {
        assert(args =~= Seq::<Seq<char>>::empty());
    }
}

/// Replaying the record that was appended for a command runs that command:
/// any outcome of the command is an outcome of the replay, which takes the
/// whole record.
pub proof fn law_aof_replay(
    args: Seq<Seq<char>>,
    m: Map<Seq<char>, Entry>,
    now: u64,
    reply: Frame,
    after: Map<Seq<char>, Entry>,
)
    requires
        command_fits(args),
        outcome(args, m, now, reply, after),
    ensures
        replays(encode_frame(record_frame(args)), m, now, encode_frame(record_frame(args)).len(), after),
{
    let f = record_frame(args);
    let b = encode_frame(f);
    lemma_bulks_wf(args);
    lemma_bulks_args(args);
    assert(frame_wf(f));
    lemma_parse_encode(f, Seq::<u8>::empty());
    assert(b + Seq::<u8>::empty() =~= b);
    assert(args_of(f) == args);
    assert(b.len() > 0);
    assert(b.subrange(b.len() as int, b.len() as int) =~= Seq::<u8>::empty());
    assert(replays(b.subrange(b.len() as int, b.len() as int), after, now, 0, after));
    lemma_replays_step(b, m, now, f, b.len(), reply, after, 0, after);
}


/// Through the command interface, SET answers OK and a GET that follows reads
/// the value back, at any later time, leaving the key space as it was.
pub proof fn law_set_then_get(
    set_cmd: Seq<char>,
    get_cmd: Seq<char>,
    k: Seq<char>,
    v: Seq<char>,
    m: Map<Seq<char>, Entry>,
    t1: u64,
    t2: u64,
    r1: Frame,
    m1: Map<Seq<char>, Entry>,
    r2: Frame,
    m2: Map<Seq<char>, Entry>,
)
    requires
        uppercase(set_cmd) == "SET"@,
        uppercase(get_cmd) == "GET"@,
        outcome(seq![set_cmd, k, v], m, t1, r1, m1),
        outcome(seq![get_cmd, k], m1, t2, r2, m2),
    ensures
        r1 == Frame::Simple("OK"@),
        m1 == m.insert(k, string_entry(v, None)),
        r2 == Frame::Bulk(Some(v)),
        m2 == m1,
{
    lemma_names();
}


/// A connection that has received only part of a command writes nothing,
/// keeps every byte, delivers nothing and leaves its state alone until the
/// rest arrives.
pub proof fn law_serve_waits_for_the_rest(
    f: Frame,
    k: int,
    client: u64,
    st: Conn,
    now: u64,
    out: Seq<u8>,
    consumed: nat,
    clear: bool,
    after: Conn,
    sends: Seq<(Seq<u64>, Frame)>,
    log: Seq<u8>,
)
    requires
        frame_wf(f),
        0 <= k < encode_frame(f).len(),
        serves(encode_frame(f).take(k), client, st, now, out, consumed, clear, after, sends, log),
    ensures
        out == Seq::<u8>::empty(),
        consumed == 0,
        !clear,
        after == st,
        sends.len() == 0,
        log.len() == 0,
{
    lemma_prefix_incomplete(f, k);
}

/// A value that parses takes at least three bytes and no more than the
/// buffer holds; the bytes after it change nothing (the buffer cut just after
/// it, or with any bytes added, parses as the same value over the same
/// bytes); and every shorter cut of it is incomplete.
pub proof fn law_parse_takes_a_prefix(b: Seq<u8>, f: Frame, n: nat, extra: Seq<u8>, k: int)
    requires
        parse_frame(b) == Parsed::Done(f, n),
        0 <= k < n,
    ensures
        3 <= n <= b.len(),
        parse_frame(b.take(n as int)) == Parsed::Done(f, n),
        parse_frame(b + extra) == Parsed::Done(f, n),
        parse_frame(b.take(k)) is Incomplete,
{
    lemma_parse_length(b);
    let cut = b.take(n as int);
    assert(cut.take(n as int) =~= b.take(n as int));
    lemma_parse_agree(b, cut);
    let longer = b + extra;
    assert(longer.take(n as int) =~= b.take(n as int));
    lemma_parse_agree(b, longer);
    let short = b.take(k);
    assert(short =~= b.take(short.len() as int));
    lemma_parse_agree(b, short);
}

/// The records appended for the commands `cmds`, one after another.
pub open spec fn records(cmds: Seq<Seq<Seq<char>>>) -> Seq<u8>
    decreases cmds.len(),
{
    if cmds.len() == 0 {
        seq![]
    } else {
        encode_frame(record_frame(cmds[0])) + records(cmds.drop_first())
    }
}

/// The `i`-th command of `cmds` takes `ms[i]` to `ms[i + 1]` with the reply
/// `replies[i]`.
pub open spec fn runs_step(cmds: Seq<Seq<Seq<char>>>, ms: Seq<Map<Seq<char>, Entry>>, replies: Seq<Frame>, now: u64, i: int) -> bool {
    outcome(cmds[i], ms[i], now, replies[i], ms[i + 1])
}

/// Replaying a file of records runs each command in turn: where the commands
/// `cmds`, run one after another at `now`, go through the key spaces `ms`
/// with the replies `replies`, replaying their records takes the whole file
/// and ends in the last key space.
pub proof fn law_aof_replay_all(
    cmds: Seq<Seq<Seq<char>>>,
    ms: Seq<Map<Seq<char>, Entry>>,
    replies: Seq<Frame>,
    now: u64,
)
    requires
        ms.len() == cmds.len() + 1,
        replies.len() == cmds.len(),
        forall|i: int| 0 <= i < cmds.len() ==> #[trigger] command_fits(cmds[i]),
        forall|i: int| 0 <= i < cmds.len() ==> #[trigger] runs_step(cmds, ms, replies, now, i),
    ensures
        replays(records(cmds), ms[0], now, records(cmds).len(), ms[cmds.len() as int]),
    decreases cmds.len(),
{
    if cmds.len() == 0 {
        assert(records(cmds) =~= Seq::<u8>::empty());
    } else {
        let args = cmds[0];
        assert(command_fits(cmds[0]));
        assert(runs_step(cmds, ms, replies, now, 0));
        let f = record_frame(args);
        let e = encode_frame(f);
        let tail = records(cmds.drop_first());
        let b = records(cmds);
        assert(b == e + tail);
        lemma_bulks_wf(args);
        lemma_bulks_args(args);
        assert(frame_wf(f));
        lemma_parse_encode(f, tail);
        assert(args_of(f) == args);
        lemma_parse_length(b);
        assert forall|i: int| 0 <= i < cmds.drop_first().len() implies #[trigger] command_fits(cmds.drop_first()[i]) by {
            assert(command_fits(cmds[i + 1]));
        }
        assert forall|i: int| 0 <= i < cmds.drop_first().len() implies
            #[trigger] runs_step(cmds.drop_first(), ms.drop_first(), replies.drop_first(), now, i) by {
            assert(runs_step(cmds, ms, replies, now, i + 1));
            assert(ms.drop_first()[i + 1] == ms[i + 2]);
        }
        law_aof_replay_all(cmds.drop_first(), ms.drop_first(), replies.drop_first(), now);
        assert(b.subrange(e.len() as int, b.len() as int) =~= tail);
        lemma_replays_step(b, ms[0], now, f, e.len(), replies[0], ms[1], tail.len(), ms[cmds.len() as int]);
    }
}

/// However the bytes a client sends are cut into pieces, the connection
/// answers as if they had come at once: serving the first piece, keeping the
/// bytes it did not use and serving them with the second piece writes,
/// takes, delivers, logs and does what serving the two pieces together would (at
/// one time `now`, and unless the first piece was dropped for a protocol
/// error).
pub proof fn law_serve_in_pieces(
    b1: Seq<u8>,
    b2: Seq<u8>,
    client: u64,
    st: Conn,
    now: u64,
    o1: Seq<u8>,
    c1: nat,
    st1: Conn,
    d1: Seq<(Seq<u64>, Frame)>,
    l1: Seq<u8>,
    o2: Seq<u8>,
    c2: nat,
    clear: bool,
    st2: Conn,
    d2: Seq<(Seq<u64>, Frame)>,
    l2: Seq<u8>,
)
    requires
        serves(b1, client, st, now, o1, c1, false, st1, d1, l1),
        serves(b1.skip(c1 as int) + b2, client, st1, now, o2, c2, clear, st2, d2, l2),
    ensures
        serves(b1 + b2, client, st, now, o1 + o2, c1 + c2, clear, st2, d1 + d2, l1 + l2),
{
    lemma_serves_consumed(b1, client, st, now, o1, c1, false, st1, d1, l1);
    lemma_serves_in_two(b1, b2, client, st, now, o1, c1, st1, d1, l1, o2, c2, clear, st2, d2, l2);
}

/// A field set in a hash is what a read of that field gives back, and the
/// key then holds a hash that is not expired.
pub proof fn law_hget_after_hset(m: Map<Seq<char>, Entry>, k: Seq<char>, f: Seq<char>, v: Seq<char>, now: u64)
    requires
        !live_other(m, k, now, true),
    ensures
        hash_at(with_hash(m, k, now, hash_at(m, k, now).insert(f, v)), k, now).contains_key(f),
        hash_at(with_hash(m, k, now, hash_at(m, k, now).insert(f, v)), k, now)[f] == v,
        !live_other(with_hash(m, k, now, hash_at(m, k, now).insert(f, v)), k, now, true),
{
}

/// Dropping fields from a hash leaves none of them and every other field as
/// it was.
pub proof fn law_hdel_drops_fields(m: Map<Seq<char>, Entry>, k: Seq<char>, fs: Set<Seq<char>>, g: Seq<char>, now: u64)
    requires
        live_at(m, k, now),
        !live_other(m, k, now, true),
    ensures
        !hash_at(with_hash(m, k, now, hash_at(m, k, now).remove_keys(fs)), k, now).dom().intersect(fs).contains(g),
        !fs.contains(g) ==> hash_at(with_hash(m, k, now, hash_at(m, k, now).remove_keys(fs)), k, now).contains_key(g)
            == hash_at(m, k, now).contains_key(g),
{
}

/// After members are added to a set, each of them is a member, and so is
/// every member that was there before.
pub proof fn law_sismember_after_sadd(m: Map<Seq<char>, Entry>, k: Seq<char>, ms: Set<Seq<char>>, x: Seq<char>, now: u64)
    requires
        !live_other(m, k, now, false),
    ensures
        members_at(with_members(m, k, now, members_at(m, k, now).union(ms)), k, now).contains(x)
            <==> (ms.contains(x) || members_at(m, k, now).contains(x)),
{
}

/// After members are dropped from a set, none of them is a member, and
/// every other member stays.
pub proof fn law_srem_drops_members(m: Map<Seq<char>, Entry>, k: Seq<char>, ms: Set<Seq<char>>, x: Seq<char>, now: u64)
    requires
        live_at(m, k, now),
        !live_other(m, k, now, false),
    ensures
        members_at(with_members(m, k, now, members_at(m, k, now).difference(ms)), k, now).contains(x)
            <==> (!ms.contains(x) && members_at(m, k, now).contains(x)),
{
}

/// The pattern `*` matches every key: KEYS with it lists every live key.
pub proof fn law_star_matches_every_key(m: Map<Seq<char>, Entry>, now: u64)
    ensures
        matching_keys(m, now, "*"@) == live_keys(m, now),
{
    lemma_names();
    assert forall|k: Seq<char>| #[trigger] glob_match("*"@, k) by {
        lemma_star_matches("*"@, k, 0);
    }
    assert(matching_keys(m, now, "*"@) =~= live_keys(m, now));
}

/// A connection that subscribed to a channel receives what is published on
/// it next, whoever publishes it.
pub proof fn law_publish_reaches_subscribers(
    x: u64,
    y: u64,
    sub: Seq<Seq<char>>,
    publish: Seq<Seq<char>>,
    st: Conn,
    now: u64,
    r1: Seq<Frame>,
    st1: Conn,
    s1: Seq<(Seq<u64>, Frame)>,
    r2: Seq<Frame>,
    st2: Conn,
    s2: Seq<(Seq<u64>, Frame)>,
)
    requires
        command_name(sub) == "SUBSCRIBE"@,
        command_name(publish) == "PUBLISH"@,
        publish.len() == 3,
        sub.skip(1).contains(publish[1]),
        session_step(sub, x, st, now, r1, st1, s1),
        session_step(publish, y, st1, now, r2, st2, s2),
    ensures
        s2.len() == 1,
        s2[0].0.contains(x),
        s2[0].1 == message_frame(publish[1], publish[2]),
{
    reveal_strlit("SUBSCRIBE");
    reveal_strlit("UNSUBSCRIBE");
    reveal_strlit("PUBLISH");
    assert(sub.len() >= 2);
    assert(pairs_for(sub.skip(1), x).contains((publish[1], x)));
    assert(st1.reg.contains((publish[1], x)));
    let ids = s2[0].0;
    assert(ids.to_set().contains(x));
}

/// A connection that left a channel receives nothing more that is
/// published on it.
pub proof fn law_unsubscribe_stops_delivery(
    x: u64,
    y: u64,
    unsub: Seq<Seq<char>>,
    publish: Seq<Seq<char>>,
    st: Conn,
    now: u64,
    r1: Seq<Frame>,
    st1: Conn,
    s1: Seq<(Seq<u64>, Frame)>,
    r2: Seq<Frame>,
    st2: Conn,
    s2: Seq<(Seq<u64>, Frame)>,
)
    requires
        command_name(unsub) == "UNSUBSCRIBE"@,
        command_name(publish) == "PUBLISH"@,
        publish.len() == 3,
        unsub.len() >= 2,
        unsub.skip(1).contains(publish[1]),
        session_step(unsub, x, st, now, r1, st1, s1),
        session_step(publish, y, st1, now, r2, st2, s2),
    ensures
        s2.len() == 1,
        !s2[0].0.contains(x),
{
    reveal_strlit("SUBSCRIBE");
    reveal_strlit("UNSUBSCRIBE");
    reveal_strlit("PUBLISH");
    assert(leaving(unsub, st.subs) == unsub.skip(1));
    assert(pairs_for(unsub.skip(1), x).contains((publish[1], x)));
    assert(!st1.reg.contains((publish[1], x)));
    let ids = s2[0].0;
    assert(!ids.to_set().contains(x));
}

/// The `i`-th command of `cmds`, run at `times[i]`, takes `ms[i]` to
/// `ms[i + 1]` with the reply `replies[i]`.
pub open spec fn runs_step_at(cmds: Seq<Seq<Seq<char>>>, ms: Seq<Map<Seq<char>, Entry>>, replies: Seq<Frame>, times: Seq<u64>, i: int) -> bool {
    outcome(cmds[i], ms[i], times[i], replies[i], ms[i + 1])
}

/// Replaying a file of records, each at the time the clock reads when it
/// runs, runs each command in turn: where the commands `cmds`, run one after
/// another at the times `times`, go through the key spaces `ms` with the
/// replies `replies`, replaying their records takes the whole file and ends
/// in the last key space.
pub proof fn law_aof_replay_all_clocked(
    cmds: Seq<Seq<Seq<char>>>,
    ms: Seq<Map<Seq<char>, Entry>>,
    replies: Seq<Frame>,
    times: Seq<u64>,
)
    requires
        ms.len() == cmds.len() + 1,
        replies.len() == cmds.len(),
        times.len() == cmds.len(),
        forall|i: int| 0 <= i < cmds.len() ==> #[trigger] command_fits(cmds[i]),
        forall|i: int| 0 <= i < cmds.len() ==> #[trigger] runs_step_at(cmds, ms, replies, times, i),
    ensures
        replays_clocked(records(cmds), ms[0], records(cmds).len(), ms[cmds.len() as int]),
    decreases cmds.len(),
{
    if cmds.len() == 0 {
        assert(records(cmds) =~= Seq::<u8>::empty());
    } else {
        let args = cmds[0];
        assert(command_fits(cmds[0]));
        assert(runs_step_at(cmds, ms, replies, times, 0));
        let f = record_frame(args);
        let e = encode_frame(f);
        let tail = records(cmds.drop_first());
        let b = records(cmds);
        assert(b == e + tail);
        lemma_bulks_wf(args);
        lemma_bulks_args(args);
        assert(frame_wf(f));
        lemma_parse_encode(f, tail);
        assert(args_of(f) == args);
        lemma_parse_length(b);
        assert forall|i: int| 0 <= i < cmds.drop_first().len() implies #[trigger] command_fits(cmds.drop_first()[i]) by {
            assert(command_fits(cmds[i + 1]));
        }
        assert forall|i: int| 0 <= i < cmds.drop_first().len() implies
            #[trigger] runs_step_at(cmds.drop_first(), ms.drop_first(), replies.drop_first(), times.drop_first(), i) by {
            assert(runs_step_at(cmds, ms, replies, times, i + 1));
            assert(ms.drop_first()[i + 1] == ms[i + 2]);
        }
        law_aof_replay_all_clocked(cmds.drop_first(), ms.drop_first(), replies.drop_first(), times.drop_first());
        assert(b.subrange(e.len() as int, b.len() as int) =~= tail);
        lemma_replays_clocked_step(b, ms[0], times[0], f, e.len(), replies[0], ms[1], tail.len(), ms[cmds.len() as int]);
    }
}

/// The commands `cmds`, run one after another from `m`, each at a time of
/// its own, can end in `after`.
pub open spec fn runs_clocked(cmds: Seq<Seq<Seq<char>>>, m: Map<Seq<char>, Entry>, after: Map<Seq<char>, Entry>) -> bool
    decreases cmds.len(),
{
    if cmds.len() == 0 {
        after == m
    } else {
        exists|now: u64, reply: Frame, mid: Map<Seq<char>, Entry>| {
            &&& #[trigger] outcome(cmds[0], m, now, reply, mid)
            &&& runs_clocked(cmds.drop_first(), mid, after)
        }
    }
}

/// The record of the first command is the first value of a file of records.
proof fn lemma_records_first(cmds: Seq<Seq<Seq<char>>>)
    requires
        cmds.len() > 0,
        command_fits(cmds[0]),
    ensures
        records(cmds) == encode_frame(record_frame(cmds[0])) + records(cmds.drop_first()),
        parse_frame(records(cmds)) == Parsed::Done(record_frame(cmds[0]), encode_frame(record_frame(cmds[0])).len()),
        args_of(record_frame(cmds[0])) == cmds[0],
        records(cmds).len() > 0,
        records(cmds).subrange(encode_frame(record_frame(cmds[0])).len() as int, records(cmds).len() as int)
            == records(cmds.drop_first()),
{
    let f = record_frame(cmds[0]);
    let e = encode_frame(f);
    let tail = records(cmds.drop_first());
    lemma_bulks_wf(cmds[0]);
    lemma_bulks_args(cmds[0]);
    lemma_parse_encode(f, tail);
    lemma_parse_length(records(cmds));
    assert(records(cmds).subrange(e.len() as int, records(cmds).len() as int) =~= tail);
}

/// Replaying a file of records, each at the time the clock reads when it
/// runs, takes the whole file and ends exactly where running its commands
/// in order, each at its own time, can end: every state a replay leaves is
/// one that the commands reach, and every state they reach is one a replay
/// can leave.
pub proof fn law_aof_replay_runs_the_commands(
    cmds: Seq<Seq<Seq<char>>>,
    m: Map<Seq<char>, Entry>,
    consumed: nat,
    after: Map<Seq<char>, Entry>,
)
    requires
        forall|i: int| 0 <= i < cmds.len() ==> #[trigger] command_fits(cmds[i]),
    ensures
        replays_clocked(records(cmds), m, consumed, after) ==> consumed == records(cmds).len()
            && runs_clocked(cmds, m, after),
        runs_clocked(cmds, m, after) ==> replays_clocked(records(cmds), m, records(cmds).len(), after),
    decreases cmds.len(),
{
    if cmds.len() == 0 {
        assert(records(cmds) =~= Seq::<u8>::empty());
    } else {
        assert(command_fits(cmds[0]));
        lemma_records_first(cmds);
        let f = record_frame(cmds[0]);
        let k = encode_frame(f).len();
        let b = records(cmds);
        let rest = cmds.drop_first();
        assert forall|i: int| 0 <= i < rest.len() implies #[trigger] command_fits(rest[i]) by {
            assert(command_fits(cmds[i + 1]));
        }
        if replays_clocked(b, m, consumed, after) {
            let (now, reply, mid) = choose|now: u64, reply: Frame, mid: Map<Seq<char>, Entry>| {
                &&& #[trigger] outcome(args_of(f), m, now, reply, mid)
                &&& k <= consumed
                &&& replays_clocked(b.subrange(k as int, b.len() as int), mid, (consumed - k) as nat, after)
            };
            law_aof_replay_runs_the_commands(rest, mid, (consumed - k) as nat, after);
            assert(outcome(cmds[0], m, now, reply, mid));
        }
        if runs_clocked(cmds, m, after) {
            let (now, reply, mid) = choose|now: u64, reply: Frame, mid: Map<Seq<char>, Entry>| {
                &&& #[trigger] outcome(cmds[0], m, now, reply, mid)
                &&& runs_clocked(cmds.drop_first(), mid, after)
            };
            law_aof_replay_runs_the_commands(rest, mid, records(rest).len(), after);
            lemma_replays_clocked_step(b, m, now, f, k, reply, mid, records(rest).len(), after);
        }
    }
}

/// The chunks one after another.
pub open spec fn joined_chunks(chunks: Seq<Seq<u8>>) -> Seq<u8>
    decreases chunks.len(),
{
    if chunks.len() == 0 { seq![] } else { chunks[0] + joined_chunks(chunks.drop_first()) }
}

/// A connection that keeps the bytes `pending` and then receives `chunks`,
/// serving its buffer (the kept bytes and the new chunk) after each chunk at
/// a clock reading of its own and keeping the bytes it did not use, writes
/// `out`, ends in `after`, hands `sends` and `log` on, and keeps `left`; no
/// buffer is dropped for a protocol error.
pub open spec fn connection_runs(
    chunks: Seq<Seq<u8>>,
    pending: Seq<u8>,
    client: u64,
    st: Conn,
    out: Seq<u8>,
    after: Conn,
    sends: Seq<(Seq<u64>, Frame)>,
    log: Seq<u8>,
    left: Seq<u8>,
) -> bool
    decreases chunks.len(),
{
    if chunks.len() == 0 {
        out.len() == 0 && after == st && sends.len() == 0 && log.len() == 0 && left == pending
    } else {
        exists|now: u64, o: Seq<u8>, c: nat, mid: Conn, d: Seq<(Seq<u64>, Frame)>, l: Seq<u8>| {
            &&& #[trigger] serves(pending + chunks[0], client, st, now, o, c, false, mid, d, l)
            &&& o.len() <= out.len()
            &&& out.take(o.len() as int) == o
            &&& d.len() <= sends.len()
            &&& sends.take(d.len() as int) == d
            &&& l.len() <= log.len()
            &&& log.take(l.len() as int) == l
            &&& connection_runs(chunks.drop_first(), (pending + chunks[0]).skip(c as int), client, mid,
                out.skip(o.len() as int), after, sends.skip(d.len() as int), log.skip(l.len() as int), left)
        }
    }
}

/// The step of `law_connection_chunks` with bytes kept from before.
proof fn lemma_connection_runs(
    chunks: Seq<Seq<u8>>,
    pending: Seq<u8>,
    client: u64,
    st: Conn,
    out: Seq<u8>,
    after: Conn,
    sends: Seq<(Seq<u64>, Frame)>,
    log: Seq<u8>,
    left: Seq<u8>,
)
    requires
        parse_frame(pending) is Incomplete,
        connection_runs(chunks, pending, client, st, out, after, sends, log, left),
    ensures
        left.len() <= (pending + joined_chunks(chunks)).len(),
        (pending + joined_chunks(chunks)).skip((pending + joined_chunks(chunks)).len() - left.len()) == left,
        parse_frame(left) is Incomplete,
        serves_clocked(pending + joined_chunks(chunks), client, st, out,
            ((pending + joined_chunks(chunks)).len() - left.len()) as nat, false, after, sends, log),
    decreases chunks.len(), 1int,
{
    if chunks.len() == 0 {
        assert(pending + joined_chunks(chunks) =~= pending);
        assert(out =~= Seq::<u8>::empty());
        assert(((pending + joined_chunks(chunks)).len() - left.len()) as nat == 0);
        assert((pending + joined_chunks(chunks)).skip(0) =~= left);
    } else {
        let (now, o, c, mid, d, l) = choose|now: u64, o: Seq<u8>, c: nat, mid: Conn, d: Seq<(Seq<u64>, Frame)>, l: Seq<u8>| {
            &&& #[trigger] serves(pending + chunks[0], client, st, now, o, c, false, mid, d, l)
            &&& o.len() <= out.len()
            &&& out.take(o.len() as int) == o
            &&& d.len() <= sends.len()
            &&& sends.take(d.len() as int) == d
            &&& l.len() <= log.len()
            &&& log.take(l.len() as int) == l
            &&& connection_runs(chunks.drop_first(), (pending + chunks[0]).skip(c as int), client, mid,
                out.skip(o.len() as int), after, sends.skip(d.len() as int), log.skip(l.len() as int), left)
        };
        lemma_connection_runs_first(chunks, pending, client, st, out, after, sends, log, left, now, o, c, mid, d, l);
    }
}

/// However the bytes a client sends are cut into chunks, and whenever each
/// chunk is served, the connection answers as if all the bytes had come at
/// once: what it writes, delivers and logs, and the state it leaves, are
/// those of serving all the bytes in one go with each command at a time of
/// its own; it uses every byte but an incomplete tail, which it keeps (none
/// when the bytes are whole messages). This holds unless a buffer was
/// dropped for a protocol error.
pub proof fn law_connection_chunks(
    chunks: Seq<Seq<u8>>,
    client: u64,
    st: Conn,
    out: Seq<u8>,
    after: Conn,
    sends: Seq<(Seq<u64>, Frame)>,
    log: Seq<u8>,
    left: Seq<u8>,
)
    requires
        connection_runs(chunks, seq![], client, st, out, after, sends, log, left),
    ensures
        left.len() <= joined_chunks(chunks).len(),
        joined_chunks(chunks).skip(joined_chunks(chunks).len() - left.len()) == left,
        parse_frame(left) is Incomplete,
        serves_clocked(joined_chunks(chunks), client, st, out, (joined_chunks(chunks).len() - left.len()) as nat, false,
            after, sends, log),
{
    lemma_connection_runs(chunks, seq![], client, st, out, after, sends, log, left);
    assert(Seq::<u8>::empty() + joined_chunks(chunks) =~= joined_chunks(chunks));
}

/// The step of `lemma_connection_runs` for the first chunk.
#[verifier::rlimit(40)]
proof fn lemma_connection_runs_first(
    chunks: Seq<Seq<u8>>,
    pending: Seq<u8>,
    client: u64,
    st: Conn,
    out: Seq<u8>,
    after: Conn,
    sends: Seq<(Seq<u64>, Frame)>,
    log: Seq<u8>,
    left: Seq<u8>,
    now: u64,
    o: Seq<u8>,
    c: nat,
    mid: Conn,
    d: Seq<(Seq<u64>, Frame)>,
    l: Seq<u8>,
)
    requires
        chunks.len() > 0,
        serves(pending + chunks[0], client, st, now, o, c, false, mid, d, l),
        o.len() <= out.len(),
        out.take(o.len() as int) == o,
        d.len() <= sends.len(),
        sends.take(d.len() as int) == d,
        l.len() <= log.len(),
        log.take(l.len() as int) == l,
        connection_runs(chunks.drop_first(), (pending + chunks[0]).skip(c as int), client, mid,
            out.skip(o.len() as int), after, sends.skip(d.len() as int), log.skip(l.len() as int), left),
    ensures
        left.len() <= (pending + joined_chunks(chunks)).len(),
        (pending + joined_chunks(chunks)).skip((pending + joined_chunks(chunks)).len() - left.len()) == left,
        parse_frame(left) is Incomplete,
        serves_clocked(pending + joined_chunks(chunks), client, st, out,
            ((pending + joined_chunks(chunks)).len() - left.len()) as nat, false, after, sends, log),
    decreases chunks.len(), 0int,
{
    let buf = pending + chunks[0];
    let rest = joined_chunks(chunks.drop_first());
    lemma_serves_at_one_time(buf, client, st, now, o, c, false, mid, d, l);
    lemma_connection_runs(chunks.drop_first(), buf.skip(c as int), client, mid, out.skip(o.len() as int), after,
        sends.skip(d.len() as int), log.skip(l.len() as int), left);
    let c2 = ((buf.skip(c as int) + rest).len() - left.len()) as nat;
    lemma_serves_clocked_in_two(buf, rest, client, st, o, c, mid, d, l, out.skip(o.len() as int), c2, false, after,
        sends.skip(d.len() as int), log.skip(l.len() as int));
    assert(joined_chunks(chunks) == chunks[0] + rest);
    assert(buf + rest =~= pending + joined_chunks(chunks));
    let whole = buf + rest;
    let tail = buf.skip(c as int) + rest;
    assert(whole.skip(c as int) =~= tail);
    assert(whole.skip(whole.len() - left.len()) =~= tail.skip(tail.len() - left.len()));
    assert(o + out.skip(o.len() as int) =~= out);
    assert(d + sends.skip(d.len() as int) =~= sends);
    assert(l + log.skip(l.len() as int) =~= log);
}

/// The record of a SET with EX or PX, or of an EXPIRE, carries the deadline
/// the command set: run at any later time `t2` on the same key space, it
/// answers the same and leaves the same key space as the command did at
/// `now` (for EXPIRE, when the key is live at both times or at neither).
/// The names in the record are upper case already: `PXAT` and `PEXPIREAT`
/// upper-case to themselves, as `to_upper` states of ASCII text.
pub proof fn law_record_keeps_deadline(
    args: Seq<Seq<char>>,
    m: Map<Seq<char>, Entry>,
    now: u64,
    t2: u64,
    r1: Frame,
    m1: Map<Seq<char>, Entry>,
    r2: Frame,
    m2: Map<Seq<char>, Entry>,
)
    requires
        uppercase("PXAT"@) == "PXAT"@,
        uppercase("PEXPIREAT"@) == "PEXPIREAT"@,
        sets_relative_expiry(args) || expires_relative(args),
        expires_relative(args) ==> live_at(m, args[1], now) == live_at(m, args[1], t2),
        outcome(args, m, now, r1, m1),
        outcome(record_args(args, now), m, t2, r2, m2),
    ensures
        r2 == r1,
        m2 == m1,
{
    lemma_names();
    if sets_relative_expiry(args) {
        let amount = crate::text::decimal_u64(args[4])->0;
        let ms = if uppercase(args[3]) == "EX"@ { amount * 1000 } else { amount as int };
        lemma_u128_digits(deadline(now, ms));
    } else {
        let seconds = crate::text::decimal_u64(args[2])->0;
        lemma_u128_digits(deadline(now, seconds * 1000));
    }
}

/// A list command treats an expired key as missing: a push on it starts a
/// fresh list with no expiry, whatever the key held, and a pop or a range
/// on it answers that there is no such key.
pub proof fn law_lists_skip_expired_keys(
    m: Map<Seq<char>, Entry>,
    k: Seq<char>,
    vals: Seq<Seq<char>>,
    front: bool,
    start: i64,
    stop: i64,
    now: u64,
)
    requires
        !live_at(m, k, now),
    ensures
        !holds_other(drop_expired(m, k, now), k),
        pushed_list(drop_expired(m, k, now), k, vals, front) == (if front { vals.reverse() } else { vals }),
        after_push(drop_expired(m, k, now), k, vals, front)[k].expires_at is None,
        pop_reply(drop_expired(m, k, now), k, front) == Err::<Option<Seq<char>>, Seq<char>>(crate::store::no_such_key()),
        lrange_reply(drop_expired(m, k, now), k, start, stop) == Err::<Seq<Seq<char>>, Seq<char>>(crate::store::no_such_key()),
{
    assert(vals.reverse() + Seq::<Seq<char>>::empty() =~= vals.reverse());
    assert(Seq::<Seq<char>>::empty() + vals =~= vals);
}

/// `m` is one whole value: parsing it takes all of it.
pub open spec fn whole_value(m: Seq<u8>) -> bool {
    parse_frame(m) is Done && parse_frame(m)->Done_1 == m.len()
}

/// Bytes that are whole values one after another are served to the end:
/// every value runs as a command and no byte is kept or dropped.
pub proof fn lemma_whole_values_served(
    msgs: Seq<Seq<u8>>,
    client: u64,
    st: Conn,
    out: Seq<u8>,
    consumed: nat,
    clear: bool,
    after: Conn,
    sends: Seq<(Seq<u64>, Frame)>,
    log: Seq<u8>,
)
    requires
        forall|i: int| 0 <= i < msgs.len() ==> #[trigger] whole_value(msgs[i]),
        serves_clocked(joined_chunks(msgs), client, st, out, consumed, clear, after, sends, log),
    ensures
        consumed == joined_chunks(msgs).len(),
        !clear,
    decreases msgs.len(),
{
    let b = joined_chunks(msgs);
    if msgs.len() == 0 {
        assert(b =~= Seq::<u8>::empty());
    } else {
        let m0 = msgs[0];
        let rest = joined_chunks(msgs.drop_first());
        assert(whole_value(m0));
        assert(b == m0 + rest);
        let k = parse_frame(m0)->Done_1;
        lemma_parse_length(m0);
        assert(b.take(k as int) =~= m0.take(k as int));
        lemma_parse_agree(m0, b);
        let f = parse_frame(m0)->Done_0;
        assert(serves_clocked_command(b, client, st, f, k, out, consumed, clear, after, sends, log));
        let (now, replies, mid, s1) = choose|now: u64, replies: Seq<Frame>, mid: Conn, s1: Seq<(Seq<u64>, Frame)>| {
            let n = encode_all(replies).len() as int;
            &&& #[trigger] session_step(args_of(f), client, st, now, replies, mid, s1)
            &&& n <= out.len()
            &&& out.take(n) == encode_all(replies)
            &&& s1.len() <= sends.len()
            &&& sends.take(s1.len() as int) == s1
            &&& logged(args_of(f), now).len() <= log.len()
            &&& log.take(logged(args_of(f), now).len() as int) == logged(args_of(f), now)
            &&& k <= consumed
            &&& serves_clocked(b.subrange(k as int, b.len() as int), client, mid, out.skip(n), (consumed - k) as nat, clear,
                after, sends.skip(s1.len() as int), log.skip(logged(args_of(f), now).len() as int))
        };
        assert(b.subrange(k as int, b.len() as int) =~= rest);
        assert forall|i: int| 0 <= i < msgs.drop_first().len() implies #[trigger] whole_value(msgs.drop_first()[i]) by {
            assert(whole_value(msgs[i + 1]));
        }
        lemma_whole_values_served(msgs.drop_first(), client, mid, out.skip(encode_all(replies).len() as int),
            (consumed - k) as nat, clear, after, sends.skip(s1.len() as int), log.skip(logged(args_of(f), now).len() as int));
    }
}

/// A connection that receives whole values, however they are cut into
/// chunks and whenever each chunk is served, runs every one of them as a
/// command, in order, and keeps no byte.
pub proof fn law_connection_serves_whole_values(
    chunks: Seq<Seq<u8>>,
    msgs: Seq<Seq<u8>>,
    client: u64,
    st: Conn,
    out: Seq<u8>,
    after: Conn,
    sends: Seq<(Seq<u64>, Frame)>,
    log: Seq<u8>,
    left: Seq<u8>,
)
    requires
        forall|i: int| 0 <= i < msgs.len() ==> #[trigger] whole_value(msgs[i]),
        joined_chunks(chunks) == joined_chunks(msgs),
        connection_runs(chunks, seq![], client, st, out, after, sends, log, left),
    ensures
        left.len() == 0,
        serves_clocked(joined_chunks(msgs), client, st, out, joined_chunks(msgs).len(), false, after, sends, log),
{
    law_connection_chunks(chunks, client, st, out, after, sends, log, left);
    lemma_whole_values_served(msgs, client, st, out, (joined_chunks(chunks).len() - left.len()) as nat, false, after,
        sends, log);
}

/// A command that is not a write leaves the key space as it was, except
/// that it may drop the one key it reads when that key has expired: only
/// writes change what the key space holds, so the records of the writes are
/// all a replay needs.
pub proof fn law_only_writes_change_keys(
    args: Seq<Seq<char>>,
    m: Map<Seq<char>, Entry>,
    now: u64,
    reply: Frame,
    after: Map<Seq<char>, Entry>,
)
    requires
        outcome(args, m, now, reply, after),
        !is_write(args),
    ensures
        after == m || (args.len() >= 2 && after == drop_expired(m, args[1], now)),
{
    lemma_names();
}

/// Dropping an expired key does not change the keys that are live.
proof fn lemma_drop_expired_keeps_live(m: Map<Seq<char>, Entry>, k: Seq<char>, now: u64)
    ensures
        without_expired(drop_expired(m, k, now), now) == without_expired(m, now),
{
    assert(without_expired(drop_expired(m, k, now), now) =~= without_expired(m, now));
}

/// Every command that changes the live keys is a write and leaves a record
/// in the append-only file.
pub proof fn law_changes_are_logged(
    args: Seq<Seq<char>>,
    m: Map<Seq<char>, Entry>,
    now: u64,
    reply: Frame,
    after: Map<Seq<char>, Entry>,
)
    requires
        outcome(args, m, now, reply, after),
        without_expired(after, now) != without_expired(m, now),
    ensures
        is_write(args),
        logged(args, now).len() > 0,
{
    if !is_write(args) {
        law_only_writes_change_keys(args, m, now, reply, after);
        if after != m {
            lemma_drop_expired_keeps_live(m, args[1], now);
        }
    }
    assert(encode_frame(record_frame(record_args(args, now)))[0] == 42u8);
}

/// LRANGE names a range by its ends, each either from the head (from 0) or
/// from the end (from -1 back): whichever way the ends `s <= e` of a range
/// inside the list are named, the answer is the elements from `s` to `e`,
/// both included; an end named past the last element stands for the last.
pub proof fn law_range_by_either_end(l: Seq<Seq<char>>, s: int, e: int, start: i64, stop: i64)
    requires
        0 <= s <= e < l.len(),
        start == s || start == s - l.len(),
        stop == e || stop == e - l.len() || (e == l.len() - 1 && stop >= e),
    ensures
        range_of(l, start, stop) == l.subrange(s, e + 1),
        range_of(l, start, stop).len() == e - s + 1,
        forall|i: int| 0 <= i <= e - s ==> #[trigger] range_of(l, start, stop)[i] == l[s + i],
{
}

/// A range whose ends fall outside the list, or cross, is empty.
pub proof fn law_range_out_of_bounds(l: Seq<Seq<char>>, start: i64, stop: i64)
    requires
        (start < 0 && start + l.len() < 0) || start >= l.len() || (stop < 0 && stop + l.len() < 0)
            || (0 <= start && 0 <= stop && stop < start)
            || (start < 0 && stop < 0 && stop < start),
    ensures
        range_of(l, start, stop).len() == 0,
{
}

/// A pop takes one element and changes nothing else: the list keeps its
/// expiry, and every other key stays as it was.
pub proof fn law_pop_keeps_expiry(m: Map<Seq<char>, Entry>, k: Seq<char>, j: Seq<char>, front: bool)
    ensures
        m.contains_key(k) ==> after_pop(m, k, front).contains_key(k)
            && after_pop(m, k, front)[k].expires_at == m[k].expires_at,
        m.contains_key(k) && m[k].value is List && m[k].value->List_0.len() > 0 ==>
            after_pop(m, k, front)[k].value is List
            && after_pop(m, k, front)[k].value->List_0.len() + 1 == m[k].value->List_0.len(),
        j != k ==> after_pop(m, k, front).contains_key(j) == m.contains_key(j),
        j != k && m.contains_key(j) ==> after_pop(m, k, front)[j] == m[j],
{
}

/// A push onto a list that is held keeps its expiry.
pub proof fn law_push_keeps_expiry(m: Map<Seq<char>, Entry>, k: Seq<char>, vals: Seq<Seq<char>>, front: bool)
    requires
        m.contains_key(k),
    ensures
        after_push(m, k, vals, front)[k].expires_at == m[k].expires_at,
{
}

/// Writing a hash or a set that is live keeps its expiry, whatever is
/// written; writing one under a missing or expired key starts it with no
/// expiry. Every other key stays as it was.
pub proof fn law_writes_keep_expiry(
    m: Map<Seq<char>, Entry>,
    k: Seq<char>,
    j: Seq<char>,
    now: u64,
    h: Map<Seq<char>, Seq<char>>,
    s: Set<Seq<char>>,
)
    ensures
        live_at(m, k, now) ==> with_members(m, k, now, s)[k].expires_at == m[k].expires_at,
        live_at(m, k, now) ==> with_hash(m, k, now, h)[k].expires_at == m[k].expires_at,
        !live_at(m, k, now) ==> with_members(m, k, now, s)[k].expires_at is None,
        !live_at(m, k, now) ==> with_hash(m, k, now, h)[k].expires_at is None,
        with_members(m, k, now, s)[k].value == crate::store::Value::Members(s),
        with_hash(m, k, now, h)[k].value == crate::store::Value::Hash(h),
        j != k ==> with_members(m, k, now, s).remove(k) == m.remove(k),
        j != k ==> with_hash(m, k, now, h).remove(k) == m.remove(k),
{
    assert(with_members(m, k, now, s).remove(k) =~= m.remove(k));
    assert(with_hash(m, k, now, h).remove(k) =~= m.remove(k));
}

/// The append-only file records a write as it came, except a SET with EX or
/// PX and an EXPIRE, which carry their deadline instead
/// (`law_record_keeps_deadline`): replaying such a record runs the very
/// command that ran.
pub proof fn law_record_is_the_command(args: Seq<Seq<char>>, now: u64)
    requires
        !sets_relative_expiry(args),
        !expires_relative(args),
    ensures
        record_args(args, now) == args,
        is_write(args) ==> logged(args, now) == encode_frame(record_frame(args)),
{
}

} // verus!
