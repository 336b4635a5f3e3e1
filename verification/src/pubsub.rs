//! Publish and subscribe: the channels each connection listens to, which
//! connection listens where, and what SUBSCRIBE, UNSUBSCRIBE and PUBLISH
//! answer and deliver.
use vstd::prelude::*;
use crate::resp::{RespValue, Frame, frames_of};
use crate::store::texts;
use crate::text::str_eq;
use crate::commands::{arity_error, arity_reply, lemma_texts};

verus! {

/// Adding `x` to a list without repeats that lacks it keeps it without
/// repeats and adds `x` to its set.
pub proof fn lemma_distinct_push<A>(s: Seq<A>, x: A)
    requires
        s.no_duplicates(),
        !s.contains(x),
    ensures
        s.push(x).no_duplicates(),
        s.push(x).to_set() == s.to_set().insert(x),
{
    let r = s.push(x);
    assert forall|a: int, b: int| 0 <= a < r.len() && 0 <= b < r.len() && a != b implies r[a] != r[b] by {
        if a < s.len() && b < s.len() {
            assert(r[a] == s[a] && r[b] == s[b]);
        } else if a < s.len() {
            assert(r[a] == s[a]);
        } else {
            assert(r[b] == s[b]);
        }
    }
    assert forall|y: A| r.to_set().contains(y) <==> s.to_set().insert(x).contains(y) by {
        if s.contains(y) {
            let j = choose|j: int| 0 <= j < s.len() && s[j] == y;
            assert(r[j] == y);
        }
        if r.contains(y) && y != x {
            let j = choose|j: int| 0 <= j < r.len() && r[j] == y;
            assert(s[j] == y);
        }
        assert(r[s.len() as int] == x);
    }
    assert(r.to_set() =~= s.to_set().insert(x));
}

/// Dropping the `i`-th item of a list without repeats keeps it without
/// repeats and drops that item from its set.
pub proof fn lemma_distinct_remove<A>(s: Seq<A>, i: int)
    requires
        s.no_duplicates(),
        0 <= i < s.len(),
    ensures
        s.remove(i).no_duplicates(),
        s.remove(i).to_set() == s.to_set().remove(s[i]),
{
    let r = s.remove(i);
    assert forall|a: int, b: int| 0 <= a < r.len() && 0 <= b < r.len() && a != b implies r[a] != r[b] by {
        let a2 = if a < i { a } else { a + 1 };
        let b2 = if b < i { b } else { b + 1 };
        assert(r[a] == s[a2] && r[b] == s[b2]);
    }
    assert forall|y: A| r.to_set().contains(y) <==> s.to_set().remove(s[i]).contains(y) by {
        if r.contains(y) {
            let a = choose|a: int| 0 <= a < r.len() && r[a] == y;
            let a2 = if a < i { a } else { a + 1 };
            assert(r[a] == s[a2]);
        }
        if s.contains(y) && y != s[i] {
            let a = choose|a: int| 0 <= a < s.len() && s[a] == y;
            if a < i {
                assert(r[a] == y);
            } else {
                assert(r[a - 1] == y);
            }
        }
    }
    assert(r.to_set() =~= s.to_set().remove(s[i]));
}

/// The list of channels with `c` added at the end, unless it is there.
pub open spec fn add_channel(s: Seq<Seq<char>>, c: Seq<char>) -> Seq<Seq<char>> {
    if s.contains(c) { s } else { s.push(c) }
}

/// The list of channels without `c`.
pub open spec fn drop_channel(s: Seq<Seq<char>>, c: Seq<char>) -> Seq<Seq<char>> {
    if s.contains(c) {
        s.remove(choose|i: int| 0 <= i < s.len() && s[i] == c)
    } else {
        s
    }
}

/// The reply that tells a connection it joined or left a channel (`kind`),
/// and how many channels it then listens to.
pub open spec fn notice(kind: Seq<char>, channel: Option<Seq<char>>, count: int) -> Frame {
    Frame::Array(Some(seq![Frame::Bulk(Some(kind)), Frame::Bulk(channel), Frame::Integer(count as i64)]))
}

/// The channels listened to once the channels `chs` are joined in turn.
pub open spec fn joined(s: Seq<Seq<char>>, chs: Seq<Seq<char>>) -> Seq<Seq<char>>
    decreases chs.len(),
{
    if chs.len() == 0 { s } else { add_channel(joined(s, chs.drop_last()), chs.last()) }
}

/// The replies to joining the channels `chs` in turn.
pub open spec fn join_notices(s: Seq<Seq<char>>, chs: Seq<Seq<char>>) -> Seq<Frame>
    decreases chs.len(),
{
    if chs.len() == 0 {
        seq![]
    } else {
        join_notices(s, chs.drop_last()).push(notice("subscribe"@, Some(chs.last()), joined(s, chs).len() as int))
    }
}

/// The channels listened to once the channels `chs` are left in turn.
pub open spec fn left(s: Seq<Seq<char>>, chs: Seq<Seq<char>>) -> Seq<Seq<char>>
    decreases chs.len(),
{
    if chs.len() == 0 { s } else { drop_channel(left(s, chs.drop_last()), chs.last()) }
}

/// The replies to leaving the channels `chs` in turn.
pub open spec fn leave_notices(s: Seq<Seq<char>>, chs: Seq<Seq<char>>) -> Seq<Frame>
    decreases chs.len(),
{
    if chs.len() == 0 {
        seq![]
    } else {
        leave_notices(s, chs.drop_last()).push(notice("unsubscribe"@, Some(chs.last()), left(s, chs).len() as int))
    }
}

/// The pairs that say that connection `client` listens to each of `chs`.
pub open spec fn pairs_for(chs: Seq<Seq<char>>, client: u64) -> Set<(Seq<char>, u64)> {
    Set::new(|p: (Seq<char>, u64)| chs.contains(p.0) && p.1 == client)
}

/// The connections that listen to channel `c`.
pub open spec fn listeners(reg: Set<(Seq<char>, u64)>, c: Seq<char>) -> Set<u64> {
    Set::new(|id: u64| reg.contains((c, id)))
}

/// The message delivered to each listener of `channel`.
pub open spec fn message_frame(channel: Seq<char>, msg: Seq<char>) -> Frame {
    Frame::Array(Some(seq![Frame::Bulk(Some("message"@)), Frame::Bulk(Some(channel)), Frame::Bulk(Some(msg))]))
}

/// The channels one connection listens to, in the order it joined them.
pub struct Subscriptions {
    channels: Vec<String>,
}

impl View for Subscriptions {
    type V = Seq<Seq<char>>;

    closed spec fn view(&self) -> Seq<Seq<char>> {
        texts(self.channels@)
    }
}

impl Subscriptions {
    /// No channel is named twice.
    pub open spec fn wf(&self) -> bool {
        self@.no_duplicates()
    }

    /// A connection that listens to nothing.
    pub fn new() -> (r: Subscriptions)
        ensures
            r.wf(),
            r@ == Seq::<Seq<char>>::empty(),
    {
        let r = Subscriptions { channels: Vec::new() };
        assert(r@ =~= Seq::<Seq<char>>::empty());
        r
    }

    /// How many channels are listened to.
    pub fn count(&self) -> (r: usize)
        ensures
            r == self@.len(),
    {
        self.channels.len()
    }

    /// The channels listened to, in order.
    pub fn channels(&self) -> (r: Vec<String>)
        ensures
            texts(r@) == self@,
    {
        let mut out: Vec<String> = Vec::new();
        let mut i: usize = 0;
        while i < self.channels.len()
            invariant
                i <= self.channels@.len(),
                texts(out@) == texts(self.channels@).take(i as int),
            decreases self.channels@.len() - i,
        {
            let ghost before = out@;
            out.push(self.channels[i].clone());
            assert(texts(self.channels@).take(i + 1) =~= texts(self.channels@).take(i as int).push(self.channels@[i as int]@));
            assert(texts(out@) =~= texts(before).push(self.channels@[i as int]@));
            i = i + 1;
        }
        assert(texts(self.channels@).take(i as int) =~= texts(self.channels@));
        out
    }

    /// Where channel `c` stands, if it is listened to.
    fn find(&self, c: &str) -> (r: Option<usize>)
        ensures
            match r {
                Some(i) => i < self@.len() && self@[i as int] == c@,
                None => !self@.contains(c@),
            },
    {
        let mut i: usize = 0;
        while i < self.channels.len()
            invariant
                i <= self.channels@.len(),
                forall|j: int| 0 <= j < i ==> self@[j] != c@,
            decreases self.channels@.len() - i,
        {
            if str_eq(self.channels[i].as_str(), c) {
                return Some(i);
            }
            i = i + 1;
        }
        None
    }

    /// Joins channel `c` (nothing changes if it is listened to already).
    pub fn join(&mut self, c: String)
        requires
            old(self).wf(),
        ensures
            final(self).wf(),
            final(self)@ == add_channel(old(self)@, c@),
    {
        match self.find(c.as_str()) {
            Some(_) => {},
            None => {
                proof {
                    lemma_distinct_push(self@, c@);
                }
                self.channels.push(c);
                assert(self@ =~= old(self)@.push(c@));
            },
        }
    }

    /// Leaves channel `c` (nothing changes if it is not listened to).
    pub fn leave(&mut self, c: &str)
        requires
            old(self).wf(),
        ensures
            final(self).wf(),
            final(self)@ == drop_channel(old(self)@, c@),
    {
        match self.find(c) {
            Some(i) => {
                let ghost s = self@;
                proof {
                    let j = choose|j: int| 0 <= j < s.len() && s[j] == c@;
                    assert(j == i as int);
                    lemma_distinct_remove(s, i as int);
                }
                let _ = self.channels.remove(i);
                assert(self@ =~= s.remove(i as int));
            },
            None => {},
        }
    }
}

/// Which connection listens to which channel, as (channel, connection) pairs.
pub struct Registry {
    pairs: Vec<(String, u64)>,
}

/// The pairs, channels taken as their characters.
pub open spec fn pair_views(p: Seq<(String, u64)>) -> Seq<(Seq<char>, u64)> {
    p.map_values(|x: (String, u64)| (x.0@, x.1))
}

impl View for Registry {
    type V = Set<(Seq<char>, u64)>;

    closed spec fn view(&self) -> Set<(Seq<char>, u64)> {
        pair_views(self.pairs@).to_set()
    }
}

impl Registry {
    /// No pair is held twice.
    pub closed spec fn wf(&self) -> bool {
        pair_views(self.pairs@).no_duplicates()
    }

    /// Nobody listens anywhere.
    pub fn new() -> (r: Registry)
        ensures
            r.wf(),
            r@ == Set::<(Seq<char>, u64)>::empty(),
    {
        let r = Registry { pairs: Vec::new() };
        assert(pair_views(r.pairs@) =~= Seq::<(Seq<char>, u64)>::empty());
        assert(r@ =~= Set::<(Seq<char>, u64)>::empty());
        r
    }

    /// Where the pair (`c`, `client`) stands, if it is held.
    fn find(&self, c: &str, client: u64) -> (r: Option<usize>)
        ensures
            match r {
                Some(i) => i < self.pairs@.len() && pair_views(self.pairs@)[i as int] == (c@, client),
                None => !pair_views(self.pairs@).contains((c@, client)),
            },
    {
        let mut i: usize = 0;
        while i < self.pairs.len()
            invariant
                i <= self.pairs@.len(),
                forall|j: int| 0 <= j < i ==> pair_views(self.pairs@)[j] != (c@, client),
            decreases self.pairs@.len() - i,
        {
            if self.pairs[i].1 == client && str_eq(self.pairs[i].0.as_str(), c) {
                return Some(i);
            }
            i = i + 1;
        }
        None
    }

    /// Records that `client` listens to channel `c`.
    pub fn add(&mut self, c: String, client: u64)
        requires
            old(self).wf(),
        ensures
            final(self).wf(),
            final(self)@ == old(self)@.insert((c@, client)),
    {
        match self.find(c.as_str(), client) {
            Some(i) => {
                assert(old(self)@.insert((c@, client)) =~= old(self)@);
            },
            None => {
                let ghost s = pair_views(self.pairs@);
                proof {
                    lemma_distinct_push(s, (c@, client));
                }
                self.pairs.push((c, client));
                assert(pair_views(self.pairs@) =~= s.push((c@, client)));
            },
        }
    }

    /// Records that `client` no longer listens to channel `c`.
    pub fn remove(&mut self, c: &str, client: u64)
        requires
            old(self).wf(),
        ensures
            final(self).wf(),
            final(self)@ == old(self)@.remove((c@, client)),
    {
        match self.find(c, client) {
            Some(i) => {
                let ghost s = pair_views(self.pairs@);
                proof {
                    lemma_distinct_remove(s, i as int);
                }
                let _ = self.pairs.remove(i);
                assert(pair_views(self.pairs@) =~= s.remove(i as int));
            },
            None => {
                assert(old(self)@.remove((c@, client)) =~= old(self)@);
            },
        }
    }

    /// The connections that listen to channel `c`, each once.
    pub fn listeners_of(&self, c: &str) -> (r: Vec<u64>)
        requires
            self.wf(),
        ensures
            r@.no_duplicates(),
            r@.to_set() == listeners(self@, c@),
    {
        let ghost pv = pair_views(self.pairs@);
        let mut out: Vec<u64> = Vec::new();
        let mut i: usize = 0;
        while i < self.pairs.len()
            invariant
                i <= self.pairs@.len(),
                pv == pair_views(self.pairs@),
                pv.no_duplicates(),
                out@.no_duplicates(),
                forall|id: u64| #[trigger] out@.contains(id) <==> pv.take(i as int).contains((c@, id)),
            decreases self.pairs@.len() - i,
        {
            let ghost t0 = pv.take(i as int);
            let ghost t1 = pv.take(i + 1);
            assert(t1 =~= t0.push(pv[i as int]));
            assert forall|id: u64| t1.contains((c@, id)) <==> (t0.contains((c@, id)) || pv[i as int] == (c@, id)) by {
                if t1.contains((c@, id)) {
                    let j = choose|j: int| 0 <= j < t1.len() && t1[j] == (c@, id);
                    if j < i {
                        assert(t0[j] == (c@, id));
                    }
                }
                if t0.contains((c@, id)) {
                    let j = choose|j: int| 0 <= j < t0.len() && t0[j] == (c@, id);
                    assert(t1[j] == (c@, id));
                }
                assert(t1[i as int] == pv[i as int]);
            }
            assert(pv[i as int] == (self.pairs@[i as int].0@, self.pairs@[i as int].1));
            let ghost o0 = out@;
            if str_eq(self.pairs[i].0.as_str(), c) {
                let id = self.pairs[i].1;
                assert(pv[i as int] == (c@, id));
                assert(!t0.contains((c@, id))) by {
                    if t0.contains((c@, id)) {
                        let j = choose|j: int| 0 <= j < t0.len() && t0[j] == (c@, id);
                        assert(pv[j] == pv[i as int]);
                    }
                }
                proof {
                    lemma_distinct_push(out@, id);
                }
                out.push(id);
                assert forall|x: u64| #[trigger] out@.contains(x) <==> t1.contains((c@, x)) by {
                    if out@.contains(x) && x != id {
                        let j = choose|j: int| 0 <= j < out@.len() && out@[j] == x;
                        assert(o0[j] == x);
                    }
                    if o0.contains(x) {
                        let j = choose|j: int| 0 <= j < o0.len() && o0[j] == x;
                        assert(out@[j] == x);
                    }
                    assert(out@[o0.len() as int] == id);
                }
            } else {
                assert forall|x: u64| #[trigger] out@.contains(x) <==> t1.contains((c@, x)) by {
                    assert(pv[i as int] != (c@, x));
                }
            }
            i = i + 1;
        }
        assert(pv.take(i as int) =~= pv);
        assert(out@.to_set() =~= listeners(self@, c@)) by {
            assert forall|id: u64| out@.to_set().contains(id) <==> listeners(self@, c@).contains(id) by {
                assert(out@.contains(id) <==> pv.contains((c@, id)));
            }
        }
        out
    }
}

/// Adding one channel to a list adds its pair to the pairs for the list.
proof fn lemma_pairs_push(chs: Seq<Seq<char>>, c: Seq<char>, client: u64)
    ensures
        pairs_for(chs.push(c), client) == pairs_for(chs, client).insert((c, client)),
{
    assert forall|p: (Seq<char>, u64)| pairs_for(chs.push(c), client).contains(p)
        <==> pairs_for(chs, client).insert((c, client)).contains(p) by {
        if chs.push(c).contains(p.0) && p.0 != c {
            let j = choose|j: int| 0 <= j < chs.push(c).len() && chs.push(c)[j] == p.0;
            assert(chs[j] == p.0);
        }
        if chs.contains(p.0) {
            let j = choose|j: int| 0 <= j < chs.len() && chs[j] == p.0;
            assert(chs.push(c)[j] == p.0);
        }
        assert(chs.push(c)[chs.len() as int] == c);
    }
    assert(pairs_for(chs.push(c), client) =~= pairs_for(chs, client).insert((c, client)));
}

/// The reply that tells a connection it joined or left a channel.
fn notice_reply(kind: &str, channel: Option<String>, count: usize) -> (r: RespValue)
    ensures
        r@ == notice(kind@, match channel { Some(c) => Some(c@), None => None }, count as int),
{
    let ch = match channel {
        Some(c) => RespValue::bulk(c),
        None => RespValue::null(),
    };
    let mut items: Vec<RespValue> = Vec::new();
    items.push(RespValue::bulk(kind.to_string()));
    items.push(ch);
    items.push(RespValue::Integer(count as i64));
    let r = RespValue::Array(Some(items));
    assert(frames_of(items@) =~= seq![Frame::Bulk(Some(kind@)), items@[1]@, Frame::Integer(count as i64)]);
    r
}

/// SUBSCRIBE for connection `client`: joins each channel named after the
/// command, in turn, and answers a notice for each with the number of
/// channels then listened to.
pub fn subscribe_command(args: &Vec<String>, client: u64, subs: &mut Subscriptions, reg: &mut Registry) -> (r: Vec<RespValue>)
    requires
        args@.len() >= 1,
        old(subs).wf(),
        old(reg).wf(),
    ensures
        final(subs).wf(),
        final(reg).wf(),
        args@.len() < 2 ==> frames_of(r@) == seq![arity_error("SUBSCRIBE"@)]
            && final(subs)@ == old(subs)@ && final(reg)@ == old(reg)@,
        args@.len() >= 2 ==> frames_of(r@) == join_notices(old(subs)@, texts(args@).skip(1))
            && final(subs)@ == joined(old(subs)@, texts(args@).skip(1))
            && final(reg)@ == old(reg)@.union(pairs_for(texts(args@).skip(1), client)),
{
    let mut out: Vec<RespValue> = Vec::new();
    if args.len() < 2 {
        out.push(arity_reply("SUBSCRIBE"));
        assert(frames_of(out@) =~= seq![arity_error("SUBSCRIBE"@)]);
        return out;
    }
    let ghost s0 = subs@;
    let ghost r0 = reg@;
    let ghost all = texts(args@);
    proof {
        lemma_texts(args@);
        assert(all.subrange(1, 1) =~= Seq::<Seq<char>>::empty());
        assert(frames_of(out@) =~= Seq::<Frame>::empty());
        assert(r0.union(pairs_for(Seq::<Seq<char>>::empty(), client)) =~= r0);
    }
    let mut i: usize = 1;
    while i < args.len()
        invariant
            1 <= i <= args@.len(),
            all == texts(args@),
            subs.wf(),
            reg.wf(),
            subs@ == joined(s0, all.subrange(1, i as int)),
            frames_of(out@) == join_notices(s0, all.subrange(1, i as int)),
            reg@ == r0.union(pairs_for(all.subrange(1, i as int), client)),
        decreases args@.len() - i,
    {
        let ghost chs = all.subrange(1, i as int);
        let ghost next = all.subrange(1, i + 1);
        let ghost before = out@;
        assert(next.drop_last() =~= chs);
        assert(next.last() == args@[i as int]@);
        subs.join(args[i].clone());
        reg.add(args[i].clone(), client);
        out.push(notice_reply("subscribe", Some(args[i].clone()), subs.count()));
        proof {
            lemma_pairs_push(chs, args@[i as int]@, client);
            assert(next =~= chs.push(args@[i as int]@));
            assert(frames_of(out@) =~= frames_of(before).push(out@[before.len() as int]@));
            assert(reg@ =~= r0.union(pairs_for(next, client)));
        }
        i = i + 1;
    }
    assert(all.subrange(1, i as int) =~= all.skip(1));
    out
}

/// The channels an UNSUBSCRIBE names: those after the command, or every
/// channel listened to when it names none.
pub open spec fn leaving(args: Seq<Seq<char>>, s: Seq<Seq<char>>) -> Seq<Seq<char>> {
    if args.len() <= 1 { s } else { args.skip(1) }
}

/// UNSUBSCRIBE for connection `client`: leaves each channel named after the
/// command (all channels when it names none), in turn, and answers a notice
/// for each with the number of channels then listened to; one notice with
/// no channel and 0 when there is nothing to leave.
pub fn unsubscribe_command(args: &Vec<String>, client: u64, subs: &mut Subscriptions, reg: &mut Registry) -> (r: Vec<RespValue>)
    requires
        args@.len() >= 1,
        old(subs).wf(),
        old(reg).wf(),
    ensures
        final(subs).wf(),
        final(reg).wf(),
        leaving(texts(args@), old(subs)@).len() == 0 ==> frames_of(r@) == seq![notice("unsubscribe"@, None, 0)]
            && final(subs)@ == old(subs)@ && final(reg)@ == old(reg)@,
        leaving(texts(args@), old(subs)@).len() > 0 ==> frames_of(r@) == leave_notices(old(subs)@, leaving(texts(args@), old(subs)@))
            && final(subs)@ == left(old(subs)@, leaving(texts(args@), old(subs)@))
            && final(reg)@ == old(reg)@.difference(pairs_for(leaving(texts(args@), old(subs)@), client)),
{
    proof {
        lemma_texts(args@);
    }
    let names: Vec<String> = if args.len() <= 1 {
        subs.channels()
    } else {
        let mut v: Vec<String> = Vec::new();
        let mut k: usize = 1;
        while k < args.len()
            invariant
                1 <= k <= args@.len(),
                texts(v@) == texts(args@).subrange(1, k as int),
            decreases args@.len() - k,
        {
            let ghost before = v@;
            v.push(args[k].clone());
            assert(texts(v@) =~= texts(before).push(args@[k as int]@));
            assert(texts(args@).subrange(1, k + 1) =~= texts(args@).subrange(1, k as int).push(args@[k as int]@));
            k = k + 1;
        }
        assert(texts(args@).subrange(1, k as int) =~= texts(args@).skip(1));
        v
    };
    let ghost chs_all = texts(names@);
    assert(chs_all == leaving(texts(args@), old(subs)@));
    let mut out: Vec<RespValue> = Vec::new();
    if names.len() == 0 {
        out.push(notice_reply("unsubscribe", None, 0));
        assert(frames_of(out@) =~= seq![notice("unsubscribe"@, None, 0)]);
        return out;
    }
    let ghost s0 = subs@;
    let ghost r0 = reg@;
    proof {
        assert(chs_all.take(0) =~= Seq::<Seq<char>>::empty());
        assert(frames_of(out@) =~= Seq::<Frame>::empty());
        assert(r0.difference(pairs_for(Seq::<Seq<char>>::empty(), client)) =~= r0);
    }
    let mut i: usize = 0;
    while i < names.len()
        invariant
            i <= names@.len(),
            chs_all == texts(names@),
            subs.wf(),
            reg.wf(),
            subs@ == left(s0, chs_all.take(i as int)),
            frames_of(out@) == leave_notices(s0, chs_all.take(i as int)),
            reg@ == r0.difference(pairs_for(chs_all.take(i as int), client)),
        decreases names@.len() - i,
    {
        let ghost chs = chs_all.take(i as int);
        let ghost next = chs_all.take(i + 1);
        let ghost before = out@;
        assert(next.drop_last() =~= chs);
        assert(next.last() == names@[i as int]@);
        subs.leave(names[i].as_str());
        reg.remove(names[i].as_str(), client);
        out.push(notice_reply("unsubscribe", Some(names[i].clone()), subs.count()));
        proof {
            lemma_pairs_push(chs, names@[i as int]@, client);
            assert(next =~= chs.push(names@[i as int]@));
            assert(frames_of(out@) =~= frames_of(before).push(out@[before.len() as int]@));
            assert(reg@ =~= r0.difference(pairs_for(next, client)));
        }
        i = i + 1;
    }
    assert(chs_all.take(i as int) =~= chs_all);
    out
}

/// PUBLISH: the connections that listen to the channel, each once, the
/// reply (how many they are) and the message to deliver to each.
pub fn publish_command(args: &Vec<String>, reg: &Registry) -> (r: (RespValue, Vec<u64>, RespValue))
    requires
        args@.len() >= 1,
        reg.wf(),
    ensures
        args@.len() != 3 ==> r.0@ == arity_error("PUBLISH"@) && r.1@.len() == 0,
        args@.len() == 3 ==> {
            &&& r.1@.no_duplicates()
            &&& r.1@.to_set() == listeners(reg@, args@[1]@)
            &&& r.0@ == Frame::Integer(r.1@.len() as i64)
            &&& r.2@ == message_frame(args@[1]@, args@[2]@)
        },
{
    if args.len() != 3 {
        return (arity_reply("PUBLISH"), Vec::new(), RespValue::null());
    }
    let targets = reg.listeners_of(args[1].as_str());
    let mut items: Vec<RespValue> = Vec::new();
    items.push(RespValue::bulk("message".to_string()));
    items.push(RespValue::bulk(args[1].clone()));
    items.push(RespValue::bulk(args[2].clone()));
    proof {
        reveal_strlit("message");
    }
    assert(frames_of(items@) =~= seq![Frame::Bulk(Some("message"@)), Frame::Bulk(Some(args@[1]@)), Frame::Bulk(Some(args@[2]@))]);
    let n = targets.len();
    (RespValue::Integer(n as i64), targets, RespValue::Array(Some(items)))
}

} // verus!
