//! The in-memory key space: strings, lists, hashes and sets under string
//! keys, each with an optional expiry time.
use vstd::prelude::*;
use vstd::seq_lib::seq_to_set_is_finite;
use std::collections::VecDeque;
use crate::text::str_eq;
use crate::ext::clock_millis;

verus! {

/// The reply to an operation on a key that holds another kind of value.
pub const WRONG_TYPE: &'static str = "WRONGTYPE Operation against a key holding the wrong kind of value";

/// The reply to a list operation that needs a key that is not held.
pub const NO_SUCH_KEY: &'static str = "ERR no such key";

/// A value held under a key. A hash holds (field, value) pairs and a set its
/// members, each field or member once (see `value_wf`).
pub enum StoreValue {
    StringVal(String),
    ListVal(VecDeque<String>),
    HashVal(Vec<(String, String)>),
    SetVal(Vec<String>),
}

/// A value and the time, in milliseconds since the Unix epoch, at which it
/// expires (none: it does not expire).
pub struct StoreEntry {
    pub value: StoreValue,
    pub expires_at: Option<u128>,
}

/// The key space. Each key occurs once.
pub struct Store {
    entries: Vec<(String, StoreEntry)>,
}

/// The meaning of a stored value, strings taken as their characters.
pub enum Value {
    Str(Seq<char>),
    List(Seq<Seq<char>>),
    Hash(Map<Seq<char>, Seq<char>>),
    Members(Set<Seq<char>>),
}

/// The meaning of a stored entry.
pub struct Entry {
    pub value: Value,
    pub expires_at: Option<u128>,
}

/// The characters of each string of a list.
pub open spec fn texts(s: Seq<String>) -> Seq<Seq<char>> {
    s.map_values(|x: String| x@)
}

impl View for StoreValue {
    type V = Value;

    open spec fn view(&self) -> Value {
        match self {
            StoreValue::StringVal(s) => Value::Str(s@),
            StoreValue::ListVal(l) => Value::List(texts(l@)),
            StoreValue::HashVal(h) => Value::Hash(entries_map(h@)),
            StoreValue::SetVal(s) => Value::Members(texts(s@).to_set()),
        }
    }
}

/// A hash names each field once and a set each member once.
pub open spec fn value_wf(v: StoreValue) -> bool {
    match v {
        StoreValue::HashVal(h) => distinct_keys(h@),
        StoreValue::SetVal(m) => texts(m@).no_duplicates(),
        _ => true,
    }
}

impl StoreEntry {
    /// The value is well formed: see `value_wf`.
    pub open spec fn well_formed(&self) -> bool {
        value_wf(self.value)
    }

    /// Whether the value is well formed.
    pub fn is_well_formed(&self) -> (r: bool)
        ensures
            r == self.well_formed(),
    {
        match &self.value {
            StoreValue::HashVal(h) => pairs_distinct(h),
            StoreValue::SetVal(m) => members_distinct(m),
            _ => true,
        }
    }
}

/// Whether no key occurs twice among the pairs.
fn pairs_distinct(h: &Vec<(String, String)>) -> (r: bool)
    ensures
        r == distinct_keys(h@),
{
    let mut j: usize = 0;
    while j < h.len()
        invariant
            j <= h@.len(),
            forall|a: int, b: int| 0 <= a < b < h@.len() && b < j ==> #[trigger] h@[a].0@ != #[trigger] h@[b].0@,
        decreases h@.len() - j,
    {
        let mut i: usize = 0;
        while i < j
            invariant
                i <= j < h@.len(),
                forall|a: int| 0 <= a < i ==> h@[a].0@ != h@[j as int].0@,
            decreases j - i,
        {
            if str_eq(h[i].0.as_str(), h[j].0.as_str()) {
                return false;
            }
            i = i + 1;
        }
        j = j + 1;
    }
    true
}

/// Whether no member occurs twice.
fn members_distinct(m: &Vec<String>) -> (r: bool)
    ensures
        r == texts(m@).no_duplicates(),
{
    let ghost t = texts(m@);
    let mut j: usize = 0;
    while j < m.len()
        invariant
            j <= m@.len(),
            t == texts(m@),
            forall|a: int, b: int| 0 <= a < b < m@.len() && b < j ==> #[trigger] t[a] != #[trigger] t[b],
        decreases m@.len() - j,
    {
        let mut i: usize = 0;
        while i < j
            invariant
                i <= j < m@.len(),
                t == texts(m@),
                forall|a: int| 0 <= a < i ==> t[a] != t[j as int],
            decreases j - i,
        {
            if str_eq(m[i].as_str(), m[j].as_str()) {
                assert(t[i as int] == t[j as int]);
                return false;
            }
            i = i + 1;
        }
        j = j + 1;
    }
    assert forall|a: int, b: int| 0 <= a < t.len() && 0 <= b < t.len() && a != b implies t[a] != t[b] by {
        if a < b {
            assert(t[a] != t[b]);
        } else {
            assert(t[b] != t[a]);
        }
    }
    true
}

/// Where `key` stands among the pairs, if it does.
fn find_key<V: View>(s: &Vec<(String, V)>, key: &str) -> (r: Option<usize>)
    requires
        distinct_keys(s@),
    ensures
        match r {
            Some(i) => i < s@.len() && s@[i as int].0@ == key@
                && entries_map(s@).contains_key(key@) && entries_map(s@)[key@] == s@[i as int].1@,
            None => !entries_map(s@).contains_key(key@),
        },
{
    let mut i: usize = 0;
    while i < s.len()
        invariant
            i <= s@.len(),
            distinct_keys(s@),
            forall|j: int| 0 <= j < i ==> s@[j].0@ != key@,
        decreases s@.len() - i,
    {
        if str_eq(s[i].0.as_str(), key) {
            proof {
                lemma_entries_map_at(s@, i as int);
            }
            return Some(i);
        }
        i = i + 1;
    }
    proof {
        lemma_entries_map_dom(s@, key@);
    }
    None
}

/// Drops the pairs for each of `keys`, and says how many distinct keys went.
fn remove_keys_from<V: View>(s: &mut Vec<(String, V)>, keys: &[String]) -> (r: usize)
    requires
        distinct_keys(old(s)@),
    ensures
        distinct_keys(final(s)@),
        entries_map(final(s)@) == entries_map(old(s)@).remove_keys(texts(keys@).to_set()),
        r == entries_map(old(s)@).dom().intersect(texts(keys@).to_set()).len(),
        r <= keys@.len(),
        forall|j: int| 0 <= j < final(s)@.len() ==> exists|i: int| 0 <= i < old(s)@.len() && #[trigger] final(s)@[j] == old(s)@[i],
{
    let ghost m = entries_map(s@);
    let ghost s0 = s@;
    proof {
        lemma_entries_map_dom(s@, Seq::empty());
        assert(texts(keys@.take(0)).to_set() =~= Set::<Seq<char>>::empty());
        assert(m.remove_keys(Set::<Seq<char>>::empty()) =~= m);
        assert(m.dom().intersect(Set::<Seq<char>>::empty()) =~= Set::<Seq<char>>::empty());
    }
    let mut count: usize = 0;
    let mut i: usize = 0;
    while i < keys.len()
        invariant
            distinct_keys(s@),
            m.dom().finite(),
            i <= keys@.len(),
            count <= i,
            entries_map(s@) == m.remove_keys(texts(keys@.take(i as int)).to_set()),
            count == m.dom().intersect(texts(keys@.take(i as int)).to_set()).len(),
            forall|j: int| 0 <= j < s@.len() ==> exists|a: int| 0 <= a < s0.len() && #[trigger] s@[j] == s0[a],
        decreases keys@.len() - i,
    {
        let ghost before = texts(keys@.take(i as int)).to_set();
        let ghost k = keys@[i as int]@;
        proof {
            assert(texts(keys@.take(i + 1)) =~= texts(keys@.take(i as int)) + seq![k]);
            Seq::<Seq<char>>::lemma_to_set_insert_commutes(texts(keys@.take(i as int)), k);
        }
        let ghost after = before.insert(k);
        assert(texts(keys@.take(i + 1)).to_set() == after);
        match find_key(s, keys[i].as_str()) {
            Some(j) => {
                let ghost sb = s@;
                proof {
                    lemma_entries_map_remove(s@, j as int);
                }
                let _ = s.remove(j);
                assert forall|x: int| 0 <= x < s@.len() implies exists|a: int| 0 <= a < s0.len() && #[trigger] s@[x] == s0[a] by {
                    if x < j {
                        assert(s@[x] == sb[x]);
                    } else {
                        assert(s@[x] == sb[x + 1]);
                    }
                }
                assert(entries_map(s@) =~= m.remove_keys(after));
                assert(!m.dom().intersect(before).contains(k));
                assert(m.dom().intersect(after) =~= m.dom().intersect(before).insert(k));
                count = count + 1;
            },
            None => {
                assert(entries_map(s@) =~= m.remove_keys(after));
                assert(m.dom().intersect(after) =~= m.dom().intersect(before));
            },
        }
        i = i + 1;
    }
    assert(keys@.take(i as int) =~= keys@);
    count
}

/// Where `x` stands among the members, if it does.
fn find_member(v: &Vec<String>, x: &str) -> (r: Option<usize>)
    ensures
        match r {
            Some(i) => i < v@.len() && v@[i as int]@ == x@,
            None => !texts(v@).contains(x@),
        },
{
    let mut i: usize = 0;
    while i < v.len()
        invariant
            i <= v@.len(),
            forall|j: int| 0 <= j < i ==> v@[j]@ != x@,
        decreases v@.len() - i,
    {
        if str_eq(v[i].as_str(), x) {
            return Some(i);
        }
        i = i + 1;
    }
    assert forall|j: int| 0 <= j < texts(v@).len() implies texts(v@)[j] != x@ by {
        assert(texts(v@)[j] == v@[j]@);
    }
    None
}

/// Dropping a member of a set without repeats drops it from the set.
proof fn lemma_members_remove(v: Seq<String>, i: int)
    requires
        texts(v).no_duplicates(),
        0 <= i < v.len(),
    ensures
        texts(v.remove(i)).no_duplicates(),
        texts(v.remove(i)).to_set() == texts(v).to_set().remove(v[i]@),
{
    let t = texts(v);
    let r = texts(v.remove(i));
    assert(r =~= t.remove(i));
    assert forall|a: int, b: int| 0 <= a < r.len() && 0 <= b < r.len() && a != b implies r[a] != r[b] by {
        let a2 = if a < i { a } else { a + 1 };
        let b2 = if b < i { b } else { b + 1 };
        assert(r[a] == t[a2] && r[b] == t[b2]);
    }
    assert forall|x: Seq<char>| r.to_set().contains(x) <==> t.to_set().remove(v[i]@).contains(x) by {
        if r.contains(x) {
            let a = choose|a: int| 0 <= a < r.len() && r[a] == x;
            let a2 = if a < i { a } else { a + 1 };
            assert(r[a] == t[a2]);
            assert(a2 != i);
            assert(t[i] == v[i]@);
        }
        if t.contains(x) && x != v[i]@ {
            let a = choose|a: int| 0 <= a < t.len() && t[a] == x;
            assert(a != i);
            if a < i {
                assert(r[a] == t[a]);
            } else {
                assert(r[a - 1] == t[a]);
            }
        }
    }
    assert(r.to_set() =~= t.to_set().remove(v[i]@));
}

/// Adding a new member to a set without repeats adds it to the set.
proof fn lemma_members_push(v: Seq<String>, x: String)
    requires
        texts(v).no_duplicates(),
        !texts(v).contains(x@),
    ensures
        texts(v.push(x)).no_duplicates(),
        texts(v.push(x)).to_set() == texts(v).to_set().insert(x@),
{
    let t = texts(v);
    let r = texts(v.push(x));
    assert(r =~= t + seq![x@]);
    Seq::<Seq<char>>::lemma_to_set_insert_commutes(t, x@);
    assert forall|a: int, b: int| 0 <= a < r.len() && 0 <= b < r.len() && a != b implies r[a] != r[b] by {
        if a < t.len() && b < t.len() {
            assert(r[a] == t[a] && r[b] == t[b]);
        } else if a < t.len() {
            assert(r[a] == t[a]);
        } else {
            assert(r[b] == t[b]);
        }
    }
}

impl View for StoreEntry {
    type V = Entry;

    open spec fn view(&self) -> Entry {
        Entry { value: self.value@, expires_at: self.expires_at }
    }
}

/// The map that a list of (key, value) pairs stands for, each value taken by
/// its view; a later pair for a key wins over an earlier one.
pub open spec fn entries_map<V: View>(s: Seq<(String, V)>) -> Map<Seq<char>, V::V>
    decreases s.len(),
{
    if s.len() == 0 {
        Map::empty()
    } else {
        entries_map(s.drop_last()).insert(s.last().0@, s.last().1@)
    }
}

/// No key occurs twice among the pairs.
pub open spec fn distinct_keys<V>(s: Seq<(String, V)>) -> bool {
    forall|i: int, j: int| 0 <= i < j < s.len() ==> #[trigger] s[i].0@ != #[trigger] s[j].0@
}

pub proof fn lemma_entries_map_dom<V: View>(s: Seq<(String, V)>, k: Seq<char>)
    ensures
        entries_map(s).contains_key(k) <==> exists|i: int| 0 <= i < s.len() && s[i].0@ == k,
        entries_map(s).dom().finite(),
    decreases s.len(),
{
    if s.len() > 0 {
        lemma_entries_map_dom(s.drop_last(), k);
        if entries_map(s.drop_last()).contains_key(k) {
            let i = choose|i: int| 0 <= i < s.drop_last().len() && s.drop_last()[i].0@ == k;
            assert(s[i].0@ == k);
        }
        if exists|i: int| 0 <= i < s.len() && s[i].0@ == k {
            let i = choose|i: int| 0 <= i < s.len() && s[i].0@ == k;
            if i < s.len() - 1 {
                assert(s.drop_last()[i].0@ == k);
            }
        }
    }
}

pub proof fn lemma_entries_map_at<V: View>(s: Seq<(String, V)>, i: int)
    requires
        distinct_keys(s),
        0 <= i < s.len(),
    ensures
        entries_map(s).contains_key(s[i].0@),
        entries_map(s)[s[i].0@] == s[i].1@,
    decreases s.len(),
{
    if i < s.len() - 1 {
        let t = s.drop_last();
        assert(t[i] == s[i]);
        assert(distinct_keys(t)) by {
            assert forall|a: int, b: int| 0 <= a < b < t.len() implies #[trigger] t[a].0@ != #[trigger] t[b].0@ by {
                assert(t[a] == s[a] && t[b] == s[b]);
            }
        }
        lemma_entries_map_at(t, i);
        assert(s[i].0@ != s.last().0@);
    }
}

pub proof fn lemma_entries_map_remove<V: View>(s: Seq<(String, V)>, i: int)
    requires
        distinct_keys(s),
        0 <= i < s.len(),
    ensures
        entries_map(s.remove(i)) == entries_map(s).remove(s[i].0@),
        distinct_keys(s.remove(i)),
    decreases s.len(),
{
    let k = s[i].0@;
    let t = s.drop_last();
    assert(distinct_keys(t)) by {
        assert forall|a: int, b: int| 0 <= a < b < t.len() implies #[trigger] t[a].0@ != #[trigger] t[b].0@ by {
            assert(t[a] == s[a] && t[b] == s[b]);
        }
    }
    let r = s.remove(i);
    assert(distinct_keys(r)) by {
        assert forall|a: int, b: int| 0 <= a < b < r.len() implies #[trigger] r[a].0@ != #[trigger] r[b].0@ by {
            let a2 = if a < i { a } else { a + 1 };
            let b2 = if b < i { b } else { b + 1 };
            assert(r[a] == s[a2] && r[b] == s[b2]);
        }
    }
    if i == s.len() - 1 {
        assert(r =~= t);
        lemma_entries_map_dom(t, k);
        assert forall|j: int| 0 <= j < t.len() implies t[j].0@ != k by {
            assert(t[j] == s[j]);
        }
        assert(entries_map(r) =~= entries_map(s).remove(k));
    } else {
        lemma_entries_map_remove(t, i);
        assert(r.drop_last() =~= t.remove(i));
        assert(r.last() == s.last());
        assert(s.last().0@ != k);
        assert(entries_map(r) =~= entries_map(s).remove(k));
    }
}

pub proof fn lemma_entries_map_push<V: View>(s: Seq<(String, V)>, p: (String, V))
    requires
        distinct_keys(s),
        !entries_map(s).contains_key(p.0@),
    ensures
        entries_map(s.push(p)) == entries_map(s).insert(p.0@, p.1@),
        distinct_keys(s.push(p)),
{
    lemma_entries_map_dom(s, p.0@);
    assert(s.push(p).drop_last() =~= s);
    let r = s.push(p);
    assert forall|a: int, b: int| 0 <= a < b < r.len() implies #[trigger] r[a].0@ != #[trigger] r[b].0@ by {
        if b == s.len() {
            assert(r[a] == s[a]);
        } else {
            assert(r[a] == s[a] && r[b] == s[b]);
        }
    }
}

impl View for Store {
    type V = Map<Seq<char>, Entry>;

    closed spec fn view(&self) -> Map<Seq<char>, Entry> {
        entries_map(self.entries@)
    }
}

impl Store {
    /// Each key occurs once, and each value is well formed.
    pub closed spec fn wf(&self) -> bool {
        &&& distinct_keys(self.entries@)
        &&& forall|i: int| 0 <= i < self.entries@.len() ==> (#[trigger] self.entries@[i]).1.well_formed()
    }

    /// An empty key space.
    pub fn new() -> (r: Store)
        ensures
            r.wf(),
            r@ == Map::<Seq<char>, Entry>::empty(),
    {
        Store { entries: Vec::new() }
    }

    /// Where `key` is held, if it is.
    fn find(&self, key: &str) -> (r: Option<usize>)
        requires
            self.wf(),
        ensures
            match r {
                Some(i) => i < self.entries@.len() && self.entries@[i as int].0@ == key@
                    && self@.contains_key(key@) && self@[key@] == self.entries@[i as int].1@,
                None => !self@.contains_key(key@),
            },
    {
        find_key(&self.entries, key)
    }

    /// Takes the pair at `i` out of the key space.
    fn take_at(&mut self, i: usize) -> (r: (String, StoreEntry))
        requires
            old(self).wf(),
            i < old(self).entries@.len(),
        ensures
            final(self).wf(),
            r == old(self).entries@[i as int],
            r.1.well_formed(),
            final(self).entries@ == old(self).entries@.remove(i as int),
            old(self)@.contains_key(r.0@),
            old(self)@[r.0@] == r.1@,
            final(self)@ == old(self)@.remove(r.0@),
    {
        proof {
            lemma_entries_map_at(self.entries@, i as int);
            lemma_entries_map_remove(self.entries@, i as int);
        }
        let ghost es = self.entries@;
        let r = self.entries.remove(i);
        assert forall|j: int| 0 <= j < self.entries@.len() implies (#[trigger] self.entries@[j]).1.well_formed() by {
            if j < i {
                assert(self.entries@[j] == es[j]);
            } else {
                assert(self.entries@[j] == es[j + 1]);
            }
        }
        assert(es[i as int].1.well_formed());
        r
    }

    /// Puts a pair for a key that is not held.
    fn add(&mut self, key: String, entry: StoreEntry)
        requires
            old(self).wf(),
            !old(self)@.contains_key(key@),
            entry.well_formed(),
        ensures
            final(self).wf(),
            final(self)@ == old(self)@.insert(key@, entry@),
    {
        proof {
            lemma_entries_map_push(self.entries@, (key, entry));
        }
        let ghost es = self.entries@;
        self.entries.push((key, entry));
        assert forall|j: int| 0 <= j < self.entries@.len() implies (#[trigger] self.entries@[j]).1.well_formed() by {
            if j < es.len() {
                assert(self.entries@[j] == es[j]);
            }
        }
    }

    /// The (key, entry) pairs that make up the key space, each key once.
    pub fn entries(&self) -> (r: &[(String, StoreEntry)])
        requires
            self.wf(),
        ensures
            entries_map(r@) == self@,
            distinct_keys(r@),
    {
        self.entries.as_slice()
    }

    /// Puts `entry` under `key`, in place of what was there.
    pub fn insert_entry(&mut self, key: String, entry: StoreEntry)
        requires
            old(self).wf(),
            entry.well_formed(),
        ensures
            final(self).wf(),
            final(self)@ == old(self)@.insert(key@, entry@),
    {
        match self.find(key.as_str()) {
            Some(i) => {
                let _ = self.take_at(i);
                self.add(key, entry);
                assert(self@ =~= old(self)@.insert(key@, entry@));
            },
            None => {
                self.add(key, entry);
            },
        }
    }
}


/// The text of the reply to an operation on a key of the wrong kind.
pub open spec fn wrong_type() -> Seq<char> {
    WRONG_TYPE@
}

/// The text of the reply to a list operation on a key that is not held.
pub open spec fn no_such_key() -> Seq<char> {
    NO_SUCH_KEY@
}

/// The entry has not expired at time `now` (milliseconds since the epoch):
/// it has no expiry, or its expiry lies after `now`.
pub open spec fn is_live(e: Entry, now: u64) -> bool {
    match e.expires_at {
        Some(t) => (now as int) < (t as int),
        None => true,
    }
}

/// `key` is held and has not expired at `now`.
pub open spec fn live_at(m: Map<Seq<char>, Entry>, key: Seq<char>, now: u64) -> bool {
    m.contains_key(key) && is_live(m[key], now)
}

/// The key space once `key` is dropped if it has expired at `now`.
pub open spec fn drop_expired(m: Map<Seq<char>, Entry>, key: Seq<char>, now: u64) -> Map<Seq<char>, Entry> {
    if m.contains_key(key) && !is_live(m[key], now) {
        m.remove(key)
    } else {
        m
    }
}

/// What GET answers: the string under a live key; nothing for a missing or
/// expired key; an error for a key of another kind.
pub open spec fn get_reply(m: Map<Seq<char>, Entry>, key: Seq<char>, now: u64) -> Result<Option<Seq<char>>, Seq<char>> {
    if !live_at(m, key, now) {
        Ok(None)
    } else {
        match m[key].value {
            Value::Str(s) => Ok(Some(s)),
            _ => Err(wrong_type()),
        }
    }
}

/// The time `ms` milliseconds after `now`.
pub open spec fn deadline(now: u64, ms: int) -> u128 {
    (now + ms) as u128
}

/// The entry holding the string `v` with the given expiry.
pub open spec fn string_entry(v: Seq<char>, expires_at: Option<u128>) -> Entry {
    Entry { value: Value::Str(v), expires_at }
}

/// The entry under `key` with its expiry replaced.
pub open spec fn with_expiry(m: Map<Seq<char>, Entry>, key: Seq<char>, expires_at: Option<u128>) -> Map<Seq<char>, Entry> {
    m.insert(key, Entry { value: m[key].value, expires_at })
}

/// The keys held and not expired at `now`.
pub open spec fn live_keys(m: Map<Seq<char>, Entry>, now: u64) -> Set<Seq<char>> {
    m.dom().filter(|k: Seq<char>| is_live(m[k], now))
}

/// The key space without the entries that have expired at `now`.
pub open spec fn without_expired(m: Map<Seq<char>, Entry>, now: u64) -> Map<Seq<char>, Entry> {
    m.restrict(live_keys(m, now))
}

/// How many of `keys` (counting repeats) are held and not expired at `now`.
pub open spec fn count_live(m: Map<Seq<char>, Entry>, keys: Seq<Seq<char>>, now: u64) -> nat {
    keys.filter(|k: Seq<char>| live_at(m, k, now)).len()
}

/// What TTL answers: -2 for a missing or expired key, -1 for a key with no
/// expiry, else the whole seconds left (at most `i64::MAX`).
pub open spec fn ttl_reply(m: Map<Seq<char>, Entry>, key: Seq<char>, now: u64) -> i64 {
    if !live_at(m, key, now) {
        -2i64
    } else {
        match m[key].expires_at {
            Some(t) => if ((t - now) as int) / 1000 > i64::MAX { i64::MAX } else { (((t - now) as int) / 1000) as i64 },
            None => -1i64,
        }
    }
}

/// The list under `key` after pushing `vals`, one by one, at its front (or
/// its back); a missing key starts from an empty list.
pub open spec fn pushed_list(m: Map<Seq<char>, Entry>, key: Seq<char>, vals: Seq<Seq<char>>, front: bool) -> Seq<Seq<char>> {
    let l = if m.contains_key(key) && m[key].value is List { m[key].value->List_0 } else { seq![] };
    if front {
        vals.reverse() + l
    } else {
        l + vals
    }
}

/// `key` holds something other than a list.
pub open spec fn holds_other(m: Map<Seq<char>, Entry>, key: Seq<char>) -> bool {
    m.contains_key(key) && !(m[key].value is List)
}

/// The key space after a push of `vals` on the list under `key`; the expiry
/// of a present key stays, a new key has none.
pub open spec fn after_push(m: Map<Seq<char>, Entry>, key: Seq<char>, vals: Seq<Seq<char>>, front: bool) -> Map<Seq<char>, Entry> {
    let expires_at = if m.contains_key(key) { m[key].expires_at } else { None };
    m.insert(key, Entry { value: Value::List(pushed_list(m, key, vals, front)), expires_at })
}

/// What LPOP (front) or RPOP answers: the first (or last) element of the
/// list; nothing for an empty list; an error for a missing key or a key of
/// another kind.
pub open spec fn pop_reply(m: Map<Seq<char>, Entry>, key: Seq<char>, front: bool) -> Result<Option<Seq<char>>, Seq<char>> {
    if !m.contains_key(key) {
        Err(no_such_key())
    } else {
        match m[key].value {
            Value::List(l) => if l.len() == 0 {
                Ok(None)
            } else if front {
                Ok(Some(l[0]))
            } else {
                Ok(Some(l.last()))
            },
            _ => Err(wrong_type()),
        }
    }
}

/// The key space after LPOP (front) or RPOP.
pub open spec fn after_pop(m: Map<Seq<char>, Entry>, key: Seq<char>, front: bool) -> Map<Seq<char>, Entry> {
    if m.contains_key(key) && m[key].value is List && m[key].value->List_0.len() > 0 {
        let l = m[key].value->List_0;
        let rest = if front { l.drop_first() } else { l.drop_last() };
        m.insert(key, Entry { value: Value::List(rest), expires_at: m[key].expires_at })
    } else {
        m
    }
}

/// The elements of `l` from `start` to `stop`, both included, a negative
/// index counting from the end; a `stop` past the end means the last
/// element; a range that starts or ends before the head, starts past the
/// end, or starts after it stops gives nothing.
pub open spec fn range_of(l: Seq<Seq<char>>, start: i64, stop: i64) -> Seq<Seq<char>> {
    let n = l.len() as int;
    let s = if start < 0 { n + start } else { start as int };
    let e = if stop < 0 { n + stop } else { stop as int };
    let last = if e > n - 1 { n - 1 } else { e };
    if s < 0 || e < 0 || s >= n || s > last {
        seq![]
    } else {
        l.subrange(s, last + 1)
    }
}

/// What LRANGE answers: the range of the list; an error for a missing key
/// or a key of another kind.
pub open spec fn lrange_reply(m: Map<Seq<char>, Entry>, key: Seq<char>, start: i64, stop: i64) -> Result<Seq<Seq<char>>, Seq<char>> {
    if !m.contains_key(key) {
        Err(no_such_key())
    } else {
        match m[key].value {
            Value::List(l) => Ok(range_of(l, start, stop)),
            _ => Err(wrong_type()),
        }
    }
}

/// `key` holds, unexpired at `now`, a value that is not a hash (or, for
/// `hash` false, not a set).
pub open spec fn live_other(m: Map<Seq<char>, Entry>, key: Seq<char>, now: u64, hash: bool) -> bool {
    live_at(m, key, now) && !(if hash { m[key].value is Hash } else { m[key].value is Members })
}

/// The hash under `key` at `now`; empty for a missing or expired key.
pub open spec fn hash_at(m: Map<Seq<char>, Entry>, key: Seq<char>, now: u64) -> Map<Seq<char>, Seq<char>> {
    if live_at(m, key, now) && m[key].value is Hash {
        m[key].value->Hash_0
    } else {
        Map::empty()
    }
}

/// The set under `key` at `now`; empty for a missing or expired key.
pub open spec fn members_at(m: Map<Seq<char>, Entry>, key: Seq<char>, now: u64) -> Set<Seq<char>> {
    if live_at(m, key, now) && m[key].value is Members {
        m[key].value->Members_0
    } else {
        Set::empty()
    }
}

/// The expiry that a write keeps: that of an unexpired key, none for a new one.
pub open spec fn kept_expiry(m: Map<Seq<char>, Entry>, key: Seq<char>, now: u64) -> Option<u128> {
    if live_at(m, key, now) {
        m[key].expires_at
    } else {
        None
    }
}

/// The key space with the hash `h` under `key`, keeping its expiry.
pub open spec fn with_hash(m: Map<Seq<char>, Entry>, key: Seq<char>, now: u64, h: Map<Seq<char>, Seq<char>>) -> Map<Seq<char>, Entry> {
    m.insert(key, Entry { value: Value::Hash(h), expires_at: kept_expiry(m, key, now) })
}

/// The key space with the set `s` under `key`, keeping its expiry.
pub open spec fn with_members(m: Map<Seq<char>, Entry>, key: Seq<char>, now: u64, s: Set<Seq<char>>) -> Map<Seq<char>, Entry> {
    m.insert(key, Entry { value: Value::Members(s), expires_at: kept_expiry(m, key, now) })
}

/// The keys of the first `i` pairs that have not expired at `now`, in order.
pub open spec fn live_prefix_keys(es: Seq<(String, StoreEntry)>, i: int, now: u64) -> Seq<Seq<char>>
    decreases i,
{
    if i <= 0 {
        seq![]
    } else if is_live(es[i - 1].1@, now) {
        live_prefix_keys(es, i - 1, now).push(es[i - 1].0@)
    } else {
        live_prefix_keys(es, i - 1, now)
    }
}

pub proof fn lemma_live_prefix_keys(es: Seq<(String, StoreEntry)>, i: int, now: u64)
    requires
        distinct_keys(es),
        0 <= i <= es.len(),
    ensures
        forall|k: Seq<char>| #[trigger] live_prefix_keys(es, i, now).contains(k)
            <==> exists|j: int| 0 <= j < i && es[j].0@ == k && is_live(es[j].1@, now),
        live_prefix_keys(es, i, now).no_duplicates(),
    decreases i,
{
    if i > 0 {
        lemma_live_prefix_keys(es, i - 1, now);
        let p = live_prefix_keys(es, i - 1, now);
        let k0 = es[i - 1].0@;
        assert forall|k: Seq<char>| #[trigger] live_prefix_keys(es, i, now).contains(k)
            <==> exists|j: int| 0 <= j < i && es[j].0@ == k && is_live(es[j].1@, now) by {
            if live_prefix_keys(es, i, now).contains(k) {
                if is_live(es[i - 1].1@, now) && k == k0 {
                } else {
                    if is_live(es[i - 1].1@, now) {
                        let a = choose|a: int| 0 <= a < p.push(k0).len() && p.push(k0)[a] == k;
                        assert(p[a] == k);
                    }
                    assert(p.contains(k));
                }
            }
            if exists|j: int| 0 <= j < i && es[j].0@ == k && is_live(es[j].1@, now) {
                let j = choose|j: int| 0 <= j < i && es[j].0@ == k && is_live(es[j].1@, now);
                if j == i - 1 {
                    assert(live_prefix_keys(es, i, now)[p.len() as int] == k);
                } else {
                    assert(p.contains(k));
                    let a = choose|a: int| 0 <= a < p.len() && p[a] == k;
                    if is_live(es[i - 1].1@, now) {
                        assert(p.push(k0)[a] == k);
                    }
                }
            }
        }
        if is_live(es[i - 1].1@, now) {
            assert(!p.contains(k0)) by {
                if p.contains(k0) {
                    let j = choose|j: int| 0 <= j < i - 1 && es[j].0@ == k0 && is_live(es[j].1@, now);
                    assert(es[j].0@ != es[i - 1].0@);
                }
            }
            let q = p.push(k0);
            assert forall|a: int, b: int| 0 <= a < q.len() && 0 <= b < q.len() && a != b implies q[a] != q[b] by {
                if a < p.len() && b < p.len() {
                } else if a < p.len() {
                    assert(p.contains(q[a]));
                } else {
                    assert(p.contains(q[b]));
                }
            }
        }
    }
}

/// The entry has expired at `now`.
fn is_expired(entry: &StoreEntry, now: u64) -> (r: bool)
    ensures
        r == !is_live(entry@, now),
{
    match entry.expires_at {
        Some(t) => (now as u128) >= t,
        None => false,
    }
}

impl Store {
    /// GET at time `now`: see `get_reply`; an expired key is dropped.
    pub fn get_at(&mut self, key: &str, now: u64) -> (r: Result<Option<String>, String>)
        requires
            old(self).wf(),
        ensures
            final(self).wf(),
            final(self)@ == drop_expired(old(self)@, key@, now),
            match (r, get_reply(old(self)@, key@, now)) {
                (Ok(Some(s)), Ok(Some(t))) => s@ == t,
                (Ok(None), Ok(None)) => true,
                (Err(e), Err(t)) => e@ == t,
                _ => false,
            },
    {
        match self.find(key) {
            None => Ok(None),
            Some(i) => {
                if is_expired(&self.entries[i].1, now) {
                    let _ = self.take_at(i);
                    return Ok(None);
                }
                match &self.entries[i].1.value {
                    StoreValue::StringVal(s) => Ok(Some(s.clone())),
                    _ => Err(WRONG_TYPE.to_owned()),
                }
            },
        }
    }

    /// GET: the string under `key`, if it is held and has not expired.
    pub fn get(&mut self, key: &str) -> (r: Result<Option<String>, String>)
        requires
            old(self).wf(),
        ensures
            final(self).wf(),
            exists|now: u64| {
                &&& final(self)@ == drop_expired(old(self)@, key@, now)
                &&& match (r, get_reply(old(self)@, key@, now)) {
                    (Ok(Some(s)), Ok(Some(t))) => s@ == t,
                    (Ok(None), Ok(None)) => true,
                    (Err(e), Err(t)) => e@ == t,
                    _ => false,
                }
            },
    {
        let now = clock_millis();
        self.get_at(key, now)
    }

    /// SET: `key` holds the string `value`, with no expiry.
    pub fn set(&mut self, key: String, value: String)
        requires
            old(self).wf(),
        ensures
            final(self).wf(),
            final(self)@ == old(self)@.insert(key@, string_entry(value@, None)),
    {
        self.insert_entry(key, StoreEntry { value: StoreValue::StringVal(value), expires_at: None });
    }

    /// SET with an expiry `duration_ms` milliseconds after `now`.
    pub fn set_with_expiry_at(&mut self, key: String, value: String, duration_ms: u128, now: u64)
        requires
            old(self).wf(),
            duration_ms <= u128::MAX - u64::MAX,
        ensures
            final(self).wf(),
            final(self)@ == old(self)@.insert(key@, string_entry(value@, Some(deadline(now, duration_ms as int)))),
    {
        let expires_at = (now as u128) + duration_ms;
        self.insert_entry(key, StoreEntry { value: StoreValue::StringVal(value), expires_at: Some(expires_at) });
    }

    /// SET with an expiry at the time `deadline` (milliseconds since the
    /// epoch).
    pub fn set_until(&mut self, key: String, value: String, deadline: u128)
        requires
            old(self).wf(),
        ensures
            final(self).wf(),
            final(self)@ == old(self)@.insert(key@, string_entry(value@, Some(deadline))),
    {
        self.insert_entry(key, StoreEntry { value: StoreValue::StringVal(value), expires_at: Some(deadline) });
    }

    /// SET with an expiry `duration_ms` milliseconds from now.
    pub fn set_with_expiry(&mut self, key: String, value: String, duration_ms: u128)
        requires
            old(self).wf(),
            duration_ms <= u128::MAX - u64::MAX,
        ensures
            final(self).wf(),
            exists|now: u64| final(self)@ == old(self)@.insert(key@, string_entry(value@, Some(#[trigger] deadline(now, duration_ms as int)))),
    {
        let now = clock_millis();
        self.set_with_expiry_at(key, value, duration_ms, now);
    }

    /// The key space holds finitely many keys.
    pub proof fn lemma_finite(&self)
        ensures
            self@.dom().finite(),
    {
        lemma_entries_map_dom(self.entries@, Seq::empty());
    }

    /// DEL: drops each of `keys` that is held, expired or not, and says how
    /// many distinct keys it dropped.
    pub fn del(&mut self, keys: &[String]) -> (r: i64)
        requires
            old(self).wf(),
        ensures
            final(self).wf(),
            final(self)@ == old(self)@.remove_keys(texts(keys@).to_set()),
            r == old(self)@.dom().intersect(texts(keys@).to_set()).len() as i64,
    {
        let ghost m = self@;
        proof {
            self.lemma_finite();
            assert(texts(keys@.take(0)).to_set() =~= Set::<Seq<char>>::empty());
            assert(m.remove_keys(Set::<Seq<char>>::empty()) =~= m);
            assert(m.dom().intersect(Set::<Seq<char>>::empty()) =~= Set::<Seq<char>>::empty());
        }
        let mut count: usize = 0;
        let mut i: usize = 0;
        while i < keys.len()
            invariant
                self.wf(),
                m.dom().finite(),
                i <= keys@.len(),
                count <= i,
                self@ == m.remove_keys(texts(keys@.take(i as int)).to_set()),
                count == m.dom().intersect(texts(keys@.take(i as int)).to_set()).len(),
            decreases keys@.len() - i,
        {
            let ghost before = texts(keys@.take(i as int)).to_set();
            let ghost k = keys@[i as int]@;
            proof {
                assert(texts(keys@.take(i + 1)) =~= texts(keys@.take(i as int)) + seq![k]);
                Seq::<Seq<char>>::lemma_to_set_insert_commutes(texts(keys@.take(i as int)), k);
            }
            let ghost after = before.insert(k);
            assert(texts(keys@.take(i + 1)).to_set() == after);
            match self.find(keys[i].as_str()) {
                Some(j) => {
                    let _ = self.take_at(j);
                    assert(self@ =~= m.remove_keys(after));
                    assert(!m.dom().intersect(before).contains(k));
                    assert(m.dom().intersect(after) =~= m.dom().intersect(before).insert(k));
                    count = count + 1;
                },
                None => {
                    assert(self@ =~= m.remove_keys(after));
                    assert(m.dom().intersect(after) =~= m.dom().intersect(before));
                },
            }
            i = i + 1;
        }
        assert(keys@.take(i as int) =~= keys@);
        count as i64
    }

    /// EXISTS at time `now`: how many of `keys`, counting repeats, are held and
    /// not expired.
    pub fn exists_keys_at(&self, keys: &[String], now: u64) -> (r: i64)
        requires
            self.wf(),
        ensures
            r == count_live(self@, texts(keys@), now) as i64,
    {
        let ghost m = self@;
        let ghost live = |k: Seq<char>| live_at(m, k, now);
        let mut count: usize = 0;
        let mut i: usize = 0;
        assert(texts(keys@.take(0)) =~= Seq::<Seq<char>>::empty());
        proof {
            reveal(Seq::filter);
        }
        while i < keys.len()
            invariant
                self.wf(),
                m == self@,
                live == (|k: Seq<char>| live_at(m, k, now)),
                i <= keys@.len(),
                count <= i,
                count == texts(keys@.take(i as int)).filter(live).len(),
            decreases keys@.len() - i,
        {
            let ghost k = keys@[i as int]@;
            proof {
                assert(texts(keys@.take(i + 1)) =~= texts(keys@.take(i as int)).push(k));
                texts(keys@.take(i as int)).lemma_filter_push(k, live);
            }
            match self.find(keys[i].as_str()) {
                Some(j) => {
                    if !is_expired(&self.entries[j].1, now) {
                        count = count + 1;
                    }
                },
                None => {},
            }
            i = i + 1;
        }
        assert(keys@.take(i as int) =~= keys@);
        count as i64
    }

    /// EXISTS: how many of `keys`, counting repeats, are held and not expired.
    pub fn exists_keys(&self, keys: &[String]) -> (r: i64)
        requires
            self.wf(),
        ensures
            exists|now: u64| r == count_live(self@, texts(keys@), now) as i64,
    {
        let now = clock_millis();
        self.exists_keys_at(keys, now)
    }

    /// KEYS at time `now`: each key that is held and not expired, once, in no
    /// particular order.
    pub fn keys_at(&self, now: u64) -> (r: Vec<String>)
        requires
            self.wf(),
        ensures
            texts(r@).to_set() == live_keys(self@, now),
            texts(r@).no_duplicates(),
    {
        let ghost es = self.entries@;
        let mut out: Vec<String> = Vec::new();
        let mut i: usize = 0;
        assert(texts(out@) =~= live_prefix_keys(es, 0, now));
        while i < self.entries.len()
            invariant
                es == self.entries@,
                i <= es.len(),
                texts(out@) == live_prefix_keys(es, i as int, now),
            decreases es.len() - i,
        {
            let ghost before = out@;
            if !is_expired(&self.entries[i].1, now) {
                let k = self.entries[i].0.clone();
                out.push(k);
                assert(texts(out@) =~= texts(before).push(es[i as int].0@));
            }
            i = i + 1;
        }
        proof {
            lemma_live_prefix_keys(es, i as int, now);
            assert forall|k: Seq<char>| texts(out@).to_set().contains(k) <==> live_keys(self@, now).contains(k) by {
                lemma_entries_map_dom(es, k);
                if texts(out@).contains(k) {
                    let j = choose|j: int| 0 <= j < i && es[j].0@ == k && is_live(es[j].1@, now);
                    lemma_entries_map_at(es, j);
                }
                if live_keys(self@, now).contains(k) {
                    let j = choose|j: int| 0 <= j < es.len() && es[j].0@ == k;
                    lemma_entries_map_at(es, j);
                }
            }
            assert(texts(out@).to_set() =~= live_keys(self@, now));
        }
        out
    }

    /// KEYS: each key that is held and not expired, once, in no particular
    /// order.
    pub fn keys(&self) -> (r: Vec<String>)
        requires
            self.wf(),
        ensures
            texts(r@).no_duplicates(),
            exists|now: u64| texts(r@).to_set() == #[trigger] live_keys(self@, now),
    {
        let now = clock_millis();
        self.keys_at(now)
    }

    /// EXPIRE at time `now`: a key that is held and has not expired expires
    /// `seconds` after `now`; says whether it was such a key. A key that has
    /// expired does not exist: it is dropped and the answer is no.
    pub fn expire_at(&mut self, key: &str, seconds: u64, now: u64) -> (r: bool)
        requires
            old(self).wf(),
        ensures
            final(self).wf(),
            r == live_at(old(self)@, key@, now),
            final(self)@ == if r {
                with_expiry(old(self)@, key@, Some(deadline(now, seconds * 1000)))
            } else {
                drop_expired(old(self)@, key@, now)
            },
    {
        match self.find(key) {
            Some(i) => {
                if is_expired(&self.entries[i].1, now) {
                    let _ = self.take_at(i);
                    return false;
                }
                let (k, e) = self.take_at(i);
                let t: u128 = (now as u128) + (seconds as u128) * 1000;
                self.add(k, StoreEntry { value: e.value, expires_at: Some(t) });
                assert(self@ =~= with_expiry(old(self)@, key@, Some(deadline(now, seconds * 1000))));
                true
            },
            None => false,
        }
    }

    /// PEXPIREAT at time `now`: a key that is held and has not expired
    /// expires at the time `deadline`; says whether it was such a key. A key
    /// that has expired does not exist: it is dropped and the answer is no.
    pub fn expire_until_at(&mut self, key: &str, deadline: u128, now: u64) -> (r: bool)
        requires
            old(self).wf(),
        ensures
            final(self).wf(),
            r == live_at(old(self)@, key@, now),
            final(self)@ == if r {
                with_expiry(old(self)@, key@, Some(deadline))
            } else {
                drop_expired(old(self)@, key@, now)
            },
    {
        match self.find(key) {
            Some(i) => {
                if is_expired(&self.entries[i].1, now) {
                    let _ = self.take_at(i);
                    return false;
                }
                let (k, e) = self.take_at(i);
                self.add(k, StoreEntry { value: e.value, expires_at: Some(deadline) });
                assert(self@ =~= with_expiry(old(self)@, key@, Some(deadline)));
                true
            },
            None => false,
        }
    }

    /// EXPIRE: a key that is held and has not expired expires `seconds` from
    /// now; says whether it was such a key (an expired key is dropped).
    pub fn expire(&mut self, key: &str, seconds: u64) -> (r: bool)
        requires
            old(self).wf(),
        ensures
            final(self).wf(),
            exists|now: u64| {
                &&& r == #[trigger] live_at(old(self)@, key@, now)
                &&& final(self)@ == if r {
                    with_expiry(old(self)@, key@, Some(deadline(now, seconds * 1000)))
                } else {
                    drop_expired(old(self)@, key@, now)
                }
            },
    {
        let now = clock_millis();
        self.expire_at(key, seconds, now)
    }

    /// PERSIST at time `now`: a key that is held and has not expired no longer
    /// expires; says whether it had an expiry. A key that has expired does not
    /// exist: it is dropped and the answer is no.
    pub fn persist_at(&mut self, key: &str, now: u64) -> (r: bool)
        requires
            old(self).wf(),
        ensures
            final(self).wf(),
            r == (live_at(old(self)@, key@, now) && old(self)@[key@].expires_at is Some),
            final(self)@ == if live_at(old(self)@, key@, now) {
                with_expiry(old(self)@, key@, None)
            } else {
                drop_expired(old(self)@, key@, now)
            },
    {
        match self.find(key) {
            Some(i) => {
                if is_expired(&self.entries[i].1, now) {
                    let _ = self.take_at(i);
                    return false;
                }
                let (k, e) = self.take_at(i);
                let had_expiry = e.expires_at.is_some();
                self.add(k, StoreEntry { value: e.value, expires_at: None });
                assert(self@ =~= with_expiry(old(self)@, key@, None));
                had_expiry
            },
            None => false,
        }
    }

    /// PERSIST: a key that is held and has not expired no longer expires;
    /// says whether it had an expiry (an expired key is dropped).
    pub fn persist(&mut self, key: &str) -> (r: bool)
        requires
            old(self).wf(),
        ensures
            final(self).wf(),
            exists|now: u64| {
                &&& r == (#[trigger] live_at(old(self)@, key@, now) && old(self)@[key@].expires_at is Some)
                &&& final(self)@ == if live_at(old(self)@, key@, now) {
                    with_expiry(old(self)@, key@, None)
                } else {
                    drop_expired(old(self)@, key@, now)
                }
            },
    {
        let now = clock_millis();
        self.persist_at(key, now)
    }

    /// TTL at time `now`: see `ttl_reply`; an expired key is dropped.
    pub fn ttl_at(&mut self, key: &str, now: u64) -> (r: i64)
        requires
            old(self).wf(),
        ensures
            final(self).wf(),
            final(self)@ == drop_expired(old(self)@, key@, now),
            r == ttl_reply(old(self)@, key@, now),
    {
        match self.find(key) {
            None => -2,
            Some(i) => {
                if is_expired(&self.entries[i].1, now) {
                    let _ = self.take_at(i);
                    return -2;
                }
                match self.entries[i].1.expires_at {
                    Some(t) => {
                        let secs: u128 = (t - (now as u128)) / 1000;
                        if secs > (i64::MAX as u128) {
                            i64::MAX
                        } else {
                            secs as i64
                        }
                    },
                    None => -1,
                }
            },
        }
    }

    /// TTL: the whole seconds before `key` expires; -1 if it does not expire,
    /// -2 if it is missing or has expired (and is then dropped).
    pub fn ttl(&mut self, key: &str) -> (r: i64)
        requires
            old(self).wf(),
        ensures
            final(self).wf(),
            exists|now: u64| final(self)@ == drop_expired(old(self)@, key@, now) && r == #[trigger] ttl_reply(old(self)@, key@, now),
    {
        let now = clock_millis();
        self.ttl_at(key, now)
    }

    /// Pushes copies of `values`, in order, at the front (or back) of `list`.
    fn push_all(list: &mut VecDeque<String>, values: &Vec<String>, front: bool)
        ensures
            texts(final(list)@) == if front {
                texts(values@).reverse() + texts(old(list)@)
            } else {
                texts(old(list)@) + texts(values@)
            },
    {
        let ghost start = texts(list@);
        let mut j: usize = 0;
        assert(texts(values@.take(0)).reverse() + start =~= start);
        assert(start + texts(values@.take(0)) =~= start);
        while j < values.len()
            invariant
                j <= values@.len(),
                start == texts(old(list)@),
                texts(list@) == if front {
                    texts(values@.take(j as int)).reverse() + start
                } else {
                    start + texts(values@.take(j as int))
                },
            decreases values@.len() - j,
        {
            let ghost before = texts(list@);
            let v = values[j].clone();
            if front {
                list.push_front(v);
                assert(texts(list@) =~= seq![v@] + before);
                assert(texts(values@.take(j + 1)).reverse() =~= seq![v@] + texts(values@.take(j as int)).reverse());
            } else {
                list.push_back(v);
                assert(texts(list@) =~= before.push(v@));
            }
            j = j + 1;
            assert(texts(values@.take(j as int)) =~= texts(values@.take(j - 1)).push(values@[j - 1]@));
        }
        assert(values@.take(j as int) =~= values@);
    }

    /// LPUSH (front) or RPUSH: see `after_push`; the reply is the new length.
    fn push_values(&mut self, key: String, values: Vec<String>, front: bool) -> (r: Result<i64, String>)
        requires
            old(self).wf(),
        ensures
            final(self).wf(),
            match r {
                Ok(n) => !holds_other(old(self)@, key@)
                    && final(self)@ == after_push(old(self)@, key@, texts(values@), front)
                    && n == pushed_list(old(self)@, key@, texts(values@), front).len() as i64,
                Err(e) => holds_other(old(self)@, key@) && e@ == wrong_type() && final(self)@ == old(self)@,
            },
    {
        match self.find(key.as_str()) {
            Some(i) => {
                let (k, e) = self.take_at(i);
                let expires_at = e.expires_at;
                match e.value {
                    StoreValue::ListVal(mut list) => {
                        Self::push_all(&mut list, &values, front);
                        let n = list.len();
                        self.add(k, StoreEntry { value: StoreValue::ListVal(list), expires_at });
                        assert(self@ =~= after_push(old(self)@, key@, texts(values@), front));
                        Ok(n as i64)
                    },
                    other => {
                        self.add(k, StoreEntry { value: other, expires_at });
                        assert(self@ =~= old(self)@);
                        Err(WRONG_TYPE.to_owned())
                    },
                }
            },
            None => {
                let mut list: VecDeque<String> = VecDeque::new();
                assert(texts(list@) =~= Seq::<Seq<char>>::empty());
                Self::push_all(&mut list, &values, front);
                assert(texts(list@) =~= pushed_list(old(self)@, key@, texts(values@), front));
                let n = list.len();
                self.add(key, StoreEntry { value: StoreValue::ListVal(list), expires_at: None });
                Ok(n as i64)
            },
        }
    }

    /// Drops `key` if it has expired at `now`.
    fn drop_if_expired(&mut self, key: &str, now: u64)
        requires
            old(self).wf(),
        ensures
            final(self).wf(),
            final(self)@ == drop_expired(old(self)@, key@, now),
    {
        match self.find(key) {
            Some(i) => {
                if is_expired(&self.entries[i].1, now) {
                    let _ = self.take_at(i);
                }
            },
            None => {},
        }
    }

    /// LPUSH (front) or RPUSH at time `now`: an expired key counts as
    /// missing; see `after_push`.
    fn push_values_at(&mut self, key: String, values: Vec<String>, front: bool, now: u64) -> (r: Result<i64, String>)
        requires
            old(self).wf(),
        ensures
            final(self).wf(),
            match r {
                Ok(n) => !holds_other(drop_expired(old(self)@, key@, now), key@)
                    && final(self)@ == after_push(drop_expired(old(self)@, key@, now), key@, texts(values@), front)
                    && n == pushed_list(drop_expired(old(self)@, key@, now), key@, texts(values@), front).len() as i64,
                Err(e) => holds_other(drop_expired(old(self)@, key@, now), key@) && e@ == wrong_type()
                    && final(self)@ == old(self)@,
            },
    {
        self.drop_if_expired(key.as_str(), now);
        self.push_values(key, values, front)
    }

    /// LPUSH at time `now`: pushes `values`, one by one, at the front of the
    /// list under `key` (a missing or expired key starts an empty list), and
    /// says its new length.
    pub fn lpush_at(&mut self, key: String, values: Vec<String>, now: u64) -> (r: Result<i64, String>)
        requires
            old(self).wf(),
        ensures
            final(self).wf(),
            match r {
                Ok(n) => !holds_other(drop_expired(old(self)@, key@, now), key@)
                    && final(self)@ == after_push(drop_expired(old(self)@, key@, now), key@, texts(values@), true)
                    && n == pushed_list(drop_expired(old(self)@, key@, now), key@, texts(values@), true).len() as i64,
                Err(e) => holds_other(drop_expired(old(self)@, key@, now), key@) && e@ == wrong_type()
                    && final(self)@ == old(self)@,
            },
    {
        self.push_values_at(key, values, true, now)
    }

    /// RPUSH at time `now`: pushes `values` at the back of the list under
    /// `key` (a missing or expired key starts an empty list), and says its new
    /// length.
    pub fn rpush_at(&mut self, key: String, values: Vec<String>, now: u64) -> (r: Result<i64, String>)
        requires
            old(self).wf(),
        ensures
            final(self).wf(),
            match r {
                Ok(n) => !holds_other(drop_expired(old(self)@, key@, now), key@)
                    && final(self)@ == after_push(drop_expired(old(self)@, key@, now), key@, texts(values@), false)
                    && n == pushed_list(drop_expired(old(self)@, key@, now), key@, texts(values@), false).len() as i64,
                Err(e) => holds_other(drop_expired(old(self)@, key@, now), key@) && e@ == wrong_type()
                    && final(self)@ == old(self)@,
            },
    {
        self.push_values_at(key, values, false, now)
    }

    /// LPUSH: see `lpush_at`, at the time the clock reads.
    pub fn lpush(&mut self, key: String, values: Vec<String>) -> (r: Result<i64, String>)
        requires
            old(self).wf(),
        ensures
            final(self).wf(),
            exists|now: u64| #![trigger drop_expired(old(self)@, key@, now)] match r {
                Ok(n) => !holds_other(drop_expired(old(self)@, key@, now), key@)
                    && final(self)@ == after_push(drop_expired(old(self)@, key@, now), key@, texts(values@), true)
                    && n == pushed_list(drop_expired(old(self)@, key@, now), key@, texts(values@), true).len() as i64,
                Err(e) => holds_other(drop_expired(old(self)@, key@, now), key@) && e@ == wrong_type()
                    && final(self)@ == old(self)@,
            },
    {
        let now = clock_millis();
        self.lpush_at(key, values, now)
    }

    /// RPUSH: see `rpush_at`, at the time the clock reads.
    pub fn rpush(&mut self, key: String, values: Vec<String>) -> (r: Result<i64, String>)
        requires
            old(self).wf(),
        ensures
            final(self).wf(),
            exists|now: u64| #![trigger drop_expired(old(self)@, key@, now)] match r {
                Ok(n) => !holds_other(drop_expired(old(self)@, key@, now), key@)
                    && final(self)@ == after_push(drop_expired(old(self)@, key@, now), key@, texts(values@), false)
                    && n == pushed_list(drop_expired(old(self)@, key@, now), key@, texts(values@), false).len() as i64,
                Err(e) => holds_other(drop_expired(old(self)@, key@, now), key@) && e@ == wrong_type()
                    && final(self)@ == old(self)@,
            },
    {
        let now = clock_millis();
        self.rpush_at(key, values, now)
    }

    /// LPOP (front) or RPOP: see `pop_reply` and `after_pop`.
    fn pop_value(&mut self, key: &str, front: bool) -> (r: Result<Option<String>, String>)
        requires
            old(self).wf(),
        ensures
            final(self).wf(),
            final(self)@ == after_pop(old(self)@, key@, front),
            match (r, pop_reply(old(self)@, key@, front)) {
                (Ok(Some(s)), Ok(Some(t))) => s@ == t,
                (Ok(None), Ok(None)) => true,
                (Err(e), Err(t)) => e@ == t,
                _ => false,
            },
    {
        match self.find(key) {
            None => Err(NO_SUCH_KEY.to_owned()),
            Some(i) => {
                let (k, e) = self.take_at(i);
                let expires_at = e.expires_at;
                match e.value {
                    StoreValue::ListVal(mut list) => {
                        let ghost l = texts(list@);
                        let x = if list.len() == 0 {
                            None
                        } else if front {
                            list.pop_front()
                        } else {
                            list.pop_back()
                        };
                        proof {
                            if l.len() > 0 {
                                if front {
                                    assert(texts(list@) =~= l.drop_first());
                                } else {
                                    assert(texts(list@) =~= l.drop_last());
                                }
                            }
                        }
                        self.add(k, StoreEntry { value: StoreValue::ListVal(list), expires_at });
                        assert(self@ =~= after_pop(old(self)@, key@, front));
                        Ok(x)
                    },
                    other => {
                        self.add(k, StoreEntry { value: other, expires_at });
                        assert(self@ =~= old(self)@);
                        Err(WRONG_TYPE.to_owned())
                    },
                }
            },
        }
    }

    /// LPOP (front) or RPOP at time `now`: an expired key counts as missing
    /// and is dropped; see `pop_reply` and `after_pop`.
    fn pop_value_at(&mut self, key: &str, front: bool, now: u64) -> (r: Result<Option<String>, String>)
        requires
            old(self).wf(),
        ensures
            final(self).wf(),
            final(self)@ == after_pop(drop_expired(old(self)@, key@, now), key@, front),
            match (r, pop_reply(drop_expired(old(self)@, key@, now), key@, front)) {
                (Ok(Some(s)), Ok(Some(t))) => s@ == t,
                (Ok(None), Ok(None)) => true,
                (Err(e), Err(t)) => e@ == t,
                _ => false,
            },
    {
        self.drop_if_expired(key, now);
        self.pop_value(key, front)
    }

    /// LPOP at time `now`: takes the first element of the list under `key`.
    pub fn lpop_at(&mut self, key: &str, now: u64) -> (r: Result<Option<String>, String>)
        requires
            old(self).wf(),
        ensures
            final(self).wf(),
            final(self)@ == after_pop(drop_expired(old(self)@, key@, now), key@, true),
            match (r, pop_reply(drop_expired(old(self)@, key@, now), key@, true)) {
                (Ok(Some(s)), Ok(Some(t))) => s@ == t,
                (Ok(None), Ok(None)) => true,
                (Err(e), Err(t)) => e@ == t,
                _ => false,
            },
    {
        self.pop_value_at(key, true, now)
    }

    /// RPOP at time `now`: takes the last element of the list under `key`.
    pub fn rpop_at(&mut self, key: &str, now: u64) -> (r: Result<Option<String>, String>)
        requires
            old(self).wf(),
        ensures
            final(self).wf(),
            final(self)@ == after_pop(drop_expired(old(self)@, key@, now), key@, false),
            match (r, pop_reply(drop_expired(old(self)@, key@, now), key@, false)) {
                (Ok(Some(s)), Ok(Some(t))) => s@ == t,
                (Ok(None), Ok(None)) => true,
                (Err(e), Err(t)) => e@ == t,
                _ => false,
            },
    {
        self.pop_value_at(key, false, now)
    }

    /// LPOP: see `lpop_at`, at the time the clock reads.
    pub fn lpop(&mut self, key: &str) -> (r: Result<Option<String>, String>)
        requires
            old(self).wf(),
        ensures
            final(self).wf(),
            exists|now: u64| #![trigger drop_expired(old(self)@, key@, now)] {
                &&& final(self)@ == after_pop(drop_expired(old(self)@, key@, now), key@, true)
                &&& match (r, pop_reply(drop_expired(old(self)@, key@, now), key@, true)) {
                    (Ok(Some(s)), Ok(Some(t))) => s@ == t,
                    (Ok(None), Ok(None)) => true,
                    (Err(e), Err(t)) => e@ == t,
                    _ => false,
                }
            },
    {
        let now = clock_millis();
        self.lpop_at(key, now)
    }

    /// RPOP: see `rpop_at`, at the time the clock reads.
    pub fn rpop(&mut self, key: &str) -> (r: Result<Option<String>, String>)
        requires
            old(self).wf(),
        ensures
            final(self).wf(),
            exists|now: u64| #![trigger drop_expired(old(self)@, key@, now)] {
                &&& final(self)@ == after_pop(drop_expired(old(self)@, key@, now), key@, false)
                &&& match (r, pop_reply(drop_expired(old(self)@, key@, now), key@, false)) {
                    (Ok(Some(s)), Ok(Some(t))) => s@ == t,
                    (Ok(None), Ok(None)) => true,
                    (Err(e), Err(t)) => e@ == t,
                    _ => false,
                }
            },
    {
        let now = clock_millis();
        self.rpop_at(key, now)
    }

    /// Copies of the elements of `list` that `range_of` picks.
    fn slice_range(list: &VecDeque<String>, start: i64, stop: i64) -> (r: Vec<String>)
        ensures
            texts(r@) == range_of(texts(list@), start, stop),
    {
        let n: i128 = list.len() as i128;
        let s: i128 = if start < 0 { n + (start as i128) } else { start as i128 };
        let e: i128 = if stop < 0 { n + (stop as i128) } else { stop as i128 };
        let last: i128 = if e > n - 1 { n - 1 } else { e };
        let mut out: Vec<String> = Vec::new();
        if s < 0 || e < 0 || s >= n || s > last {
            assert(texts(out@) =~= range_of(texts(list@), start, stop));
            return out;
        }
        let mut j: usize = s as usize;
        let ghost l = texts(list@);
        while (j as i128) <= last
            invariant
                s <= j <= last + 1,
                0 <= s,
                last < n,
                n == list@.len(),
                list@.len() <= usize::MAX,
                l == texts(list@),
                texts(out@) == l.subrange(s as int, j as int),
            decreases last + 1 - j,
        {
            let v = list[j].clone();
            assert(v@ == l[j as int]);
            let ghost before = out@;
            out.push(v);
            assert(texts(out@) =~= texts(before).push(v@));
            assert(l.subrange(s as int, j + 1) =~= l.subrange(s as int, j as int).push(l[j as int]));
            j = j + 1;
        }
        out
    }

    /// LRANGE at time `now`: the elements of the list under `key` from
    /// `start` to `stop` (see `range_of`); an error for a missing or expired
    /// key, or one of another kind.
    pub fn lrange_at(&self, key: &str, start: i64, stop: i64, now: u64) -> (r: Result<Vec<String>, String>)
        requires
            self.wf(),
        ensures
            match r {
                Ok(v) => lrange_reply(drop_expired(self@, key@, now), key@, start, stop)
                    == Ok::<Seq<Seq<char>>, Seq<char>>(texts(v@)),
                Err(e) => lrange_reply(drop_expired(self@, key@, now), key@, start, stop)
                    == Err::<Seq<Seq<char>>, Seq<char>>(e@),
            },
    {
        match self.find_live(key, now) {
            None => Err(NO_SUCH_KEY.to_owned()),
            Some(i) => match &self.entries[i].1.value {
                StoreValue::ListVal(list) => Ok(Self::slice_range(list, start, stop)),
                _ => Err(WRONG_TYPE.to_owned()),
            },
        }
    }

    /// LRANGE: see `lrange_at`, at the time the clock reads.
    pub fn lrange(&self, key: &str, start: i64, stop: i64) -> (r: Result<Vec<String>, String>)
        requires
            self.wf(),
        ensures
            exists|now: u64| #![trigger drop_expired(self@, key@, now)] match r {
                Ok(v) => lrange_reply(drop_expired(self@, key@, now), key@, start, stop)
                    == Ok::<Seq<Seq<char>>, Seq<char>>(texts(v@)),
                Err(e) => lrange_reply(drop_expired(self@, key@, now), key@, start, stop)
                    == Err::<Seq<Seq<char>>, Seq<char>>(e@),
            },
    {
        let now = clock_millis();
        self.lrange_at(key, start, stop, now)
    }

    /// Drops every key that has expired at `now`.
    pub fn remove_expired(&mut self, now: u64)
        requires
            old(self).wf(),
        ensures
            final(self).wf(),
            final(self)@ == without_expired(old(self)@, now),
    {
        let ghost m = self@;
        let mut i: usize = 0;
        while i < self.entries.len()
            invariant
                self.wf(),
                i <= self.entries@.len(),
                forall|j: int| 0 <= j < i ==> is_live(#[trigger] self.entries@[j].1@, now),
                forall|k: Seq<char>| #[trigger] self@.contains_key(k) ==> m.contains_key(k) && self@[k] == m[k],
                forall|k: Seq<char>| #[trigger] m.contains_key(k) && is_live(m[k], now) ==> self@.contains_key(k),
            decreases self.entries@.len() - i,
        {
            if is_expired(&self.entries[i].1, now) {
                let ghost es = self.entries@;
                let _ = self.take_at(i);
                assert forall|j: int| 0 <= j < i implies is_live(#[trigger] self.entries@[j].1@, now) by {
                    assert(self.entries@[j] == es[j]);
                }
            } else {
                i = i + 1;
            }
        }
        proof {
            assert forall|k: Seq<char>| #[trigger] self@.contains_key(k) implies is_live(self@[k], now) by {
                lemma_entries_map_dom(self.entries@, k);
                let j = choose|j: int| 0 <= j < self.entries@.len() && self.entries@[j].0@ == k;
                lemma_entries_map_at(self.entries@, j);
            }
            assert(self@ =~= without_expired(m, now));
        }
    }

    /// Drops every key that has expired by the time the clock reads.
    pub fn purge_expired(&mut self)
        requires
            old(self).wf(),
        ensures
            final(self).wf(),
            exists|now: u64| final(self)@ == #[trigger] without_expired(old(self)@, now),
    {
        let now = clock_millis();
        self.remove_expired(now);
    }

    /// Where `key` is held and unexpired at `now`, if it is.
    fn find_live(&self, key: &str, now: u64) -> (r: Option<usize>)
        requires
            self.wf(),
        ensures
            match r {
                Some(i) => i < self.entries@.len() && self.entries@[i as int].0@ == key@
                    && live_at(self@, key@, now) && self@[key@] == self.entries@[i as int].1@,
                None => !live_at(self@, key@, now),
            },
    {
        match self.find(key) {
            Some(i) => if is_expired(&self.entries[i].1, now) {
                None
            } else {
                Some(i)
            },
            None => None,
        }
    }

    /// Takes out the hash under `key` (or an empty one for a missing or
    /// expired key), with the expiry it keeps; `None` for a key of another
    /// kind, which stays.
    fn take_hash(&mut self, key: &str, now: u64) -> (r: Option<(Vec<(String, String)>, Option<u128>)>)
        requires
            old(self).wf(),
        ensures
            final(self).wf(),
            match r {
                Some((h, e)) => !live_other(old(self)@, key@, now, true)
                    && distinct_keys(h@)
                    && entries_map(h@) == hash_at(old(self)@, key@, now)
                    && e == kept_expiry(old(self)@, key@, now)
                    && final(self)@ == old(self)@.remove(key@),
                None => live_other(old(self)@, key@, now, true) && final(self)@ == old(self)@,
            },
    {
        match self.find(key) {
            None => {
                let h: Vec<(String, String)> = Vec::new();
                assert(entries_map(h@) =~= Map::<Seq<char>, Seq<char>>::empty());
                assert(old(self)@.remove(key@) =~= old(self)@);
                Some((h, None))
            },
            Some(i) => {
                let expired = is_expired(&self.entries[i].1, now);
                let is_hash = match &self.entries[i].1.value {
                    StoreValue::HashVal(_) => true,
                    _ => false,
                };
                if !expired && !is_hash {
                    return None;
                }
                let (_k, e) = self.take_at(i);
                if expired {
                    let h: Vec<(String, String)> = Vec::new();
                    assert(entries_map(h@) =~= Map::<Seq<char>, Seq<char>>::empty());
                    return Some((h, None));
                }
                match e.value {
                    StoreValue::HashVal(h) => Some((h, e.expires_at)),
                    _ => Some((Vec::new(), None)),
                }
            },
        }
    }

    /// Takes out the set under `key` (or an empty one for a missing or
    /// expired key), with the expiry it keeps; `None` for a key of another
    /// kind, which stays.
    fn take_members(&mut self, key: &str, now: u64) -> (r: Option<(Vec<String>, Option<u128>)>)
        requires
            old(self).wf(),
        ensures
            final(self).wf(),
            match r {
                Some((v, e)) => !live_other(old(self)@, key@, now, false)
                    && texts(v@).no_duplicates()
                    && texts(v@).to_set() == members_at(old(self)@, key@, now)
                    && e == kept_expiry(old(self)@, key@, now)
                    && final(self)@ == old(self)@.remove(key@),
                None => live_other(old(self)@, key@, now, false) && final(self)@ == old(self)@,
            },
    {
        match self.find(key) {
            None => {
                let v: Vec<String> = Vec::new();
                assert(texts(v@).to_set() =~= Set::<Seq<char>>::empty());
                assert(old(self)@.remove(key@) =~= old(self)@);
                Some((v, None))
            },
            Some(i) => {
                let expired = is_expired(&self.entries[i].1, now);
                let is_set = match &self.entries[i].1.value {
                    StoreValue::SetVal(_) => true,
                    _ => false,
                };
                if !expired && !is_set {
                    return None;
                }
                let (_k, e) = self.take_at(i);
                if expired {
                    let v: Vec<String> = Vec::new();
                    assert(texts(v@).to_set() =~= Set::<Seq<char>>::empty());
                    return Some((v, None));
                }
                match e.value {
                    StoreValue::SetVal(v) => Some((v, e.expires_at)),
                    _ => Some((Vec::new(), None)),
                }
            },
        }
    }

    /// HSET at time `now`: sets `field` of the hash under `key` (a missing or
    /// expired key starts an empty hash) and says whether the field is new
    /// (1) or was there (0); an error for a key of another kind.
    pub fn hset_at(&mut self, key: String, field: String, value: String, now: u64) -> (r: Result<i64, String>)
        requires
            old(self).wf(),
        ensures
            final(self).wf(),
            match r {
                Ok(n) => !live_other(old(self)@, key@, now, true)
                    && n == (if hash_at(old(self)@, key@, now).contains_key(field@) { 0i64 } else { 1i64 })
                    && final(self)@ == with_hash(old(self)@, key@, now, hash_at(old(self)@, key@, now).insert(field@, value@)),
                Err(e) => live_other(old(self)@, key@, now, true) && e@ == wrong_type() && final(self)@ == old(self)@,
            },
    {
        let (mut h, expires_at) = match self.take_hash(key.as_str(), now) {
            Some(x) => x,
            None => {
                return Err(WRONG_TYPE.to_owned());
            },
        };
        let ghost h0 = entries_map(h@);
        let added = match find_key(&h, field.as_str()) {
            Some(j) => {
                proof {
                    lemma_entries_map_remove(h@, j as int);
                }
                let _ = h.remove(j);
                false
            },
            None => true,
        };
        proof {
            lemma_entries_map_push(h@, (field, value));
        }
        h.push((field, value));
        assert(entries_map(h@) =~= h0.insert(field@, value@));
        self.add(key, StoreEntry { value: StoreValue::HashVal(h), expires_at });
        assert(self@ =~= with_hash(old(self)@, key@, now, h0.insert(field@, value@)));
        Ok(if added { 1 } else { 0 })
    }

    /// HGET at time `now`: the value of `field` in the hash under `key`;
    /// nothing for a missing field, or a missing or expired key; an error
    /// for a key of another kind.
    pub fn hget_at(&self, key: &str, field: &str, now: u64) -> (r: Result<Option<String>, String>)
        requires
            self.wf(),
        ensures
            match r {
                Ok(Some(v)) => !live_other(self@, key@, now, true) && hash_at(self@, key@, now).contains_key(field@)
                    && v@ == hash_at(self@, key@, now)[field@],
                Ok(None) => !live_other(self@, key@, now, true) && !hash_at(self@, key@, now).contains_key(field@),
                Err(e) => live_other(self@, key@, now, true) && e@ == wrong_type(),
            },
    {
        match self.find_live(key, now) {
            None => Ok(None),
            Some(i) => {
                assert(self.entries@[i as int].1.well_formed());
                match &self.entries[i].1.value {
                    StoreValue::HashVal(h) => match find_key(h, field) {
                        Some(j) => Ok(Some(h[j].1.clone())),
                        None => Ok(None),
                    },
                    _ => Err(WRONG_TYPE.to_owned()),
                }
            },
        }
    }

    /// HDEL at time `now`: drops each of `fields` from the hash under `key`,
    /// and says how many distinct fields went; an error for a key of another
    /// kind. A missing or expired key answers 0 and is left as it is.
    pub fn hdel_at(&mut self, key: &str, fields: &[String], now: u64) -> (r: Result<i64, String>)
        requires
            old(self).wf(),
        ensures
            final(self).wf(),
            match r {
                Ok(n) => !live_other(old(self)@, key@, now, true)
                    && n == hash_at(old(self)@, key@, now).dom().intersect(texts(fields@).to_set()).len() as i64
                    && final(self)@ == if live_at(old(self)@, key@, now) {
                        with_hash(old(self)@, key@, now, hash_at(old(self)@, key@, now).remove_keys(texts(fields@).to_set()))
                    } else {
                        old(self)@
                    },
                Err(e) => live_other(old(self)@, key@, now, true) && e@ == wrong_type() && final(self)@ == old(self)@,
            },
    {
        match self.find_live(key, now) {
            None => {
                assert(hash_at(old(self)@, key@, now).dom().intersect(texts(fields@).to_set()) =~= Set::<Seq<char>>::empty());
                Ok(0)
            },
            Some(i) => {
                let is_hash = match &self.entries[i].1.value {
                    StoreValue::HashVal(_) => true,
                    _ => false,
                };
                if !is_hash {
                    return Err(WRONG_TYPE.to_owned());
                }
                let (k, e) = self.take_at(i);
                match e.value {
                    StoreValue::HashVal(mut h) => {
                        let n = remove_keys_from(&mut h, fields);
                        self.add(k, StoreEntry { value: StoreValue::HashVal(h), expires_at: e.expires_at });
                        assert(self@ =~= with_hash(old(self)@, key@, now, hash_at(old(self)@, key@, now).remove_keys(texts(fields@).to_set())));
                        Ok(n as i64)
                    },
                    other => {
                        self.add(k, StoreEntry { value: other, expires_at: e.expires_at });
                        Ok(0)
                    },
                }
            },
        }
    }

    /// HGETALL at time `now`: the (field, value) pairs of the hash under
    /// `key`, each field once, in no particular order; none for a missing or
    /// expired key; an error for a key of another kind.
    pub fn hgetall_at(&self, key: &str, now: u64) -> (r: Result<Vec<(String, String)>, String>)
        requires
            self.wf(),
        ensures
            match r {
                Ok(v) => !live_other(self@, key@, now, true) && distinct_keys(v@)
                    && entries_map(v@) == hash_at(self@, key@, now),
                Err(e) => live_other(self@, key@, now, true) && e@ == wrong_type(),
            },
    {
        match self.find_live(key, now) {
            None => {
                let v: Vec<(String, String)> = Vec::new();
                assert(entries_map(v@) =~= Map::<Seq<char>, Seq<char>>::empty());
                Ok(v)
            },
            Some(i) => {
                assert(self.entries@[i as int].1.well_formed());
                match &self.entries[i].1.value {
                    StoreValue::HashVal(h) => {
                        let mut out: Vec<(String, String)> = Vec::new();
                        let mut j: usize = 0;
                        while j < h.len()
                            invariant
                                j <= h@.len(),
                                out@.len() == j,
                                forall|a: int| 0 <= a < j ==> #[trigger] out@[a].0@ == h@[a].0@ && out@[a].1@ == h@[a].1@,
                            decreases h@.len() - j,
                        {
                            out.push((h[j].0.clone(), h[j].1.clone()));
                            j = j + 1;
                        }
                        proof {
                            assert forall|a: int| 0 <= a < out@.len() implies #[trigger] out@[a].0@ == h@[a].0@
                                && out@[a].1@ == h@[a].1@ by {
                                assert(out@[a].0@ == h@[a].0@ && out@[a].1@ == h@[a].1@);
                            }
                            lemma_pairs_same_views(out@, h@);
                        }
                        Ok(out)
                    },
                    _ => Err(WRONG_TYPE.to_owned()),
                }
            },
        }
    }

    /// SADD at time `now`: adds `members` to the set under `key` (a missing
    /// or expired key starts an empty set) and says how many were new; an
    /// error for a key of another kind.
    pub fn sadd_at(&mut self, key: String, members: &[String], now: u64) -> (r: Result<i64, String>)
        requires
            old(self).wf(),
        ensures
            final(self).wf(),
            match r {
                Ok(n) => !live_other(old(self)@, key@, now, false)
                    && n == texts(members@).to_set().difference(members_at(old(self)@, key@, now)).len() as i64
                    && final(self)@ == with_members(old(self)@, key@, now,
                        members_at(old(self)@, key@, now).union(texts(members@).to_set())),
                Err(e) => live_other(old(self)@, key@, now, false) && e@ == wrong_type() && final(self)@ == old(self)@,
            },
    {
        let (mut v, expires_at) = match self.take_members(key.as_str(), now) {
            Some(x) => x,
            None => {
                return Err(WRONG_TYPE.to_owned());
            },
        };
        let ghost s0 = texts(v@).to_set();
        let mut count: usize = 0;
        let mut i: usize = 0;
        proof {
            assert(texts(members@.take(0)).to_set() =~= Set::<Seq<char>>::empty());
            assert(s0.union(Set::<Seq<char>>::empty()) =~= s0);
            assert(Set::<Seq<char>>::empty().difference(s0) =~= Set::<Seq<char>>::empty());
        }
        while i < members.len()
            invariant
                i <= members@.len(),
                count <= i,
                texts(v@).no_duplicates(),
                texts(v@).to_set() == s0.union(texts(members@.take(i as int)).to_set()),
                count == texts(members@.take(i as int)).to_set().difference(s0).len(),
            decreases members@.len() - i,
        {
            let ghost before = texts(members@.take(i as int)).to_set();
            let ghost x = members@[i as int]@;
            proof {
                assert(texts(members@.take(i + 1)) =~= texts(members@.take(i as int)) + seq![x]);
                Seq::<Seq<char>>::lemma_to_set_insert_commutes(texts(members@.take(i as int)), x);
                seq_to_set_is_finite(texts(members@.take(i as int)));
            }
            let ghost after = before.insert(x);
            assert(texts(members@.take(i + 1)).to_set() == after);
            match find_member(&v, members[i].as_str()) {
                Some(_) => {
                    assert(texts(v@).to_set().contains(x)) by {
                        let j = choose|j: int| 0 <= j < v@.len() && v@[j]@ == x;
                        assert(texts(v@)[j] == x);
                    }
                    assert(s0.union(after) =~= s0.union(before));
                    assert(after.difference(s0) =~= before.difference(s0));
                },
                None => {
                    assert(!texts(v@).to_set().contains(x));
                    assert(!s0.contains(x) && !before.contains(x));
                    let m = members[i].clone();
                    proof {
                        lemma_members_push(v@, m);
                    }
                    v.push(m);
                    assert(s0.union(after) =~= s0.union(before).insert(x));
                    assert(!before.difference(s0).contains(x));
                    assert(before.difference(s0).finite());
                    assert(after.difference(s0) =~= before.difference(s0).insert(x));
                    count = count + 1;
                },
            }
            i = i + 1;
        }
        assert(members@.take(i as int) =~= members@);
        self.add(key, StoreEntry { value: StoreValue::SetVal(v), expires_at });
        Ok(count as i64)
    }

    /// SREM at time `now`: drops `members` from the set under `key` and says
    /// how many were there; an error for a key of another kind. A missing or
    /// expired key answers 0 and is left as it is.
    pub fn srem_at(&mut self, key: &str, members: &[String], now: u64) -> (r: Result<i64, String>)
        requires
            old(self).wf(),
        ensures
            final(self).wf(),
            match r {
                Ok(n) => !live_other(old(self)@, key@, now, false)
                    && n == members_at(old(self)@, key@, now).intersect(texts(members@).to_set()).len() as i64
                    && final(self)@ == if live_at(old(self)@, key@, now) {
                        with_members(old(self)@, key@, now, members_at(old(self)@, key@, now).difference(texts(members@).to_set()))
                    } else {
                        old(self)@
                    },
                Err(e) => live_other(old(self)@, key@, now, false) && e@ == wrong_type() && final(self)@ == old(self)@,
            },
    {
        let i = match self.find_live(key, now) {
            None => {
                assert(members_at(old(self)@, key@, now).intersect(texts(members@).to_set()) =~= Set::<Seq<char>>::empty());
                return Ok(0);
            },
            Some(i) => i,
        };
        let is_set = match &self.entries[i].1.value {
            StoreValue::SetVal(_) => true,
            _ => false,
        };
        if !is_set {
            return Err(WRONG_TYPE.to_owned());
        }
        let (k, e) = self.take_at(i);
        let expires_at = e.expires_at;
        let mut v = match e.value {
            StoreValue::SetVal(v) => v,
            _ => Vec::new(),
        };
        let ghost s0 = texts(v@).to_set();
        assert(s0 == members_at(old(self)@, key@, now));
        let mut count: usize = 0;
        let mut j: usize = 0;
        proof {
            seq_to_set_is_finite(texts(v@));
            assert(texts(members@.take(0)).to_set() =~= Set::<Seq<char>>::empty());
            assert(s0.difference(Set::<Seq<char>>::empty()) =~= s0);
            assert(s0.intersect(Set::<Seq<char>>::empty()) =~= Set::<Seq<char>>::empty());
        }
        while j < members.len()
            invariant
                j <= members@.len(),
                count <= j,
                s0.finite(),
                texts(v@).no_duplicates(),
                texts(v@).to_set() == s0.difference(texts(members@.take(j as int)).to_set()),
                count == s0.intersect(texts(members@.take(j as int)).to_set()).len(),
            decreases members@.len() - j,
        {
            let ghost before = texts(members@.take(j as int)).to_set();
            let ghost x = members@[j as int]@;
            proof {
                assert(texts(members@.take(j + 1)) =~= texts(members@.take(j as int)) + seq![x]);
                Seq::<Seq<char>>::lemma_to_set_insert_commutes(texts(members@.take(j as int)), x);
            }
            let ghost after = before.insert(x);
            assert(texts(members@.take(j + 1)).to_set() == after);
            match find_member(&v, members[j].as_str()) {
                Some(p) => {
                    proof {
                        lemma_members_remove(v@, p as int);
                        assert(texts(v@)[p as int] == x);
                        assert(texts(v@).to_set().contains(x));
                        assert(!before.contains(x));
                        assert(s0.intersect(before).finite());
                    }
                    let _ = v.remove(p);
                    assert(s0.difference(after) =~= s0.difference(before).remove(x));
                    assert(!s0.intersect(before).contains(x));
                    assert(s0.intersect(after) =~= s0.intersect(before).insert(x));
                    count = count + 1;
                },
                None => {
                    assert(s0.difference(after) =~= s0.difference(before));
                    assert(s0.intersect(after) =~= s0.intersect(before));
                },
            }
            j = j + 1;
        }
        assert(members@.take(j as int) =~= members@);
        self.add(k, StoreEntry { value: StoreValue::SetVal(v), expires_at });
        assert(self@ =~= with_members(old(self)@, key@, now, s0.difference(texts(members@).to_set())));
        Ok(count as i64)
    }

    /// SISMEMBER at time `now`: whether `member` is in the set under `key`
    /// (no for a missing or expired key); an error for a key of another kind.
    pub fn sismember_at(&self, key: &str, member: &str, now: u64) -> (r: Result<bool, String>)
        requires
            self.wf(),
        ensures
            match r {
                Ok(b) => !live_other(self@, key@, now, false) && b == members_at(self@, key@, now).contains(member@),
                Err(e) => live_other(self@, key@, now, false) && e@ == wrong_type(),
            },
    {
        match self.find_live(key, now) {
            None => Ok(false),
            Some(i) => match &self.entries[i].1.value {
                StoreValue::SetVal(v) => match find_member(v, member) {
                    Some(p) => {
                        assert(texts(v@)[p as int] == member@);
                        Ok(true)
                    },
                    None => Ok(false),
                },
                _ => Err(WRONG_TYPE.to_owned()),
            },
        }
    }

    /// SMEMBERS at time `now`: the members of the set under `key`, each once,
    /// in no particular order; none for a missing or expired key; an error
    /// for a key of another kind.
    pub fn smembers_at(&self, key: &str, now: u64) -> (r: Result<Vec<String>, String>)
        requires
            self.wf(),
        ensures
            match r {
                Ok(v) => !live_other(self@, key@, now, false) && texts(v@).no_duplicates()
                    && texts(v@).to_set() == members_at(self@, key@, now),
                Err(e) => live_other(self@, key@, now, false) && e@ == wrong_type(),
            },
    {
        match self.find_live(key, now) {
            None => {
                let v: Vec<String> = Vec::new();
                assert(texts(v@).to_set() =~= Set::<Seq<char>>::empty());
                Ok(v)
            },
            Some(i) => {
                assert(self.entries@[i as int].1.well_formed());
                match &self.entries[i].1.value {
                    StoreValue::SetVal(v) => {
                        let mut out: Vec<String> = Vec::new();
                        let mut j: usize = 0;
                        while j < v.len()
                            invariant
                                j <= v@.len(),
                                texts(out@) == texts(v@).take(j as int),
                            decreases v@.len() - j,
                        {
                            out.push(v[j].clone());
                            assert(texts(v@).take(j + 1) =~= texts(v@).take(j as int).push(v@[j as int]@));
                            assert(texts(out@) =~= texts(v@).take(j + 1));
                            j = j + 1;
                        }
                        assert(texts(v@).take(j as int) =~= texts(v@));
                        Ok(out)
                    },
                    _ => Err(WRONG_TYPE.to_owned()),
                }
            },
        }
    }
}

/// Two lists of pairs with the same views pair by pair stand for the same map.
proof fn lemma_pairs_same_views(a: Seq<(String, String)>, b: Seq<(String, String)>)
    requires
        a.len() == b.len(),
        forall|i: int| 0 <= i < a.len() ==> #[trigger] a[i].0@ == b[i].0@ && a[i].1@ == b[i].1@,
    ensures
        entries_map(a) == entries_map(b),
        distinct_keys(b) ==> distinct_keys(a),
    decreases a.len(),
{
    if a.len() > 0 {
        assert forall|i: int| 0 <= i < a.drop_last().len() implies #[trigger] a.drop_last()[i].0@ == b.drop_last()[i].0@
            && a.drop_last()[i].1@ == b.drop_last()[i].1@ by {
            assert(a.drop_last()[i] == a[i] && b.drop_last()[i] == b[i]);
        }
        lemma_pairs_same_views(a.drop_last(), b.drop_last());
        assert(a.last().0@ == b.last().0@ && a.last().1@ == b.last().1@);
    }
    if distinct_keys(b) {
        assert forall|x: int, y: int| 0 <= x < y < a.len() implies #[trigger] a[x].0@ != #[trigger] a[y].0@ by {
            assert(b[x].0@ != b[y].0@);
        }
    }
}

} // verus!
