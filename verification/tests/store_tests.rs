use redisrs::store::{Store, StoreEntry, StoreValue, NO_SUCH_KEY, WRONG_TYPE};
use std::collections::VecDeque;

fn s(x: &str) -> String {
    x.to_string()
}

fn strings(xs: &[&str]) -> Vec<String> {
    xs.iter().map(|x| x.to_string()).collect()
}

#[test]
fn get_after_set() {
    let mut store = Store::new();
    store.set(s("k"), s("v"));
    assert_eq!(store.get("k"), Ok(Some(s("v"))));
    assert_eq!(store.get("missing"), Ok(None));
}

#[test]
fn set_replaces_value_and_expiry() {
    let mut store = Store::new();
    store.set_with_expiry_at(s("k"), s("old"), 1000, 0);
    store.set(s("k"), s("new"));
    assert_eq!(store.get_at("k", 5000), Ok(Some(s("new"))));
    assert_eq!(store.ttl_at("k", 5000), -1);
}

#[test]
fn expiry_is_honoured() {
    let mut store = Store::new();
    store.set_with_expiry_at(s("k"), s("v"), 2500, 1000);
    assert_eq!(store.get_at("k", 3499), Ok(Some(s("v"))));
    assert_eq!(store.ttl_at("k", 1000), 2);
    assert_eq!(store.get_at("k", 3500), Ok(None));
    // GET dropped the expired key.
    assert_eq!(store.entries().len(), 0);
    assert_eq!(store.ttl_at("k", 3500), -2);
}

#[test]
fn set_with_expiry_from_the_clock() {
    let mut store = Store::new();
    store.set_with_expiry(s("k"), s("v"), 60_000);
    assert_eq!(store.get("k"), Ok(Some(s("v"))));
    let ttl = store.ttl("k");
    assert!(ttl == 59 || ttl == 60);
}

#[test]
fn ttl_of_expired_key_drops_it() {
    let mut store = Store::new();
    store.set_with_expiry_at(s("k"), s("v"), 10, 0);
    assert_eq!(store.ttl_at("k", 10), -2);
    assert_eq!(store.entries().len(), 0);
}

#[test]
fn get_on_a_list_is_wrong_type() {
    let mut store = Store::new();
    store.lpush(s("l"), strings(&["a"])).unwrap();
    assert_eq!(store.get("l"), Err(s(WRONG_TYPE)));
}

#[test]
fn del_counts_distinct_held_keys() {
    let mut store = Store::new();
    store.set(s("a"), s("1"));
    store.set(s("b"), s("2"));
    assert_eq!(store.del(&strings(&["a", "a", "c", "b"])), 2);
    assert_eq!(store.get("a"), Ok(None));
    assert_eq!(store.get("b"), Ok(None));
}

#[test]
fn del_removes_expired_keys_too() {
    let mut store = Store::new();
    store.set_with_expiry_at(s("a"), s("1"), 1, 0);
    assert_eq!(store.del(&strings(&["a"])), 1);
}

#[test]
fn exists_counts_live_keys_with_repeats() {
    let mut store = Store::new();
    store.set(s("a"), s("1"));
    store.set_with_expiry_at(s("b"), s("2"), 100, 0);
    assert_eq!(store.exists_keys_at(&strings(&["a", "a", "b", "c"]), 50), 3);
    assert_eq!(store.exists_keys_at(&strings(&["a", "b"]), 100), 1);
    assert_eq!(store.exists_keys(&strings(&["a"])), 1);
}

#[test]
fn keys_lists_live_keys_once() {
    let mut store = Store::new();
    store.set(s("a"), s("1"));
    store.set(s("b"), s("2"));
    store.set(s("a"), s("3"));
    store.set_with_expiry_at(s("c"), s("4"), 10, 0);
    let mut keys = store.keys_at(20);
    keys.sort();
    assert_eq!(keys, strings(&["a", "b"]));
    let mut all = store.keys_at(5);
    all.sort();
    assert_eq!(all, strings(&["a", "b", "c"]));
    assert_eq!(store.keys().len(), 2);
}

#[test]
fn expire_and_persist() {
    let mut store = Store::new();
    assert!(!store.expire_at("k", 5, 0));
    store.set(s("k"), s("v"));
    assert!(store.expire_at("k", 5, 1000));
    assert_eq!(store.ttl_at("k", 1000), 5);
    assert_eq!(store.ttl_at("k", 1999), 4);
    assert!(store.persist_at("k", 1999));
    assert_eq!(store.ttl_at("k", 10_000), -1);
    assert!(!store.persist_at("k", 10_000));
    assert!(!store.persist("missing"));
    assert!(store.expire("k", 100));
    assert!(store.ttl("k") >= 99);
}

#[test]
fn lpush_pushes_each_value_at_the_front() {
    let mut store = Store::new();
    assert_eq!(store.lpush(s("l"), strings(&["a", "b", "c"])), Ok(3));
    assert_eq!(store.lrange("l", 0, -1), Ok(strings(&["c", "b", "a"])));
    assert_eq!(store.lpush(s("l"), strings(&["d"])), Ok(4));
    assert_eq!(store.lpop("l"), Ok(Some(s("d"))));
}

#[test]
fn rpush_then_rpop() {
    let mut store = Store::new();
    assert_eq!(store.rpush(s("l"), strings(&["a", "b"])), Ok(2));
    assert_eq!(store.rpush(s("l"), strings(&["c"])), Ok(3));
    assert_eq!(store.lrange("l", 0, -1), Ok(strings(&["a", "b", "c"])));
    assert_eq!(store.rpop("l"), Ok(Some(s("c"))));
    assert_eq!(store.lpop("l"), Ok(Some(s("a"))));
    assert_eq!(store.lpop("l"), Ok(Some(s("b"))));
    assert_eq!(store.lpop("l"), Ok(None));
    assert_eq!(store.rpop("l"), Ok(None));
    assert_eq!(store.lpop("missing"), Err(s(NO_SUCH_KEY)));
    assert_eq!(store.rpop("missing"), Err(s(NO_SUCH_KEY)));
}

#[test]
fn list_operations_on_a_string_are_wrong_type() {
    let mut store = Store::new();
    store.set(s("k"), s("v"));
    assert_eq!(store.lpush(s("k"), strings(&["a"])), Err(s(WRONG_TYPE)));
    assert_eq!(store.rpush(s("k"), strings(&["a"])), Err(s(WRONG_TYPE)));
    assert_eq!(store.lpop("k"), Err(s(WRONG_TYPE)));
    assert_eq!(store.rpop("k"), Err(s(WRONG_TYPE)));
    assert_eq!(store.lrange("k", 0, 1), Err(s(WRONG_TYPE)));
    assert_eq!(store.get("k"), Ok(Some(s("v"))));
}

#[test]
fn lrange_bounds() {
    let mut store = Store::new();
    store.rpush(s("l"), strings(&["a", "b", "c", "d", "e"])).unwrap();
    assert_eq!(store.lrange("l", 1, 3), Ok(strings(&["b", "c", "d"])));
    assert_eq!(store.lrange("l", -2, -1), Ok(strings(&["d", "e"])));
    assert_eq!(store.lrange("l", 2, 100), Ok(strings(&["c", "d", "e"])));
    assert_eq!(store.lrange("l", 3, 1), Ok(vec![]));
    assert_eq!(store.lrange("l", 5, 9), Ok(vec![]));
    assert_eq!(store.lrange("l", -100, 2), Ok(vec![]));
    assert_eq!(store.lrange("l", 0, -100), Ok(vec![]));
    assert_eq!(store.lrange("l", 0, -5), Ok(strings(&["a"])));
    assert_eq!(store.lrange("l", 0, -6), Ok(vec![]));
    assert_eq!(store.lrange("missing", 0, -1), Err(s(NO_SUCH_KEY)));
}

#[test]
fn lrange_on_an_emptied_list() {
    let mut store = Store::new();
    store.rpush(s("l"), strings(&["a"])).unwrap();
    store.lpop("l").unwrap();
    assert_eq!(store.lrange("l", 0, -1), Ok(vec![]));
}

#[test]
fn expiry_pass_drops_only_expired_keys() {
    let mut store = Store::new();
    store.set(s("keep"), s("1"));
    store.set_with_expiry_at(s("gone"), s("2"), 10, 0);
    store.set_with_expiry_at(s("later"), s("3"), 100, 0);
    store.remove_expired(10);
    let mut keys: Vec<String> = store.entries().iter().map(|(k, _)| k.clone()).collect();
    keys.sort();
    assert_eq!(keys, strings(&["keep", "later"]));
    store.purge_expired();
    assert_eq!(store.entries().len(), 1);
}

#[test]
fn insert_entry_restores_any_kind() {
    let mut store = Store::new();
    let mut list = VecDeque::new();
    list.push_back(s("x"));
    store.insert_entry(s("l"), StoreEntry { value: StoreValue::ListVal(list), expires_at: None });
    store.insert_entry(s("t"), StoreEntry { value: StoreValue::StringVal(s("v")), expires_at: Some(500) });
    assert_eq!(store.lrange("l", 0, -1), Ok(strings(&["x"])));
    assert_eq!(store.get_at("t", 499), Ok(Some(s("v"))));
    assert_eq!(store.entries().len(), 2);
}

#[test]
fn expire_and_persist_on_an_expired_key() {
    let mut store = Store::new();
    store.set_with_expiry_at(s("k"), s("v"), 100, 0);
    assert!(!store.expire_at("k", 50, 100));
    assert_eq!(store.entries().len(), 0);
    assert_eq!(store.get_at("k", 100), Ok(None));
    store.set_with_expiry_at(s("j"), s("v"), 100, 0);
    assert!(!store.persist_at("j", 150));
    assert_eq!(store.entries().len(), 0);
    assert_eq!(store.exists_keys_at(&strings(&["j"]), 150), 0);
}

#[test]
fn ttl_saturates_far_deadlines() {
    let mut store = Store::new();
    store.set(s("k"), s("v"));
    assert!(store.expire_at("k", u64::MAX, 0));
    assert_eq!(store.ttl_at("k", 0), i64::MAX);
}

#[test]
fn hash_operations() {
    let mut store = Store::new();
    assert_eq!(store.hset_at(s("h"), s("f"), s("1"), 0), Ok(1));
    assert_eq!(store.hset_at(s("h"), s("f"), s("2"), 0), Ok(0));
    assert_eq!(store.hset_at(s("h"), s("g"), s("3"), 0), Ok(1));
    assert_eq!(store.hget_at("h", "f", 0), Ok(Some(s("2"))));
    assert_eq!(store.hget_at("h", "x", 0), Ok(None));
    let mut all = store.hgetall_at("h", 0).unwrap();
    all.sort();
    assert_eq!(all, vec![(s("f"), s("2")), (s("g"), s("3"))]);
    assert_eq!(store.hdel_at("h", &strings(&["f", "f", "x"]), 0), Ok(1));
    assert_eq!(store.hgetall_at("h", 0), Ok(vec![(s("g"), s("3"))]));
    store.set(s("k"), s("v"));
    assert_eq!(store.hset_at(s("k"), s("f"), s("1"), 0), Err(s(WRONG_TYPE)));
    assert_eq!(store.hget_at("k", "f", 0), Err(s(WRONG_TYPE)));
    assert_eq!(store.hdel_at("k", &strings(&["f"]), 0), Err(s(WRONG_TYPE)));
    assert_eq!(store.hgetall_at("k", 0), Err(s(WRONG_TYPE)));
}

#[test]
fn set_operations() {
    let mut store = Store::new();
    assert_eq!(store.sadd_at(s("s"), &strings(&["a", "b", "a"]), 0), Ok(2));
    assert_eq!(store.sadd_at(s("s"), &strings(&["b", "c"]), 0), Ok(1));
    assert_eq!(store.sismember_at("s", "a", 0), Ok(true));
    assert_eq!(store.sismember_at("s", "z", 0), Ok(false));
    let mut members = store.smembers_at("s", 0).unwrap();
    members.sort();
    assert_eq!(members, strings(&["a", "b", "c"]));
    assert_eq!(store.srem_at("s", &strings(&["a", "z", "a"]), 0), Ok(1));
    assert_eq!(store.sismember_at("s", "a", 0), Ok(false));
    assert_eq!(store.srem_at("missing", &strings(&["a"]), 0), Ok(0));
    store.set(s("k"), s("v"));
    assert_eq!(store.sadd_at(s("k"), &strings(&["a"]), 0), Err(s(WRONG_TYPE)));
    assert_eq!(store.srem_at("k", &strings(&["a"]), 0), Err(s(WRONG_TYPE)));
    assert_eq!(store.sismember_at("k", "a", 0), Err(s(WRONG_TYPE)));
    assert_eq!(store.smembers_at("k", 0), Err(s(WRONG_TYPE)));
}

#[test]
fn well_formed_entries() {
    let good = StoreEntry { value: StoreValue::SetVal(strings(&["a", "b"])), expires_at: None };
    let bad = StoreEntry { value: StoreValue::SetVal(strings(&["a", "a"])), expires_at: None };
    let bad_hash = StoreEntry { value: StoreValue::HashVal(vec![(s("f"), s("1")), (s("f"), s("2"))]), expires_at: None };
    assert!(good.is_well_formed());
    assert!(!bad.is_well_formed());
    assert!(!bad_hash.is_well_formed());
}

#[test]
fn list_operations_at_a_time() {
    let mut store = Store::new();
    store.rpush_at(s("l"), strings(&["a", "b"]), 0).unwrap();
    assert!(store.expire_at("l", 1, 0));
    assert_eq!(store.lrange_at("l", 0, -1, 999), Ok(strings(&["a", "b"])));
    assert_eq!(store.lrange_at("l", 0, -1, 1000), Err(s(NO_SUCH_KEY)));
    assert_eq!(store.lpop_at("l", 1000), Err(s(NO_SUCH_KEY)));
    assert_eq!(store.entries().len(), 0);
    store.set_with_expiry_at(s("k"), s("v"), 10, 0);
    assert_eq!(store.lpush_at(s("k"), strings(&["x"]), 5), Err(s(WRONG_TYPE)));
    assert_eq!(store.lpush_at(s("k"), strings(&["x"]), 10), Ok(1));
    assert_eq!(store.rpop_at("k", 20), Ok(Some(s("x"))));
    assert_eq!(store.ttl_at("k", 20), -1);
}

#[test]
fn absolute_expiry_operations() {
    let mut store = Store::new();
    store.set_until(s("k"), s("v"), 2000);
    assert_eq!(store.ttl_at("k", 0), 2);
    assert!(store.expire_until_at("k", 9000, 1000));
    assert_eq!(store.ttl_at("k", 1000), 8);
    assert!(!store.expire_until_at("k", 20000, 9000));
    assert_eq!(store.entries().len(), 0);
}
