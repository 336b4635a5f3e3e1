use redisrs::commands::{dispatch, execute, execute_at, extract_args, writes};
use redisrs::resp::RespValue;
use redisrs::store::Store;

fn run(store: &mut Store, now: u64, args: &[&str]) -> RespValue {
    execute_at(args.iter().map(|a| a.to_string()).collect(), store, now)
}

fn err(m: &str) -> RespValue {
    RespValue::Error(m.to_string())
}

fn bulk(m: &str) -> RespValue {
    RespValue::BulkString(Some(m.to_string()))
}

#[test]
fn ping() {
    let mut store = Store::new();
    assert_eq!(run(&mut store, 0, &["PING"]), RespValue::SimpleString("PONG".into()));
    assert_eq!(run(&mut store, 0, &["ping", "hi"]), bulk("hi"));
    assert_eq!(run(&mut store, 0, &["PING", "a", "b"]), err("ERR wrong number of arguments for 'PING' command"));
}

#[test]
fn empty_and_unknown_commands() {
    let mut store = Store::new();
    assert_eq!(run(&mut store, 0, &[]), err("ERR empty command"));
    assert_eq!(run(&mut store, 0, &["frob", "x"]), err("ERR unknown command 'FROB'"));
}

#[test]
fn set_and_get() {
    let mut store = Store::new();
    assert_eq!(run(&mut store, 0, &["set", "k", "v"]), RespValue::SimpleString("OK".into()));
    assert_eq!(run(&mut store, 0, &["get", "k"]), bulk("v"));
    assert_eq!(run(&mut store, 0, &["get", "nope"]), RespValue::BulkString(None));
    assert_eq!(run(&mut store, 0, &["get"]), err("ERR wrong number of arguments for 'GET' command"));
    assert_eq!(run(&mut store, 0, &["set", "k"]), err("ERR wrong number of arguments for 'SET' command"));
}

#[test]
fn set_with_ex_and_px() {
    let mut store = Store::new();
    assert_eq!(run(&mut store, 1000, &["SET", "a", "1", "ex", "10"]), RespValue::SimpleString("OK".into()));
    assert_eq!(run(&mut store, 1000, &["TTL", "a"]), RespValue::Integer(10));
    assert_eq!(run(&mut store, 1000, &["SET", "b", "2", "PX", "1500"]), RespValue::SimpleString("OK".into()));
    assert_eq!(run(&mut store, 1000, &["TTL", "b"]), RespValue::Integer(1));
    assert_eq!(run(&mut store, 2500, &["GET", "b"]), RespValue::BulkString(None));
    assert_eq!(run(&mut store, 10_999, &["GET", "a"]), bulk("1"));
    assert_eq!(run(&mut store, 11_000, &["GET", "a"]), RespValue::BulkString(None));
}

#[test]
fn set_option_errors() {
    let mut store = Store::new();
    assert_eq!(
        run(&mut store, 0, &["SET", "a", "1", "EX", "ten"]),
        err("ERR value is not an integer or out of range for 'SET' command")
    );
    assert_eq!(
        run(&mut store, 0, &["SET", "a", "1", "XX", "10"]),
        err("ERR syntax error for 'SET' command")
    );
    assert_eq!(
        run(&mut store, 0, &["SET", "a", "1", "EX", "-1"]),
        err("ERR value is not an integer or out of range for 'SET' command")
    );
}

#[test]
fn get_on_list_is_wrong_kind() {
    let mut store = Store::new();
    run(&mut store, 0, &["RPUSH", "l", "x"]);
    assert_eq!(run(&mut store, 0, &["GET", "l"]), err("ERR wrong kind of value"));
}

#[test]
fn del_and_exists() {
    let mut store = Store::new();
    run(&mut store, 0, &["SET", "a", "1"]);
    run(&mut store, 0, &["SET", "b", "2"]);
    assert_eq!(run(&mut store, 0, &["EXISTS", "a", "b", "c", "a"]), RespValue::Integer(3));
    assert_eq!(run(&mut store, 0, &["DEL", "a", "c"]), RespValue::Integer(1));
    assert_eq!(run(&mut store, 0, &["EXISTS", "a"]), RespValue::Integer(0));
    assert_eq!(run(&mut store, 0, &["DEL"]), err("ERR wrong number of arguments for 'DEL' command"));
    assert_eq!(run(&mut store, 0, &["EXISTS"]), err("ERR wrong number of arguments for 'EXISTS' command"));
}

#[test]
fn keys_command() {
    let mut store = Store::new();
    run(&mut store, 0, &["SET", "a", "1"]);
    run(&mut store, 0, &["SET", "b", "2"]);
    let reply = run(&mut store, 0, &["KEYS", "*"]);
    match reply {
        RespValue::Array(Some(items)) => {
            let mut names: Vec<String> = items
                .into_iter()
                .map(|i| match i {
                    RespValue::BulkString(Some(s)) => s,
                    other => panic!("unexpected {:?}", other),
                })
                .collect();
            names.sort();
            assert_eq!(names, vec!["a".to_string(), "b".to_string()]);
        }
        other => panic!("unexpected {:?}", other),
    }
    assert!(matches!(run(&mut store, 0, &["KEYS"]), RespValue::Array(Some(v)) if v.len() == 2));
    assert_eq!(run(&mut store, 0, &["KEYS", "a*"]), RespValue::Array(Some(vec![bulk("a")])));
    assert_eq!(run(&mut store, 0, &["KEYS", "*", "x"]), err("ERR wrong number of arguments for 'KEYS' command"));
}

#[test]
fn expire_persist_ttl() {
    let mut store = Store::new();
    assert_eq!(run(&mut store, 0, &["EXPIRE", "k", "5"]), RespValue::Integer(0));
    run(&mut store, 0, &["SET", "k", "v"]);
    assert_eq!(run(&mut store, 0, &["TTL", "k"]), RespValue::Integer(-1));
    assert_eq!(run(&mut store, 0, &["EXPIRE", "k", "5"]), RespValue::Integer(1));
    assert_eq!(run(&mut store, 0, &["TTL", "k"]), RespValue::Integer(5));
    assert_eq!(run(&mut store, 0, &["PERSIST", "k"]), RespValue::Integer(1));
    assert_eq!(run(&mut store, 0, &["PERSIST", "k"]), RespValue::Integer(0));
    assert_eq!(run(&mut store, 0, &["TTL", "missing"]), RespValue::Integer(-2));
    assert_eq!(
        run(&mut store, 0, &["EXPIRE", "k", "soon"]),
        err("ERR value is not an integer or out of range for 'EXPIRE' command")
    );
    assert_eq!(run(&mut store, 0, &["TTL"]), err("ERR wrong number of arguments for 'TTL' command"));
    assert_eq!(run(&mut store, 0, &["PERSIST"]), err("ERR wrong number of arguments for 'PERSIST' command"));
    assert_eq!(run(&mut store, 0, &["EXPIRE", "k"]), err("ERR wrong number of arguments for 'EXPIRE' command"));
}

#[test]
fn list_commands() {
    let mut store = Store::new();
    assert_eq!(run(&mut store, 0, &["LPUSH", "l", "a", "b"]), RespValue::Integer(2));
    assert_eq!(run(&mut store, 0, &["RPUSH", "l", "c"]), RespValue::Integer(3));
    assert_eq!(
        run(&mut store, 0, &["LRANGE", "l", "0", "-1"]),
        RespValue::Array(Some(vec![bulk("b"), bulk("a"), bulk("c")]))
    );
    assert_eq!(run(&mut store, 0, &["LPOP", "l"]), bulk("b"));
    assert_eq!(run(&mut store, 0, &["RPOP", "l"]), bulk("c"));
    assert_eq!(run(&mut store, 0, &["RPOP", "l"]), bulk("a"));
    assert_eq!(run(&mut store, 0, &["RPOP", "l"]), RespValue::BulkString(None));
    assert_eq!(run(&mut store, 0, &["LPUSH", "l"]), err("ERR wrong number of arguments for 'LPUSH' command"));
    assert_eq!(run(&mut store, 0, &["LPOP"]), err("ERR wrong number of arguments for 'LPOP' command"));
    assert_eq!(
        run(&mut store, 0, &["LRANGE", "l", "x", "1"]),
        err("ERR value is not an integer or out of range for 'LRANGE' command")
    );
    assert_eq!(
        run(&mut store, 0, &["LRANGE", "l", "0", "y"]),
        err("ERR value is not an integer or out of range for 'LRANGE' command")
    );
    assert_eq!(run(&mut store, 0, &["LRANGE", "l", "0"]), err("ERR wrong number of arguments for 'LRANGE' command"));
}

#[test]
fn list_commands_on_strings() {
    let mut store = Store::new();
    run(&mut store, 0, &["SET", "k", "v"]);
    let wrong = err("WRONGTYPE Operation against a key holding the wrong kind of value");
    assert_eq!(run(&mut store, 0, &["LPUSH", "k", "a"]), wrong);
    assert_eq!(run(&mut store, 0, &["LPOP", "k"]), wrong);
    assert_eq!(run(&mut store, 0, &["LRANGE", "k", "0", "1"]), wrong);
}

#[test]
fn execute_reads_the_clock() {
    let mut store = Store::new();
    let reply = execute(vec!["SET".into(), "k".into(), "v".into(), "EX".into(), "100".into()], &mut store);
    assert_eq!(reply, RespValue::SimpleString("OK".into()));
    assert_eq!(execute(vec!["GET".into(), "k".into()], &mut store), bulk("v"));
}

#[test]
fn extract_args_takes_strings_of_an_array() {
    let value = RespValue::Array(Some(vec![
        bulk("SET"),
        RespValue::SimpleString("k".into()),
        RespValue::Integer(5),
        RespValue::BulkString(None),
        bulk("v"),
    ]));
    assert_eq!(extract_args(value), vec!["SET".to_string(), "k".to_string(), "v".to_string()]);
    assert_eq!(extract_args(RespValue::Integer(1)), Vec::<String>::new());
}

fn sorted_bulks(reply: RespValue) -> Vec<String> {
    match reply {
        RespValue::Array(Some(items)) => {
            let mut names: Vec<String> = items
                .into_iter()
                .map(|i| match i {
                    RespValue::BulkString(Some(s)) => s,
                    other => panic!("unexpected {:?}", other),
                })
                .collect();
            names.sort();
            names
        }
        other => panic!("unexpected {:?}", other),
    }
}

#[test]
fn keys_with_patterns() {
    let mut store = Store::new();
    for k in ["hello", "hallo", "hxllo", "hllo", "heeeello", "h*llo", "other"] {
        run(&mut store, 0, &["SET", k, "1"]);
    }
    assert_eq!(sorted_bulks(run(&mut store, 0, &["KEYS", "h?llo"])), vec!["h*llo", "hallo", "hello", "hxllo"]);
    assert_eq!(
        sorted_bulks(run(&mut store, 0, &["KEYS", "h*llo"])),
        vec!["h*llo", "hallo", "heeeello", "hello", "hllo", "hxllo"]
    );
    assert_eq!(sorted_bulks(run(&mut store, 0, &["KEYS", "h[ae]llo"])), vec!["hallo", "hello"]);
    assert_eq!(sorted_bulks(run(&mut store, 0, &["KEYS", "h[^e]llo"])), vec!["h*llo", "hallo", "hxllo"]);
    assert_eq!(sorted_bulks(run(&mut store, 0, &["KEYS", "h[a-f]llo"])), vec!["hallo", "hello"]);
    assert_eq!(sorted_bulks(run(&mut store, 0, &["KEYS", "h\\*llo"])), vec!["h*llo"]);
    assert_eq!(sorted_bulks(run(&mut store, 0, &["KEYS", "nothing*"])), Vec::<String>::new());
    assert_eq!(sorted_bulks(run(&mut store, 0, &["KEYS", "other"])), vec!["other"]);
}

#[test]
fn keys_skips_expired_keys() {
    let mut store = Store::new();
    run(&mut store, 0, &["SET", "a", "1", "PX", "10"]);
    run(&mut store, 0, &["SET", "b", "2"]);
    assert_eq!(sorted_bulks(run(&mut store, 10, &["KEYS", "*"])), vec!["b"]);
}

#[test]
fn hash_commands() {
    let mut store = Store::new();
    assert_eq!(run(&mut store, 0, &["HSET", "h", "f", "v"]), RespValue::Integer(1));
    assert_eq!(run(&mut store, 0, &["HGET", "h", "f"]), bulk("v"));
    assert_eq!(run(&mut store, 0, &["HSET", "h", "f", "w"]), RespValue::Integer(0));
    assert_eq!(run(&mut store, 0, &["HGET", "h", "f"]), bulk("w"));
    assert_eq!(run(&mut store, 0, &["HSET", "h", "g", "x"]), RespValue::Integer(1));
    assert_eq!(run(&mut store, 0, &["HGET", "h", "nope"]), RespValue::BulkString(None));
    assert_eq!(run(&mut store, 0, &["HGET", "missing", "f"]), RespValue::BulkString(None));
    let mut pairs: Vec<(String, String)> = match run(&mut store, 0, &["HGETALL", "h"]) {
        RespValue::Array(Some(items)) => items
            .chunks(2)
            .map(|c| match (&c[0], &c[1]) {
                (RespValue::BulkString(Some(f)), RespValue::BulkString(Some(v))) => (f.clone(), v.clone()),
                other => panic!("unexpected {:?}", other),
            })
            .collect(),
        other => panic!("unexpected {:?}", other),
    };
    pairs.sort();
    assert_eq!(pairs, vec![("f".to_string(), "w".to_string()), ("g".to_string(), "x".to_string())]);
    assert_eq!(run(&mut store, 0, &["HDEL", "h", "f", "f", "zz"]), RespValue::Integer(1));
    assert_eq!(run(&mut store, 0, &["HGET", "h", "f"]), RespValue::BulkString(None));
    assert_eq!(run(&mut store, 0, &["HDEL", "missing", "f"]), RespValue::Integer(0));
    assert_eq!(run(&mut store, 0, &["HGETALL", "missing"]), RespValue::Array(Some(vec![])));
    assert_eq!(run(&mut store, 0, &["HSET", "h", "f"]), err("ERR wrong number of arguments for 'HSET' command"));
    assert_eq!(run(&mut store, 0, &["HGET", "h"]), err("ERR wrong number of arguments for 'HGET' command"));
    assert_eq!(run(&mut store, 0, &["HDEL", "h"]), err("ERR wrong number of arguments for 'HDEL' command"));
    assert_eq!(run(&mut store, 0, &["HGETALL"]), err("ERR wrong number of arguments for 'HGETALL' command"));
}

#[test]
fn set_commands() {
    let mut store = Store::new();
    assert_eq!(run(&mut store, 0, &["SADD", "s", "a", "b", "a"]), RespValue::Integer(2));
    assert_eq!(run(&mut store, 0, &["SADD", "s", "b", "c"]), RespValue::Integer(1));
    assert_eq!(run(&mut store, 0, &["SISMEMBER", "s", "a"]), RespValue::Integer(1));
    assert_eq!(run(&mut store, 0, &["SISMEMBER", "s", "z"]), RespValue::Integer(0));
    assert_eq!(run(&mut store, 0, &["SISMEMBER", "missing", "a"]), RespValue::Integer(0));
    assert_eq!(sorted_bulks(run(&mut store, 0, &["SMEMBERS", "s"])), vec!["a", "b", "c"]);
    assert_eq!(run(&mut store, 0, &["SREM", "s", "a", "a", "z"]), RespValue::Integer(1));
    assert_eq!(sorted_bulks(run(&mut store, 0, &["SMEMBERS", "s"])), vec!["b", "c"]);
    assert_eq!(run(&mut store, 0, &["SREM", "missing", "a"]), RespValue::Integer(0));
    assert_eq!(sorted_bulks(run(&mut store, 0, &["SMEMBERS", "missing"])), Vec::<String>::new());
    assert_eq!(run(&mut store, 0, &["SADD", "s"]), err("ERR wrong number of arguments for 'SADD' command"));
    assert_eq!(run(&mut store, 0, &["SREM", "s"]), err("ERR wrong number of arguments for 'SREM' command"));
    assert_eq!(run(&mut store, 0, &["SISMEMBER", "s"]), err("ERR wrong number of arguments for 'SISMEMBER' command"));
    assert_eq!(run(&mut store, 0, &["SMEMBERS"]), err("ERR wrong number of arguments for 'SMEMBERS' command"));
}

#[test]
fn hash_and_set_commands_check_the_kind() {
    let mut store = Store::new();
    run(&mut store, 0, &["SET", "k", "v"]);
    run(&mut store, 0, &["SADD", "s", "a"]);
    let wrong = err("WRONGTYPE Operation against a key holding the wrong kind of value");
    assert_eq!(run(&mut store, 0, &["HSET", "k", "f", "v"]), wrong);
    assert_eq!(run(&mut store, 0, &["HGET", "s", "f"]), wrong);
    assert_eq!(run(&mut store, 0, &["HDEL", "k", "f"]), wrong);
    assert_eq!(run(&mut store, 0, &["HGETALL", "s"]), wrong);
    assert_eq!(run(&mut store, 0, &["SADD", "k", "a"]), wrong);
    assert_eq!(run(&mut store, 0, &["SREM", "k", "a"]), wrong);
    assert_eq!(run(&mut store, 0, &["SISMEMBER", "k", "a"]), wrong);
    assert_eq!(run(&mut store, 0, &["SMEMBERS", "k"]), wrong);
    assert_eq!(run(&mut store, 0, &["GET", "k"]), bulk("v"));
}

#[test]
fn hash_and_set_keep_their_expiry() {
    let mut store = Store::new();
    run(&mut store, 0, &["HSET", "h", "f", "v"]);
    run(&mut store, 0, &["EXPIRE", "h", "10"]);
    run(&mut store, 1000, &["HSET", "h", "g", "w"]);
    assert_eq!(run(&mut store, 1000, &["TTL", "h"]), RespValue::Integer(9));
    assert_eq!(run(&mut store, 10_000, &["HGET", "h", "f"]), RespValue::BulkString(None));
    assert_eq!(run(&mut store, 10_000, &["HSET", "h", "f", "x"]), RespValue::Integer(1));
    assert_eq!(run(&mut store, 10_000, &["TTL", "h"]), RespValue::Integer(-1));
}

#[test]
fn expire_and_persist_leave_expired_keys_gone() {
    let mut store = Store::new();
    run(&mut store, 0, &["SET", "k", "v", "PX", "100"]);
    assert_eq!(run(&mut store, 100, &["EXPIRE", "k", "50"]), RespValue::Integer(0));
    assert_eq!(run(&mut store, 100, &["GET", "k"]), RespValue::BulkString(None));
    run(&mut store, 200, &["SET", "j", "v", "PX", "100"]);
    assert_eq!(run(&mut store, 300, &["PERSIST", "j"]), RespValue::Integer(0));
    assert_eq!(run(&mut store, 300, &["EXISTS", "j"]), RespValue::Integer(0));
}

#[test]
fn commands_in_lower_case() {
    let mut store = Store::new();
    assert_eq!(run(&mut store, 0, &["hset", "h", "f", "v"]), RespValue::Integer(1));
    assert_eq!(run(&mut store, 0, &["Hget", "h", "f"]), bulk("v"));
    assert_eq!(run(&mut store, 0, &["sadd", "s", "a"]), RespValue::Integer(1));
    assert_eq!(run(&mut store, 0, &["keys", "s"]), RespValue::Array(Some(vec![bulk("s")])));
}

#[test]
fn lrange_and_pops_on_missing_keys() {
    let mut store = Store::new();
    assert_eq!(run(&mut store, 0, &["LRANGE", "l", "0", "-1"]), err("ERR no such key"));
    assert_eq!(run(&mut store, 0, &["LPOP", "l"]), err("ERR no such key"));
    assert_eq!(run(&mut store, 0, &["RPOP", "l"]), err("ERR no such key"));
    run(&mut store, 0, &["RPUSH", "l", "a", "b", "c"]);
    assert_eq!(run(&mut store, 0, &["LRANGE", "l", "0", "-10"]), RespValue::Array(Some(vec![])));
}

#[test]
fn dispatch_takes_the_upper_cased_name() {
    let mut store = Store::new();
    let args: Vec<String> = vec!["hset".into(), "h".into(), "f".into(), "v".into()];
    assert_eq!(dispatch(&"HSET".to_string(), &args, &mut store, 0), RespValue::Integer(1));
    let get: Vec<String> = vec!["x".into(), "h".into(), "f".into()];
    assert_eq!(dispatch(&"HGET".to_string(), &get, &mut store, 0), bulk("v"));
    assert_eq!(dispatch(&"NOPE".to_string(), &get, &mut store, 0), err("ERR unknown command 'NOPE'"));
}

#[test]
fn write_commands() {
    let w = |xs: &[&str]| writes(&xs.iter().map(|x| x.to_string()).collect());
    assert!(w(&["set", "k", "v"]));
    assert!(w(&["LPOP", "l"]));
    assert!(w(&["hdel", "h", "f"]));
    assert!(!w(&["GET", "k"]));
    assert!(!w(&["KEYS"]));
    assert!(!w(&["PUBLISH", "c", "m"]));
    assert!(!w(&[]));
}

#[test]
fn list_commands_treat_expired_keys_as_missing() {
    let mut store = Store::new();
    run(&mut store, 0, &["RPUSH", "l", "a", "b"]);
    run(&mut store, 0, &["EXPIRE", "l", "1"]);
    assert_eq!(run(&mut store, 1000, &["LRANGE", "l", "0", "-1"]), err("ERR no such key"));
    assert_eq!(run(&mut store, 1000, &["LPOP", "l"]), err("ERR no such key"));
    run(&mut store, 2000, &["RPUSH", "m", "a"]);
    run(&mut store, 2000, &["EXPIRE", "m", "1"]);
    assert_eq!(run(&mut store, 3000, &["LPUSH", "m", "x"]), RespValue::Integer(1));
    assert_eq!(run(&mut store, 3000, &["TTL", "m"]), RespValue::Integer(-1));
    assert_eq!(run(&mut store, 3000, &["LRANGE", "m", "0", "-1"]), RespValue::Array(Some(vec![bulk("x")])));
    run(&mut store, 3000, &["SET", "s", "v", "PX", "10"]);
    assert_eq!(run(&mut store, 3010, &["RPUSH", "s", "y"]), RespValue::Integer(1));
    assert_eq!(run(&mut store, 3010, &["RPOP", "s"]), bulk("y"));
}

#[test]
fn absolute_deadlines() {
    let mut store = Store::new();
    assert_eq!(run(&mut store, 0, &["SET", "k", "v", "pxat", "5000"]), RespValue::SimpleString("OK".into()));
    assert_eq!(run(&mut store, 1000, &["TTL", "k"]), RespValue::Integer(4));
    assert_eq!(run(&mut store, 5000, &["GET", "k"]), RespValue::BulkString(None));
    run(&mut store, 5000, &["SET", "j", "v"]);
    assert_eq!(run(&mut store, 5000, &["PEXPIREAT", "j", "9000"]), RespValue::Integer(1));
    assert_eq!(run(&mut store, 6000, &["TTL", "j"]), RespValue::Integer(3));
    assert_eq!(run(&mut store, 6000, &["PEXPIREAT", "nope", "9000"]), RespValue::Integer(0));
    assert_eq!(
        run(&mut store, 6000, &["PEXPIREAT", "j", "soon"]),
        err("ERR value is not an integer or out of range for 'PEXPIREAT' command")
    );
    assert_eq!(
        run(&mut store, 6000, &["SET", "j", "v", "PXAT", "-1"]),
        err("ERR value is not an integer or out of range for 'SET' command")
    );
    assert_eq!(run(&mut store, 6000, &["PEXPIREAT", "j"]), err("ERR wrong number of arguments for 'PEXPIREAT' command"));
}
