use redisrs::persistence::{aof_record, record_args_at, replay_aof_at};
use redisrs::pubsub::{Registry, Subscriptions};
use redisrs::server::serve_buffer_at;
use redisrs::store::Store;

fn serve(input: &[u8], store: &mut Store) -> (Vec<u8>, usize, bool) {
    let mut subs = Subscriptions::new();
    let mut reg = Registry::new();
    let (out, consumed, clear, sends, _) = serve_buffer_at(input, 1, store, &mut subs, &mut reg, 0);
    assert!(sends.is_empty());
    (out, consumed, clear)
}

#[test]
fn serves_pipelined_commands() {
    let mut store = Store::new();
    let input = b"*3\r\n$3\r\nSET\r\n$1\r\nk\r\n$1\r\nv\r\n*2\r\n$3\r\nGET\r\n$1\r\nk\r\n";
    let (out, consumed, clear) = serve(input, &mut store);
    assert_eq!(out, b"+OK\r\n$1\r\nv\r\n".to_vec());
    assert_eq!(consumed, input.len());
    assert!(!clear);
}

#[test]
fn keeps_an_incomplete_command() {
    let mut store = Store::new();
    let input = b"*1\r\n$4\r\nPING\r\n*2\r\n$3\r\nGE";
    let (out, consumed, clear) = serve(input, &mut store);
    assert_eq!(out, b"+PONG\r\n".to_vec());
    assert_eq!(consumed, 14);
    assert!(!clear);
}

#[test]
fn answers_a_protocol_error_and_drops_the_buffer() {
    let mut store = Store::new();
    let (out, consumed, clear) = serve(b"hello\r\n", &mut store);
    assert_eq!(out, b"-Protocol error: Unknown type byte: h\r\n".to_vec());
    assert_eq!(consumed, 0);
    assert!(clear);
}

#[test]
fn aof_record_and_replay() {
    let args: Vec<String> = vec!["RPUSH".into(), "l".into(), "a".into(), "b".into()];
    let record = aof_record(&args);
    assert_eq!(record, b"*4\r\n$5\r\nRPUSH\r\n$1\r\nl\r\n$1\r\na\r\n$1\r\nb\r\n".to_vec());
    let mut log = record.clone();
    log.extend(aof_record(&["LPOP".to_string(), "l".to_string()]));
    let mut store = Store::new();
    let used = replay_aof_at(&log, &mut store, 0);
    assert_eq!(used, log.len());
    assert_eq!(store.lrange("l", 0, -1), Ok(vec!["b".to_string()]));
}

#[test]
fn replay_stops_at_a_broken_record() {
    let mut log = aof_record(&["SET".to_string(), "k".to_string(), "v".to_string()]);
    let good = log.len();
    log.extend_from_slice(b"*2\r\n$3\r\nDEL");
    let mut store = Store::new();
    assert_eq!(replay_aof_at(&log, &mut store, 0), good);
    assert_eq!(store.get_at("k", 0), Ok(Some("v".to_string())));
}

fn command(args: &[&str]) -> Vec<u8> {
    let args: Vec<String> = args.iter().map(|a| a.to_string()).collect();
    aof_record(&args)
}

#[test]
fn subscribe_publish_unsubscribe() {
    let mut store = Store::new();
    let mut reg = Registry::new();
    let mut alice = Subscriptions::new();
    let mut bob = Subscriptions::new();
    let (out, consumed, clear, sends, _) =
        serve_buffer_at(&command(&["SUBSCRIBE", "news", "chat"]), 1, &mut store, &mut alice, &mut reg, 0);
    assert_eq!(
        out,
        b"*3\r\n$9\r\nsubscribe\r\n$4\r\nnews\r\n:1\r\n*3\r\n$9\r\nsubscribe\r\n$4\r\nchat\r\n:2\r\n".to_vec()
    );
    assert_eq!(consumed, command(&["SUBSCRIBE", "news", "chat"]).len());
    assert!(!clear);
    assert!(sends.is_empty());
    assert_eq!(alice.count(), 2);
    serve_buffer_at(&command(&["subscribe", "news"]), 2, &mut store, &mut bob, &mut reg, 0);
    let (out, _, _, sends, _) = serve_buffer_at(&command(&["PUBLISH", "news", "hi"]), 3, &mut store,
        &mut Subscriptions::new(), &mut reg, 0);
    assert_eq!(out, b":2\r\n".to_vec());
    assert_eq!(sends.len(), 1);
    let mut targets = sends[0].0.clone();
    targets.sort();
    assert_eq!(targets, vec![1, 2]);
    assert_eq!(sends[0].1.serialize(), b"*3\r\n$7\r\nmessage\r\n$4\r\nnews\r\n$2\r\nhi\r\n".to_vec());
    let (out, _, _, _, _) = serve_buffer_at(&command(&["UNSUBSCRIBE", "news"]), 1, &mut store, &mut alice, &mut reg, 0);
    assert_eq!(out, b"*3\r\n$11\r\nunsubscribe\r\n$4\r\nnews\r\n:1\r\n".to_vec());
    let (out, _, _, sends, _) = serve_buffer_at(&command(&["PUBLISH", "news", "again"]), 3, &mut store,
        &mut Subscriptions::new(), &mut reg, 0);
    assert_eq!(out, b":1\r\n".to_vec());
    assert_eq!(sends[0].0, vec![2]);
    let (out, _, _, _, _) = serve_buffer_at(&command(&["UNSUBSCRIBE"]), 1, &mut store, &mut alice, &mut reg, 0);
    assert_eq!(out, b"*3\r\n$11\r\nunsubscribe\r\n$4\r\nchat\r\n:0\r\n".to_vec());
    let (out, _, _, _, _) = serve_buffer_at(&command(&["UNSUBSCRIBE"]), 1, &mut store, &mut alice, &mut reg, 0);
    assert_eq!(out, b"*3\r\n$11\r\nunsubscribe\r\n$-1\r\n:0\r\n".to_vec());
    let (out, _, _, sends, _) = serve_buffer_at(&command(&["PUBLISH", "nobody", "x"]), 3, &mut store,
        &mut Subscriptions::new(), &mut reg, 0);
    assert_eq!(out, b":0\r\n".to_vec());
    assert!(sends[0].0.is_empty());
}

#[test]
fn channel_commands_check_their_arguments() {
    let mut store = Store::new();
    let mut reg = Registry::new();
    let mut subs = Subscriptions::new();
    let (out, _, _, _, _) = serve_buffer_at(&command(&["SUBSCRIBE"]), 1, &mut store, &mut subs, &mut reg, 0);
    assert_eq!(out, b"-ERR wrong number of arguments for 'SUBSCRIBE' command\r\n".to_vec());
    let (out, _, _, sends, _) = serve_buffer_at(&command(&["PUBLISH", "c"]), 1, &mut store, &mut subs, &mut reg, 0);
    assert_eq!(out, b"-ERR wrong number of arguments for 'PUBLISH' command\r\n".to_vec());
    assert!(sends.is_empty());
}

#[test]
fn data_commands_and_channel_commands_mix() {
    let mut store = Store::new();
    let mut reg = Registry::new();
    let mut subs = Subscriptions::new();
    let mut input = command(&["SET", "k", "v"]);
    input.extend(command(&["SUBSCRIBE", "c"]));
    input.extend(command(&["GET", "k"]));
    let (out, consumed, _, _, _) = serve_buffer_at(&input, 7, &mut store, &mut subs, &mut reg, 0);
    assert_eq!(
        out,
        b"+OK\r\n*3\r\n$9\r\nsubscribe\r\n$1\r\nc\r\n:1\r\n$1\r\nv\r\n".to_vec()
    );
    assert_eq!(consumed, input.len());
    assert_eq!(subs.channels(), vec!["c".to_string()]);
}

#[test]
fn serving_in_pieces_answers_as_at_once() {
    let input = b"*1\r\n$4\r\nPING\r\n*2\r\n$3\r\nGET\r\n$1\r\nk\r\n";
    let mut whole = Store::new();
    let (all_out, all_used, _) = serve(input, &mut whole);
    let mut store = Store::new();
    let (o1, c1, _) = serve(&input[..20], &mut store);
    let mut rest = input[c1..20].to_vec();
    rest.extend_from_slice(&input[20..]);
    let (o2, c2, _) = serve(&rest, &mut store);
    let mut joined = o1.clone();
    joined.extend(o2);
    assert_eq!(joined, all_out);
    assert_eq!(c1 + c2, all_used);
    assert_eq!(all_out, b"+PONG\r\n$-1\r\n".to_vec());
}

#[test]
fn records_only_the_commands_that_change_keys() {
    let mut store = Store::new();
    let mut reg = Registry::new();
    let mut subs = Subscriptions::new();
    let mut input = command(&["set", "k", "v"]);
    input.extend(command(&["GET", "k"]));
    input.extend(command(&["SADD", "s", "a"]));
    input.extend(command(&["PING"]));
    let (_, _, _, _, log) = serve_buffer_at(&input, 1, &mut store, &mut subs, &mut reg, 0);
    let mut expected = command(&["set", "k", "v"]);
    expected.extend(command(&["SADD", "s", "a"]));
    assert_eq!(log, expected);
    let mut replayed = Store::new();
    assert_eq!(replay_aof_at(&log, &mut replayed, 0), log.len());
    assert_eq!(replayed.get_at("k", 0), Ok(Some("v".to_string())));
    assert_eq!(replayed.sismember_at("s", "a", 0), Ok(true));
}

#[test]
fn records_carry_absolute_deadlines() {
    let mut store = Store::new();
    let mut reg = Registry::new();
    let mut subs = Subscriptions::new();
    let mut input = command(&["SET", "k", "v", "EX", "10"]);
    input.extend(command(&["set", "p", "v", "px", "500"]));
    input.extend(command(&["EXPIRE", "k", "5"]));
    let (_, _, _, _, log) = serve_buffer_at(&input, 1, &mut store, &mut subs, &mut reg, 1000);
    let mut expected = command(&["SET", "k", "v", "PXAT", "11000"]);
    expected.extend(command(&["set", "p", "v", "PXAT", "1500"]));
    expected.extend(command(&["PEXPIREAT", "k", "6000"]));
    assert_eq!(log, expected);
    let mut later = Store::new();
    assert_eq!(replay_aof_at(&log, &mut later, 3000), log.len());
    assert_eq!(later.ttl_at("k", 3000), 3);
    assert_eq!(later.get_at("p", 3000), Ok(None));
}

#[test]
fn record_arguments() {
    let args: Vec<String> = vec!["EXPIRE".into(), "k".into(), "x".into()];
    assert_eq!(record_args_at(&args, 7), args);
    let set: Vec<String> = vec!["SET".into(), "k".into(), "v".into(), "EX".into(), "2".into()];
    assert_eq!(record_args_at(&set, 7), vec!["SET", "k", "v", "PXAT", "2007"]);
}
