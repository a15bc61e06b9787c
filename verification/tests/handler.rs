use redis_lite::handler::Action;
use redis_lite::protocol::command::Command;
use redis_lite::protocol::data_type::DataType;
use redis_lite::storage::Storage;

fn request(words: &[&str]) -> DataType {
    DataType::Array(words.iter().map(|w| DataType::BulkString(w.to_string())).collect())
}

fn reply(st: &mut Storage, words: &[&str], now: u128) -> Vec<u8> {
    match st.respond(request(words), now) {
        Action::Reply(b) => b,
        other => panic!("expected a reply, got {:?}", other),
    }
}

#[test]
fn ping_and_echo() {
    let mut st = Storage::new();
    assert_eq!(reply(&mut st, &["PING"], 0), b"+PONG\r\n".to_vec());
    assert_eq!(reply(&mut st, &["ECHO", "hey"], 0), b"$3\r\nhey\r\n".to_vec());
}

#[test]
fn set_then_get() {
    let mut st = Storage::new();
    assert_eq!(reply(&mut st, &["SET", "k", "v"], 10), b"+OK\r\n".to_vec());
    assert_eq!(reply(&mut st, &["GET", "k"], 20), b"$1\r\nv\r\n".to_vec());
    assert_eq!(reply(&mut st, &["GET", "missing"], 20), b"$-1\r\n".to_vec());
}

#[test]
fn get_after_expiry_is_null() {
    let mut st = Storage::new();
    reply(&mut st, &["SET", "k", "v", "PX", "100"], 1_000);
    assert_eq!(reply(&mut st, &["GET", "k"], 1_100), b"$1\r\nv\r\n".to_vec());
    assert_eq!(reply(&mut st, &["GET", "k"], 1_101), b"$-1\r\n".to_vec());
    assert_eq!(reply(&mut st, &["TYPE", "k"], 1_101), b"+none\r\n".to_vec());
}

#[test]
fn list_commands() {
    let mut st = Storage::new();
    assert_eq!(reply(&mut st, &["RPUSH", "l", "a", "b"], 0), b":2\r\n".to_vec());
    assert_eq!(reply(&mut st, &["LPUSH", "l", "x", "y"], 0), b":4\r\n".to_vec());
    assert_eq!(
        reply(&mut st, &["LRANGE", "l", "0", "-1"], 0),
        b"*4\r\n$1\r\ny\r\n$1\r\nx\r\n$1\r\na\r\n$1\r\nb\r\n".to_vec()
    );
    assert_eq!(reply(&mut st, &["LLEN", "l"], 0), b":4\r\n".to_vec());
    assert_eq!(reply(&mut st, &["LLEN", "none"], 0), b":0\r\n".to_vec());
    assert_eq!(reply(&mut st, &["LPOP", "l"], 0), b"$1\r\ny\r\n".to_vec());
    assert_eq!(reply(&mut st, &["LPOP", "l", "2"], 0), b"*2\r\n$1\r\nx\r\n$1\r\na\r\n".to_vec());
    assert_eq!(reply(&mut st, &["LPOP", "l", "5"], 0), b"$1\r\nb\r\n".to_vec());
    assert_eq!(reply(&mut st, &["LPOP", "l"], 0), b"$-1\r\n".to_vec());
    assert_eq!(reply(&mut st, &["LPOP", "none"], 0), b"$-1\r\n".to_vec());
    assert_eq!(reply(&mut st, &["LRANGE", "none", "0", "-1"], 0), b"*0\r\n".to_vec());
}

#[test]
fn lrange_past_the_end_gives_up() {
    let mut st = Storage::new();
    reply(&mut st, &["RPUSH", "l", "a", "b", "c"], 0);
    assert!(matches!(st.respond(request(&["LRANGE", "l", "2", "0"]), 0), Action::Abort));
}

#[test]
fn type_of_each_kind() {
    let mut st = Storage::new();
    reply(&mut st, &["SET", "s", "1"], 0);
    reply(&mut st, &["RPUSH", "l", "1"], 0);
    reply(&mut st, &["XADD", "x", "1-1", "f", "v"], 0);
    assert_eq!(reply(&mut st, &["TYPE", "s"], 0), b"+string\r\n".to_vec());
    assert_eq!(reply(&mut st, &["TYPE", "l"], 0), b"+list\r\n".to_vec());
    assert_eq!(reply(&mut st, &["TYPE", "x"], 0), b"+stream\r\n".to_vec());
    assert_eq!(reply(&mut st, &["TYPE", "n"], 0), b"+none\r\n".to_vec());
}

#[test]
fn xadd_replies() {
    let mut st = Storage::new();
    assert_eq!(reply(&mut st, &["XADD", "x", "1-1", "f", "v"], 0), b"$3\r\n1-1\r\n".to_vec());
    assert_eq!(
        reply(&mut st, &["XADD", "x", "1-1", "f", "v"], 0),
        b"-ERR The ID specified in XADD is equal or smaller than the target stream top item\r\n"
            .to_vec()
    );
    assert_eq!(
        reply(&mut st, &["XADD", "x", "0-0"], 0),
        b"-ERR The ID specified in XADD must be greater than 0-0\r\n".to_vec()
    );
    assert_eq!(reply(&mut st, &["XADD", "x", "*"], 77), b"$4\r\n77-0\r\n".to_vec());
}

#[test]
fn xrange_replies() {
    let mut st = Storage::new();
    reply(&mut st, &["XADD", "x", "1-1", "a", "1"], 0);
    reply(&mut st, &["XADD", "x", "2-1", "b", "2"], 0);
    assert_eq!(
        reply(&mut st, &["XRANGE", "x", "2", "+"], 0),
        b"*1\r\n*2\r\n$3\r\n2-1\r\n*2\r\n$1\r\nb\r\n$1\r\n2\r\n".to_vec()
    );
    assert_eq!(
        reply(&mut st, &["XRANGE", "x", "nope", "+"], 0),
        b"-ERR invalid digit found in string\r\n".to_vec()
    );
}

#[test]
fn unknown_command_is_ok() {
    let mut st = Storage::new();
    assert_eq!(reply(&mut st, &["FLUSHALL"], 0), b"+OK\r\n".to_vec());
}

#[test]
fn bad_requests_get_bulk_errors() {
    let mut st = Storage::new();
    match st.respond(DataType::Integer(3), 0) {
        Action::Reply(b) => assert_eq!(b, b"!14\r\nunknow command\r\n".to_vec()),
        other => panic!("{:?}", other),
    }
    let b = reply(&mut st, &["GET"], 0);
    let msg = "Condition failed: `args.len() == 2` (1 vs 2)";
    assert_eq!(b, format!("!{}\r\n{}\r\n", msg.len(), msg).into_bytes());
}

#[test]
fn ttl_overflow_gives_up() {
    let mut st = Storage::new();
    assert!(matches!(
        st.respond(request(&["SET", "k", "v", "EX", "18446744073709552"]), 0),
        Action::Abort
    ));
    assert!(matches!(
        st.execute(Command::SetString("k".to_string(), "v".to_string(), u64::MAX), u128::MAX),
        Action::Abort
    ));
}

#[test]
fn blpop_is_left_to_the_caller() {
    let mut st = Storage::new();
    match st.respond(request(&["BLPOP", "q", "0.5"]), 0) {
        Action::Block(k, t) => {
            assert_eq!(k, "q");
            assert_eq!(t, "0.5");
        }
        other => panic!("{:?}", other),
    }
    assert_eq!(st.try_blpop("q"), None);
    reply(&mut st, &["RPUSH", "q", "a", "b"], 0);
    assert_eq!(st.try_blpop("q"), Some(b"*2\r\n$1\r\nq\r\n$1\r\na\r\n".to_vec()));
    assert_eq!(reply(&mut st, &["LRANGE", "q", "0", "-1"], 0), b"*1\r\n$1\r\nb\r\n".to_vec());
    assert_eq!(st.try_blpop("q"), Some(b"*2\r\n$1\r\nq\r\n$1\r\nb\r\n".to_vec()));
    assert_eq!(st.try_blpop("q"), None);
}

#[test]
fn execute_takes_commands_directly() {
    let mut st = Storage::new();
    match st.execute(Command::Rpush("l".to_string(), vec!["a".to_string()]), 0) {
        Action::Reply(b) => assert_eq!(b, b":1\r\n".to_vec()),
        other => panic!("{:?}", other),
    }
    match st.execute(Command::Lrange("l".to_string(), 0, 0), 0) {
        Action::Reply(b) => assert_eq!(b, b"*1\r\n$1\r\na\r\n".to_vec()),
        other => panic!("{:?}", other),
    }
}
