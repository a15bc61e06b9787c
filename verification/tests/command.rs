use redis_lite::protocol::command::{Command, CommandError};
use redis_lite::protocol::data_type::DataType;
use redis_lite::text::NumberError;

fn request(words: &[&str]) -> DataType {
    DataType::Array(words.iter().map(|w| DataType::BulkString(w.to_string())).collect())
}

fn parse(words: &[&str]) -> Result<Command, CommandError> {
    Command::from(request(words))
}

#[test]
fn ping_in_any_case() {
    assert!(matches!(parse(&["PING"]), Ok(Command::Ping)));
    assert!(matches!(parse(&["ping"]), Ok(Command::Ping)));
    assert!(matches!(parse(&["PiNg", "extra"]), Ok(Command::Ping)));
}

#[test]
fn echo_takes_one_argument() {
    match parse(&["echo", "hey"]) {
        Ok(Command::Echo(s)) => assert_eq!(s, "hey"),
        other => panic!("{:?}", other),
    }
    let e = parse(&["ECHO"]).unwrap_err();
    assert_eq!(e, CommandError::WrongArgCount { actual: 1, expected: 2 });
    assert_eq!(e.message(), "Condition failed: `args.len() == 2` (1 vs 2)");
}

#[test]
fn set_without_options() {
    match parse(&["SET", "k", "v"]) {
        Ok(Command::SetString(k, v, ttl)) => {
            assert_eq!(k, "k");
            assert_eq!(v, "v");
            assert_eq!(ttl, 0);
        }
        other => panic!("{:?}", other),
    }
    let e = parse(&["SET", "k"]).unwrap_err();
    assert_eq!(e, CommandError::TooFewArgs { actual: 2, minimum: 3 });
    assert_eq!(e.message(), "Condition failed: `args.len() >= 3` (2 vs 3)");
}

#[test]
fn set_with_expiry_options() {
    match parse(&["SET", "k", "v", "PX", "100"]) {
        Ok(Command::SetString(_, _, ttl)) => assert_eq!(ttl, 100),
        other => panic!("{:?}", other),
    }
    match parse(&["set", "k", "v", "ex", "10"]) {
        Ok(Command::SetString(_, _, ttl)) => assert_eq!(ttl, 10_000),
        other => panic!("{:?}", other),
    }
    match parse(&["SET", "k", "v", "other"]) {
        Ok(Command::SetString(_, _, ttl)) => assert_eq!(ttl, 0),
        other => panic!("{:?}", other),
    }
}

#[test]
fn set_option_errors() {
    let e = parse(&["SET", "k", "v", "EX", "abc"]).unwrap_err();
    assert_eq!(e, CommandError::InvalidNumber(NumberError::InvalidDigit));
    assert_eq!(e.message(), "invalid digit found in string");
    let e = parse(&["SET", "k", "v", "PX"]).unwrap_err();
    assert_eq!(e, CommandError::InvalidNumber(NumberError::Empty));
    assert_eq!(e.message(), "cannot parse integer from empty string");
    let e = parse(&["SET", "k", "v", "EX", "18446744073709552"]).unwrap_err();
    assert_eq!(e, CommandError::TtlOverflow);
    assert_eq!(e.message(), "attempt to multiply with overflow");
    let e = parse(&["SET", "k", "v", "PX", "18446744073709551616"]).unwrap_err();
    assert_eq!(e, CommandError::InvalidNumber(NumberError::PosOverflow));
    assert_eq!(e.message(), "number too large to fit in target type");
}

#[test]
fn get_and_llen_and_type() {
    assert!(matches!(parse(&["GET", "k"]), Ok(Command::Get(k)) if k == "k"));
    assert!(matches!(parse(&["LLEN", "l"]), Ok(Command::Llen(k)) if k == "l"));
    assert!(matches!(parse(&["TYPE", "t"]), Ok(Command::Type(k)) if k == "t"));
    assert_eq!(
        parse(&["GET"]).unwrap_err(),
        CommandError::WrongArgCount { actual: 1, expected: 2 }
    );
    assert_eq!(
        parse(&["TYPE", "a", "b"]).unwrap_err(),
        CommandError::WrongArgCount { actual: 3, expected: 2 }
    );
}

#[test]
fn push_commands_keep_values_in_order() {
    match parse(&["LPUSH", "l", "a", "b"]) {
        Ok(Command::Lpush(k, vs)) => {
            assert_eq!(k, "l");
            assert_eq!(vs, vec!["a".to_string(), "b".to_string()]);
        }
        other => panic!("{:?}", other),
    }
    match parse(&["rpush", "l", "c"]) {
        Ok(Command::Rpush(k, vs)) => {
            assert_eq!(k, "l");
            assert_eq!(vs, vec!["c".to_string()]);
        }
        other => panic!("{:?}", other),
    }
    assert_eq!(
        parse(&["RPUSH", "l"]).unwrap_err(),
        CommandError::TooFewArgs { actual: 2, minimum: 3 }
    );
}

#[test]
fn lrange_reads_signed_indexes() {
    match parse(&["LRANGE", "l", "0", "-1"]) {
        Ok(Command::Lrange(k, a, b)) => {
            assert_eq!(k, "l");
            assert_eq!(a, 0);
            assert_eq!(b, -1);
        }
        other => panic!("{:?}", other),
    }
    assert_eq!(
        parse(&["LRANGE", "l", "x", "1"]).unwrap_err(),
        CommandError::InvalidNumber(NumberError::InvalidDigit)
    );
    assert_eq!(
        parse(&["LRANGE", "l", "0"]).unwrap_err(),
        CommandError::WrongArgCount { actual: 3, expected: 4 }
    );
}

#[test]
fn lpop_count() {
    assert!(matches!(parse(&["LPOP", "l"]), Ok(Command::Lpop(k, 1)) if k == "l"));
    assert!(matches!(parse(&["LPOP", "l", "3"]), Ok(Command::Lpop(_, 3))));
    let e = parse(&["LPOP", "l", "0"]).unwrap_err();
    assert_eq!(e, CommandError::ZeroCount);
    assert_eq!(e.message(), "Condition failed: `n >= 1` (0 vs 1)");
    let e = parse(&["LPOP"]).unwrap_err();
    assert_eq!(e, CommandError::PopArgCount);
    assert_eq!(e.message(), "Condition failed: `args.len() == 2 || args.len() == 3`");
    assert_eq!(
        parse(&["LPOP", "l", "-1"]).unwrap_err(),
        CommandError::InvalidNumber(NumberError::InvalidDigit)
    );
}

#[test]
fn blocking_and_stream_commands() {
    match parse(&["BLPOP", "l", "0.5"]) {
        Ok(Command::Blpop(k, t)) => {
            assert_eq!(k, "l");
            assert_eq!(t, "0.5");
        }
        other => panic!("{:?}", other),
    }
    match parse(&["XADD", "s", "1-1", "f", "v"]) {
        Ok(Command::XAdd(k, id, vs)) => {
            assert_eq!(k, "s");
            assert_eq!(id, "1-1");
            assert_eq!(vs, vec!["f".to_string(), "v".to_string()]);
        }
        other => panic!("{:?}", other),
    }
    match parse(&["XRANGE", "s", "-", "+"]) {
        Ok(Command::XRange(k, a, b)) => {
            assert_eq!(k, "s");
            assert_eq!(a, "-");
            assert_eq!(b, "+");
        }
        other => panic!("{:?}", other),
    }
    assert_eq!(
        parse(&["BLPOP", "l"]).unwrap_err(),
        CommandError::WrongArgCount { actual: 2, expected: 3 }
    );
}

#[test]
fn unknown_names_are_other() {
    assert!(matches!(parse(&["FLUSHALL"]), Ok(Command::Other)));
}

#[test]
fn requests_that_are_not_commands() {
    let e = Command::from(DataType::SimpleString("PING".to_string())).unwrap_err();
    assert_eq!(e, CommandError::NotArray);
    assert_eq!(e.message(), "unknow command");
    let e = Command::from(DataType::Array(vec![DataType::Integer(1)])).unwrap_err();
    assert_eq!(e, CommandError::NoArguments);
    assert_eq!(e.message(), "Condition failed: `args.len() > 0` (0 vs 0)");
}

#[test]
fn only_bulk_strings_count_as_arguments() {
    let req = DataType::Array(vec![
        DataType::Integer(1),
        DataType::BulkString("ECHO".to_string()),
        DataType::SimpleString("skipped".to_string()),
        DataType::BulkString("x".to_string()),
    ]);
    match Command::from(req) {
        Ok(Command::Echo(s)) => assert_eq!(s, "x"),
        other => panic!("{:?}", other),
    }
}

#[test]
fn from_args_uses_the_given_upper_case_forms() {
    let args = vec!["get".to_string(), "k".to_string()];
    let upper = vec!["GET".to_string(), "K".to_string()];
    assert!(matches!(Command::from_args(args, upper), Ok(Command::Get(k)) if k == "k"));
}
