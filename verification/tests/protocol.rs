use redis_lite::protocol::data_type::DataType;
use redis_lite::protocol::decode::DecodeError;
use redis_lite::text::NumberError;

fn s(t: &str) -> String {
    t.to_string()
}

fn bulk(t: &str) -> DataType {
    DataType::BulkString(s(t))
}

#[test]
fn simple_string_serializes() {
    let v = DataType::SimpleString(s("OK"));
    assert_eq!(v.serialize(), b"+OK\r\n".to_vec());
}

#[test]
fn each_kind_serializes() {
    assert_eq!(DataType::SimpleError(s("ERR x")).serialize(), b"-ERR x\r\n".to_vec());
    assert_eq!(DataType::Integer(-42).serialize(), b":-42\r\n".to_vec());
    assert_eq!(DataType::Integer(i64::MIN).serialize(), b":-9223372036854775808\r\n".to_vec());
    assert_eq!(bulk("hello").serialize(), b"$5\r\nhello\r\n".to_vec());
    assert_eq!(DataType::NullBulkString.serialize(), b"$-1\r\n".to_vec());
    assert_eq!(DataType::BulkError(s("oops")).serialize(), b"!4\r\noops\r\n".to_vec());
    assert_eq!(DataType::NullBulkArray.serialize(), b"*-1\r\n".to_vec());
    assert_eq!(DataType::Null.serialize(), b"_\r\n".to_vec());
    assert_eq!(DataType::Boolean(true).serialize(), b"#t\r\n".to_vec());
    assert_eq!(DataType::Boolean(false).serialize(), b"#f\r\n".to_vec());
    assert_eq!(DataType::Double(s("1.5")).serialize(), b",1.5\r\n".to_vec());
    assert_eq!(
        DataType::VerbatimString(s("txt"), s("hi")).serialize(),
        b"=6\r\ntxt:hi\r\n".to_vec()
    );
}

#[test]
fn bulk_string_length_counts_bytes() {
    assert_eq!(bulk("é").serialize(), "$2\r\né\r\n".as_bytes().to_vec());
}

#[test]
fn aggregates_serialize() {
    let arr = DataType::Array(vec![bulk("a"), DataType::Integer(1)]);
    assert_eq!(arr.serialize(), b"*2\r\n$1\r\na\r\n:1\r\n".to_vec());
    let empty = DataType::Array(vec![]);
    assert_eq!(empty.serialize(), b"*0\r\n".to_vec());
    let map = DataType::Dictionary(vec![(DataType::SimpleString(s("k")), DataType::Integer(7))]);
    assert_eq!(map.serialize(), b"%1\r\n+k\r\n:7\r\n".to_vec());
    let attr = DataType::Attribute(vec![(DataType::SimpleString(s("k")), DataType::Integer(7))]);
    assert_eq!(attr.serialize(), b"|1\r\n+k\r\n:7\r\n".to_vec());
    let set = DataType::SetOf(vec![DataType::Integer(1), DataType::Integer(2)]);
    assert_eq!(set.serialize(), b"~2\r\n:1\r\n:2\r\n".to_vec());
    let push = DataType::Push(vec![DataType::Boolean(true)]);
    assert_eq!(push.serialize(), b">1\r\n#t\r\n".to_vec());
}

#[test]
fn big_number_serializes_with_padding() {
    let n = DataType::BigNumber(true, vec![234567890, 345678901, 12]);
    assert_eq!(n.serialize(), b"(12345678901234567890\r\n".to_vec());
    let m = DataType::BigNumber(false, vec![5, 1]);
    assert_eq!(m.serialize(), b"(-1000000005\r\n".to_vec());
    let z = DataType::BigNumber(true, vec![0]);
    assert_eq!(z.serialize(), b"(0\r\n".to_vec());
    assert_eq!(DataType::BigNumber(false, vec![0, 0]).serialize(), b"(-0\r\n".to_vec());
    assert_eq!(DataType::BigNumber(true, vec![]).serialize(), b"(0\r\n".to_vec());
}

fn read(buf: &[u8]) -> Result<(DataType, usize), DecodeError> {
    DataType::deserialize(buf)
}

#[test]
fn deserialize_simple_values() {
    assert_eq!(read(b"+OK\r\n"), Ok((DataType::SimpleString(s("OK")), 5)));
    assert_eq!(read(b"-ERR bad\r\n"), Ok((DataType::SimpleError(s("ERR bad")), 10)));
    assert_eq!(read(b":-12\r\n"), Ok((DataType::Integer(-12), 6)));
    assert_eq!(read(b"#t\r\n"), Ok((DataType::Boolean(true), 4)));
    assert_eq!(read(b"#f\r\n"), Ok((DataType::Boolean(false), 4)));
    assert_eq!(read(b",2.5\r\n"), Ok((DataType::Double(s("2.5")), 6)));
    assert_eq!(read(b"$-1\r\n"), Ok((DataType::NullBulkString, 5)));
    assert_eq!(read(b"*-1\r\n"), Ok((DataType::NullBulkArray, 5)));
}

#[test]
fn deserialize_reports_bytes_taken_and_leaves_the_rest() {
    assert_eq!(read(b"+OK\r\n+NEXT\r\n"), Ok((DataType::SimpleString(s("OK")), 5)));
}

#[test]
fn deserialize_payloads() {
    assert_eq!(read(b"$5\r\nhello\r\n"), Ok((bulk("hello"), 11)));
    assert_eq!(read(b"!3\r\nbad\r\n"), Ok((DataType::BulkError(s("bad")), 9)));
    assert_eq!(
        read(b"=8\r\ntxt:a:bc\r\n"),
        Ok((DataType::VerbatimString(s("txt"), s("a:bc")), 14))
    );
}

#[test]
fn deserialize_aggregates() {
    let r = read(b"*2\r\n$4\r\nECHO\r\n$2\r\nhi\r\n").unwrap();
    assert_eq!(r, (DataType::Array(vec![bulk("ECHO"), bulk("hi")]), 22));
    let r = read(b">1\r\n:3\r\n").unwrap();
    assert_eq!(r, (DataType::Push(vec![DataType::Integer(3)]), 8));
    let r = read(b"*0\r\n").unwrap();
    assert_eq!(r, (DataType::Array(vec![]), 4));
}

#[test]
fn deserialize_map_keeps_first_place_and_last_value() {
    let r = read(b"%3\r\n+a\r\n:1\r\n+b\r\n:2\r\n+a\r\n:3\r\n").unwrap();
    match r.0 {
        DataType::Dictionary(entries) => {
            assert_eq!(entries.len(), 2);
            assert_eq!(entries[0], (DataType::SimpleString(s("a")), DataType::Integer(3)));
            assert_eq!(entries[1], (DataType::SimpleString(s("b")), DataType::Integer(2)));
        }
        other => panic!("not a map: {:?}", other),
    }
    assert_eq!(r.1, 28);
    let r = read(b"|1\r\n+k\r\n#t\r\n").unwrap();
    assert_eq!(
        r,
        (DataType::Attribute(vec![(DataType::SimpleString(s("k")), DataType::Boolean(true))]), 12)
    );
}

#[test]
fn deserialize_set_drops_repeated_members() {
    let r = read(b"~3\r\n:1\r\n:2\r\n:1\r\n").unwrap();
    match r.0 {
        DataType::SetOf(members) => {
            assert_eq!(members, vec![DataType::Integer(1), DataType::Integer(2)]);
        }
        other => panic!("not a set: {:?}", other),
    }
    assert_eq!(r.1, 16);
}

#[test]
fn deserialize_big_numbers() {
    let r = read(b"(12345678901234567890\r\n").unwrap();
    match r.0 {
        DataType::BigNumber(p, chunks) => {
            assert!(p);
            assert_eq!(chunks, vec![234567890, 345678901, 12]);
        }
        other => panic!("not a big number: {:?}", other),
    }
    let r = read(b"(-1000000005\r\n").unwrap();
    match r.0 {
        DataType::BigNumber(p, chunks) => {
            assert!(!p);
            assert_eq!(chunks, vec![5, 1]);
        }
        other => panic!("not a big number: {:?}", other),
    }
}

#[test]
fn deserialize_errors() {
    assert_eq!(read(b"+OK\r"), Err(DecodeError::Incomplete));
    assert_eq!(read(b""), Err(DecodeError::Incomplete));
    assert_eq!(read(b"+\r\n"), Err(DecodeError::ShortLine));
    assert_eq!(read(b"_\r\n"), Err(DecodeError::ShortLine));
    assert_eq!(read(b"#x\r\n"), Err(DecodeError::InvalidBoolean));
    assert_eq!(read(b"?ab\r\n"), Err(DecodeError::UnknownLead));
    assert_eq!(read(b"$0\r\n\r\n"), Err(DecodeError::EmptyPayload));
    assert_eq!(read(b"$3\r\nabcd\r\n"), Err(DecodeError::MissingCrlf));
    assert_eq!(read(b"$3\r\nab"), Err(DecodeError::Incomplete));
    assert_eq!(read(b"=5\r\ntxtab\r\n"), Err(DecodeError::MissingColon));
    assert_eq!(read(b":abc\r\n"), Err(DecodeError::InvalidNumber(NumberError::InvalidDigit)));
    assert_eq!(
        read(b":9223372036854775808\r\n"),
        Err(DecodeError::InvalidNumber(NumberError::PosOverflow))
    );
    assert_eq!(read(b"*x\r\n"), Err(DecodeError::InvalidNumber(NumberError::InvalidDigit)));
    assert_eq!(read(b"*2\r\n:1\r\n"), Err(DecodeError::Incomplete));
    assert_eq!(read(b"+\xff\xfe\r\n"), Err(DecodeError::InvalidText));
    assert_eq!(read(b"$2\r\n\xff\xfe\r\n"), Err(DecodeError::InvalidText));
}

#[test]
fn encoding_reads_back() {
    let v = DataType::Array(vec![
        bulk("SET"),
        DataType::Dictionary(vec![(DataType::Integer(1), DataType::VerbatimString(s("txt"), s("x")))]),
        DataType::SetOf(vec![DataType::Boolean(false), DataType::NullBulkString]),
        DataType::BigNumber(false, vec![7]),
        DataType::Push(vec![DataType::BulkError(s("e")), DataType::Double(s("-inf"))]),
    ]);
    let bytes = v.serialize();
    let mut with_rest = bytes.clone();
    with_rest.extend_from_slice(b"+more\r\n");
    let (back, n) = read(&with_rest).unwrap();
    assert_eq!(n, bytes.len());
    assert_eq!(back.serialize(), bytes);
    assert_eq!(back, v);
}

#[test]
fn equality_compares_encodings() {
    assert_eq!(bulk("a"), bulk("a"));
    assert_ne!(bulk("a"), DataType::SimpleString(s("a")));
    assert_ne!(DataType::Integer(1), DataType::Integer(2));
}

#[test]
fn display_texts() {
    assert_eq!(DataType::SimpleString(s("OK")).to_string(), "OK");
    assert_eq!(DataType::SimpleError(s("ERR")).to_string(), "-ERR");
    assert_eq!(DataType::Integer(-5).to_string(), "-5");
    assert_eq!(bulk("hi").to_string(), "hi");
    assert_eq!(DataType::NullBulkString.to_string(), "$NULL");
    assert_eq!(DataType::BulkError(s("bad")).to_string(), "!bad");
    assert_eq!(DataType::NullBulkArray.to_string(), "*NULL");
    assert_eq!(DataType::Null.to_string(), "NULL");
    assert_eq!(DataType::Boolean(true).to_string(), "true");
    assert_eq!(DataType::Boolean(false).to_string(), "false");
    assert_eq!(DataType::Double(s("1.5")).to_string(), "1.5");
    assert_eq!(DataType::VerbatimString(s("txt"), s("a")).to_string(), "txt:a");
}

#[test]
fn display_aggregates() {
    let arr = DataType::Array(vec![bulk("a"), DataType::Integer(2)]);
    assert_eq!(arr.to_string(), "[a 2]");
    assert_eq!(DataType::Array(vec![]).to_string(), "[]");
    assert_eq!(DataType::Push(vec![bulk("x")]).to_string(), "[x]");
    let map = DataType::Dictionary(vec![
        (bulk("a"), DataType::Integer(1)),
        (bulk("b"), DataType::Integer(2)),
    ]);
    assert_eq!(map.to_string(), "{%a:1 b:2}");
    assert_eq!(DataType::Dictionary(vec![]).to_string(), "{}");
    assert_eq!(DataType::Attribute(vec![(bulk("k"), bulk("v"))]).to_string(), "{%k:v}");
    let set = DataType::SetOf(vec![DataType::Integer(1), DataType::Integer(2)]);
    assert_eq!(set.to_string(), "[%1 2]");
    assert_eq!(DataType::SetOf(vec![]).to_string(), "[]");
}

#[test]
fn display_big_number_pads_inner_chunks() {
    assert_eq!(DataType::BigNumber(true, vec![234567890, 345678901, 12]).to_string(), "12345678901234567890");
    assert_eq!(DataType::BigNumber(false, vec![5, 1]).to_string(), "-1000000005");
    assert_eq!(DataType::BigNumber(false, vec![1, 2]).to_string(), "-2000000001");
    assert_eq!(DataType::BigNumber(true, vec![0]).to_string(), "0");
    assert_eq!(DataType::BigNumber(false, vec![]).to_string(), "-0");
}

#[test]
fn big_number_zero_reads_back() {
    let z = DataType::BigNumber(true, vec![0]);
    let bytes = z.serialize();
    assert_eq!(read(&bytes), Ok((DataType::BigNumber(true, vec![0]), 4)));
    match read(b"(0\r\n").unwrap().0 {
        DataType::BigNumber(p, chunks) => {
            assert!(p);
            assert_eq!(chunks, vec![0]);
        }
        other => panic!("not a big number: {:?}", other),
    }
}

#[test]
fn big_number_chunks_stand_for_the_value() {
    let text = "987654321012345678901234";
    let bytes = format!("({text}\r\n").into_bytes();
    match read(&bytes).unwrap().0 {
        DataType::BigNumber(true, chunks) => {
            assert!(chunks.iter().all(|c| *c < 1_000_000_000));
            assert_eq!(chunks.len(), (text.len() + 8) / 9);
            let mut value: u128 = 0;
            for c in chunks.iter().rev() {
                value = value * 1_000_000_000 + *c as u128;
            }
            assert_eq!(value, text.parse::<u128>().unwrap());
        }
        other => panic!("not a big number: {:?}", other),
    }
}

#[test]
fn bytes_after_a_complete_value_change_nothing() {
    let cases: [&[u8]; 4] = [b"+OK\r\n", b"$3\r\nabc\r\n", b"*2\r\n:1\r\n#t\r\n", b"%1\r\n+k\r\n(-5\r\n"];
    for c in cases {
        let alone = read(c);
        assert!(alone.is_ok());
        let mut longer = c.to_vec();
        longer.extend_from_slice(b"$5\r\nextra\r\n*1\r");
        assert_eq!(read(&longer), alone);
    }
}

#[test]
fn big_number_serializes_its_decimal_value() {
    let chunks = vec![999_999_999, 0, 7];
    let value: u128 = 7 * 1_000_000_000u128 * 1_000_000_000 + 999_999_999;
    let v = DataType::BigNumber(false, chunks);
    assert_eq!(v.serialize(), format!("(-{value}\r\n").into_bytes());
    assert_eq!(v.to_string(), format!("-{value}"));
}

fn total_eq<T: Eq>(a: &T, b: &T) -> bool {
    a == b
}

#[test]
fn data_type_is_eq() {
    assert!(total_eq(&bulk("a"), &bulk("a")));
    assert!(!total_eq(&bulk("a"), &bulk("b")));
}
