//! Commands, as a client sends them: an array whose bulk strings are the
//! command name and its arguments.
use vstd::prelude::*;
use vstd::utf8::{decode_utf8, encode_utf8, valid_utf8};
use crate::protocol::data_type::{DataType, Resp, model_seq, lemma_model_seq_len};
use crate::text::{
    NumberError, number_error_text, parse_u64_spec, parse_i64_spec, parse_usize_spec, parse_u64,
    parse_i64, parse_usize, uppercase, to_uppercase, same_text, decimal, fmt_u128, text_bytes,
    text_of_valid, lemma_decimal_valid, lemma_parse_bounds, texts,
};

verus! {

broadcast use vstd::utf8::encode_utf8_valid_utf8, vstd::utf8::valid_utf8_concat;

/// A request to the server.
///
/// `Blpop` carries its timeout in seconds as the text the client sent; it is
/// read as a floating-point number where the wait is carried out.
#[derive(Debug)]
pub enum Command {
    Ping,
    Echo(String),
    SetString(String, String, u64),
    Get(String),
    Lpush(String, Vec<String>),
    Rpush(String, Vec<String>),
    Lrange(String, i64, i64),
    Llen(String),
    Lpop(String, usize),
    Blpop(String, String),
    Type(String),
    XAdd(String, String, Vec<String>),
    XRange(String, String, String),
    Other,
}

/// The model of a command.
pub enum CommandView {
    Ping,
    Echo(Seq<char>),
    SetString(Seq<char>, Seq<char>, u64),
    Get(Seq<char>),
    Lpush(Seq<char>, Seq<Seq<char>>),
    Rpush(Seq<char>, Seq<Seq<char>>),
    Lrange(Seq<char>, i64, i64),
    Llen(Seq<char>),
    Lpop(Seq<char>, usize),
    Blpop(Seq<char>, Seq<char>),
    Type(Seq<char>),
    XAdd(Seq<char>, Seq<char>, Seq<Seq<char>>),
    XRange(Seq<char>, Seq<char>, Seq<char>),
    Other,
}

impl Command {
    pub open spec fn view(&self) -> CommandView {
        match self {
            Command::Ping => CommandView::Ping,
            Command::Echo(s) => CommandView::Echo(s@),
            Command::SetString(k, v, t) => CommandView::SetString(k@, v@, *t),
            Command::Get(k) => CommandView::Get(k@),
            Command::Lpush(k, vs) => CommandView::Lpush(k@, texts(vs@)),
            Command::Rpush(k, vs) => CommandView::Rpush(k@, texts(vs@)),
            Command::Lrange(k, a, b) => CommandView::Lrange(k@, *a, *b),
            Command::Llen(k) => CommandView::Llen(k@),
            Command::Lpop(k, n) => CommandView::Lpop(k@, *n),
            Command::Blpop(k, t) => CommandView::Blpop(k@, t@),
            Command::Type(k) => CommandView::Type(k@),
            Command::XAdd(k, id, vs) => CommandView::XAdd(k@, id@, texts(vs@)),
            Command::XRange(k, a, b) => CommandView::XRange(k@, a@, b@),
            Command::Other => CommandView::Other,
        }
    }
}

/// Why a request is not a command.
#[derive(Clone, Copy, Debug, PartialEq, Eq, Structural)]
pub enum CommandError {
    /// The request is not an array.
    NotArray,
    /// The request holds no bulk string.
    NoArguments,
    /// The command takes exactly `expected` strings, name included.
    WrongArgCount { actual: usize, expected: usize },
    /// The command takes at least `minimum` strings, name included.
    TooFewArgs { actual: usize, minimum: usize },
    /// `LPOP` takes a key and at most a count.
    PopArgCount,
    /// `LPOP` with a count of zero.
    ZeroCount,
    /// An argument that should be an integer is not one.
    InvalidNumber(NumberError),
    /// `SET ... EX` with a number of seconds whose milliseconds do not fit
    /// in 64 bits; the server gives up on the connection.
    TtlOverflow,
}

/// The message of an error, as UTF-8 bytes.
pub open spec fn command_error_bytes(e: CommandError) -> Seq<u8> {
    match e {
        CommandError::NotArray => encode_utf8("unknow command"@),
        CommandError::NoArguments => encode_utf8("Condition failed: `args.len() > 0` (0 vs 0)"@),
        CommandError::WrongArgCount { actual, expected } => encode_utf8(
            "Condition failed: `args.len() == "@,
        ) + decimal(expected as nat) + encode_utf8("` ("@) + decimal(actual as nat)
            + encode_utf8(" vs "@) + decimal(expected as nat) + encode_utf8(")"@),
        CommandError::TooFewArgs { actual, minimum } => encode_utf8(
            "Condition failed: `args.len() >= "@,
        ) + decimal(minimum as nat) + encode_utf8("` ("@) + decimal(actual as nat)
            + encode_utf8(" vs "@) + decimal(minimum as nat) + encode_utf8(")"@),
        CommandError::PopArgCount => encode_utf8(
            "Condition failed: `args.len() == 2 || args.len() == 3`"@,
        ),
        CommandError::ZeroCount => encode_utf8("Condition failed: `n >= 1` (0 vs 1)"@),
        CommandError::InvalidNumber(n) => encode_utf8(number_error_text(n)),
        CommandError::TtlOverflow => encode_utf8("attempt to multiply with overflow"@),
    }
}

impl CommandError {
    /// The message a client receives for this error.
    pub fn message(&self) -> (r: String)
        ensures
            encode_utf8(r@) == command_error_bytes(*self),
    {
        let bytes = self.message_bytes();
        text_of_valid(bytes)
    }

    fn message_bytes(&self) -> (r: Vec<u8>)
        ensures
            r@ == command_error_bytes(*self),
            valid_utf8(r@),
    {
        match self {
            CommandError::NotArray => text_bytes("unknow command"),
            CommandError::NoArguments => text_bytes("Condition failed: `args.len() > 0` (0 vs 0)"),
            CommandError::WrongArgCount { actual, expected } => count_message(
                "Condition failed: `args.len() == ",
                *actual,
                *expected,
            ),
            CommandError::TooFewArgs { actual, minimum } => count_message(
                "Condition failed: `args.len() >= ",
                *actual,
                *minimum,
            ),
            CommandError::PopArgCount => text_bytes(
                "Condition failed: `args.len() == 2 || args.len() == 3`",
            ),
            CommandError::ZeroCount => text_bytes("Condition failed: `n >= 1` (0 vs 1)"),
            CommandError::InvalidNumber(n) => {
                let m = n.message();
                text_bytes(m.as_str())
            },
            CommandError::TtlOverflow => text_bytes("attempt to multiply with overflow"),
        }
    }
}

/// `{prefix}{bound}` (`{actual}` vs `{bound}`)
fn count_message(prefix: &str, actual: usize, bound: usize) -> (r: Vec<u8>)
    ensures
        r@ == encode_utf8(prefix@) + decimal(bound as nat) + encode_utf8("` ("@) + decimal(
            actual as nat,
        ) + encode_utf8(" vs "@) + decimal(bound as nat) + encode_utf8(")"@),
        valid_utf8(r@),
{
    let mut out = text_bytes(prefix);
    let mut b1 = fmt_u128(bound as u128);
    let mut s1 = text_bytes("` (");
    let mut a = fmt_u128(actual as u128);
    let mut s2 = text_bytes(" vs ");
    let mut b2 = fmt_u128(bound as u128);
    let mut s3 = text_bytes(")");
    proof {
        lemma_decimal_valid(bound as nat);
        lemma_decimal_valid(actual as nat);
    }
    let ghost g0 = out@;
    out.append(&mut b1);
    let ghost g1 = out@;
    out.append(&mut s1);
    let ghost g2 = out@;
    out.append(&mut a);
    let ghost g3 = out@;
    out.append(&mut s2);
    let ghost g4 = out@;
    out.append(&mut b2);
    let ghost g5 = out@;
    out.append(&mut s3);
    proof {
        assert(valid_utf8(g1));
        assert(valid_utf8(g2));
        assert(valid_utf8(g3));
        assert(valid_utf8(g4));
        assert(valid_utf8(g5));
        assert(valid_utf8(out@));
    }
    out
}

/// The bulk strings of a request, in order.
pub open spec fn bulk_args(items: Seq<Resp>) -> Seq<Seq<char>>
    decreases items.len(),
{
    if items.len() == 0 {
        seq![]
    } else {
        bulk_args(items.drop_last()) + match items.last() {
            Resp::BulkString(s) => seq![s],
            _ => seq![],
        }
    }
}

/// The options of `SET key value [...]`, read from the last argument back
/// to the fourth: a number followed by `PX` sets the time to live in
/// milliseconds, one followed by `EX` in seconds. `i` is the number of
/// arguments not yet read, `prev` the argument read last.
pub open spec fn set_ttl(
    args: Seq<Seq<char>>,
    upper: Seq<Seq<char>>,
    i: int,
    ttl: u64,
    prev: Seq<char>,
) -> Result<u64, CommandError>
    decreases i,
{
    if i <= 3 {
        Ok(ttl)
    } else if upper[i - 1] == "PX"@ {
        match parse_u64_spec(encode_utf8(prev)) {
            Err(e) => Err(CommandError::InvalidNumber(e)),
            Ok(v) => set_ttl(args, upper, i - 1, v as u64, seq![]),
        }
    } else if upper[i - 1] == "EX"@ {
        match parse_u64_spec(encode_utf8(prev)) {
            Err(e) => Err(CommandError::InvalidNumber(e)),
            Ok(v) => if v * 1000 > u64::MAX {
                Err(CommandError::TtlOverflow)
            } else {
                set_ttl(args, upper, i - 1, (v * 1000) as u64, seq![])
            },
        }
    } else {
        set_ttl(args, upper, i - 1, ttl, args[i - 1])
    }
}

/// The command named by the strings `args`, whose upper-case forms are
/// `upper`.
pub open spec fn command_of(args: Seq<Seq<char>>, upper: Seq<Seq<char>>) -> Result<
    CommandView,
    CommandError,
> {
    let n = args.len();
    if n == 0 {
        Err(CommandError::NoArguments)
    } else {
        let name = upper[0];
        if name == "PING"@ {
            Ok(CommandView::Ping)
        } else if name == "ECHO"@ {
            if n != 2 {
                Err(CommandError::WrongArgCount { actual: n as usize, expected: 2 })
            } else {
                Ok(CommandView::Echo(args[1]))
            }
        } else if name == "SET"@ {
            if n < 3 {
                Err(CommandError::TooFewArgs { actual: n as usize, minimum: 3 })
            } else {
                match set_ttl(args, upper, n as int, 0, seq![]) {
                    Ok(ttl) => Ok(CommandView::SetString(args[1], args[2], ttl)),
                    Err(e) => Err(e),
                }
            }
        } else if name == "GET"@ {
            if n != 2 {
                Err(CommandError::WrongArgCount { actual: n as usize, expected: 2 })
            } else {
                Ok(CommandView::Get(args[1]))
            }
        } else if name == "LPUSH"@ {
            if n < 3 {
                Err(CommandError::TooFewArgs { actual: n as usize, minimum: 3 })
            } else {
                Ok(CommandView::Lpush(args[1], args.subrange(2, n as int)))
            }
        } else if name == "RPUSH"@ {
            if n < 3 {
                Err(CommandError::TooFewArgs { actual: n as usize, minimum: 3 })
            } else {
                Ok(CommandView::Rpush(args[1], args.subrange(2, n as int)))
            }
        } else if name == "LRANGE"@ {
            if n != 4 {
                Err(CommandError::WrongArgCount { actual: n as usize, expected: 4 })
            } else {
                match parse_i64_spec(encode_utf8(args[3])) {
                    Err(e) => Err(CommandError::InvalidNumber(e)),
                    Ok(stop) => match parse_i64_spec(encode_utf8(args[2])) {
                        Err(e) => Err(CommandError::InvalidNumber(e)),
                        Ok(start) => Ok(CommandView::Lrange(args[1], start as i64, stop as i64)),
                    },
                }
            }
        } else if name == "LLEN"@ {
            if n != 2 {
                Err(CommandError::WrongArgCount { actual: n as usize, expected: 2 })
            } else {
                Ok(CommandView::Llen(args[1]))
            }
        } else if name == "LPOP"@ {
            if n != 2 && n != 3 {
                Err(CommandError::PopArgCount)
            } else {
                let count: Result<int, NumberError> = if n == 2 {
                    Ok(1)
                } else {
                    parse_usize_spec(encode_utf8(args[2]))
                };
                match count {
                    Err(e) => Err(CommandError::InvalidNumber(e)),
                    Ok(c) => if c < 1 {
                        Err(CommandError::ZeroCount)
                    } else {
                        Ok(CommandView::Lpop(args[1], c as usize))
                    },
                }
            }
        } else if name == "BLPOP"@ {
            if n != 3 {
                Err(CommandError::WrongArgCount { actual: n as usize, expected: 3 })
            } else {
                Ok(CommandView::Blpop(args[1], args[2]))
            }
        } else if name == "TYPE"@ {
            if n != 2 {
                Err(CommandError::WrongArgCount { actual: n as usize, expected: 2 })
            } else {
                Ok(CommandView::Type(args[1]))
            }
        } else if name == "XADD"@ {
            if n < 3 {
                Err(CommandError::TooFewArgs { actual: n as usize, minimum: 3 })
            } else {
                Ok(CommandView::XAdd(args[1], args[2], args.subrange(3, n as int)))
            }
        } else if name == "XRANGE"@ {
            if n != 4 {
                Err(CommandError::WrongArgCount { actual: n as usize, expected: 4 })
            } else {
                Ok(CommandView::XRange(args[1], args[2], args[3]))
            }
        } else {
            Ok(CommandView::Other)
        }
    }
}

/// `r` is the executable outcome of `spec`.
pub open spec fn command_result(spec: Result<CommandView, CommandError>, r: Result<Command, CommandError>) -> bool {
    match spec {
        Ok(v) => r matches Ok(c) && c.view() == v,
        Err(e) => r == Err::<Command, CommandError>(e),
    }
}

/// The texts, each in upper case.
pub open spec fn uppercase_all(s: Seq<Seq<char>>) -> Seq<Seq<char>> {
    s.map_values(|x: Seq<char>| uppercase(x))
}

/// The command that a request names.
pub open spec fn command_from(r: Resp) -> Result<CommandView, CommandError> {
    match r {
        Resp::Array(items) => command_of(bulk_args(items), uppercase_all(bulk_args(items))),
        _ => Err(CommandError::NotArray),
    }
}

fn copy_text(s: &String) -> (r: String)
    ensures
        r@ == s@,
{
    s.clone()
}

fn copy_texts_from(v: &Vec<String>, start: usize) -> (r: Vec<String>)
    requires
        start <= v@.len(),
    ensures
        texts(r@) == texts(v@).subrange(start as int, v@.len() as int),
{
    let mut out: Vec<String> = Vec::new();
    let mut i: usize = start;
    while i < v.len()
        invariant
            start <= i <= v@.len(),
            texts(out@) =~= texts(v@).subrange(start as int, i as int),
        decreases v@.len() - i,
    {
        let ghost before = out@;
        let c = copy_text(&v[i]);
        out.push(c);
        proof {
            assert(out@ == before.push(c));
            assert(texts(out@).len() == texts(before).len() + 1);
            assert forall|k: int| 0 <= k < texts(out@).len() implies texts(out@)[k] == texts(
                v@,
            ).subrange(start as int, i + 1)[k] by {
                if k < texts(before).len() {
                    assert(texts(out@)[k] == out@[k]@);
                    assert(out@[k] == before[k]);
                    assert(texts(before)[k] == before[k]@);
                } else {
                    assert(texts(out@)[k] == c@);
                }
            }
        }
        i += 1;
        proof {
            assert(texts(out@) =~= texts(v@).subrange(start as int, i as int));
        }
    }
    out
}

/// The time to live given by the options of `SET`.
fn read_set_ttl(args: &Vec<String>, upper: &Vec<String>) -> (r: Result<u64, CommandError>)
    requires
        args@.len() == upper@.len(),
        args@.len() >= 3,
    ensures
        r == set_ttl(texts(args@), texts(upper@), args@.len() as int, 0, seq![]),
{
    let ghost a = texts(args@);
    let ghost u = texts(upper@);
    let mut ttl: u64 = 0;
    let mut prev = String::new();
    let mut i: usize = args.len();
    while i > 3
        invariant
            args@.len() == upper@.len(),
            3 <= i <= args@.len(),
            a == texts(args@),
            u == texts(upper@),
            set_ttl(a, u, args@.len() as int, 0, seq![]) == set_ttl(a, u, i as int, ttl, prev@),
        decreases i,
    {
        proof {
            assert(u[i - 1] == upper@[i - 1]@);
            assert(a[i - 1] == args@[i - 1]@);
            lemma_parse_bounds(encode_utf8(prev@), false, u64::MAX as int, 0);
        }
        if same_text(upper[i - 1].as_str(), "PX") {
            match parse_u64(prev.as_str().as_bytes()) {
                Err(e) => {
                    return Err(CommandError::InvalidNumber(e));
                },
                Ok(v) => {
                    ttl = v;
                    prev = String::new();
                },
            }
        } else if same_text(upper[i - 1].as_str(), "EX") {
            match parse_u64(prev.as_str().as_bytes()) {
                Err(e) => {
                    return Err(CommandError::InvalidNumber(e));
                },
                Ok(v) => {
                    if v > u64::MAX / 1000 {
                        proof {
                            assert(v * 1000 > u64::MAX) by (nonlinear_arith)
                                requires
                                    v > u64::MAX / 1000,
                            ;
                        }
                        return Err(CommandError::TtlOverflow);
                    }
                    proof {
                        assert(v * 1000 <= u64::MAX) by (nonlinear_arith)
                            requires
                                v <= u64::MAX / 1000,
                        ;
                    }
                    ttl = v * 1000;
                    prev = String::new();
                },
            }
        } else {
            prev = copy_text(&args[i - 1]);
        }
        i -= 1;
    }
    Ok(ttl)
}

fn parse_arg_i64(s: &String) -> (r: Result<i64, CommandError>)
    ensures
        match parse_i64_spec(encode_utf8(s@)) {
            Ok(v) => r == Ok::<i64, CommandError>(v as i64),
            Err(e) => r == Err::<i64, CommandError>(CommandError::InvalidNumber(e)),
        },
{
    match parse_i64(s.as_str().as_bytes()) {
        Ok(v) => Ok(v),
        Err(e) => Err(CommandError::InvalidNumber(e)),
    }
}

impl Command {
    /// The command named by the strings `args`, given the upper-case form of
    /// each of them in `upper`.
    pub fn from_args(args: Vec<String>, upper: Vec<String>) -> (r: Result<Command, CommandError>)
        requires
            upper@.len() == args@.len(),
        ensures
            command_result(command_of(texts(args@), texts(upper@)), r),
    {
        let n = args.len();
        let ghost a = texts(args@);
        let ghost u = texts(upper@);
        proof {
            assert(a.len() == n);
            assert(u.len() == n);
            assert forall|k: int| 0 <= k < n implies a[k] == #[trigger] args@[k]@ && u[k]
                == upper@[k]@ by {}
            if n == 3 {
                lemma_parse_bounds(encode_utf8(a[2]), false, usize::MAX as int, 0);
            }
        }
        if n == 0 {
            return Err(CommandError::NoArguments);
        }
        let name = upper[0].as_str();
        if same_text(name, "PING") {
            Ok(Command::Ping)
        } else if same_text(name, "ECHO") {
            if n != 2 {
                Err(CommandError::WrongArgCount { actual: n, expected: 2 })
            } else {
                Ok(Command::Echo(copy_text(&args[1])))
            }
        } else if same_text(name, "SET") {
            if n < 3 {
                Err(CommandError::TooFewArgs { actual: n, minimum: 3 })
            } else {
                match read_set_ttl(&args, &upper) {
                    Ok(ttl) => Ok(Command::SetString(copy_text(&args[1]), copy_text(&args[2]), ttl)),
                    Err(e) => Err(e),
                }
            }
        } else if same_text(name, "GET") {
            if n != 2 {
                Err(CommandError::WrongArgCount { actual: n, expected: 2 })
            } else {
                Ok(Command::Get(copy_text(&args[1])))
            }
        } else if same_text(name, "LPUSH") {
            if n < 3 {
                Err(CommandError::TooFewArgs { actual: n, minimum: 3 })
            } else {
                Ok(Command::Lpush(copy_text(&args[1]), copy_texts_from(&args, 2)))
            }
        } else if same_text(name, "RPUSH") {
            if n < 3 {
                Err(CommandError::TooFewArgs { actual: n, minimum: 3 })
            } else {
                Ok(Command::Rpush(copy_text(&args[1]), copy_texts_from(&args, 2)))
            }
        } else if same_text(name, "LRANGE") {
            if n != 4 {
                Err(CommandError::WrongArgCount { actual: n, expected: 4 })
            } else {
                match parse_arg_i64(&args[3]) {
                    Err(e) => Err(e),
                    Ok(stop) => match parse_arg_i64(&args[2]) {
                        Err(e) => Err(e),
                        Ok(start) => Ok(Command::Lrange(copy_text(&args[1]), start, stop)),
                    },
                }
            }
        } else if same_text(name, "LLEN") {
            if n != 2 {
                Err(CommandError::WrongArgCount { actual: n, expected: 2 })
            } else {
                Ok(Command::Llen(copy_text(&args[1])))
            }
        } else if same_text(name, "LPOP") {
            if n != 2 && n != 3 {
                Err(CommandError::PopArgCount)
            } else {
                let count: usize = if n == 2 {
                    1
                } else {
                    match parse_usize(args[2].as_str().as_bytes()) {
                        Ok(c) => c,
                        Err(e) => {
                            return Err(CommandError::InvalidNumber(e));
                        },
                    }
                };
                if count < 1 {
                    Err(CommandError::ZeroCount)
                } else {
                    Ok(Command::Lpop(copy_text(&args[1]), count))
                }
            }
        } else if same_text(name, "BLPOP") {
            if n != 3 {
                Err(CommandError::WrongArgCount { actual: n, expected: 3 })
            } else {
                Ok(Command::Blpop(copy_text(&args[1]), copy_text(&args[2])))
            }
        } else if same_text(name, "TYPE") {
            if n != 2 {
                Err(CommandError::WrongArgCount { actual: n, expected: 2 })
            } else {
                Ok(Command::Type(copy_text(&args[1])))
            }
        } else if same_text(name, "XADD") {
            if n < 3 {
                Err(CommandError::TooFewArgs { actual: n, minimum: 3 })
            } else {
                Ok(
                    Command::XAdd(
                        copy_text(&args[1]),
                        copy_text(&args[2]),
                        copy_texts_from(&args, 3),
                    ),
                )
            }
        } else if same_text(name, "XRANGE") {
            if n != 4 {
                Err(CommandError::WrongArgCount { actual: n, expected: 4 })
            } else {
                Ok(
                    Command::XRange(
                        copy_text(&args[1]),
                        copy_text(&args[2]),
                        copy_text(&args[3]),
                    ),
                )
            }
        } else {
            Ok(Command::Other)
        }
    }

    /// The command a request names: the bulk strings of an array are the
    /// command name and its arguments; other elements are skipped.
    pub fn from(data: DataType) -> (r: Result<Command, CommandError>)
        ensures
            command_result(command_from(data.model()), r),
    {
        match data {
            DataType::Array(items) => {
                let ghost m = model_seq(items@);
                proof {
                    lemma_model_seq_len(items@);
                }
                let mut args: Vec<String> = Vec::new();
                let mut upper: Vec<String> = Vec::new();
                let mut i: usize = 0;
                while i < items.len()
                    invariant
                        i <= items@.len(),
                        m == model_seq(items@),
                        m.len() == items@.len(),
                        forall|j: int| 0 <= j < items@.len() ==> #[trigger] m[j] == items@[j].model(),
                        texts(args@) == bulk_args(m.subrange(0, i as int)),
                        texts(upper@) == uppercase_all(texts(args@)),
                    decreases items@.len() - i,
                {
                    proof {
                        assert(m.subrange(0, i + 1).drop_last() =~= m.subrange(0, i as int));
                    }
                    match &items[i] {
                        DataType::BulkString(s) => {
                            let ghost ba = args@;
                            let ghost bu = upper@;
                            let u = to_uppercase(s.as_str());
                            let c = copy_text(s);
                            args.push(c);
                            upper.push(u);
                            proof {
                                assert(texts(args@) =~= texts(ba).push(c@));
                                assert(texts(upper@) =~= texts(bu).push(u@));
                                assert(texts(args@) =~= bulk_args(m.subrange(0, i + 1)));
                                assert(texts(upper@) =~= uppercase_all(texts(args@)));
                            }
                        },
                        _ => {
                            proof {
                                assert(texts(args@) =~= bulk_args(m.subrange(0, i + 1)));
                            }
                        },
                    }
                    i += 1;
                }
                proof {
                    assert(m.subrange(0, items@.len() as int) =~= m);
                }
                Command::from_args(args, upper)
            },
            _ => Err(CommandError::NotArray),
        }
    }
}


/// Whether a word names an expiry option of `SET`.
pub open spec fn is_expiry_option(u: Seq<char>) -> bool {
    u == "PX"@ || u == "EX"@
}

proof fn lemma_ttl_without_options(
    args: Seq<Seq<char>>,
    upper: Seq<Seq<char>>,
    i: int,
    ttl: u64,
    prev: Seq<char>,
)
    requires
        i <= upper.len(),
        i <= args.len(),
        forall|m: int| 3 <= m < i ==> !is_expiry_option(#[trigger] upper[m]),
    ensures
        set_ttl(args, upper, i, ttl, prev) == Ok::<u64, CommandError>(ttl),
    decreases i,
{
    if i > 3 {
        assert(!is_expiry_option(upper[i - 1]));
        lemma_ttl_without_options(args, upper, i - 1, ttl, args[i - 1]);
    }
}

proof fn lemma_ttl_from_option(
    args: Seq<Seq<char>>,
    upper: Seq<Seq<char>>,
    j: int,
    i: int,
    ttl: u64,
    prev: Seq<char>,
)
    requires
        args.len() == upper.len(),
        3 <= j,
        j + 2 <= i <= upper.len(),
        is_expiry_option(upper[j]),
        !is_expiry_option(upper[j + 1]),
        forall|m: int| 3 <= m < j ==> !is_expiry_option(#[trigger] upper[m]),
    ensures
        set_ttl(args, upper, i, ttl, prev) matches Ok(t) ==> {
            &&& parse_u64_spec(encode_utf8(args[j + 1])) is Ok
            &&& t == (if upper[j] == "PX"@ {
                parse_u64_spec(encode_utf8(args[j + 1]))->Ok_0
            } else {
                parse_u64_spec(encode_utf8(args[j + 1]))->Ok_0 * 1000
            })
        },
    decreases i,
{
    if i == j + 2 {
        assert(!is_expiry_option(upper[j + 1]));
        assert(set_ttl(args, upper, i, ttl, prev) == set_ttl(args, upper, j + 1, ttl, args[j + 1]));
        match parse_u64_spec(encode_utf8(args[j + 1])) {
            Ok(v) => {
                if upper[j] == "PX"@ {
                    lemma_ttl_without_options(args, upper, j, v as u64, seq![]);
                } else if v * 1000 <= u64::MAX {
                    lemma_ttl_without_options(args, upper, j, (v * 1000) as u64, seq![]);
                }
                lemma_parse_bounds(encode_utf8(args[j + 1]), false, u64::MAX as int, 0);
            },
            Err(_) => {},
        }
    } else {
        match parse_u64_spec(encode_utf8(prev)) {
            Ok(v) => {
                lemma_ttl_from_option(args, upper, j, i - 1, v as u64, seq![]);
                if v * 1000 <= u64::MAX {
                    lemma_ttl_from_option(args, upper, j, i - 1, (v * 1000) as u64, seq![]);
                }
            },
            Err(_) => {},
        }
        lemma_ttl_from_option(args, upper, j, i - 1, ttl, args[i - 1]);
    }
}

/// The time to live of `SET key value ...` comes from the expiry option
/// nearest the value, `PX p` (`p` milliseconds) or `EX s` (`s * 1000`),
/// whatever other words stand around the options; with no expiry option it
/// is 0.
pub proof fn law_set_ttl(args: Seq<Seq<char>>, upper: Seq<Seq<char>>, j: int)
    requires
        args.len() == upper.len(),
        args.len() >= 3,
    ensures
        (forall|m: int| 3 <= m < args.len() ==> !is_expiry_option(#[trigger] upper[m]))
            ==> set_ttl(args, upper, args.len() as int, 0, seq![]) == Ok::<u64, CommandError>(0),
        3 <= j && j + 1 < args.len() && is_expiry_option(upper[j]) && !is_expiry_option(
            upper[j + 1],
        ) && (forall|m: int| 3 <= m < j ==> !is_expiry_option(#[trigger] upper[m])) ==> (set_ttl(
            args,
            upper,
            args.len() as int,
            0,
            seq![],
        ) matches Ok(t) ==> {
            &&& parse_u64_spec(encode_utf8(args[j + 1])) is Ok
            &&& t == (if upper[j] == "PX"@ {
                parse_u64_spec(encode_utf8(args[j + 1]))->Ok_0
            } else {
                parse_u64_spec(encode_utf8(args[j + 1]))->Ok_0 * 1000
            })
        }),
{
    if forall|m: int| 3 <= m < args.len() ==> !is_expiry_option(#[trigger] upper[m]) {
        lemma_ttl_without_options(args, upper, args.len() as int, 0, seq![]);
    }
    if 3 <= j && j + 1 < args.len() && is_expiry_option(upper[j]) && !is_expiry_option(upper[j + 1])
        && (forall|m: int| 3 <= m < j ==> !is_expiry_option(#[trigger] upper[m])) {
        lemma_ttl_from_option(args, upper, j, args.len() as int, 0, seq![]);
    }
}

} // verus!
