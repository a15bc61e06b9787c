//! RESP values and their wire encoding.
use vstd::prelude::*;
use vstd::utf8::encode_utf8;
use crate::text::{decimal, decimal_int, fmt_i64, fmt_u128, text_bytes, bytes_equal, lemma_decimal_digits};

verus! {

/// The mathematical model of a RESP value.
pub enum Resp {
    SimpleString(Seq<char>),
    SimpleError(Seq<char>),
    Integer(i64),
    BulkString(Seq<char>),
    NullBulkString,
    BulkError(Seq<char>),
    Array(Seq<Resp>),
    NullBulkArray,
    Null,
    Boolean(bool),
    Double(Seq<char>),
    BigNumber(bool, Seq<u32>),
    VerbatimString(Seq<char>, Seq<char>),
    Dictionary(Seq<(Resp, Resp)>),
    Attribute(Seq<(Resp, Resp)>),
    SetOf(Seq<Resp>),
    Push(Seq<Resp>),
}

/// A RESP value.
///
/// A `Double` carries the decimal text of the number as it travels on the
/// wire; the conversion between that text and a floating-point value is left
/// to the caller. A `BigNumber` holds its magnitude in base 10^9, least
/// significant chunk first. `Dictionary`, `Attribute` and `SetOf` keep their
/// entries in a `Vec`; the decoder fills them in the order in which keys are
/// first read and never with two keys whose encodings are equal
/// (`keys::law_decoded_keys_unique`). A value built by hand may hold equal
/// keys; it is then encoded with each of them.
#[derive(Debug, Eq)]
pub enum DataType {
    SimpleString(String),
    SimpleError(String),
    Integer(i64),
    BulkString(String),
    NullBulkString,
    BulkError(String),
    Array(Vec<DataType>),
    NullBulkArray,
    Null,
    Boolean(bool),
    Double(String),
    BigNumber(bool, Vec<u32>),
    VerbatimString(String, String),
    Dictionary(Vec<(DataType, DataType)>),
    Attribute(Vec<(DataType, DataType)>),
    SetOf(Vec<DataType>),
    Push(Vec<DataType>),
}

impl DataType {
    pub open spec fn model(self) -> Resp
        decreases self,
    {
        match self {
            DataType::SimpleString(s) => Resp::SimpleString(s@),
            DataType::SimpleError(s) => Resp::SimpleError(s@),
            DataType::Integer(i) => Resp::Integer(i),
            DataType::BulkString(s) => Resp::BulkString(s@),
            DataType::NullBulkString => Resp::NullBulkString,
            DataType::BulkError(s) => Resp::BulkError(s@),
            DataType::Array(v) => Resp::Array(model_seq(v@)),
            DataType::NullBulkArray => Resp::NullBulkArray,
            DataType::Null => Resp::Null,
            DataType::Boolean(b) => Resp::Boolean(b),
            DataType::Double(s) => Resp::Double(s@),
            DataType::BigNumber(p, v) => Resp::BigNumber(p, v@),
            DataType::VerbatimString(e, d) => Resp::VerbatimString(e@, d@),
            DataType::Dictionary(v) => Resp::Dictionary(model_pairs(v@)),
            DataType::Attribute(v) => Resp::Attribute(model_pairs(v@)),
            DataType::SetOf(v) => Resp::SetOf(model_seq(v@)),
            DataType::Push(v) => Resp::Push(model_seq(v@)),
        }
    }
}

pub open spec fn model_seq(s: Seq<DataType>) -> Seq<Resp>
    decreases s,
{
    if s.len() == 0 {
        seq![]
    } else {
        model_seq(s.drop_last()).push(s.last().model())
    }
}

pub open spec fn model_pairs(s: Seq<(DataType, DataType)>) -> Seq<(Resp, Resp)>
    decreases s,
{
    if s.len() == 0 {
        seq![]
    } else {
        model_pairs(s.drop_last()).push((s.last().0.model(), s.last().1.model()))
    }
}

pub open spec fn crlf() -> Seq<u8> {
    seq![13u8, 10u8]
}

/// A header line: the lead byte, its text and the line end.
pub open spec fn line(lead: u8, body: Seq<u8>) -> Seq<u8> {
    seq![lead] + body + crlf()
}

/// `{:09}` of a decimal text: zeros in front up to nine digits.
pub open spec fn pad9(d: Seq<u8>) -> Seq<u8> {
    if d.len() < 9 {
        Seq::new((9 - d.len()) as nat, |i: int| 48u8) + d
    } else {
        d
    }
}

/// The chunks of a big number written most significant first, each padded
/// to nine digits.
pub open spec fn big_digits(chunks: Seq<u32>) -> Seq<u8>
    decreases chunks.len(),
{
    if chunks.len() == 0 {
        seq![]
    } else {
        pad9(decimal(chunks.last() as nat)) + big_digits(chunks.drop_last())
    }
}

/// The text with every leading `0` removed.
pub open spec fn strip_zeros(s: Seq<u8>) -> Seq<u8>
    decreases s.len(),
{
    if s.len() > 0 && s[0] == 48 {
        strip_zeros(s.drop_first())
    } else {
        s
    }
}

/// The digits of a big number: its chunks written most significant first,
/// each padded to nine digits, without leading zeros; `0` when nothing is
/// left.
pub open spec fn big_text(chunks: Seq<u32>) -> Seq<u8> {
    let s = strip_zeros(big_digits(chunks));
    if s.len() == 0 {
        seq![48u8]
    } else {
        s
    }
}

/// The wire encoding of a RESP value.
pub open spec fn encoding(r: Resp) -> Seq<u8>
    decreases r,
{
    match r {
        Resp::SimpleString(s) => line(43, encode_utf8(s)),
        Resp::SimpleError(s) => line(45, encode_utf8(s)),
        Resp::Integer(i) => line(58, decimal_int(i as int)),
        Resp::BulkString(s) => line(36, decimal(encode_utf8(s).len())) + encode_utf8(s) + crlf(),
        Resp::NullBulkString => line(36, seq![45u8, 49u8]),
        Resp::BulkError(s) => line(33, decimal(encode_utf8(s).len())) + encode_utf8(s) + crlf(),
        Resp::Array(v) => line(42, decimal(v.len())) + encoding_seq(v),
        Resp::NullBulkArray => line(42, seq![45u8, 49u8]),
        Resp::Null => line(95, seq![]),
        Resp::Boolean(b) => line(35, if b { seq![116u8] } else { seq![102u8] }),
        Resp::Double(s) => line(44, encode_utf8(s)),
        Resp::BigNumber(p, v) => line(
            40,
            (if p { seq![] } else { seq![45u8] }) + big_text(v),
        ),
        Resp::VerbatimString(e, d) => line(
            61,
            decimal((encode_utf8(e).len() + encode_utf8(d).len() + 1) as nat),
        ) + encode_utf8(e) + seq![58u8] + encode_utf8(d) + crlf(),
        Resp::Dictionary(v) => line(37, decimal(v.len())) + encoding_pairs(v),
        Resp::Attribute(v) => line(124, decimal(v.len())) + encoding_pairs(v),
        Resp::SetOf(v) => line(126, decimal(v.len())) + encoding_seq(v),
        Resp::Push(v) => line(62, decimal(v.len())) + encoding_seq(v),
    }
}

pub open spec fn encoding_seq(s: Seq<Resp>) -> Seq<u8>
    decreases s,
{
    if s.len() == 0 {
        seq![]
    } else {
        encoding_seq(s.drop_last()) + encoding(s.last())
    }
}

pub open spec fn encoding_pairs(s: Seq<(Resp, Resp)>) -> Seq<u8>
    decreases s,
{
    if s.len() == 0 {
        seq![]
    } else {
        encoding_pairs(s.drop_last()) + encoding(s.last().0) + encoding(s.last().1)
    }
}

/// Two values are the same RESP value when their encodings are equal.
pub open spec fn same_value(a: Resp, b: Resp) -> bool {
    encoding(a) == encoding(b)
}

/// No two keys of the entries have equal encodings.
pub open spec fn distinct_keys(s: Seq<(Resp, Resp)>) -> bool {
    forall|i: int, j: int|
        0 <= i < j < s.len() ==> !same_value(#[trigger] s[i].0, #[trigger] s[j].0)
}

/// No two members have equal encodings.
pub open spec fn distinct_members(s: Seq<Resp>) -> bool {
    forall|i: int, j: int| 0 <= i < j < s.len() ==> !same_value(#[trigger] s[i], #[trigger] s[j])
}

/// The bytes `seq![lead] + body + "\r\n"`.
fn make_line(lead: u8, body: Vec<u8>) -> (r: Vec<u8>)
    ensures
        r@ == line(lead, body@),
{
    let mut out: Vec<u8> = Vec::new();
    out.push(lead);
    let mut b = body;
    out.append(&mut b);
    out.push(13u8);
    out.push(10u8);
    proof {
        assert(out@ =~= line(lead, body@));
    }
    out
}

/// A length header `lead`, `n`, line end.
fn make_count_line(lead: u8, n: usize) -> (r: Vec<u8>)
    ensures
        r@ == line(lead, decimal(n as nat)),
{
    make_line(lead, fmt_u128(n as u128))
}

fn pad_nine(d: Vec<u8>) -> (r: Vec<u8>)
    ensures
        r@ == pad9(d@),
{
    if d.len() < 9 {
        let mut out: Vec<u8> = Vec::new();
        let mut k: usize = 0;
        while k < 9 - d.len()
            invariant
                d@.len() < 9,
                k <= 9 - d@.len(),
                out@ == Seq::new(k as nat, |i: int| 48u8),
            decreases 9 - d@.len() - k,
        {
            out.push(48u8);
            k += 1;
            proof {
                assert(out@ =~= Seq::new(k as nat, |i: int| 48u8));
            }
        }
        let mut dd = d;
        out.append(&mut dd);
        out
    } else {
        d
    }
}

proof fn lemma_strip_zeros_skip(s: Seq<u8>, k: int)
    requires
        0 <= k <= s.len(),
        forall|j: int| 0 <= j < k ==> s[j] == 48,
    ensures
        strip_zeros(s) == strip_zeros(s.subrange(k, s.len() as int)),
    decreases k,
{
    if k > 0 {
        assert(s.drop_first().subrange(k - 1, s.drop_first().len() as int) =~= s.subrange(
            k,
            s.len() as int,
        ));
        lemma_strip_zeros_skip(s.drop_first(), k - 1);
    } else {
        assert(s.subrange(0, s.len() as int) =~= s);
    }
}

fn strip_leading_zeros(s: &Vec<u8>) -> (r: Vec<u8>)
    ensures
        r@ == strip_zeros(s@),
{
    let mut k: usize = 0;
    while k < s.len() && s[k] == 48
        invariant
            k <= s@.len(),
            forall|j: int| 0 <= j < k ==> s@[j] == 48,
        decreases s@.len() - k,
    {
        k += 1;
    }
    let mut out: Vec<u8> = Vec::new();
    let mut i: usize = k;
    while i < s.len()
        invariant
            k <= i <= s@.len(),
            out@ == s@.subrange(k as int, i as int),
        decreases s@.len() - i,
    {
        out.push(s[i]);
        i += 1;
        proof {
            assert(out@ =~= s@.subrange(k as int, i as int));
        }
    }
    proof {
        lemma_strip_zeros_skip(s@, k as int);
        let rest = s@.subrange(k as int, s@.len() as int);
        assert(!(rest.len() > 0 && rest[0] == 48));
        assert(strip_zeros(rest) == rest);
    }
    out
}

pub(crate) fn big_number_text(chunks: &Vec<u32>) -> (r: Vec<u8>)
    ensures
        r@ == big_text(chunks@),
{
    let mut num: Vec<u8> = Vec::new();
    let mut i: usize = 0;
    while i < chunks.len()
        invariant
            i <= chunks@.len(),
            num@ == big_digits(chunks@.subrange(0, i as int)),
        decreases chunks@.len() - i,
    {
        let mut piece = pad_nine(fmt_u128(chunks[i] as u128));
        let mut rest = num;
        piece.append(&mut rest);
        num = piece;
        proof {
            let t = chunks@.subrange(0, i + 1);
            assert(t.drop_last() =~= chunks@.subrange(0, i as int));
        }
        i += 1;
    }
    proof {
        assert(chunks@.subrange(0, chunks@.len() as int) =~= chunks@);
    }
    let mut out = strip_leading_zeros(&num);
    if out.len() == 0 {
        out.push(48u8);
        proof {
            assert(out@ =~= seq![48u8]);
        }
    }
    proof {
        lemma_big_text_digits(chunks@);
    }
    out
}

/// Every byte of `s` is a decimal digit.
pub open spec fn digit_bytes(s: Seq<u8>) -> bool {
    forall|i: int| 0 <= i < s.len() ==> 48 <= #[trigger] s[i] <= 57
}

proof fn lemma_strip_zeros_digits(s: Seq<u8>)
    requires
        digit_bytes(s),
    ensures
        digit_bytes(strip_zeros(s)),
    decreases s.len(),
{
    if s.len() > 0 && s[0] == 48 {
        assert forall|i: int| 0 <= i < s.drop_first().len() implies 48 <= #[trigger] s.drop_first()[i]
            <= 57 by {
            assert(s.drop_first()[i] == s[i + 1]);
        }
        lemma_strip_zeros_digits(s.drop_first());
    }
}

proof fn lemma_big_digits_all_digits(c: Seq<u32>)
    ensures
        digit_bytes(big_digits(c)),
    decreases c.len(),
{
    if c.len() > 0 {
        lemma_big_digits_all_digits(c.drop_last());
        let d = decimal(c.last() as nat);
        lemma_decimal_digits(c.last() as nat);
        let p = pad9(d);
        assert(digit_bytes(p)) by {
            if d.len() < 9 {
                let z = Seq::new((9 - d.len()) as nat, |i: int| 48u8);
                assert forall|i: int| 0 <= i < p.len() implies 48 <= #[trigger] p[i] <= 57 by {
                    if i >= z.len() {
                        assert(p[i] == d[i - z.len()]);
                    }
                }
            }
        }
        let r = big_digits(c.drop_last());
        assert forall|i: int| 0 <= i < big_digits(c).len() implies 48 <= #[trigger] big_digits(
            c,
        )[i] <= 57 by {
            if i < p.len() {
                assert(big_digits(c)[i] == p[i]);
            } else {
                assert(big_digits(c)[i] == r[i - p.len()]);
            }
        }
    }
}

/// The digits of a big number are decimal digits, never none.
pub proof fn lemma_big_text_digits(c: Seq<u32>)
    ensures
        digit_bytes(big_text(c)),
        big_text(c).len() >= 1,
{
    lemma_big_digits_all_digits(c);
    lemma_strip_zeros_digits(big_digits(c));
}

impl DataType {
    /// The wire encoding of this value.
    pub fn serialize(&self) -> (r: Vec<u8>)
        ensures
            r@ == encoding(self.model()),
        decreases self,
    {
        match self {
            DataType::SimpleString(s) => make_line(43u8, text_bytes(s.as_str())),
            DataType::SimpleError(s) => make_line(45u8, text_bytes(s.as_str())),
            DataType::Integer(i) => make_line(58u8, fmt_i64(*i)),
            DataType::BulkString(s) => {
                let mut b = text_bytes(s.as_str());
                let mut out = make_count_line(36u8, b.len());
                out.append(&mut b);
                out.push(13u8);
                out.push(10u8);
                proof {
                    assert(out@ =~= encoding(self.model()));
                }
                out
            },
            DataType::NullBulkString => {
                let mut b: Vec<u8> = Vec::new();
                b.push(45u8);
                b.push(49u8);
                proof {
                    assert(b@ =~= seq![45u8, 49u8]);
                }
                make_line(36u8, b)
            },
            DataType::BulkError(s) => {
                let mut b = text_bytes(s.as_str());
                let mut out = make_count_line(33u8, b.len());
                out.append(&mut b);
                out.push(13u8);
                out.push(10u8);
                proof {
                    assert(out@ =~= encoding(self.model()));
                }
                out
            },
            DataType::Array(v) => {
                proof {
                    assert(decreases_to!(*self => (*self)->Array_0));
                }
                let mut out = make_count_line(42u8, v.len());
                let mut body = serialize_items(v);
                out.append(&mut body);
                proof {
                    assert(model_seq(v@).len() == v@.len()) by {
                        lemma_model_seq_len(v@);
                    }
                }
                out
            },
            DataType::NullBulkArray => {
                let mut b: Vec<u8> = Vec::new();
                b.push(45u8);
                b.push(49u8);
                proof {
                    assert(b@ =~= seq![45u8, 49u8]);
                }
                make_line(42u8, b)
            },
            DataType::Null => {
                let b: Vec<u8> = Vec::new();
                proof {
                    assert(b@ =~= seq![]);
                }
                make_line(95u8, b)
            },
            DataType::Boolean(x) => {
                let mut b: Vec<u8> = Vec::new();
                if *x {
                    b.push(116u8);
                } else {
                    b.push(102u8);
                }
                proof {
                    assert(b@ =~= (if *x { seq![116u8] } else { seq![102u8] }));
                }
                make_line(35u8, b)
            },
            DataType::Double(s) => make_line(44u8, text_bytes(s.as_str())),
            DataType::BigNumber(p, v) => {
                let mut body: Vec<u8> = Vec::new();
                if !*p {
                    body.push(45u8);
                }
                let mut digits = big_number_text(v);
                body.append(&mut digits);
                proof {
                    assert(body@ =~= (if *p { seq![] } else { seq![45u8] }) + big_text(v@));
                }
                make_line(40u8, body)
            },
            DataType::VerbatimString(e, d) => {
                let mut eb = text_bytes(e.as_str());
                let mut db = text_bytes(d.as_str());
                let total: u128 = eb.len() as u128 + db.len() as u128 + 1;
                let mut out = make_line(61u8, fmt_u128(total));
                out.append(&mut eb);
                out.push(58u8);
                out.append(&mut db);
                out.push(13u8);
                out.push(10u8);
                proof {
                    assert(out@ =~= encoding(self.model()));
                }
                out
            },
            DataType::Dictionary(v) => {
                proof {
                    assert(decreases_to!(*self => (*self)->Dictionary_0));
                }
                let mut out = make_count_line(37u8, v.len());
                let mut body = serialize_pairs(v);
                out.append(&mut body);
                proof {
                    lemma_model_pairs_len(v@);
                }
                out
            },
            DataType::Attribute(v) => {
                proof {
                    assert(decreases_to!(*self => (*self)->Attribute_0));
                }
                let mut out = make_count_line(124u8, v.len());
                let mut body = serialize_pairs(v);
                out.append(&mut body);
                proof {
                    lemma_model_pairs_len(v@);
                }
                out
            },
            DataType::SetOf(v) => {
                proof {
                    assert(decreases_to!(*self => (*self)->SetOf_0));
                }
                let mut out = make_count_line(126u8, v.len());
                let mut body = serialize_items(v);
                out.append(&mut body);
                proof {
                    lemma_model_seq_len(v@);
                }
                out
            },
            DataType::Push(v) => {
                proof {
                    assert(decreases_to!(*self => (*self)->Push_0));
                }
                let mut out = make_count_line(62u8, v.len());
                let mut body = serialize_items(v);
                out.append(&mut body);
                proof {
                    lemma_model_seq_len(v@);
                }
                out
            },
        }
    }
}

pub proof fn lemma_model_seq_len(s: Seq<DataType>)
    ensures
        model_seq(s).len() == s.len(),
        forall|i: int| 0 <= i < s.len() ==> #[trigger] model_seq(s)[i] == s[i].model(),
    decreases s.len(),
{
    if s.len() > 0 {
        lemma_model_seq_len(s.drop_last());
    }
}

pub proof fn lemma_model_pairs_len(s: Seq<(DataType, DataType)>)
    ensures
        model_pairs(s).len() == s.len(),
        forall|i: int|
            0 <= i < s.len() ==> #[trigger] model_pairs(s)[i] == (s[i].0.model(), s[i].1.model()),
    decreases s.len(),
{
    if s.len() > 0 {
        lemma_model_pairs_len(s.drop_last());
    }
}

fn serialize_items(items: &Vec<DataType>) -> (r: Vec<u8>)
    ensures
        r@ == encoding_seq(model_seq(items@)),
    decreases items,
{
    let mut out: Vec<u8> = Vec::new();
    let mut i: usize = 0;
    while i < items.len()
        invariant
            i <= items@.len(),
            out@ == encoding_seq(model_seq(items@.subrange(0, i as int))),
        decreases items@.len() - i,
    {
        proof {
            assert(decreases_to!(items@ => items@[i as int]));
            assert(decreases_to!(*items => items@));
        }
        let mut part = items[i].serialize();
        out.append(&mut part);
        proof {
            let pre = items@.subrange(0, i as int);
            let nxt = items@.subrange(0, i + 1);
            assert(nxt.drop_last() =~= pre);
            let mp = model_seq(pre);
            let mn = model_seq(nxt);
            assert(mn.drop_last() =~= mp);
            assert(out@ =~= encoding_seq(mn));
        }
        i += 1;
    }
    proof {
        assert(items@.subrange(0, items@.len() as int) =~= items@);
    }
    out
}

fn serialize_pairs(items: &Vec<(DataType, DataType)>) -> (r: Vec<u8>)
    ensures
        r@ == encoding_pairs(model_pairs(items@)),
    decreases items,
{
    let mut out: Vec<u8> = Vec::new();
    let mut i: usize = 0;
    while i < items.len()
        invariant
            i <= items@.len(),
            out@ == encoding_pairs(model_pairs(items@.subrange(0, i as int))),
        decreases items@.len() - i,
    {
        proof {
            assert(decreases_to!(items@ => items@[i as int]));
            assert(decreases_to!(*items => items@));
            assert(decreases_to!(items@[i as int] => items@[i as int].0));
            assert(decreases_to!(items@[i as int] => items@[i as int].1));
        }
        let mut k = items[i].0.serialize();
        let mut v = items[i].1.serialize();
        out.append(&mut k);
        out.append(&mut v);
        proof {
            let pre = items@.subrange(0, i as int);
            let nxt = items@.subrange(0, i + 1);
            assert(nxt.drop_last() =~= pre);
            let mp = model_pairs(pre);
            let mn = model_pairs(nxt);
            assert(mn.drop_last() =~= mp);
            assert(out@ =~= encoding_pairs(mn));
        }
        i += 1;
    }
    proof {
        assert(items@.subrange(0, items@.len() as int) =~= items@);
    }
    out
}

impl PartialEq for DataType {
    /// Two values are equal when their encodings are equal.
    fn eq(&self, other: &Self) -> (r: bool) {
        let a = self.serialize();
        let b = other.serialize();
        bytes_equal(a.as_slice(), b.as_slice())
    }
}

impl vstd::std_specs::cmp::PartialEqSpecImpl for DataType {
    open spec fn obeys_eq_spec() -> bool {
        true
    }

    open spec fn eq_spec(&self, other: &Self) -> bool {
        same_value(self.model(), other.model())
    }
}

} // verus!
