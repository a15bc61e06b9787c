//! Reading back what was written: the decoder gives back every value that
//! the wire format can carry, from its encoding followed by any bytes.
use vstd::prelude::*;
use vstd::utf8::{decode_utf8, encode_utf8, valid_utf8};
use crate::protocol::data_type::{
    Resp, encoding, encoding_seq, encoding_pairs, line, crlf, same_value, distinct_keys,
    distinct_members, pad9, big_digits, strip_zeros, big_text,
};
use crate::protocol::decode::{
    DecodeError, decode, decode_items, decode_pairs, decode_members, header, newline_index,
    lemma_newline_index, is_minus_one, size_of, payload, payload_value, header_value,
    header_decides, has_body, known_lead, colon_index, lemma_colon_index, big_chunks,
    cuts_character, key_index, member_index, map_insert, set_insert, lemma_key_index,
    lemma_member_index,
};
use crate::text::{
    NumberError, decimal, decimal_int, pow10, lemma_decimal_digits, lemma_ascii_valid,
    lemma_parse_decimal, lemma_parse_decimal_int, lemma_decimal_len, lemma_decimal_first,
    lemma_scan_zeros, lemma_scan_decimal, parse_usize_spec, parse_u32_spec,
};

verus! {

broadcast use vstd::utf8::encode_utf8_valid_utf8, vstd::utf8::valid_utf8_concat,
    vstd::utf8::encode_utf8_decode_utf8;

/// A big number in the form its encoding reads back as: at least one chunk,
/// every chunk below 10^9, and the most significant one nonzero unless the
/// number is the single chunk 0.
pub open spec fn canonical_big(chunks: Seq<u32>) -> bool {
    &&& chunks.len() > 0
    &&& forall|i: int| 0 <= i < chunks.len() ==> #[trigger] chunks[i] < 1_000_000_000
    &&& chunks.last() != 0 || chunks.len() == 1
}

/// Whether the wire format carries `r` faithfully: line texts are not empty
/// and hold no line feed, payloads are not empty and fit in memory, a
/// verbatim encoding holds no `:`, big numbers are canonical, `Null` (whose
/// header is too short to be read back) does not occur, and maps and sets
/// have no two equal keys or members.
pub open spec fn wire_safe(r: Resp) -> bool
    decreases r,
{
    match r {
        Resp::SimpleString(s) => line_text(s),
        Resp::SimpleError(s) => line_text(s),
        Resp::Double(s) => line_text(s),
        Resp::Integer(_) => true,
        Resp::BulkString(s) => payload_text(s),
        Resp::BulkError(s) => payload_text(s),
        Resp::NullBulkString => true,
        Resp::NullBulkArray => true,
        Resp::Null => false,
        Resp::Boolean(_) => true,
        Resp::BigNumber(_, c) => canonical_big(c),
        Resp::VerbatimString(e, d) => !encode_utf8(e).contains(58) && encode_utf8(e).len()
            + encode_utf8(d).len() + 3 <= isize::MAX,
        Resp::Array(v) => v.len() <= usize::MAX && wire_safe_seq(v),
        Resp::Push(v) => v.len() <= usize::MAX && wire_safe_seq(v),
        Resp::SetOf(v) => v.len() <= usize::MAX && wire_safe_seq(v) && distinct_members(v),
        Resp::Dictionary(p) => p.len() <= usize::MAX && wire_safe_pairs(p) && distinct_keys(p),
        Resp::Attribute(p) => p.len() <= usize::MAX && wire_safe_pairs(p) && distinct_keys(p),
    }
}

pub open spec fn wire_safe_seq(s: Seq<Resp>) -> bool
    decreases s,
{
    if s.len() == 0 {
        true
    } else {
        wire_safe_seq(s.drop_last()) && wire_safe(s.last())
    }
}

pub open spec fn wire_safe_pairs(s: Seq<(Resp, Resp)>) -> bool
    decreases s,
{
    if s.len() == 0 {
        true
    } else {
        wire_safe_pairs(s.drop_last()) && wire_safe(s.last().0) && wire_safe(s.last().1)
    }
}

/// A text that a header line carries: not empty, no line feed.
pub open spec fn line_text(s: Seq<char>) -> bool {
    encode_utf8(s).len() > 0 && !encode_utf8(s).contains(10)
}

/// A text that a payload carries: not empty, with its size in memory.
pub open spec fn payload_text(s: Seq<char>) -> bool {
    encode_utf8(s).len() > 0 && encode_utf8(s).len() + 2 <= isize::MAX
}

proof fn lemma_newline_at(s: Seq<u8>, k: int)
    requires
        0 <= k < s.len(),
        s[k] == 10,
        forall|j: int| 0 <= j < k ==> s[j] != 10,
    ensures
        newline_index(s, 0) == k,
{
    lemma_newline_index(s, 0);
    let r = newline_index(s, 0);
    if r >= 0 && r < k {
        assert(s[r] != 10);
    }
}

/// The header `lead`, `content`, line end, read from the front of `buf`.
pub proof fn lemma_header(lead: u8, content: Seq<u8>, rest: Seq<u8>)
    requires
        lead < 128,
        lead != 10,
        valid_utf8(content),
        !content.contains(10),
        content.len() >= 1,
    ensures
        ({
            let buf = seq![lead] + content + crlf() + rest;
            &&& header(buf) == Ok::<(u8, Seq<u8>, int), DecodeError>(
                (lead, content, content.len() + 3int),
            )
            &&& buf.subrange(content.len() + 3int, buf.len() as int) == rest
            &&& buf[1] == content[0]
            &&& buf.subrange(0, content.len() + 3int) == line(lead, content)
        }),
{
    let buf = seq![lead] + content + crlf() + rest;
    let n = content.len() as int;
    assert forall|j: int| 0 <= j < n + 2 implies buf[j] != 10 by {
        if j == 0 {
            assert(buf[0] == lead);
        } else if j < n + 1 {
            assert(buf[j] == content[j - 1]);
            assert(content.contains(content[j - 1]));
        } else {
            assert(buf[j] == 13);
        }
    }
    assert(buf[n + 2] == 10);
    lemma_newline_at(buf, n + 2);
    let l = buf.subrange(0, n + 3);
    assert(l =~= seq![lead] + content + crlf());
    lemma_ascii_valid(seq![lead]);
    lemma_ascii_valid(crlf());
    assert(valid_utf8(seq![lead] + content));
    assert(valid_utf8(l));
    assert(buf.subrange(1, n + 1) =~= content);
    assert(buf.subrange(n + 3, buf.len() as int) =~= rest);
}

proof fn lemma_decimal_header(n: nat)
    ensures
        valid_utf8(decimal(n)),
        !decimal(n).contains(10),
        decimal(n).len() >= 1,
        !is_minus_one(decimal(n)),
        decimal(n)[0] != 45,
{
    lemma_decimal_digits(n);
    lemma_ascii_valid(decimal(n));
    if decimal(n).contains(10) {
        let j = choose|j: int| 0 <= j < decimal(n).len() && decimal(n)[j] == 10;
        assert(48 <= decimal(n)[j]);
    }
    if is_minus_one(decimal(n)) {
        assert(decimal(n)[0] == 45);
    }
}


proof fn lemma_decimal_int_header(i: i64)
    ensures
        valid_utf8(decimal_int(i as int)),
        !decimal_int(i as int).contains(10),
        decimal_int(i as int).len() >= 1,
{
    let d = decimal_int(i as int);
    if i < 0 {
        lemma_decimal_digits((-i) as nat);
    } else {
        lemma_decimal_digits(i as nat);
    }
    assert forall|j: int| 0 <= j < d.len() implies #[trigger] d[j] < 128 && d[j] != 10 by {
        if i < 0 && j > 0 {
            assert(d[j] == decimal((-i) as nat)[j - 1]);
        }
    }
    lemma_ascii_valid(d);
}

pub proof fn lemma_encoding_seq_front(s: Seq<Resp>)
    requires
        s.len() > 0,
    ensures
        encoding_seq(s) == encoding(s[0]) + encoding_seq(s.drop_first()),
    decreases s.len(),
{
    if s.len() == 1 {
        assert(s.drop_last() =~= Seq::<Resp>::empty());
        assert(s.drop_first() =~= Seq::<Resp>::empty());
        assert(encoding_seq(s.drop_last()) =~= Seq::<u8>::empty());
        assert(s.last() == s[0]);
        assert(encoding_seq(s) =~= encoding(s[0]));
        assert(encoding(s[0]) + Seq::<u8>::empty() =~= encoding(s[0]));
    } else {
        lemma_encoding_seq_front(s.drop_last());
        assert(s.drop_last().drop_first() =~= s.drop_first().drop_last());
        assert(s.drop_first().last() == s.last());
        assert(encoding_seq(s) =~= encoding(s[0]) + encoding_seq(s.drop_first()));
    }
}

pub proof fn lemma_encoding_pairs_front(s: Seq<(Resp, Resp)>)
    requires
        s.len() > 0,
    ensures
        encoding_pairs(s) == encoding(s[0].0) + encoding(s[0].1) + encoding_pairs(s.drop_first()),
    decreases s.len(),
{
    if s.len() == 1 {
        assert(s.drop_last() =~= Seq::<(Resp, Resp)>::empty());
        assert(s.drop_first() =~= Seq::<(Resp, Resp)>::empty());
        assert(encoding_pairs(s.drop_last()) =~= Seq::<u8>::empty());
        assert(s.last() == s[0]);
        assert(encoding_pairs(s) =~= encoding(s[0].0) + encoding(s[0].1));
        assert(encoding(s[0].0) + encoding(s[0].1) + Seq::<u8>::empty() =~= encoding(s[0].0)
            + encoding(s[0].1));
    } else {
        lemma_encoding_pairs_front(s.drop_last());
        assert(s.drop_last().drop_first() =~= s.drop_first().drop_last());
        assert(s.drop_first().last() == s.last());
        assert(encoding_pairs(s) =~= encoding(s[0].0) + encoding(s[0].1) + encoding_pairs(
            s.drop_first(),
        ));
    }
}

pub proof fn lemma_wire_safe_seq(s: Seq<Resp>)
    ensures
        wire_safe_seq(s) <==> forall|i: int| 0 <= i < s.len() ==> #[trigger] wire_safe(s[i]),
    decreases s.len(),
{
    if s.len() > 0 {
        lemma_wire_safe_seq(s.drop_last());
        assert(wire_safe_seq(s) == (wire_safe_seq(s.drop_last()) && wire_safe(s.last())));
        assert(s.last() == s[s.len() - 1]);
        if forall|i: int| 0 <= i < s.len() ==> #[trigger] wire_safe(s[i]) {
            assert(wire_safe(s[s.len() - 1]));
            assert forall|i: int| 0 <= i < s.drop_last().len() implies #[trigger] wire_safe(
                s.drop_last()[i],
            ) by {
                assert(s.drop_last()[i] == s[i]);
            }
        }
        if wire_safe_seq(s) {
            assert forall|i: int| 0 <= i < s.len() implies #[trigger] wire_safe(s[i]) by {
                if i < s.len() - 1 {
                    assert(s.drop_last()[i] == s[i]);
                }
            }
        }
    }
}

pub open spec fn pair_safe(p: (Resp, Resp)) -> bool {
    wire_safe(p.0) && wire_safe(p.1)
}

pub proof fn lemma_wire_safe_pairs(s: Seq<(Resp, Resp)>)
    ensures
        wire_safe_pairs(s) <==> forall|i: int| 0 <= i < s.len() ==> #[trigger] pair_safe(s[i]),
    decreases s.len(),
{
    if s.len() > 0 {
        lemma_wire_safe_pairs(s.drop_last());
        assert(wire_safe_pairs(s) == (wire_safe_pairs(s.drop_last()) && pair_safe(s.last())));
        assert(s.last() == s[s.len() - 1]);
        if forall|i: int| 0 <= i < s.len() ==> #[trigger] pair_safe(s[i]) {
            assert(pair_safe(s[s.len() - 1]));
            assert forall|i: int| 0 <= i < s.drop_last().len() implies #[trigger] pair_safe(
                s.drop_last()[i],
            ) by {
                assert(s.drop_last()[i] == s[i]);
            }
        }
        if wire_safe_pairs(s) {
            assert forall|i: int| 0 <= i < s.len() implies #[trigger] pair_safe(s[i]) by {
                if i < s.len() - 1 {
                    assert(s.drop_last()[i] == s[i]);
                }
            }
        }
    }
}

/// Every encoding is at least a header line.
pub proof fn lemma_encoding_len(v: Resp)
    ensures
        encoding(v).len() >= 3,
{
    match v {
        Resp::BigNumber(p, c) => {},
        _ => {},
    }
}


pub proof fn lemma_pad9_digits(x: u32)
    requires
        x < 1_000_000_000,
    ensures
        pad9(decimal(x as nat)).len() == 9,
        forall|i: int| 0 <= i < 9 ==> 48 <= #[trigger] pad9(decimal(x as nat))[i] <= 57,
        parse_u32_spec(pad9(decimal(x as nat))) == Ok::<int, NumberError>(x as int),
        parse_u32_spec(decimal(x as nat)) == Ok::<int, NumberError>(x as int),
{
    let d = decimal(x as nat);
    lemma_decimal_digits(x as nat);
    assert(pow10(9) == 1_000_000_000) by {
        reveal_with_fuel(pow10, 10);
    }
    lemma_decimal_len(x as nat, 9);
    lemma_parse_decimal(x as nat, false, u32::MAX as int, 0);
    let p = pad9(d);
    if d.len() < 9 {
        let z = Seq::new((9 - d.len()) as nat, |i: int| 48u8);
        assert(p == z + d);
        assert forall|i: int| 0 <= i < 9 implies 48 <= #[trigger] p[i] <= 57 by {
            if i >= z.len() {
                assert(p[i] == d[i - z.len()]);
            }
        }
        lemma_scan_zeros(z, d, d.len() as int, u32::MAX as int, NumberError::PosOverflow);
        lemma_scan_decimal(x as nat, u32::MAX as int, NumberError::PosOverflow);
        assert(p[0] == 48);
    }
}

pub proof fn lemma_big_digits_front(c: Seq<u32>)
    requires
        c.len() > 0,
    ensures
        big_digits(c) == big_digits(c.drop_first()) + pad9(decimal(c[0] as nat)),
    decreases c.len(),
{
    if c.len() == 1 {
        assert(c.drop_last() =~= Seq::<u32>::empty());
        assert(c.drop_first() =~= Seq::<u32>::empty());
        assert(big_digits(c.drop_last()) =~= Seq::<u8>::empty());
        assert(big_digits(c) =~= pad9(decimal(c[0] as nat)));
        assert(Seq::<u8>::empty() + pad9(decimal(c[0] as nat)) =~= pad9(decimal(c[0] as nat)));
    } else {
        lemma_big_digits_front(c.drop_last());
        assert(c.drop_last().drop_first() =~= c.drop_first().drop_last());
        assert(c.drop_first().last() == c.last());
        assert(big_digits(c) =~= big_digits(c.drop_first()) + pad9(decimal(c[0] as nat)));
    }
}

proof fn lemma_big_digits_digits(c: Seq<u32>)
    requires
        forall|i: int| 0 <= i < c.len() ==> #[trigger] c[i] < 1_000_000_000,
    ensures
        forall|i: int| 0 <= i < big_digits(c).len() ==> 48 <= #[trigger] big_digits(c)[i] <= 57,
        big_digits(c).len() == 9 * c.len(),
    decreases c.len(),
{
    if c.len() > 0 {
        lemma_big_digits_digits(c.drop_last());
        lemma_pad9_digits(c.last());
        let p = pad9(decimal(c.last() as nat));
        let r = big_digits(c.drop_last());
        assert forall|i: int| 0 <= i < big_digits(c).len() implies 48 <= #[trigger] big_digits(
            c,
        )[i] <= 57 by {
            if i < 9 {
                assert(big_digits(c)[i] == p[i]);
            } else {
                assert(big_digits(c)[i] == r[i - 9]);
            }
        }
    }
}

proof fn lemma_strip_zeros_front(z: Seq<u8>, d: Seq<u8>)
    requires
        forall|i: int| 0 <= i < z.len() ==> #[trigger] z[i] == 48,
    ensures
        strip_zeros(z + d) == strip_zeros(d),
    decreases z.len(),
{
    if z.len() > 0 {
        assert((z + d).drop_first() =~= z.drop_first() + d);
        lemma_strip_zeros_front(z.drop_first(), d);
    } else {
        assert(z + d =~= d);
    }
}

/// The digits of a canonical big number, stripped of leading zeros.
proof fn lemma_big_text(c: Seq<u32>)
    requires
        forall|i: int| 0 <= i < c.len() ==> #[trigger] c[i] < 1_000_000_000,
        c.len() > 0,
        c.last() != 0,
    ensures
        strip_zeros(big_digits(c)) == decimal(c.last() as nat) + big_digits(c.drop_last()),
{
    let d = decimal(c.last() as nat);
    lemma_pad9_digits(c.last());
    lemma_decimal_first(c.last() as nat);
    lemma_decimal_digits(c.last() as nat);
    let rest = big_digits(c.drop_last());
    if d.len() < 9 {
        let z = Seq::new((9 - d.len()) as nat, |i: int| 48u8);
        assert(big_digits(c) =~= z + (d + rest));
        lemma_strip_zeros_front(z, d + rest);
    } else {
        assert(big_digits(c) =~= d + rest);
    }
    assert((d + rest)[0] == d[0]);
}

/// Reading chunks back from the text `decimal(top)` followed by the chunks
/// `cs`, most significant first.
proof fn lemma_big_chunks(top: u32, cs: Seq<u32>)
    requires
        top < 1_000_000_000,
        forall|i: int| 0 <= i < cs.len() ==> #[trigger] cs[i] < 1_000_000_000,
    ensures
        big_chunks(decimal(top as nat) + big_digits(cs)) == Ok::<Seq<u32>, DecodeError>(
            cs.push(top),
        ),
    decreases cs.len(),
{
    let d = decimal(top as nat);
    lemma_pad9_digits(top);
    lemma_decimal_digits(top as nat);
    assert(pow10(9) == 1_000_000_000) by {
        reveal_with_fuel(pow10, 10);
    }
    lemma_decimal_len(top as nat, 9);
    lemma_big_digits_digits(cs);
    let x = d + big_digits(cs);
    if cs.len() == 0 {
        assert(big_digits(cs) =~= Seq::<u8>::empty());
        assert(x =~= d);
        assert(x.subrange(0, x.len() as int) =~= d);
        assert(x.subrange(0, 0) =~= Seq::<u8>::empty());
        assert(!cuts_character(x, 0));
        assert(big_chunks(Seq::<u8>::empty()) == Ok::<Seq<u32>, DecodeError>(Seq::<u32>::empty()));
        assert(parse_u32_spec(x.subrange(0, x.len() as int)) == Ok::<int, NumberError>(top as int));
        assert(Seq::<u32>::empty().push(top) =~= seq![top] + Seq::<u32>::empty());
        assert(big_chunks(x) == Ok::<Seq<u32>, DecodeError>(seq![top] + Seq::<u32>::empty()));
        assert(cs =~= Seq::<u32>::empty());
        assert(cs.push(top) == seq![top] + Seq::<u32>::empty());
    } else {
        let tail = cs.drop_first();
        assert forall|i: int| 0 <= i < tail.len() implies #[trigger] tail[i] < 1_000_000_000 by {
            assert(tail[i] == cs[i + 1]);
        }
        lemma_big_chunks(top, tail);
        lemma_big_digits_front(cs);
        lemma_pad9_digits(cs[0]);
        lemma_big_digits_digits(tail);
        let p = pad9(decimal(cs[0] as nat));
        let y = d + big_digits(tail);
        assert(x =~= y + p);
        let i = x.len() - 9;
        assert(x.subrange(i, x.len() as int) =~= p);
        assert(x.subrange(0, i) =~= y);
        assert(x[i] == p[0]);
        assert(!cuts_character(x, i));
        assert(x.len() > 9);
        assert(parse_u32_spec(x.subrange(i, x.len() as int)) == Ok::<int, NumberError>(cs[0] as int));
        assert(big_chunks(x.subrange(0, i)) == Ok::<Seq<u32>, DecodeError>(tail.push(top)));
        assert(seq![cs[0]] + tail.push(top) =~= cs.push(top));
        assert(big_chunks(x) == Ok::<Seq<u32>, DecodeError>(seq![cs[0]] + tail.push(top)));
        assert(cs.push(top) == seq![cs[0]] + tail.push(top));
    }
}


/// The decoder's result on a value: the value and the length of its encoding.
pub open spec fn reads_back(v: Resp, rest: Seq<u8>) -> bool {
    decode(encoding(v) + rest) == Ok::<(Resp, int), DecodeError>((v, encoding(v).len() as int))
}

proof fn lemma_no_newline(c: Seq<u8>)
    requires
        forall|i: int| 0 <= i < c.len() ==> #[trigger] c[i] != 10,
    ensures
        !c.contains(10),
{
    if c.contains(10) {
        let j = choose|j: int| 0 <= j < c.len() && c[j] == 10;
        assert(c[j] != 10);
    }
}

/// The header of a value with a body: its size, written in decimal.
proof fn lemma_sized_header(lead: u8, n: nat, tail: Seq<u8>)
    requires
        has_body(lead),
        n <= usize::MAX,
    ensures
        ({
            let c = decimal(n);
            let buf = seq![lead] + c + crlf() + tail;
            &&& header(buf) == Ok::<(u8, Seq<u8>, int), DecodeError>((lead, c, c.len() + 3int))
            &&& buf.subrange(c.len() + 3int, buf.len() as int) == tail
            &&& !header_decides(lead, c)
            &&& size_of(c) == Ok::<int, DecodeError>(n as int)
        }),
{
    lemma_decimal_header(n);
    lemma_parse_decimal(n, false, usize::MAX as int, 0);
    lemma_header(lead, decimal(n), tail);
}

/// A payload of `p.len()` bytes followed by its line end.
proof fn lemma_payload(p: Seq<u8>, rest: Seq<u8>)
    requires
        p.len() > 0,
        p.len() + 2 <= isize::MAX,
        valid_utf8(p),
    ensures
        payload(p + crlf() + rest, p.len() as int) == Ok::<(Seq<u8>, int), DecodeError>(
            (p, p.len() + 2int),
        ),
{
    let t = p + crlf() + rest;
    assert(t.subrange(0, p.len() as int) =~= p);
    assert(t[p.len() as int] == 13);
    assert(t[p.len() + 1int] == 10);
}

proof fn lemma_decode_line(v: Resp, rest: Seq<u8>)
    requires
        v is SimpleString || v is SimpleError || v is Double,
        wire_safe(v),
    ensures
        reads_back(v, rest),
{
    let (lead, s): (u8, Seq<char>) = match v {
        Resp::SimpleString(s) => (43u8, s),
        Resp::SimpleError(s) => (45u8, s),
        Resp::Double(s) => (44u8, s),
        _ => (0u8, Seq::empty()),
    };
    let e = encode_utf8(s);
    lemma_header(lead, e, rest);
    assert(encoding(v) == line(lead, e));
    assert(line(lead, e) + rest =~= seq![lead] + e + crlf() + rest);
}

proof fn lemma_decode_integer(v: Resp, rest: Seq<u8>)
    requires
        v is Integer,
    ensures
        reads_back(v, rest),
{
    let i = v->Integer_0;
    let c = decimal_int(i as int);
    lemma_decimal_int_header(i);
    lemma_parse_decimal_int(i);
    lemma_header(58, c, rest);
    assert(encoding(v) == line(58, c));
    assert(line(58, c) + rest =~= seq![58u8] + c + crlf() + rest);
}

proof fn lemma_decode_fixed(v: Resp, rest: Seq<u8>)
    requires
        v is NullBulkString || v is NullBulkArray || v is Boolean,
    ensures
        reads_back(v, rest),
{
    let (lead, c): (u8, Seq<u8>) = match v {
        Resp::NullBulkString => (36u8, seq![45u8, 49u8]),
        Resp::NullBulkArray => (42u8, seq![45u8, 49u8]),
        Resp::Boolean(b) => (35u8, if b { seq![116u8] } else { seq![102u8] }),
        _ => (0u8, Seq::empty()),
    };
    lemma_ascii_valid(c);
    lemma_no_newline(c);
    lemma_header(lead, c, rest);
    assert(encoding(v) == line(lead, c));
    assert(line(lead, c) + rest =~= seq![lead] + c + crlf() + rest);
}

proof fn lemma_decode_bulk(v: Resp, rest: Seq<u8>)
    requires
        v is BulkString || v is BulkError,
        wire_safe(v),
    ensures
        reads_back(v, rest),
{
    let (lead, s): (u8, Seq<char>) = match v {
        Resp::BulkString(s) => (36u8, s),
        Resp::BulkError(s) => (33u8, s),
        _ => (0u8, Seq::empty()),
    };
    let e = encode_utf8(s);
    let n = e.len();
    let tail = e + crlf() + rest;
    assert(isize::MAX <= usize::MAX);
    lemma_sized_header(lead, n, tail);
    lemma_payload(e, rest);
    assert(encoding(v) == line(lead, decimal(n)) + e + crlf());
    assert(encoding(v) + rest =~= seq![lead] + decimal(n) + crlf() + tail);
}

/// The first `:` of a verbatim payload ends its encoding name.
proof fn lemma_verbatim_colon(eb: Seq<u8>, db: Seq<u8>)
    requires
        !eb.contains(58),
    ensures
        ({
            let p = eb + seq![58u8] + db;
            &&& colon_index(p, 0) == eb.len()
            &&& p.subrange(0, eb.len() as int) == eb
            &&& p.subrange(eb.len() + 1int, p.len() as int) == db
        }),
{
    let p = eb + seq![58u8] + db;
    lemma_colon_index(p, 0);
    assert(p[eb.len() as int] == 58);
    let ci = colon_index(p, 0);
    if ci >= 0 && ci < eb.len() {
        assert(p[ci] == eb[ci]);
        assert(eb.contains(eb[ci]));
    }
    assert(p.subrange(0, eb.len() as int) =~= eb);
    assert(p.subrange(eb.len() + 1int, p.len() as int) =~= db);
}

proof fn lemma_decode_verbatim(v: Resp, rest: Seq<u8>)
    requires
        v is VerbatimString,
        wire_safe(v),
    ensures
        reads_back(v, rest),
{
    let e = v->VerbatimString_0;
    let d = v->VerbatimString_1;
    let eb = encode_utf8(e);
    let db = encode_utf8(d);
    let p = eb + seq![58u8] + db;
    let n = p.len();
    assert(n == (eb.len() + db.len() + 1) as nat);
    let tail = p + crlf() + rest;
    assert(isize::MAX <= usize::MAX);
    lemma_sized_header(61, n, tail);
    assert(valid_utf8(p)) by {
        lemma_ascii_valid(seq![58u8]);
        assert(valid_utf8(eb + seq![58u8]));
    }
    lemma_payload(p, rest);
    lemma_verbatim_colon(eb, db);
    assert(encoding(v) == line(61, decimal(n)) + eb + seq![58u8] + db + crlf());
    assert(encoding(v) + rest =~= seq![61u8] + decimal(n) + crlf() + tail);
}

proof fn lemma_decode_big(v: Resp, rest: Seq<u8>)
    requires
        v is BigNumber,
        wire_safe(v),
    ensures
        reads_back(v, rest),
{
    let positive = v->BigNumber_0;
    let chunks = v->BigNumber_1;
    let sign: Seq<u8> = if positive {
        seq![]
    } else {
        seq![45u8]
    };
    let digits = big_text(chunks);
    let c = sign + digits;
    if chunks.last() != 0 {
        lemma_big_text(chunks);
        let top = chunks.last();
        let cs = chunks.drop_last();
        lemma_decimal_digits(top as nat);
        assert(strip_zeros(big_digits(chunks)).len() > 0);
        assert(digits == strip_zeros(big_digits(chunks)));
        assert forall|i: int| 0 <= i < cs.len() implies #[trigger] cs[i] < 1_000_000_000 by {
            assert(cs[i] == chunks[i]);
        }
        lemma_big_chunks(top, cs);
        assert(cs.push(top) =~= chunks);
        lemma_big_digits_digits(cs);
        assert forall|i: int| 0 <= i < digits.len() implies 48 <= #[trigger] digits[i] <= 57 by {
            let dt = decimal(top as nat);
            if i < dt.len() {
                assert(digits[i] == dt[i]);
            } else {
                assert(digits[i] == big_digits(cs)[i - dt.len()]);
            }
        }
    } else {
        assert(chunks =~= seq![0u32]);
        let z = pad9(decimal(0));
        assert(decimal(0) =~= seq![48u8]);
        assert forall|i: int| 0 <= i < z.len() implies #[trigger] z[i] == 48 by {}
        assert(chunks.drop_last() =~= Seq::<u32>::empty());
        assert(big_digits(chunks.drop_last()) =~= Seq::<u8>::empty());
        assert(big_digits(chunks) =~= z);
        lemma_strip_zeros_front(z, Seq::<u8>::empty());
        assert(z + Seq::<u8>::empty() =~= z);
        assert(strip_zeros(Seq::<u8>::empty()) =~= Seq::<u8>::empty());
        assert(digits =~= seq![48u8]);
        assert(digits.subrange(0, 0) =~= Seq::<u8>::empty());
        assert(digits.subrange(0, 1) =~= digits);
        lemma_parse_decimal(0, false, u32::MAX as int, 0);
        assert(big_chunks(Seq::<u8>::empty()) == Ok::<Seq<u32>, DecodeError>(Seq::<u32>::empty()));
        assert(seq![0u32] + Seq::<u32>::empty() =~= chunks);
    }
    assert forall|i: int| 0 <= i < c.len() implies #[trigger] c[i] < 128 && c[i] != 10 by {
        if i >= sign.len() {
            assert(c[i] == digits[i - sign.len()]);
        }
    }
    lemma_ascii_valid(c);
    lemma_no_newline(c);
    lemma_header(40, c, rest);
    let buf = line(40, c) + rest;
    assert(buf =~= seq![40u8] + c + crlf() + rest);
    if positive {
        assert(c =~= digits);
        assert(c[0] == digits[0]);
    } else {
        assert(c.drop_first() =~= digits);
        assert(c[0] == 45);
    }
    assert(big_chunks(digits) == Ok::<Seq<u32>, DecodeError>(chunks));
    assert(encoding(v) == line(40, c));
    assert(header_value(40, buf[1], c, c.len() + 3int) == Ok::<(Resp, int), DecodeError>(
        (Resp::BigNumber(positive, chunks), c.len() + 3int),
    ));
    assert(header_decides(40, c));
}

/// The decoder reads back every value that the wire format carries, from
/// its encoding followed by any bytes, and takes exactly the encoding.
pub proof fn law_decode_encoding(v: Resp, rest: Seq<u8>)
    requires
        wire_safe(v),
    ensures
        decode(encoding(v) + rest) == Ok::<(Resp, int), DecodeError>((v, encoding(v).len() as int)),
    decreases v, 2int,
{
    match v {
        Resp::SimpleString(_) | Resp::SimpleError(_) | Resp::Double(_) => lemma_decode_line(
            v,
            rest,
        ),
        Resp::Integer(_) => lemma_decode_integer(v, rest),
        Resp::BulkString(_) | Resp::BulkError(_) => lemma_decode_bulk(v, rest),
        Resp::NullBulkString | Resp::NullBulkArray | Resp::Boolean(_) => lemma_decode_fixed(
            v,
            rest,
        ),
        Resp::Null => {},
        Resp::BigNumber(_, _) => lemma_decode_big(v, rest),
        Resp::VerbatimString(_, _) => lemma_decode_verbatim(v, rest),
        Resp::Array(_) | Resp::Push(_) => lemma_decode_aggregate(v, rest),
        Resp::SetOf(_) => lemma_decode_set(v, rest),
        Resp::Dictionary(_) | Resp::Attribute(_) => lemma_decode_map(v, rest),
    }
}

proof fn lemma_decode_aggregate(v: Resp, rest: Seq<u8>)
    requires
        v is Array || v is Push,
        wire_safe(v),
    ensures
        reads_back(v, rest),
    decreases v, 1int,
{
    let (lead, items): (u8, Seq<Resp>) = match v {
        Resp::Array(items) => (42u8, items),
        Resp::Push(items) => (62u8, items),
        _ => (0u8, Seq::empty()),
    };
    let c = decimal(items.len());
    let tail = encoding_seq(items) + rest;
    lemma_sized_header(lead, items.len(), tail);
    lemma_decode_items(items, rest);
    assert(encoding(v) == line(lead, c) + encoding_seq(items));
    assert(encoding(v) + rest =~= seq![lead] + c + crlf() + tail);
}

proof fn lemma_decode_set(v: Resp, rest: Seq<u8>)
    requires
        v is SetOf,
        wire_safe(v),
    ensures
        reads_back(v, rest),
    decreases v, 1int,
{
    let ms = v->SetOf_0;
    let c = decimal(ms.len());
    let tail = encoding_seq(ms) + rest;
    lemma_sized_header(126, ms.len(), tail);
    assert(Seq::<Resp>::empty() + ms =~= ms);
    lemma_decode_members(ms, seq![], rest);
    assert(encoding(v) == line(126, c) + encoding_seq(ms));
    assert(encoding(v) + rest =~= seq![126u8] + c + crlf() + tail);
}

proof fn lemma_decode_map(v: Resp, rest: Seq<u8>)
    requires
        v is Dictionary || v is Attribute,
        wire_safe(v),
    ensures
        reads_back(v, rest),
    decreases v, 1int,
{
    let (lead, ps): (u8, Seq<(Resp, Resp)>) = match v {
        Resp::Dictionary(ps) => (37u8, ps),
        Resp::Attribute(ps) => (124u8, ps),
        _ => (0u8, Seq::empty()),
    };
    let c = decimal(ps.len());
    let tail = encoding_pairs(ps) + rest;
    lemma_sized_header(lead, ps.len(), tail);
    assert(Seq::<(Resp, Resp)>::empty() + ps =~= ps);
    lemma_decode_pairs(ps, seq![], rest);
    assert(encoding(v) == line(lead, c) + encoding_pairs(ps));
    assert(encoding(v) + rest =~= seq![lead] + c + crlf() + tail);
}

proof fn lemma_decode_items(items: Seq<Resp>, rest: Seq<u8>)
    requires
        wire_safe_seq(items),
    ensures
        decode_items(encoding_seq(items) + rest, items.len() as int) == Ok::<
            (Seq<Resp>, int),
            DecodeError,
        >((items, encoding_seq(items).len() as int)),
    decreases items, 0int,
{
    if items.len() == 0 {
        assert(encoding_seq(items) =~= Seq::<u8>::empty());
        assert(items =~= Seq::<Resp>::empty());
    } else {
        let first = items[0];
        let tail = items.drop_first();
        lemma_wire_safe_seq(items);
        lemma_wire_safe_seq(tail);
        assert forall|i: int| 0 <= i < tail.len() implies #[trigger] wire_safe(tail[i]) by {
            assert(tail[i] == items[i + 1]);
        }
        lemma_encoding_seq_front(items);
        let after = encoding_seq(tail) + rest;
        assert(decreases_to!(items => items[0]));
        law_decode_encoding(first, after);
        lemma_encoding_len(first);
        let buf = encoding_seq(items) + rest;
        assert(buf =~= encoding(first) + after);
        let k = encoding(first).len() as int;
        assert(buf.subrange(k, buf.len() as int) =~= after);
        assert(decreases_to!(items => items.subrange(1, items.len() as int)));
        lemma_decode_items(tail, rest);
        assert(seq![first] + tail =~= items);
    }
}

proof fn lemma_decode_members(ms: Seq<Resp>, acc: Seq<Resp>, rest: Seq<u8>)
    requires
        wire_safe_seq(ms),
        distinct_members(acc + ms),
    ensures
        decode_members(encoding_seq(ms) + rest, ms.len() as int, acc) == Ok::<
            (Seq<Resp>, int),
            DecodeError,
        >((acc + ms, encoding_seq(ms).len() as int)),
    decreases ms, 0int,
{
    if ms.len() == 0 {
        assert(encoding_seq(ms) =~= Seq::<u8>::empty());
        assert(acc + ms =~= acc);
    } else {
        let first = ms[0];
        let tail = ms.drop_first();
        lemma_wire_safe_seq(ms);
        lemma_wire_safe_seq(tail);
        assert forall|i: int| 0 <= i < tail.len() implies #[trigger] wire_safe(tail[i]) by {
            assert(tail[i] == ms[i + 1]);
        }
        lemma_encoding_seq_front(ms);
        let after = encoding_seq(tail) + rest;
        assert(decreases_to!(ms => ms[0]));
        law_decode_encoding(first, after);
        lemma_encoding_len(first);
        let buf = encoding_seq(ms) + rest;
        assert(buf =~= encoding(first) + after);
        let k = encoding(first).len() as int;
        assert(buf.subrange(k, buf.len() as int) =~= after);
        lemma_member_index(acc, first);
        let all = acc + ms;
        if member_index(acc, first) >= 0 {
            let j = member_index(acc, first);
            assert(all[j] == acc[j]);
            assert(all[acc.len() as int] == first);
            assert(!same_value(all[j], all[acc.len() as int]));
        }
        assert(set_insert(acc, first) == acc.push(first));
        assert(acc.push(first) + tail =~= all);
        assert(decreases_to!(ms => ms.subrange(1, ms.len() as int)));
        lemma_decode_members(tail, acc.push(first), rest);
    }
}

#[verifier::spinoff_prover]
#[verifier::rlimit(40)]
proof fn lemma_decode_pairs(ps: Seq<(Resp, Resp)>, acc: Seq<(Resp, Resp)>, rest: Seq<u8>)
    requires
        wire_safe_pairs(ps),
        distinct_keys(acc + ps),
    ensures
        decode_pairs(encoding_pairs(ps) + rest, ps.len() as int, acc) == Ok::<
            (Seq<(Resp, Resp)>, int),
            DecodeError,
        >((acc + ps, encoding_pairs(ps).len() as int)),
    decreases ps, 0int,
{
    if ps.len() == 0 {
        assert(encoding_pairs(ps) =~= Seq::<u8>::empty());
        assert(acc + ps =~= acc);
    } else {
        let first = ps[0];
        let tail = ps.drop_first();
        lemma_wire_safe_pairs(ps);
        lemma_wire_safe_pairs(tail);
        assert(pair_safe(ps[0]));
        assert forall|i: int| 0 <= i < tail.len() implies #[trigger] pair_safe(tail[i]) by {
            assert(tail[i] == ps[i + 1]);
            assert(pair_safe(ps[i + 1]));
        }
        lemma_encoding_pairs_front(ps);
        let after_value = encoding_pairs(tail) + rest;
        let after_key = encoding(first.1) + after_value;
        assert(decreases_to!(ps => ps[0]));
        assert(decreases_to!(ps[0] => ps[0].0));
        assert(decreases_to!(ps[0] => ps[0].1));
        law_decode_encoding(first.0, after_key);
        law_decode_encoding(first.1, after_value);
        lemma_encoding_len(first.0);
        lemma_encoding_len(first.1);
        let buf = encoding_pairs(ps) + rest;
        assert(buf =~= encoding(first.0) + after_key);
        let k1 = encoding(first.0).len() as int;
        assert(buf.subrange(k1, buf.len() as int) =~= after_key);
        let k2 = encoding(first.1).len() as int;
        assert(after_key.subrange(k2, after_key.len() as int) =~= after_value);
        lemma_key_index(acc, first.0);
        let all = acc + ps;
        if key_index(acc, first.0) >= 0 {
            let j = key_index(acc, first.0);
            assert(all[j] == acc[j]);
            assert(all[acc.len() as int] == first);
            assert(!same_value(all[j].0, all[acc.len() as int].0));
        }
        assert(map_insert(acc, first.0, first.1) == acc.push((first.0, first.1)));
        assert((first.0, first.1) == first);
        assert(acc.push(first) + tail =~= all);
        assert(decreases_to!(ps => ps.subrange(1, ps.len() as int)));
        lemma_decode_pairs(tail, acc.push(first), rest);
    }
}

} // verus!
