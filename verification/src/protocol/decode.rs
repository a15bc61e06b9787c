//! Reading RESP values from the bytes received on a connection.
//!
//! A value starts with a header line, which ends at the first `\n`; the lead
//! byte picks the kind of value, and the text between the lead byte and the
//! last two bytes of the line is its content. Bulk payloads follow the header
//! as `size` bytes and `\r\n`; aggregates follow as their elements.
use vstd::prelude::*;
use vstd::utf8::{decode_utf8, valid_utf8};
use crate::protocol::data_type::{
    DataType, Resp, model_seq, model_pairs, same_value, encoding, lemma_model_seq_len,
    lemma_model_pairs_len,
};
use crate::text::{
    NumberError, parse_usize_spec, parse_i64_spec, parse_u32_spec, parse_usize, parse_i64,
    parse_u32, lemma_parse_bounds, text_from_bytes, text_of_range, bytes_equal,
};

verus! {

/// Why bytes could not be read as a RESP value.
#[derive(Clone, Copy, Debug, PartialEq, Eq, Structural)]
pub enum DecodeError {
    /// The bytes end before the value does.
    Incomplete,
    /// A header line or a payload is not well-formed UTF-8.
    InvalidText,
    /// A header line of three bytes or fewer.
    ShortLine,
    /// A number in a header could not be read.
    InvalidNumber(NumberError),
    /// A bulk payload of size zero.
    EmptyPayload,
    /// A bulk payload not followed by `\r\n`.
    MissingCrlf,
    /// A boolean other than `#t` or `#f`.
    InvalidBoolean,
    /// A verbatim string without `:` between encoding and data.
    MissingColon,
    /// A lead byte that names no kind of value.
    UnknownLead,
    /// Input on which the server gives up on the connection at once: a
    /// header whose content would end inside a character, a big-number digit
    /// run cut inside a character, or a payload size too large to allocate.
    Abort,
}

/// The index of the first `\n` at or after `from`, or -1.
pub open spec fn newline_index(s: Seq<u8>, from: int) -> int
    decreases s.len() - from,
{
    if from < 0 || from >= s.len() {
        -1
    } else if s[from] == 10 {
        from
    } else {
        newline_index(s, from + 1)
    }
}

pub proof fn lemma_newline_index(s: Seq<u8>, from: int)
    ensures
        newline_index(s, from) >= 0 ==> {
            &&& 0 <= from <= newline_index(s, from) < s.len()
            &&& s[newline_index(s, from)] == 10
        },
        newline_index(s, from) < 0 ==> newline_index(s, from) == -1,
        forall|k: int|
            0 <= from <= k < s.len() && (newline_index(s, from) < 0 || k < newline_index(s, from))
                ==> s[k] != 10,
    decreases s.len() - from,
{
    if 0 <= from < s.len() && s[from] != 10 {
        lemma_newline_index(s, from + 1);
    }
}

/// The index of the first `:` at or after `from`, or -1.
pub open spec fn colon_index(s: Seq<u8>, from: int) -> int
    decreases s.len() - from,
{
    if from < 0 || from >= s.len() {
        -1
    } else if s[from] == 58 {
        from
    } else {
        colon_index(s, from + 1)
    }
}

/// A header line: its lead byte, its content and its length.
pub open spec fn header(buf: Seq<u8>) -> Result<(u8, Seq<u8>, int), DecodeError> {
    let nl = newline_index(buf, 0);
    if nl < 0 {
        Err(DecodeError::Incomplete)
    } else if !valid_utf8(buf.subrange(0, nl + 1)) {
        Err(DecodeError::InvalidText)
    } else if nl + 1 <= 3 {
        Err(DecodeError::ShortLine)
    } else {
        Ok((buf[0], buf.subrange(1, nl - 1), nl + 1))
    }
}

/// The content `-1` of a null bulk string or null array.
pub open spec fn is_minus_one(c: Seq<u8>) -> bool {
    c == seq![45u8, 49u8]
}

/// A size read from a header.
pub open spec fn size_of(c: Seq<u8>) -> Result<int, DecodeError> {
    match parse_usize_spec(c) {
        Ok(n) => Ok(n),
        Err(e) => Err(DecodeError::InvalidNumber(e)),
    }
}

/// The payload of `size` bytes at the start of `rest`, and the bytes it
/// takes with its line end.
pub open spec fn payload(rest: Seq<u8>, size: int) -> Result<(Seq<u8>, int), DecodeError> {
    if size == 0 {
        Err(DecodeError::EmptyPayload)
    } else if size + 2 > isize::MAX {
        Err(DecodeError::Abort)
    } else if rest.len() < size + 2 {
        Err(DecodeError::Incomplete)
    } else if rest[size] != 13 || rest[size + 1] != 10 {
        Err(DecodeError::MissingCrlf)
    } else if !valid_utf8(rest.subrange(0, size)) {
        Err(DecodeError::InvalidText)
    } else {
        Ok((rest.subrange(0, size), size + 2))
    }
}

/// Whether index `i` of `s` falls inside a multi-byte character.
pub open spec fn cuts_character(s: Seq<u8>, i: int) -> bool {
    0 <= i < s.len() && 128 <= s[i] < 192
}

/// The digits of a big number in chunks of nine, read from the right;
/// the least significant chunk comes first.
pub open spec fn big_chunks(num: Seq<u8>) -> Result<Seq<u32>, DecodeError>
    decreases num.len(),
{
    if num.len() == 0 {
        Ok(seq![])
    } else {
        let i = if num.len() < 9 {
            0
        } else {
            num.len() - 9
        };
        if cuts_character(num, i) {
            Err(DecodeError::Abort)
        } else {
            match parse_u32_spec(num.subrange(i, num.len() as int)) {
                Err(e) => Err(DecodeError::InvalidNumber(e)),
                Ok(n) => match big_chunks(num.subrange(0, i)) {
                    Ok(rest) => Ok(seq![n as u32] + rest),
                    Err(e) => Err(e),
                },
            }
        }
    }
}

/// The index of the first entry whose key has the encoding of `k`, or -1.
pub open spec fn key_index(entries: Seq<(Resp, Resp)>, k: Resp) -> int
    decreases entries.len(),
{
    if entries.len() == 0 {
        -1
    } else if same_value(entries[0].0, k) {
        0
    } else {
        let i = key_index(entries.drop_first(), k);
        if i < 0 {
            -1
        } else {
            i + 1
        }
    }
}

/// The index of the first member with the encoding of `m`, or -1.
pub open spec fn member_index(members: Seq<Resp>, m: Resp) -> int
    decreases members.len(),
{
    if members.len() == 0 {
        -1
    } else if same_value(members[0], m) {
        0
    } else {
        let i = member_index(members.drop_first(), m);
        if i < 0 {
            -1
        } else {
            i + 1
        }
    }
}

/// Inserting into a map: an equal key keeps its place and takes the new
/// value; a new key goes last.
pub open spec fn map_insert(entries: Seq<(Resp, Resp)>, k: Resp, v: Resp) -> Seq<(Resp, Resp)> {
    let i = key_index(entries, k);
    if i >= 0 {
        entries.update(i, (entries[i].0, v))
    } else {
        entries.push((k, v))
    }
}

/// Inserting into a set: a member equal to one present leaves the set as it is.
pub open spec fn set_insert(members: Seq<Resp>, m: Resp) -> Seq<Resp> {
    if member_index(members, m) >= 0 {
        members
    } else {
        members.push(m)
    }
}

/// The lead bytes of values whose header is followed by a payload or by
/// elements: `$ * ! = % | ~ >`.
pub open spec fn has_body(lead: u8) -> bool {
    lead == 36 || lead == 42 || lead == 33 || lead == 61 || lead == 37 || lead == 124 || lead
        == 126 || lead == 62
}

/// The lead bytes that name a kind of value.
pub open spec fn known_lead(lead: u8) -> bool {
    has_body(lead) || lead == 95 || lead == 35 || lead == 43 || lead == 45 || lead == 58 || lead
        == 44 || lead == 40
}

/// Whether the header alone decides the value (or the error).
pub open spec fn header_decides(lead: u8, c: Seq<u8>) -> bool {
    !has_body(lead) || !valid_utf8(c) || ((lead == 36 || lead == 42) && is_minus_one(c))
}

/// The value of a header that decides it alone; `second` is the byte that
/// follows the lead byte.
pub open spec fn header_value(lead: u8, second: u8, c: Seq<u8>, hl: int) -> Result<
    (Resp, int),
    DecodeError,
> {
    if lead == 95 {
        Ok((Resp::Null, hl))
    } else if lead == 35 {
        if second == 116 {
            Ok((Resp::Boolean(true), hl))
        } else if second == 102 {
            Ok((Resp::Boolean(false), hl))
        } else {
            Err(DecodeError::InvalidBoolean)
        }
    } else if !known_lead(lead) {
        Err(DecodeError::UnknownLead)
    } else if !valid_utf8(c) {
        Err(DecodeError::Abort)
    } else if lead == 43 {
        Ok((Resp::SimpleString(decode_utf8(c)), hl))
    } else if lead == 45 {
        Ok((Resp::SimpleError(decode_utf8(c)), hl))
    } else if lead == 58 {
        match parse_i64_spec(c) {
            Ok(i) => Ok((Resp::Integer(i as i64), hl)),
            Err(e) => Err(DecodeError::InvalidNumber(e)),
        }
    } else if lead == 44 {
        Ok((Resp::Double(decode_utf8(c)), hl))
    } else if lead == 40 {
        let positive = c[0] != 45;
        let num = if positive {
            c
        } else {
            c.drop_first()
        };
        match big_chunks(num) {
            Ok(chunks) => Ok((Resp::BigNumber(positive, chunks), hl)),
            Err(e) => Err(e),
        }
    } else if lead == 36 {
        Ok((Resp::NullBulkString, hl))
    } else {
        Ok((Resp::NullBulkArray, hl))
    }
}

/// A bulk string (`$`), bulk error (`!`) or verbatim string (`=`) whose
/// payload of `size` bytes starts `rest`.
pub open spec fn payload_value(lead: u8, rest: Seq<u8>, size: int, hl: int) -> Result<
    (Resp, int),
    DecodeError,
> {
    match payload(rest, size) {
        Err(e) => Err(e),
        Ok((p, pl)) => if lead == 36 {
            Ok((Resp::BulkString(decode_utf8(p)), hl + pl))
        } else if lead == 33 {
            Ok((Resp::BulkError(decode_utf8(p)), hl + pl))
        } else {
            let j = colon_index(p, 0);
            if j < 0 {
                Err(DecodeError::MissingColon)
            } else if !valid_utf8(p.subrange(0, j)) || !valid_utf8(
                p.subrange(j + 1, p.len() as int),
            ) {
                Err(DecodeError::InvalidText)
            } else {
                Ok(
                    (
                        Resp::VerbatimString(
                            decode_utf8(p.subrange(0, j)),
                            decode_utf8(p.subrange(j + 1, p.len() as int)),
                        ),
                        hl + pl,
                    ),
                )
            }
        },
    }
}

/// Reads one value from the start of `buf`: the value and the number of
/// bytes it takes.
pub open spec fn decode(buf: Seq<u8>) -> Result<(Resp, int), DecodeError>
    decreases buf.len(), 0int,
{
    proof {
        lemma_newline_index(buf, 0);
    }
    match header(buf) {
        Err(e) => Err(e),
        Ok((lead, c, hl)) => {
            let rest = buf.subrange(hl, buf.len() as int);
            if header_decides(lead, c) {
                header_value(lead, buf[1], c, hl)
            } else {
                match size_of(c) {
                    Err(e) => Err(e),
                    Ok(size) => if lead == 36 || lead == 33 || lead == 61 {
                        payload_value(lead, rest, size, hl)
                    } else if lead == 37 || lead == 124 {
                        match decode_pairs(rest, size, seq![]) {
                            Err(e) => Err(e),
                            Ok((entries, k)) => if lead == 37 {
                                Ok((Resp::Dictionary(entries), hl + k))
                            } else {
                                Ok((Resp::Attribute(entries), hl + k))
                            },
                        }
                    } else if lead == 126 {
                        match decode_members(rest, size, seq![]) {
                            Err(e) => Err(e),
                            Ok((members, k)) => Ok((Resp::SetOf(members), hl + k)),
                        }
                    } else {
                        match decode_items(rest, size) {
                            Err(e) => Err(e),
                            Ok((items, k)) => if lead == 42 {
                                Ok((Resp::Array(items), hl + k))
                            } else {
                                Ok((Resp::Push(items), hl + k))
                            },
                        }
                    },
                }
            }
        },
    }
}

/// Reads `n` values one after another.
pub open spec fn decode_items(buf: Seq<u8>, n: int) -> Result<(Seq<Resp>, int), DecodeError>
    decreases buf.len(), n,
{
    if n <= 0 {
        Ok((seq![], 0))
    } else {
        match decode(buf) {
            Err(e) => Err(e),
            Ok((v, k)) => if k <= 0 || k > buf.len() {
                Err(DecodeError::Incomplete)
            } else {
                match decode_items(buf.subrange(k, buf.len() as int), n - 1) {
                    Err(e) => Err(e),
                    Ok((vs, k2)) => Ok((seq![v] + vs, k + k2)),
                }
            },
        }
    }
}

/// Reads `n` key-value pairs and inserts them, in order, into `acc`.
pub open spec fn decode_pairs(buf: Seq<u8>, n: int, acc: Seq<(Resp, Resp)>) -> Result<
    (Seq<(Resp, Resp)>, int),
    DecodeError,
>
    decreases buf.len(), n,
{
    if n <= 0 {
        Ok((acc, 0))
    } else {
        match decode(buf) {
            Err(e) => Err(e),
            Ok((k, k1)) => if k1 <= 0 || k1 > buf.len() {
                Err(DecodeError::Incomplete)
            } else {
                let b2 = buf.subrange(k1, buf.len() as int);
                match decode(b2) {
                    Err(e) => Err(e),
                    Ok((v, k2)) => if k2 <= 0 || k2 > b2.len() {
                        Err(DecodeError::Incomplete)
                    } else {
                        match decode_pairs(
                            b2.subrange(k2, b2.len() as int),
                            n - 1,
                            map_insert(acc, k, v),
                        ) {
                            Err(e) => Err(e),
                            Ok((entries, k3)) => Ok((entries, k1 + k2 + k3)),
                        }
                    },
                }
            },
        }
    }
}

/// Reads `n` values and inserts them, in order, into the set `acc`.
pub open spec fn decode_members(buf: Seq<u8>, n: int, acc: Seq<Resp>) -> Result<
    (Seq<Resp>, int),
    DecodeError,
>
    decreases buf.len(), n,
{
    if n <= 0 {
        Ok((acc, 0))
    } else {
        match decode(buf) {
            Err(e) => Err(e),
            Ok((m, k)) => if k <= 0 || k > buf.len() {
                Err(DecodeError::Incomplete)
            } else {
                match decode_members(buf.subrange(k, buf.len() as int), n - 1, set_insert(acc, m)) {
                    Err(e) => Err(e),
                    Ok((members, k2)) => Ok((members, k + k2)),
                }
            },
        }
    }
}

} // verus!

verus! {

pub open spec fn suffix(buf: Seq<u8>, pos: int) -> Seq<u8> {
    buf.subrange(pos, buf.len() as int)
}

/// `r` is the executable outcome of the decoding result `spec`.
pub open spec fn decoded_as(spec: Result<(Resp, int), DecodeError>, r: Result<(DataType, usize), DecodeError>) -> bool {
    match spec {
        Ok((v, k)) => r matches Ok((d, n)) && d.model() == v && n == k,
        Err(e) => r == Err::<(DataType, usize), DecodeError>(e),
    }
}

pub proof fn lemma_decode_consumes(buf: Seq<u8>)
    ensures
        decode(buf) matches Ok((v, k)) ==> 4 <= k <= buf.len(),
    decreases buf.len(), 0int,
{
    lemma_newline_index(buf, 0);
    if let Ok((lead, c, hl)) = header(buf) {
        assert(4 <= hl <= buf.len());
        let rest = buf.subrange(hl, buf.len() as int);
        assert(rest.len() == buf.len() - hl);
        lemma_parse_bounds(c, false, usize::MAX as int, 0);
        if let Ok(size) = size_of(c) {
            lemma_items_consume(rest, size);
            lemma_pairs_consume(rest, size, seq![]);
            lemma_members_consume(rest, size, seq![]);
            if let Ok((p, pl)) = payload(rest, size) {
                assert(hl + pl <= buf.len());
            }
        }
    }
}

pub proof fn lemma_items_consume(buf: Seq<u8>, n: int)
    ensures
        decode_items(buf, n) matches Ok((vs, k)) ==> 0 <= k <= buf.len() && (n >= 0 ==> vs.len()
            == n),
    decreases buf.len(), n,
{
    if n > 0 {
        lemma_decode_consumes(buf);
        if let Ok((v, k)) = decode(buf) {
            if 0 < k <= buf.len() {
                lemma_items_consume(buf.subrange(k, buf.len() as int), n - 1);
            }
        }
    }
}

pub proof fn lemma_pairs_consume(buf: Seq<u8>, n: int, acc: Seq<(Resp, Resp)>)
    ensures
        decode_pairs(buf, n, acc) matches Ok((e, k)) ==> 0 <= k <= buf.len(),
    decreases buf.len(), n,
{
    if n > 0 {
        lemma_decode_consumes(buf);
        if let Ok((key, k1)) = decode(buf) {
            if 0 < k1 <= buf.len() {
                let b2 = buf.subrange(k1, buf.len() as int);
                lemma_decode_consumes(b2);
                if let Ok((v, k2)) = decode(b2) {
                    if 0 < k2 <= b2.len() {
                        lemma_pairs_consume(
                            b2.subrange(k2, b2.len() as int),
                            n - 1,
                            map_insert(acc, key, v),
                        );
                    }
                }
            }
        }
    }
}

pub proof fn lemma_members_consume(buf: Seq<u8>, n: int, acc: Seq<Resp>)
    ensures
        decode_members(buf, n, acc) matches Ok((e, k)) ==> 0 <= k <= buf.len(),
    decreases buf.len(), n,
{
    if n > 0 {
        lemma_decode_consumes(buf);
        if let Ok((m, k)) = decode(buf) {
            if 0 < k <= buf.len() {
                lemma_members_consume(buf.subrange(k, buf.len() as int), n - 1, set_insert(acc, m));
            }
        }
    }
}

/// Reads the header line at `pos`: its lead byte and its length.
fn read_header(buf: &[u8], pos: usize) -> (r: Result<(u8, usize), DecodeError>)
    requires
        pos <= buf@.len(),
    ensures
        match header(suffix(buf@, pos as int)) {
            Ok((lead, c, hl)) => r matches Ok((l, h)) && l == lead && h == hl && pos + hl
                <= buf@.len() && 4 <= hl && c == buf@.subrange(pos + 1, pos + hl - 2),
            Err(e) => r == Err::<(u8, usize), DecodeError>(e),
        },
{
    let ghost s = suffix(buf@, pos as int);
    proof {
        lemma_newline_index(s, 0);
    }
    let mut i: usize = pos;
    while i < buf.len() && buf[i] != 10
        invariant
            pos <= i <= buf@.len(),
            s == suffix(buf@, pos as int),
            forall|k: int| pos <= k < i ==> buf@[k] != 10,
        decreases buf@.len() - i,
    {
        i += 1;
    }
    if i >= buf.len() {
        proof {
            let r = newline_index(s, 0);
            if r >= 0 {
                assert(s[r] == buf@[pos + r]);
            }
        }
        return Err(DecodeError::Incomplete);
    }
    proof {
        let r = newline_index(s, 0);
        assert(s[i - pos] == 10);
        if r >= 0 {
            assert(s[r] == buf@[pos + r]);
        }
        assert(r == i - pos);
        assert(s.subrange(0, r + 1) =~= buf@.subrange(pos as int, i + 1));
    }
    let line_ok = text_of_range(buf, pos, i + 1);
    if line_ok.is_none() {
        return Err(DecodeError::InvalidText);
    }
    if i + 1 - pos <= 3 {
        return Err(DecodeError::ShortLine);
    }
    proof {
        assert(s.subrange(1, (i - pos) - 1) =~= buf@.subrange(pos + 1, i - 1));
    }
    Ok((buf[pos], i + 1 - pos))
}

/// The payload of `size` bytes at `at`: the bytes it takes with its line end.
fn read_payload(buf: &[u8], at: usize, size: usize) -> (r: Result<usize, DecodeError>)
    requires
        at <= buf@.len(),
    ensures
        match payload(suffix(buf@, at as int), size as int) {
            Ok((p, pl)) => r == Ok::<usize, DecodeError>(pl as usize) && at + pl <= buf@.len()
                && pl == size + 2 && p == buf@.subrange(at as int, at + size),
            Err(e) => r == Err::<usize, DecodeError>(e),
        },
{
    let ghost s = suffix(buf@, at as int);
    if size == 0 {
        return Err(DecodeError::EmptyPayload);
    }
    if size > (isize::MAX as usize) - 2 {
        return Err(DecodeError::Abort);
    }
    if buf.len() - at < size + 2 {
        return Err(DecodeError::Incomplete);
    }
    if buf[at + size] != 13 || buf[at + size + 1] != 10 {
        return Err(DecodeError::MissingCrlf);
    }
    proof {
        assert(s.subrange(0, size as int) =~= buf@.subrange(at as int, at + size));
    }
    let t = text_of_range(buf, at, at + size);
    if t.is_none() {
        return Err(DecodeError::InvalidText);
    }
    Ok(size + 2)
}

} // verus!

verus! {

pub proof fn lemma_colon_index(s: Seq<u8>, from: int)
    ensures
        colon_index(s, from) >= 0 ==> {
            &&& 0 <= from <= colon_index(s, from) < s.len()
            &&& s[colon_index(s, from)] == 58
        },
        colon_index(s, from) < 0 ==> colon_index(s, from) == -1,
        forall|k: int|
            0 <= from <= k < s.len() && (colon_index(s, from) < 0 || k < colon_index(s, from))
                ==> s[k] != 58,
    decreases s.len() - from,
{
    if 0 <= from < s.len() && s[from] != 58 {
        lemma_colon_index(s, from + 1);
    }
}

pub proof fn lemma_key_index(s: Seq<(Resp, Resp)>, k: Resp)
    ensures
        key_index(s, k) >= 0 ==> {
            &&& key_index(s, k) < s.len()
            &&& same_value(s[key_index(s, k)].0, k)
            &&& forall|j: int| 0 <= j < key_index(s, k) ==> !same_value(#[trigger] s[j].0, k)
        },
        key_index(s, k) < 0 ==> key_index(s, k) == -1 && forall|j: int|
            0 <= j < s.len() ==> !same_value(#[trigger] s[j].0, k),
    decreases s.len(),
{
    if s.len() > 0 && !same_value(s[0].0, k) {
        let t = s.drop_first();
        lemma_key_index(t, k);
        let ti = key_index(t, k);
        if ti >= 0 {
            assert(s[ti + 1] == t[ti]);
            assert forall|j: int| 0 <= j < ti + 1 implies !same_value(#[trigger] s[j].0, k) by {
                if j > 0 {
                    assert(s[j] == t[j - 1]);
                    assert(!same_value(t[j - 1].0, k));
                }
            }
        } else {
            assert forall|j: int| 0 <= j < s.len() implies !same_value(#[trigger] s[j].0, k) by {
                if j > 0 {
                    assert(s[j] == t[j - 1]);
                    assert(!same_value(t[j - 1].0, k));
                }
            }
        }
    }
}

pub proof fn lemma_member_index(s: Seq<Resp>, m: Resp)
    ensures
        member_index(s, m) >= 0 ==> {
            &&& member_index(s, m) < s.len()
            &&& same_value(s[member_index(s, m)], m)
            &&& forall|j: int| 0 <= j < member_index(s, m) ==> !same_value(#[trigger] s[j], m)
        },
        member_index(s, m) < 0 ==> member_index(s, m) == -1 && forall|j: int|
            0 <= j < s.len() ==> !same_value(#[trigger] s[j], m),
    decreases s.len(),
{
    if s.len() > 0 && !same_value(s[0], m) {
        let t = s.drop_first();
        lemma_member_index(t, m);
        let ti = member_index(t, m);
        if ti >= 0 {
            assert(s[ti + 1] == t[ti]);
            assert forall|j: int| 0 <= j < ti + 1 implies !same_value(#[trigger] s[j], m) by {
                if j > 0 {
                    assert(s[j] == t[j - 1]);
                    assert(!same_value(t[j - 1], m));
                }
            }
        } else {
            assert forall|j: int| 0 <= j < s.len() implies !same_value(#[trigger] s[j], m) by {
                if j > 0 {
                    assert(s[j] == t[j - 1]);
                    assert(!same_value(t[j - 1], m));
                }
            }
        }
    }
}

/// Whether two values have the same encoding.
fn same_encoding(a: &DataType, b: &DataType) -> (r: bool)
    ensures
        r == same_value(a.model(), b.model()),
{
    let x = a.serialize();
    let y = b.serialize();
    bytes_equal(x.as_slice(), y.as_slice())
}

fn find_key(entries: &Vec<(DataType, DataType)>, k: &DataType) -> (r: Option<usize>)
    ensures
        match r {
            Some(i) => key_index(model_pairs(entries@), k.model()) == i,
            None => key_index(model_pairs(entries@), k.model()) < 0,
        },
{
    let ghost m = model_pairs(entries@);
    proof {
        lemma_model_pairs_len(entries@);
        lemma_key_index(m, k.model());
    }
    let mut i: usize = 0;
    while i < entries.len()
        invariant
            i <= entries@.len(),
            m == model_pairs(entries@),
            m.len() == entries@.len(),
            forall|j: int| 0 <= j < entries@.len() ==> #[trigger] m[j] == (entries@[j].0.model(), entries@[j].1.model()),
            forall|j: int| 0 <= j < i ==> !same_value(#[trigger] m[j].0, k.model()),
        decreases entries@.len() - i,
    {
        if same_encoding(&entries[i].0, k) {
            proof {
                lemma_key_index(m, k.model());
                let ki = key_index(m, k.model());
                assert(same_value(m[i as int].0, k.model()));
                if ki < 0 {
                    assert(!same_value(m[i as int].0, k.model()));
                }
                if ki >= 0 && ki != i {
                    if ki < i {
                        assert(!same_value(m[ki].0, k.model()));
                    } else {
                        assert(!same_value(m[i as int].0, k.model()));
                    }
                }
            }
            return Some(i);
        }
        i += 1;
    }
    proof {
        lemma_key_index(m, k.model());
        let ki = key_index(m, k.model());
        if ki >= 0 {
            assert(!same_value(m[ki].0, k.model()));
        }
    }
    None
}

fn find_member(members: &Vec<DataType>, x: &DataType) -> (r: Option<usize>)
    ensures
        match r {
            Some(i) => member_index(model_seq(members@), x.model()) == i,
            None => member_index(model_seq(members@), x.model()) < 0,
        },
{
    let ghost m = model_seq(members@);
    proof {
        lemma_model_seq_len(members@);
        lemma_member_index(m, x.model());
    }
    let mut i: usize = 0;
    while i < members.len()
        invariant
            i <= members@.len(),
            m == model_seq(members@),
            m.len() == members@.len(),
            forall|j: int| 0 <= j < members@.len() ==> #[trigger] m[j] == members@[j].model(),
            forall|j: int| 0 <= j < i ==> !same_value(#[trigger] m[j], x.model()),
        decreases members@.len() - i,
    {
        if same_encoding(&members[i], x) {
            proof {
                lemma_member_index(m, x.model());
                let mi = member_index(m, x.model());
                assert(same_value(m[i as int], x.model()));
                if mi < 0 {
                    assert(!same_value(m[i as int], x.model()));
                }
                if mi >= 0 && mi != i {
                    if mi < i {
                        assert(!same_value(m[mi], x.model()));
                    } else {
                        assert(!same_value(m[i as int], x.model()));
                    }
                }
            }
            return Some(i);
        }
        i += 1;
    }
    proof {
        lemma_member_index(m, x.model());
        let mi = member_index(m, x.model());
        if mi >= 0 {
            assert(!same_value(m[mi], x.model()));
        }
    }
    None
}

fn insert_entry(entries: &mut Vec<(DataType, DataType)>, k: DataType, v: DataType)
    ensures
        model_pairs(final(entries)@) == map_insert(model_pairs(old(entries)@), k.model(), v.model()),
{
    proof {
        lemma_model_pairs_len(entries@);
        lemma_key_index(model_pairs(entries@), k.model());
    }
    match find_key(entries, &k) {
        Some(i) => {
            let (k0, _previous) = entries.remove(i);
            entries.insert(i, (k0, v));
            proof {
                lemma_model_pairs_len(entries@);
                assert(model_pairs(entries@) =~= map_insert(
                    model_pairs(old(entries)@),
                    k.model(),
                    v.model(),
                ));
            }
        },
        None => {
            let ghost kv = (k.model(), v.model());
            entries.push((k, v));
            proof {
                assert(entries@.drop_last() =~= old(entries)@);
            }
        },
    }
}

fn insert_member(members: &mut Vec<DataType>, x: DataType)
    ensures
        model_seq(final(members)@) == set_insert(model_seq(old(members)@), x.model()),
{
    match find_member(members, &x) {
        Some(_) => {},
        None => {
            members.push(x);
            proof {
                assert(members@.drop_last() =~= old(members)@);
            }
        },
    }
}

/// The chunks of the big-number digits `num`, least significant first.
fn read_big_chunks(num: &[u8]) -> (r: Result<Vec<u32>, DecodeError>)
    ensures
        match big_chunks(num@) {
            Ok(cs) => r matches Ok(v) && v@ == cs,
            Err(e) => r == Err::<Vec<u32>, DecodeError>(e),
        },
{
    let mut acc: Vec<u32> = Vec::new();
    let mut end: usize = num.len();
    proof {
        assert(num@.subrange(0, end as int) =~= num@);
    }
    while end > 0
        invariant
            end <= num@.len(),
            big_chunks(num@) == (match big_chunks(num@.subrange(0, end as int)) {
                Ok(rest) => Ok(acc@ + rest),
                Err(e) => Err(e),
            }),
        decreases end,
    {
        let ghost t = num@.subrange(0, end as int);
        let i: usize = if end < 9 {
            0
        } else {
            end - 9
        };
        if 128 <= num[i] && num[i] < 192 {
            proof {
                assert(t[i as int] == num@[i as int]);
            }
            return Err(DecodeError::Abort);
        }
        proof {
            assert(t.subrange(i as int, t.len() as int) =~= num@.subrange(i as int, end as int));
            assert(t.subrange(0, i as int) =~= num@.subrange(0, i as int));
        }
        match parse_u32(vstd::slice::slice_subrange(num, i, end)) {
            Err(e) => {
                return Err(DecodeError::InvalidNumber(e));
            },
            Ok(n) => {
                let ghost old_acc = acc@;
                acc.push(n);
                proof {
                    match big_chunks(num@.subrange(0, i as int)) {
                        Ok(rest) => {
                            assert(old_acc + (seq![n] + rest) =~= acc@ + rest);
                        },
                        Err(e) => {},
                    }
                }
                end = i;
            },
        }
    }
    proof {
        assert(num@.subrange(0, 0) =~= Seq::<u8>::empty());
        assert(acc@ + Seq::<u32>::empty() =~= acc@);
    }
    Ok(acc)
}

} // verus!

verus! {

/// Reads `n` values starting at `pos`.
fn decode_items_at(buf: &[u8], pos: usize, n: usize) -> (r: Result<(Vec<DataType>, usize), DecodeError>)
    requires
        pos <= buf@.len(),
    ensures
        match decode_items(suffix(buf@, pos as int), n as int) {
            Ok((vs, k)) => r matches Ok((v, m)) && model_seq(v@) == vs && m == k,
            Err(e) => r == Err::<(Vec<DataType>, usize), DecodeError>(e),
        },
    decreases buf@.len() - pos, n,
{
    let mut acc: Vec<DataType> = Vec::new();
    let mut off: usize = 0;
    let mut i: usize = 0;
    proof {
        assert(suffix(buf@, pos as int) =~= suffix(buf@, (pos + off) as int));
        assert(model_seq(acc@) =~= Seq::<Resp>::empty());
        match decode_items(suffix(buf@, pos as int), n as int) {
            Ok((vs, k)) => {
                assert(Seq::<Resp>::empty() + vs =~= vs);
            },
            Err(e) => {},
        }
    }
    let blen = buf.len();
    while i < n
        invariant
            blen == buf@.len(),
            pos + off <= buf@.len(),
            i <= n,
            decode_items(suffix(buf@, pos as int), n as int) == (match decode_items(
                suffix(buf@, (pos + off) as int),
                n - i,
            ) {
                Ok((vs, k)) => Ok((model_seq(acc@) + vs, off + k)),
                Err(e) => Err(e),
            }),
        decreases n - i,
    {
        let ghost t = suffix(buf@, (pos + off) as int);
        proof {
            lemma_decode_consumes(t);
        }
        match decode_at(buf, pos + off) {
            Err(e) => {
                return Err(e);
            },
            Ok((d, k)) => {
                let ghost old_acc = acc@;
                proof {
                    assert(t.subrange(k as int, t.len() as int) =~= suffix(buf@, pos + off + k));
                    lemma_model_seq_len(acc@);
                }
                acc.push(d);
                proof {
                    assert(acc@.drop_last() =~= old_acc);
                    match decode_items(suffix(buf@, pos + off + k), n - i - 1) {
                        Ok((vs, k2)) => {
                            assert(model_seq(old_acc) + (seq![d.model()] + vs) =~= model_seq(acc@)
                                + vs);
                        },
                        Err(e) => {},
                    }
                }
                off = off + k;
                i = i + 1;
            },
        }
    }
    proof {
        assert(model_seq(acc@) + Seq::<Resp>::empty() =~= model_seq(acc@));
    }
    Ok((acc, off))
}

/// Reads `n` key-value pairs starting at `pos` into a map.
fn decode_pairs_at(buf: &[u8], pos: usize, n: usize) -> (r: Result<
    (Vec<(DataType, DataType)>, usize),
    DecodeError,
>)
    requires
        pos <= buf@.len(),
    ensures
        match decode_pairs(suffix(buf@, pos as int), n as int, seq![]) {
            Ok((es, k)) => r matches Ok((v, m)) && model_pairs(v@) == es && m == k,
            Err(e) => r == Err::<(Vec<(DataType, DataType)>, usize), DecodeError>(e),
        },
    decreases buf@.len() - pos, n,
{
    let mut acc: Vec<(DataType, DataType)> = Vec::new();
    let mut off: usize = 0;
    let mut i: usize = 0;
    proof {
        assert(suffix(buf@, pos as int) =~= suffix(buf@, (pos + off) as int));
        assert(model_pairs(acc@) =~= Seq::<(Resp, Resp)>::empty());
    }
    let blen = buf.len();
    while i < n
        invariant
            blen == buf@.len(),
            pos + off <= buf@.len(),
            i <= n,
            decode_pairs(suffix(buf@, pos as int), n as int, seq![]) == (match decode_pairs(
                suffix(buf@, (pos + off) as int),
                n - i,
                model_pairs(acc@),
            ) {
                Ok((es, k)) => Ok((es, off + k)),
                Err(e) => Err(e),
            }),
        decreases n - i,
    {
        let ghost t = suffix(buf@, (pos + off) as int);
        proof {
            lemma_decode_consumes(t);
        }
        match decode_at(buf, pos + off) {
            Err(e) => {
                return Err(e);
            },
            Ok((key, k1)) => {
                let ghost t2 = suffix(buf@, pos + off + k1);
                proof {
                    assert(t.subrange(k1 as int, t.len() as int) =~= t2);
                    lemma_decode_consumes(t2);
                }
                match decode_at(buf, pos + off + k1) {
                    Err(e) => {
                        return Err(e);
                    },
                    Ok((val, k2)) => {
                        proof {
                            assert(t2.subrange(k2 as int, t2.len() as int) =~= suffix(
                                buf@,
                                pos + off + k1 + k2,
                            ));
                        }
                        insert_entry(&mut acc, key, val);
                        off = off + k1 + k2;
                        i = i + 1;
                    },
                }
            },
        }
    }
    Ok((acc, off))
}

/// Reads `n` values starting at `pos` into a set.
fn decode_members_at(buf: &[u8], pos: usize, n: usize) -> (r: Result<(Vec<DataType>, usize), DecodeError>)
    requires
        pos <= buf@.len(),
    ensures
        match decode_members(suffix(buf@, pos as int), n as int, seq![]) {
            Ok((ms, k)) => r matches Ok((v, m)) && model_seq(v@) == ms && m == k,
            Err(e) => r == Err::<(Vec<DataType>, usize), DecodeError>(e),
        },
    decreases buf@.len() - pos, n,
{
    let mut acc: Vec<DataType> = Vec::new();
    let mut off: usize = 0;
    let mut i: usize = 0;
    proof {
        assert(suffix(buf@, pos as int) =~= suffix(buf@, (pos + off) as int));
        assert(model_seq(acc@) =~= Seq::<Resp>::empty());
    }
    let blen = buf.len();
    while i < n
        invariant
            blen == buf@.len(),
            pos + off <= buf@.len(),
            i <= n,
            decode_members(suffix(buf@, pos as int), n as int, seq![]) == (match decode_members(
                suffix(buf@, (pos + off) as int),
                n - i,
                model_seq(acc@),
            ) {
                Ok((ms, k)) => Ok((ms, off + k)),
                Err(e) => Err(e),
            }),
        decreases n - i,
    {
        let ghost t = suffix(buf@, (pos + off) as int);
        proof {
            lemma_decode_consumes(t);
        }
        match decode_at(buf, pos + off) {
            Err(e) => {
                return Err(e);
            },
            Ok((m, k)) => {
                proof {
                    assert(t.subrange(k as int, t.len() as int) =~= suffix(buf@, pos + off + k));
                }
                insert_member(&mut acc, m);
                off = off + k;
                i = i + 1;
            },
        }
    }
    Ok((acc, off))
}

/// The value of a header that decides it alone.
fn decode_header_value(buf: &[u8], pos: usize, lead: u8, hl: usize) -> (r: Result<
    (DataType, usize),
    DecodeError,
>)
    requires
        pos + hl <= buf@.len(),
        4 <= hl,
        lead == buf@[pos as int],
        header_decides(lead, buf@.subrange(pos + 1, pos + hl - 2)),
    ensures
        decoded_as(
            header_value(lead, buf@[pos + 1], buf@.subrange(pos + 1, pos + hl - 2), hl as int),
            r,
        ),
{
    let _blen = buf.len();
    let ghost c = buf@.subrange(pos + 1, pos + hl - 2);
    if lead == 95 {
        return Ok((DataType::Null, hl));
    }
    if lead == 35 {
        if buf[pos + 1] == 116 {
            return Ok((DataType::Boolean(true), hl));
        } else if buf[pos + 1] == 102 {
            return Ok((DataType::Boolean(false), hl));
        } else {
            return Err(DecodeError::InvalidBoolean);
        }
    }
    if !(lead == 43 || lead == 45 || lead == 58 || lead == 36 || lead == 42 || lead == 44 || lead
        == 40 || lead == 33 || lead == 61 || lead == 37 || lead == 124 || lead == 126 || lead
        == 62) {
        return Err(DecodeError::UnknownLead);
    }
    let cs = pos + 1;
    let ce = pos + hl - 2;
    let text = match text_of_range(buf, cs, ce) {
        Some(t) => t,
        None => {
            return Err(DecodeError::Abort);
        },
    };
    if lead == 43 {
        return Ok((DataType::SimpleString(text), hl));
    }
    if lead == 45 {
        return Ok((DataType::SimpleError(text), hl));
    }
    if lead == 58 {
        return match parse_i64(vstd::slice::slice_subrange(buf, cs, ce)) {
            Ok(i) => Ok((DataType::Integer(i), hl)),
            Err(e) => Err(DecodeError::InvalidNumber(e)),
        };
    }
    if lead == 44 {
        return Ok((DataType::Double(text), hl));
    }
    if lead == 40 {
        let positive = buf[cs] != 45;
        let start = if positive {
            cs
        } else {
            cs + 1
        };
        proof {
            assert(c[0] == buf@[cs as int]);
            if !positive {
                assert(c.drop_first() =~= buf@.subrange(start as int, ce as int));
            } else {
                assert(c =~= buf@.subrange(start as int, ce as int));
            }
        }
        return match read_big_chunks(vstd::slice::slice_subrange(buf, start, ce)) {
            Ok(chunks) => Ok((DataType::BigNumber(positive, chunks), hl)),
            Err(e) => Err(e),
        };
    }
    if lead == 36 {
        Ok((DataType::NullBulkString, hl))
    } else {
        Ok((DataType::NullBulkArray, hl))
    }
}

/// A bulk string, bulk error or verbatim string whose payload starts at `at`.
fn decode_payload_value(buf: &[u8], lead: u8, at: usize, size: usize, hl: usize) -> (r: Result<
    (DataType, usize),
    DecodeError,
>)
    requires
        at <= buf@.len(),
        hl <= at,
        lead == 36 || lead == 33 || lead == 61,
    ensures
        decoded_as(payload_value(lead, suffix(buf@, at as int), size as int, hl as int), r),
{
    let _blen = buf.len();
    let pl = match read_payload(buf, at, size) {
        Ok(pl) => pl,
        Err(e) => {
            return Err(e);
        },
    };
    if lead == 36 || lead == 33 {
        let value = match text_of_range(buf, at, at + size) {
            Some(t) => t,
            None => {
                return Err(DecodeError::InvalidText);
            },
        };
        if lead == 36 {
            return Ok((DataType::BulkString(value), hl + pl));
        } else {
            return Ok((DataType::BulkError(value), hl + pl));
        }
    }
    let ghost p = buf@.subrange(at as int, at + size);
    proof {
        lemma_colon_index(p, 0);
    }
    let end = at + size;
    let mut j: usize = at;
    while j < end && buf[j] != 58
        invariant
            at <= j <= end <= buf@.len(),
            end == at + size,
            p == buf@.subrange(at as int, at + size),
            forall|k: int| at <= k < j ==> buf@[k] != 58,
        decreases end - j,
    {
        j += 1;
    }
    if j >= end {
        proof {
            let ci = colon_index(p, 0);
            if ci >= 0 {
                assert(p[ci] == buf@[at + ci]);
            }
        }
        return Err(DecodeError::MissingColon);
    }
    proof {
        let ci = colon_index(p, 0);
        assert(p[j - at] == 58);
        if ci >= 0 {
            assert(p[ci] == buf@[at + ci]);
        }
        assert(ci == j - at);
        assert(p.subrange(0, ci) =~= buf@.subrange(at as int, j as int));
        assert(p.subrange(ci + 1, p.len() as int) =~= buf@.subrange(j + 1, at + size));
    }
    let enc = text_of_range(buf, at, j);
    let data = text_of_range(buf, j + 1, end);
    match (enc, data) {
        (Some(e), Some(d)) => Ok((DataType::VerbatimString(e, d), hl + pl)),
        _ => Err(DecodeError::InvalidText),
    }
}

/// Reads one value starting at `pos`.
fn decode_at(buf: &[u8], pos: usize) -> (r: Result<(DataType, usize), DecodeError>)
    requires
        pos <= buf@.len(),
    ensures
        decoded_as(decode(suffix(buf@, pos as int)), r),
    decreases buf@.len() - pos, 0int,
{
    let ghost s = suffix(buf@, pos as int);
    let blen = buf.len();
    let (lead, hl) = match read_header(buf, pos) {
        Ok(h) => h,
        Err(e) => {
            return Err(e);
        },
    };
    let at = pos + hl;
    let ghost c = buf@.subrange(pos + 1, pos + hl - 2);
    proof {
        assert(s.subrange(hl as int, s.len() as int) =~= suffix(buf@, at as int));
        assert(s[0] == buf@[pos as int]);
        assert(s[1] == buf@[pos + 1]);
    }
    let cs = pos + 1;
    let ce = pos + hl - 2;
    let body = lead == 36 || lead == 42 || lead == 33 || lead == 61 || lead == 37 || lead == 124
        || lead == 126 || lead == 62;
    let decides = if !body {
        true
    } else if text_of_range(buf, cs, ce).is_none() {
        true
    } else {
        (lead == 36 || lead == 42) && ce - cs == 2 && buf[cs] == 45 && buf[cs + 1] == 49
    };
    proof {
        if c.len() == 2 && c[0] == 45 && c[1] == 49 {
            assert(c[0] == buf@[cs as int]);
            assert(c[1] == buf@[cs + 1]);
            assert(c =~= seq![45u8, 49u8]);
        }
        if ce - cs == 2 && buf@[cs as int] == 45 && buf@[cs + 1] == 49 {
            assert(c =~= seq![45u8, 49u8]);
        }
        assert(decides == header_decides(lead, c));
        lemma_parse_bounds(c, false, usize::MAX as int, 0);
        assert(c =~= buf@.subrange(cs as int, ce as int));
    }
    if decides {
        return decode_header_value(buf, pos, lead, hl);
    }
    let size = match parse_usize(vstd::slice::slice_subrange(buf, cs, ce)) {
        Ok(n) => n,
        Err(e) => {
            return Err(DecodeError::InvalidNumber(e));
        },
    };
    if lead == 36 || lead == 33 || lead == 61 {
        return decode_payload_value(buf, lead, at, size, hl);
    }
    proof {
        lemma_pairs_consume(suffix(buf@, at as int), size as int, seq![]);
        lemma_members_consume(suffix(buf@, at as int), size as int, seq![]);
        lemma_items_consume(suffix(buf@, at as int), size as int);
    }
    if lead == 37 || lead == 124 {
        return match decode_pairs_at(buf, at, size) {
            Err(e) => Err(e),
            Ok((entries, k)) => if lead == 37 {
                Ok((DataType::Dictionary(entries), hl + k))
            } else {
                Ok((DataType::Attribute(entries), hl + k))
            },
        };
    }
    if lead == 126 {
        return match decode_members_at(buf, at, size) {
            Err(e) => Err(e),
            Ok((members, k)) => Ok((DataType::SetOf(members), hl + k)),
        };
    }
    match decode_items_at(buf, at, size) {
        Err(e) => Err(e),
        Ok((items, k)) => if lead == 42 {
            Ok((DataType::Array(items), hl + k))
        } else {
            Ok((DataType::Push(items), hl + k))
        },
    }
}

impl DataType {
    /// Reads one value from the start of `buf`: the value and the number of
    /// bytes it takes. `Err(DecodeError::Incomplete)` means that `buf` ends
    /// before the value does.
    pub fn deserialize(buf: &[u8]) -> (r: Result<(DataType, usize), DecodeError>)
        ensures
            decoded_as(decode(buf@), r),
    {
        proof {
            assert(suffix(buf@, 0) =~= buf@);
        }
        decode_at(buf, 0)
    }
}

} // verus!
