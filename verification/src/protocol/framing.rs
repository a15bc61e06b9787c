//! Framing: a value read from the front of a buffer does not depend on the
//! bytes that arrive after it.
use vstd::prelude::*;
use crate::protocol::data_type::Resp;
use crate::text::lemma_parse_bounds;
use crate::protocol::decode::{
    DecodeError, decode, decode_items, decode_pairs, decode_members, header, newline_index,
    lemma_newline_index, size_of, payload, header_decides, map_insert, set_insert,
};

verus! {

proof fn lemma_newline_append(s: Seq<u8>, more: Seq<u8>, from: int)
    requires
        0 <= from,
        newline_index(s, from) >= 0,
    ensures
        newline_index(s + more, from) == newline_index(s, from),
    decreases s.len() - from,
{
    if from < s.len() && s[from] != 10 {
        lemma_newline_append(s, more, from + 1);
    }
}

proof fn lemma_header_append(buf: Seq<u8>, more: Seq<u8>)
    requires
        header(buf) is Ok,
    ensures
        header(buf + more) == header(buf),
        (buf + more)[1] == buf[1],
{
    lemma_newline_index(buf, 0);
    lemma_newline_append(buf, more, 0);
    let nl = newline_index(buf, 0);
    let b2 = buf + more;
    assert(b2.subrange(0, nl + 1) =~= buf.subrange(0, nl + 1));
    assert(b2.subrange(1, nl - 1) =~= buf.subrange(1, nl - 1));
}

proof fn lemma_payload_append(rest: Seq<u8>, more: Seq<u8>, size: int)
    requires
        0 <= size,
        payload(rest, size) is Ok,
    ensures
        payload(rest + more, size) == payload(rest, size),
{
    assert((rest + more).subrange(0, size) =~= rest.subrange(0, size));
}

/// Bytes that arrive after a complete value do not change what is read:
/// the same value, taking the same number of bytes.
pub proof fn law_decode_append(buf: Seq<u8>, more: Seq<u8>)
    requires
        decode(buf) is Ok,
    ensures
        decode(buf + more) == decode(buf),
    decreases buf.len(), 0int,
{
    lemma_newline_index(buf, 0);
    lemma_header_append(buf, more);
    let (lead, c, hl) = header(buf)->Ok_0;
    let b2 = buf + more;
    let rest = buf.subrange(hl, buf.len() as int);
    assert(b2.subrange(hl, b2.len() as int) =~= rest + more);
    lemma_parse_bounds(c, false, usize::MAX as int, 0);
    if !header_decides(lead, c) {
        if let Ok(size) = size_of(c) {
            if lead == 36 || lead == 33 || lead == 61 {
                lemma_payload_append(rest, more, size);
            } else if lead == 37 || lead == 124 {
                lemma_pairs_append(rest, size, seq![], more);
            } else if lead == 126 {
                lemma_members_append(rest, size, seq![], more);
            } else {
                lemma_items_append(rest, size, more);
            }
        }
    }
}

proof fn lemma_items_append(buf: Seq<u8>, n: int, more: Seq<u8>)
    requires
        decode_items(buf, n) is Ok,
    ensures
        decode_items(buf + more, n) == decode_items(buf, n),
    decreases buf.len(), n,
{
    if n > 0 {
        law_decode_append(buf, more);
        let k = decode(buf)->Ok_0.1;
        let t = buf.subrange(k, buf.len() as int);
        assert((buf + more).subrange(k, (buf + more).len() as int) =~= t + more);
        lemma_items_append(t, n - 1, more);
    }
}

proof fn lemma_pairs_append(buf: Seq<u8>, n: int, acc: Seq<(Resp, Resp)>, more: Seq<u8>)
    requires
        decode_pairs(buf, n, acc) is Ok,
    ensures
        decode_pairs(buf + more, n, acc) == decode_pairs(buf, n, acc),
    decreases buf.len(), n,
{
    if n > 0 {
        law_decode_append(buf, more);
        let (key, k1) = decode(buf)->Ok_0;
        let b2 = buf.subrange(k1, buf.len() as int);
        assert((buf + more).subrange(k1, (buf + more).len() as int) =~= b2 + more);
        law_decode_append(b2, more);
        let (v, k2) = decode(b2)->Ok_0;
        let b3 = b2.subrange(k2, b2.len() as int);
        assert((b2 + more).subrange(k2, (b2 + more).len() as int) =~= b3 + more);
        lemma_pairs_append(b3, n - 1, map_insert(acc, key, v), more);
    }
}

proof fn lemma_members_append(buf: Seq<u8>, n: int, acc: Seq<Resp>, more: Seq<u8>)
    requires
        decode_members(buf, n, acc) is Ok,
    ensures
        decode_members(buf + more, n, acc) == decode_members(buf, n, acc),
    decreases buf.len(), n,
{
    if n > 0 {
        law_decode_append(buf, more);
        let (m, k) = decode(buf)->Ok_0;
        let t = buf.subrange(k, buf.len() as int);
        assert((buf + more).subrange(k, (buf + more).len() as int) =~= t + more);
        lemma_members_append(t, n - 1, set_insert(acc, m), more);
    }
}

} // verus!
