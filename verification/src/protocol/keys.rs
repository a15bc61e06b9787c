//! Maps and sets read from the wire hold no two equal keys, at any depth.
use vstd::prelude::*;
use crate::protocol::data_type::{Resp, same_value, distinct_keys, distinct_members};
use crate::protocol::decode::{
    decode, decode_items, decode_pairs, decode_members, key_index, member_index, map_insert,
    set_insert, lemma_key_index, lemma_member_index,
};

verus! {

/// Every map, attribute and set in `r`, at any depth, has no two keys (or
/// members) with equal encodings.
pub open spec fn keys_unique(r: Resp) -> bool
    decreases r,
{
    match r {
        Resp::Array(v) => keys_unique_seq(v),
        Resp::Push(v) => keys_unique_seq(v),
        Resp::SetOf(v) => distinct_members(v) && keys_unique_seq(v),
        Resp::Dictionary(p) => distinct_keys(p) && keys_unique_pairs(p),
        Resp::Attribute(p) => distinct_keys(p) && keys_unique_pairs(p),
        _ => true,
    }
}

pub open spec fn keys_unique_seq(s: Seq<Resp>) -> bool
    decreases s,
{
    if s.len() == 0 {
        true
    } else {
        keys_unique_seq(s.drop_last()) && keys_unique(s.last())
    }
}

pub open spec fn keys_unique_pairs(s: Seq<(Resp, Resp)>) -> bool
    decreases s,
{
    if s.len() == 0 {
        true
    } else {
        keys_unique_pairs(s.drop_last()) && keys_unique(s.last().0) && keys_unique(s.last().1)
    }
}

pub open spec fn pair_keys_unique(p: (Resp, Resp)) -> bool {
    keys_unique(p.0) && keys_unique(p.1)
}

proof fn lemma_unique_seq(s: Seq<Resp>)
    ensures
        keys_unique_seq(s) <==> forall|i: int| 0 <= i < s.len() ==> #[trigger] keys_unique(s[i]),
    decreases s.len(),
{
    if s.len() > 0 {
        lemma_unique_seq(s.drop_last());
        assert(s.last() == s[s.len() - 1]);
        if forall|i: int| 0 <= i < s.len() ==> #[trigger] keys_unique(s[i]) {
            assert(keys_unique(s[s.len() - 1]));
            assert forall|i: int| 0 <= i < s.drop_last().len() implies #[trigger] keys_unique(
                s.drop_last()[i],
            ) by {
                assert(s.drop_last()[i] == s[i]);
            }
        }
        if keys_unique_seq(s) {
            assert forall|i: int| 0 <= i < s.len() implies #[trigger] keys_unique(s[i]) by {
                if i < s.len() - 1 {
                    assert(s.drop_last()[i] == s[i]);
                }
            }
        }
    }
}

proof fn lemma_unique_pairs(s: Seq<(Resp, Resp)>)
    ensures
        keys_unique_pairs(s) <==> forall|i: int| 0 <= i < s.len() ==> #[trigger] pair_keys_unique(s[i]),
    decreases s.len(),
{
    if s.len() > 0 {
        lemma_unique_pairs(s.drop_last());
        assert(s.last() == s[s.len() - 1]);
        if forall|i: int| 0 <= i < s.len() ==> #[trigger] pair_keys_unique(s[i]) {
            assert(pair_keys_unique(s[s.len() - 1]));
            assert forall|i: int| 0 <= i < s.drop_last().len() implies #[trigger] pair_keys_unique(
                s.drop_last()[i],
            ) by {
                assert(s.drop_last()[i] == s[i]);
            }
        }
        if keys_unique_pairs(s) {
            assert forall|i: int| 0 <= i < s.len() implies #[trigger] pair_keys_unique(s[i]) by {
                if i < s.len() - 1 {
                    assert(s.drop_last()[i] == s[i]);
                }
            }
        }
    }
}

proof fn lemma_map_insert_unique(acc: Seq<(Resp, Resp)>, k: Resp, v: Resp)
    requires
        distinct_keys(acc),
        keys_unique_pairs(acc),
        keys_unique(k),
        keys_unique(v),
    ensures
        distinct_keys(map_insert(acc, k, v)),
        keys_unique_pairs(map_insert(acc, k, v)),
{
    lemma_key_index(acc, k);
    lemma_unique_pairs(acc);
    let r = map_insert(acc, k, v);
    let i = key_index(acc, k);
    if i >= 0 {
        assert forall|j: int| 0 <= j < r.len() implies #[trigger] r[j].0 == acc[j].0 by {}
        assert forall|a: int, b: int| 0 <= a < b < r.len() implies !same_value(
            #[trigger] r[a].0,
            #[trigger] r[b].0,
        ) by {
            assert(r[a].0 == acc[a].0);
            assert(r[b].0 == acc[b].0);
        }
        assert forall|j: int| 0 <= j < r.len() implies #[trigger] pair_keys_unique(r[j]) by {
            if j != i {
                assert(r[j] == acc[j]);
            } else {
                assert(pair_keys_unique(acc[i]));
            }
        }
    } else {
        assert forall|a: int, b: int| 0 <= a < b < r.len() implies !same_value(
            #[trigger] r[a].0,
            #[trigger] r[b].0,
        ) by {
            assert(r[a] == acc[a]);
            if b < acc.len() {
                assert(r[b] == acc[b]);
            } else {
                assert(r[b].0 == k);
                assert(!same_value(acc[a].0, k));
                if same_value(r[a].0, r[b].0) {
                    assert(same_value(acc[a].0, k));
                }
            }
        }
        assert forall|j: int| 0 <= j < r.len() implies #[trigger] pair_keys_unique(r[j]) by {
            if j < acc.len() {
                assert(r[j] == acc[j]);
            }
        }
    }
    lemma_unique_pairs(r);
}

proof fn lemma_set_insert_unique(acc: Seq<Resp>, m: Resp)
    requires
        distinct_members(acc),
        keys_unique_seq(acc),
        keys_unique(m),
    ensures
        distinct_members(set_insert(acc, m)),
        keys_unique_seq(set_insert(acc, m)),
{
    lemma_member_index(acc, m);
    lemma_unique_seq(acc);
    let r = set_insert(acc, m);
    if member_index(acc, m) < 0 {
        assert forall|a: int, b: int| 0 <= a < b < r.len() implies !same_value(
            #[trigger] r[a],
            #[trigger] r[b],
        ) by {
            assert(r[a] == acc[a]);
            if b < acc.len() {
                assert(r[b] == acc[b]);
            } else {
                assert(r[b] == m);
                assert(!same_value(acc[a], m));
            }
        }
        assert forall|j: int| 0 <= j < r.len() implies #[trigger] keys_unique(r[j]) by {
            if j < acc.len() {
                assert(r[j] == acc[j]);
            }
        }
        lemma_unique_seq(r);
    }
}

/// Every map, attribute and set that the decoder reads, at any depth, has
/// no two keys (or members) with equal encodings.
pub proof fn law_decoded_keys_unique(buf: Seq<u8>)
    ensures
        decode(buf) matches Ok((v, k)) ==> keys_unique(v),
    decreases buf.len(), 0int,
{
    crate::protocol::decode::lemma_newline_index(buf, 0);
    if let Ok((lead, c, hl)) = crate::protocol::decode::header(buf) {
        let rest = buf.subrange(hl, buf.len() as int);
        if let Ok(size) = crate::protocol::decode::size_of(c) {
            lemma_items_unique(rest, size);
            assert(distinct_keys(Seq::<(Resp, Resp)>::empty()));
            assert(distinct_members(Seq::<Resp>::empty()));
            lemma_pairs_unique(rest, size, seq![]);
            lemma_members_unique(rest, size, seq![]);
        }
    }
}

proof fn lemma_items_unique(buf: Seq<u8>, n: int)
    ensures
        decode_items(buf, n) matches Ok((vs, k)) ==> keys_unique_seq(vs),
    decreases buf.len(), n,
{
    if n > 0 {
        law_decoded_keys_unique(buf);
        if let Ok((v, k)) = decode(buf) {
            if 0 < k <= buf.len() {
                let t = buf.subrange(k, buf.len() as int);
                lemma_items_unique(t, n - 1);
                if let Ok((vs, k2)) = decode_items(t, n - 1) {
                    let all = seq![v] + vs;
                    lemma_unique_seq(vs);
                    assert forall|i: int| 0 <= i < all.len() implies #[trigger] keys_unique(
                        all[i],
                    ) by {
                        if i > 0 {
                            assert(all[i] == vs[i - 1]);
                        }
                    }
                    lemma_unique_seq(all);
                }
            }
        }
    } else {
        assert(keys_unique_seq(Seq::<Resp>::empty()));
    }
}

proof fn lemma_pairs_unique(buf: Seq<u8>, n: int, acc: Seq<(Resp, Resp)>)
    requires
        distinct_keys(acc),
        keys_unique_pairs(acc),
    ensures
        decode_pairs(buf, n, acc) matches Ok((ps, k)) ==> distinct_keys(ps) && keys_unique_pairs(
            ps,
        ),
    decreases buf.len(), n,
{
    if n > 0 {
        law_decoded_keys_unique(buf);
        if let Ok((key, k1)) = decode(buf) {
            if 0 < k1 <= buf.len() {
                let b2 = buf.subrange(k1, buf.len() as int);
                law_decoded_keys_unique(b2);
                if let Ok((v, k2)) = decode(b2) {
                    if 0 < k2 <= b2.len() {
                        lemma_map_insert_unique(acc, key, v);
                        lemma_pairs_unique(
                            b2.subrange(k2, b2.len() as int),
                            n - 1,
                            map_insert(acc, key, v),
                        );
                    }
                }
            }
        }
    }
}

proof fn lemma_members_unique(buf: Seq<u8>, n: int, acc: Seq<Resp>)
    requires
        distinct_members(acc),
        keys_unique_seq(acc),
    ensures
        decode_members(buf, n, acc) matches Ok((ms, k)) ==> distinct_members(ms)
            && keys_unique_seq(ms),
    decreases buf.len(), n,
{
    if n > 0 {
        law_decoded_keys_unique(buf);
        if let Ok((m, k)) = decode(buf) {
            if 0 < k <= buf.len() {
                lemma_set_insert_unique(acc, m);
                lemma_members_unique(buf.subrange(k, buf.len() as int), n - 1, set_insert(acc, m));
            }
        }
    }
}

} // verus!
