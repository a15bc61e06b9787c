//! The human-readable text of a RESP value.
use vstd::prelude::*;
use vstd::utf8::{decode_utf8, valid_utf8};
use crate::protocol::data_type::{
    DataType, Resp, model_seq, model_pairs, lemma_model_seq_len, lemma_model_pairs_len, big_text,
    big_number_text, lemma_big_text_digits,
};
use crate::text::{decimal_int, fmt_i64, lemma_decimal_valid, lemma_ascii_valid, text_of_valid};

verus! {

broadcast use vstd::utf8::valid_utf8_concat;

/// The text of a value.
pub open spec fn shown(r: Resp) -> Seq<char>
    decreases r,
{
    match r {
        Resp::SimpleString(s) => s,
        Resp::SimpleError(s) => "-"@ + s,
        Resp::Integer(i) => decode_utf8(decimal_int(i as int)),
        Resp::BulkString(s) => s,
        Resp::NullBulkString => "$NULL"@,
        Resp::BulkError(s) => "!"@ + s,
        Resp::Array(v) => "["@ + shown_joined(v) + "]"@,
        Resp::NullBulkArray => "*NULL"@,
        Resp::Null => "NULL"@,
        Resp::Boolean(b) => if b {
            "true"@
        } else {
            "false"@
        },
        Resp::Double(s) => s,
        Resp::BigNumber(p, v) => (if p {
            ""@
        } else {
            "-"@
        }) + decode_utf8(big_text(v)),
        Resp::VerbatimString(e, d) => e + ":"@ + d,
        Resp::Dictionary(v) => "{"@ + marked(shown_entries(v), v.len()) + "}"@,
        Resp::Attribute(v) => "{"@ + marked(shown_entries(v), v.len()) + "}"@,
        Resp::SetOf(v) => "["@ + marked(shown_joined(v), v.len()) + "]"@,
        Resp::Push(v) => "["@ + shown_joined(v) + "]"@,
    }
}

/// A `%` in front of the text of a map or set that is not empty.
pub open spec fn marked(s: Seq<char>, n: nat) -> Seq<char> {
    if n == 0 {
        seq![]
    } else {
        "%"@ + s
    }
}

/// The texts of values, separated by single spaces.
pub open spec fn shown_joined(s: Seq<Resp>) -> Seq<char>
    decreases s,
{
    if s.len() == 0 {
        seq![]
    } else if s.len() == 1 {
        shown(s[0])
    } else {
        shown_joined(s.drop_last()) + " "@ + shown(s.last())
    }
}

/// The entries of a map as `key:value`, separated by single spaces.
pub open spec fn shown_entries(s: Seq<(Resp, Resp)>) -> Seq<char>
    decreases s,
{
    if s.len() == 0 {
        seq![]
    } else if s.len() == 1 {
        shown(s[0].0) + ":"@ + shown(s[0].1)
    } else {
        shown_entries(s.drop_last()) + " "@ + shown(s.last().0) + ":"@ + shown(s.last().1)
    }
}

proof fn lemma_decimal_int_valid(i: int)
    ensures
        valid_utf8(decimal_int(i)),
{
    if i < 0 {
        lemma_decimal_valid((-i) as nat);
        lemma_ascii_valid(seq![45u8]);
    } else {
        lemma_decimal_valid(i as nat);
    }
}

/// The digits of a big number, as a string.
fn chunk_text(chunks: &Vec<u32>) -> (r: String)
    ensures
        r@ == decode_utf8(big_text(chunks@)),
{
    let num = big_number_text(chunks);
    proof {
        lemma_big_text_digits(chunks@);
        lemma_ascii_valid(num@);
    }
    text_of_valid(num)
}

fn joined_text(items: &Vec<DataType>) -> (r: String)
    ensures
        r@ == shown_joined(model_seq(items@)),
    decreases items,
{
    let mut out = String::new();
    let mut i: usize = 0;
    proof {
        lemma_model_seq_len(items@);
    }
    while i < items.len()
        invariant
            i <= items@.len(),
            out@ == shown_joined(model_seq(items@.subrange(0, i as int))),
        decreases items@.len() - i,
    {
        proof {
            assert(decreases_to!(items@ => items@[i as int]));
            assert(decreases_to!(*items => items@));
        }
        let part = items[i].to_string();
        let ghost before = out@;
        if i > 0 {
            out.append(" ");
        }
        out.append(part.as_str());
        proof {
            let pre = items@.subrange(0, i as int);
            let nxt = items@.subrange(0, i + 1);
            assert(nxt.drop_last() =~= pre);
            lemma_model_seq_len(pre);
            lemma_model_seq_len(nxt);
            let mp = model_seq(pre);
            let mn = model_seq(nxt);
            assert(mn.drop_last() =~= mp);
            assert(mn.last() == items@[i as int].model());
            if i == 0 {
                assert(mn[0] == mn.last());
                assert(before =~= Seq::<char>::empty());
                assert(out@ =~= shown_joined(mn));
            } else {
                assert(out@ =~= shown_joined(mn));
            }
        }
        i += 1;
    }
    proof {
        assert(items@.subrange(0, items@.len() as int) =~= items@);
    }
    out
}

fn entries_text(items: &Vec<(DataType, DataType)>) -> (r: String)
    ensures
        r@ == shown_entries(model_pairs(items@)),
    decreases items,
{
    let mut out = String::new();
    let mut i: usize = 0;
    while i < items.len()
        invariant
            i <= items@.len(),
            out@ == shown_entries(model_pairs(items@.subrange(0, i as int))),
        decreases items@.len() - i,
    {
        proof {
            assert(decreases_to!(items@ => items@[i as int]));
            assert(decreases_to!(*items => items@));
            assert(decreases_to!(items@[i as int] => items@[i as int].0));
            assert(decreases_to!(items@[i as int] => items@[i as int].1));
        }
        let k = items[i].0.to_string();
        let v = items[i].1.to_string();
        let ghost before = out@;
        if i > 0 {
            out.append(" ");
        }
        out.append(k.as_str());
        out.append(":");
        out.append(v.as_str());
        proof {
            let pre = items@.subrange(0, i as int);
            let nxt = items@.subrange(0, i + 1);
            assert(nxt.drop_last() =~= pre);
            lemma_model_pairs_len(pre);
            lemma_model_pairs_len(nxt);
            let mp = model_pairs(pre);
            let mn = model_pairs(nxt);
            assert(mn.drop_last() =~= mp);
            assert(mn.last() == (items@[i as int].0.model(), items@[i as int].1.model()));
            if i == 0 {
                assert(mn[0] == mn.last());
                assert(before =~= Seq::<char>::empty());
                assert(out@ =~= shown_entries(mn));
            } else {
                assert(out@ =~= shown_entries(mn));
            }
        }
        i += 1;
    }
    proof {
        assert(items@.subrange(0, items@.len() as int) =~= items@);
    }
    out
}

/// `open`, a `%` when `mark` holds, `body` and `close`, one after another.
fn enclose(open: &str, mark: bool, body: &str, close: &str) -> (r: String)
    ensures
        r@ == open@ + (if mark {
            "%"@
        } else {
            Seq::<char>::empty()
        }) + body@ + close@,
{
    let mut out = String::from_str(open);
    if mark {
        out.append("%");
    }
    out.append(body);
    out.append(close);
    proof {
        if !mark {
            assert(open@ + Seq::<char>::empty() =~= open@);
        }
    }
    out
}

/// `prefix` followed by `s`.
fn prefixed(prefix: &str, s: &str) -> (r: String)
    ensures
        r@ == prefix@ + s@,
{
    let mut out = String::from_str(prefix);
    out.append(s);
    out
}

impl DataType {
    /// The human-readable text of this value.
    pub fn to_string(&self) -> (r: String)
        ensures
            r@ == shown(self.model()),
        decreases self,
    {
        match self {
            DataType::SimpleString(s) => String::from_str(s.as_str()),
            DataType::SimpleError(s) => prefixed("-", s.as_str()),
            DataType::Integer(i) => {
                proof {
                    lemma_decimal_int_valid(*i as int);
                }
                text_of_valid(fmt_i64(*i))
            },
            DataType::BulkString(s) => String::from_str(s.as_str()),
            DataType::NullBulkString => String::from_str("$NULL"),
            DataType::BulkError(s) => prefixed("!", s.as_str()),
            DataType::Array(v) => {
                proof {
                    assert(decreases_to!(*self => (*self)->Array_0));
                }
                let body = joined_text(v);
                enclose("[", false, body.as_str(), "]")
            },
            DataType::NullBulkArray => String::from_str("*NULL"),
            DataType::Null => String::from_str("NULL"),
            DataType::Boolean(b) => if *b {
                String::from_str("true")
            } else {
                String::from_str("false")
            },
            DataType::Double(s) => String::from_str(s.as_str()),
            DataType::BigNumber(p, v) => {
                let digits = chunk_text(v);
                if *p {
                    prefixed("", digits.as_str())
                } else {
                    prefixed("-", digits.as_str())
                }
            },
            DataType::VerbatimString(e, d) => {
                let mut out = String::from_str(e.as_str());
                out.append(":");
                out.append(d.as_str());
                out
            },
            DataType::Dictionary(v) => {
                proof {
                    assert(decreases_to!(*self => (*self)->Dictionary_0));
                    lemma_model_pairs_len(v@);
                }
                let body = entries_text(v);
                let r = enclose("{", v.len() > 0, body.as_str(), "}");
                proof {
                    if v.len() == 0 {
                        assert(model_pairs(v@) =~= Seq::<(Resp, Resp)>::empty());
                    }
                }
                r
            },
            DataType::Attribute(v) => {
                proof {
                    assert(decreases_to!(*self => (*self)->Attribute_0));
                    lemma_model_pairs_len(v@);
                }
                let body = entries_text(v);
                let r = enclose("{", v.len() > 0, body.as_str(), "}");
                proof {
                    if v.len() == 0 {
                        assert(model_pairs(v@) =~= Seq::<(Resp, Resp)>::empty());
                    }
                }
                r
            },
            DataType::SetOf(v) => {
                proof {
                    assert(decreases_to!(*self => (*self)->SetOf_0));
                    lemma_model_seq_len(v@);
                }
                let body = joined_text(v);
                let r = enclose("[", v.len() > 0, body.as_str(), "]");
                proof {
                    if v.len() == 0 {
                        assert(model_seq(v@) =~= Seq::<Resp>::empty());
                    }
                }
                r
            },
            DataType::Push(v) => {
                proof {
                    assert(decreases_to!(*self => (*self)->Push_0));
                }
                let body = joined_text(v);
                enclose("[", false, body.as_str(), "]")
            },
        }
    }
}


/// The texts of two runs of values, joined, are the two joined texts with
/// one space between them.
pub proof fn law_joined_concat(a: Seq<Resp>, b: Seq<Resp>)
    requires
        a.len() > 0,
        b.len() > 0,
    ensures
        shown_joined(a + b) == shown_joined(a) + " "@ + shown_joined(b),
    decreases b.len(),
{
    if b.len() == 1 {
        assert((a + b).drop_last() =~= a);
        assert((a + b).last() == b[0]);
    } else {
        law_joined_concat(a, b.drop_last());
        assert((a + b).drop_last() =~= a + b.drop_last());
        assert((a + b).last() == b.last());
        assert(shown_joined(a + b) =~= shown_joined(a) + " "@ + shown_joined(b));
    }
}

/// One value's text alone; none for no values.
pub proof fn law_joined_short(x: Resp)
    ensures
        shown_joined(seq![x]) == shown(x),
        shown_joined(Seq::<Resp>::empty()) == Seq::<char>::empty(),
{
}

/// The entries of two runs, joined, are the two joined texts with one space
/// between them.
pub proof fn law_entries_concat(a: Seq<(Resp, Resp)>, b: Seq<(Resp, Resp)>)
    requires
        a.len() > 0,
        b.len() > 0,
    ensures
        shown_entries(a + b) == shown_entries(a) + " "@ + shown_entries(b),
    decreases b.len(),
{
    if b.len() == 1 {
        assert((a + b).drop_last() =~= a);
        assert((a + b).last() == b[0]);
        assert(shown_entries(a + b) =~= shown_entries(a) + " "@ + shown_entries(b));
    } else {
        law_entries_concat(a, b.drop_last());
        assert((a + b).drop_last() =~= a + b.drop_last());
        assert((a + b).last() == b.last());
        assert(shown_entries(a + b) =~= shown_entries(a) + " "@ + shown_entries(b));
    }
}

/// One entry's text is `key:value`; none for no entries.
pub proof fn law_entries_short(k: Resp, v: Resp)
    ensures
        shown_entries(seq![(k, v)]) == shown(k) + ":"@ + shown(v),
        shown_entries(Seq::<(Resp, Resp)>::empty()) == Seq::<char>::empty(),
{
}

} // verus!
