//! Lists of texts, by key.
use std::collections::VecDeque;
use vstd::prelude::*;
use crate::storage::table::Table;
use crate::text::texts;

verus! {

/// The lists, by key.
pub struct ListBucket {
    table: Table<VecDeque<String>>,
}

/// `s` in reverse order.
pub open spec fn reversed<A>(s: Seq<A>) -> Seq<A> {
    Seq::new(s.len(), |i: int| s[s.len() - 1 - i])
}

/// The list of `key` in `m`, empty when there is none.
pub open spec fn list_or_empty(m: Map<Seq<char>, Seq<Seq<char>>>, key: Seq<char>) -> Seq<
    Seq<char>,
> {
    if m.contains_key(key) {
        m[key]
    } else {
        seq![]
    }
}

/// An index given from the end when negative, as `LRANGE` reads it.
pub open spec fn from_end(i: int, len: int) -> int {
    if i < 0 {
        i + len
    } else {
        i
    }
}

/// The first index that `LRANGE start stop` returns.
pub open spec fn range_first(start: i64, len: int) -> int {
    let s = from_end(start as int, len);
    if s < 0 {
        0
    } else {
        s
    }
}

/// One past the last index that `LRANGE start stop` returns.
pub open spec fn range_end(stop: i64, len: int) -> int {
    let t = from_end(stop as int, len);
    let t1 = if t < 0 {
        1
    } else {
        t + 1
    };
    if t1 < len {
        t1
    } else {
        len
    }
}

/// The elements of `s` from `first` up to `end`, none when the range is
/// empty.
pub open spec fn range_of<A>(s: Seq<A>, first: int, end: int) -> Seq<A> {
    if first >= end {
        seq![]
    } else {
        s.subrange(first, end)
    }
}

/// The first index and the end index that `LRANGE start stop` reads from a
/// list of `len` elements.
pub fn lrange_bounds(len: usize, start: i64, stop: i64) -> (r: (i128, i128))
    ensures
        r.0 == range_first(start, len as int),
        r.1 == range_end(stop, len as int),
        0 <= r.0,
        r.1 <= len,
{
    let n: i128 = len as i128;
    let mut s: i128 = start as i128;
    let mut t: i128 = stop as i128;
    if s < 0 {
        s = s + n;
    }
    if t < 0 {
        t = t + n;
    }
    let first: i128 = if s < 0 {
        0
    } else {
        s
    };
    let t1: i128 = if t < 0 {
        1
    } else {
        t + 1
    };
    let end: i128 = if t1 < n {
        t1
    } else {
        n
    };
    (first, end)
}

impl ListBucket {
    pub closed spec fn wf(&self) -> bool {
        self.table.wf()
    }

    /// The lists of texts, by key text.
    pub closed spec fn view(&self) -> Map<Seq<char>, Seq<Seq<char>>> {
        self.table.view().map_values(|d: VecDeque<String>| texts(d@))
    }

    /// An empty bucket.
    pub fn new() -> (b: Self)
        ensures
            b.wf(),
            b.view() == Map::<Seq<char>, Seq<Seq<char>>>::empty(),
    {
        let b = ListBucket { table: Table::new() };
        proof {
            assert(b.view() =~= Map::<Seq<char>, Seq<Seq<char>>>::empty());
        }
        b
    }

    /// Whether `key` holds a list.
    pub fn contains_key(&self, key: &str) -> (r: bool)
        requires
            self.wf(),
        ensures
            r == self.view().contains_key(key@),
    {
        self.table.contains_key(key)
    }

    /// Takes the list of `key` out, or an empty one.
    pub(crate) fn take_list(&mut self, key: &str) -> (r: VecDeque<String>)
        requires
            old(self).wf(),
        ensures
            final(self).wf(),
            final(self).view() == old(self).view().remove(key@),
            texts(r@) == list_or_empty(old(self).view(), key@),
    {
        let ghost old_view = self.table.view();
        let r = match self.table.remove(key) {
            Some(d) => d,
            None => VecDeque::new(),
        };
        proof {
            assert(self.view() =~= old(self).view().remove(key@));
            if !old_view.contains_key(key@) {
                assert(texts(r@) =~= Seq::<Seq<char>>::empty());
            }
        }
        r
    }

    /// Puts `list` back under `key`.
    pub(crate) fn put_list(&mut self, key: String, list: VecDeque<String>)
        requires
            old(self).wf(),
        ensures
            final(self).wf(),
            final(self).view() == old(self).view().insert(key@, texts(list@)),
    {
        let ghost l = texts(list@);
        self.table.insert(key, list);
        proof {
            assert(self.view() =~= old(self).view().insert(key@, l));
        }
    }

    /// Puts each of `vals`, in order, at the front of the list of `key`
    /// (so that they end up in reverse order), creating the list if needed;
    /// returns the new length.
    pub fn lpush(&mut self, key: String, vals: Vec<String>) -> (r: usize)
        requires
            old(self).wf(),
        ensures
            final(self).wf(),
            final(self).view() == old(self).view().insert(
                key@,
                reversed(texts(vals@)) + list_or_empty(old(self).view(), key@),
            ),
            r == vals@.len() + list_or_empty(old(self).view(), key@).len(),
    {
        let mut list = self.take_list(key.as_str());
        let ghost start = texts(list@);
        let ghost vs = texts(vals@);
        let mut i: usize = 0;
        let n = vals.len();
        while i < n
            invariant
                i <= n,
                n == vs.len(),
                vs == texts(vals@),
                texts(list@) == reversed(vs.subrange(0, i as int)) + start,
            decreases n - i,
        {
            let ghost before = list@;
            let v = vals[i].clone();
            list.push_front(v);
            proof {
                assert(texts(list@) =~= seq![v@] + texts(before));
                assert(reversed(vs.subrange(0, i + 1)) =~= seq![vs[i as int]] + reversed(
                    vs.subrange(0, i as int),
                ));
            }
            i += 1;
        }
        proof {
            assert(vs.subrange(0, n as int) =~= vs);
        }
        let len = list.len();
        self.put_list(key, list);
        len
    }

    /// Appends `vals` to the list of `key`, creating the list if needed;
    /// returns the new length.
    pub fn rpush(&mut self, key: String, vals: Vec<String>) -> (r: usize)
        requires
            old(self).wf(),
        ensures
            final(self).wf(),
            final(self).view() == old(self).view().insert(
                key@,
                list_or_empty(old(self).view(), key@) + texts(vals@),
            ),
            r == list_or_empty(old(self).view(), key@).len() + vals@.len(),
    {
        let mut list = self.take_list(key.as_str());
        let ghost start = texts(list@);
        let ghost vs = texts(vals@);
        let mut i: usize = 0;
        let n = vals.len();
        while i < n
            invariant
                i <= n,
                n == vs.len(),
                vs == texts(vals@),
                texts(list@) == start + vs.subrange(0, i as int),
            decreases n - i,
        {
            let ghost before = list@;
            let v = vals[i].clone();
            list.push_back(v);
            proof {
                assert(texts(list@) =~= texts(before).push(v@));
                assert(start + vs.subrange(0, i + 1) =~= (start + vs.subrange(0, i as int)).push(
                    vs[i as int],
                ));
            }
            i += 1;
        }
        proof {
            assert(vs.subrange(0, n as int) =~= vs);
        }
        let len = list.len();
        self.put_list(key, list);
        len
    }

    /// Whether `LRANGE key start stop` can be answered: the list of `key`
    /// is short enough for its length to be a signed 64-bit index, and the
    /// first index is not past the end index.
    pub fn range_is_defined(&self, key: &str, start: i64, stop: i64) -> (r: bool)
        requires
            self.wf(),
        ensures
            r == (self.view().contains_key(key@) ==> {
                let len = self.view()[key@].len() as int;
                &&& len <= i64::MAX
                &&& range_first(start, len) <= range_end(stop, len)
            }),
    {
        match self.table.get(key) {
            None => true,
            Some(list) => {
                let ghost l = texts(list@);
                proof {
                    assert(l.len() == list@.len());
                }
                if list.len() as u128 > i64::MAX as u128 {
                    return false;
                }
                let (first, end) = lrange_bounds(list.len(), start, stop);
                first <= end
            },
        }
    }

    /// `LRANGE`: the elements from index `start` to index `stop`, both
    /// included, negative indexes counting from the end.
    pub fn range(&self, key: &str, start: i64, stop: i64) -> (r: Vec<String>)
        requires
            self.wf(),
            self.view().contains_key(key@) ==> {
                let len = self.view()[key@].len() as int;
                &&& len <= i64::MAX
                &&& range_first(start, len) <= range_end(stop, len)
            },
        ensures
            texts(r@) == (if self.view().contains_key(key@) {
                let l = self.view()[key@];
                range_of(l, range_first(start, l.len() as int), range_end(stop, l.len() as int))
            } else {
                seq![]
            }),
    {
        let list = match self.table.get(key) {
            None => {
                return Vec::new();
            },
            Some(l) => l,
        };
        let ghost l = texts(list@);
        let (first, end) = lrange_bounds(list.len(), start, stop);
        let mut out: Vec<String> = Vec::new();
        let mut i: usize = first as usize;
        let e: usize = end as usize;
        while i < e
            invariant
                first <= i <= e,
                e == end,
                end <= l.len(),
                0 <= first,
                l == texts(list@),
                texts(out@) == l.subrange(first as int, i as int),
            decreases e - i,
        {
            let ghost before = out@;
            let c = list[i].clone();
            out.push(c);
            i += 1;
            proof {
                assert(texts(out@) =~= texts(before).push(c@));
                assert(texts(out@) =~= l.subrange(first as int, i as int));
            }
        }
        proof {
            if first >= end {
                assert(texts(out@) =~= Seq::<Seq<char>>::empty());
            }
        }
        out
    }

    /// The length of the list of `key`, 0 when there is none.
    pub fn len(&self, key: &str) -> (r: usize)
        requires
            self.wf(),
        ensures
            r == list_or_empty(self.view(), key@).len(),
    {
        match self.table.get(key) {
            Some(list) => list.len(),
            None => 0,
        }
    }

    /// Removes up to `n` elements from the front of the list of `key` and
    /// gives them back in order; `None` when `key` has no list. The list
    /// stays, even when emptied.
    pub fn pop(&mut self, key: &str, n: usize) -> (r: Option<Vec<String>>)
        requires
            old(self).wf(),
        ensures
            final(self).wf(),
            match r {
                Some(v) => {
                    let l = old(self).view()[key@];
                    let k = if n < l.len() {
                        n as int
                    } else {
                        l.len() as int
                    };
                    &&& old(self).view().contains_key(key@)
                    &&& texts(v@) == l.subrange(0, k)
                    &&& final(self).view() == old(self).view().insert(
                        key@,
                        l.subrange(k, l.len() as int),
                    )
                },
                None => !old(self).view().contains_key(key@) && final(self).view() == old(
                    self,
                ).view(),
            },
    {
        if !self.table.contains_key(key) {
            return None;
        }
        let ghost l = self.view()[key@];
        let mut list = self.take_list(key);
        let mut res: Vec<String> = Vec::new();
        let mut left = n;
        let mut taken: usize = 0;
        while left > 0 && list.len() > 0
            invariant
                taken + left == n,
                taken <= l.len(),
                texts(res@) == l.subrange(0, taken as int),
                texts(list@) == l.subrange(taken as int, l.len() as int),
            decreases left,
        {
            let ghost before_res = res@;
            let ghost before_list = list@;
            proof {
                assert(texts(before_list).len() == before_list.len());
                assert(taken < l.len());
            }
            let v = list.pop_front();
            match v {
                Some(x) => {
                    res.push(x);
                    proof {
                        assert(texts(res@) =~= texts(before_res).push(x@));
                        assert(texts(before_list)[0] == x@);
                        assert(l.subrange(taken as int, l.len() as int)[0] == l[taken as int]);
                        assert(l[taken as int] == x@);
                        assert(texts(res@) =~= l.subrange(0, taken + 1));
                        assert(texts(list@) =~= texts(before_list).subrange(1, texts(before_list).len() as int));
                        assert(texts(list@) =~= l.subrange(taken + 1, l.len() as int));
                    }
                },
                None => {},
            }
            left -= 1;
            taken += 1;
        }
        let owned_key = key.to_owned();
        self.put_list(owned_key, list);
        Some(res)
    }
}


/// `LRANGE key 0 -1` covers the whole list, so its length is the list's
/// length.
pub proof fn law_whole_range(l: Seq<Seq<char>>)
    requires
        l.len() <= i64::MAX,
    ensures
        range_of(l, range_first(0i64, l.len() as int), range_end(-1i64, l.len() as int)) == l,
{
    if l.len() > 0 {
        assert(l.subrange(0, l.len() as int) =~= l);
    } else {
        assert(l =~= Seq::<Seq<char>>::empty());
    }
}


/// `LRANGE start stop` on a list of `n` elements: an index below zero counts
/// from the end (`n + i`); the result is the elements from index
/// `max(start, 0)` up to and including index `min(max(stop, 0), n - 1)`, in
/// order, and nothing when the first index lies past the last.
pub proof fn law_lrange_indexes(l: Seq<Seq<char>>, start: i64, stop: i64)
    ensures
        ({
            let n = l.len() as int;
            let a = if start < 0 {
                start + n
            } else {
                start as int
            };
            let b = if stop < 0 {
                stop + n
            } else {
                stop as int
            };
            let lo = if a < 0 {
                0
            } else {
                a
            };
            let b0 = if b < 0 {
                0
            } else {
                b
            };
            let hi = if b0 >= n {
                n - 1
            } else {
                b0
            };
            let r = range_of(l, range_first(start, n), range_end(stop, n));
            &&& r.len() == (if lo <= hi {
                hi - lo + 1
            } else {
                0
            })
            &&& forall|j: int| 0 <= j < r.len() ==> #[trigger] r[j] == l[lo + j]
        }),
{
}

} // verus!
