//! The server's data: text values with an optional expiry, lists, and streams.
pub mod key_val;
pub mod list;
pub mod stream;
pub mod stream_id;
pub mod table;

use std::collections::VecDeque;
use vstd::prelude::*;
use crate::storage::key_val::{KVBucket, kv_get_step, expiry};
use crate::storage::list::{ListBucket, list_or_empty, range_first, range_end, range_of, lrange_bounds};
use crate::storage::stream::StreamBucket;
use crate::storage::stream_id::StreamId;
use crate::text::{texts, opt_text};

verus! {

/// The model of the whole store.
pub struct StorageView {
    pub kv: Map<Seq<char>, (Seq<char>, u128)>,
    pub lists: Map<Seq<char>, Seq<Seq<char>>>,
    pub streams: Map<Seq<char>, Seq<(StreamId, Seq<Seq<char>>)>>,
}

/// The type name that `TYPE` reports for a key.
pub open spec fn kind_name(s: StorageView, key: Seq<char>) -> Seq<char> {
    if s.kv.contains_key(key) {
        "string"@
    } else if s.lists.contains_key(key) {
        "list"@
    } else if s.streams.contains_key(key) {
        "stream"@
    } else {
        "none"@
    }
}

/// Everything the server stores.
pub struct Storage {
    pub kv_bucket: KVBucket,
    pub list_bucket: ListBucket,
    pub stream_bucket: StreamBucket,
}

impl Storage {
    pub open spec fn wf(&self) -> bool {
        &&& self.kv_bucket.wf()
        &&& self.list_bucket.wf()
        &&& self.stream_bucket.wf()
    }

    pub open spec fn view(&self) -> StorageView {
        StorageView {
            kv: self.kv_bucket.view(),
            lists: self.list_bucket.view(),
            streams: self.stream_bucket.view(),
        }
    }

    /// An empty store.
    pub fn new() -> (s: Self)
        ensures
            s.wf(),
            s.view().kv == Map::<Seq<char>, (Seq<char>, u128)>::empty(),
            s.view().lists == Map::<Seq<char>, Seq<Seq<char>>>::empty(),
            s.view().streams == Map::<Seq<char>, Seq<(StreamId, Seq<Seq<char>>)>>::empty(),
    {
        Storage {
            kv_bucket: KVBucket::new(),
            list_bucket: ListBucket::new(),
            stream_bucket: StreamBucket::new(),
        }
    }

    /// `TYPE`: which kind of value `key` holds, looked up in this order:
    /// text (alive or not), list, stream.
    pub fn key_type(&self, key: &str) -> (r: String)
        requires
            self.wf(),
        ensures
            r@ == kind_name(self.view(), key@),
    {
        if self.kv_bucket.contains_key(key) {
            return "string".to_owned();
        }
        if self.list_bucket.contains_key(key) {
            return "list".to_owned();
        }
        if self.stream_bucket.contains_key(key) {
            return "stream".to_owned();
        }
        "none".to_owned()
    }

    /// Stores `value` under `key`, living `ttl` milliseconds from `now`
    /// (for ever when `ttl` is 0).
    pub fn kv_set(&mut self, key: String, value: String, ttl: u64, now: u128)
        requires
            old(self).wf(),
            now + ttl <= u128::MAX,
        ensures
            final(self).wf(),
            final(self).view() == (StorageView {
                kv: old(self).view().kv.insert(key@, (value@, expiry(ttl, now))),
                ..old(self).view()
            }),
    {
        self.kv_bucket.set(key, value, ttl, now);
    }

    /// The value of `key` while it is alive at `now`; an expired value is
    /// removed.
    pub fn kv_get(&mut self, key: &str, now: u128) -> (r: Option<String>)
        requires
            old(self).wf(),
        ensures
            final(self).wf(),
            (final(self).view().kv, opt_text(r)) == kv_get_step(old(self).view().kv, key@, now),
            final(self).view().lists == old(self).view().lists,
            final(self).view().streams == old(self).view().streams,
    {
        self.kv_bucket.get(key, now)
    }

    /// Removes `key` from the text values, giving back its value.
    pub fn kv_remove(&mut self, key: &str) -> (r: Option<String>)
        requires
            old(self).wf(),
        ensures
            final(self).wf(),
            final(self).view() == (StorageView {
                kv: old(self).view().kv.remove(key@),
                ..old(self).view()
            }),
            opt_text(r) == (if old(self).view().kv.contains_key(key@) {
                Some(old(self).view().kv[key@].0)
            } else {
                None
            }),
    {
        self.kv_bucket.del(key)
    }

    /// Puts `vals` at the front of the list of `key`, keeping their order,
    /// creating the list if needed; returns the new length.
    pub fn list_lpush(&mut self, key: String, vals: Vec<String>) -> (r: usize)
        requires
            old(self).wf(),
        ensures
            final(self).wf(),
            final(self).view() == (StorageView {
                lists: old(self).view().lists.insert(
                    key@,
                    texts(vals@) + list_or_empty(old(self).view().lists, key@),
                ),
                ..old(self).view()
            }),
            r == vals@.len() + list_or_empty(old(self).view().lists, key@).len(),
    {
        let mut list = self.list_bucket.take_list(key.as_str());
        let ghost start = texts(list@);
        let ghost vs = texts(vals@);
        let mut vals = vals;
        while vals.len() > 0
            invariant
                vs.len() >= vals@.len(),
                texts(vals@) == vs.subrange(0, vals@.len() as int),
                texts(list@) == vs.subrange(vals@.len() as int, vs.len() as int) + start,
            decreases vals@.len(),
        {
            let ghost before = list@;
            let ghost bv = vals@;
            match vals.pop() {
                Some(v) => {
                    list.push_front(v);
                    proof {
                        assert(texts(vals@) =~= vs.subrange(0, vals@.len() as int));
                        assert(texts(bv)[bv.len() - 1] == v@);
                        assert(texts(list@) =~= seq![v@] + texts(before));
                        assert(texts(list@) =~= vs.subrange(vals@.len() as int, vs.len() as int)
                            + start);
                    }
                },
                None => {},
            }
        }
        proof {
            assert(vs.subrange(0, vs.len() as int) =~= vs);
        }
        let len = list.len();
        let ghost k = key@;
        self.list_bucket.put_list(key, list);
        proof {
            assert(self.list_bucket.view() =~= old(self).list_bucket.view().insert(
                k,
                vs + list_or_empty(old(self).view().lists, k),
            ));
        }
        len
    }

    /// Appends `vals` to the list of `key`, creating the list if needed;
    /// returns the new length.
    pub fn list_rpush(&mut self, key: String, vals: Vec<String>) -> (r: usize)
        requires
            old(self).wf(),
        ensures
            final(self).wf(),
            final(self).view() == (StorageView {
                lists: old(self).view().lists.insert(
                    key@,
                    list_or_empty(old(self).view().lists, key@) + texts(vals@),
                ),
                ..old(self).view()
            }),
            r == list_or_empty(old(self).view().lists, key@).len() + vals@.len(),
    {
        self.list_bucket.rpush(key, vals)
    }

    /// The elements of the list of `key` from index `start` to index
    /// `stop`, both included, negative indexes counting from the end; a key
    /// without a list gets an empty one.
    pub fn list_lrange(&mut self, key: String, start: i64, stop: i64) -> (r: Vec<String>)
        requires
            old(self).wf(),
            list_or_empty(old(self).view().lists, key@).len() <= i64::MAX,
        ensures
            final(self).wf(),
            final(self).view() == (StorageView {
                lists: old(self).view().lists.insert(
                    key@,
                    list_or_empty(old(self).view().lists, key@),
                ),
                ..old(self).view()
            }),
            ({
                let l = list_or_empty(old(self).view().lists, key@);
                texts(r@) == range_of(
                    l,
                    range_first(start, l.len() as int),
                    range_end(stop, l.len() as int),
                )
            }),
    {
        let list = self.list_bucket.take_list(key.as_str());
        let ghost l = texts(list@);
        let len = list.len();
        let (first, end) = lrange_bounds(len, start, stop);
        let mut out: Vec<String> = Vec::new();
        if len > 0 && first < end {
            let mut i: usize = first as usize;
            let e: usize = end as usize;
            while i < e
                invariant
                    first <= i <= e,
                    e == end,
                    end <= l.len(),
                    0 <= first,
                    l == texts(list@),
                    texts(out@) == l.subrange(first as int, i as int),
                decreases e - i,
            {
                let ghost before = out@;
                let c = list[i].clone();
                out.push(c);
                i += 1;
                proof {
                    assert(texts(out@) =~= texts(before).push(c@));
                    assert(texts(out@) =~= l.subrange(first as int, i as int));
                }
            }
        } else {
            proof {
                assert(texts(out@) =~= Seq::<Seq<char>>::empty());
            }
        }
        let ghost k = key@;
        self.list_bucket.put_list(key, list);
        proof {
            assert(self.list_bucket.view() =~= old(self).list_bucket.view().insert(k, l));
        }
        out
    }
}

} // verus!
