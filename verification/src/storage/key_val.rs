//! Text values with an optional expiry time.
use vstd::prelude::*;
use crate::storage::table::Table;
use crate::text::opt_text;

verus! {

/// A stored text value. `expired_at` is the time, in milliseconds since the
/// Unix epoch, up to which the value lives; 0 means that it never expires.
#[derive(Clone)]
pub struct KVObject {
    pub value: String,
    pub expired_at: u128,
}

impl KVObject {
    /// The value's text and its expiry time.
    pub open spec fn view(&self) -> (Seq<char>, u128) {
        (self.value@, self.expired_at)
    }
}

/// The expiry time of a value set at `now` with time to live `ttl`
/// milliseconds (0: no expiry).
pub open spec fn expiry(ttl: u64, now: u128) -> u128 {
    if ttl == 0 {
        0
    } else {
        (now + ttl) as u128
    }
}

/// Whether a value that expires at `expired_at` is still alive at `now`.
pub open spec fn alive(expired_at: u128, now: u128) -> bool {
    expired_at == 0 || expired_at >= now
}

/// `GET`: the stored text of `key` while it is alive at `now`; a value
/// found expired is removed.
pub open spec fn kv_get_step(m: Map<Seq<char>, (Seq<char>, u128)>, key: Seq<char>, now: u128) -> (
    Map<Seq<char>, (Seq<char>, u128)>,
    Option<Seq<char>>,
) {
    if !m.contains_key(key) {
        (m, None)
    } else if alive(m[key].1, now) {
        (m, Some(m[key].0))
    } else {
        (m.remove(key), None)
    }
}

/// The text values, by key.
pub struct KVBucket {
    table: Table<KVObject>,
}

impl KVBucket {
    pub closed spec fn wf(&self) -> bool {
        self.table.wf()
    }

    /// The stored texts and their expiry times, by key text.
    pub closed spec fn view(&self) -> Map<Seq<char>, (Seq<char>, u128)> {
        self.table.view().map_values(|o: KVObject| o.view())
    }

    /// An empty bucket.
    pub fn new() -> (b: Self)
        ensures
            b.wf(),
            b.view() == Map::<Seq<char>, (Seq<char>, u128)>::empty(),
    {
        let b = KVBucket { table: Table::new() };
        proof {
            assert(b.view() =~= Map::<Seq<char>, (Seq<char>, u128)>::empty());
        }
        b
    }

    /// Whether `key` holds a value, alive or not.
    pub fn contains_key(&self, key: &str) -> (r: bool)
        requires
            self.wf(),
        ensures
            r == self.view().contains_key(key@),
    {
        self.table.contains_key(key)
    }

    /// Stores `value` under `key`, replacing what was there; with `ttl`
    /// nonzero it lives `ttl` milliseconds from `now`.
    pub fn set(&mut self, key: String, value: String, ttl: u64, now: u128)
        requires
            old(self).wf(),
            now + ttl <= u128::MAX,
        ensures
            final(self).wf(),
            final(self).view() == old(self).view().insert(key@, (value@, expiry(ttl, now))),
    {
        let expired_at: u128 = if ttl == 0 {
            0
        } else {
            now + ttl as u128
        };
        let ghost v = value@;
        self.table.insert(key, KVObject { value, expired_at });
        proof {
            assert(self.view() =~= old(self).view().insert(key@, (v, expiry(ttl, now))));
        }
    }

    /// The value of `key` if it is alive at `now`; a value found expired is
    /// removed.
    pub fn get(&mut self, key: &str, now: u128) -> (r: Option<String>)
        requires
            old(self).wf(),
        ensures
            final(self).wf(),
            (final(self).view(), opt_text(r)) == kv_get_step(old(self).view(), key@, now),
    {
        let still_alive = match self.table.get(key) {
            None => {
                return None;
            },
            Some(obj) => {
                if obj.expired_at == 0 || obj.expired_at >= now {
                    return Some(obj.value.clone());
                }
                false
            },
        };
        if !still_alive {
            self.table.remove(key);
            proof {
                assert(self.view() =~= old(self).view().remove(key@));
            }
        }
        None
    }

    /// Removes `key`, giving back its value.
    pub fn del(&mut self, key: &str) -> (r: Option<String>)
        requires
            old(self).wf(),
        ensures
            final(self).wf(),
            final(self).view() == old(self).view().remove(key@),
            opt_text(r) == (if old(self).view().contains_key(key@) {
                Some(old(self).view()[key@].0)
            } else {
                None
            }),
    {
        let r = match self.table.remove(key) {
            Some(obj) => Some(obj.value),
            None => None,
        };
        proof {
            assert(self.view() =~= old(self).view().remove(key@));
        }
        r
    }
}


/// A value set at `t0` with time to live `ttl` (nonzero) is read back at
/// any `t1` up to `t0 + ttl`, leaving the store as it is; after that the
/// read gives nothing and removes the key.
pub proof fn law_get_within_ttl(
    m: Map<Seq<char>, (Seq<char>, u128)>,
    k: Seq<char>,
    v: Seq<char>,
    ttl: u64,
    t0: u128,
    t1: u128,
)
    requires
        t0 + ttl <= u128::MAX,
        ttl > 0,
    ensures
        ({
            let m1 = m.insert(k, (v, expiry(ttl, t0)));
            let (m2, r) = kv_get_step(m1, k, t1);
            &&& t1 <= t0 + ttl ==> r == Some(v) && m2 == m1
            &&& t1 > t0 + ttl ==> r is None && !m2.contains_key(k)
        }),
{
}

} // verus!
