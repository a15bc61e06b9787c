//! Streams: append-only logs of entries, each with an id.
use vstd::prelude::*;
use vstd::utf8::{decode_utf8, encode_utf8, valid_utf8};
use crate::storage::stream_id::{StreamId, id_le, id_at_most};
use crate::storage::table::Table;
use crate::text::{
    NumberError, number_error_text, byte_index, lemma_byte_index, find_byte, parse_u128_spec, parse_u64_spec,
    parse_u128, parse_u64, decimal, fmt_u128, text_bytes, text_of_valid, lemma_decimal_valid,
    lemma_parse_bounds, texts,
};

verus! {

broadcast use vstd::utf8::encode_utf8_valid_utf8, vstd::utf8::valid_utf8_concat;

/// An entry of a stream: its id and its field texts.
#[derive(Debug, Clone)]
pub struct StreamEntry {
    pub id: StreamId,
    pub values: Vec<String>,
}

/// The model of an entry: its id and its texts.
pub open spec fn entry_view(e: StreamEntry) -> (StreamId, Seq<Seq<char>>) {
    (e.id, texts(e.values@))
}

pub open spec fn entry_views(s: Seq<StreamEntry>) -> Seq<(StreamId, Seq<Seq<char>>)> {
    s.map_values(|e: StreamEntry| entry_view(e))
}

/// The text `{millis_time}-{sequence_num}` of an id, as bytes.
pub open spec fn id_text(id: StreamId) -> Seq<u8> {
    decimal(id.millis_time as nat) + seq![45u8] + decimal(id.sequence_num as nat)
}

fn id_text_bytes(id: &StreamId) -> (r: Vec<u8>)
    ensures
        r@ == id_text(*id),
        valid_utf8(r@),
{
    let mut out = fmt_u128(id.millis_time);
    out.push(45u8);
    let mut q = fmt_u128(id.sequence_num as u128);
    let ghost a = out@;
    out.append(&mut q);
    proof {
        lemma_decimal_valid(id.millis_time as nat);
        lemma_decimal_valid(id.sequence_num as nat);
        crate::text::lemma_ascii_valid(seq![45u8]);
        assert(a =~= decimal(id.millis_time as nat) + seq![45u8]);
        assert(valid_utf8(a));
        assert(valid_utf8(out@));
    }
    out
}

impl StreamId {
    /// The text `{millis_time}-{sequence_num}`.
    pub fn to_string(&self) -> (r: String)
        ensures
            encode_utf8(r@) == id_text(*self),
    {
        text_of_valid(id_text_bytes(self))
    }
}

/// Why an id was refused.
#[derive(Clone, Copy, Debug, PartialEq, Eq, Structural)]
pub enum StreamError {
    /// The id has no `-`.
    InvalidFormat,
    /// The id is `0-0`.
    NotAboveZero,
    /// The id is not above the id of the last entry.
    NotIncreasing,
    /// A part of the id is not a number.
    InvalidNumber(NumberError),
    /// The last entry's sequence number is the largest there is and a new
    /// one is asked for in the same millisecond; the server gives up on the
    /// connection.
    SequenceOverflow,
}

/// The text of a refused id.
pub open spec fn stream_error_text(e: StreamError) -> Seq<char> {
    match e {
        StreamError::InvalidFormat => "has invalid format"@,
        StreamError::NotAboveZero => "must be greater than 0-0"@,
        StreamError::NotIncreasing => "is equal or smaller than the target stream top item"@,
        StreamError::InvalidNumber(n) => number_error_text(n),
        StreamError::SequenceOverflow => "attempt to add with overflow"@,
    }
}

impl StreamError {
    pub fn message(&self) -> (r: String)
        ensures
            r@ == stream_error_text(*self),
    {
        match self {
            StreamError::InvalidFormat => "has invalid format".to_owned(),
            StreamError::NotAboveZero => "must be greater than 0-0".to_owned(),
            StreamError::NotIncreasing => "is equal or smaller than the target stream top item".to_owned(),
            StreamError::InvalidNumber(n) => n.message(),
            StreamError::SequenceOverflow => "attempt to add with overflow".to_owned(),
        }
    }
}

/// The id asked for by the text `id` (as bytes), for a stream whose last
/// entry has id `last`, at time `now`: `*` is the time now with sequence
/// number 0; `T-*` picks the sequence number; `T-0` (or `T-*`) in the
/// millisecond of the last entry continues its sequence.
pub open spec fn new_id(id: Seq<u8>, last: Option<StreamId>, now: u128) -> Result<
    StreamId,
    StreamError,
> {
    if id == seq![42u8] {
        Ok(StreamId { millis_time: now, sequence_num: 0 })
    } else {
        let j = byte_index(id, 45, 0);
        if j < 0 {
            Err(StreamError::InvalidFormat)
        } else {
            let mt = id.subrange(0, j);
            let st = id.subrange(j + 1, id.len() as int);
            let millis: Result<int, NumberError> = if mt == seq![42u8] {
                Ok(now as int)
            } else {
                parse_u128_spec(mt)
            };
            match millis {
                Err(e) => Err(StreamError::InvalidNumber(e)),
                Ok(m) => {
                    let seqn: Result<int, NumberError> = if st == seq![42u8] {
                        Ok(
                            if m > 0 {
                                0
                            } else {
                                1
                            },
                        )
                    } else {
                        parse_u64_spec(st)
                    };
                    match seqn {
                        Err(e) => Err(StreamError::InvalidNumber(e)),
                        Ok(q) => if m == 0 && q == 0 {
                            Err(StreamError::NotAboveZero)
                        } else {
                            match last {
                                None => Ok(StreamId { millis_time: m as u128, sequence_num: q as u64 }),
                                Some(l) => if m < l.millis_time {
                                    Err(StreamError::NotIncreasing)
                                } else if m == l.millis_time {
                                    if q == 0 {
                                        if l.sequence_num == u64::MAX {
                                            Err(StreamError::SequenceOverflow)
                                        } else {
                                            Ok(
                                                StreamId {
                                                    millis_time: m as u128,
                                                    sequence_num: (l.sequence_num + 1) as u64,
                                                },
                                            )
                                        }
                                    } else if q <= l.sequence_num {
                                        Err(StreamError::NotIncreasing)
                                    } else {
                                        Ok(StreamId { millis_time: m as u128, sequence_num: q as u64 })
                                    }
                                } else {
                                    Ok(StreamId { millis_time: m as u128, sequence_num: q as u64 })
                                },
                            }
                        },
                    }
                },
            }
        }
    }
}

/// A bound of `XRANGE` as an id: `whole` stands for `wild`; a bound without
/// `-` takes `default_seq` as its sequence number.
pub open spec fn bound_id(b: Seq<u8>, wild: u8, wild_id: StreamId, default_seq: Seq<u8>) -> Result<
    StreamId,
    StreamError,
> {
    if b == seq![wild] {
        Ok(wild_id)
    } else {
        let j = byte_index(b, 45, 0);
        let mt = if j < 0 {
            b
        } else {
            b.subrange(0, j)
        };
        let st = if j < 0 {
            default_seq
        } else {
            b.subrange(j + 1, b.len() as int)
        };
        match parse_u128_spec(mt) {
            Err(e) => Err(StreamError::InvalidNumber(e)),
            Ok(m) => match parse_u64_spec(st) {
                Err(e) => Err(StreamError::InvalidNumber(e)),
                Ok(q) => Ok(StreamId { millis_time: m as u128, sequence_num: q as u64 }),
            },
        }
    }
}

/// The lower bound of `XRANGE`: `-` is the first id.
pub open spec fn start_bound(b: Seq<u8>) -> Result<StreamId, StreamError> {
    bound_id(b, 45, StreamId { millis_time: 0, sequence_num: 0 }, seq![48u8])
}

/// The upper bound of `XRANGE`: `+` is the last id.
pub open spec fn stop_bound(b: Seq<u8>) -> Result<StreamId, StreamError> {
    bound_id(
        b,
        43,
        StreamId { millis_time: u128::MAX, sequence_num: u64::MAX },
        seq![57u8, 57u8, 57u8],
    )
}

/// The entries whose ids lie between `lo` and `hi`, both included, in order.
pub open spec fn entries_between(s: Seq<(StreamId, Seq<Seq<char>>)>, lo: StreamId, hi: StreamId) -> Seq<
    (StreamId, Seq<Seq<char>>),
>
    decreases s.len(),
{
    if s.len() == 0 {
        seq![]
    } else {
        entries_between(s.drop_last(), lo, hi) + if id_le(lo, s.last().0) && id_le(
            s.last().0,
            hi,
        ) {
            seq![s.last()]
        } else {
            seq![]
        }
    }
}

/// The streams, by key.
pub struct StreamBucket {
    table: Table<Vec<StreamEntry>>,
}

/// The id of the last entry of `s`, if any.
pub open spec fn last_id(s: Seq<(StreamId, Seq<Seq<char>>)>) -> Option<StreamId> {
    if s.len() == 0 {
        None
    } else {
        Some(s.last().0)
    }
}

impl StreamBucket {
    pub closed spec fn wf(&self) -> bool {
        self.table.wf()
    }

    /// The streams, by key text.
    pub closed spec fn view(&self) -> Map<Seq<char>, Seq<(StreamId, Seq<Seq<char>>)>> {
        self.table.view().map_values(|v: Vec<StreamEntry>| entry_views(v@))
    }

    /// The entries of the stream of `key`, none when there is no stream.
    pub open spec fn stream_of(&self, key: Seq<char>) -> Seq<(StreamId, Seq<Seq<char>>)> {
        if self.view().contains_key(key) {
            self.view()[key]
        } else {
            seq![]
        }
    }

    /// An empty bucket.
    pub fn new() -> (b: Self)
        ensures
            b.wf(),
            b.view() == Map::<Seq<char>, Seq<(StreamId, Seq<Seq<char>>)>>::empty(),
    {
        let b = StreamBucket { table: Table::new() };
        proof {
            assert(b.view() =~= Map::<Seq<char>, Seq<(StreamId, Seq<Seq<char>>)>>::empty());
        }
        b
    }

    /// Whether `key` holds a stream.
    pub fn contains_key(&self, key: &str) -> (r: bool)
        requires
            self.wf(),
        ensures
            r == self.view().contains_key(key@),
    {
        self.table.contains_key(key)
    }

    fn last_entry_id(&self, key: &str) -> (r: Option<StreamId>)
        requires
            self.wf(),
        ensures
            r == last_id(self.stream_of(key@)),
    {
        match self.table.get(key) {
            None => None,
            Some(s) => {
                if s.len() == 0 {
                    None
                } else {
                    Some(s[s.len() - 1].id)
                }
            },
        }
    }

    /// The id that `id` asks for in the stream of `key`, at time `now`.
    pub fn parse_id(&self, key: &str, id: &str, now: u128) -> (r: Result<(u128, u64), StreamError>)
        requires
            self.wf(),
        ensures
            match new_id(encode_utf8(id@), last_id(self.stream_of(key@)), now) {
                Ok(n) => r == Ok::<(u128, u64), StreamError>((n.millis_time, n.sequence_num)),
                Err(e) => r == Err::<(u128, u64), StreamError>(e),
            },
    {
        let b = id.as_bytes();
        let ghost bs = b@;
        if b.len() == 1 && b[0] == 42 {
            proof {
                assert(bs =~= seq![42u8]);
            }
            return Ok((now, 0));
        }
        proof {
            if bs == seq![42u8] {
                assert(bs.len() == 1 && bs[0] == 42);
            }
        }
        let j = match find_byte(b, 45) {
            None => {
                return Err(StreamError::InvalidFormat);
            },
            Some(j) => j,
        };
        proof {
            crate::text::lemma_byte_index(bs, 45, 0);
        }
        let mt = vstd::slice::slice_subrange(b, 0, j);
        let st = vstd::slice::slice_subrange(b, j + 1, b.len());
        let millis: u128 = if mt.len() == 1 && mt[0] == 42 {
            proof {
                assert(mt@ =~= seq![42u8]);
            }
            now
        } else {
            proof {
                if mt@ == seq![42u8] {
                    assert(mt@.len() == 1 && mt@[0] == 42);
                }
                lemma_parse_bounds(mt@, false, u128::MAX as int, 0);
            }
            match parse_u128(mt) {
                Ok(m) => m,
                Err(e) => {
                    return Err(StreamError::InvalidNumber(e));
                },
            }
        };
        let mut seqn: u64 = if st.len() == 1 && st[0] == 42 {
            proof {
                assert(st@ =~= seq![42u8]);
            }
            if millis > 0 {
                0
            } else {
                1
            }
        } else {
            proof {
                if st@ == seq![42u8] {
                    assert(st@.len() == 1 && st@[0] == 42);
                }
                lemma_parse_bounds(st@, false, u64::MAX as int, 0);
            }
            match parse_u64(st) {
                Ok(q) => q,
                Err(e) => {
                    return Err(StreamError::InvalidNumber(e));
                },
            }
        };
        if millis == 0 && seqn == 0 {
            return Err(StreamError::NotAboveZero);
        }
        match self.last_entry_id(key) {
            None => {},
            Some(last) => {
                if millis < last.millis_time {
                    return Err(StreamError::NotIncreasing);
                }
                if millis == last.millis_time {
                    if seqn == 0 {
                        if last.sequence_num == u64::MAX {
                            return Err(StreamError::SequenceOverflow);
                        }
                        seqn = last.sequence_num + 1;
                    } else if seqn <= last.sequence_num {
                        return Err(StreamError::NotIncreasing);
                    }
                }
            },
        }
        Ok((millis, seqn))
    }

    /// `XADD`: appends an entry with the id that `id` asks for, creating the
    /// stream if needed; gives back the id's text.
    pub fn add(&mut self, key: String, id: String, values: Vec<String>, now: u128) -> (r: Result<
        String,
        StreamError,
    >)
        requires
            old(self).wf(),
        ensures
            final(self).wf(),
            match new_id(encode_utf8(id@), last_id(old(self).stream_of(key@)), now) {
                Ok(n) => {
                    &&& r matches Ok(t) && encode_utf8(t@) == id_text(n)
                    &&& final(self).view() == old(self).view().insert(
                        key@,
                        old(self).stream_of(key@).push((n, texts(values@))),
                    )
                },
                Err(e) => r == Err::<String, StreamError>(e) && final(self).view() == old(
                    self,
                ).view(),
            },
    {
        let (millis_time, sequence_num) = match self.parse_id(key.as_str(), id.as_str(), now) {
            Ok(p) => p,
            Err(e) => {
                return Err(e);
            },
        };
        let sid = StreamId { millis_time, sequence_num };
        let ghost vals = values@;
        let ghost old_tv = self.table.view();
        let mut stream = match self.table.remove(key.as_str()) {
            Some(s) => s,
            None => Vec::new(),
        };
        let ghost before = stream@;
        proof {
            if old_tv.contains_key(key@) {
                assert(before == old_tv[key@]@);
                assert(old(self).view()[key@] == entry_views(old_tv[key@]@));
            } else {
                assert(entry_views(before) =~= Seq::<(StreamId, Seq<Seq<char>>)>::empty());
            }
            assert(old(self).stream_of(key@) == entry_views(before));
        }
        stream.push(StreamEntry { id: sid, values });
        self.table.insert(key, stream);
        proof {
            assert(entry_views(stream@) =~= entry_views(before).push((sid, texts(vals))));
            assert(self.table.view() == old_tv.remove(key@).insert(key@, stream));
            assert(self.view() =~= old(self).view().insert(
                key@,
                old(self).stream_of(key@).push((sid, texts(vals))),
            ));
        }
        Ok(sid.to_string())
    }

    /// `XRANGE`: the entries whose ids lie between the bounds `start` and
    /// `stop`, both included.
    pub fn range(&self, key: &str, start: &str, stop: &str) -> (r: Result<
        Vec<StreamEntry>,
        StreamError,
    >)
        requires
            self.wf(),
        ensures
            match start_bound(encode_utf8(start@)) {
                Err(e) => r == Err::<Vec<StreamEntry>, StreamError>(e),
                Ok(lo) => match stop_bound(encode_utf8(stop@)) {
                    Err(e) => r == Err::<Vec<StreamEntry>, StreamError>(e),
                    Ok(hi) => r matches Ok(v) && entry_views(v@) == entries_between(
                        self.stream_of(key@),
                        lo,
                        hi,
                    ),
                },
            },
    {
        let lo = match read_bound(start.as_bytes(), 45, StreamId { millis_time: 0, sequence_num: 0 }, false) {
            Ok(i) => i,
            Err(e) => {
                return Err(e);
            },
        };
        let hi = match read_bound(
            stop.as_bytes(),
            43,
            StreamId { millis_time: u128::MAX, sequence_num: u64::MAX },
            true,
        ) {
            Ok(i) => i,
            Err(e) => {
                return Err(e);
            },
        };
        let mut out: Vec<StreamEntry> = Vec::new();
        match self.table.get(key) {
            None => {
                proof {
                    assert(entry_views(out@) =~= Seq::<(StreamId, Seq<Seq<char>>)>::empty());
                }
            },
            Some(s) => {
                let ghost sv = entry_views(s@);
                let mut i: usize = 0;
                while i < s.len()
                    invariant
                        i <= s@.len(),
                        sv == entry_views(s@),
                        entry_views(out@) == entries_between(sv.subrange(0, i as int), lo, hi),
                    decreases s@.len() - i,
                {
                    let ghost before = out@;
                    proof {
                        assert(sv.subrange(0, i + 1).drop_last() =~= sv.subrange(0, i as int));
                    }
                    if id_at_most(&lo, &s[i].id) && id_at_most(&s[i].id, &hi) {
                        let e = copy_entry(&s[i]);
                        out.push(e);
                        proof {
                            assert(entry_views(out@) =~= entry_views(before).push(sv[i as int]));
                        }
                    }
                    proof {
                        assert(entry_views(out@) =~= entries_between(sv.subrange(0, i + 1), lo, hi));
                    }
                    i += 1;
                }
                proof {
                    assert(sv.subrange(0, s@.len() as int) =~= sv);
                }
            },
        }
        Ok(out)
    }
}

fn copy_entry(e: &StreamEntry) -> (r: StreamEntry)
    ensures
        entry_view(r) == entry_view(*e),
{
    let mut values: Vec<String> = Vec::new();
    let mut i: usize = 0;
    while i < e.values.len()
        invariant
            i <= e.values@.len(),
            texts(values@) =~= texts(e.values@).subrange(0, i as int),
        decreases e.values@.len() - i,
    {
        let ghost before = values@;
        let c = e.values[i].clone();
        values.push(c);
        proof {
            assert(texts(values@) =~= texts(before).push(c@));
        }
        i += 1;
    }
    proof {
        assert(texts(e.values@).subrange(0, e.values@.len() as int) =~= texts(e.values@));
    }
    StreamEntry { id: e.id, values }
}

/// Reads a bound of `XRANGE`; `upper` picks the default sequence number of
/// a bound without `-`.
fn read_bound(b: &[u8], wild: u8, wild_id: StreamId, upper: bool) -> (r: Result<
    StreamId,
    StreamError,
>)
    ensures
        r == bound_id(
            b@,
            wild,
            wild_id,
            if upper {
                seq![57u8, 57u8, 57u8]
            } else {
                seq![48u8]
            },
        ),
{
    if b.len() == 1 && b[0] == wild {
        proof {
            assert(b@ =~= seq![wild]);
        }
        return Ok(wild_id);
    }
    proof {
        if b@ == seq![wild] {
            assert(b@.len() == 1 && b@[0] == wild);
        }
    }
    let default_seq: Vec<u8> = if upper {
        let mut d: Vec<u8> = Vec::new();
        d.push(57u8);
        d.push(57u8);
        d.push(57u8);
        proof {
            assert(d@ =~= seq![57u8, 57u8, 57u8]);
        }
        d
    } else {
        let mut d: Vec<u8> = Vec::new();
        d.push(48u8);
        proof {
            assert(d@ =~= seq![48u8]);
        }
        d
    };
    let (mt, st) = match find_byte(b, 45) {
        None => (b, default_seq.as_slice()),
        Some(j) => {
            proof {
                crate::text::lemma_byte_index(b@, 45, 0);
            }
            (vstd::slice::slice_subrange(b, 0, j), vstd::slice::slice_subrange(b, j + 1, b.len()))
        },
    };
    proof {
        lemma_parse_bounds(mt@, false, u128::MAX as int, 0);
        lemma_parse_bounds(st@, false, u64::MAX as int, 0);
    }
    let m = match parse_u128(mt) {
        Ok(m) => m,
        Err(e) => {
            return Err(StreamError::InvalidNumber(e));
        },
    };
    let q = match parse_u64(st) {
        Ok(q) => q,
        Err(e) => {
            return Err(StreamError::InvalidNumber(e));
        },
    };
    Ok(StreamId { millis_time: m, sequence_num: q })
}

} // verus!

verus! {

/// Whether `a` comes strictly before `b`.
pub open spec fn id_lt(a: StreamId, b: StreamId) -> bool {
    id_le(a, b) && a != b
}

/// An id given explicitly (anything but `*`) is accepted only above the id
/// of the stream's last entry, and never as `0-0`.
pub proof fn law_explicit_id_increases(id: Seq<u8>, last: Option<StreamId>, now: u128)
    requires
        id != seq![42u8],
    ensures
        new_id(id, last, now) matches Ok(n) ==> {
            &&& !(n.millis_time == 0 && n.sequence_num == 0)
            &&& last matches Some(l) ==> id_lt(l, n)
        },
{
    let j = byte_index(id, 45, 0);
    if j >= 0 {
        let mt = id.subrange(0, j);
        let st = id.subrange(j + 1, id.len() as int);
        lemma_parse_bounds(mt, false, u128::MAX as int, 0);
        lemma_parse_bounds(st, false, u64::MAX as int, 0);
    }
}

/// `XRANGE key - +` gives every entry of the stream, in order.
pub proof fn law_xrange_whole_stream(s: Seq<(StreamId, Seq<Seq<char>>)>)
    ensures
        entries_between(
            s,
            StreamId { millis_time: 0, sequence_num: 0 },
            StreamId { millis_time: u128::MAX, sequence_num: u64::MAX },
        ) == s,
    decreases s.len(),
{
    if s.len() > 0 {
        law_xrange_whole_stream(s.drop_last());
        assert(s.drop_last().push(s.last()) =~= s);
    }
}

proof fn lemma_no_dash(d: Seq<u8>)
    requires
        forall|i: int| 0 <= i < d.len() ==> 48 <= #[trigger] d[i] <= 57,
    ensures
        byte_index(d, 45, 0) < 0,
{
    lemma_byte_index(d, 45, 0);
    if byte_index(d, 45, 0) >= 0 {
        assert(d[byte_index(d, 45, 0)] == 45);
    }
}

proof fn lemma_dash_at(a: Seq<u8>, b: Seq<u8>)
    requires
        forall|i: int| 0 <= i < a.len() ==> 48 <= #[trigger] a[i] <= 57,
    ensures
        ({
            let s = a + seq![45u8] + b;
            &&& byte_index(s, 45, 0) == a.len()
            &&& s.subrange(0, a.len() as int) == a
            &&& s.subrange(a.len() + 1int, s.len() as int) == b
        }),
{
    let s = a + seq![45u8] + b;
    lemma_byte_index(s, 45, 0);
    assert(s[a.len() as int] == 45);
    let j = byte_index(s, 45, 0);
    if j >= 0 && j < a.len() {
        assert(s[j] == a[j]);
    }
    assert(s.subrange(0, a.len() as int) =~= a);
    assert(s.subrange(a.len() + 1int, s.len() as int) =~= b);
}

/// The bounds of `XRANGE`: `-` is the first id and `+` the last; a time
/// `T` alone is `T-0` as a lower bound and `T-999` as an upper bound; `T-S`
/// is the id `T-S`.
pub proof fn law_xrange_bounds(t: u128, q: u64)
    ensures
        start_bound(seq![45u8]) == Ok::<StreamId, StreamError>(
            StreamId { millis_time: 0, sequence_num: 0 },
        ),
        stop_bound(seq![43u8]) == Ok::<StreamId, StreamError>(
            StreamId { millis_time: u128::MAX, sequence_num: u64::MAX },
        ),
        start_bound(decimal(t as nat)) == Ok::<StreamId, StreamError>(
            StreamId { millis_time: t, sequence_num: 0 },
        ),
        stop_bound(decimal(t as nat)) == Ok::<StreamId, StreamError>(
            StreamId { millis_time: t, sequence_num: 999 },
        ),
        start_bound(decimal(t as nat) + seq![45u8] + decimal(q as nat)) == Ok::<
            StreamId,
            StreamError,
        >(StreamId { millis_time: t, sequence_num: q }),
        stop_bound(decimal(t as nat) + seq![45u8] + decimal(q as nat)) == Ok::<
            StreamId,
            StreamError,
        >(StreamId { millis_time: t, sequence_num: q }),
{
    let dt = decimal(t as nat);
    let dq = decimal(q as nat);
    crate::text::lemma_decimal_digits(t as nat);
    crate::text::lemma_decimal_digits(q as nat);
    lemma_no_dash(dt);
    lemma_dash_at(dt, dq);
    crate::text::lemma_parse_decimal(t as nat, false, u128::MAX as int, 0);
    crate::text::lemma_parse_decimal(q as nat, false, u64::MAX as int, 0);
    crate::text::lemma_parse_decimal(0, false, u64::MAX as int, 0);
    crate::text::lemma_parse_decimal(999, false, u64::MAX as int, 0);
    assert(decimal(0) =~= seq![48u8]);
    assert(decimal(999) =~= seq![57u8, 57u8, 57u8]) by {
        reveal_with_fuel(decimal, 4);
    }
    let s = dt + seq![45u8] + dq;
    assert(dt[0] != 45 && dt[0] != 43);
    assert(dt != seq![45u8] && dt != seq![43u8]);
    assert(s[0] == dt[0]);
    assert(s != seq![45u8] && s != seq![43u8]);
}


/// Whether an entry's id lies between `lo` and `hi`, both included: by
/// time, then by sequence number.
pub open spec fn within(lo: StreamId, hi: StreamId) -> spec_fn((StreamId, Seq<Seq<char>>)) -> bool {
    |e: (StreamId, Seq<Seq<char>>)|
        (lo.millis_time < e.0.millis_time || (lo.millis_time == e.0.millis_time && lo.sequence_num
            <= e.0.sequence_num)) && (e.0.millis_time < hi.millis_time || (e.0.millis_time
            == hi.millis_time && e.0.sequence_num <= hi.sequence_num))
}

/// `XRANGE` keeps exactly the entries whose ids lie between the bounds,
/// both bounds included, in the order of the stream.
pub proof fn law_xrange_between(s: Seq<(StreamId, Seq<Seq<char>>)>, lo: StreamId, hi: StreamId)
    ensures
        entries_between(s, lo, hi) == s.filter(within(lo, hi)),
    decreases s.len(),
{
    if s.len() == 0 {
        reveal(Seq::filter);
    } else {
        law_xrange_between(s.drop_last(), lo, hi);
        let pred = within(lo, hi);
        reveal(Seq::filter);
        assert(pred(s.last()) == (id_le(lo, s.last().0) && id_le(s.last().0, hi)));
        assert(s.filter(pred) == (if pred(s.last()) {
            s.drop_last().filter(pred).push(s.last())
        } else {
            s.drop_last().filter(pred)
        }));
        if pred(s.last()) {
            assert(entries_between(s, lo, hi) =~= s.drop_last().filter(pred).push(s.last()));
        } else {
            assert(entries_between(s, lo, hi) =~= s.drop_last().filter(pred));
        }
    }
}

} // verus!
