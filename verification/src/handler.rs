//! What the server does with each request: the change to the store and the
//! reply. Waiting (for `BLPOP`) and the connection itself are the caller's.
use vstd::prelude::*;
use vstd::utf8::{decode_utf8, encode_utf8, valid_utf8};
use crate::protocol::command::{Command, CommandError, CommandView, command_error_bytes, command_from};
use crate::protocol::data_type::{DataType, Resp, encoding, line, model_seq, lemma_model_seq_len};
use crate::storage::{Storage, StorageView, kind_name};
use crate::storage::key_val::{kv_get_step, expiry};
use crate::storage::list::{list_or_empty, reversed, range_first, range_end, range_of};
use crate::storage::stream::{
    StreamEntry, StreamError, new_id, last_id, start_bound, stop_bound, entries_between,
    stream_error_text, id_text, entry_view, entry_views,
};
use crate::storage::stream_id::StreamId;
use crate::text::{
    decimal, fmt_u128, text_bytes, text_of_valid, texts, opt_text, lemma_decimal_valid,
};

verus! {

broadcast use vstd::utf8::encode_utf8_valid_utf8, vstd::utf8::valid_utf8_concat,
    vstd::utf8::encode_utf8_decode_utf8, vstd::utf8::decode_utf8_encode_utf8;

/// What the connection does next.
#[derive(Debug)]
pub enum Action {
    /// Send these bytes.
    Reply(Vec<u8>),
    /// Wait for an element of the list `key`, for the number of seconds
    /// written in the second text (zero or less: without end); then reply
    /// as `Storage::try_blpop` says, or with a null array when time is up.
    Block(String, String),
    /// Give up on the connection: the request hits a limit of the server
    /// (an arithmetic overflow or an index run past the end of a list).
    Abort,
}

/// The model of an action.
pub enum ActionView {
    Reply(Seq<u8>),
    Block(Seq<char>, Seq<char>),
    Abort,
}

impl Action {
    pub open spec fn view(&self) -> ActionView {
        match self {
            Action::Reply(b) => ActionView::Reply(b@),
            Action::Block(k, t) => ActionView::Block(k@, t@),
            Action::Abort => ActionView::Abort,
        }
    }
}

/// Bulk strings of the texts, in order.
pub open spec fn bulks(s: Seq<Seq<char>>) -> Seq<Resp> {
    s.map_values(|t: Seq<char>| Resp::BulkString(t))
}

/// The reply `+OK`.
pub open spec fn ok_reply() -> Seq<u8> {
    encoding(Resp::SimpleString("OK"@))
}

/// The reply to a count: `:n`.
pub open spec fn count_reply(n: int) -> Seq<u8> {
    line(58, decimal(n as nat))
}

/// An `XRANGE` entry as a reply: its id and its texts.
pub open spec fn entry_reply(e: (StreamId, Seq<Seq<char>>)) -> Resp {
    Resp::Array(seq![Resp::BulkString(decode_utf8(id_text(e.0))), Resp::Array(bulks(e.1))])
}

/// The reply to `LPOP`: nothing popped is a null bulk string, one element
/// is that element, more are an array.
pub open spec fn popped_reply(p: Seq<Seq<char>>) -> Seq<u8> {
    if p.len() == 0 {
        encoding(Resp::NullBulkString)
    } else if p.len() == 1 {
        encoding(Resp::BulkString(p[0]))
    } else {
        encoding(Resp::Array(bulks(p)))
    }
}

/// What a command does to the store `s` at time `now`, and the action that
/// follows.
pub open spec fn step(s: StorageView, cmd: CommandView, now: u128) -> (StorageView, ActionView) {
    match cmd {
        CommandView::Ping => (s, ActionView::Reply(encoding(Resp::SimpleString("PONG"@)))),
        CommandView::Echo(t) => (s, ActionView::Reply(encoding(Resp::BulkString(t)))),
        CommandView::SetString(k, v, ttl) => if now + ttl > u128::MAX {
            (s, ActionView::Abort)
        } else {
            (
                StorageView { kv: s.kv.insert(k, (v, expiry(ttl, now))), ..s },
                ActionView::Reply(ok_reply()),
            )
        },
        CommandView::Get(k) => {
            let (kv, r) = kv_get_step(s.kv, k, now);
            (
                StorageView { kv: kv, ..s },
                ActionView::Reply(
                    match r {
                        Some(v) => encoding(Resp::BulkString(v)),
                        None => encoding(Resp::NullBulkString),
                    },
                ),
            )
        },
        CommandView::Lpush(k, vs) => {
            let l = reversed(vs) + list_or_empty(s.lists, k);
            (StorageView { lists: s.lists.insert(k, l), ..s }, ActionView::Reply(count_reply(l.len() as int)))
        },
        CommandView::Rpush(k, vs) => {
            let l = list_or_empty(s.lists, k) + vs;
            (StorageView { lists: s.lists.insert(k, l), ..s }, ActionView::Reply(count_reply(l.len() as int)))
        },
        CommandView::Lrange(k, a, b) => if !s.lists.contains_key(k) {
            (s, ActionView::Reply(encoding(Resp::Array(seq![]))))
        } else {
            let l = s.lists[k];
            if l.len() > i64::MAX || range_first(a, l.len() as int) > range_end(b, l.len() as int) {
                (s, ActionView::Abort)
            } else {
                (
                    s,
                    ActionView::Reply(
                        encoding(
                            Resp::Array(
                                bulks(
                                    range_of(
                                        l,
                                        range_first(a, l.len() as int),
                                        range_end(b, l.len() as int),
                                    ),
                                ),
                            ),
                        ),
                    ),
                )
            }
        },
        CommandView::Llen(k) => (s, ActionView::Reply(count_reply(list_or_empty(s.lists, k).len() as int))),
        CommandView::Lpop(k, n) => if !s.lists.contains_key(k) {
            (s, ActionView::Reply(encoding(Resp::NullBulkString)))
        } else {
            let l = s.lists[k];
            let c = if n < l.len() {
                n as int
            } else {
                l.len() as int
            };
            (
                StorageView { lists: s.lists.insert(k, l.subrange(c, l.len() as int)), ..s },
                ActionView::Reply(popped_reply(l.subrange(0, c))),
            )
        },
        CommandView::Blpop(k, t) => (s, ActionView::Block(k, t)),
        CommandView::Type(k) => (s, ActionView::Reply(encoding(Resp::SimpleString(kind_name(s, k))))),
        CommandView::XAdd(k, id, vs) => {
            let st = if s.streams.contains_key(k) {
                s.streams[k]
            } else {
                seq![]
            };
            match new_id(encode_utf8(id), last_id(st), now) {
                Ok(n) => (
                    StorageView { streams: s.streams.insert(k, st.push((n, vs))), ..s },
                    ActionView::Reply(encoding(Resp::BulkString(decode_utf8(id_text(n))))),
                ),
                Err(StreamError::SequenceOverflow) => (s, ActionView::Abort),
                Err(e) => (
                    s,
                    ActionView::Reply(
                        encoding(
                            Resp::SimpleError("ERR The ID specified in XADD "@ + stream_error_text(e)),
                        ),
                    ),
                ),
            }
        },
        CommandView::XRange(k, a, b) => {
            let st = if s.streams.contains_key(k) {
                s.streams[k]
            } else {
                seq![]
            };
            match start_bound(encode_utf8(a)) {
                Err(e) => (
                    s,
                    ActionView::Reply(encoding(Resp::SimpleError("ERR "@ + stream_error_text(e)))),
                ),
                Ok(lo) => match stop_bound(encode_utf8(b)) {
                    Err(e) => (
                        s,
                        ActionView::Reply(encoding(Resp::SimpleError("ERR "@ + stream_error_text(e)))),
                    ),
                    Ok(hi) => (
                        s,
                        ActionView::Reply(
                            encoding(
                                Resp::Array(
                                    entries_between(st, lo, hi).map_values(
                                        |e: (StreamId, Seq<Seq<char>>)| entry_reply(e),
                                    ),
                                ),
                            ),
                        ),
                    ),
                },
            }
        },
        CommandView::Other => (s, ActionView::Reply(ok_reply())),
    }
}

/// The reply to a request that names no command: a bulk error with the
/// message, or giving up when the server would.
pub open spec fn error_action(e: CommandError) -> ActionView {
    if e == CommandError::TtlOverflow {
        ActionView::Abort
    } else {
        ActionView::Reply(encoding(Resp::BulkError(decode_utf8(command_error_bytes(e)))))
    }
}

/// A string built from bytes that are the UTF-8 encoding of `t`.
fn owned_text(s: &str) -> (r: String)
    ensures
        r@ == s@,
{
    s.to_owned()
}

fn bulk_array(items: &Vec<String>) -> (r: DataType)
    ensures
        r.model() == Resp::Array(bulks(texts(items@))),
{
    let mut out: Vec<DataType> = Vec::new();
    let mut i: usize = 0;
    while i < items.len()
        invariant
            i <= items@.len(),
            model_seq(out@) == bulks(texts(items@)).subrange(0, i as int),
        decreases items@.len() - i,
    {
        let ghost before = out@;
        let c = items[i].clone();
        out.push(DataType::BulkString(c));
        proof {
            assert(out@.drop_last() =~= before);
            assert(out@.last().model() == Resp::BulkString(c@));
            assert(model_seq(out@) == model_seq(out@.drop_last()).push(out@.last().model()));
            assert(model_seq(out@) == model_seq(before).push(Resp::BulkString(c@)));
            assert(bulks(texts(items@))[i as int] == Resp::BulkString(items@[i as int]@));
            assert(model_seq(out@) =~= bulks(texts(items@)).subrange(0, i + 1));
        }
        i += 1;
    }
    proof {
        assert(bulks(texts(items@)).subrange(0, items@.len() as int) =~= bulks(texts(items@)));
    }
    DataType::Array(out)
}

fn count_bytes(n: usize) -> (r: Vec<u8>)
    ensures
        r@ == count_reply(n as int),
{
    let mut out: Vec<u8> = Vec::new();
    out.push(58u8);
    let mut d = fmt_u128(n as u128);
    out.append(&mut d);
    out.push(13u8);
    out.push(10u8);
    proof {
        assert(out@ =~= count_reply(n as int));
    }
    out
}

/// `prefix` followed by `msg`, as a string.
fn join_text(prefix: &str, msg: &String) -> (r: String)
    ensures
        r@ == prefix@ + msg@,
{
    let mut b = text_bytes(prefix);
    let mut m = text_bytes(msg.as_str());
    let ghost pb = b@;
    b.append(&mut m);
    proof {
        assert(valid_utf8(b@));
        crate::text::lemma_encode_concat(prefix@, msg@);
    }
    let r = text_of_valid(b);
    proof {
        assert(decode_utf8(encode_utf8(prefix@ + msg@)) == prefix@ + msg@);
    }
    r
}

fn entry_array(entries: &Vec<StreamEntry>) -> (r: DataType)
    ensures
        r.model() == Resp::Array(
            entry_views(entries@).map_values(|e: (StreamId, Seq<Seq<char>>)| entry_reply(e)),
        ),
{
    let ghost target = entry_views(entries@).map_values(
        |e: (StreamId, Seq<Seq<char>>)| entry_reply(e),
    );
    let mut out: Vec<DataType> = Vec::new();
    let mut i: usize = 0;
    while i < entries.len()
        invariant
            i <= entries@.len(),
            target == entry_views(entries@).map_values(|e: (StreamId, Seq<Seq<char>>)| entry_reply(e)),
            model_seq(out@) == target.subrange(0, i as int),
        decreases entries@.len() - i,
    {
        let ghost before = out@;
        let id = entries[i].id.to_string();
        let mut pair: Vec<DataType> = Vec::new();
        pair.push(DataType::BulkString(id));
        pair.push(bulk_array(&entries[i].values));
        let item = DataType::Array(pair);
        proof {
            lemma_model_seq_len(pair@);
            assert(decode_utf8(encode_utf8(id@)) == id@);
            assert(model_seq(pair@) =~= seq![
                Resp::BulkString(decode_utf8(id_text(entries@[i as int].id))),
                Resp::Array(bulks(texts(entries@[i as int].values@))),
            ]);
            assert(item.model() == target[i as int]);
        }
        out.push(item);
        proof {
            assert(out@.drop_last() =~= before);
            assert(model_seq(out@) =~= target.subrange(0, i + 1));
        }
        i += 1;
    }
    proof {
        assert(target.subrange(0, entries@.len() as int) =~= target);
    }
    DataType::Array(out)
}

impl Storage {
    /// Carries out a command at time `now` (milliseconds since the Unix
    /// epoch): the change to the store and what the connection does next.
    pub fn execute(&mut self, cmd: Command, now: u128) -> (r: Action)
        requires
            old(self).wf(),
        ensures
            final(self).wf(),
            (final(self).view(), r.view()) == step(old(self).view(), cmd.view(), now),
    {
        match cmd {
            Command::Ping => Action::Reply(DataType::SimpleString(owned_text("PONG")).serialize()),
            Command::Echo(t) => Action::Reply(DataType::BulkString(t).serialize()),
            Command::SetString(k, v, ttl) => {
                if now > u128::MAX - (ttl as u128) {
                    return Action::Abort;
                }
                self.kv_set(k, v, ttl, now);
                Action::Reply(DataType::SimpleString(owned_text("OK")).serialize())
            },
            Command::Get(k) => {
                match self.kv_get(k.as_str(), now) {
                    Some(v) => Action::Reply(DataType::BulkString(v).serialize()),
                    None => Action::Reply(DataType::NullBulkString.serialize()),
                }
            },
            Command::Lpush(k, vs) => {
                let n = self.list_bucket.lpush(k, vs);
                Action::Reply(count_bytes(n))
            },
            Command::Rpush(k, vs) => {
                let n = self.list_bucket.rpush(k, vs);
                Action::Reply(count_bytes(n))
            },
            Command::Lrange(k, a, b) => {
                if !self.list_bucket.range_is_defined(k.as_str(), a, b) {
                    return Action::Abort;
                }
                let items = self.list_bucket.range(k.as_str(), a, b);
                let reply = bulk_array(&items);
                proof {
                    if !old(self).view().lists.contains_key(k@) {
                        assert(bulks(texts(items@)) =~= Seq::<Resp>::empty());
                    }
                }
                Action::Reply(reply.serialize())
            },
            Command::Llen(k) => Action::Reply(count_bytes(self.list_bucket.len(k.as_str()))),
            Command::Lpop(k, n) => {
                match self.list_bucket.pop(k.as_str(), n) {
                    None => Action::Reply(DataType::NullBulkString.serialize()),
                    Some(p) => {
                        if p.len() == 0 {
                            Action::Reply(DataType::NullBulkString.serialize())
                        } else if p.len() == 1 {
                            let ghost pv = p@;
                            let mut p = p;
                            let x = p.remove(0);
                            proof {
                                assert(texts(pv)[0] == x@);
                            }
                            Action::Reply(DataType::BulkString(x).serialize())
                        } else {
                            Action::Reply(bulk_array(&p).serialize())
                        }
                    },
                }
            },
            Command::Blpop(k, t) => Action::Block(k, t),
            Command::Type(k) => {
                let name = self.key_type(k.as_str());
                Action::Reply(DataType::SimpleString(name).serialize())
            },
            Command::XAdd(k, id, vs) => {
                match self.stream_bucket.add(k, id, vs, now) {
                    Ok(t) => {
                        proof {
                            assert(decode_utf8(encode_utf8(t@)) == t@);
                        }
                        Action::Reply(DataType::BulkString(t).serialize())
                    },
                    Err(StreamError::SequenceOverflow) => Action::Abort,
                    Err(e) => {
                        let msg = join_text("ERR The ID specified in XADD ", &e.message());
                        Action::Reply(DataType::SimpleError(msg).serialize())
                    },
                }
            },
            Command::XRange(k, a, b) => {
                match self.stream_bucket.range(k.as_str(), a.as_str(), b.as_str()) {
                    Ok(entries) => Action::Reply(entry_array(&entries).serialize()),
                    Err(e) => {
                        let msg = join_text("ERR ", &e.message());
                        Action::Reply(DataType::SimpleError(msg).serialize())
                    },
                }
            },
            Command::Other => Action::Reply(DataType::SimpleString(owned_text("OK")).serialize()),
        }
    }

    /// Answers one request: the command it names is carried out; a request
    /// that names none gets a bulk error with the reason.
    pub fn respond(&mut self, data: DataType, now: u128) -> (r: Action)
        requires
            old(self).wf(),
        ensures
            final(self).wf(),
            match command_from(data.model()) {
                Ok(c) => (final(self).view(), r.view()) == step(old(self).view(), c, now),
                Err(e) => final(self).view() == old(self).view() && r.view() == error_action(e),
            },
    {
        match Command::from(data) {
            Ok(cmd) => self.execute(cmd, now),
            Err(CommandError::TtlOverflow) => Action::Abort,
            Err(e) => {
                let msg = e.message();
                proof {
                    assert(decode_utf8(encode_utf8(msg@)) == msg@);
                }
                Action::Reply(DataType::BulkError(msg).serialize())
            },
        }
    }

    /// One try of `BLPOP key`: takes the first element of the list of `key`
    /// when there is one, and gives the reply `[key, element]`.
    pub fn try_blpop(&mut self, key: &str) -> (r: Option<Vec<u8>>)
        requires
            old(self).wf(),
        ensures
            final(self).wf(),
            match r {
                Some(b) => {
                    let l = old(self).view().lists[key@];
                    &&& old(self).view().lists.contains_key(key@)
                    &&& l.len() > 0
                    &&& b@ == encoding(
                        Resp::Array(seq![Resp::BulkString(key@), Resp::BulkString(l[0])]),
                    )
                    &&& final(self).view() == (StorageView {
                        lists: old(self).view().lists.insert(key@, l.subrange(1, l.len() as int)),
                        ..old(self).view()
                    })
                },
                None => list_or_empty(old(self).view().lists, key@).len() == 0
                    && final(self).view() == old(self).view(),
            },
    {
        match self.list_bucket.pop(key, 1) {
            None => None,
            Some(p) => {
                if p.len() == 0 {
                    proof {
                        let l = old(self).view().lists[key@];
                        assert(texts(p@).len() == 0);
                        assert(l.len() == 0);
                        assert(l.subrange(0, l.len() as int) =~= l);
                        assert(self.view().lists =~= old(self).view().lists);
                    }
                    return None;
                }
                let ghost pv = p@;
                let mut p = p;
                let x = p.remove(0);
                proof {
                    let l = old(self).view().lists[key@];
                    assert(texts(pv).len() == pv.len());
                    assert(l.len() >= 1);
                    assert(texts(pv)[0] == x@);
                    assert(l.subrange(0, 1)[0] == l[0]);
                    assert(l[0] == x@);
                }
                let mut pair: Vec<DataType> = Vec::new();
                pair.push(DataType::BulkString(owned_text(key)));
                pair.push(DataType::BulkString(x));
                proof {
                    lemma_model_seq_len(pair@);
                    assert(model_seq(pair@) =~= seq![
                        Resp::BulkString(key@),
                        Resp::BulkString(x@),
                    ]);
                }
                Some(DataType::Array(pair).serialize())
            },
        }
    }
}

} // verus!

verus! {

/// A text set without expiry, or read back before it expires, is read back
/// unchanged, and the read leaves the store as it was.
pub proof fn law_get_after_set(
    s: StorageView,
    k: Seq<char>,
    v: Seq<char>,
    ttl: u64,
    set_at: u128,
    get_at: u128,
)
    requires
        set_at + ttl <= u128::MAX,
        ttl == 0 || get_at <= set_at + ttl,
    ensures
        ({
            let (s1, a1) = step(s, CommandView::SetString(k, v, ttl), set_at);
            let (s2, a2) = step(s1, CommandView::Get(k), get_at);
            &&& a1 == ActionView::Reply(ok_reply())
            &&& a2 == ActionView::Reply(encoding(Resp::BulkString(v)))
            &&& s2 == s1
        }),
{
}

/// A text read after its time to live has passed is gone: the read answers
/// with a null bulk string and removes the key.
pub proof fn law_get_after_expiry(
    s: StorageView,
    k: Seq<char>,
    v: Seq<char>,
    ttl: u64,
    set_at: u128,
    get_at: u128,
)
    requires
        set_at + ttl <= u128::MAX,
        ttl > 0,
        get_at > set_at + ttl,
    ensures
        ({
            let (s1, a1) = step(s, CommandView::SetString(k, v, ttl), set_at);
            let (s2, a2) = step(s1, CommandView::Get(k), get_at);
            &&& a2 == ActionView::Reply(encoding(Resp::NullBulkString))
            &&& !s2.kv.contains_key(k)
            &&& s2.lists == s.lists
            &&& s2.streams == s.streams
        }),
{
}

/// `LRANGE key 0 -1` gives the whole list.
pub proof fn law_lrange_whole_list(s: StorageView, k: Seq<char>)
    requires
        list_or_empty(s.lists, k).len() <= i64::MAX,
    ensures
        ({
            let (s1, a) = step(s, CommandView::Lrange(k, 0i64, -1i64), 0);
            &&& s1 == s
            &&& a == ActionView::Reply(encoding(Resp::Array(bulks(list_or_empty(s.lists, k)))))
        }),
{
    if s.lists.contains_key(k) {
        let l = s.lists[k];
        assert(range_first(0, l.len() as int) == 0);
        assert(range_end(-1i64, l.len() as int) == l.len());
        if l.len() > 0 {
            assert(l.subrange(0, l.len() as int) =~= l);
        } else {
            assert(bulks(l) =~= Seq::<Resp>::empty());
        }
    } else {
        assert(bulks(list_or_empty(s.lists, k)) =~= Seq::<Resp>::empty());
    }
}

/// `RPUSH` appends its values in order, `LPUSH` puts them in front in
/// reverse order; both answer with the new length, which `LLEN` then
/// reports.
pub proof fn law_push_then_llen(s: StorageView, k: Seq<char>, vs: Seq<Seq<char>>, left: bool)
    ensures
        ({
            let cmd = if left {
                CommandView::Lpush(k, vs)
            } else {
                CommandView::Rpush(k, vs)
            };
            let (s1, a1) = step(s, cmd, 0);
            let (s2, a2) = step(s1, CommandView::Llen(k), 0);
            let n = list_or_empty(s.lists, k).len() + vs.len();
            &&& s1.lists[k] == (if left {
                reversed(vs) + list_or_empty(s.lists, k)
            } else {
                list_or_empty(s.lists, k) + vs
            })
            &&& a1 == ActionView::Reply(count_reply(n as int))
            &&& a2 == ActionView::Reply(count_reply(n as int))
            &&& s2 == s1
        }),
{
}

/// Values pushed with `RPUSH` onto a key without a list come back from
/// `LPOP` in the order in which they were pushed, and the list is left
/// empty.
pub proof fn law_rpush_then_lpop(s: StorageView, k: Seq<char>, vs: Seq<Seq<char>>)
    requires
        !s.lists.contains_key(k),
        vs.len() <= usize::MAX,
    ensures
        ({
            let (s1, a1) = step(s, CommandView::Rpush(k, vs), 0);
            let (s2, a2) = step(s1, CommandView::Lpop(k, vs.len() as usize), 0);
            &&& a2 == ActionView::Reply(popped_reply(vs))
            &&& s2.lists[k] == Seq::<Seq<char>>::empty()
        }),
{
    let l = list_or_empty(s.lists, k) + vs;
    assert(list_or_empty(s.lists, k) =~= Seq::<Seq<char>>::empty());
    assert(l =~= vs);
    assert(l.subrange(0, vs.len() as int) =~= vs);
    assert(l.subrange(vs.len() as int, vs.len() as int) =~= Seq::<Seq<char>>::empty());
}

/// `TYPE` names the kind of value a key was last given: after `SET` it is
/// `string`.
pub proof fn law_type_after_set(s: StorageView, k: Seq<char>, v: Seq<char>, now: u128)
    ensures
        ({
            let (s1, _) = step(s, CommandView::SetString(k, v, 0), now);
            let (_, a) = step(s1, CommandView::Type(k), now);
            a == ActionView::Reply(encoding(Resp::SimpleString("string"@)))
        }),
{
}


/// `LPOP key n` on a list `l` takes `min(n, |l|)` elements from its front:
/// the list keeps the rest, and the reply is a null bulk string when none
/// is taken, the element when one is, and an array of them otherwise.
pub proof fn law_lpop_takes(s: StorageView, k: Seq<char>, n: usize, now: u128)
    requires
        s.lists.contains_key(k),
    ensures
        ({
            let l = s.lists[k];
            let m: int = if n as int <= l.len() {
                n as int
            } else {
                l.len() as int
            };
            let (s1, a) = step(s, CommandView::Lpop(k, n), now);
            &&& s1.lists == s.lists.insert(k, l.subrange(m, l.len() as int))
            &&& s1.kv == s.kv
            &&& s1.streams == s.streams
            &&& a == ActionView::Reply(
                encoding(
                    if m == 0 {
                        Resp::NullBulkString
                    } else if m == 1 {
                        Resp::BulkString(l[0])
                    } else {
                        Resp::Array(Seq::new(m as nat, |i: int| Resp::BulkString(l[i])))
                    },
                ),
            )
        }),
{
    let l = s.lists[k];
    let m: int = if n as int <= l.len() {
        n as int
    } else {
        l.len() as int
    };
    let p = l.subrange(0, m);
    assert(bulks(p) =~= Seq::new(m as nat, |i: int| Resp::BulkString(l[i])));
}

} // verus!
