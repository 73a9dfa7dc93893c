//! The Fluent Forward frame codec.
//!
//! A connection's byte stream holds a concatenation of MessagePack-encoded
//! Forward messages. The codec decodes one message at a time, expands it
//! into zero or more frames — one per `(tag, timestamp, record)` triple —
//! and hands frames out one per call through a pending queue.

use vstd::prelude::*;
use crate::msgpack::{
    be_bytes, sval, MsgValue, SpecValue, SOut, Dec, dval,
    view_seq, view_pairs, lemma_view_seq, lemma_view_pairs,
};

verus! {

broadcast use vstd::std_specs::vec::group_vec_axioms;

/// A Fluent timestamp: plain seconds, or the EventTime extension's
/// seconds and nanoseconds.
#[derive(Debug, Clone, PartialEq, Eq, Structural)]
pub enum FluentTimestamp {
    Unix(i64),
    EventTime(u32, u32),
}

/// The model of a Fluent timestamp.
pub enum STimestamp {
    Unix(int),
    EventTime(int, int),
}

impl View for FluentTimestamp {
    type V = STimestamp;

    open spec fn view(&self) -> STimestamp {
        match *self {
            FluentTimestamp::Unix(s) => STimestamp::Unix(s as int),
            FluentTimestamp::EventTime(s, ns) => STimestamp::EventTime(s as int, ns as int),
        }
    }
}

impl FluentTimestamp {
    /// Seconds since the epoch.
    pub open spec fn spec_seconds(self) -> int {
        match self {
            FluentTimestamp::Unix(s) => s as int,
            FluentTimestamp::EventTime(s, _) => s as int,
        }
    }

    /// Nanoseconds within the second.
    pub open spec fn spec_nanoseconds(self) -> int {
        match self {
            FluentTimestamp::Unix(_) => 0,
            FluentTimestamp::EventTime(_, ns) => ns as int,
        }
    }

    /// Seconds since the epoch, never panicking: the EventTime seconds
    /// widen from `u32` into `i64`.
    pub fn seconds(&self) -> (r: i64)
        ensures
            r as int == self.spec_seconds(),
    {
        match *self {
            FluentTimestamp::Unix(s) => s,
            FluentTimestamp::EventTime(s, _) => s as i64,
        }
    }

    /// Nanoseconds within the second.
    pub fn nanoseconds(&self) -> (r: u32)
        ensures
            r as int == self.spec_nanoseconds(),
    {
        match *self {
            FluentTimestamp::Unix(_) => 0,
            FluentTimestamp::EventTime(_, ns) => ns,
        }
    }
}

/// A record: keys (string payload bytes) with their values, keys unique,
/// first-occurrence order kept.
pub type FluentRecord = Vec<(Vec<u8>, MsgValue)>;

/// The model of a record.
pub type SRecord = Seq<(Seq<u8>, SpecValue)>;

/// The model of a record value: pair of key bytes and value model.
pub open spec fn record_view(r: Seq<(Vec<u8>, MsgValue)>) -> SRecord
    decreases r,
{
    if r.len() == 0 {
        Seq::empty()
    } else {
        seq![(r[0].0@, r[0].1@)] + record_view(r.drop_first())
    }
}

/// `record_view` is the pair-wise model.
pub proof fn lemma_record_view(r: Seq<(Vec<u8>, MsgValue)>)
    ensures
        record_view(r).len() == r.len(),
        forall|i: int| 0 <= i < r.len() ==> record_view(r)[i]
            == (#[trigger] r[i].0@, r[i].1@),
    decreases r,
{
    if r.len() > 0 {
        lemma_record_view(r.drop_first());
        assert forall|i: int| 0 <= i < r.len() implies record_view(r)[i]
            == (#[trigger] r[i].0@, r[i].1@) by {
            if i > 0 {
                assert(r.drop_first()[i - 1] == r[i]);
            }
        }
    }
}

/// One normalized frame: the unit of event emission.
#[derive(Debug)]
pub struct FluentFrame {
    pub tag: Vec<u8>,
    pub timestamp: FluentTimestamp,
    pub record: FluentRecord,
}

/// The model of a frame.
pub struct SpecFrame {
    pub tag: Seq<u8>,
    pub timestamp: STimestamp,
    pub record: SRecord,
}

impl View for FluentFrame {
    type V = SpecFrame;

    open spec fn view(&self) -> SpecFrame {
        SpecFrame {
            tag: self.tag@,
            timestamp: self.timestamp@,
            record: record_view(self.record@),
        }
    }
}

/// A decode error. `Io` stands for an error of the transport below the
/// codec (the only fatal kind); the other three come from the codec
/// itself and leave the connection usable.
#[derive(Debug)]
pub enum DecodeError {
    Io,
    Decode,
    UnknownCompression(Vec<u8>),
    UnexpectedValue(MsgValue),
}

/// The model of a decode error.
pub enum SDecodeError {
    Io,
    Decode,
    UnknownCompression(Seq<u8>),
    UnexpectedValue(SpecValue),
}

impl View for DecodeError {
    type V = SDecodeError;

    open spec fn view(&self) -> SDecodeError {
        match self {
            DecodeError::Io => SDecodeError::Io,
            DecodeError::Decode => SDecodeError::Decode,
            DecodeError::UnknownCompression(s) => SDecodeError::UnknownCompression(s@),
            DecodeError::UnexpectedValue(v) => SDecodeError::UnexpectedValue(v@),
        }
    }
}

impl DecodeError {
    /// Whether this error must close the connection.
    ///
    /// Transport errors are fatal; decode-level errors are not: the
    /// stream position is still well-defined past the offending message.
    pub open spec fn spec_is_fatal(&self) -> bool {
        self is Io
    }
}

/// The first index holding key `k`, or `-1`.
pub open spec fn find_key<V>(m: Seq<(Seq<u8>, V)>, k: Seq<u8>) -> int
    decreases m,
{
    if m.len() == 0 {
        -1
    } else if m[0].0 == k {
        0
    } else {
        let r = find_key(m.drop_first(), k);
        if r < 0 {
            -1
        } else {
            r + 1
        }
    }
}

/// The value at key `k`, if any.
pub open spec fn lookup<V>(m: Seq<(Seq<u8>, V)>, k: Seq<u8>) -> Option<V> {
    let i = find_key(m, k);
    if i < 0 {
        Option::None
    } else {
        Option::Some(m[i].1)
    }
}

/// Insert `(k, v)`: an existing key keeps its position and takes the new
/// value; a new key goes to the end.
pub open spec fn upsert<V>(m: Seq<(Seq<u8>, V)>, k: Seq<u8>, v: V) -> Seq<(Seq<u8>, V)> {
    let i = find_key(m, k);
    if i < 0 {
        m.push((k, v))
    } else {
        m.update(i, (k, v))
    }
}

/// Normalize raw wire pairs into a record: keys unique, first-occurrence
/// order kept, the last value of a repeated key winning.
pub open spec fn norm_pairs<V>(sp: Seq<(Seq<u8>, V)>) -> Seq<(Seq<u8>, V)>
    decreases sp,
{
    if sp.len() == 0 {
        Seq::empty()
    } else {
        upsert(norm_pairs(sp.drop_last()), sp.last().0, sp.last().1)
    }
}

/// `find_key` finds the first occurrence, and only of present keys.
pub proof fn lemma_find_key<V>(m: Seq<(Seq<u8>, V)>, k: Seq<u8>)
    ensures
        find_key(m, k) < 0 ==> forall|i: int| 0 <= i < m.len() ==> (#[trigger] m[i]).0 != k,
        find_key(m, k) >= 0 ==> {
            &&& find_key(m, k) < m.len()
            &&& m[find_key(m, k)].0 == k
            &&& forall|i: int| 0 <= i < find_key(m, k) ==> (#[trigger] m[i]).0 != k
        },
    decreases m,
{
    if m.len() > 0 && m[0].0 != k {
        lemma_find_key(m.drop_first(), k);
        assert forall|i: int| 1 <= i < m.len() implies m.drop_first()[i - 1] == m[i] by {}
    }
}

/// The key bytes of wire pairs whose keys are all strings; `None` if any
/// key is not a string.
pub open spec fn str_pairs_of(ps: Seq<(SpecValue, SpecValue)>) -> Option<SRecord>
    decreases ps,
{
    if ps.len() == 0 {
        Option::Some(Seq::empty())
    } else {
        match ps[0].0 {
            SpecValue::Str(k) => match str_pairs_of(ps.drop_first()) {
                Option::Some(r) => Option::Some(seq![(k, ps[0].1)] + r),
                Option::None => Option::None,
            },
            _ => Option::None,
        }
    }
}

/// The record a value stands for: a map whose keys are all strings,
/// normalized. Anything else is no record.
pub open spec fn record_of(v: SpecValue) -> Option<SRecord> {
    match v {
        SpecValue::Dict(ps) => match str_pairs_of(ps) {
            Option::Some(sp) => Option::Some(norm_pairs(sp)),
            Option::None => Option::None,
        },
        _ => Option::None,
    }
}

/// The timestamp a value stands for: an integer in `i64` range, or the
/// EventTime extension — type `0`, exactly 8 payload bytes, big-endian
/// seconds then nanoseconds. Anything else is no timestamp.
pub open spec fn ts_of(v: SpecValue) -> Option<STimestamp> {
    match v {
        SpecValue::Int(n) => if -0x8000_0000_0000_0000 <= n <= 0x7fff_ffff_ffff_ffff {
            Option::Some(STimestamp::Unix(n))
        } else {
            Option::None
        },
        SpecValue::Ext(code, d) => if code == 0 && d.len() == 8 {
            Option::Some(STimestamp::EventTime(
                be_bytes(d, 0, 4) as int,
                be_bytes(d, 4, 4) as int,
            ))
        } else {
            Option::None
        },
        _ => Option::None,
    }
}

/// The entry a value stands for: a two-element array of timestamp and record.
pub open spec fn entry_of(v: SpecValue) -> Option<(STimestamp, SRecord)> {
    match v {
        SpecValue::Arr(es) => if es.len() == 2 {
            match ts_of(es[0]) {
                Option::Some(ts) => match record_of(es[1]) {
                    Option::Some(r) => Option::Some((ts, r)),
                    Option::None => Option::None,
                },
                Option::None => Option::None,
            }
        } else {
            Option::None
        },
        _ => Option::None,
    }
}

/// The entries a sequence of values stands for; `None` if any element is
/// no entry.
pub open spec fn entries_of(vs: Seq<SpecValue>) -> Option<Seq<(STimestamp, SRecord)>>
    decreases vs,
{
    if vs.len() == 0 {
        Option::Some(Seq::empty())
    } else {
        match entry_of(vs[0]) {
            Option::Some(e) => match entries_of(vs.drop_first()) {
                Option::Some(r) => Option::Some(seq![e] + r),
                Option::None => Option::None,
            },
            Option::None => Option::None,
        }
    }
}

/// The bytes of the `compressed` option key.
pub open spec fn key_compressed() -> Seq<u8> {
    seq![0x63u8, 0x6f, 0x6d, 0x70, 0x72, 0x65, 0x73, 0x73, 0x65, 0x64]
}

/// The bytes of the `size` option key.
pub open spec fn key_size() -> Seq<u8> {
    seq![0x73u8, 0x69, 0x7a, 0x65]
}

/// The bytes of the `chunk` option key.
pub open spec fn key_chunk() -> Seq<u8> {
    seq![0x63u8, 0x68, 0x75, 0x6e, 0x6b]
}

/// The bytes of the `gzip` compression name.
pub open spec fn name_gzip() -> Seq<u8> {
    seq![0x67u8, 0x7a, 0x69, 0x70]
}

/// The bytes of the `text` compression name.
pub open spec fn name_text() -> Seq<u8> {
    seq![0x74u8, 0x65, 0x78, 0x74]
}

/// The `compressed` string of a valid options map.
///
/// Options are valid when the value is a map with string keys whose
/// `compressed` entry is a string, whose `size` entry — if present — is
/// an unsigned 64-bit integer, and whose `chunk` entry — if present — is
/// a string. Unknown entries are ignored.
pub open spec fn opts_of(v: SpecValue) -> Option<Seq<u8>> {
    match v {
        SpecValue::Dict(ps) => match str_pairs_of(ps) {
            Option::Some(sp) => {
                let m = norm_pairs(sp);
                let size_ok = match lookup(m, key_size()) {
                    Option::None => true,
                    Option::Some(SpecValue::Int(n)) => 0 <= n < 0x1_0000_0000_0000_0000,
                    Option::Some(_) => false,
                };
                let chunk_ok = match lookup(m, key_chunk()) {
                    Option::None => true,
                    Option::Some(SpecValue::Str(_)) => true,
                    Option::Some(_) => false,
                };
                if size_ok && chunk_ok {
                    match lookup(m, key_compressed()) {
                        Option::Some(SpecValue::Str(c)) => Option::Some(c),
                        _ => Option::None,
                    }
                } else {
                    Option::None
                }
            },
            Option::None => Option::None,
        },
        _ => Option::None,
    }
}

/// A classified Forward message (model level).
///
/// `Packed` holds the raw entry-stream payload and, when the message had
/// an options element, the `compressed` string. `Unexpected` holds any
/// well-formed MessagePack value that fits no message shape — mirroring
/// the protocol's rule that a lone non-map value is a heartbeat only when
/// it is nil.
pub enum SMessage {
    Message(Seq<u8>, STimestamp, SRecord),
    Forward(Seq<u8>, Seq<(STimestamp, SRecord)>),
    Packed(Seq<u8>, Seq<u8>, Option<Seq<u8>>),
    Heartbeat,
    Unexpected(SpecValue),
}

/// The packed payload a value stands for: raw bytes, or a string's bytes
/// (peers encode the entry stream either way).
pub open spec fn payload_of(v: SpecValue) -> Option<Seq<u8>> {
    match v {
        SpecValue::Bin(b) => Option::Some(b),
        SpecValue::Str(s) => Option::Some(s),
        _ => Option::None,
    }
}

/// Classify one decoded MessagePack value as a Forward message.
///
/// Arrays are dispatched on arity and element types; `nil` is a
/// heartbeat; everything else — including arrays fitting no shape — is
/// an unexpected value.
pub open spec fn classify(v: SpecValue) -> SMessage {
    match v {
        SpecValue::Nil => SMessage::Heartbeat,
        SpecValue::Arr(es) => {
            if es.len() == 2 {
                match es[0] {
                    SpecValue::Str(tag) => match es[1] {
                        SpecValue::Arr(ev) => match entries_of(ev) {
                            Option::Some(en) => SMessage::Forward(tag, en),
                            Option::None => SMessage::Unexpected(v),
                        },
                        SpecValue::Bin(b) => SMessage::Packed(tag, b, Option::None),
                        SpecValue::Str(sb) => SMessage::Packed(tag, sb, Option::None),
                        _ => SMessage::Unexpected(v),
                    },
                    _ => SMessage::Unexpected(v),
                }
            } else if es.len() == 3 {
                match es[0] {
                    SpecValue::Str(tag) => {
                        if ts_of(es[1]) is Some && record_of(es[2]) is Some {
                            SMessage::Message(
                                tag,
                                ts_of(es[1]).unwrap(),
                                record_of(es[2]).unwrap(),
                            )
                        } else if es[1] is Arr && entries_of(es[1]->Arr_0) is Some
                            && opts_of(es[2]) is Some {
                            SMessage::Forward(tag, entries_of(es[1]->Arr_0).unwrap())
                        } else if payload_of(es[1]) is Some && opts_of(es[2]) is Some {
                            SMessage::Packed(
                                tag,
                                payload_of(es[1]).unwrap(),
                                Option::Some(opts_of(es[2]).unwrap()),
                            )
                        } else {
                            SMessage::Unexpected(v)
                        }
                    },
                    _ => SMessage::Unexpected(v),
                }
            } else if es.len() == 4 {
                match es[0] {
                    SpecValue::Str(tag) => {
                        if ts_of(es[1]) is Some && record_of(es[2]) is Some
                            && opts_of(es[3]) is Some {
                            SMessage::Message(
                                tag,
                                ts_of(es[1]).unwrap(),
                                record_of(es[2]).unwrap(),
                            )
                        } else {
                            SMessage::Unexpected(v)
                        }
                    },
                    _ => SMessage::Unexpected(v),
                }
            } else {
                SMessage::Unexpected(v)
            }
        },
        _ => SMessage::Unexpected(v),
    }
}

/// `find_key` over a push: a fresh key lands at the end, others are
/// unaffected.
proof fn lemma_find_key_push<V>(m: Seq<(Seq<u8>, V)>, p: (Seq<u8>, V), k: Seq<u8>)
    ensures
        p.0 == k && find_key(m, k) < 0 ==> find_key(m.push(p), k) == m.len(),
        p.0 == k && find_key(m, k) >= 0 ==> find_key(m.push(p), k) == find_key(m, k),
        p.0 != k ==> find_key(m.push(p), k) == find_key(m, k),
    decreases m,
{
    if m.len() == 0 {
        assert(m.push(p).len() == 1);
        assert(m.push(p)[0] == p);
        if p.0 != k {
            assert(find_key(m.push(p).drop_first(), k) == find_key(Seq::<(Seq<u8>,
                V)>::empty(), k));
        }
    } else {
        assert(m.push(p)[0] == m[0]);
        if m[0].0 != k {
            lemma_find_key_push(m.drop_first(), p, k);
            assert(m.push(p).drop_first() =~= m.drop_first().push(p));
        }
    }
}

/// `find_key` over an update: updating position `i` with the same key
/// leaves every search result unchanged.
proof fn lemma_find_key_update<V>(m: Seq<(Seq<u8>, V)>, i: int, p: (Seq<u8>, V), k: Seq<u8>)
    requires
        0 <= i < m.len(),
        m[i].0 == p.0,
    ensures
        p.0 == k ==> find_key(m.update(i, p), k) == find_key(m, k),
        p.0 != k ==> find_key(m.update(i, p), k) == find_key(m, k),
    decreases m,
{
    let u = m.update(i, p);
    if i == 0 {
        assert(u[0] == p);
        if m[0].0 != k {
            assert(u.drop_first() =~= m.drop_first());
        }
    } else {
        assert(u[0] == m[0]);
        if m[0].0 != k {
            assert(u.drop_first() =~= m.drop_first().update(i - 1, p));
            lemma_find_key_update(m.drop_first(), i - 1, p, k);
        }
    }
}

/// What `lookup` sees after an `upsert`.
pub proof fn lemma_upsert_lookup<V>(m: Seq<(Seq<u8>, V)>, k: Seq<u8>, v: V, k2: Seq<u8>)
    ensures
        k2 == k ==> lookup(upsert(m, k, v), k2) == Option::Some(v),
        k2 != k ==> lookup(upsert(m, k, v), k2) == lookup(m, k2),
        upsert(m, k, v).len() == (if find_key(m, k) < 0 { m.len() + 1int } else { m.len() as int }),
{
    lemma_find_key(m, k);
    let i = find_key(m, k);
    if i < 0 {
        lemma_find_key_push(m, (k, v), k2);
        if k2 == k {
            assert(m.push((k, v))[m.len() as int] == (k, v));
        } else {
            if find_key(m, k2) >= 0 {
                lemma_find_key(m, k2);
                assert(m.push((k, v))[find_key(m, k2)] == m[find_key(m, k2)]);
            }
        }
    } else {
        lemma_find_key_update(m, i, (k, v), k2);
        if k2 == k {
            assert(m.update(i, (k, v))[i] == (k, v));
        } else {
            if find_key(m, k2) >= 0 {
                lemma_find_key(m, k2);
                assert(find_key(m, k2) != i ==> m.update(i, (k, v))[find_key(m, k2)]
                    == m[find_key(m, k2)]);
                assert(m[i].0 == k);
            }
        }
    }
}

/// The last index of raw pairs holding key `k`, or `-1`.
pub open spec fn rfind<V>(sp: Seq<(Seq<u8>, V)>, k: Seq<u8>) -> int
    decreases sp,
{
    if sp.len() == 0 {
        -1
    } else if sp.last().0 == k {
        sp.len() - 1
    } else {
        rfind(sp.drop_last(), k)
    }
}

/// Looking a key up in a normalized record finds the last raw occurrence.
pub proof fn lemma_norm_lookup<V>(sp: Seq<(Seq<u8>, V)>, k: Seq<u8>)
    ensures
        rfind(sp, k) < 0 ==> lookup(norm_pairs(sp), k) is None,
        rfind(sp, k) >= 0 ==> {
            &&& rfind(sp, k) < sp.len()
            &&& sp[rfind(sp, k)].0 == k
            &&& lookup(norm_pairs(sp), k) == Option::Some(sp[rfind(sp, k)].1)
        },
    decreases sp,
{
    if sp.len() > 0 {
        let head = sp.drop_last();
        let p = sp.last();
        lemma_norm_lookup(head, k);
        lemma_upsert_lookup(norm_pairs(head), p.0, p.1, k);
        lemma_find_key(norm_pairs(head), k);
    } else {
        assert(lookup(norm_pairs(sp), k) is None);
    }
}

/// Byte-for-byte equality of two byte vectors.
pub fn eq_bytes(a: &Vec<u8>, b: &Vec<u8>) -> (r: bool)
    ensures
        r == (a@ == b@),
{
    if a.len() != b.len() {
        proof {
            assert(a@ != b@);
        }
        return false;
    }
    let mut i: usize = 0;
    while i < a.len()
        invariant
            0 <= i <= a.len(),
            a@.len() == b@.len(),
            forall|j: int| 0 <= j < i ==> a@[j] == b@[j],
        decreases a.len() - i,
    {
        if a[i] != b[i] {
            proof {
                assert(a@[i as int] != b@[i as int]);
            }
            return false;
        }
        i = i + 1;
    }
    proof {
        assert(a@ =~= b@);
    }
    true
}

/// `str_pairs_of` succeeds exactly when every key is a string, and then
/// extracts the key bytes pair-wise.
pub proof fn lemma_str_pairs(ps: Seq<(SpecValue, SpecValue)>)
    ensures
        (str_pairs_of(ps) is Some) == (forall|i: int| 0 <= i < ps.len()
            ==> (#[trigger] ps[i]).0 is Str),
        str_pairs_of(ps) is Some ==> {
            &&& str_pairs_of(ps).unwrap().len() == ps.len()
            &&& forall|i: int| 0 <= i < ps.len() ==> #[trigger] str_pairs_of(ps).unwrap()[i]
                == (ps[i].0->Str_0, ps[i].1)
        },
    decreases ps,
{
    if ps.len() > 0 {
        lemma_str_pairs(ps.drop_first());
        assert(forall|i: int| 1 <= i < ps.len() ==> #[trigger] ps[i]
            == ps.drop_first()[i - 1]);
    }
}

/// `entries_of` succeeds exactly when every element is an entry, and then
/// collects the entries element-wise.
pub proof fn lemma_entries_of(vs: Seq<SpecValue>)
    ensures
        (entries_of(vs) is Some) == (forall|i: int| 0 <= i < vs.len()
            ==> entry_of(#[trigger] vs[i]) is Some),
        entries_of(vs) is Some ==> {
            &&& entries_of(vs).unwrap().len() == vs.len()
            &&& forall|i: int| 0 <= i < vs.len() ==> #[trigger] entries_of(vs).unwrap()[i]
                == entry_of(vs[i]).unwrap()
        },
    decreases vs,
{
    if vs.len() > 0 {
        lemma_entries_of(vs.drop_first());
        assert(forall|i: int| 1 <= i < vs.len() ==> #[trigger] vs[i]
            == vs.drop_first()[i - 1]);
    }
}

/// Whether a value is a valid timestamp.
pub fn check_ts(v: &MsgValue) -> (r: bool)
    ensures
        r == (ts_of(v@) is Some),
{
    match v {
        MsgValue::Int(_) => true,
        MsgValue::UInt(n) => *n <= 0x7fff_ffff_ffff_ffff,
        MsgValue::Ext(code, d) => *code == 0 && d.len() == 8,
        _ => false,
    }
}

/// Read a valid timestamp out of a value.
pub fn to_ts(v: &MsgValue) -> (r: FluentTimestamp)
    requires
        ts_of(v@) is Some,
    ensures
        r@ == ts_of(v@).unwrap(),
{
    match v {
        MsgValue::Int(n) => FluentTimestamp::Unix(*n),
        MsgValue::UInt(n) => FluentTimestamp::Unix(*n as i64),
        MsgValue::Ext(_, d) => {
            proof {
                crate::msgpack::lemma_be_bound(d@, 0, 4);
                crate::msgpack::lemma_be_bound(d@, 4, 4);
                vstd::arithmetic::power2::lemma2_to64();
            }
            let secs = crate::msgpack::be_read(d, 0, 4) as u32;
            let nanos = crate::msgpack::be_read(d, 4, 4) as u32;
            FluentTimestamp::EventTime(secs, nanos)
        },
        _ => {
            proof { assert(false); }
            FluentTimestamp::Unix(0)
        },
    }
}

/// Whether a value is a string.
fn is_str_val(v: &MsgValue) -> (r: bool)
    ensures
        r == (v@ is Str),
{
    match v {
        MsgValue::Str(_) => true,
        _ => false,
    }
}

/// Whether every key of the wire pairs is a string.
fn all_str_keys(ps: &Vec<(MsgValue, MsgValue)>) -> (r: bool)
    ensures
        r == (str_pairs_of(view_pairs(ps@)) is Some),
{
    proof {
        lemma_view_pairs(ps@);
    }
    let mut i: usize = 0;
    while i < ps.len()
        invariant
            0 <= i <= ps@.len(),
            forall|j: int| 0 <= j < i ==> (#[trigger] view_pairs(ps@)[j]).0 is Str,
            view_pairs(ps@).len() == ps@.len(),
            forall|j: int| 0 <= j < ps@.len() ==> #[trigger] view_pairs(ps@)[j]
                == (ps@[j].0@, ps@[j].1@),
        decreases ps@.len() - i,
    {
        if !is_str_val(&ps[i].0) {
            proof {
                assert(view_pairs(ps@)[i as int] == (ps@[i as int].0@, ps@[i as int].1@));
                assert(!(view_pairs(ps@)[i as int].0 is Str));
                lemma_str_pairs(view_pairs(ps@));
            }
            return false;
        }
        i = i + 1;
    }
    proof {
        lemma_str_pairs(view_pairs(ps@));
    }
    true
}

/// Whether a value is a valid record.
pub fn check_record(v: &MsgValue) -> (r: bool)
    ensures
        r == (record_of(v@) is Some),
{
    match v {
        MsgValue::Dict(ps) => all_str_keys(ps),
        _ => false,
    }
}

/// Insert a pair into a record under the normalization rule.
fn upsert_exec(out: &mut Vec<(Vec<u8>, MsgValue)>, k: Vec<u8>, val: MsgValue)
    ensures
        record_view(final(out)@) == upsert(record_view(old(out)@), k@, val@),
{
    proof {
        lemma_record_view(out@);
    }
    let mut i: usize = 0;
    while i < out.len()
        invariant
            0 <= i <= out@.len(),
            out@ == old(out)@,
            record_view(out@).len() == out@.len(),
            forall|j: int| 0 <= j < out@.len() ==> #[trigger] record_view(out@)[j]
                == (out@[j].0@, out@[j].1@),
            forall|j: int| 0 <= j < i ==> (#[trigger] record_view(out@)[j]).0 != k@,
        decreases out@.len() - i,
    {
        if eq_bytes(&out[i].0, &k) {
            proof {
                assert(record_view(out@)[i as int] == (out@[i as int].0@, out@[i as int].1@));
                assert(record_view(out@)[i as int].0 == k@);
                lemma_find_key(record_view(out@), k@);
                assert(find_key(record_view(out@), k@) == i);
            }
            let ghost before = out@;
            out.set(i, (k, val));
            proof {
                lemma_record_view(out@);
                lemma_record_view(before);
                assert(out@ =~= before.update(i as int, (out@[i as int].0, out@[i as int].1)));
                assert forall|j: int| 0 <= j < out@.len()
                    implies record_view(out@)[j]
                        == record_view(before).update(i as int, (k@, val@))[j] by {
                    assert(record_view(out@)[j] == (out@[j].0@, out@[j].1@));
                    if j != i {
                        assert(out@[j] == before[j]);
                        assert(record_view(before)[j] == (before[j].0@, before[j].1@));
                    }
                }
                assert(record_view(out@)
                    =~= record_view(before).update(i as int, (k@, val@)));
            }
            return;
        }
        i = i + 1;
    }
    proof {
        lemma_find_key(record_view(out@), k@);
        assert(find_key(record_view(out@), k@) < 0);
    }
    let ghost before = out@;
    out.push((k, val));
    proof {
        lemma_record_view(out@);
        lemma_record_view(before);
        assert forall|j: int| 0 <= j < out@.len()
            implies record_view(out@)[j] == record_view(before).push((k@, val@))[j] by {
            assert(record_view(out@)[j] == (out@[j].0@, out@[j].1@));
            if j < before.len() {
                assert(out@[j] == before[j]);
                assert(record_view(before)[j] == (before[j].0@, before[j].1@));
            }
        }
        assert(record_view(out@) =~= record_view(before).push((k@, val@)));
    }
}

/// Build a record out of a valid map value.
pub fn to_record(v: MsgValue) -> (r: FluentRecord)
    requires
        record_of(v@) is Some,
    ensures
        record_view(r@) == record_of(v@).unwrap(),
{
    match v {
        MsgValue::Dict(mut ps) => {
            let ghost orig = view_pairs(ps@);
            let ghost sp = str_pairs_of(orig).unwrap();
            proof {
                lemma_view_pairs(ps@);
                lemma_str_pairs(orig);
            }
            let mut out: FluentRecord = Vec::new();
            let ghost mut done: int = 0;
            while ps.len() > 0
                invariant
                    0 <= done <= orig.len(),
                    str_pairs_of(orig) == Option::Some(sp),
                    sp.len() == orig.len(),
                    forall|j: int| 0 <= j < orig.len() ==> #[trigger] sp[j]
                        == (orig[j].0->Str_0, orig[j].1),
                    forall|j: int| 0 <= j < orig.len() ==> (#[trigger] orig[j]).0 is Str,
                    ps@.len() == orig.len() - done,
                    forall|j: int| 0 <= j < ps@.len() ==> (#[trigger] view_pairs(ps@)[j])
                        == orig[done + j],
                    view_pairs(ps@).len() == ps@.len(),
                    record_view(out@) == norm_pairs(sp.take(done)),
                decreases ps@.len(),
            {
                let ghost before_ps = ps@;
                proof {
                    lemma_view_pairs(before_ps);
                    assert(view_pairs(before_ps)[0] == (before_ps[0].0@, before_ps[0].1@));
                }
                let (kv, val) = ps.remove(0);
                proof {
                    lemma_view_pairs(ps@);
                    assert forall|j: int| 0 <= j < ps@.len()
                        implies (#[trigger] view_pairs(ps@)[j]) == orig[done + 1 + j] by {
                        assert(ps@[j] == before_ps[j + 1]);
                        assert(view_pairs(before_ps)[j + 1]
                            == (before_ps[j + 1].0@, before_ps[j + 1].1@));
                    }
                    assert((kv@, val@) == orig[done]);
                    assert(orig[done].0 is Str);
                }
                let kb = match kv {
                    MsgValue::Str(b) => b,
                    _ => {
                        proof { assert(false); }
                        Vec::new()
                    },
                };
                upsert_exec(&mut out, kb, val);
                proof {
                    assert(sp.take(done + 1).drop_last() =~= sp.take(done));
                    assert(sp.take(done + 1).last() == sp[done]);
                    assert(sp[done] == (orig[done].0->Str_0, orig[done].1));
                    assert(orig[done].0->Str_0 == kb@);
                    assert(orig[done].1 == val@);
                    assert(norm_pairs(sp.take(done + 1)) == upsert(norm_pairs(sp.take(done)),
                        kb@, val@));
                    done = done + 1;
                }
            }
            proof {
                assert(sp.take(done) =~= sp);
            }
            out
        },
        _ => {
            proof { assert(false); }
            Vec::new()
        },
    }
}

/// `rfind` finds the last occurrence, and only of present keys.
pub proof fn lemma_rfind<V>(sp: Seq<(Seq<u8>, V)>, k: Seq<u8>)
    ensures
        rfind(sp, k) < 0 ==> forall|i: int| 0 <= i < sp.len() ==> (#[trigger] sp[i]).0 != k,
        rfind(sp, k) >= 0 ==> {
            &&& rfind(sp, k) < sp.len()
            &&& sp[rfind(sp, k)].0 == k
            &&& forall|i: int| rfind(sp, k) < i < sp.len() ==> (#[trigger] sp[i]).0 != k
        },
    decreases sp,
{
    if sp.len() > 0 && sp.last().0 != k {
        lemma_rfind(sp.drop_last(), k);
        assert(forall|i: int| 0 <= i < sp.len() - 1 ==> sp.drop_last()[i] == #[trigger] sp[i]);
    }
}

/// The bytes of the `size` option key, as a vector.
fn key_size_vec() -> (r: Vec<u8>)
    ensures
        r@ == key_size(),
{
    let mut v: Vec<u8> = Vec::new();
    v.push(0x73);
    v.push(0x69);
    v.push(0x7a);
    v.push(0x65);
    proof { assert(v@ =~= key_size()); }
    v
}

/// The bytes of the `chunk` option key, as a vector.
fn key_chunk_vec() -> (r: Vec<u8>)
    ensures
        r@ == key_chunk(),
{
    let mut v: Vec<u8> = Vec::new();
    v.push(0x63);
    v.push(0x68);
    v.push(0x75);
    v.push(0x6e);
    v.push(0x6b);
    proof { assert(v@ =~= key_chunk()); }
    v
}

/// The bytes of the `compressed` option key, as a vector.
fn key_compressed_vec() -> (r: Vec<u8>)
    ensures
        r@ == key_compressed(),
{
    let mut v: Vec<u8> = Vec::new();
    v.push(0x63);
    v.push(0x6f);
    v.push(0x6d);
    v.push(0x70);
    v.push(0x72);
    v.push(0x65);
    v.push(0x73);
    v.push(0x73);
    v.push(0x65);
    v.push(0x64);
    proof { assert(v@ =~= key_compressed()); }
    v
}

/// The bytes of the `gzip` compression name, as a vector.
pub fn name_gzip_vec() -> (r: Vec<u8>)
    ensures
        r@ == name_gzip(),
{
    let mut v: Vec<u8> = Vec::new();
    v.push(0x67);
    v.push(0x7a);
    v.push(0x69);
    v.push(0x70);
    proof { assert(v@ =~= name_gzip()); }
    v
}

/// The bytes of the `text` compression name, as a vector.
pub fn name_text_vec() -> (r: Vec<u8>)
    ensures
        r@ == name_text(),
{
    let mut v: Vec<u8> = Vec::new();
    v.push(0x74);
    v.push(0x65);
    v.push(0x78);
    v.push(0x74);
    proof { assert(v@ =~= name_text()); }
    v
}

/// Whether a pair's string key equals `key`.
fn str_key_eq(p: &(MsgValue, MsgValue), key: &Vec<u8>) -> (r: bool)
    requires
        p.0@ is Str,
    ensures
        r == (p.0@->Str_0 == key@),
{
    match &p.0 {
        MsgValue::Str(b) => eq_bytes(b, key),
        _ => {
            proof { assert(false); }
            false
        },
    }
}

/// Whether a value fits the `size` option: an unsigned 64-bit integer.
fn val_size_ok(v: &MsgValue) -> (r: bool)
    ensures
        r == (match v@ {
            SpecValue::Int(n) => 0 <= n < 0x1_0000_0000_0000_0000,
            _ => false,
        }),
{
    match v {
        MsgValue::Int(n) => *n >= 0,
        MsgValue::UInt(_) => true,
        _ => false,
    }
}

/// Find the last wire pair holding string key `key`.
fn rfind_exec(ps: &Vec<(MsgValue, MsgValue)>, key: &Vec<u8>) -> (r: Option<usize>)
    requires
        str_pairs_of(view_pairs(ps@)) is Some,
    ensures
        ({
            let sp = str_pairs_of(view_pairs(ps@)).unwrap();
            match r {
                Option::Some(i) => i < ps@.len() && rfind(sp, key@) == i,
                Option::None => rfind(sp, key@) < 0,
            }
        }),
{
    let ghost sp = str_pairs_of(view_pairs(ps@)).unwrap();
    proof {
        lemma_view_pairs(ps@);
        lemma_str_pairs(view_pairs(ps@));
    }
    let mut i: usize = ps.len();
    while i > 0
        invariant
            0 <= i <= ps@.len(),
            str_pairs_of(view_pairs(ps@)) == Option::Some(sp),
            sp.len() == ps@.len(),
            forall|j: int| 0 <= j < ps@.len() ==> #[trigger] sp[j]
                == (view_pairs(ps@)[j].0->Str_0, view_pairs(ps@)[j].1),
            forall|j: int| 0 <= j < ps@.len() ==> (#[trigger] view_pairs(ps@)[j]).0 is Str,
            view_pairs(ps@).len() == ps@.len(),
            forall|j: int| 0 <= j < ps@.len() ==> #[trigger] view_pairs(ps@)[j]
                == (ps@[j].0@, ps@[j].1@),
            forall|j: int| i <= j < ps@.len() ==> (#[trigger] sp[j]).0 != key@,
        decreases i,
    {
        i = i - 1;
        proof {
            assert(view_pairs(ps@)[i as int] == (ps@[i as int].0@, ps@[i as int].1@));
            assert(sp[i as int] == (view_pairs(ps@)[i as int].0->Str_0,
                view_pairs(ps@)[i as int].1));
        }
        let hit = str_key_eq(&ps[i], key);
        if hit {
            proof {
                lemma_rfind(sp, key@);
                assert(sp[i as int].0 == key@);
                assert(rfind(sp, key@) == i);
            }
            return Option::Some(i);
        }
    }
    proof {
        lemma_rfind(sp, key@);
    }
    Option::None
}

/// Whether a value is a valid options map.
pub fn check_opts(v: &MsgValue) -> (r: bool)
    ensures
        r == (opts_of(v@) is Some),
{
    match v {
        MsgValue::Dict(ps) => {
            if !all_str_keys(ps) {
                return false;
            }
            let ghost sp = str_pairs_of(view_pairs(ps@)).unwrap();
            proof {
                lemma_view_pairs(ps@);
                lemma_str_pairs(view_pairs(ps@));
                lemma_norm_lookup(sp, key_size());
                lemma_norm_lookup(sp, key_chunk());
                lemma_norm_lookup(sp, key_compressed());
            }
            let size_ok = match rfind_exec(ps, &key_size_vec()) {
                Option::None => true,
                Option::Some(i) => {
                    proof {
                        assert(view_pairs(ps@)[i as int]
                            == (ps@[i as int].0@, ps@[i as int].1@));
                        assert(sp[i as int] == (view_pairs(ps@)[i as int].0->Str_0,
                            view_pairs(ps@)[i as int].1));
                    }
                    val_size_ok(&ps[i].1)
                },
            };
            let chunk_ok = match rfind_exec(ps, &key_chunk_vec()) {
                Option::None => true,
                Option::Some(i) => {
                    proof {
                        assert(view_pairs(ps@)[i as int]
                            == (ps@[i as int].0@, ps@[i as int].1@));
                        assert(sp[i as int] == (view_pairs(ps@)[i as int].0->Str_0,
                            view_pairs(ps@)[i as int].1));
                    }
                    is_str_val(&ps[i].1)
                },
            };
            let comp_ok = match rfind_exec(ps, &key_compressed_vec()) {
                Option::None => false,
                Option::Some(i) => {
                    proof {
                        assert(view_pairs(ps@)[i as int]
                            == (ps@[i as int].0@, ps@[i as int].1@));
                        assert(sp[i as int] == (view_pairs(ps@)[i as int].0->Str_0,
                            view_pairs(ps@)[i as int].1));
                    }
                    is_str_val(&ps[i].1)
                },
            };
            size_ok && chunk_ok && comp_ok
        },
        _ => false,
    }
}

/// Copy a string value's bytes.
fn str_val_bytes(v: &MsgValue) -> (r: Vec<u8>)
    requires
        v@ is Str,
    ensures
        r@ == v@->Str_0,
{
    match v {
        MsgValue::Str(b) => crate::msgpack::take_range(b, 0, b.len()),
        _ => {
            proof { assert(false); }
            Vec::new()
        },
    }
}

/// Read the `compressed` string out of a valid options map.
pub fn to_opts(v: &MsgValue) -> (r: Vec<u8>)
    requires
        opts_of(v@) is Some,
    ensures
        r@ == opts_of(v@).unwrap(),
{
    match v {
        MsgValue::Dict(ps) => {
            let ghost sp = str_pairs_of(view_pairs(ps@)).unwrap();
            proof {
                lemma_view_pairs(ps@);
                lemma_str_pairs(view_pairs(ps@));
                lemma_norm_lookup(sp, key_compressed());
            }
            match rfind_exec(ps, &key_compressed_vec()) {
                Option::Some(i) => {
                    proof {
                        assert(view_pairs(ps@)[i as int]
                            == (ps@[i as int].0@, ps@[i as int].1@));
                        assert(sp[i as int] == (view_pairs(ps@)[i as int].0->Str_0,
                            view_pairs(ps@)[i as int].1));
                        assert(ps@[i as int].1@ is Str);
                    }
                    str_val_bytes(&ps[i].1)
                },
                Option::None => {
                    proof { assert(false); }
                    Vec::new()
                },
            }
        },
        _ => {
            proof { assert(false); }
            Vec::new()
        },
    }
}

/// The models of a sequence of decoded entries.
pub open spec fn entries_view(es: Seq<(FluentTimestamp, Vec<(Vec<u8>, MsgValue)>)>)
    -> Seq<(STimestamp, SRecord)>
    decreases es,
{
    if es.len() == 0 {
        Seq::empty()
    } else {
        seq![(es[0].0@, record_view(es[0].1@))] + entries_view(es.drop_first())
    }
}

/// `entries_view` is the element-wise model.
pub proof fn lemma_entries_view(es: Seq<(FluentTimestamp, Vec<(Vec<u8>, MsgValue)>)>)
    ensures
        entries_view(es).len() == es.len(),
        forall|i: int| 0 <= i < es.len() ==> entries_view(es)[i]
            == ((#[trigger] es[i]).0@, record_view(es[i].1@)),
    decreases es,
{
    if es.len() > 0 {
        lemma_entries_view(es.drop_first());
        assert forall|i: int| 0 <= i < es.len() implies entries_view(es)[i]
            == ((#[trigger] es[i]).0@, record_view(es[i].1@)) by {
            if i > 0 {
                assert(es.drop_first()[i - 1] == es[i]);
            }
        }
    }
}

/// Whether a value is a valid entry.
pub fn check_entry(v: &MsgValue) -> (r: bool)
    ensures
        r == (entry_of(v@) is Some),
{
    match v {
        MsgValue::Arr(es) => {
            proof { lemma_view_seq(es@); }
            if es.len() == 2 {
                proof {
                    assert(view_seq(es@)[0] == es@[0]@);
                    assert(view_seq(es@)[1] == es@[1]@);
                }
                check_ts(&es[0]) && check_record(&es[1])
            } else {
                false
            }
        },
        _ => false,
    }
}

/// Read a valid entry out of a value.
pub fn to_entry(v: MsgValue) -> (r: (FluentTimestamp, FluentRecord))
    requires
        entry_of(v@) is Some,
    ensures
        (r.0@, record_view(r.1@)) == entry_of(v@).unwrap(),
{
    match v {
        MsgValue::Arr(mut es) => {
            proof {
                lemma_view_seq(es@);
                assert(view_seq(es@)[0] == es@[0]@);
                assert(view_seq(es@)[1] == es@[1]@);
            }
            let ts = to_ts(&es[0]);
            let rec_v = match es.pop() {
                Option::Some(x) => x,
                Option::None => {
                    proof { assert(false); }
                    MsgValue::Nil
                },
            };
            (ts, to_record(rec_v))
        },
        _ => {
            proof { assert(false); }
            (FluentTimestamp::Unix(0), Vec::new())
        },
    }
}

/// Whether every element of an array is a valid entry.
pub fn check_entries(es: &Vec<MsgValue>) -> (r: bool)
    ensures
        r == (entries_of(view_seq(es@)) is Some),
{
    proof {
        lemma_view_seq(es@);
    }
    let mut i: usize = 0;
    while i < es.len()
        invariant
            0 <= i <= es@.len(),
            forall|j: int| 0 <= j < i ==> entry_of(#[trigger] view_seq(es@)[j]) is Some,
            view_seq(es@).len() == es@.len(),
            forall|j: int| 0 <= j < es@.len() ==> #[trigger] view_seq(es@)[j] == es@[j]@,
        decreases es@.len() - i,
    {
        if !check_entry(&es[i]) {
            proof {
                assert(view_seq(es@)[i as int] == es@[i as int]@);
                lemma_entries_of(view_seq(es@));
            }
            return false;
        }
        i = i + 1;
    }
    proof {
        lemma_entries_of(view_seq(es@));
    }
    true
}

/// Read the entries out of a valid entry array.
pub fn to_entries(es: Vec<MsgValue>) -> (r: Vec<(FluentTimestamp, FluentRecord)>)
    requires
        entries_of(view_seq(es@)) is Some,
    ensures
        entries_view(r@) == entries_of(view_seq(es@)).unwrap(),
{
    let ghost orig = view_seq(es@);
    let ghost target = entries_of(orig).unwrap();
    proof {
        lemma_view_seq(es@);
        lemma_entries_of(orig);
    }
    let mut es = es;
    let mut out: Vec<(FluentTimestamp, FluentRecord)> = Vec::new();
    let ghost mut done: int = 0;
    while es.len() > 0
        invariant
            0 <= done <= orig.len(),
            entries_of(orig) == Option::Some(target),
            target.len() == orig.len(),
            forall|j: int| 0 <= j < orig.len() ==> #[trigger] target[j]
                == entry_of(orig[j]).unwrap(),
            forall|j: int| 0 <= j < orig.len() ==> entry_of(#[trigger] orig[j]) is Some,
            es@.len() == orig.len() - done,
            forall|j: int| 0 <= j < es@.len() ==> #[trigger] view_seq(es@)[j]
                == orig[done + j],
            view_seq(es@).len() == es@.len(),
            out@.len() == done,
            entries_view(out@) == target.take(done),
        decreases es@.len(),
    {
        let ghost before_es = es@;
        proof {
            lemma_view_seq(before_es);
            assert(view_seq(before_es)[0] == before_es[0]@);
        }
        let head = es.remove(0);
        proof {
            lemma_view_seq(es@);
            assert forall|j: int| 0 <= j < es@.len()
                implies (#[trigger] view_seq(es@)[j]) == orig[done + 1 + j] by {
                assert(es@[j] == before_es[j + 1]);
                assert(view_seq(before_es)[j + 1] == before_es[j + 1]@);
            }
            assert(head@ == orig[done]);
        }
        let e = to_entry(head);
        let ghost before_out = out@;
        out.push(e);
        proof {
            lemma_entries_view(out@);
            lemma_entries_view(before_out);
            assert forall|j: int| 0 <= j < out@.len()
                implies entries_view(out@)[j] == target.take(done + 1)[j] by {
                if j < done {
                    assert(out@[j] == before_out[j]);
                    assert(entries_view(before_out)[j] == (before_out[j].0@,
                        record_view(before_out[j].1@)));
                }
                assert(entries_view(out@)[j] == (out@[j].0@, record_view(out@[j].1@)));
            }
            assert(entries_view(out@) =~= target.take(done + 1));
            done = done + 1;
        }
    }
    proof {
        assert(target.take(done) =~= target);
    }
    out
}

/// A classified Forward message, the executable counterpart of [`SMessage`].
#[derive(Debug)]
pub enum FluentMessage {
    Message(Vec<u8>, FluentTimestamp, FluentRecord),
    Forward(Vec<u8>, Vec<(FluentTimestamp, FluentRecord)>),
    Packed(Vec<u8>, Vec<u8>, Option<Vec<u8>>),
    Heartbeat,
    Unexpected(MsgValue),
}

/// The model of a classified message.
pub open spec fn message_view(m: FluentMessage) -> SMessage {
    match m {
        FluentMessage::Message(tag, ts, rec) => SMessage::Message(tag@, ts@,
            record_view(rec@)),
        FluentMessage::Forward(tag, en) => SMessage::Forward(tag@, entries_view(en@)),
        FluentMessage::Packed(tag, p, c) => SMessage::Packed(tag@, p@, match c {
            Option::Some(cb) => Option::Some(cb@),
            Option::None => Option::None,
        }),
        FluentMessage::Heartbeat => SMessage::Heartbeat,
        FluentMessage::Unexpected(v) => SMessage::Unexpected(v@),
    }
}

/// Read a valid string value's bytes, consuming it.
fn into_str_bytes(v: MsgValue) -> (r: Vec<u8>)
    requires
        v@ is Str,
    ensures
        r@ == v@->Str_0,
{
    match v {
        MsgValue::Str(b) => b,
        _ => {
            proof { assert(false); }
            Vec::new()
        },
    }
}

/// Read a packed payload's bytes, consuming the value.
fn into_payload(v: MsgValue) -> (r: Vec<u8>)
    requires
        payload_of(v@) is Some,
    ensures
        r@ == payload_of(v@).unwrap(),
{
    match v {
        MsgValue::Bin(b) => b,
        MsgValue::Str(b) => b,
        _ => {
            proof { assert(false); }
            Vec::new()
        },
    }
}

/// Whether a value is a packed payload (raw bytes or a string).
fn check_payload(v: &MsgValue) -> (r: bool)
    ensures
        r == (payload_of(v@) is Some),
{
    match v {
        MsgValue::Bin(_) => true,
        MsgValue::Str(_) => true,
        _ => false,
    }
}

/// Classify one decoded MessagePack value as a Forward message.
///
/// Mirrors [`classify`]: arrays are dispatched on arity and element
/// types, `nil` is a heartbeat, and everything else is handed back as an
/// unexpected value.
pub fn classify_value(v: MsgValue) -> (r: FluentMessage)
    ensures
        message_view(r) == classify(v@),
{
    match v {
        MsgValue::Nil => FluentMessage::Heartbeat,
        MsgValue::Arr(mut es) => {
            proof {
                lemma_view_seq(es@);
                assert(forall|j: int| 0 <= j < es@.len()
                    ==> #[trigger] view_seq(es@)[j] == es@[j]@);
            }
            let n = es.len();
            if n == 2 {
                if !is_str_val(&es[0]) {
                    return FluentMessage::Unexpected(MsgValue::Arr(es));
                }
                // 0: not usable, 1: forward entries, 2: packed payload
                let kind: u8 = match &es[1] {
                    MsgValue::Arr(ev) => if check_entries(ev) { 1 } else { 0 },
                    MsgValue::Bin(_) => 2,
                    MsgValue::Str(_) => 2,
                    _ => 0,
                };
                if kind == 1 {
                    let second = match es.pop() {
                        Option::Some(x) => x,
                        Option::None => { proof { assert(false); } MsgValue::Nil },
                    };
                    let first = match es.pop() {
                        Option::Some(x) => x,
                        Option::None => { proof { assert(false); } MsgValue::Nil },
                    };
                    let tag = into_str_bytes(first);
                    let ev = match second {
                        MsgValue::Arr(x) => x,
                        _ => { proof { assert(false); } Vec::new() },
                    };
                    FluentMessage::Forward(tag, to_entries(ev))
                } else if kind == 2 {
                    let second = match es.pop() {
                        Option::Some(x) => x,
                        Option::None => { proof { assert(false); } MsgValue::Nil },
                    };
                    let first = match es.pop() {
                        Option::Some(x) => x,
                        Option::None => { proof { assert(false); } MsgValue::Nil },
                    };
                    let tag = into_str_bytes(first);
                    FluentMessage::Packed(tag, into_payload(second), Option::None)
                } else {
                    FluentMessage::Unexpected(MsgValue::Arr(es))
                }
            } else if n == 3 {
                if !is_str_val(&es[0]) {
                    return FluentMessage::Unexpected(MsgValue::Arr(es));
                }
                let msg_ok = check_ts(&es[1]) && check_record(&es[2]);
                if msg_ok {
                    let third = match es.pop() {
                        Option::Some(x) => x,
                        Option::None => { proof { assert(false); } MsgValue::Nil },
                    };
                    let second = match es.pop() {
                        Option::Some(x) => x,
                        Option::None => { proof { assert(false); } MsgValue::Nil },
                    };
                    let first = match es.pop() {
                        Option::Some(x) => x,
                        Option::None => { proof { assert(false); } MsgValue::Nil },
                    };
                    let tag = into_str_bytes(first);
                    let ts = to_ts(&second);
                    return FluentMessage::Message(tag, ts, to_record(third));
                }
                let opts_ok = check_opts(&es[2]);
                let fwd_ok = opts_ok && match &es[1] {
                    MsgValue::Arr(ev) => check_entries(ev),
                    _ => false,
                };
                if fwd_ok {
                    let _third = es.pop();
                    let second = match es.pop() {
                        Option::Some(x) => x,
                        Option::None => { proof { assert(false); } MsgValue::Nil },
                    };
                    let first = match es.pop() {
                        Option::Some(x) => x,
                        Option::None => { proof { assert(false); } MsgValue::Nil },
                    };
                    let tag = into_str_bytes(first);
                    let ev = match second {
                        MsgValue::Arr(x) => x,
                        _ => { proof { assert(false); } Vec::new() },
                    };
                    return FluentMessage::Forward(tag, to_entries(ev));
                }
                let packed_ok = opts_ok && check_payload(&es[1]);
                if packed_ok {
                    let comp = to_opts(&es[2]);
                    let _third = es.pop();
                    let second = match es.pop() {
                        Option::Some(x) => x,
                        Option::None => { proof { assert(false); } MsgValue::Nil },
                    };
                    let first = match es.pop() {
                        Option::Some(x) => x,
                        Option::None => { proof { assert(false); } MsgValue::Nil },
                    };
                    let tag = into_str_bytes(first);
                    return FluentMessage::Packed(tag, into_payload(second),
                        Option::Some(comp));
                }
                FluentMessage::Unexpected(MsgValue::Arr(es))
            } else if n == 4 {
                if !is_str_val(&es[0]) {
                    return FluentMessage::Unexpected(MsgValue::Arr(es));
                }
                let msg_ok = check_ts(&es[1]) && check_record(&es[2]) && check_opts(&es[3]);
                if msg_ok {
                    let _fourth = es.pop();
                    let third = match es.pop() {
                        Option::Some(x) => x,
                        Option::None => { proof { assert(false); } MsgValue::Nil },
                    };
                    let second = match es.pop() {
                        Option::Some(x) => x,
                        Option::None => { proof { assert(false); } MsgValue::Nil },
                    };
                    let first = match es.pop() {
                        Option::Some(x) => x,
                        Option::None => { proof { assert(false); } MsgValue::Nil },
                    };
                    let tag = into_str_bytes(first);
                    let ts = to_ts(&second);
                    return FluentMessage::Message(tag, ts, to_record(third));
                }
                FluentMessage::Unexpected(MsgValue::Arr(es))
            } else {
                FluentMessage::Unexpected(MsgValue::Arr(es))
            }
        },
        other => FluentMessage::Unexpected(other),
    }
}

/// What decompressing a byte buffer as a (possibly multi-member) gzip
/// stream yields: the decompressed bytes, or `None` when the buffer is
/// not a well-formed gzip stream.
pub uninterp spec fn gunzip(s: Seq<u8>) -> Option<Seq<u8>>;

/// Relies on `flate2::read::MultiGzDecoder` with `Read::read_to_end`:
/// decompression of an in-memory buffer is a function of the bytes
/// alone; all members of a multi-member stream are concatenated; corrupt
/// input surfaces as an I/O error.
#[verifier::external_body]
fn gunzip_exec(data: &Vec<u8>) -> (r: Result<Vec<u8>, ()>)
    ensures
        match r {
            Ok(out) => gunzip(data@) == Option::Some(out@),
            Err(()) => gunzip(data@) is None,
        },
{
    let mut out = Vec::new();
    match std::io::Read::read_to_end(
        &mut flate2::read::MultiGzDecoder::new(std::io::Cursor::new(data)),
        &mut out,
    ) {
        Ok(_) => Ok(out),
        Err(_) => Err(()),
    }
}

/// Decode a packed payload's entry stream from position `i` on.
///
/// Entries are decoded until the buffer is exhausted; a trailing partial
/// entry is discarded (the boolean stays true); a malformed or
/// non-entry value fails the stream, keeping the entries before it.
pub open spec fn sentries_stream(p: Seq<u8>, i: int) -> (Seq<(STimestamp, SRecord)>, bool)
    decreases p.len() - i,
        when 0 <= i <= p.len()
{
    if i >= p.len() {
        (Seq::empty(), true)
    } else {
        match sval(p, i) {
            SOut::More => (Seq::empty(), true),
            SOut::Bad(_) => (Seq::empty(), false),
            SOut::Done(v, j) => match entry_of(v) {
                Option::Some(e) => if i < j <= p.len() {
                    let rest = sentries_stream(p, j);
                    (seq![e] + rest.0, rest.1)
                } else {
                    // a decoded value always advances; see `lemma_sval_advances`
                    (Seq::empty(), false)
                },
                Option::None => (Seq::empty(), false),
            },
        }
    }
}

/// The frames a tag and a run of entries expand to, in order.
pub open spec fn frames_from(tag: Seq<u8>, en: Seq<(STimestamp, SRecord)>) -> Seq<SpecFrame> {
    en.map_values(|e: (STimestamp, SRecord)| (SpecFrame {
        tag: tag,
        timestamp: e.0,
        record: e.1,
    }))
}

/// What handling one classified message does: the frames it appends to
/// the pending queue, and the error it reports, if any.
///
/// A gzip-compressed packed payload is decompressed first; failure to
/// decompress is an I/O error (fatal). An unknown compression name and
/// an unexpected value are reported without frames. A failing entry
/// stream keeps the entries decoded before the failure.
pub open spec fn handle_spec(m: SMessage) -> (Seq<SpecFrame>, Option<SDecodeError>) {
    match m {
        SMessage::Message(tag, ts, rec) => (seq![SpecFrame {
            tag: tag,
            timestamp: ts,
            record: rec,
        }], Option::None),
        SMessage::Forward(tag, en) => (frames_from(tag, en), Option::None),
        SMessage::Packed(tag, p, copt) => match copt {
            Option::None => packed_result(tag, p),
            Option::Some(c) => if c == name_text() {
                packed_result(tag, p)
            } else if c == name_gzip() {
                match gunzip(p) {
                    Option::Some(q) => packed_result(tag, q),
                    Option::None => (Seq::empty(), Option::Some(SDecodeError::Io)),
                }
            } else {
                (Seq::empty(), Option::Some(SDecodeError::UnknownCompression(c)))
            },
        },
        SMessage::Heartbeat => (Seq::empty(), Option::None),
        SMessage::Unexpected(v) => (Seq::empty(),
            Option::Some(SDecodeError::UnexpectedValue(v))),
    }
}

/// The frames and error of one packed payload.
pub open spec fn packed_result(tag: Seq<u8>, p: Seq<u8>) -> (Seq<SpecFrame>,
    Option<SDecodeError>) {
    let (en, ok) = sentries_stream(p, 0);
    (frames_from(tag, en), if ok {
        Option::None
    } else {
        Option::Some(SDecodeError::Decode)
    })
}

/// The models of a queue of frames.
pub open spec fn frames_view(fs: Seq<FluentFrame>) -> Seq<SpecFrame>
    decreases fs,
{
    if fs.len() == 0 {
        Seq::empty()
    } else {
        seq![fs[0]@] + frames_view(fs.drop_first())
    }
}

/// `frames_view` is the frame-wise model.
pub proof fn lemma_frames_view(fs: Seq<FluentFrame>)
    ensures
        frames_view(fs).len() == fs.len(),
        forall|i: int| 0 <= i < fs.len() ==> frames_view(fs)[i] == (#[trigger] fs[i])@,
    decreases fs,
{
    if fs.len() > 0 {
        lemma_frames_view(fs.drop_first());
        assert forall|i: int| 0 <= i < fs.len() implies frames_view(fs)[i]
            == (#[trigger] fs[i])@ by {
            if i > 0 {
                assert(fs.drop_first()[i - 1] == fs[i]);
            }
        }
    }
}

/// Copy a byte vector.
pub fn copy_bytes(b: &Vec<u8>) -> (r: Vec<u8>)
    ensures
        r@ == b@,
{
    let r = crate::msgpack::take_range(b, 0, b.len());
    proof { assert(b@.subrange(0, b@.len() as int) =~= b@); }
    r
}

/// The incremental frame decoder of one connection.
///
/// Holds the frames of the last decoded message that have not been
/// handed out yet; each decode call returns at most one frame.
#[derive(Debug)]
pub struct FluentDecoder {
    pub pending: Vec<FluentFrame>,
}

impl FluentDecoder {
    /// A fresh decoder with nothing pending.
    pub fn new() -> (r: FluentDecoder)
        ensures
            r.pending@.len() == 0,
    {
        FluentDecoder { pending: Vec::new() }
    }

    /// Append the frames of the entry stream of packed payload `p` to
    /// the pending queue, all tagged `tag`.
    fn push_entry_stream(&mut self, tag: &Vec<u8>, p: &Vec<u8>) -> (ok: bool)
        ensures
            ({
                let (en, sok) = sentries_stream(p@, 0);
                &&& frames_view(final(self).pending@) == frames_view(old(self).pending@)
                    + frames_from(tag@, en)
                &&& ok == sok
            }),
    {
        let ghost base = frames_view(self.pending@);
        let mut i: usize = 0;
        let ghost mut acc: Seq<(STimestamp, SRecord)> = Seq::empty();
        loop
            invariant
                0 <= i <= p@.len(),
                base == frames_view(old(self).pending@),
                sentries_stream(p@, 0).0 =~= acc + sentries_stream(p@, i as int).0,
                sentries_stream(p@, 0).1 == sentries_stream(p@, i as int).1,
                frames_view(self.pending@) =~= base + frames_from(tag@, acc),
            decreases p@.len() - i,
        {
            if i >= p.len() {
                proof {
                    assert(sentries_stream(p@, i as int).0 =~= Seq::empty());
                    assert(acc + sentries_stream(p@, i as int).0 =~= acc);
                }
                return true;
            }
            match dval(p, i) {
                Dec::More => {
                    proof {
                        assert(acc + sentries_stream(p@, i as int).0 =~= acc);
                    }
                    return true;
                },
                Dec::Bad(_) => {
                    proof {
                        assert(acc + sentries_stream(p@, i as int).0 =~= acc);
                    }
                    return false;
                },
                Dec::Done(v, j) => {
                    if !check_entry(&v) {
                        proof {
                            assert(acc + sentries_stream(p@, i as int).0 =~= acc);
                        }
                        return false;
                    }
                    let (ts, rec) = to_entry(v);
                    let ghost before = self.pending@;
                    let frame = FluentFrame {
                        tag: copy_bytes(tag),
                        timestamp: ts,
                        record: rec,
                    };
                    let ghost fv = frame@;
                    self.pending.push(frame);
                    proof {
                        let e = entry_of(v@).unwrap();
                        lemma_frames_view(self.pending@);
                        lemma_frames_view(before);
                        assert forall|x: int| 0 <= x < self.pending@.len()
                            implies frames_view(self.pending@)[x]
                                == (base + frames_from(tag@, acc.push(e)))[x] by {
                            if x < before.len() {
                                assert(self.pending@[x] == before[x]);
                            } else {
                                assert(self.pending@[x]@ == fv);
                            }
                        }
                        assert(frames_view(self.pending@)
                            =~= base + frames_from(tag@, acc.push(e)));
                        assert(sentries_stream(p@, i as int)
                            == (seq![e] + sentries_stream(p@, j as int).0,
                                sentries_stream(p@, j as int).1));
                        assert(acc + sentries_stream(p@, i as int).0
                            =~= acc.push(e) + sentries_stream(p@, j as int).0);
                        acc = acc.push(e);
                    }
                    i = j;
                },
            }
        }
    }

    /// Expand one classified message into pending frames.
    ///
    /// On success and on failure alike, exactly the frames given by
    /// [`handle_spec`] are appended — a failing packed entry stream
    /// keeps the entries decoded before the failure — and the reported
    /// error matches the model.
    pub fn handle_message(&mut self, m: FluentMessage) -> (r: Result<(), DecodeError>)
        ensures
            ({
                let (fs, err) = handle_spec(message_view(m));
                &&& frames_view(final(self).pending@) == frames_view(old(self).pending@) + fs
                &&& match r {
                    Ok(()) => err is None,
                    Err(e) => err == Option::Some(e@),
                }
            }),
    {
        let ghost base = frames_view(self.pending@);
        match m {
            FluentMessage::Message(tag, ts, rec) => {
                let frame = FluentFrame { tag: tag, timestamp: ts, record: rec };
                let ghost fv = frame@;
                let ghost before = self.pending@;
                self.pending.push(frame);
                proof {
                    lemma_frames_view(self.pending@);
                    lemma_frames_view(before);
                    assert forall|x: int| 0 <= x < self.pending@.len()
                        implies frames_view(self.pending@)[x] == (base + seq![fv])[x] by {
                        if x < before.len() {
                            assert(self.pending@[x] == before[x]);
                        } else {
                            assert(self.pending@[x]@ == fv);
                        }
                    }
                    assert(frames_view(self.pending@) =~= base + seq![fv]);
                }
                Ok(())
            },
            FluentMessage::Forward(tag, mut en) => {
                let ghost orig = entries_view(en@);
                proof { lemma_entries_view(en@); }
                let ghost mut done: int = 0;
                while en.len() > 0
                    invariant
                        0 <= done <= orig.len(),
                        en@.len() == orig.len() - done,
                        forall|j: int| 0 <= j < en@.len() ==> entries_view(en@)[j]
                            == orig[done + j],
                        entries_view(en@).len() == en@.len(),
                        frames_view(self.pending@) =~= base
                            + frames_from(tag@, orig.take(done)),
                    decreases en@.len(),
                {
                    let ghost before_en = en@;
                    proof {
                        lemma_entries_view(before_en);
                        assert(entries_view(before_en)[0]
                            == (before_en[0].0@, record_view(before_en[0].1@)));
                    }
                    let (ts, rec) = en.remove(0);
                    proof {
                        lemma_entries_view(en@);
                        assert forall|j: int| 0 <= j < en@.len()
                            implies entries_view(en@)[j] == orig[done + 1 + j] by {
                            assert(en@[j] == before_en[j + 1]);
                            assert(entries_view(before_en)[j + 1]
                                == (before_en[j + 1].0@, record_view(before_en[j + 1].1@)));
                        }
                        assert((ts@, record_view(rec@)) == orig[done]);
                    }
                    let frame = FluentFrame {
                        tag: copy_bytes(&tag),
                        timestamp: ts,
                        record: rec,
                    };
                    let ghost fv = frame@;
                    let ghost before = self.pending@;
                    self.pending.push(frame);
                    proof {
                        lemma_frames_view(self.pending@);
                        lemma_frames_view(before);
                        assert(orig.take(done + 1).drop_last() =~= orig.take(done));
                        assert(fv == (SpecFrame {
                            tag: tag@,
                            timestamp: orig[done].0,
                            record: orig[done].1,
                        }));
                        assert forall|x: int| 0 <= x < self.pending@.len()
                            implies frames_view(self.pending@)[x]
                                == (base + frames_from(tag@, orig.take(done + 1)))[x] by {
                            if x < before.len() {
                                assert(self.pending@[x] == before[x]);
                            } else {
                                assert(self.pending@[x]@ == fv);
                                assert(orig.take(done + 1)[x - base.len()] == orig[done]);
                            }
                        }
                        assert(frames_view(self.pending@)
                            =~= base + frames_from(tag@, orig.take(done + 1)));
                        done = done + 1;
                    }
                }
                proof {
                    assert(orig.take(done) =~= orig);
                }
                Ok(())
            },
            FluentMessage::Packed(tag, p, copt) => {
                match copt {
                    Option::None => {
                        let ok = self.push_entry_stream(&tag, &p);
                        if ok { Ok(()) } else { Err(DecodeError::Decode) }
                    },
                    Option::Some(c) => {
                        if eq_bytes(&c, &name_text_vec()) {
                            let ok = self.push_entry_stream(&tag, &p);
                            if ok { Ok(()) } else { Err(DecodeError::Decode) }
                        } else if eq_bytes(&c, &name_gzip_vec()) {
                            match gunzip_exec(&p) {
                                Ok(q) => {
                                    let ok = self.push_entry_stream(&tag, &q);
                                    if ok { Ok(()) } else { Err(DecodeError::Decode) }
                                },
                                Err(()) => {
                                    proof {
                                        assert(frames_view(self.pending@) =~= base
                                            + Seq::<SpecFrame>::empty());
                                    }
                                    Err(DecodeError::Io)
                                },
                            }
                        } else {
                            proof {
                                assert(frames_view(self.pending@) =~= base
                                    + Seq::<SpecFrame>::empty());
                            }
                            Err(DecodeError::UnknownCompression(c))
                        }
                    },
                }
            },
            FluentMessage::Heartbeat => {
                proof {
                    assert(frames_view(self.pending@) =~= base + Seq::<SpecFrame>::empty());
                }
                Ok(())
            },
            FluentMessage::Unexpected(v) => {
                proof {
                    assert(frames_view(self.pending@) =~= base + Seq::<SpecFrame>::empty());
                }
                Err(DecodeError::UnexpectedValue(v))
            },
        }
    }
}

/// Drop the first `n` bytes of a buffer.
fn drop_front(src: &mut Vec<u8>, n: usize)
    requires
        n <= old(src)@.len(),
    ensures
        final(src)@ == old(src)@.skip(n as int),
{
    let rest = crate::msgpack::take_range(src, n, src.len());
    proof {
        assert(src@.subrange(n as int, src@.len() as int) =~= src@.skip(n as int));
    }
    *src = rest;
}

/// The result of one decode step, at the model level.
pub enum SStep {
    Out(Option<SpecFrame>),
    Fail(SDecodeError),
}

/// One decode step over a pending queue and a buffer: the new queue, the
/// new buffer, and what the call returns.
///
/// A pending frame is handed out first, without touching the buffer. An
/// empty buffer, or one holding a valid proper prefix of a message,
/// yields nothing. A malformed message is skipped up to the position its
/// decoding reached. A decoded message is consumed exactly, expanded by
/// [`handle_spec`], and the first resulting frame — if any — handed out.
pub open spec fn decode_spec(pending: Seq<SpecFrame>, buf: Seq<u8>) -> (Seq<SpecFrame>,
    Seq<u8>, SStep) {
    if pending.len() > 0 {
        (pending.drop_first(), buf, SStep::Out(Option::Some(pending.first())))
    } else if buf.len() == 0 {
        (pending, buf, SStep::Out(Option::None))
    } else {
        match sval(buf, 0) {
            SOut::More => (pending, buf, SStep::Out(Option::None)),
            SOut::Bad(j) => (pending, buf.skip(j), SStep::Fail(SDecodeError::Decode)),
            SOut::Done(v, j) => {
                let (fs, err) = handle_spec(classify(v));
                let rest = buf.skip(j);
                match err {
                    Option::Some(e) => (fs, rest, SStep::Fail(e)),
                    Option::None => if fs.len() > 0 {
                        (fs.drop_first(), rest, SStep::Out(Option::Some(fs.first())))
                    } else {
                        (Seq::empty(), rest, SStep::Out(Option::None))
                    },
                }
            },
        }
    }
}

impl FluentDecoder {
    /// Decode one frame out of the buffer.
    ///
    /// Returns `Ok(Some(frame))` when a frame is available — buffered
    /// from an earlier message or freshly decoded — `Ok(None)` when the
    /// buffer holds a valid proper prefix (more bytes are needed), and
    /// an error as classified in [`handle_spec`]. Consumed bytes are
    /// removed from the front of the buffer; on `Ok(None)` the buffer is
    /// left untouched.
    pub fn decode(&mut self, src: &mut Vec<u8>) -> (r: Result<Option<FluentFrame>,
        DecodeError>)
        ensures
            ({
                let (np, nb, st) = decode_spec(frames_view(old(self).pending@), old(src)@);
                &&& frames_view(final(self).pending@) == np
                &&& final(src)@ == nb
                &&& match r {
                    Ok(Option::Some(f)) => st == SStep::Out(Option::Some(f@)),
                    Ok(Option::None) => st == SStep::Out(Option::<SpecFrame>::None),
                    Err(e) => st == SStep::Fail(e@),
                }
            }),
    {
        proof {
            lemma_frames_view(self.pending@);
        }
        if self.pending.len() > 0 {
            let ghost before = self.pending@;
            let f = self.pending.remove(0);
            proof {
                lemma_frames_view(self.pending@);
                assert forall|x: int| 0 <= x < self.pending@.len()
                    implies frames_view(self.pending@)[x]
                        == frames_view(before).drop_first()[x] by {
                    assert(self.pending@[x] == before[x + 1]);
                    assert(frames_view(before)[x + 1] == before[x + 1]@);
                }
                assert(frames_view(self.pending@) =~= frames_view(before).drop_first());
            }
            return Ok(Option::Some(f));
        }
        if src.len() == 0 {
            return Ok(Option::None);
        }
        proof {
            crate::msgpack::lemma_sval_advances(src@, 0);
        }
        match dval(src, 0) {
            Dec::More => Ok(Option::None),
            Dec::Bad(j) => {
                drop_front(src, j);
                Err(DecodeError::Decode)
            },
            Dec::Done(v, j) => {
                drop_front(src, j);
                let m = classify_value(v);
                let ghost mv = message_view(m);
                match self.handle_message(m) {
                    Ok(()) => {
                        proof {
                            lemma_frames_view(self.pending@);
                        }
                        if self.pending.len() > 0 {
                            let ghost before = self.pending@;
                            let f = self.pending.remove(0);
                            proof {
                                lemma_frames_view(self.pending@);
                                assert forall|x: int| 0 <= x < self.pending@.len()
                                    implies frames_view(self.pending@)[x]
                                        == frames_view(before).drop_first()[x] by {
                                    assert(self.pending@[x] == before[x + 1]);
                                    assert(frames_view(before)[x + 1] == before[x + 1]@);
                                }
                                assert(frames_view(self.pending@)
                                    =~= frames_view(before).drop_first());
                            }
                            Ok(Option::Some(f))
                        } else {
                            proof {
                                assert(frames_view(self.pending@)
                                    =~= Seq::<SpecFrame>::empty());
                                assert(Seq::<SpecFrame>::empty()
                                    + handle_spec(mv).0 =~= handle_spec(mv).0);
                            }
                            Ok(Option::None)
                        }
                    },
                    Err(e) => {
                        proof {
                            assert(Seq::<SpecFrame>::empty()
                                + handle_spec(mv).0 =~= handle_spec(mv).0);
                        }
                        Err(e)
                    },
                }
            },
        }
    }
}

/// The whole emission of one connection's buffer: the frames of its
/// messages, expanded in wire order.
///
/// Returns the emitted frames, the unconsumed residue (a valid proper
/// prefix of a further message, kept for more bytes), and whether the
/// connection is still alive — a fatal error (failed gzip
/// decompression) stops emission; a non-fatal error skips the offending
/// message and goes on.
pub open spec fn run_buf(buf: Seq<u8>) -> (Seq<SpecFrame>, Seq<u8>, bool)
    decreases buf.len(),
{
    if buf.len() == 0 {
        (Seq::empty(), buf, true)
    } else {
        match sval(buf, 0) {
            SOut::More => (Seq::empty(), buf, true),
            SOut::Bad(j) => if 0 < j <= buf.len() {
                run_buf(buf.skip(j))
            } else {
                // a malformed position is always past the start; see
                // `lemma_sval_advances`
                (Seq::empty(), buf, false)
            },
            SOut::Done(v, j) => if 0 < j <= buf.len() {
                let (fs, err) = handle_spec(classify(v));
                if err == Option::Some(SDecodeError::Io) {
                    (Seq::empty(), buf.skip(j), false)
                } else {
                    let r = run_buf(buf.skip(j));
                    (fs + r.0, r.1, r.2)
                }
            } else {
                (Seq::empty(), buf, false)
            },
        }
    }
}

/// Order preservation and completeness of one decode step.
///
/// With `q` the frames still pending and `s` the buffer, the total
/// emission owed is `q + run_buf(s).0` — every message's expanded
/// frames, in wire order. One step of [`decode_spec`] keeps that total:
/// a returned frame is its head, a step without a frame and a non-fatal
/// error leave it unchanged, and a fatal error occurs only when nothing
/// was owed.
pub proof fn lemma_decode_step(q: Seq<SpecFrame>, s: Seq<u8>)
    ensures
        ({
            let (np, nb, st) = decode_spec(q, s);
            match st {
                SStep::Out(Option::Some(f)) => q + run_buf(s).0
                    == seq![f] + (np + run_buf(nb).0),
                SStep::Out(Option::None) => q + run_buf(s).0 == np + run_buf(nb).0,
                SStep::Fail(e) => if e is Io {
                    q + run_buf(s).0 =~= Seq::<SpecFrame>::empty()
                } else {
                    q + run_buf(s).0 == np + run_buf(nb).0
                },
            }
        }),
{
    let (np, nb, st) = decode_spec(q, s);
    if q.len() > 0 {
        assert(q + run_buf(s).0 =~= seq![q.first()] + (q.drop_first() + run_buf(s).0));
    } else if s.len() == 0 {
        assert(q + run_buf(s).0 =~= np + run_buf(nb).0);
    } else {
        crate::msgpack::lemma_sval_advances(s, 0);
        match sval(s, 0) {
            SOut::More => {
                assert(q + run_buf(s).0 =~= np + run_buf(nb).0);
            },
            SOut::Bad(j) => {
                assert(run_buf(s) == run_buf(s.skip(j)));
                assert(q + run_buf(s).0 =~= np + run_buf(nb).0);
            },
            SOut::Done(v, j) => {
                let (fs, err) = handle_spec(classify(v));
                let rest = s.skip(j);
                match err {
                    Option::Some(e) => {
                        if e is Io {
                            assert(fs =~= Seq::<SpecFrame>::empty());
                            assert(run_buf(s).0 =~= Seq::<SpecFrame>::empty());
                            assert(q + run_buf(s).0 =~= Seq::<SpecFrame>::empty());
                        } else {
                            assert(run_buf(s).0 == fs + run_buf(rest).0);
                            assert(q + run_buf(s).0 =~= fs + run_buf(rest).0);
                            assert(np + run_buf(nb).0 =~= fs + run_buf(rest).0);
                        }
                    },
                    Option::None => {
                        assert(run_buf(s).0 == fs + run_buf(rest).0);
                        if fs.len() > 0 {
                            assert(q + run_buf(s).0 =~= seq![fs.first()]
                                + (fs.drop_first() + run_buf(rest).0));
                        } else {
                            assert(fs + run_buf(rest).0 =~= run_buf(rest).0);
                            assert(q + run_buf(s).0 =~= np + run_buf(nb).0);
                        }
                    },
                }
            },
        }
    }
}

/// Extending a buffer continues exactly where its residue stopped: the
/// frames already decided stay decided, and what follows is the run of
/// the residue with the new bytes appended.
pub proof fn lemma_run_extend(b: Seq<u8>, t: Seq<u8>)
    ensures
        run_buf(b).2 ==> run_buf(b + t)
            == (run_buf(b).0 + run_buf(run_buf(b).1 + t).0,
                run_buf(run_buf(b).1 + t).1,
                run_buf(run_buf(b).1 + t).2),
        !run_buf(b).2 ==> run_buf(b + t).0 == run_buf(b).0 && !run_buf(b + t).2,
    decreases b.len(),
{
    let u = b + t;
    if b.len() == 0 {
        assert(run_buf(b).1 + t =~= u);
        assert(run_buf(b).0 + run_buf(u).0 =~= run_buf(u).0);
    } else {
        crate::msgpack::lemma_sval_advances(b, 0);
        crate::msgpack::lemma_sval_extends(b, t, 0);
        match sval(b, 0) {
            SOut::More => {
                assert(run_buf(b).1 + t =~= u);
                assert(run_buf(b).0 + run_buf(u).0 =~= run_buf(u).0);
            },
            SOut::Bad(j) => {
                assert(sval(u, 0) == SOut::<SpecValue>::Bad(j));
                assert(b.skip(j) + t =~= u.skip(j));
                lemma_run_extend(b.skip(j), t);
            },
            SOut::Done(v, j) => {
                assert(sval(u, 0) == SOut::Done(v, j));
                assert(b.skip(j) + t =~= u.skip(j));
                let (fs, err) = handle_spec(classify(v));
                if err == Option::Some(SDecodeError::Io) {
                } else {
                    lemma_run_extend(b.skip(j), t);
                    let rb = run_buf(b.skip(j));
                    if rb.2 {
                        assert(fs + (rb.0 + run_buf(rb.1 + t).0)
                            =~= (fs + rb.0) + run_buf(rb.1 + t).0);
                    }
                }
            },
        }
    }
}

/// The concatenation of a sequence of byte chunks.
pub open spec fn flat(chunks: Seq<Seq<u8>>) -> Seq<u8>
    decreases chunks.len(),
{
    if chunks.len() == 0 {
        Seq::empty()
    } else {
        chunks.first() + flat(chunks.drop_first())
    }
}

/// What a connection emits when its bytes arrive in the given chunks:
/// each chunk is appended to the unconsumed residue and the buffer is
/// drained, until the chunks end or a fatal error stops the connection.
pub open spec fn feed(residual: Seq<u8>, chunks: Seq<Seq<u8>>) -> Seq<SpecFrame>
    decreases chunks.len(),
{
    if chunks.len() == 0 {
        Seq::empty()
    } else {
        let r = run_buf(residual + chunks.first());
        if r.2 {
            r.0 + feed(r.1, chunks.drop_first())
        } else {
            r.0
        }
    }
}

/// Idempotent framing: however the byte stream is split into chunks,
/// the emitted frames are those of the whole buffer fed at once.
pub proof fn lemma_chunked_feeding(chunks: Seq<Seq<u8>>)
    ensures
        feed(Seq::empty(), chunks) == run_buf(flat(chunks)).0,
{
    lemma_feed_general(Seq::empty(), chunks);
    assert(Seq::<u8>::empty() + flat(chunks) =~= flat(chunks));
}

/// The general form of chunked feeding, from any quiescent residue: one
/// whose own run emits nothing and waits for more bytes.
pub proof fn lemma_feed_general(residual: Seq<u8>, chunks: Seq<Seq<u8>>)
    requires
        run_buf(residual) == (Seq::<SpecFrame>::empty(), residual, true),
    ensures
        feed(residual, chunks) == run_buf(residual + flat(chunks)).0,
    decreases chunks.len(),
{
    if chunks.len() == 0 {
        assert(residual + flat(chunks) =~= residual);
    } else {
        let c0 = chunks.first();
        let rest = chunks.drop_first();
        let r = run_buf(residual + c0);
        lemma_run_quiescent(residual + c0);
        lemma_run_extend(residual + c0, flat(rest));
        assert((residual + c0) + flat(rest) =~= residual + flat(chunks));
        if r.2 {
            lemma_feed_general(r.1, rest);
        }
    }
}

/// The residue of a run is quiescent: running it again emits nothing
/// and waits for more bytes.
pub proof fn lemma_run_quiescent(b: Seq<u8>)
    ensures
        run_buf(b).2 ==> run_buf(run_buf(b).1)
            == (Seq::<SpecFrame>::empty(), run_buf(b).1, true),
    decreases b.len(),
{
    if b.len() > 0 {
        crate::msgpack::lemma_sval_advances(b, 0);
        match sval(b, 0) {
            SOut::More => {},
            SOut::Bad(j) => {
                lemma_run_quiescent(b.skip(j));
            },
            SOut::Done(v, j) => {
                let (fs, err) = handle_spec(classify(v));
                if err != Option::Some(SDecodeError::Io) {
                    lemma_run_quiescent(b.skip(j));
                }
            },
        }
    }
}

/// Completeness: the frames a message expands to are exactly the
/// entries it contains — one for a single message, one per entry of a
/// forward, one per decoded entry of a packed payload's entry stream —
/// in their wire order, each under the message's tag.
pub proof fn lemma_completeness(m: SMessage)
    ensures
        m matches SMessage::Message(tag, ts, rec) ==> handle_spec(m).0
            == seq![SpecFrame { tag: tag, timestamp: ts, record: rec }],
        m matches SMessage::Forward(tag, en) ==> handle_spec(m).0
            == frames_from(tag, en),
        (m is Packed && (m->Packed_2 is None || m->Packed_2 == Option::Some(name_text())))
            ==> handle_spec(m).0
                == frames_from(m->Packed_0, sentries_stream(m->Packed_1, 0).0),
        m is Heartbeat ==> handle_spec(m).0 == Seq::<SpecFrame>::empty(),
        handle_spec(m).0.len() == (match m {
            SMessage::Message(_, _, _) => 1,
            SMessage::Forward(_, en) => en.len(),
            SMessage::Packed(_, _, _) => handle_spec(m).0.len(),
            SMessage::Heartbeat => 0,
            SMessage::Unexpected(_) => 0,
        }),
{
    if let SMessage::Packed(tag, p, copt) = m {
        if copt == Option::Some(name_text()) {
            assert(name_text() != name_gzip()) by {
                assert(name_text()[0] == 0x74 && name_gzip()[0] == 0x67);
            }
        }
    }
}

/// Gzip transparency: when a compressed payload decompresses to `p`,
/// the gzip-compressed packed message expands to exactly the frames of
/// the plain packed message over `p` — uncompressed, or marked `text`.
pub proof fn lemma_gzip_transparency(tag: Seq<u8>, gz: Seq<u8>, p: Seq<u8>)
    requires
        gunzip(gz) == Option::Some(p),
    ensures
        handle_spec(SMessage::Packed(tag, gz, Option::Some(name_gzip())))
            == handle_spec(SMessage::Packed(tag, p, Option::None)),
        handle_spec(SMessage::Packed(tag, gz, Option::Some(name_gzip())))
            == handle_spec(SMessage::Packed(tag, p, Option::Some(name_text()))),
{
    assert(name_text() != name_gzip()) by {
        assert(name_text()[0] == 0x74 && name_gzip()[0] == 0x67);
    }
    assert(name_gzip() == name_gzip());
}

/// The words of each error message.
pub open spec fn error_message_of(e: SDecodeError) -> Seq<u8> {
    match e {
        SDecodeError::Io => seq![0x74u8, 0x72, 0x61, 0x6e, 0x73, 0x70, 0x6f, 0x72, 0x74, 0x20, 0x65, 0x72, 0x72, 0x6f, 0x72],
        SDecodeError::Decode => seq![0x6du8, 0x73, 0x67, 0x70, 0x61, 0x63, 0x6b, 0x20, 0x64, 0x65, 0x63, 0x6f, 0x64, 0x65, 0x20, 0x65, 0x72, 0x72, 0x6f, 0x72],
        SDecodeError::UnknownCompression(s) => seq![0x75u8, 0x6e, 0x6b, 0x6e, 0x6f, 0x77, 0x6e, 0x20, 0x63, 0x6f, 0x6d, 0x70, 0x72, 0x65, 0x73, 0x73, 0x69, 0x6f, 0x6e, 0x3a, 0x20] + s,
        SDecodeError::UnexpectedValue(v) => seq![0x75u8, 0x6e, 0x65, 0x78, 0x70, 0x65, 0x63, 0x74, 0x65, 0x64, 0x20, 0x6d, 0x73, 0x67, 0x70, 0x61, 0x63, 0x6b, 0x20, 0x76, 0x61, 0x6c, 0x75, 0x65, 0x2c, 0x20, 0x69, 0x67, 0x6e, 0x6f, 0x72, 0x69, 0x6e, 0x67, 0x3a, 0x20]
            + crate::value::display_of(v),
    }
}

impl DecodeError {
    /// This error's message, as bytes.
    pub fn message(&self) -> (r: Vec<u8>)
        ensures
            r@ == error_message_of(self@),
    {
        match self {
            DecodeError::Io => {
                let mut v: Vec<u8> = Vec::new();
                v.push(0x74); v.push(0x72); v.push(0x61); v.push(0x6e); v.push(0x73); v.push(0x70); v.push(0x6f); v.push(0x72); v.push(0x74); v.push(0x20); v.push(0x65); v.push(0x72); v.push(0x72); v.push(0x6f); v.push(0x72);
                proof { assert(v@ =~= error_message_of(self@)); }
                v
            },
            DecodeError::Decode => {
                let mut v: Vec<u8> = Vec::new();
                v.push(0x6d); v.push(0x73); v.push(0x67); v.push(0x70); v.push(0x61); v.push(0x63); v.push(0x6b); v.push(0x20); v.push(0x64); v.push(0x65); v.push(0x63); v.push(0x6f); v.push(0x64); v.push(0x65); v.push(0x20); v.push(0x65); v.push(0x72); v.push(0x72); v.push(0x6f); v.push(0x72);
                proof { assert(v@ =~= error_message_of(self@)); }
                v
            },
            DecodeError::UnknownCompression(s) => {
                let mut v: Vec<u8> = Vec::new();
                v.push(0x75); v.push(0x6e); v.push(0x6b); v.push(0x6e); v.push(0x6f); v.push(0x77); v.push(0x6e); v.push(0x20); v.push(0x63); v.push(0x6f); v.push(0x6d); v.push(0x70); v.push(0x72); v.push(0x65); v.push(0x73); v.push(0x73); v.push(0x69); v.push(0x6f); v.push(0x6e); v.push(0x3a); v.push(0x20);
                let mut c = copy_bytes(s);
                v.append(&mut c);
                proof { assert(v@ =~= error_message_of(self@)); }
                v
            },
            DecodeError::UnexpectedValue(val) => {
                let mut v: Vec<u8> = Vec::new();
                v.push(0x75); v.push(0x6e); v.push(0x65); v.push(0x78); v.push(0x70); v.push(0x65); v.push(0x63); v.push(0x74); v.push(0x65); v.push(0x64); v.push(0x20); v.push(0x6d); v.push(0x73); v.push(0x67); v.push(0x70); v.push(0x61); v.push(0x63); v.push(0x6b); v.push(0x20); v.push(0x76); v.push(0x61); v.push(0x6c); v.push(0x75); v.push(0x65); v.push(0x2c); v.push(0x20); v.push(0x69); v.push(0x67); v.push(0x6e); v.push(0x6f); v.push(0x72); v.push(0x69); v.push(0x6e); v.push(0x67); v.push(0x3a); v.push(0x20);
                let mut c = crate::value::display_val(val);
                v.append(&mut c);
                proof { assert(v@ =~= error_message_of(self@)); }
                v
            },
        }
    }
}

} // verus!
