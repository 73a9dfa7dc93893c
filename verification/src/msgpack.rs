//! MessagePack values and an incremental MessagePack decoder.
//!
//! The wire format of the Forward protocol is MessagePack, so the grammar
//! is decoded here directly on bytes: each value starts with a marker byte
//! that selects the shape and length of the payload.

use vstd::prelude::*;

verus! {

use vstd::arithmetic::power2::pow2;

broadcast use vstd::std_specs::vec::group_vec_axioms;

/// A decoded MessagePack value.
///
/// Integers are normalized: every integer representable in `i64` is held as
/// `Int`, and only unsigned values above `i64::MAX` are held as `UInt`.
/// Floating-point payloads are held as their IEEE 754 bit patterns, so the
/// decoder itself performs no floating-point arithmetic. String payloads
/// are kept as their raw bytes.
#[derive(Debug)]
pub enum MsgValue {
    Nil,
    Bool(bool),
    Int(i64),
    UInt(u64),
    F32(u32),
    F64(u64),
    Str(Vec<u8>),
    Bin(Vec<u8>),
    Arr(Vec<MsgValue>),
    Dict(Vec<(MsgValue, MsgValue)>),
    Ext(i8, Vec<u8>),
}

/// The mathematical model of a MessagePack value.
///
/// `Int` covers the whole integer range of the format; the split between
/// `MsgValue::Int` and `MsgValue::UInt` is an executable representation
/// detail that the model erases.
pub enum SpecValue {
    Nil,
    Bool(bool),
    Int(int),
    F32(u32),
    F64(u64),
    Str(Seq<u8>),
    Bin(Seq<u8>),
    Arr(Seq<SpecValue>),
    Dict(Seq<(SpecValue, SpecValue)>),
    Ext(int, Seq<u8>),
}

/// The models of a sequence of values, in order.
pub open spec fn view_seq(vs: Seq<MsgValue>) -> Seq<SpecValue>
    decreases vs,
{
    if vs.len() == 0 {
        Seq::empty()
    } else {
        seq![vs[0].view()] + view_seq(vs.drop_first())
    }
}

/// The models of a sequence of key-value pairs, in order.
pub open spec fn view_pairs(ps: Seq<(MsgValue, MsgValue)>) -> Seq<(SpecValue, SpecValue)>
    decreases ps,
{
    if ps.len() == 0 {
        Seq::empty()
    } else {
        seq![(ps[0].0.view(), ps[0].1.view())] + view_pairs(ps.drop_first())
    }
}

impl MsgValue {
    /// The model of this value.
    pub open spec fn view(self) -> SpecValue
        decreases self,
    {
        match self {
            MsgValue::Nil => SpecValue::Nil,
            MsgValue::Bool(b) => SpecValue::Bool(b),
            MsgValue::Int(n) => SpecValue::Int(n as int),
            MsgValue::UInt(n) => SpecValue::Int(n as int),
            MsgValue::F32(bits) => SpecValue::F32(bits),
            MsgValue::F64(bits) => SpecValue::F64(bits),
            MsgValue::Str(s) => SpecValue::Str(s@),
            MsgValue::Bin(b) => SpecValue::Bin(b@),
            MsgValue::Arr(vs) => SpecValue::Arr(view_seq(vs@)),
            MsgValue::Dict(ps) => SpecValue::Dict(view_pairs(ps@)),
            MsgValue::Ext(code, data) => SpecValue::Ext(code as int, data@),
        }
    }
}

/// `view_seq` is the element-wise model.
pub proof fn lemma_view_seq(vs: Seq<MsgValue>)
    ensures
        view_seq(vs).len() == vs.len(),
        forall|i: int| 0 <= i < vs.len() ==> view_seq(vs)[i] == #[trigger] vs[i].view(),
    decreases vs,
{
    if vs.len() > 0 {
        lemma_view_seq(vs.drop_first());
        assert forall|i: int| 0 <= i < vs.len() implies view_seq(vs)[i]
            == #[trigger] vs[i].view() by {
            if i > 0 {
                assert(vs.drop_first()[i - 1] == vs[i]);
            }
        }
    }
}

/// `view_pairs` is the pair-wise model.
pub proof fn lemma_view_pairs(ps: Seq<(MsgValue, MsgValue)>)
    ensures
        view_pairs(ps).len() == ps.len(),
        forall|i: int| 0 <= i < ps.len() ==> view_pairs(ps)[i]
            == (#[trigger] ps[i].0.view(), ps[i].1.view()),
    decreases ps,
{
    if ps.len() > 0 {
        lemma_view_pairs(ps.drop_first());
        assert forall|i: int| 0 <= i < ps.len() implies view_pairs(ps)[i]
            == (#[trigger] ps[i].0.view(), ps[i].1.view()) by {
            if i > 0 {
                assert(ps.drop_first()[i - 1] == ps[i]);
            }
        }
    }
}

impl View for MsgValue {
    type V = SpecValue;

    open spec fn view(&self) -> SpecValue {
        MsgValue::view(*self)
    }
}

/// Outcome of decoding at a position of a byte sequence.
///
/// `Done(x, j)` holds the decoded item and the position just past it.
/// `More` means the bytes from the position on are a valid proper prefix:
/// more bytes are needed. `Bad(j)` means the input is malformed, detected
/// with the read cursor at `j`.
pub enum SOut<T> {
    Done(T, int),
    More,
    Bad(int),
}

/// The big-endian unsigned integer held by the `k` bytes at `i`.
pub open spec fn be_bytes(s: Seq<u8>, i: int, k: int) -> nat
    decreases k,
{
    if k <= 0 {
        0
    } else {
        (be_bytes(s, i, k - 1) * 256 + s[i + k - 1]) as nat
    }
}

/// The signed reading of one byte (two's complement).
pub open spec fn sbyte(b: u8) -> int {
    if b < 128 {
        b as int
    } else {
        b - 256
    }
}

/// The signed reading of the big-endian `k`-byte integer `n` (`k` of 1, 2, 4 or 8).
pub open spec fn signed_of(n: nat, k: int) -> int {
    let half = pow2((8 * k - 1) as nat);
    if n < half {
        n as int
    } else {
        n - 2 * half
    }
}

/// `n` raw payload bytes starting at `i`, or `More` if they are not all there.
pub open spec fn sbytes(s: Seq<u8>, i: int, n: int) -> SOut<Seq<u8>> {
    if s.len() - i < n {
        SOut::More
    } else {
        SOut::Done(s.subrange(i, i + n), i + n)
    }
}

/// Decode one MessagePack value at position `i`.
///
/// This is the grammar of the format: the marker byte at `i` selects the
/// shape, fixed payloads follow directly, and container markers recurse
/// into `sarr` and `smap` for their elements.
pub open spec fn sval(s: Seq<u8>, i: int) -> SOut<SpecValue>
    decreases s.len() - i, 0int, 0int,
        when 0 <= i <= s.len()
{
    if i >= s.len() {
        SOut::More
    } else {
        let m = s[i];
        if m < 0x80 {
            // positive fixint
            SOut::Done(SpecValue::Int(m as int), i + 1)
        } else if m < 0x90 {
            // fixmap
            match smap(s, i + 1, (m - 0x80) as int) {
                SOut::Done(ps, j) => SOut::Done(SpecValue::Dict(ps), j),
                SOut::More => SOut::More,
                SOut::Bad(j) => SOut::Bad(j),
            }
        } else if m < 0xa0 {
            // fixarray
            match sarr(s, i + 1, (m - 0x90) as int) {
                SOut::Done(vs, j) => SOut::Done(SpecValue::Arr(vs), j),
                SOut::More => SOut::More,
                SOut::Bad(j) => SOut::Bad(j),
            }
        } else if m < 0xc0 {
            // fixstr
            match sbytes(s, i + 1, (m - 0xa0) as int) {
                SOut::Done(b, j) => SOut::Done(SpecValue::Str(b), j),
                SOut::More => SOut::More,
                SOut::Bad(j) => SOut::Bad(j),
            }
        } else if m == 0xc0 {
            SOut::Done(SpecValue::Nil, i + 1)
        } else if m == 0xc1 {
            // reserved marker: never valid
            SOut::Bad(i + 1)
        } else if m == 0xc2 {
            SOut::Done(SpecValue::Bool(false), i + 1)
        } else if m == 0xc3 {
            SOut::Done(SpecValue::Bool(true), i + 1)
        } else if m == 0xc4 || m == 0xc5 || m == 0xc6 {
            // bin 8/16/32
            let hl = if m == 0xc4 { 1int } else if m == 0xc5 { 2int } else { 4int };
            if s.len() < i + 1 + hl {
                SOut::More
            } else {
                match sbytes(s, i + 1 + hl, be_bytes(s, i + 1, hl) as int) {
                    SOut::Done(b, j) => SOut::Done(SpecValue::Bin(b), j),
                    SOut::More => SOut::More,
                    SOut::Bad(j) => SOut::Bad(j),
                }
            }
        } else if m == 0xc7 || m == 0xc8 || m == 0xc9 {
            // ext 8/16/32: length, then type byte, then payload
            let hl = if m == 0xc7 { 1int } else if m == 0xc8 { 2int } else { 4int };
            if s.len() < i + 2 + hl {
                SOut::More
            } else {
                match sbytes(s, i + 2 + hl, be_bytes(s, i + 1, hl) as int) {
                    SOut::Done(b, j) => SOut::Done(
                        SpecValue::Ext(sbyte(s[i + 1 + hl]), b),
                        j,
                    ),
                    SOut::More => SOut::More,
                    SOut::Bad(j) => SOut::Bad(j),
                }
            }
        } else if m == 0xca {
            // float 32
            if s.len() < i + 5 {
                SOut::More
            } else {
                SOut::Done(SpecValue::F32(be_bytes(s, i + 1, 4) as u32), i + 5)
            }
        } else if m == 0xcb {
            // float 64
            if s.len() < i + 9 {
                SOut::More
            } else {
                SOut::Done(SpecValue::F64(be_bytes(s, i + 1, 8) as u64), i + 9)
            }
        } else if m == 0xcc || m == 0xcd || m == 0xce || m == 0xcf {
            // uint 8/16/32/64
            let k = if m == 0xcc { 1int } else if m == 0xcd { 2int }
                else if m == 0xce { 4int } else { 8int };
            if s.len() < i + 1 + k {
                SOut::More
            } else {
                SOut::Done(SpecValue::Int(be_bytes(s, i + 1, k) as int), i + 1 + k)
            }
        } else if m == 0xd0 || m == 0xd1 || m == 0xd2 || m == 0xd3 {
            // int 8/16/32/64
            let k = if m == 0xd0 { 1int } else if m == 0xd1 { 2int }
                else if m == 0xd2 { 4int } else { 8int };
            if s.len() < i + 1 + k {
                SOut::More
            } else {
                SOut::Done(
                    SpecValue::Int(signed_of(be_bytes(s, i + 1, k), k)),
                    i + 1 + k,
                )
            }
        } else if m < 0xd9 {
            // fixext 1/2/4/8/16 (markers 0xd4 to 0xd8)
            let n = pow2((m - 0xd4) as nat) as int;
            if s.len() < i + 2 {
                SOut::More
            } else {
                match sbytes(s, i + 2, n) {
                    SOut::Done(b, j) => SOut::Done(SpecValue::Ext(sbyte(s[i + 1]), b), j),
                    SOut::More => SOut::More,
                    SOut::Bad(j) => SOut::Bad(j),
                }
            }
        } else if m == 0xd9 || m == 0xda || m == 0xdb {
            // str 8/16/32
            let hl = if m == 0xd9 { 1int } else if m == 0xda { 2int } else { 4int };
            if s.len() < i + 1 + hl {
                SOut::More
            } else {
                match sbytes(s, i + 1 + hl, be_bytes(s, i + 1, hl) as int) {
                    SOut::Done(b, j) => SOut::Done(SpecValue::Str(b), j),
                    SOut::More => SOut::More,
                    SOut::Bad(j) => SOut::Bad(j),
                }
            }
        } else if m == 0xdc || m == 0xdd {
            // array 16/32
            let hl = if m == 0xdc { 2int } else { 4int };
            if s.len() < i + 1 + hl {
                SOut::More
            } else {
                match sarr(s, i + 1 + hl, be_bytes(s, i + 1, hl) as int) {
                    SOut::Done(vs, j) => SOut::Done(SpecValue::Arr(vs), j),
                    SOut::More => SOut::More,
                    SOut::Bad(j) => SOut::Bad(j),
                }
            }
        } else if m == 0xde || m == 0xdf {
            // map 16/32
            let hl = if m == 0xde { 2int } else { 4int };
            if s.len() < i + 1 + hl {
                SOut::More
            } else {
                match smap(s, i + 1 + hl, be_bytes(s, i + 1, hl) as int) {
                    SOut::Done(ps, j) => SOut::Done(SpecValue::Dict(ps), j),
                    SOut::More => SOut::More,
                    SOut::Bad(j) => SOut::Bad(j),
                }
            }
        } else {
            // negative fixint (0xe0 to 0xff)
            SOut::Done(SpecValue::Int(m - 256), i + 1)
        }
    }
}

/// Decode `n` consecutive values starting at `i` (an array's elements).
pub open spec fn sarr(s: Seq<u8>, i: int, n: int) -> SOut<Seq<SpecValue>>
    decreases s.len() - i, 1int, n,
        when 0 <= i <= s.len() && 0 <= n
{
    if n == 0 {
        SOut::Done(Seq::empty(), i)
    } else {
        match sval(s, i) {
            SOut::Done(v, j) => if i < j <= s.len() {
                match sarr(s, j, n - 1) {
                    SOut::Done(vs, k) => SOut::Done(seq![v] + vs, k),
                    SOut::More => SOut::More,
                    SOut::Bad(k) => SOut::Bad(k),
                }
            } else {
                // a decoded value always advances; see `lemma_sval_advances`
                SOut::Bad(j)
            },
            SOut::More => SOut::More,
            SOut::Bad(j) => SOut::Bad(j),
        }
    }
}

/// Decode `n` consecutive key-value pairs starting at `i` (a map's entries).
pub open spec fn smap(s: Seq<u8>, i: int, n: int) -> SOut<Seq<(SpecValue, SpecValue)>>
    decreases s.len() - i, 2int, n,
        when 0 <= i <= s.len() && 0 <= n
{
    if n == 0 {
        SOut::Done(Seq::empty(), i)
    } else {
        match sval(s, i) {
            SOut::Done(key, j) => if i < j <= s.len() {
                match sval(s, j) {
                    SOut::Done(value, k) => if j < k <= s.len() {
                        match smap(s, k, n - 1) {
                            SOut::Done(ps, e) => SOut::Done(seq![(key, value)] + ps, e),
                            SOut::More => SOut::More,
                            SOut::Bad(e) => SOut::Bad(e),
                        }
                    } else {
                        SOut::Bad(k)
                    },
                    SOut::More => SOut::More,
                    SOut::Bad(k) => SOut::Bad(k),
                }
            } else {
                SOut::Bad(j)
            },
            SOut::More => SOut::More,
            SOut::Bad(j) => SOut::Bad(j),
        }
    }
}

/// A decoded value lies strictly between its start and the end of the
/// buffer, and a malformed position is in the same range.
pub proof fn lemma_sval_advances(s: Seq<u8>, i: int)
    requires
        0 <= i <= s.len(),
    ensures
        sval(s, i) matches SOut::Done(_, j) ==> i < j <= s.len(),
        sval(s, i) matches SOut::Bad(j) ==> i < j <= s.len(),
    decreases s.len() - i, 0int, 0int,
{
    if i < s.len() {
        let m = s[i];
        if m < 0x80 {
        } else if m < 0x90 {
            lemma_smap_advances(s, i + 1, (m - 0x80) as int);
        } else if m < 0xa0 {
            lemma_sarr_advances(s, i + 1, (m - 0x90) as int);
        } else if m == 0xdc || m == 0xdd {
            let hl = if m == 0xdc { 2int } else { 4int };
            if s.len() >= i + 1 + hl {
                lemma_sarr_advances(s, i + 1 + hl, be_bytes(s, i + 1, hl) as int);
            }
        } else if m == 0xde || m == 0xdf {
            let hl = if m == 0xde { 2int } else { 4int };
            if s.len() >= i + 1 + hl {
                lemma_smap_advances(s, i + 1 + hl, be_bytes(s, i + 1, hl) as int);
            }
        }
    }
}

/// Element runs advance the cursor too, and decode exactly `n` elements.
pub proof fn lemma_sarr_advances(s: Seq<u8>, i: int, n: int)
    requires
        0 <= i <= s.len(),
        0 <= n,
    ensures
        sarr(s, i, n) matches SOut::Done(vs, j) ==> i <= j <= s.len() && vs.len() == n,
        sarr(s, i, n) matches SOut::Bad(j) ==> i < j <= s.len(),
    decreases s.len() - i, 1int, n,
{
    if n > 0 {
        lemma_sval_advances(s, i);
        if let SOut::Done(v, j) = sval(s, i) {
            lemma_sarr_advances(s, j, n - 1);
        }
    }
}

/// Pair runs advance the cursor too, and decode exactly `n` pairs.
pub proof fn lemma_smap_advances(s: Seq<u8>, i: int, n: int)
    requires
        0 <= i <= s.len(),
        0 <= n,
    ensures
        smap(s, i, n) matches SOut::Done(ps, j) ==> i <= j <= s.len() && ps.len() == n,
        smap(s, i, n) matches SOut::Bad(j) ==> i < j <= s.len(),
    decreases s.len() - i, 2int, n,
{
    if n > 0 {
        lemma_sval_advances(s, i);
        if let SOut::Done(key, j) = sval(s, i) {
            if i < j <= s.len() {
                lemma_sval_advances(s, j);
                if let SOut::Done(value, k) = sval(s, j) {
                    if j < k <= s.len() {
                        lemma_smap_advances(s, k, n - 1);
                    }
                }
            }
        }
    }
}

/// Reading a big-endian integer that lies within `s` gives the same
/// result after `s` is extended.
pub proof fn lemma_be_extends(s: Seq<u8>, t: Seq<u8>, i: int, k: int)
    requires
        0 <= i,
        0 <= k,
        i + k <= s.len(),
    ensures
        be_bytes(s + t, i, k) == be_bytes(s, i, k),
    decreases k,
{
    if k > 0 {
        lemma_be_extends(s, t, i, k - 1);
        assert((s + t)[i + k - 1] == s[i + k - 1]);
    }
}

/// Decoding one value is decided by the bytes it covers: once it returns
/// `Done` or `Bad`, feeding further bytes cannot change the outcome.
pub proof fn lemma_sval_extends(s: Seq<u8>, t: Seq<u8>, i: int)
    requires
        0 <= i <= s.len(),
    ensures
        sval(s, i) matches SOut::Done(v, j) ==> sval(s + t, i) == SOut::Done(v, j),
        sval(s, i) matches SOut::Bad(j) ==> sval(s + t, i) == SOut::<SpecValue>::Bad(j),
    decreases s.len() - i, 0int, 0int,
{
    let u = s + t;
    if i < s.len() {
        assert(u[i] == s[i]);
        let m = s[i];
        if m < 0x80 {
        } else if m < 0x90 {
            lemma_smap_extends(s, t, i + 1, (m - 0x80) as int);
        } else if m < 0xa0 {
            lemma_sarr_extends(s, t, i + 1, (m - 0x90) as int);
        } else if m < 0xc0 {
            lemma_sbytes_extends(s, t, i + 1, (m - 0xa0) as int);
        } else if m <= 0xc3 {
        } else if m == 0xc4 || m == 0xc5 || m == 0xc6 {
            let hl = if m == 0xc4 { 1int } else if m == 0xc5 { 2int } else { 4int };
            if s.len() >= i + 1 + hl {
                lemma_be_extends(s, t, i + 1, hl);
                lemma_sbytes_extends(s, t, i + 1 + hl, be_bytes(s, i + 1, hl) as int);
            }
        } else if m == 0xc7 || m == 0xc8 || m == 0xc9 {
            let hl = if m == 0xc7 { 1int } else if m == 0xc8 { 2int } else { 4int };
            if s.len() >= i + 2 + hl {
                lemma_be_extends(s, t, i + 1, hl);
                assert(u[i + 1 + hl] == s[i + 1 + hl]);
                lemma_sbytes_extends(s, t, i + 2 + hl, be_bytes(s, i + 1, hl) as int);
            }
        } else if m == 0xca {
            if s.len() >= i + 5 {
                lemma_be_extends(s, t, i + 1, 4);
            }
        } else if m == 0xcb {
            if s.len() >= i + 9 {
                lemma_be_extends(s, t, i + 1, 8);
            }
        } else if m == 0xcc || m == 0xcd || m == 0xce || m == 0xcf {
            let k = if m == 0xcc { 1int } else if m == 0xcd { 2int }
                else if m == 0xce { 4int } else { 8int };
            if s.len() >= i + 1 + k {
                lemma_be_extends(s, t, i + 1, k);
            }
        } else if m == 0xd0 || m == 0xd1 || m == 0xd2 || m == 0xd3 {
            let k = if m == 0xd0 { 1int } else if m == 0xd1 { 2int }
                else if m == 0xd2 { 4int } else { 8int };
            if s.len() >= i + 1 + k {
                lemma_be_extends(s, t, i + 1, k);
            }
        } else if m < 0xd9 {
            let n = pow2((m - 0xd4) as nat) as int;
            if s.len() >= i + 2 {
                assert(u[i + 1] == s[i + 1]);
                lemma_sbytes_extends(s, t, i + 2, n);
            }
        } else if m == 0xd9 || m == 0xda || m == 0xdb {
            let hl = if m == 0xd9 { 1int } else if m == 0xda { 2int } else { 4int };
            if s.len() >= i + 1 + hl {
                lemma_be_extends(s, t, i + 1, hl);
                lemma_sbytes_extends(s, t, i + 1 + hl, be_bytes(s, i + 1, hl) as int);
            }
        } else if m == 0xdc || m == 0xdd {
            let hl = if m == 0xdc { 2int } else { 4int };
            if s.len() >= i + 1 + hl {
                lemma_be_extends(s, t, i + 1, hl);
                lemma_sarr_extends(s, t, i + 1 + hl, be_bytes(s, i + 1, hl) as int);
            }
        } else if m == 0xde || m == 0xdf {
            let hl = if m == 0xde { 2int } else { 4int };
            if s.len() >= i + 1 + hl {
                lemma_be_extends(s, t, i + 1, hl);
                lemma_smap_extends(s, t, i + 1 + hl, be_bytes(s, i + 1, hl) as int);
            }
        } else {
        }
    }
}

/// `sbytes` is likewise decided once it has its payload.
proof fn lemma_sbytes_extends(s: Seq<u8>, t: Seq<u8>, i: int, n: int)
    requires
        0 <= i <= s.len(),
        0 <= n,
    ensures
        sbytes(s, i, n) matches SOut::Done(b, j) ==> sbytes(s + t, i, n) == SOut::Done(b, j),
{
    if s.len() - i >= n {
        assert(s.subrange(i, i + n) =~= (s + t).subrange(i, i + n));
    }
}

/// Element runs are decided by the bytes they cover.
pub proof fn lemma_sarr_extends(s: Seq<u8>, t: Seq<u8>, i: int, n: int)
    requires
        0 <= i <= s.len(),
        0 <= n,
    ensures
        sarr(s, i, n) matches SOut::Done(vs, j) ==> sarr(s + t, i, n) == SOut::Done(vs, j),
        sarr(s, i, n) matches SOut::Bad(j) ==> sarr(s + t, i, n)
            == SOut::<Seq<SpecValue>>::Bad(j),
    decreases s.len() - i, 1int, n,
{
    if n > 0 {
        lemma_sval_advances(s, i);
        lemma_sval_extends(s, t, i);
        if let SOut::Done(v, j) = sval(s, i) {
            lemma_sarr_extends(s, t, j, n - 1);
        }
    }
}

/// Pair runs are decided by the bytes they cover.
pub proof fn lemma_smap_extends(s: Seq<u8>, t: Seq<u8>, i: int, n: int)
    requires
        0 <= i <= s.len(),
        0 <= n,
    ensures
        smap(s, i, n) matches SOut::Done(ps, j) ==> smap(s + t, i, n) == SOut::Done(ps, j),
        smap(s, i, n) matches SOut::Bad(j) ==> smap(s + t, i, n)
            == SOut::<Seq<(SpecValue, SpecValue)>>::Bad(j),
    decreases s.len() - i, 2int, n,
{
    if n > 0 {
        lemma_sval_advances(s, i);
        lemma_sval_extends(s, t, i);
        if let SOut::Done(key, j) = sval(s, i) {
            if i < j <= s.len() {
                lemma_sval_advances(s, j);
                lemma_sval_extends(s, t, j);
                if let SOut::Done(value, k) = sval(s, j) {
                    if j < k <= s.len() {
                        lemma_smap_extends(s, t, k, n - 1);
                    }
                }
            }
        }
    }
}

/// A big-endian integer of `k` bytes is below `2^(8k)`.
pub proof fn lemma_be_bound(s: Seq<u8>, i: int, k: int)
    requires
        0 <= k,
    ensures
        be_bytes(s, i, k) < pow2((8 * k) as nat),
    decreases k,
{
    vstd::arithmetic::power2::lemma2_to64();
    if k > 0 {
        lemma_be_bound(s, i, k - 1);
        vstd::arithmetic::power2::lemma_pow2_adds((8 * (k - 1)) as nat, 8);
        assert(be_bytes(s, i, k - 1) * 256 <= (pow2((8 * (k - 1)) as nat) - 1) * 256)
            by (nonlinear_arith)
            requires
                be_bytes(s, i, k - 1) <= pow2((8 * (k - 1)) as nat) - 1,
        ;
    }
}

/// Outcome of one decoding step, the executable counterpart of [`SOut`].
#[derive(Debug)]
pub enum Dec<T> {
    Done(T, usize),
    More,
    Bad(usize),
}

/// Read the big-endian unsigned integer held by the `k` bytes at `i`.
pub(crate) fn be_read(s: &Vec<u8>, i: usize, k: usize) -> (r: u64)
    requires
        i + k <= s@.len(),
        k <= 8,
    ensures
        r == be_bytes(s@, i as int, k as int),
{
    let l = s.len();
    let mut acc: u64 = 0;
    let mut x: usize = 0;
    while x < k
        invariant
            0 <= x <= k,
            k <= 8,
            i + k <= l,
            l == s@.len(),
            acc == be_bytes(s@, i as int, x as int),
        decreases k - x,
    {
        proof {
            lemma_be_bound(s@, i as int, x as int);
            vstd::arithmetic::power2::lemma2_to64();
            vstd::arithmetic::power2::lemma2_to64_rest();
            if 8 * x < 56 {
                vstd::arithmetic::power2::lemma_pow2_strictly_increases((8 * x) as nat, 56);
            }
            assert(acc * 256 <= (pow2(56) - 1) * 256) by (nonlinear_arith)
                requires
                    acc <= pow2(56) - 1,
            ;
        }
        acc = acc * 256 + (s[i + x] as u64);
        x = x + 1;
    }
    acc
}

/// Copy the bytes of `s` from `a` (inclusive) to `b` (exclusive).
pub(crate) fn take_range(s: &Vec<u8>, a: usize, b: usize) -> (out: Vec<u8>)
    requires
        a <= b <= s@.len(),
    ensures
        out@ == s@.subrange(a as int, b as int),
{
    let mut out: Vec<u8> = Vec::new();
    let mut k: usize = a;
    while k < b
        invariant
            a <= k <= b <= s@.len(),
            out@ == s@.subrange(a as int, k as int),
        decreases b - k,
    {
        out.push(s[k]);
        proof {
            assert(s@.subrange(a as int, k + 1)
                =~= s@.subrange(a as int, k as int) + seq![s@[k as int]]);
        }
        k = k + 1;
    }
    out
}

/// Read the type byte of an extension value as a signed code.
fn read_ext_code(b: u8) -> (r: i8)
    ensures
        r as int == sbyte(b),
{
    if b < 128 {
        b as i8
    } else {
        ((b as i16) - 256) as i8
    }
}

/// Decode one MessagePack value at position `i` of `s`.
///
/// The result agrees exactly with the grammar [`sval`]: a decoded value
/// with the position just past it, `More` when the input is a valid
/// proper prefix, or `Bad` with the position reached when the input is
/// malformed.
#[verifier::rlimit(100)]
pub fn dval(s: &Vec<u8>, i: usize) -> (r: Dec<MsgValue>)
    requires
        i <= s@.len(),
    ensures
        r matches Dec::Done(v, j) ==> sval(s@, i as int) == SOut::Done(v@, j as int)
            && i < j <= s@.len(),
        r matches Dec::More ==> sval(s@, i as int) is More,
        r matches Dec::Bad(j) ==> sval(s@, i as int) == SOut::<SpecValue>::Bad(j as int)
            && i < j <= s@.len(),
    decreases s@.len() - i, 0int, 0int,
{
    if i >= s.len() {
        return Dec::More;
    }
    let m = s[i];
    if m < 0x80 {
        Dec::Done(MsgValue::Int(m as i64), i + 1)
    } else if m < 0x90 {
        let n = (m - 0x80) as usize;
        proof { lemma_smap_advances(s@, i + 1, n as int); }
        match dmap(s, i + 1, n) {
            Dec::Done(ps, j) => Dec::Done(MsgValue::Dict(ps), j),
            Dec::More => Dec::More,
            Dec::Bad(j) => Dec::Bad(j),
        }
    } else if m < 0xa0 {
        let n = (m - 0x90) as usize;
        proof { lemma_sarr_advances(s@, i + 1, n as int); }
        match darr(s, i + 1, n) {
            Dec::Done(vs, j) => Dec::Done(MsgValue::Arr(vs), j),
            Dec::More => Dec::More,
            Dec::Bad(j) => Dec::Bad(j),
        }
    } else if m < 0xc0 {
        let n = (m - 0xa0) as usize;
        if s.len() - (i + 1) < n {
            Dec::More
        } else {
            Dec::Done(MsgValue::Str(take_range(s, i + 1, i + 1 + n)), i + 1 + n)
        }
    } else if m == 0xc0 {
        Dec::Done(MsgValue::Nil, i + 1)
    } else if m == 0xc1 {
        Dec::Bad(i + 1)
    } else if m == 0xc2 {
        Dec::Done(MsgValue::Bool(false), i + 1)
    } else if m == 0xc3 {
        Dec::Done(MsgValue::Bool(true), i + 1)
    } else if m == 0xc4 || m == 0xc5 || m == 0xc6 {
        let hl: usize = if m == 0xc4 { 1 } else if m == 0xc5 { 2 } else { 4 };
        if s.len() - i < 1 + hl {
            Dec::More
        } else {
            let n64 = be_read(s, i + 1, hl);
            proof { lemma_be_bound(s@, i + 1, hl as int); }
            if ((s.len() - i - 1 - hl) as u64) < n64 {
                Dec::More
            } else {
                let n = n64 as usize;
                let j = i + 1 + hl + n;
                Dec::Done(MsgValue::Bin(take_range(s, i + 1 + hl, j)), j)
            }
        }
    } else if m == 0xc7 || m == 0xc8 || m == 0xc9 {
        let hl: usize = if m == 0xc7 { 1 } else if m == 0xc8 { 2 } else { 4 };
        if s.len() - i < 2 + hl {
            Dec::More
        } else {
            let n64 = be_read(s, i + 1, hl);
            proof { lemma_be_bound(s@, i + 1, hl as int); }
            if ((s.len() - i - 2 - hl) as u64) < n64 {
                Dec::More
            } else {
                let n = n64 as usize;
                let code = read_ext_code(s[i + 1 + hl]);
                let j = i + 2 + hl + n;
                Dec::Done(MsgValue::Ext(code, take_range(s, i + 2 + hl, j)), j)
            }
        }
    } else if m == 0xca {
        if s.len() - i < 5 {
            Dec::More
        } else {
            proof { lemma_be_bound(s@, i + 1, 4); vstd::arithmetic::power2::lemma2_to64(); }
            Dec::Done(MsgValue::F32(be_read(s, i + 1, 4) as u32), i + 5)
        }
    } else if m == 0xcb {
        if s.len() - i < 9 {
            Dec::More
        } else {
            Dec::Done(MsgValue::F64(be_read(s, i + 1, 8)), i + 9)
        }
    } else if m == 0xcc || m == 0xcd || m == 0xce || m == 0xcf {
        let k: usize = if m == 0xcc { 1 } else if m == 0xcd { 2 }
            else if m == 0xce { 4 } else { 8 };
        if s.len() - i < 1 + k {
            Dec::More
        } else {
            let v64 = be_read(s, i + 1, k);
            proof { lemma_be_bound(s@, i + 1, k as int); vstd::arithmetic::power2::lemma2_to64(); }
            if v64 <= 0x7fff_ffff_ffff_ffff {
                Dec::Done(MsgValue::Int(v64 as i64), i + 1 + k)
            } else {
                Dec::Done(MsgValue::UInt(v64), i + 1 + k)
            }
        }
    } else if m == 0xd0 || m == 0xd1 || m == 0xd2 || m == 0xd3 {
        let k: usize = if m == 0xd0 { 1 } else if m == 0xd1 { 2 }
            else if m == 0xd2 { 4 } else { 8 };
        if s.len() - i < 1 + k {
            Dec::More
        } else {
            let v64 = be_read(s, i + 1, k);
            proof {
                lemma_be_bound(s@, i + 1, k as int);
                vstd::arithmetic::power2::lemma2_to64();
                vstd::arithmetic::power2::lemma2_to64_rest();
            }
            let v: i64 = if k == 1 {
                if v64 < 0x80 { v64 as i64 } else { (v64 as i64) - 0x100 }
            } else if k == 2 {
                if v64 < 0x8000 { v64 as i64 } else { (v64 as i64) - 0x1_0000 }
            } else if k == 4 {
                if v64 < 0x8000_0000 { v64 as i64 } else { (v64 as i64) - 0x1_0000_0000 }
            } else {
                if v64 < 0x8000_0000_0000_0000 {
                    v64 as i64
                } else {
                    i64::MIN + ((v64 - 0x8000_0000_0000_0000) as i64)
                }
            };
            Dec::Done(MsgValue::Int(v), i + 1 + k)
        }
    } else if m < 0xd9 {
        let n: usize = if m == 0xd4 { 1 } else if m == 0xd5 { 2 }
            else if m == 0xd6 { 4 } else if m == 0xd7 { 8 } else { 16 };
        proof { vstd::arithmetic::power2::lemma2_to64(); }
        if s.len() - i < 2 {
            Dec::More
        } else if s.len() - (i + 2) < n {
            Dec::More
        } else {
            let code = read_ext_code(s[i + 1]);
            Dec::Done(MsgValue::Ext(code, take_range(s, i + 2, i + 2 + n)), i + 2 + n)
        }
    } else if m == 0xd9 || m == 0xda || m == 0xdb {
        let hl: usize = if m == 0xd9 { 1 } else if m == 0xda { 2 } else { 4 };
        if s.len() - i < 1 + hl {
            Dec::More
        } else {
            let n64 = be_read(s, i + 1, hl);
            proof { lemma_be_bound(s@, i + 1, hl as int); }
            if ((s.len() - i - 1 - hl) as u64) < n64 {
                Dec::More
            } else {
                let n = n64 as usize;
                let j = i + 1 + hl + n;
                Dec::Done(MsgValue::Str(take_range(s, i + 1 + hl, j)), j)
            }
        }
    } else if m == 0xdc || m == 0xdd {
        let hl: usize = if m == 0xdc { 2 } else { 4 };
        if s.len() - i < 1 + hl {
            Dec::More
        } else {
            let n64 = be_read(s, i + 1, hl);
            proof {
                lemma_be_bound(s@, i + 1, hl as int);
                vstd::arithmetic::power2::lemma2_to64();
                lemma_sarr_advances(s@, i + 1 + hl, n64 as int);
            }
            match darr(s, i + 1 + hl, n64 as usize) {
                Dec::Done(vs, j) => Dec::Done(MsgValue::Arr(vs), j),
                Dec::More => Dec::More,
                Dec::Bad(j) => Dec::Bad(j),
            }
        }
    } else if m == 0xde || m == 0xdf {
        let hl: usize = if m == 0xde { 2 } else { 4 };
        if s.len() - i < 1 + hl {
            Dec::More
        } else {
            let n64 = be_read(s, i + 1, hl);
            proof {
                lemma_be_bound(s@, i + 1, hl as int);
                vstd::arithmetic::power2::lemma2_to64();
                lemma_smap_advances(s@, i + 1 + hl, n64 as int);
            }
            match dmap(s, i + 1 + hl, n64 as usize) {
                Dec::Done(ps, j) => Dec::Done(MsgValue::Dict(ps), j),
                Dec::More => Dec::More,
                Dec::Bad(j) => Dec::Bad(j),
            }
        }
    } else {
        Dec::Done(MsgValue::Int((m as i64) - 256), i + 1)
    }
}

/// Decode `n` consecutive values (an array's elements) starting at `i`.
fn darr(s: &Vec<u8>, i: usize, n: usize) -> (r: Dec<Vec<MsgValue>>)
    requires
        i <= s@.len(),
    ensures
        r matches Dec::Done(vs, j) ==> sarr(s@, i as int, n as int)
            == SOut::Done(view_seq(vs@), j as int) && i <= j <= s@.len(),
        r matches Dec::More ==> sarr(s@, i as int, n as int) is More,
        r matches Dec::Bad(j) ==> sarr(s@, i as int, n as int)
            == SOut::<Seq<SpecValue>>::Bad(j as int),
    decreases s@.len() - i, 1int, n,
{
    if n == 0 {
        let out: Vec<MsgValue> = Vec::new();
        proof { assert(view_seq(out@) =~= Seq::<SpecValue>::empty()); }
        return Dec::Done(out, i);
    }
    match dval(s, i) {
        Dec::Done(v, j) => {
            match darr(s, j, n - 1) {
                Dec::Done(mut vs, k) => {
                    let ghost tail = vs@;
                    vs.insert(0, v);
                    proof {
                        assert(vs@.drop_first() =~= tail);
                        assert(view_seq(vs@) =~= seq![v@] + view_seq(tail));
                    }
                    Dec::Done(vs, k)
                },
                Dec::More => Dec::More,
                Dec::Bad(k) => Dec::Bad(k),
            }
        },
        Dec::More => Dec::More,
        Dec::Bad(j) => Dec::Bad(j),
    }
}

/// Decode `n` consecutive key-value pairs (a map's entries) starting at `i`.
fn dmap(s: &Vec<u8>, i: usize, n: usize) -> (r: Dec<Vec<(MsgValue, MsgValue)>>)
    requires
        i <= s@.len(),
    ensures
        r matches Dec::Done(ps, j) ==> smap(s@, i as int, n as int)
            == SOut::Done(view_pairs(ps@), j as int) && i <= j <= s@.len(),
        r matches Dec::More ==> smap(s@, i as int, n as int) is More,
        r matches Dec::Bad(j) ==> smap(s@, i as int, n as int)
            == SOut::<Seq<(SpecValue, SpecValue)>>::Bad(j as int),
    decreases s@.len() - i, 2int, n,
{
    if n == 0 {
        let out: Vec<(MsgValue, MsgValue)> = Vec::new();
        proof { assert(view_pairs(out@) =~= Seq::<(SpecValue, SpecValue)>::empty()); }
        return Dec::Done(out, i);
    }
    match dval(s, i) {
        Dec::Done(key, j) => {
            match dval(s, j) {
                Dec::Done(value, k) => {
                    match dmap(s, k, n - 1) {
                        Dec::Done(mut ps, e) => {
                            let ghost tail = ps@;
                            ps.insert(0, (key, value));
                            proof {
                                assert(ps@.drop_first() =~= tail);
                                assert(view_pairs(ps@) =~= seq![(key@, value@)]
                                    + view_pairs(tail));
                            }
                            Dec::Done(ps, e)
                        },
                        Dec::More => Dec::More,
                        Dec::Bad(e) => Dec::Bad(e),
                    }
                },
                Dec::More => Dec::More,
                Dec::Bad(k) => Dec::Bad(k),
            }
        },
        Dec::More => Dec::More,
        Dec::Bad(j) => Dec::Bad(j),
    }
}

} // verus!
