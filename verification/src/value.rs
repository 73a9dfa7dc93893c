//! The normalized event value model and the total mapping into it.
//!
//! Every well-formed MessagePack value maps to an event value: scalars
//! directly, strings and raw bytes to byte values, containers
//! recursively. Integers beyond the signed 64-bit range are kept as
//! their decimal digits; floating-point payloads stay IEEE 754 bit
//! patterns, 32-bit ones widened to 64-bit by exact integer arithmetic.

use vstd::prelude::*;
use vstd::arithmetic::power2::pow2;
use crate::msgpack::{MsgValue, SpecValue, view_seq, view_pairs, lemma_view_seq,
    lemma_view_pairs};
use crate::codec::{FluentTimestamp, STimestamp, norm_pairs, upsert, find_key,
    lemma_find_key};

verus! {

broadcast use vstd::std_specs::vec::group_vec_axioms;

/// The decimal digits of `n`, most significant first.
pub open spec fn dec_digits(n: nat) -> Seq<u8>
    decreases n,
{
    if n < 10 {
        seq![(48 + n) as u8]
    } else {
        dec_digits(n / 10).push((48 + n % 10) as u8)
    }
}

/// The decimal writing of an integer, with a leading minus sign when
/// negative.
pub open spec fn dec_int(v: int) -> Seq<u8> {
    if v < 0 {
        seq![45u8] + dec_digits((-v) as nat)
    } else {
        dec_digits(v as nat)
    }
}

/// The decimal digits of `n`, as a vector.
pub fn u64_dec(n: u64) -> (r: Vec<u8>)
    ensures
        r@ == dec_digits(n as nat),
    decreases n,
{
    if n < 10 {
        let mut v: Vec<u8> = Vec::new();
        v.push(48 + (n as u8));
        proof { assert(v@ =~= dec_digits(n as nat)); }
        v
    } else {
        let mut v = u64_dec(n / 10);
        v.push(48 + ((n % 10) as u8));
        v
    }
}

/// The decimal writing of a signed integer, as a vector.
pub fn i64_dec(n: i64) -> (r: Vec<u8>)
    ensures
        r@ == dec_int(n as int),
{
    if n >= 0 {
        u64_dec(n as u64)
    } else {
        let mag: u64 = if n == i64::MIN {
            0x8000_0000_0000_0000
        } else {
            (-n) as u64
        };
        let mut v: Vec<u8> = Vec::new();
        v.push(45);
        let mut d = u64_dec(mag);
        v.append(&mut d);
        proof { assert(v@ =~= dec_int(n as int)); }
        v
    }
}

/// The `w` low hexadecimal digits of `n`, most significant first.
pub open spec fn hex_digits(n: nat, w: nat) -> Seq<u8>
    decreases w,
{
    if w == 0 {
        Seq::empty()
    } else {
        hex_digits(n / 16, (w - 1) as nat).push(hex_digit((n % 16) as nat))
    }
}

/// One hexadecimal digit.
pub open spec fn hex_digit(d: nat) -> u8 {
    if d < 10 {
        (48 + d) as u8
    } else {
        (87 + d) as u8
    }
}

/// The `w` low hexadecimal digits of `n`, as a vector.
pub fn u64_hex(n: u64, w: usize) -> (r: Vec<u8>)
    ensures
        r@ == hex_digits(n as nat, w as nat),
    decreases w,
{
    if w == 0 {
        let v: Vec<u8> = Vec::new();
        proof { assert(v@ =~= hex_digits(n as nat, 0)); }
        v
    } else {
        let mut v = u64_hex(n / 16, w - 1);
        let d = (n % 16) as u8;
        v.push(if d < 10 { 48 + d } else { 87 + d });
        v
    }
}

/// The IEEE 754 64-bit pattern that holds the same number as the 32-bit
/// pattern `b`: sign kept, exponent re-biased from 127 to 1023, fraction
/// shifted up by 29 bits; infinities and NaNs keep their class, and a
/// subnormal is normalized by `sub_msb`, the position of its highest
/// fraction bit.
pub open spec fn widen_f32(b: u32) -> u64 {
    let sign = (b as nat) / 0x8000_0000;
    let e = ((b as nat) / 0x80_0000) % 256;
    let m = (b as nat) % 0x80_0000;
    if e == 255 {
        // infinity or NaN
        ((sign * pow2(63) + 2047 * pow2(52) + m * pow2(29)) as u64)
    } else if e == 0 && m == 0 {
        ((sign * pow2(63)) as u64)
    } else if e == 0 {
        // subnormal: value m * 2^-149 with highest set bit k
        let k = sub_msb(m);
        ((sign * pow2(63) + (k + 874) * pow2(52)
            + (m - pow2(k)) * pow2((52 - k) as nat)) as u64)
    } else {
        ((sign * pow2(63) + (e + 896) * pow2(52) + m * pow2(29)) as u64)
    }
}

/// The position of the highest set bit of `m` (`m` below `2^23`, not 0).
pub open spec fn sub_msb(m: nat) -> nat
    decreases m,
{
    if m < 2 {
        0
    } else {
        1 + sub_msb(m / 2)
    }
}

/// Compute `2^k` for `k` up to 63.
fn pow2_exec(k: usize) -> (r: u64)
    requires
        k <= 63,
    ensures
        r == pow2(k as nat),
{
    proof { vstd::arithmetic::power2::lemma2_to64(); }
    let mut p: u64 = 1;
    let mut x: usize = 0;
    while x < k
        invariant
            0 <= x <= k <= 63,
            p == pow2(x as nat),
        decreases k - x,
    {
        proof {
            vstd::arithmetic::power2::lemma_pow2_adds(x as nat, 1);
            vstd::arithmetic::power2::lemma2_to64();
            if (x as nat) + 1 < 64 {
                vstd::arithmetic::power2::lemma_pow2_strictly_increases((x + 1) as nat, 64);
            }
            vstd::arithmetic::power2::lemma2_to64_rest();
        }
        p = p * 2;
        x = x + 1;
    }
    p
}

/// Widen a 32-bit float pattern to the 64-bit pattern of the same number.
pub fn widen_f32_exec(b: u32) -> (r: u64)
    ensures
        r == widen_f32(b),
{
    proof {
        vstd::arithmetic::power2::lemma2_to64();
        vstd::arithmetic::power2::lemma2_to64_rest();
    }
    let sign: u64 = (b as u64) / 0x8000_0000;
    let e: u64 = ((b as u64) / 0x80_0000) % 256;
    let m: u64 = (b as u64) % 0x80_0000;
    if e == 255 {
        sign * 0x8000_0000_0000_0000 + 2047 * 0x10_0000_0000_0000 + m * 0x2000_0000
    } else if e == 0 && m == 0 {
        sign * 0x8000_0000_0000_0000
    } else if e == 0 {
        let mut k: usize = 0;
        let mut t: u64 = m;
        while t >= 2
            invariant
                sub_msb(m as nat) == k + sub_msb(t as nat),
                t <= m < 0x80_0000,
                k <= 23,
                m > 0 ==> t >= 1,
                m > 0,
                pow2(k as nat) * (t as nat) <= m as nat,
            decreases t,
        {
            proof {
                vstd::arithmetic::power2::lemma2_to64();
                vstd::arithmetic::power2::lemma_pow2_adds(k as nat, 1);
                assert(pow2((k + 1) as nat) == 2 * pow2(k as nat));
                assert(pow2((k + 1) as nat) * ((t as nat) / 2) <= pow2(k as nat) * (t as nat)
                    && pow2((k + 1) as nat) <= pow2(k as nat) * (t as nat))
                    by (nonlinear_arith)
                    requires
                        pow2((k + 1) as nat) == 2 * pow2(k as nat),
                        t >= 2,
                        pow2(k as nat) > 0,
                ;
                if k + 1 > 23 {
                    vstd::arithmetic::power2::lemma_pow2_strictly_increases(23,
                        (k + 1) as nat);
                    assert(false);
                }
            }
            t = t / 2;
            k = k + 1;
        }
        let ghost kk = sub_msb(m as nat);
        proof {
            assert(t == 1);
            assert(kk == k);
            assert(pow2(k as nat) <= m as nat);
            vstd::arithmetic::power2::lemma2_to64();
            // m < 2^(k+1): from the loop, m / 2^k == t == 1
            lemma_msb_bounds(m as nat);
        }
        let p = pow2_exec(k);
        let q = pow2_exec(52 - k);
        proof {
            vstd::arithmetic::power2::lemma_pow2_adds(kk, (52 - kk) as nat);
            assert((m - p) * q < pow2(52)) by (nonlinear_arith)
                requires
                    (m as nat) - (p as nat) < (p as nat),
                    (p as nat) * (q as nat) == pow2(52),
                    q > 0,
            ;
        }
        sign * 0x8000_0000_0000_0000 + ((k as u64) + 874) * 0x10_0000_0000_0000
            + (m - p) * q
    } else {
        sign * 0x8000_0000_0000_0000 + (e + 896) * 0x10_0000_0000_0000 + m * 0x2000_0000
    }
}

/// The highest set bit bounds its number: `2^k <= m < 2^(k+1)`.
pub proof fn lemma_msb_bounds(m: nat)
    requires
        m >= 1,
    ensures
        pow2(sub_msb(m)) <= m < pow2(sub_msb(m) + 1),
    decreases m,
{
    vstd::arithmetic::power2::lemma2_to64();
    if m < 2 {
    } else {
        lemma_msb_bounds(m / 2);
        vstd::arithmetic::power2::lemma_pow2_adds(sub_msb(m / 2), 1);
        vstd::arithmetic::power2::lemma_pow2_adds(sub_msb(m / 2) + 1, 1);
    }
}

/// The canonical display of a MessagePack value, as bytes.
///
/// `nil`, `true` and `false` as those words; integers in decimal;
/// floating-point values as `f32(0x…)` / `f64(0x…)` over their bit
/// patterns (exact and total, with no floating-point arithmetic);
/// strings quoted; raw bytes and arrays bracketed, comma-separated;
/// maps braced with `key: value` entries; extensions as
/// `ext(type, [bytes])`.
pub open spec fn display_of(v: SpecValue) -> Seq<u8>
    decreases v, 0int,
{
    match v {
        SpecValue::Nil => seq![110u8, 105, 108],
        SpecValue::Bool(b) => if b {
            seq![116u8, 114, 117, 101]
        } else {
            seq![102u8, 97, 108, 115, 101]
        },
        SpecValue::Int(n) => dec_int(n),
        SpecValue::F32(b) => seq![102u8, 51, 50, 40, 48, 120]
            + hex_digits(b as nat, 8) + seq![41u8],
        SpecValue::F64(b) => seq![102u8, 54, 52, 40, 48, 120]
            + hex_digits(b as nat, 16) + seq![41u8],
        SpecValue::Str(s) => seq![34u8] + s + seq![34u8],
        SpecValue::Bin(b) => seq![91u8] + join_bytes(b, 0) + seq![93u8],
        SpecValue::Arr(vs) => seq![91u8] + join_vals(vs, 0) + seq![93u8],
        SpecValue::Dict(ps) => seq![123u8] + join_entries(ps, 0) + seq![125u8],
        SpecValue::Ext(t, d) => seq![101u8, 120, 116, 40] + dec_int(t)
            + seq![44u8, 32] + seq![91u8] + join_bytes(d, 0) + seq![93u8] + seq![41u8],
    }
}

/// Comma-separated decimal bytes from index `i` on.
pub open spec fn join_bytes(b: Seq<u8>, i: int) -> Seq<u8>
    decreases b.len() - i,
        when 0 <= i <= b.len()
{
    if i >= b.len() {
        Seq::empty()
    } else if i + 1 < b.len() {
        dec_int(b[i] as int) + seq![44u8, 32] + join_bytes(b, i + 1)
    } else {
        dec_int(b[i] as int)
    }
}

/// Comma-separated displays of the values from index `i` on.
pub open spec fn join_vals(vs: Seq<SpecValue>, i: int) -> Seq<u8>
    decreases vs, vs.len() - i,
        when 0 <= i <= vs.len()
{
    if i >= vs.len() {
        Seq::empty()
    } else if i + 1 < vs.len() {
        display_of(vs[i]) + seq![44u8, 32] + join_vals(vs, i + 1)
    } else {
        display_of(vs[i])
    }
}

/// Comma-separated `key: value` displays from index `i` on.
pub open spec fn join_entries(ps: Seq<(SpecValue, SpecValue)>, i: int) -> Seq<u8>
    decreases ps, ps.len() - i,
        when 0 <= i <= ps.len()
{
    if i >= ps.len() {
        Seq::empty()
    } else if i + 1 < ps.len() {
        display_of(ps[i].0) + seq![58u8, 32] + display_of(ps[i].1) + seq![44u8, 32]
            + join_entries(ps, i + 1)
    } else {
        display_of(ps[i].0) + seq![58u8, 32] + display_of(ps[i].1)
    }
}

/// The string a map key is filed under: a string key is taken as its
/// bytes, any other key as its canonical display.
pub open spec fn key_string_of(v: SpecValue) -> Seq<u8> {
    match v {
        SpecValue::Str(s) => s,
        _ => display_of(v),
    }
}

/// Display one value, as bytes.
pub fn display_val(v: &MsgValue) -> (r: Vec<u8>)
    ensures
        r@ == display_of(v@),
    decreases v, 0int,
{
    match v {
        MsgValue::Nil => {
            let mut o: Vec<u8> = Vec::new();
            o.push(110); o.push(105); o.push(108);
            proof { assert(o@ =~= display_of(v@)); }
            o
        },
        MsgValue::Bool(b) => {
            let mut o: Vec<u8> = Vec::new();
            if *b {
                o.push(116); o.push(114); o.push(117); o.push(101);
            } else {
                o.push(102); o.push(97); o.push(108); o.push(115); o.push(101);
            }
            proof { assert(o@ =~= display_of(v@)); }
            o
        },
        MsgValue::Int(n) => i64_dec(*n),
        MsgValue::UInt(n) => {
            let r = u64_dec(*n);
            proof { assert(r@ =~= display_of(v@)); }
            r
        },
        MsgValue::F32(b) => {
            let mut o: Vec<u8> = Vec::new();
            o.push(102); o.push(51); o.push(50); o.push(40); o.push(48); o.push(120);
            let mut h = u64_hex(*b as u64, 8);
            o.append(&mut h);
            o.push(41);
            proof { assert(o@ =~= display_of(v@)); }
            o
        },
        MsgValue::F64(b) => {
            let mut o: Vec<u8> = Vec::new();
            o.push(102); o.push(54); o.push(52); o.push(40); o.push(48); o.push(120);
            let mut h = u64_hex(*b, 16);
            o.append(&mut h);
            o.push(41);
            proof { assert(o@ =~= display_of(v@)); }
            o
        },
        MsgValue::Str(s) => {
            let mut o: Vec<u8> = Vec::new();
            o.push(34);
            let mut c = crate::msgpack::take_range(s, 0, s.len());
            proof { assert(s@.subrange(0, s@.len() as int) =~= s@); }
            o.append(&mut c);
            o.push(34);
            proof { assert(o@ =~= display_of(v@)); }
            o
        },
        MsgValue::Bin(b) => {
            let mut o: Vec<u8> = Vec::new();
            o.push(91);
            let mut j = join_bytes_exec(b, 0);
            o.append(&mut j);
            o.push(93);
            proof { assert(o@ =~= display_of(v@)); }
            o
        },
        MsgValue::Arr(vs) => {
            let mut o: Vec<u8> = Vec::new();
            o.push(91);
            let mut j = join_vals_exec(vs, 0);
            o.append(&mut j);
            o.push(93);
            proof { assert(o@ =~= display_of(v@)); }
            o
        },
        MsgValue::Dict(ps) => {
            let mut o: Vec<u8> = Vec::new();
            o.push(123);
            let mut j = join_entries_exec(ps, 0);
            o.append(&mut j);
            o.push(125);
            proof { assert(o@ =~= display_of(v@)); }
            o
        },
        MsgValue::Ext(t, d) => {
            let mut o: Vec<u8> = Vec::new();
            o.push(101); o.push(120); o.push(116); o.push(40);
            let mut c = i64_dec(*t as i64);
            o.append(&mut c);
            o.push(44); o.push(32);
            o.push(91);
            let mut j = join_bytes_exec(d, 0);
            o.append(&mut j);
            o.push(93);
            o.push(41);
            proof { assert(o@ =~= display_of(v@)); }
            o
        },
    }
}

/// Display a byte run from index `i` on.
fn join_bytes_exec(b: &Vec<u8>, i: usize) -> (r: Vec<u8>)
    requires
        i <= b@.len(),
    ensures
        r@ == join_bytes(b@, i as int),
    decreases b@.len() - i,
{
    if i >= b.len() {
        Vec::new()
    } else if i + 1 < b.len() {
        let mut o = u64_dec(b[i] as u64);
        o.push(44);
        o.push(32);
        let mut rest = join_bytes_exec(b, i + 1);
        o.append(&mut rest);
        proof { assert(o@ =~= join_bytes(b@, i as int)); }
        o
    } else {
        let o = u64_dec(b[i] as u64);
        proof { assert(o@ =~= join_bytes(b@, i as int)); }
        o
    }
}

/// Display a value run from index `i` on.
fn join_vals_exec(vs: &Vec<MsgValue>, i: usize) -> (r: Vec<u8>)
    requires
        i <= vs@.len(),
    ensures
        r@ == join_vals(view_seq(vs@), i as int),
    decreases vs, vs@.len() - i,
{
    proof {
        lemma_view_seq(vs@);
    }
    if i >= vs.len() {
        Vec::new()
    } else if i + 1 < vs.len() {
        let mut o = display_val(&vs[i]);
        o.push(44);
        o.push(32);
        let mut rest = join_vals_exec(vs, i + 1);
        o.append(&mut rest);
        proof {
            assert(view_seq(vs@)[i as int] == vs@[i as int]@);
            assert(o@ =~= join_vals(view_seq(vs@), i as int));
        }
        o
    } else {
        let o = display_val(&vs[i]);
        proof {
            assert(view_seq(vs@)[i as int] == vs@[i as int]@);
            assert(o@ =~= join_vals(view_seq(vs@), i as int));
        }
        o
    }
}

/// Display a key-value run from index `i` on.
fn join_entries_exec(ps: &Vec<(MsgValue, MsgValue)>, i: usize) -> (r: Vec<u8>)
    requires
        i <= ps@.len(),
    ensures
        r@ == join_entries(view_pairs(ps@), i as int),
    decreases ps, ps@.len() - i,
{
    proof {
        lemma_view_pairs(ps@);
    }
    if i >= ps.len() {
        Vec::new()
    } else {
        let mut o = display_val(&ps[i].0);
        o.push(58);
        o.push(32);
        let mut val = display_val(&ps[i].1);
        o.append(&mut val);
        proof {
            assert(view_pairs(ps@)[i as int] == (ps@[i as int].0@, ps@[i as int].1@));
        }
        if i + 1 < ps.len() {
            o.push(44);
            o.push(32);
            let mut rest = join_entries_exec(ps, i + 1);
            o.append(&mut rest);
            proof { assert(o@ =~= join_entries(view_pairs(ps@), i as int)); }
            o
        } else {
            proof { assert(o@ =~= join_entries(view_pairs(ps@), i as int)); }
            o
        }
    }
}

/// A normalized event value.
#[derive(Debug)]
pub enum EventValue {
    Null,
    Boolean(bool),
    Integer(i64),
    Float(u64),
    Bytes(Vec<u8>),
    Timestamp(i64, u32),
    Array(Vec<EventValue>),
    Dict(Vec<(Vec<u8>, EventValue)>),
}

/// The model of a normalized event value. `Float` holds IEEE 754 64-bit
/// patterns; `Timestamp` holds seconds and nanoseconds.
pub enum SEventValue {
    Null,
    Boolean(bool),
    Integer(int),
    Float(u64),
    Bytes(Seq<u8>),
    Timestamp(int, int),
    Array(Seq<SEventValue>),
    Dict(Seq<(Seq<u8>, SEventValue)>),
}

/// The models of a list of event values.
pub open spec fn ev_list_view(vs: Seq<EventValue>) -> Seq<SEventValue>
    decreases vs,
{
    if vs.len() == 0 {
        Seq::empty()
    } else {
        seq![vs[0].view()] + ev_list_view(vs.drop_first())
    }
}

/// The models of a list of event fields.
pub open spec fn ev_dict_view(ps: Seq<(Vec<u8>, EventValue)>) -> Seq<(Seq<u8>, SEventValue)>
    decreases ps,
{
    if ps.len() == 0 {
        Seq::empty()
    } else {
        seq![(ps[0].0@, ps[0].1.view())] + ev_dict_view(ps.drop_first())
    }
}

impl EventValue {
    /// The model of this event value.
    pub open spec fn view(self) -> SEventValue
        decreases self,
    {
        match self {
            EventValue::Null => SEventValue::Null,
            EventValue::Boolean(b) => SEventValue::Boolean(b),
            EventValue::Integer(n) => SEventValue::Integer(n as int),
            EventValue::Float(b) => SEventValue::Float(b),
            EventValue::Bytes(b) => SEventValue::Bytes(b@),
            EventValue::Timestamp(s, ns) => SEventValue::Timestamp(s as int, ns as int),
            EventValue::Array(vs) => SEventValue::Array(ev_list_view(vs@)),
            EventValue::Dict(ps) => SEventValue::Dict(ev_dict_view(ps@)),
        }
    }
}

impl View for EventValue {
    type V = SEventValue;

    open spec fn view(&self) -> SEventValue {
        EventValue::view(*self)
    }
}

/// `ev_list_view` is the element-wise model.
pub proof fn lemma_ev_list_view(vs: Seq<EventValue>)
    ensures
        ev_list_view(vs).len() == vs.len(),
        forall|i: int| 0 <= i < vs.len() ==> ev_list_view(vs)[i] == (#[trigger] vs[i]).view(),
    decreases vs,
{
    if vs.len() > 0 {
        lemma_ev_list_view(vs.drop_first());
        assert forall|i: int| 0 <= i < vs.len() implies ev_list_view(vs)[i]
            == (#[trigger] vs[i]).view() by {
            if i > 0 {
                assert(vs.drop_first()[i - 1] == vs[i]);
            }
        }
    }
}

/// `ev_dict_view` is the pair-wise model.
pub proof fn lemma_ev_dict_view(ps: Seq<(Vec<u8>, EventValue)>)
    ensures
        ev_dict_view(ps).len() == ps.len(),
        forall|i: int| 0 <= i < ps.len() ==> ev_dict_view(ps)[i]
            == ((#[trigger] ps[i]).0@, ps[i].1.view()),
    decreases ps,
{
    if ps.len() > 0 {
        lemma_ev_dict_view(ps.drop_first());
        assert forall|i: int| 0 <= i < ps.len() implies ev_dict_view(ps)[i]
            == ((#[trigger] ps[i]).0@, ps[i].1.view()) by {
            if i > 0 {
                assert(ps.drop_first()[i - 1] == ps[i]);
            }
        }
    }
}

/// The bytes of the extension-code field name.
pub open spec fn key_ext_code() -> Seq<u8> {
    // msgpack_extension_code
    seq![0x6du8, 0x73, 0x67, 0x70, 0x61, 0x63, 0x6b, 0x5f, 0x65, 0x78, 0x74, 0x65,
        0x6e, 0x73, 0x69, 0x6f, 0x6e, 0x5f, 0x63, 0x6f, 0x64, 0x65]
}

/// The bytes of the extension-payload field name.
pub open spec fn key_ext_bytes() -> Seq<u8> {
    // bytes
    seq![0x62u8, 0x79, 0x74, 0x65, 0x73]
}

/// The total mapping of a MessagePack value into the event value model.
///
/// Defined on every well-formed MessagePack value: integers in signed
/// 64-bit range stay integers, larger ones become their decimal digits;
/// 32-bit floats are widened; strings and raw bytes become byte values;
/// arrays map element-wise; map keys are stringified by
/// [`key_string_of`] and the pairs normalized; an extension becomes a
/// two-field map of its code and payload.
pub open spec fn map_value(v: SpecValue) -> SEventValue
    decreases v, 0int,
{
    match v {
        SpecValue::Nil => SEventValue::Null,
        SpecValue::Bool(b) => SEventValue::Boolean(b),
        SpecValue::Int(n) => if n <= 0x7fff_ffff_ffff_ffff {
            SEventValue::Integer(n)
        } else {
            SEventValue::Bytes(dec_digits(n as nat))
        },
        SpecValue::F32(b) => SEventValue::Float(widen_f32(b)),
        SpecValue::F64(b) => SEventValue::Float(b),
        SpecValue::Str(s) => SEventValue::Bytes(s),
        SpecValue::Bin(b) => SEventValue::Bytes(b),
        SpecValue::Arr(vs) => SEventValue::Array(map_list(vs, 0)),
        SpecValue::Dict(ps) => SEventValue::Dict(norm_pairs(map_dict(ps, 0))),
        SpecValue::Ext(t, d) => SEventValue::Dict(seq![
            (key_ext_code(), SEventValue::Integer(t)),
            (key_ext_bytes(), SEventValue::Bytes(d)),
        ]),
    }
}

/// Map the values from index `i` on.
pub open spec fn map_list(vs: Seq<SpecValue>, i: int) -> Seq<SEventValue>
    decreases vs, vs.len() - i,
        when 0 <= i <= vs.len()
{
    if i >= vs.len() {
        Seq::empty()
    } else {
        seq![map_value(vs[i])] + map_list(vs, i + 1)
    }
}

/// Map the pairs from index `i` on, keys stringified.
pub open spec fn map_dict(ps: Seq<(SpecValue, SpecValue)>, i: int)
    -> Seq<(Seq<u8>, SEventValue)>
    decreases ps, ps.len() - i,
        when 0 <= i <= ps.len()
{
    if i >= ps.len() {
        Seq::empty()
    } else {
        seq![(key_string_of(ps[i].0), map_value(ps[i].1))] + map_dict(ps, i + 1)
    }
}

/// `map_list` maps element-wise.
pub proof fn lemma_map_list(vs: Seq<SpecValue>, i: int)
    requires
        0 <= i <= vs.len(),
    ensures
        map_list(vs, i).len() == vs.len() - i,
        forall|j: int| i <= j < vs.len() ==> map_list(vs, i)[j - i]
            == map_value(#[trigger] vs[j]),
    decreases vs.len() - i,
{
    if i < vs.len() {
        lemma_map_list(vs, i + 1);
    }
}

/// `map_dict` maps pair-wise.
pub proof fn lemma_map_dict(ps: Seq<(SpecValue, SpecValue)>, i: int)
    requires
        0 <= i <= ps.len(),
    ensures
        map_dict(ps, i).len() == ps.len() - i,
        forall|j: int| i <= j < ps.len() ==> map_dict(ps, i)[j - i]
            == (key_string_of((#[trigger] ps[j]).0), map_value(ps[j].1)),
    decreases ps.len() - i,
{
    if i < ps.len() {
        lemma_map_dict(ps, i + 1);
    }
}

/// Insert a field into an event's pairs under the normalization rule.
fn upsert_event(out: &mut Vec<(Vec<u8>, EventValue)>, k: Vec<u8>, val: EventValue)
    ensures
        ev_dict_view(final(out)@) == upsert(ev_dict_view(old(out)@), k@, val@),
{
    proof {
        lemma_ev_dict_view(out@);
    }
    let mut i: usize = 0;
    while i < out.len()
        invariant
            0 <= i <= out@.len(),
            out@ == old(out)@,
            ev_dict_view(out@).len() == out@.len(),
            forall|j: int| 0 <= j < out@.len() ==> #[trigger] ev_dict_view(out@)[j]
                == (out@[j].0@, out@[j].1.view()),
            forall|j: int| 0 <= j < i ==> (#[trigger] ev_dict_view(out@)[j]).0 != k@,
        decreases out@.len() - i,
    {
        if crate::codec::eq_bytes(&out[i].0, &k) {
            proof {
                assert(ev_dict_view(out@)[i as int] == (out@[i as int].0@,
                    out@[i as int].1.view()));
                lemma_find_key(ev_dict_view(out@), k@);
                assert(find_key(ev_dict_view(out@), k@) == i);
            }
            let ghost before = out@;
            out.set(i, (k, val));
            proof {
                lemma_ev_dict_view(out@);
                lemma_ev_dict_view(before);
                assert forall|j: int| 0 <= j < out@.len()
                    implies ev_dict_view(out@)[j]
                        == ev_dict_view(before).update(i as int, (k@, val@))[j] by {
                    assert(ev_dict_view(out@)[j] == (out@[j].0@, out@[j].1.view()));
                    if j != i {
                        assert(out@[j] == before[j]);
                        assert(ev_dict_view(before)[j] == (before[j].0@,
                            before[j].1.view()));
                    }
                }
                assert(ev_dict_view(out@)
                    =~= ev_dict_view(before).update(i as int, (k@, val@)));
            }
            return;
        }
        i = i + 1;
    }
    proof {
        lemma_find_key(ev_dict_view(out@), k@);
        assert(find_key(ev_dict_view(out@), k@) < 0);
    }
    let ghost before = out@;
    out.push((k, val));
    proof {
        lemma_ev_dict_view(out@);
        lemma_ev_dict_view(before);
        assert forall|j: int| 0 <= j < out@.len()
            implies ev_dict_view(out@)[j] == ev_dict_view(before).push((k@, val@))[j] by {
            assert(ev_dict_view(out@)[j] == (out@[j].0@, out@[j].1.view()));
            if j < before.len() {
                assert(out@[j] == before[j]);
                assert(ev_dict_view(before)[j] == (before[j].0@, before[j].1.view()));
            }
        }
        assert(ev_dict_view(out@) =~= ev_dict_view(before).push((k@, val@)));
    }
}

/// The bytes of the extension-code field name, as a vector.
fn key_ext_code_vec() -> (r: Vec<u8>)
    ensures
        r@ == key_ext_code(),
{
    let mut v: Vec<u8> = Vec::new();
    v.push(0x6d); v.push(0x73); v.push(0x67); v.push(0x70); v.push(0x61); v.push(0x63);
    v.push(0x6b); v.push(0x5f); v.push(0x65); v.push(0x78); v.push(0x74); v.push(0x65);
    v.push(0x6e); v.push(0x73); v.push(0x69); v.push(0x6f); v.push(0x6e); v.push(0x5f);
    v.push(0x63); v.push(0x6f); v.push(0x64); v.push(0x65);
    proof { assert(v@ =~= key_ext_code()); }
    v
}

/// The bytes of the extension-payload field name, as a vector.
fn key_ext_bytes_vec() -> (r: Vec<u8>)
    ensures
        r@ == key_ext_bytes(),
{
    let mut v: Vec<u8> = Vec::new();
    v.push(0x62); v.push(0x79); v.push(0x74); v.push(0x65); v.push(0x73);
    proof { assert(v@ =~= key_ext_bytes()); }
    v
}

/// Map one MessagePack value into the event value model.
///
/// Total on every value and free of panics — the executable face of
/// the totality of [`map_value`].
pub fn to_event_value(v: MsgValue) -> (r: EventValue)
    ensures
        r@ == map_value(v@),
    decreases v, 0int,
{
    let ghost gv = v@;
    match v {
        MsgValue::Nil => EventValue::Null,
        MsgValue::Bool(b) => EventValue::Boolean(b),
        MsgValue::Int(n) => EventValue::Integer(n),
        MsgValue::UInt(n) => {
            if n <= 0x7fff_ffff_ffff_ffff {
                EventValue::Integer(n as i64)
            } else {
                EventValue::Bytes(u64_dec(n))
            }
        },
        MsgValue::F32(b) => EventValue::Float(widen_f32_exec(b)),
        MsgValue::F64(b) => EventValue::Float(b),
        MsgValue::Str(s) => EventValue::Bytes(s),
        MsgValue::Bin(b) => EventValue::Bytes(b),
        MsgValue::Arr(vs) => EventValue::Array(map_list_exec(vs)),
        MsgValue::Dict(ps) => EventValue::Dict(map_dict_exec(ps)),
        MsgValue::Ext(t, d) => {
            let mut out: Vec<(Vec<u8>, EventValue)> = Vec::new();
            out.push((key_ext_code_vec(), EventValue::Integer(t as i64)));
            out.push((key_ext_bytes_vec(), EventValue::Bytes(d)));
            proof {
                lemma_ev_dict_view(out@);
                assert(ev_dict_view(out@)[0] == (out@[0].0@, out@[0].1.view()));
                assert(ev_dict_view(out@)[1] == (out@[1].0@, out@[1].1.view()));
                assert(ev_dict_view(out@) =~= map_value(gv)->Dict_0);
            }
            EventValue::Dict(out)
        },
    }
}

/// Map an array's values element-wise.
#[verifier::loop_isolation(false)]
fn map_list_exec(vs: Vec<MsgValue>) -> (r: Vec<EventValue>)
    ensures
        ev_list_view(r@) == map_list(view_seq(vs@), 0),
    decreases vs, 1int,
{
    let ghost vs0 = vs;
    let ghost orig = vs@;
    proof { lemma_view_seq(orig); }
    let mut vs = vs;
    let mut out: Vec<EventValue> = Vec::new();
    let ghost mut done: int = 0;
    while vs.len() > 0
        invariant
            0 <= done <= orig.len(),
            vs0@ == orig,
            vs@.len() == orig.len() - done,
            forall|j: int| 0 <= j < vs@.len() ==> #[trigger] vs@[j] == orig[done + j],
            view_seq(orig).len() == orig.len(),
            forall|j: int| 0 <= j < orig.len() ==> #[trigger] view_seq(orig)[j]
                == orig[j]@,
            ev_list_view(out@) =~= map_list(view_seq(orig), 0).take(done),
        decreases vs@.len(),
    {
        proof {
            lemma_map_list(view_seq(orig), 0);
        }
        let ghost before_vs = vs@;
        let head = vs.remove(0);
        proof {
            assert forall|j: int| 0 <= j < vs@.len()
                implies (#[trigger] vs@[j]) == orig[done + 1 + j] by {
                assert(vs@[j] == before_vs[j + 1]);
            }
            assert(head == orig[done]);
            assert(decreases_to!(vs0 => vs0@));
            assert(decreases_to!(vs0@ => vs0@[done]));
        }
        let ev = to_event_value(head);
        let ghost before_out = out@;
        out.push(ev);
        proof {
            lemma_ev_list_view(out@);
            lemma_ev_list_view(before_out);
            lemma_map_list(view_seq(orig), 0);
            assert forall|j: int| 0 <= j < out@.len()
                implies ev_list_view(out@)[j]
                    == map_list(view_seq(orig), 0).take(done + 1)[j] by {
                if j < done {
                    assert(out@[j] == before_out[j]);
                    assert(ev_list_view(before_out)[j] == before_out[j].view());
                }
                assert(ev_list_view(out@)[j] == out@[j].view());
                assert(view_seq(orig)[j] == orig[j]@);
            }
            assert(ev_list_view(out@) =~= map_list(view_seq(orig), 0).take(done + 1));
            done = done + 1;
        }
    }
    proof {
        lemma_map_list(view_seq(orig), 0);
        assert(map_list(view_seq(orig), 0).take(done) =~= map_list(view_seq(orig), 0));
    }
    out
}

/// Map a map's pairs: keys stringified, values mapped, then normalized.
#[verifier::loop_isolation(false)]
fn map_dict_exec(ps: Vec<(MsgValue, MsgValue)>) -> (r: Vec<(Vec<u8>, EventValue)>)
    ensures
        ev_dict_view(r@) == norm_pairs(map_dict(view_pairs(ps@), 0)),
    decreases ps, 1int,
{
    let ghost ps0 = ps;
    let ghost orig = ps@;
    let ghost full = map_dict(view_pairs(orig), 0);
    proof {
        lemma_view_pairs(orig);
        lemma_map_dict(view_pairs(orig), 0);
    }
    let mut ps = ps;
    let mut out: Vec<(Vec<u8>, EventValue)> = Vec::new();
    let ghost mut done: int = 0;
    while ps.len() > 0
        invariant
            0 <= done <= orig.len(),
            ps0@ == orig,
            ps@.len() == orig.len() - done,
            forall|j: int| 0 <= j < ps@.len() ==> #[trigger] ps@[j] == orig[done + j],
            view_pairs(orig).len() == orig.len(),
            forall|j: int| 0 <= j < orig.len() ==> #[trigger] view_pairs(orig)[j]
                == (orig[j].0@, orig[j].1@),
            full == map_dict(view_pairs(orig), 0),
            full.len() == orig.len(),
            forall|j: int| 0 <= j < orig.len() ==> #[trigger] full[j]
                == (key_string_of(view_pairs(orig)[j].0),
                    map_value(view_pairs(orig)[j].1)),
            ev_dict_view(out@) =~= norm_pairs(full.take(done)),
        decreases ps@.len(),
    {
        let ghost before_ps = ps@;
        let (kv, val) = ps.remove(0);
        proof {
            assert forall|j: int| 0 <= j < ps@.len()
                implies (#[trigger] ps@[j]) == orig[done + 1 + j] by {
                assert(ps@[j] == before_ps[j + 1]);
            }
            assert((kv, val) == orig[done]);
            assert(view_pairs(orig)[done] == (orig[done].0@, orig[done].1@));
            assert(decreases_to!(ps0 => ps0@));
            assert(decreases_to!(ps0@ => ps0@[done]));
        }
        let kb = match &kv {
            MsgValue::Str(b) => crate::msgpack::take_range(b, 0, b.len()),
            _ => display_val(&kv),
        };
        proof {
            assert(kv@ is Str ==> kb@ == kv@->Str_0);
            assert(kb@ == key_string_of(kv@));
        }
        let ev = to_event_value(val);
        upsert_event(&mut out, kb, ev);
        proof {
            assert(full.take(done + 1).drop_last() =~= full.take(done));
            assert(full.take(done + 1).last() == full[done]);
            assert(full[done] == (kb@, ev@));
            assert(norm_pairs(full.take(done + 1))
                == upsert(norm_pairs(full.take(done)), kb@, ev@));
            done = done + 1;
        }
    }
    proof {
        assert(full.take(done) =~= full);
    }
    out
}

/// The downstream schema's field names: where host, timestamp and tag
/// go. The builder never hard-codes them.
#[derive(Debug)]
pub struct LogSchema {
    pub host_key: Vec<u8>,
    pub timestamp_key: Vec<u8>,
    pub tag_key: Vec<u8>,
}

/// The model of a schema.
pub struct SLogSchema {
    pub host_key: Seq<u8>,
    pub timestamp_key: Seq<u8>,
    pub tag_key: Seq<u8>,
}

impl View for LogSchema {
    type V = SLogSchema;

    open spec fn view(&self) -> SLogSchema {
        SLogSchema {
            host_key: self.host_key@,
            timestamp_key: self.timestamp_key@,
            tag_key: self.tag_key@,
        }
    }
}

/// The event value a timestamp maps to: seconds and nanoseconds, with
/// zero nanoseconds for a plain Unix timestamp.
pub open spec fn ts_event_value(ts: STimestamp) -> SEventValue {
    match ts {
        STimestamp::Unix(s) => SEventValue::Timestamp(s, 0),
        STimestamp::EventTime(s, ns) => SEventValue::Timestamp(s, ns),
    }
}

/// The record's pairs, values mapped, from index `i` on.
pub open spec fn map_record(rec: Seq<(Seq<u8>, SpecValue)>, i: int)
    -> Seq<(Seq<u8>, SEventValue)>
    decreases rec.len() - i,
        when 0 <= i <= rec.len()
{
    if i >= rec.len() {
        Seq::empty()
    } else {
        seq![(rec[i].0, map_value(rec[i].1))] + map_record(rec, i + 1)
    }
}

/// `map_record` maps pair-wise.
pub proof fn lemma_map_record(rec: Seq<(Seq<u8>, SpecValue)>, i: int)
    requires
        0 <= i <= rec.len(),
    ensures
        map_record(rec, i).len() == rec.len() - i,
        forall|j: int| i <= j < rec.len() ==> map_record(rec, i)[j - i]
            == ((#[trigger] rec[j]).0, map_value(rec[j].1)),
    decreases rec.len() - i,
{
    if i < rec.len() {
        lemma_map_record(rec, i + 1);
    }
}

/// The event a frame builds: host, timestamp and tag under the schema's
/// keys, then every record pair flat — the key itself a top-level field
/// name — under the normalization rule (a record key equal to a schema
/// key overwrites its value, keeping its place).
pub open spec fn event_of(f: crate::codec::SpecFrame, host: Seq<u8>, schema: SLogSchema)
    -> Seq<(Seq<u8>, SEventValue)> {
    norm_pairs(seq![
        (schema.host_key, SEventValue::Bytes(host)),
        (schema.timestamp_key, ts_event_value(f.timestamp)),
        (schema.tag_key, SEventValue::Bytes(f.tag)),
    ] + map_record(f.record, 0))
}

/// Build the normalized event of one frame.
#[verifier::loop_isolation(false)]
pub fn build_event(frame: crate::codec::FluentFrame, host: &Vec<u8>, schema: &LogSchema)
    -> (r: Vec<(Vec<u8>, EventValue)>)
    ensures
        ev_dict_view(r@) == event_of(frame@, host@, schema@),
{
    let ghost f = frame@;
    let ghost base: Seq<(Seq<u8>, SEventValue)> = seq![
        (schema@.host_key, SEventValue::Bytes(host@)),
        (schema@.timestamp_key, ts_event_value(f.timestamp)),
        (schema@.tag_key, SEventValue::Bytes(f.tag)),
    ];
    let ghost mapped = map_record(f.record, 0);
    let ghost whole = base + mapped;
    proof {
        crate::codec::lemma_record_view(frame.record@);
        lemma_map_record(f.record, 0);
    }
    let mut out: Vec<(Vec<u8>, EventValue)> = Vec::new();
    proof {
        assert(out@ =~= Seq::<(Vec<u8>, EventValue)>::empty());
        assert(ev_dict_view(out@) =~= Seq::<(Seq<u8>, SEventValue)>::empty());
        assert(whole.take(0) =~= Seq::<(Seq<u8>, SEventValue)>::empty());
        assert(norm_pairs(whole.take(0)) =~= Seq::<(Seq<u8>, SEventValue)>::empty());
    }
    let secs = frame.timestamp.seconds();
    let nanos = frame.timestamp.nanoseconds();
    upsert_event(&mut out, crate::codec::copy_bytes(&schema.host_key),
        EventValue::Bytes(crate::codec::copy_bytes(host)));
    proof {
        assert(whole.take(1).drop_last() =~= whole.take(0));
        assert(whole.take(1).last() == base[0]);
        assert(norm_pairs(whole.take(1))
            == upsert(norm_pairs(whole.take(0)), base[0].0, base[0].1));
        assert(ev_dict_view(out@) == norm_pairs(whole.take(1)));
    }
    upsert_event(&mut out, crate::codec::copy_bytes(&schema.timestamp_key),
        EventValue::Timestamp(secs, nanos));
    proof {
        assert(whole.take(2).drop_last() =~= whole.take(1));
        assert(whole.take(2).last() == base[1]);
        assert(ts_event_value(f.timestamp) == SEventValue::Timestamp(secs as int,
            nanos as int));
        assert(norm_pairs(whole.take(2))
            == upsert(norm_pairs(whole.take(1)), base[1].0, base[1].1));
        assert(ev_dict_view(out@) == norm_pairs(whole.take(2)));
    }
    upsert_event(&mut out, crate::codec::copy_bytes(&schema.tag_key),
        EventValue::Bytes(frame.tag));
    proof {
        assert(whole.take(3).drop_last() =~= whole.take(2));
        assert(whole.take(3).last() == base[2]);
        assert(norm_pairs(whole.take(3))
            == upsert(norm_pairs(whole.take(2)), base[2].0, base[2].1));
        assert(ev_dict_view(out@) =~= norm_pairs(whole.take(3)));
    }
    let mut rec = frame.record;
    let ghost mut done: int = 0;
    while rec.len() > 0
        invariant
            0 <= done <= f.record.len(),
            rec@.len() == f.record.len() - done,
            forall|j: int| 0 <= j < rec@.len() ==> (#[trigger] crate::codec::record_view(
                rec@)[j]) == f.record[done + j],
            crate::codec::record_view(rec@).len() == rec@.len(),
            ev_dict_view(out@) =~= norm_pairs(whole.take(3 + done)),
        decreases rec@.len(),
    {
        let ghost before_rec = rec@;
        proof {
            crate::codec::lemma_record_view(before_rec);
        }
        let (k, v) = rec.remove(0);
        proof {
            crate::codec::lemma_record_view(rec@);
            assert forall|j: int| 0 <= j < rec@.len()
                implies (#[trigger] crate::codec::record_view(rec@)[j])
                    == f.record[done + 1 + j] by {
                assert(rec@[j] == before_rec[j + 1]);
                assert(crate::codec::record_view(before_rec)[j + 1]
                    == (before_rec[j + 1].0@, before_rec[j + 1].1@));
            }
            assert(crate::codec::record_view(before_rec)[0] == (k@, v@));
            assert((k@, v@) == f.record[done]);
        }
        let ev = to_event_value(v);
        upsert_event(&mut out, k, ev);
        proof {
            assert(whole.take(3 + done + 1).drop_last() =~= whole.take(3 + done));
            assert(whole.take(3 + done + 1).last() == whole[3 + done]);
            assert(whole[3 + done] == mapped[done]);
            assert(mapped[done] == (f.record[done].0, map_value(f.record[done].1)));
            assert(norm_pairs(whole.take(3 + done + 1))
                == upsert(norm_pairs(whole.take(3 + done)), k@, ev@));
            done = done + 1;
        }
    }
    proof {
        assert(whole.take(3 + done) =~= whole);
    }
    out
}

/// The timestamp round trip: a plain Unix timestamp and an EventTime
/// with zero nanoseconds stand for the same instant — they map to
/// numerically equal event timestamps.
pub proof fn lemma_timestamp_round_trip(n: int)
    ensures
        ts_event_value(STimestamp::Unix(n)) == ts_event_value(STimestamp::EventTime(n, 0)),
{
}

} // verus!
