//! Listen addresses: a concrete TCP address, or an inherited socket.
//!
//! The accepted grammar is `<a>.<b>.<c>.<d>:<port>` for a TCP bind,
//! `systemd` for the first inherited file descriptor, and `systemd#N`
//! for the one-based `N`-th (so `systemd#0` is an error). Numbers are
//! canonical decimal: no empty runs, no leading zeros.

use vstd::prelude::*;
use crate::value::{dec_digits};

verus! {

broadcast use vstd::std_specs::vec::group_vec_axioms;

/// An IPv4 socket address: four octets and a port.
#[derive(Debug, Clone, Copy, PartialEq, Eq, Structural)]
pub struct Ipv4Socket {
    pub a: u8,
    pub b: u8,
    pub c: u8,
    pub d: u8,
    pub port: u16,
}

/// Where to listen: a TCP address to bind, or the index of an inherited
/// listener.
#[derive(Debug, Clone, Copy, PartialEq, Eq, Structural)]
pub enum SocketListenAddr {
    SocketAddr(Ipv4Socket),
    SystemdFd(usize),
}

impl SocketListenAddr {
    /// A TCP listen address from its parts.
    pub open spec fn tcp(a: u8, b: u8, c: u8, d: u8, port: u16) -> SocketListenAddr {
        SocketListenAddr::SocketAddr(Ipv4Socket { a, b, c, d, port })
    }
}

/// Whether `s` is a non-empty run of decimal digits.
pub open spec fn is_digits(s: Seq<u8>) -> bool {
    s.len() > 0 && forall|i: int| 0 <= i < s.len() ==> 48 <= #[trigger] s[i] <= 57
}

/// The number a run of decimal digits holds.
pub open spec fn digits_num(s: Seq<u8>) -> nat
    decreases s,
{
    if s.len() == 0 {
        0
    } else {
        digits_num(s.drop_last()) * 10 + digit_val(s.last())
    }
}

/// The value of one digit byte (zero for a non-digit).
pub open spec fn digit_val(b: u8) -> nat {
    if 48 <= b <= 57 {
        (b - 48) as nat
    } else {
        0
    }
}

/// Whether `s` is a canonical decimal number: digits without a leading
/// zero (except the number zero itself).
pub open spec fn is_canon_num(s: Seq<u8>) -> bool {
    is_digits(s) && (s.len() == 1 || s[0] != 48)
}

/// The digits of a number are canonical and hold it back.
pub proof fn lemma_dec_digits_canon(n: nat)
    ensures
        is_canon_num(dec_digits(n)),
        digits_num(dec_digits(n)) == n,
        dec_digits(n).len() >= 1,
        dec_digits(n)[0] != 48 || n < 10,
    decreases n,
{
    if n < 10 {
        assert(dec_digits(n) == seq![(48 + n) as u8]);
        assert(dec_digits(n).drop_last() =~= Seq::<u8>::empty());
        assert(digits_num(Seq::<u8>::empty()) == 0);
        assert(dec_digits(n).last() == (48 + n) as u8);
        assert(digit_val((48 + n) as u8) == n);
    } else {
        vstd::arithmetic::div_mod::lemma_fundamental_div_mod(n as int, 10);
        lemma_dec_digits_canon(n / 10);
        let s = dec_digits(n);
        assert(s == dec_digits(n / 10).push((48 + n % 10) as u8));
        assert(s.drop_last() =~= dec_digits(n / 10));
        assert(s.last() == (48 + n % 10) as u8);
        assert(digit_val(s.last()) == n % 10);
        assert(digits_num(s) == (n / 10) * 10 + n % 10);
        assert(forall|i: int| 0 <= i < s.len() - 1 ==> s[i] == #[trigger] dec_digits(
            n / 10)[i]);
        assert(s[0] == dec_digits(n / 10)[0]);
        if n / 10 < 10 {
            assert(dec_digits(n / 10) == seq![(48 + n / 10) as u8]);
            assert(n / 10 >= 1);
        }
    }
}

/// The bytes of the `systemd` address form.
pub open spec fn systemd_name() -> Seq<u8> {
    seq![0x73u8, 0x79, 0x73, 0x74, 0x65, 0x6d, 0x64]
}

/// The bytes of the `systemd#` prefix.
pub open spec fn systemd_prefix() -> Seq<u8> {
    systemd_name() + seq![0x23u8]
}

/// The first position of `c` at or after `from`, or `-1`.
pub open spec fn idx_of(s: Seq<u8>, c: u8, from: int) -> int
    decreases s.len() - from,
        when 0 <= from <= s.len()
{
    if from >= s.len() {
        -1
    } else if s[from] == c {
        from
    } else {
        idx_of(s, c, from + 1)
    }
}

/// `idx_of` finds the first occurrence, and only of present bytes.
pub proof fn lemma_idx_of(s: Seq<u8>, c: u8, from: int)
    requires
        0 <= from <= s.len(),
    ensures
        idx_of(s, c, from) < 0 ==> forall|i: int| from <= i < s.len()
            ==> #[trigger] s[i] != c,
        idx_of(s, c, from) >= 0 ==> {
            &&& from <= idx_of(s, c, from) < s.len()
            &&& s[idx_of(s, c, from)] == c
            &&& forall|i: int| from <= i < idx_of(s, c, from) ==> #[trigger] s[i] != c
        },
    decreases s.len() - from,
{
    if from < s.len() && s[from] != c {
        lemma_idx_of(s, c, from + 1);
    }
}

/// Parse a listen address.
///
/// `systemd` is the first inherited listener; `systemd#N` with a
/// canonical `N` of at least 1 (and at most the machine's word range)
/// is the `N`-th, one-based; `a.b.c.d:port` with canonical octets up
/// to 255 and a canonical port up to 65535 is a TCP address. Anything
/// else — `systemd#0` included — is rejected.
pub open spec fn parse_addr_spec(s: Seq<u8>) -> Option<SocketListenAddr> {
    if s == systemd_name() {
        Option::Some(SocketListenAddr::SystemdFd(0))
    } else if s.len() > 8 && s.take(8) == systemd_prefix() {
        let digits = s.skip(8);
        if is_canon_num(digits) && 1 <= digits_num(digits) <= usize::MAX {
            Option::Some(SocketListenAddr::SystemdFd((digits_num(digits) - 1) as usize))
        } else {
            Option::None
        }
    } else {
        parse_v4_spec(s)
    }
}

/// Parse `a.b.c.d:port`.
pub open spec fn parse_v4_spec(s: Seq<u8>) -> Option<SocketListenAddr> {
    let i1 = idx_of(s, 46, 0);
    if i1 < 0 {
        Option::None
    } else {
        let i2 = idx_of(s, 46, i1 + 1);
        if i2 < 0 {
            Option::None
        } else {
            let i3 = idx_of(s, 46, i2 + 1);
            if i3 < 0 {
                Option::None
            } else {
                let i4 = idx_of(s, 58, i3 + 1);
                if i4 < 0 {
                    Option::None
                } else {
                    let oa = s.take(i1);
                    let ob = s.subrange(i1 + 1, i2);
                    let oc = s.subrange(i2 + 1, i3);
                    let od = s.subrange(i3 + 1, i4);
                    let op = s.skip(i4 + 1);
                    if is_canon_num(oa) && digits_num(oa) <= 255
                        && is_canon_num(ob) && digits_num(ob) <= 255
                        && is_canon_num(oc) && digits_num(oc) <= 255
                        && is_canon_num(od) && digits_num(od) <= 255
                        && idx_of(od, 58, 0) < 0
                        && is_canon_num(op) && digits_num(op) <= 65535 {
                        Option::Some(SocketListenAddr::tcp(
                            digits_num(oa) as u8,
                            digits_num(ob) as u8,
                            digits_num(oc) as u8,
                            digits_num(od) as u8,
                            digits_num(op) as u16,
                        ))
                    } else {
                        Option::None
                    }
                }
            }
        }
    }
}

/// Parse a canonical decimal run in `s` from `a` (inclusive) to `b`
/// (exclusive), bounded by `max`.
fn parse_num(s: &Vec<u8>, a: usize, b: usize, max: u64) -> (r: Option<u64>)
    requires
        a <= b <= s@.len(),
    ensures
        ({
            let t = s@.subrange(a as int, b as int);
            match r {
                Option::Some(v) => is_canon_num(t) && digits_num(t) == v && v <= max,
                Option::None => !(is_canon_num(t) && digits_num(t) <= max),
            }
        }),
{
    let ghost t = s@.subrange(a as int, b as int);
    if a == b {
        return None;
    }
    if s[a] == 48 && b - a > 1 {
        return None;
    }
    let mut v: u64 = 0;
    let mut i: usize = a;
    while i < b
        invariant
            a <= i <= b <= s@.len(),
            t == s@.subrange(a as int, b as int),
            t.len() == b - a,
            forall|j: int| 0 <= j < t.len() ==> t[j] == s@[a + j],
            forall|j: int| a <= j < i ==> 48 <= #[trigger] s@[j] <= 57,
            v == digits_num(t.take(i - a)),
            v <= max,
        decreases b - i,
    {
        let ch = s[i];
        if ch < 48 || ch > 57 {
            proof {
                assert(t[i - a] == s@[i as int]);
                assert(!is_digits(t));
            }
            return None;
        }
        let d = (ch - 48) as u64;
        proof {
            assert(t.take(i + 1 - a).drop_last() =~= t.take(i - a));
            assert(t.take(i + 1 - a).last() == t[i - a]);
            assert(t[i - a] == s@[i as int]);
            assert(digit_val(t.take(i + 1 - a).last()) == d);
        }
        if d > max || v > (max - d) / 10 {
            // the number exceeds `max`: it can only grow with more digits
            proof {
                lemma_digits_grow(t, i + 1 - a);
                assert(digits_num(t.take(i + 1 - a)) > max);
            }
            return None;
        }
        v = v * 10 + d;
        i = i + 1;
    }
    proof {
        assert(t.take(b - a) =~= t);
        assert(is_digits(t)) by {
            assert(forall|j: int| 0 <= j < t.len() ==> t[j] == s@[a + j]);
        }
    }
    Some(v)
}

/// A digit run's value only grows as digits are appended.
proof fn lemma_digits_grow(t: Seq<u8>, k: int)
    requires
        0 <= k <= t.len(),
    ensures
        digits_num(t) >= digits_num(t.take(k)),
    decreases t.len(),
{
    if t.len() > k {
        lemma_digits_grow(t.drop_last(), k);
        assert(t.drop_last().take(k) =~= t.take(k));
    } else {
        assert(t.take(k) =~= t);
    }
}

/// Parse a listen address out of its bytes.
pub fn parse_listen_addr(s: &Vec<u8>) -> (r: Option<SocketListenAddr>)
    ensures
        r == parse_addr_spec(s@),
{
    proof {
        vstd::arithmetic::power2::lemma2_to64();
    }
    // systemd forms
    if is_systemd_name(s) {
        return Some(SocketListenAddr::SystemdFd(0));
    }
    if s.len() > 8 && has_systemd_prefix(s) {
        proof { assert(s@.skip(8) =~= s@.subrange(8, s@.len() as int)); }
        match parse_num(s, 8, s.len(), usize::MAX as u64) {
            Option::Some(v) => {
                if v >= 1 {
                    return Some(SocketListenAddr::SystemdFd((v - 1) as usize));
                } else {
                    return None;
                }
            },
            Option::None => {
                return None;
            },
        }
    }
    // a.b.c.d:port
    let i1 = match find_byte(s, 46, 0) {
        Option::Some(i) => i,
        Option::None => { return None; },
    };
    let i2 = match find_byte(s, 46, i1 + 1) {
        Option::Some(i) => i,
        Option::None => { return None; },
    };
    let i3 = match find_byte(s, 46, i2 + 1) {
        Option::Some(i) => i,
        Option::None => { return None; },
    };
    let i4 = match find_byte(s, 58, i3 + 1) {
        Option::Some(i) => i,
        Option::None => { return None; },
    };
    proof {
        assert(s@.take(i1 as int) =~= s@.subrange(0, i1 as int));
        assert(s@.skip(i4 + 1) =~= s@.subrange(i4 + 1, s@.len() as int));
    }
    let oa = match parse_num(s, 0, i1, 255) {
        Option::Some(v) => v,
        Option::None => { return None; },
    };
    let ob = match parse_num(s, i1 + 1, i2, 255) {
        Option::Some(v) => v,
        Option::None => { return None; },
    };
    let oc = match parse_num(s, i2 + 1, i3, 255) {
        Option::Some(v) => v,
        Option::None => { return None; },
    };
    let od = match parse_num(s, i3 + 1, i4, 255) {
        Option::Some(v) => v,
        Option::None => { return None; },
    };
    proof {
        let odt = s@.subrange(i3 + 1, i4 as int);
        lemma_idx_of(odt, 58, 0);
        if idx_of(odt, 58, 0) >= 0 {
            assert(odt[idx_of(odt, 58, 0)] == 58);
            assert(!(48 <= 58 <= 57));
            assert(!is_digits(odt));
            assert(false);
        }
    }
    let op = match parse_num(s, i4 + 1, s.len(), 65535) {
        Option::Some(v) => v,
        Option::None => { return None; },
    };
    Some(SocketListenAddr::SocketAddr(Ipv4Socket {
        a: oa as u8,
        b: ob as u8,
        c: oc as u8,
        d: od as u8,
        port: op as u16,
    }))
}

/// Whether `s` is exactly `systemd`.
fn is_systemd_name(s: &Vec<u8>) -> (r: bool)
    ensures
        r == (s@ == systemd_name()),
{
    if s.len() != 7 {
        proof { assert(s@ != systemd_name()); }
        return false;
    }
    let ok = s[0] == 0x73 && s[1] == 0x79 && s[2] == 0x73 && s[3] == 0x74 && s[4] == 0x65
        && s[5] == 0x6d && s[6] == 0x64;
    proof {
        if ok {
            assert(s@ =~= systemd_name());
        } else {
            assert(s@ != systemd_name());
        }
    }
    ok
}

/// Whether `s` starts with `systemd#`.
fn has_systemd_prefix(s: &Vec<u8>) -> (r: bool)
    requires
        s@.len() >= 8,
    ensures
        r == (s@.take(8) == systemd_prefix()),
{
    let ok = s[0] == 0x73 && s[1] == 0x79 && s[2] == 0x73 && s[3] == 0x74 && s[4] == 0x65
        && s[5] == 0x6d && s[6] == 0x64 && s[7] == 0x23;
    proof {
        if ok {
            assert(s@.take(8) =~= systemd_prefix());
        } else {
            if s@.take(8) == systemd_prefix() {
                assert(s@.take(8)[0] == s@[0] && s@.take(8)[1] == s@[1]
                    && s@.take(8)[2] == s@[2] && s@.take(8)[3] == s@[3]
                    && s@.take(8)[4] == s@[4] && s@.take(8)[5] == s@[5]
                    && s@.take(8)[6] == s@[6] && s@.take(8)[7] == s@[7]);
                assert(systemd_prefix() =~= seq![0x73u8, 0x79, 0x73, 0x74, 0x65, 0x6d,
                    0x64, 0x23]);
                assert(false);
            }
        }
    }
    ok
}

/// Find the first position of `c` at or after `from`.
fn find_byte(s: &Vec<u8>, c: u8, from: usize) -> (r: Option<usize>)
    requires
        from <= s@.len(),
    ensures
        match r {
            Option::Some(i) => from <= i < s@.len() && idx_of(s@, c, from as int) == i,
            Option::None => idx_of(s@, c, from as int) < 0,
        },
{
    proof { lemma_idx_of(s@, c, from as int); }
    let mut i: usize = from;
    while i < s.len()
        invariant
            from <= i <= s@.len(),
            forall|j: int| from <= j < i ==> #[trigger] s@[j] != c,
        decreases s@.len() - i,
    {
        if s[i] == c {
            proof {
                lemma_idx_of(s@, c, from as int);
                assert(idx_of(s@, c, from as int) == i);
            }
            return Some(i);
        }
        i = i + 1;
    }
    proof {
        lemma_idx_of(s@, c, from as int);
    }
    None
}

/// The configuration writing of an address: `a.b.c.d:port`, or
/// `systemd#N` with the one-based index.
pub open spec fn render_addr(addr: SocketListenAddr) -> Seq<u8> {
    match addr {
        SocketListenAddr::SocketAddr(sa) => crate::value::dec_digits(sa.a as nat)
            + seq![46u8] + crate::value::dec_digits(sa.b as nat)
            + seq![46u8] + crate::value::dec_digits(sa.c as nat)
            + seq![46u8] + crate::value::dec_digits(sa.d as nat)
            + seq![58u8] + crate::value::dec_digits(sa.port as nat),
        SocketListenAddr::SystemdFd(n) => systemd_prefix()
            + crate::value::dec_digits((n + 1) as nat),
    }
}

/// The human writing of an address, as the logs show it: the TCP form,
/// or `systemd socket #N` with the zero-based index.
pub open spec fn display_addr(addr: SocketListenAddr) -> Seq<u8> {
    match addr {
        SocketListenAddr::SocketAddr(sa) => render_addr(addr),
        SocketListenAddr::SystemdFd(n) => systemd_socket_words()
            + crate::value::dec_digits(n as nat),
    }
}

/// The words of the human systemd form.
pub open spec fn systemd_socket_words() -> Seq<u8> {
    seq![0x73u8, 0x79, 0x73, 0x74, 0x65, 0x6d, 0x64, 0x20, 0x73, 0x6f, 0x63, 0x6b, 0x65, 0x74, 0x20, 0x23]
}

impl SocketListenAddr {
    /// Write this address in its configuration form.
    pub fn to_config_bytes(&self) -> (r: Vec<u8>)
        requires
            self matches SocketListenAddr::SystemdFd(n) ==> n < usize::MAX,
        ensures
            r@ == render_addr(*self),
    {
        match self {
            SocketListenAddr::SocketAddr(sa) => {
                let mut v = crate::value::u64_dec(sa.a as u64);
                v.push(46);
                let mut p = crate::value::u64_dec(sa.b as u64);
                v.append(&mut p);
                v.push(46);
                let mut p = crate::value::u64_dec(sa.c as u64);
                v.append(&mut p);
                v.push(46);
                let mut p = crate::value::u64_dec(sa.d as u64);
                v.append(&mut p);
                v.push(58);
                let mut p = crate::value::u64_dec(sa.port as u64);
                v.append(&mut p);
                proof { assert(v@ =~= render_addr(*self)); }
                v
            },
            SocketListenAddr::SystemdFd(n) => {
                let mut v: Vec<u8> = Vec::new();
                v.push(0x73); v.push(0x79); v.push(0x73); v.push(0x74); v.push(0x65); v.push(0x6d); v.push(0x64); v.push(0x23);
                let mut p = crate::value::u64_dec((*n + 1) as u64);
                v.append(&mut p);
                proof {
                    assert(v@ =~= render_addr(*self));
                }
                v
            },
        }
    }

    /// Write this address as the logs show it.
    pub fn to_display_bytes(&self) -> (r: Vec<u8>)
        ensures
            r@ == display_addr(*self),
    {
        match self {
            SocketListenAddr::SocketAddr(_) => {
                let r = self.to_config_bytes();
                r
            },
            SocketListenAddr::SystemdFd(n) => {
                let mut v: Vec<u8> = Vec::new();
                v.push(0x73); v.push(0x79); v.push(0x73); v.push(0x74); v.push(0x65); v.push(0x6d); v.push(0x64); v.push(0x20); v.push(0x73); v.push(0x6f); v.push(0x63); v.push(0x6b); v.push(0x65); v.push(0x74); v.push(0x20); v.push(0x23);
                proof { assert(v@ =~= systemd_socket_words()); }
                let mut p = crate::value::u64_dec(*n as u64);
                v.append(&mut p);
                proof { assert(v@ =~= display_addr(*self)); }
                v
            },
        }
    }
}

/// A run of digits holds neither a dot nor a colon.
proof fn lemma_digits_no_sep(s: Seq<u8>)
    requires
        is_digits(s),
    ensures
        forall|i: int| 0 <= i < s.len() ==> #[trigger] s[i] != 46 && s[i] != 58,
{
}

/// In a buffer whose bytes before `p` differ from `c` and whose byte at
/// `p` is `c`, the first occurrence of `c` from `from` is `p`.
proof fn lemma_idx_at(s: Seq<u8>, c: u8, from: int, p: int)
    requires
        0 <= from <= p < s.len(),
        s[p] == c,
        forall|i: int| from <= i < p ==> #[trigger] s[i] != c,
    ensures
        idx_of(s, c, from) == p,
    decreases p - from,
{
    if from < p {
        lemma_idx_at(s, c, from + 1, p);
    }
}

/// The listen-address round trip for a TCP address: writing it in its
/// configuration form and parsing it back preserves every part.
pub proof fn lemma_tcp_round_trip(sa: Ipv4Socket)
    ensures
        parse_addr_spec(render_addr(SocketListenAddr::SocketAddr(sa)))
            == Option::Some(SocketListenAddr::SocketAddr(sa)),
{
    let s = render_addr(SocketListenAddr::SocketAddr(sa));
    let da = dec_digits(sa.a as nat);
    let db = dec_digits(sa.b as nat);
    let dc = dec_digits(sa.c as nat);
    let dd = dec_digits(sa.d as nat);
    let dp = dec_digits(sa.port as nat);
    lemma_dec_digits_canon(sa.a as nat);
    lemma_dec_digits_canon(sa.b as nat);
    lemma_dec_digits_canon(sa.c as nat);
    lemma_dec_digits_canon(sa.d as nat);
    lemma_dec_digits_canon(sa.port as nat);
    lemma_digits_no_sep(da);
    lemma_digits_no_sep(db);
    lemma_digits_no_sep(dc);
    lemma_digits_no_sep(dd);
    lemma_digits_no_sep(dp);
    let i1 = da.len() as int;
    let i2 = i1 + 1 + db.len();
    let i3 = i2 + 1 + dc.len();
    let i4 = i3 + 1 + dd.len();
    assert(s =~= da + seq![46u8] + db + seq![46u8] + dc + seq![46u8] + dd + seq![58u8]
        + dp);
    // not a systemd form: a digit opens the string, `s` opens `systemd`
    assert(s[0] == da[0]);
    assert(48 <= s[0] <= 57);
    assert(systemd_name()[0] == 0x73);
    assert(s != systemd_name());
    if s.len() > 8 && s.take(8) == systemd_prefix() {
        assert(s.take(8)[0] == s[0]);
        assert(systemd_prefix()[0] == 0x73);
        assert(false);
    }
    // the separators stand exactly where the writing put them
    assert(s[i1] == 46 && s[i2] == 46 && s[i3] == 46 && s[i4] == 58);
    lemma_idx_at(s, 46, 0, i1);
    lemma_idx_at(s, 46, i1 + 1, i2);
    lemma_idx_at(s, 46, i2 + 1, i3);
    assert(forall|i: int| i3 + 1 <= i < i4 ==> #[trigger] s[i] != 58);
    lemma_idx_at(s, 58, i3 + 1, i4);
    assert(s.take(i1) =~= da);
    assert(s.subrange(i1 + 1, i2) =~= db);
    assert(s.subrange(i2 + 1, i3) =~= dc);
    assert(s.subrange(i3 + 1, i4) =~= dd);
    assert(s.skip(i4 + 1) =~= dp);
    lemma_idx_of(dd, 58, 0);
    if idx_of(dd, 58, 0) >= 0 {
        assert(dd[idx_of(dd, 58, 0)] == 58);
        assert(false);
    }
}

/// The listen-address round trip: writing an inherited-socket address
/// in its configuration form and parsing it back preserves the index —
/// the one-based writing carries the zero rule, so the index stays
/// within the machine's word range.
pub proof fn lemma_systemd_round_trip(n: usize)
    requires
        n < usize::MAX,
    ensures
        parse_addr_spec(render_addr(SocketListenAddr::SystemdFd(n)))
            == Option::Some(SocketListenAddr::SystemdFd(n)),
{
    let s = render_addr(SocketListenAddr::SystemdFd(n));
    lemma_dec_digits_canon((n + 1) as nat);
    assert(s.len() > 8);
    assert(s != systemd_name());
    assert(s.take(8) =~= systemd_prefix());
    assert(s.skip(8) =~= crate::value::dec_digits((n + 1) as nat));
}

} // verus!
