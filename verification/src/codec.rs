//! Text form of addresses and of the persistence records: decimal and
//! hexadecimal numerals, dotted-decimal IPv4 and bracketed IPv6 hosts, and
//! the line grammar `colour<TAB>url<TAB>last_seen<LF>`.
//!
//! The encoder always writes the full canonical form: every IPv6 group
//! spelled out and a slash before the (possibly empty) path. The decoder
//! reads that form back exactly — the proved round trip — and also accepts
//! the common variations found in files written by other tools: the
//! zero-compressed `::` IPv6 form and a missing path slash.

use vstd::prelude::*;
use vstd::string::StrSliceExecFns;
use vstd::string::StringExecFns;
use crate::addr::{Addr, AddrV, HostAddr, HostAddrV, Ipv4Rep, Ipv6Rep, Transport};
use crate::container::{bview, cap_value, eview, sort_desc, swept, Entry, EntryV, HostColor, HostContainer};

verus! {

// ---------------------------------------------------------------------------
// Digits
// ---------------------------------------------------------------------------

/// The character for one decimal or hexadecimal digit value.
pub open spec fn digit_char(d: nat) -> char {
    if d == 0 {
        '0'
    } else if d == 1 {
        '1'
    } else if d == 2 {
        '2'
    } else if d == 3 {
        '3'
    } else if d == 4 {
        '4'
    } else if d == 5 {
        '5'
    } else if d == 6 {
        '6'
    } else if d == 7 {
        '7'
    } else if d == 8 {
        '8'
    } else if d == 9 {
        '9'
    } else if d == 10 {
        'a'
    } else if d == 11 {
        'b'
    } else if d == 12 {
        'c'
    } else if d == 13 {
        'd'
    } else if d == 14 {
        'e'
    } else if d == 15 {
        'f'
    } else {
        '?'
    }
}

pub open spec fn is_dec_digit(c: char) -> bool {
    '0' <= c && c <= '9'
}

pub open spec fn is_hex_digit(c: char) -> bool {
    ('0' <= c && c <= '9') || ('a' <= c && c <= 'f')
}

/// The value of one digit character, in any base up to 16.
pub open spec fn digit_val(c: char) -> nat {
    if is_dec_digit(c) {
        (c as nat - '0' as nat) as nat
    } else if 'a' <= c && c <= 'f' {
        (c as nat - 'a' as nat + 10) as nat
    } else {
        16
    }
}

/// The decimal numeral of `n`, without leading zeroes.
pub open spec fn dec_str(n: nat) -> Seq<char>
    decreases n,
{
    if n < 10 {
        seq![digit_char(n)]
    } else {
        dec_str(n / 10) + seq![digit_char(n % 10)]
    }
}

/// The hexadecimal numeral of `n`, lowercase, without leading zeroes.
pub open spec fn hex_str(n: nat) -> Seq<char>
    decreases n,
{
    if n < 16 {
        seq![digit_char(n)]
    } else {
        hex_str(n / 16) + seq![digit_char(n % 16)]
    }
}

pub open spec fn all_dec_digits(s: Seq<char>) -> bool {
    forall|i: int| 0 <= i < s.len() ==> is_dec_digit(#[trigger] s[i])
}

pub open spec fn all_hex_digits(s: Seq<char>) -> bool {
    forall|i: int| 0 <= i < s.len() ==> is_hex_digit(#[trigger] s[i])
}

/// The value of a decimal digit string, most significant first.
pub open spec fn dec_val(s: Seq<char>) -> nat
    decreases s.len(),
{
    if s.len() == 0 {
        0
    } else {
        dec_val(s.drop_last()) * 10 + digit_val(s.last())
    }
}

/// The value of a hexadecimal digit string, most significant first.
pub open spec fn hex_val(s: Seq<char>) -> nat
    decreases s.len(),
{
    if s.len() == 0 {
        0
    } else {
        hex_val(s.drop_last()) * 16 + digit_val(s.last())
    }
}

// ---------------------------------------------------------------------------
// Splitting
// ---------------------------------------------------------------------------

/// The first index of `c` in `s`, or -1.
pub open spec fn find_ch(s: Seq<char>, c: char) -> int
    decreases s.len(),
{
    if s.len() == 0 {
        -1
    } else if s[0] == c {
        0
    } else {
        let r = find_ch(s.drop_first(), c);
        if r == -1 {
            -1
        } else {
            r + 1
        }
    }
}

/// The first index of `c` lies in the string, or is -1.
pub proof fn lemma_find_ch_bounds(s: Seq<char>, c: char)
    ensures
        -1 <= find_ch(s, c) < s.len(),
        find_ch(s, c) >= 0 ==> s[find_ch(s, c)] == c,
        forall|j: int| 0 <= j < s.len() && #[trigger] s[j] == c ==> find_ch(s, c) >= 0,
        forall|j: int| 0 <= j < find_ch(s, c) ==> #[trigger] s[j] != c,
        find_ch(s, c) == -1 ==> forall|j: int| 0 <= j < s.len() ==> #[trigger] s[j] != c,
    decreases s.len(),
{
    if s.len() > 0 && s[0] != c {
        let t = s.drop_first();
        lemma_find_ch_bounds(t, c);
        assert(forall|k: int| 0 <= k < t.len() ==> #[trigger] t[k] == s[k + 1]);
        let r = find_ch(t, c);
        if r == -1 {
            assert(forall|j: int| 1 <= j < s.len() ==> #[trigger] s[j] == t[j - 1]);
        } else {
            assert(find_ch(s, c) == r + 1);
            assert(s[r + 1] == t[r]);
            assert forall|j: int| 0 <= j < find_ch(s, c) implies #[trigger] s[j] != c by {
                if j > 0 {
                    assert(s[j] == t[j - 1]);
                }
            }
        }
    }
}

/// The pieces of `s` between occurrences of `c`; always at least one piece.
pub open spec fn split_ch(s: Seq<char>, c: char) -> Seq<Seq<char>>
    decreases s.len(),
    via split_ch_decreases
{
    let i = find_ch(s, c);
    if i == -1 {
        seq![s]
    } else {
        seq![s.take(i)] + split_ch(s.skip(i + 1), c)
    }
}

#[via_fn]
proof fn split_ch_decreases(s: Seq<char>, c: char) {
    lemma_find_ch_bounds(s, c);
}

// ---------------------------------------------------------------------------
// IPv4 text
// ---------------------------------------------------------------------------

/// One dotted-decimal group: one to three digits whose value is at most 255.
pub open spec fn ipv4_group_ok(g: Seq<char>) -> bool {
    1 <= g.len() && g.len() <= 3 && all_dec_digits(g) && dec_val(g) <= 255
}

/// Dotted-decimal IPv4 text, read strictly: exactly four groups.
pub open spec fn spec_parse_ipv4(s: Seq<char>) -> Option<crate::addr::Ipv4Rep> {
    let parts = split_ch(s, '.');
    if parts.len() == 4 && ipv4_group_ok(parts[0]) && ipv4_group_ok(parts[1]) && ipv4_group_ok(
        parts[2],
    ) && ipv4_group_ok(parts[3]) {
        Option::Some(
            crate::addr::Ipv4Rep {
                o0: dec_val(parts[0]) as u8,
                o1: dec_val(parts[1]) as u8,
                o2: dec_val(parts[2]) as u8,
                o3: dec_val(parts[3]) as u8,
            },
        )
    } else {
        Option::None
    }
}

// ---------------------------------------------------------------------------
// Rendering
// ---------------------------------------------------------------------------

/// Dotted-decimal text of an IPv4 host.
pub open spec fn ipv4_text(ip: crate::addr::Ipv4Rep) -> Seq<char> {
    dec_str(ip.o0 as nat) + seq!['.'] + dec_str(ip.o1 as nat) + seq!['.'] + dec_str(ip.o2 as nat)
        + seq!['.'] + dec_str(ip.o3 as nat)
}

/// Bracketed full-form text of an IPv6 host: eight lowercase hexadecimal
/// groups without leading zeroes.
pub open spec fn ipv6_text(ip: crate::addr::Ipv6Rep) -> Seq<char> {
    seq!['['] + hex_str(ip.s0 as nat) + seq![':'] + hex_str(ip.s1 as nat) + seq![':'] + hex_str(
        ip.s2 as nat,
    ) + seq![':'] + hex_str(ip.s3 as nat) + seq![':'] + hex_str(ip.s4 as nat) + seq![':']
        + hex_str(ip.s5 as nat) + seq![':'] + hex_str(ip.s6 as nat) + seq![':'] + hex_str(
        ip.s7 as nat,
    ) + seq![']']
}

/// Text of a host part.
pub open spec fn host_text(h: crate::addr::HostAddrV) -> Seq<char> {
    match h {
        crate::addr::HostAddrV::Domain(d) => d,
        crate::addr::HostAddrV::Ip4(ip) => ipv4_text(ip),
        crate::addr::HostAddrV::Ip6(ip) => ipv6_text(ip),
    }
}

/// The `host:port` text a SOCKS5 proxy is asked to reach.
pub open spec fn hostport_text(a: crate::addr::AddrV) -> Seq<char> {
    (match a.host {
        Option::Some(h) => host_text(h),
        Option::None => Seq::<char>::empty(),
    }) + seq![':'] + (match a.port {
        Option::Some(p) => dec_str(p as nat),
        Option::None => Seq::<char>::empty(),
    })
}

/// One digit as a string slice.
fn digit_string(d: u8) -> (r: &'static str)
    requires
        d < 16,
    ensures
        r@ == seq![digit_char(d as nat)],
{
    let r: &'static str = match d {
        0 => "0",
        1 => "1",
        2 => "2",
        3 => "3",
        4 => "4",
        5 => "5",
        6 => "6",
        7 => "7",
        8 => "8",
        9 => "9",
        10 => "a",
        11 => "b",
        12 => "c",
        13 => "d",
        14 => "e",
        _ => "f",
    };
    proof {
        reveal_strlit("0");
        reveal_strlit("1");
        reveal_strlit("2");
        reveal_strlit("3");
        reveal_strlit("4");
        reveal_strlit("5");
        reveal_strlit("6");
        reveal_strlit("7");
        reveal_strlit("8");
        reveal_strlit("9");
        reveal_strlit("a");
        reveal_strlit("b");
        reveal_strlit("c");
        reveal_strlit("d");
        reveal_strlit("e");
        reveal_strlit("f");
        assert(r@ =~= seq![digit_char(d as nat)]);
    }
    r
}

/// Append the decimal numeral of `n`.
pub fn push_dec_u64(out: &mut String, n: u64)
    ensures
        final(out)@ == old(out)@ + dec_str(n as nat),
    decreases n,
{
    if n < 10 {
        out.append(digit_string(n as u8));
    } else {
        push_dec_u64(out, n / 10);
        out.append(digit_string((n % 10) as u8));
        proof {
            assert(out@ =~= old(out)@ + dec_str(n as nat));
        }
    }
}

/// The decimal numeral of `n`.
pub fn dec_string(n: u64) -> (r: String)
    ensures
        r@ == dec_str(n as nat),
{
    let mut out = String::new();
    push_dec_u64(&mut out, n);
    proof {
        assert(out@ =~= dec_str(n as nat));
    }
    out
}

/// Append the hexadecimal numeral of `n`.
fn push_hex_u16(out: &mut String, n: u16)
    ensures
        final(out)@ == old(out)@ + hex_str(n as nat),
    decreases n,
{
    if n < 16 {
        out.append(digit_string(n as u8));
    } else {
        push_hex_u16(out, n / 16);
        out.append(digit_string((n % 16) as u8));
        proof {
            assert(out@ =~= old(out)@ + hex_str(n as nat));
        }
    }
}

/// Append the text of a host part.
pub fn push_host(out: &mut String, h: &crate::addr::HostAddr)
    ensures
        final(out)@ == old(out)@ + host_text(h@),
{
    match h {
        crate::addr::HostAddr::Domain(d) => {
            out.append(d.as_str());
        },
        crate::addr::HostAddr::Ip4(ip) => {
            push_dec_u64(out, ip.o0 as u64);
            out.append(".");
            push_dec_u64(out, ip.o1 as u64);
            out.append(".");
            push_dec_u64(out, ip.o2 as u64);
            out.append(".");
            push_dec_u64(out, ip.o3 as u64);
            proof {
                reveal_strlit(".");
                assert(out@ =~= old(out)@ + host_text(h@));
            }
        },
        crate::addr::HostAddr::Ip6(ip) => {
            out.append("[");
            push_hex_u16(out, ip.s0);
            out.append(":");
            push_hex_u16(out, ip.s1);
            out.append(":");
            push_hex_u16(out, ip.s2);
            out.append(":");
            push_hex_u16(out, ip.s3);
            out.append(":");
            push_hex_u16(out, ip.s4);
            out.append(":");
            push_hex_u16(out, ip.s5);
            out.append(":");
            push_hex_u16(out, ip.s6);
            out.append(":");
            push_hex_u16(out, ip.s7);
            out.append("]");
            proof {
                reveal_strlit("[");
                reveal_strlit(":");
                reveal_strlit("]");
                assert(out@ =~= old(out)@ + host_text(h@));
            }
        },
    }
}

/// The `host:port` string handed to a SOCKS5 proxy.
pub fn hostport_string(addr: &crate::addr::Addr) -> (r: String)
    ensures
        r@ == hostport_text(addr@),
{
    let mut out = String::new();
    match &addr.host {
        Option::Some(h) => push_host(&mut out, h),
        Option::None => {},
    }
    out.append(":");
    match addr.port {
        Option::Some(p) => push_dec_u64(&mut out, p as u64),
        Option::None => {},
    }
    proof {
        reveal_strlit(":");
        assert(out@ =~= hostport_text(addr@));
    }
    out
}

// ---------------------------------------------------------------------------
// Numeral facts
// ---------------------------------------------------------------------------

/// Reading back a printed digit gives the digit.
pub proof fn lemma_digit_roundtrip(d: nat)
    requires
        d < 16,
    ensures
        digit_val(digit_char(d)) == d,
        d < 10 ==> is_dec_digit(digit_char(d)),
        is_hex_digit(digit_char(d)),
{
}

/// Reading back a decimal numeral gives the number; the numeral is nonempty
/// and all digits.
pub proof fn lemma_dec_roundtrip(n: nat)
    ensures
        dec_val(dec_str(n)) == n,
        dec_str(n).len() >= 1,
        all_dec_digits(dec_str(n)),
    decreases n,
{
    if n < 10 {
        lemma_digit_roundtrip(n);
        let w = dec_str(n);
        assert(w == seq![digit_char(n)]);
        assert(w.drop_last() =~= Seq::<char>::empty());
        assert(dec_val(w.drop_last()) == 0);
        assert(w.last() == digit_char(n));
        assert(dec_val(w) == digit_val(digit_char(n)));
    } else {
        lemma_dec_roundtrip(n / 10);
        lemma_digit_roundtrip(n % 10);
        let w = dec_str(n / 10) + seq![digit_char(n % 10)];
        assert(w.drop_last() =~= dec_str(n / 10));
        assert(w.last() == digit_char(n % 10));
        assert(dec_val(w) == dec_val(dec_str(n / 10)) * 10 + (n % 10));
        assert(all_dec_digits(w)) by {
            assert(forall|i: int|
                0 <= i < dec_str(n / 10).len() ==> w[i] == #[trigger] dec_str(n / 10)[i]);
        }
    }
}

/// Reading back a hexadecimal numeral gives the number.
pub proof fn lemma_hex_roundtrip(n: nat)
    ensures
        hex_val(hex_str(n)) == n,
        hex_str(n).len() >= 1,
        all_hex_digits(hex_str(n)),
    decreases n,
{
    if n < 16 {
        lemma_digit_roundtrip(n);
        let w = hex_str(n);
        assert(w == seq![digit_char(n)]);
        assert(w.drop_last() =~= Seq::<char>::empty());
        assert(hex_val(w.drop_last()) == 0);
        assert(w.last() == digit_char(n));
        assert(hex_val(w) == digit_val(digit_char(n)));
    } else {
        lemma_hex_roundtrip(n / 16);
        lemma_digit_roundtrip(n % 16);
        let w = hex_str(n / 16) + seq![digit_char(n % 16)];
        assert(w.drop_last() =~= hex_str(n / 16));
        assert(w.last() == digit_char(n % 16));
        assert(hex_val(w) == hex_val(hex_str(n / 16)) * 16 + (n % 16));
        assert(all_hex_digits(w)) by {
            assert(forall|i: int|
                0 <= i < hex_str(n / 16).len() ==> w[i] == #[trigger] hex_str(n / 16)[i]);
        }
    }
}

/// Small numbers have short numerals.
pub proof fn lemma_dec_str_len(n: nat)
    ensures
        n < 10 ==> dec_str(n).len() == 1,
        n < 100 ==> dec_str(n).len() <= 2,
        n < 1000 ==> dec_str(n).len() <= 3,
    decreases n,
{
    if n >= 10 {
        lemma_dec_str_len(n / 10);
    }
}

/// Hexadecimal numerals of sixteen-bit values have at most four digits.
pub proof fn lemma_hex_str_len(n: nat)
    ensures
        n < 16 ==> hex_str(n).len() == 1,
        n < 256 ==> hex_str(n).len() <= 2,
        n < 4096 ==> hex_str(n).len() <= 3,
        n < 65536 ==> hex_str(n).len() <= 4,
    decreases n,
{
    if n >= 16 {
        lemma_hex_str_len(n / 16);
    }
}

// ---------------------------------------------------------------------------
// Splitting facts
// ---------------------------------------------------------------------------

/// The first `c` of `u + v` is where `v` begins, when `u` is `c`-free and `v`
/// starts with `c`.
pub proof fn lemma_find_ch_concat(u: Seq<char>, v: Seq<char>, c: char)
    requires
        forall|i: int| 0 <= i < u.len() ==> #[trigger] u[i] != c,
        v.len() > 0,
        v[0] == c,
    ensures
        find_ch(u + v, c) == u.len(),
    decreases u.len(),
{
    let w = u + v;
    if u.len() == 0 {
        assert(w =~= v);
    } else {
        assert(w[0] == u[0]);
        assert(w.drop_first() =~= u.drop_first() + v);
        lemma_find_ch_concat(u.drop_first(), v, c);
    }
}

/// A `c`-free string has no first `c`.
pub proof fn lemma_find_ch_none(u: Seq<char>, c: char)
    requires
        forall|i: int| 0 <= i < u.len() ==> #[trigger] u[i] != c,
    ensures
        find_ch(u, c) == -1,
    decreases u.len(),
{
    if u.len() > 0 {
        assert(forall|i: int|
            0 <= i < u.drop_first().len() ==> #[trigger] u.drop_first()[i] == u[i + 1]);
        lemma_find_ch_none(u.drop_first(), c);
    }
}

/// Splitting a `c`-free string gives one piece.
pub proof fn lemma_split_ch_whole(u: Seq<char>, c: char)
    requires
        forall|i: int| 0 <= i < u.len() ==> #[trigger] u[i] != c,
    ensures
        split_ch(u, c) == seq![u],
{
    lemma_find_ch_none(u, c);
}

/// Splitting peels a `c`-free head piece.
pub proof fn lemma_split_ch_concat(u: Seq<char>, v: Seq<char>, c: char)
    requires
        forall|i: int| 0 <= i < u.len() ==> #[trigger] u[i] != c,
    ensures
        split_ch(u + seq![c] + v, c) == seq![u] + split_ch(v, c),
{
    let w = u + seq![c] + v;
    assert((seq![c] + v)[0] == c);
    lemma_find_ch_concat(u, seq![c] + v, c);
    assert(w =~= u + (seq![c] + v));
    assert(find_ch(w, c) == u.len());
    assert(w.take(u.len() as int) =~= u);
    assert(w.skip(u.len() as int + 1) =~= v);
}

// ---------------------------------------------------------------------------
// Reading addresses back
// ---------------------------------------------------------------------------

/// A decimal port field: nonempty digits valued at most 65535.
pub open spec fn spec_parse_port(s: Seq<char>) -> Option<u16> {
    if s.len() > 0 && all_dec_digits(s) && dec_val(s) <= 65535 {
        Option::Some(dec_val(s) as u16)
    } else {
        Option::None
    }
}

/// A decimal `last_seen` field: nonempty digits that fit in 64 bits.
pub open spec fn spec_parse_u64(s: Seq<char>) -> Option<u64> {
    if s.len() > 0 && all_dec_digits(s) && dec_val(s) <= u64::MAX {
        Option::Some(dec_val(s) as u64)
    } else {
        Option::None
    }
}

/// One bracketed IPv6 group: one to four lowercase hexadecimal digits.
pub open spec fn ipv6_group_ok(g: Seq<char>) -> bool {
    1 <= g.len() && g.len() <= 4 && all_hex_digits(g)
}

/// The first index where two colons stand together, or -1.
pub open spec fn find_dc(s: Seq<char>) -> int
    decreases s.len(),
{
    if s.len() < 2 {
        -1
    } else if s[0] == ':' && s[1] == ':' {
        0
    } else {
        let r = find_dc(s.drop_first());
        if r == -1 {
            -1
        } else {
            r + 1
        }
    }
}

/// A double colon stands inside the string, or there is none.
pub proof fn lemma_find_dc(s: Seq<char>)
    ensures
        -1 <= find_dc(s) < s.len() - 1 || find_dc(s) == -1,
        find_dc(s) >= 0 ==> find_dc(s) + 1 < s.len() && s[find_dc(s)] == ':' && s[find_dc(s) + 1]
            == ':',
        forall|j: int|
            0 <= j < find_dc(s) ==> !(#[trigger] s[j] == ':' && s[j + 1] == ':'),
        find_dc(s) == -1 ==> forall|j: int|
            0 <= j < s.len() - 1 ==> !(#[trigger] s[j] == ':' && s[j + 1] == ':'),
        forall|j: int|
            0 <= j < s.len() - 1 && #[trigger] s[j] == ':' && s[j + 1] == ':' ==> find_dc(s) >= 0,
    decreases s.len(),
{
    if s.len() >= 2 && !(s[0] == ':' && s[1] == ':') {
        let t = s.drop_first();
        lemma_find_dc(t);
        assert(forall|k: int| 0 <= k < t.len() ==> #[trigger] t[k] == s[k + 1]);
        let r = find_dc(t);
        if r == -1 {
            assert forall|j: int|
                0 <= j < s.len() - 1 implies !(#[trigger] s[j] == ':' && s[j + 1] == ':') by {
                if j > 0 {
                    assert(s[j] == t[j - 1] && s[j + 1] == t[j]);
                }
            }
        } else {
            assert forall|j: int|
                0 <= j < find_dc(s) implies !(#[trigger] s[j] == ':' && s[j + 1] == ':') by {
                if j > 0 {
                    assert(s[j] == t[j - 1] && s[j + 1] == t[j]);
                }
            }
        }
    }
}

/// No two colons stand together.
pub open spec fn no_double_colon(s: Seq<char>) -> bool {
    forall|j: int| 0 <= j < s.len() - 1 ==> !(#[trigger] s[j] == ':' && s[j + 1] == ':')
}

/// Putting a nonempty hexadecimal group and a colon before a string that
/// starts with a hexadecimal digit keeps colons apart.
proof fn lemma_nac_prepend(g: Seq<char>, rest: Seq<char>)
    requires
        g.len() > 0,
        all_hex_digits(g),
        rest.len() > 0,
        is_hex_digit(rest[0]),
        no_double_colon(rest),
    ensures
        no_double_colon(g + seq![':'] + rest),
        (g + seq![':'] + rest).len() > 0,
        is_hex_digit((g + seq![':'] + rest)[0]),
{
    let w = g + seq![':'] + rest;
    let gl = g.len() as int;
    assert forall|j: int| 0 <= j < w.len() - 1 implies !(#[trigger] w[j] == ':' && w[j + 1]
        == ':') by {
        if j < gl {
            assert(w[j] == g[j]);
            assert(is_hex_digit(g[j]));
        } else if j == gl {
            assert(w[j + 1] == rest[0]);
        } else {
            assert(w[j] == rest[j - gl - 1]);
            assert(w[j + 1] == rest[j - gl]);
        }
    }
    assert(w[0] == g[0]);
}

/// The sixteen-bit group values of a list of group texts.
pub open spec fn gvals(parts: Seq<Seq<char>>) -> Seq<u16> {
    Seq::new(parts.len(), |i: int| hex_group_val(parts[i]))
}

/// All pieces are well-formed groups.
pub open spec fn groups_ok(parts: Seq<Seq<char>>) -> bool {
    forall|i: int| 0 <= i < parts.len() ==> ipv6_group_ok(#[trigger] parts[i])
}

/// An address from eight group values.
pub open spec fn rep_of(g: Seq<u16>) -> crate::addr::Ipv6Rep {
    crate::addr::Ipv6Rep {
        s0: g[0],
        s1: g[1],
        s2: g[2],
        s3: g[3],
        s4: g[4],
        s5: g[5],
        s6: g[6],
        s7: g[7],
    }
}

/// The groups of one side of a `::`: none for an empty side.
pub open spec fn side_groups(t: Seq<char>) -> Seq<Seq<char>> {
    if t.len() == 0 {
        Seq::<Seq<char>>::empty()
    } else {
        split_ch(t, ':')
    }
}

/// The eight group values a compressed form denotes: the left side, zeros
/// for the `::`, then the right side.
pub open spec fn compressed_groups(lp: Seq<Seq<char>>, rp: Seq<Seq<char>>) -> Seq<u16> {
    gvals(lp) + Seq::new((8 - lp.len() - rp.len()) as nat, |i: int| 0u16) + gvals(rp)
}

/// Bracket-less IPv6 text: eight hexadecimal groups, or fewer with one `::`
/// standing for the missing zero groups, as the common compressed form has
/// it.
pub open spec fn spec_parse_ipv6(s: Seq<char>) -> Option<crate::addr::Ipv6Rep> {
    let dc = find_dc(s);
    if dc == -1 {
        let parts = split_ch(s, ':');
        if parts.len() == 8 && groups_ok(parts) {
            Option::Some(rep_of(gvals(parts)))
        } else {
            Option::None
        }
    } else {
        let lp = side_groups(s.take(dc));
        let rp = side_groups(s.skip(dc + 2));
        if groups_ok(lp) && groups_ok(rp) && lp.len() + rp.len() <= 7 {
            Option::Some(rep_of(compressed_groups(lp, rp)))
        } else {
            Option::None
        }
    }
}

/// The sixteen-bit value of a short hexadecimal group.
pub open spec fn hex_group_val(g: Seq<char>) -> u16 {
    if hex_val(g) <= 65535 {
        hex_val(g) as u16
    } else {
        0
    }
}

/// A host field: a bracket-free name is an IPv4 address when it has
/// dotted-decimal shape, otherwise a domain of permitted characters.
pub open spec fn spec_decode_host(s: Seq<char>) -> Option<crate::addr::HostAddrV> {
    if s.len() == 0 {
        Option::None
    } else {
        match spec_parse_ipv4(s) {
            Option::Some(ip) => Option::Some(crate::addr::HostAddrV::Ip4(ip)),
            Option::None => if forall|i: int|
                0 <= i < s.len() ==> crate::addr::host_char_ok(#[trigger] s[i]) {
                Option::Some(crate::addr::HostAddrV::Domain(s))
            } else {
                Option::None
            },
        }
    }
}

/// An authority field: empty, a bracketed IPv6 host, or a host, each with an
/// optional `:port`.
pub open spec fn spec_decode_auth(s: Seq<char>) -> Option<(Option<crate::addr::HostAddrV>, Option<
    u16,
>)> {
    if s.len() == 0 {
        Option::Some((Option::None, Option::None))
    } else if s[0] == '[' {
        let k = find_ch(s, ']');
        if k < 1 {
            Option::None
        } else {
            match spec_parse_ipv6(s.subrange(1, k)) {
                Option::None => Option::None,
                Option::Some(ip) => {
                    let after = s.skip(k + 1);
                    if after.len() == 0 {
                        Option::Some((Option::Some(crate::addr::HostAddrV::Ip6(ip)), Option::None))
                    } else if after[0] == ':' {
                        match spec_parse_port(after.drop_first()) {
                            Option::Some(p) => Option::Some(
                                (Option::Some(crate::addr::HostAddrV::Ip6(ip)), Option::Some(p)),
                            ),
                            Option::None => Option::None,
                        }
                    } else {
                        Option::None
                    }
                },
            }
        }
    } else {
        let k = find_ch(s, ':');
        if k == -1 {
            match spec_decode_host(s) {
                Option::Some(h) => Option::Some((Option::Some(h), Option::None)),
                Option::None => Option::None,
            }
        } else {
            match (spec_decode_host(s.take(k)), spec_parse_port(s.skip(k + 1))) {
                (Option::Some(h), Option::Some(p)) => Option::Some(
                    (Option::Some(h), Option::Some(p)),
                ),
                _ => Option::None,
            }
        }
    }
}

/// An address in its canonical text form: `scheme://host[:port]/path`.
pub open spec fn spec_decode_addr(s: Seq<char>) -> Option<crate::addr::AddrV> {
    let i = find_ch(s, ':');
    if i < 0 || !crate::addr::wf_scheme_chars(s.take(i)) {
        Option::None
    } else if !(i + 3 <= s.len() && s[i + 1] == '/' && s[i + 2] == '/') {
        Option::None
    } else {
        let rest = s.skip(i + 3);
        let j = find_ch(rest, '/');
        if j < 0 {
            spec_decode_tail(s.take(i), rest, Seq::<char>::empty())
        } else {
            spec_decode_tail(s.take(i), rest.take(j), rest.skip(j + 1))
        }
    }
}

/// An address from its already separated scheme, authority and path texts.
pub open spec fn spec_decode_tail(scheme: Seq<char>, auth: Seq<char>, path: Seq<char>) -> Option<
    crate::addr::AddrV,
> {
    if !(forall|k: int| 0 <= k < path.len() ==> crate::addr::path_char_ok(#[trigger] path[k])) {
        Option::None
    } else {
        match spec_decode_auth(auth) {
            Option::None => Option::None,
            Option::Some((host, port)) => if port is Some && host is None {
                Option::None
            } else {
                Option::Some(
                    crate::addr::AddrV {
                        scheme: crate::addr::spec_transport_of(scheme),
                        host,
                        port,
                        path,
                    },
                )
            },
        }
    }
}

/// The canonical text of an address.
pub open spec fn addr_text(a: crate::addr::AddrV) -> Seq<char> {
    crate::addr::transport_name(a.scheme) + "://"@ + (match a.host {
        Option::Some(h) => host_text(h),
        Option::None => Seq::<char>::empty(),
    }) + (match a.port {
        Option::Some(p) => seq![':'] + dec_str(p as nat),
        Option::None => Seq::<char>::empty(),
    }) + seq!['/'] + a.path
}

// ---------------------------------------------------------------------------
// The text of a well-formed address reads back to the address
// ---------------------------------------------------------------------------

/// The scheme word of a well-formed transport is itself well formed and
/// names that transport back.
pub proof fn lemma_transport_name_inverse(t: crate::addr::TransportV)
    requires
        crate::addr::wf_transport(t),
    ensures
        crate::addr::wf_scheme_chars(crate::addr::transport_name(t)),
        crate::addr::spec_transport_of(crate::addr::transport_name(t)) == t,
{
    reveal_strlit("tcp");
    reveal_strlit("tcp+tls");
    reveal_strlit("tor");
    reveal_strlit("tor+tls");
    reveal_strlit("i2p");
    reveal_strlit("i2p+tls");
    reveal_strlit("nym");
    reveal_strlit("nym+tls");
    reveal_strlit("socks5");
    reveal_strlit("socks5+tls");
    reveal_strlit("unix");
    assert("tcp"@ =~= seq!['t', 'c', 'p']);
    assert("tcp+tls"@ =~= seq!['t', 'c', 'p', '+', 't', 'l', 's']);
    assert("tor"@ =~= seq!['t', 'o', 'r']);
    assert("tor+tls"@ =~= seq!['t', 'o', 'r', '+', 't', 'l', 's']);
    assert("i2p"@ =~= seq!['i', '2', 'p']);
    assert("i2p+tls"@ =~= seq!['i', '2', 'p', '+', 't', 'l', 's']);
    assert("nym"@ =~= seq!['n', 'y', 'm']);
    assert("nym+tls"@ =~= seq!['n', 'y', 'm', '+', 't', 'l', 's']);
    assert("socks5"@ =~= seq!['s', 'o', 'c', 'k', 's', '5']);
    assert("socks5+tls"@ =~= seq!['s', 'o', 'c', 'k', 's', '5', '+', 't', 'l', 's']);
    assert("unix"@ =~= seq!['u', 'n', 'i', 'x']);
    match t {
        crate::addr::TransportV::Other(w) => {
        },
        _ => {
            let name = crate::addr::transport_name(t);
            assert(crate::addr::wf_scheme_chars(name)) by {
                assert forall|i: int|
                    0 <= i < name.len() implies crate::addr::scheme_char_ok(
                    #[trigger] name[i],
                ) by {
                }
            }
            assert(crate::addr::spec_transport_of(name) == t);
        },
    }
}

/// Decimal digits and dots: the characters of IPv4 text.
pub proof fn lemma_ipv4_text_chars(ip: crate::addr::Ipv4Rep)
    ensures
        ipv4_text(ip).len() > 0,
        ipv4_text(ip)[0] != '[',
        forall|i: int|
            0 <= i < ipv4_text(ip).len() ==> (is_dec_digit(#[trigger] ipv4_text(ip)[i])
                || ipv4_text(ip)[i] == '.'),
{
    lemma_dec_roundtrip(ip.o0 as nat);
    lemma_dec_roundtrip(ip.o1 as nat);
    lemma_dec_roundtrip(ip.o2 as nat);
    lemma_dec_roundtrip(ip.o3 as nat);
    assert(ipv4_text(ip)[0] == dec_str(ip.o0 as nat)[0]);
}

/// The IPv4 text of an address reads back to its four octets.
pub proof fn lemma_decode_ipv4(ip: crate::addr::Ipv4Rep)
    ensures
        spec_parse_ipv4(ipv4_text(ip)) == Option::Some(ip),
{
    let d0 = dec_str(ip.o0 as nat);
    let d1 = dec_str(ip.o1 as nat);
    let d2 = dec_str(ip.o2 as nat);
    let d3 = dec_str(ip.o3 as nat);
    lemma_dec_roundtrip(ip.o0 as nat);
    lemma_dec_roundtrip(ip.o1 as nat);
    lemma_dec_roundtrip(ip.o2 as nat);
    lemma_dec_roundtrip(ip.o3 as nat);
    lemma_dec_str_len(ip.o0 as nat);
    lemma_dec_str_len(ip.o1 as nat);
    lemma_dec_str_len(ip.o2 as nat);
    lemma_dec_str_len(ip.o3 as nat);
    let t = ipv4_text(ip);
    let tail2 = d2 + seq!['.'] + d3;
    let tail1 = d1 + seq!['.'] + tail2;
    assert(t =~= d0 + seq!['.'] + tail1);
    lemma_split_ch_concat(d0, tail1, '.');
    lemma_split_ch_concat(d1, tail2, '.');
    lemma_split_ch_concat(d2, d3, '.');
    lemma_split_ch_whole(d3, '.');
    assert(split_ch(t, '.') == seq![d0] + (seq![d1] + (seq![d2] + seq![d3])));
    assert(split_ch(t, '.') =~= seq![d0, d1, d2, d3]);
    assert(ipv4_group_ok(d0) && ipv4_group_ok(d1) && ipv4_group_ok(d2) && ipv4_group_ok(d3));
    assert(spec_parse_ipv4(t) == Option::Some(
        crate::addr::Ipv4Rep {
            o0: dec_val(d0) as u8,
            o1: dec_val(d1) as u8,
            o2: dec_val(d2) as u8,
            o3: dec_val(d3) as u8,
        },
    ));
}

/// Hexadecimal digits, colons and brackets: the characters of IPv6 text.
pub proof fn lemma_ipv6_text_chars(ip: crate::addr::Ipv6Rep)
    ensures
        ipv6_text(ip).len() >= 2,
        ipv6_text(ip)[0] == '[',
        ipv6_text(ip).last() == ']',
        forall|i: int|
            0 < i < ipv6_text(ip).len() - 1 ==> (is_hex_digit(#[trigger] ipv6_text(ip)[i])
                || ipv6_text(ip)[i] == ':'),
{
    lemma_hex_roundtrip(ip.s0 as nat);
    lemma_hex_roundtrip(ip.s1 as nat);
    lemma_hex_roundtrip(ip.s2 as nat);
    lemma_hex_roundtrip(ip.s3 as nat);
    lemma_hex_roundtrip(ip.s4 as nat);
    lemma_hex_roundtrip(ip.s5 as nat);
    lemma_hex_roundtrip(ip.s6 as nat);
    lemma_hex_roundtrip(ip.s7 as nat);
}

/// The inner groups of IPv6 text, without the brackets.
pub open spec fn ipv6_inner(ip: crate::addr::Ipv6Rep) -> Seq<char> {
    hex_str(ip.s0 as nat) + seq![':'] + hex_str(ip.s1 as nat) + seq![':'] + hex_str(ip.s2 as nat)
        + seq![':'] + hex_str(ip.s3 as nat) + seq![':'] + hex_str(ip.s4 as nat) + seq![':']
        + hex_str(ip.s5 as nat) + seq![':'] + hex_str(ip.s6 as nat) + seq![':'] + hex_str(
        ip.s7 as nat,
    )
}

/// The high four groups of the inner IPv6 text.
pub open spec fn ipv6_hi(ip: crate::addr::Ipv6Rep) -> Seq<char> {
    hex_str(ip.s4 as nat) + seq![':'] + hex_str(ip.s5 as nat) + seq![':'] + hex_str(ip.s6 as nat)
        + seq![':'] + hex_str(ip.s7 as nat)
}

/// The high half splits into its four groups.
#[verifier::rlimit(100)]
proof fn lemma_ipv6_split_hi(ip: crate::addr::Ipv6Rep)
    ensures
        split_ch(ipv6_hi(ip), ':') =~= seq![
            hex_str(ip.s4 as nat),
            hex_str(ip.s5 as nat),
            hex_str(ip.s6 as nat),
            hex_str(ip.s7 as nat),
        ],
{
    let h4 = hex_str(ip.s4 as nat);
    let h5 = hex_str(ip.s5 as nat);
    let h6 = hex_str(ip.s6 as nat);
    let h7 = hex_str(ip.s7 as nat);
    lemma_hex_roundtrip(ip.s4 as nat);
    lemma_hex_roundtrip(ip.s5 as nat);
    lemma_hex_roundtrip(ip.s6 as nat);
    lemma_hex_roundtrip(ip.s7 as nat);
    let t6 = h6 + seq![':'] + h7;
    let t5 = h5 + seq![':'] + t6;
    assert(ipv6_hi(ip) =~= h4 + seq![':'] + t5);
    lemma_split_ch_concat(h4, t5, ':');
    assert(t5 =~= h5 + seq![':'] + t6);
    lemma_split_ch_concat(h5, t6, ':');
    lemma_split_ch_concat(h6, h7, ':');
    lemma_split_ch_whole(h7, ':');
}

/// The middle-and-high groups of the inner IPv6 text.
pub open spec fn ipv6_mid(ip: crate::addr::Ipv6Rep) -> Seq<char> {
    hex_str(ip.s2 as nat) + seq![':'] + hex_str(ip.s3 as nat) + seq![':'] + ipv6_hi(ip)
}

/// The middle half splits into its six groups.
#[verifier::rlimit(100)]
proof fn lemma_ipv6_split_mid(ip: crate::addr::Ipv6Rep)
    ensures
        split_ch(ipv6_mid(ip), ':') =~= seq![
            hex_str(ip.s2 as nat),
            hex_str(ip.s3 as nat),
            hex_str(ip.s4 as nat),
            hex_str(ip.s5 as nat),
            hex_str(ip.s6 as nat),
            hex_str(ip.s7 as nat),
        ],
{
    let h2 = hex_str(ip.s2 as nat);
    let h3 = hex_str(ip.s3 as nat);
    lemma_hex_roundtrip(ip.s2 as nat);
    lemma_hex_roundtrip(ip.s3 as nat);
    lemma_ipv6_split_hi(ip);
    let hi = ipv6_hi(ip);
    let t3 = h3 + seq![':'] + hi;
    assert(ipv6_mid(ip) =~= h2 + seq![':'] + t3);
    lemma_split_ch_concat(h2, t3, ':');
    assert(t3 =~= h3 + seq![':'] + hi);
    lemma_split_ch_concat(h3, hi, ':');
}

/// The inner IPv6 text splits into the eight groups.
#[verifier::rlimit(100)]
proof fn lemma_ipv6_split(ip: crate::addr::Ipv6Rep)
    ensures
        split_ch(ipv6_inner(ip), ':') =~= seq![
            hex_str(ip.s0 as nat),
            hex_str(ip.s1 as nat),
            hex_str(ip.s2 as nat),
            hex_str(ip.s3 as nat),
            hex_str(ip.s4 as nat),
            hex_str(ip.s5 as nat),
            hex_str(ip.s6 as nat),
            hex_str(ip.s7 as nat),
        ],
{
    let h0 = hex_str(ip.s0 as nat);
    let h1 = hex_str(ip.s1 as nat);
    lemma_hex_roundtrip(ip.s0 as nat);
    lemma_hex_roundtrip(ip.s1 as nat);
    lemma_ipv6_split_mid(ip);
    let mid = ipv6_mid(ip);
    let t1 = h1 + seq![':'] + mid;
    assert(ipv6_inner(ip) =~= h0 + seq![':'] + t1);
    lemma_split_ch_concat(h0, t1, ':');
    assert(t1 =~= h1 + seq![':'] + mid);
    lemma_split_ch_concat(h1, mid, ':');
}

/// The inner IPv6 text reads back to the eight groups.
#[verifier::rlimit(100)]
pub proof fn lemma_decode_ipv6(ip: crate::addr::Ipv6Rep)
    ensures
        spec_parse_ipv6(ipv6_inner(ip)) == Option::Some(ip),
{
    lemma_ipv6_split(ip);
    lemma_hex_roundtrip(ip.s0 as nat);
    lemma_hex_roundtrip(ip.s1 as nat);
    lemma_hex_roundtrip(ip.s2 as nat);
    lemma_hex_roundtrip(ip.s3 as nat);
    lemma_hex_roundtrip(ip.s4 as nat);
    lemma_hex_roundtrip(ip.s5 as nat);
    lemma_hex_roundtrip(ip.s6 as nat);
    lemma_hex_roundtrip(ip.s7 as nat);
    lemma_hex_str_len(ip.s0 as nat);
    lemma_hex_str_len(ip.s1 as nat);
    lemma_hex_str_len(ip.s2 as nat);
    lemma_hex_str_len(ip.s3 as nat);
    lemma_hex_str_len(ip.s4 as nat);
    lemma_hex_str_len(ip.s5 as nat);
    lemma_hex_str_len(ip.s6 as nat);
    lemma_hex_str_len(ip.s7 as nat);
    let h0 = hex_str(ip.s0 as nat);
    let h1 = hex_str(ip.s1 as nat);
    let h2 = hex_str(ip.s2 as nat);
    let h3 = hex_str(ip.s3 as nat);
    let h4 = hex_str(ip.s4 as nat);
    let h5 = hex_str(ip.s5 as nat);
    let h6 = hex_str(ip.s6 as nat);
    let h7 = hex_str(ip.s7 as nat);
    let t7 = h7;
    let t6 = h6 + seq![':'] + t7;
    let t5 = h5 + seq![':'] + t6;
    let t4 = h4 + seq![':'] + t5;
    let t3 = h3 + seq![':'] + t4;
    let t2 = h2 + seq![':'] + t3;
    let t1 = h1 + seq![':'] + t2;
    let inner = ipv6_inner(ip);
    assert(no_double_colon(t7) && t7.len() > 0 && is_hex_digit(t7[0])) by {
        assert(forall|j: int| 0 <= j < t7.len() ==> is_hex_digit(#[trigger] t7[j]));
    }
    lemma_nac_prepend(h6, t7);
    lemma_nac_prepend(h5, t6);
    lemma_nac_prepend(h4, t5);
    lemma_nac_prepend(h3, t4);
    lemma_nac_prepend(h2, t3);
    lemma_nac_prepend(h1, t2);
    lemma_nac_prepend(h0, t1);
    assert(inner =~= h0 + seq![':'] + t1);
    assert(no_double_colon(inner));
    lemma_find_dc(inner);
    assert(find_dc(inner) == -1) by {
        if find_dc(inner) >= 0 {
            assert(inner[find_dc(inner)] == ':' && inner[find_dc(inner) + 1] == ':');
        }
    }
    let parts = split_ch(inner, ':');
    assert(groups_ok(parts)) by {
        assert(forall|i: int| 0 <= i < 8 ==> ipv6_group_ok(#[trigger] parts[i]));
    }
    assert(hex_group_val(parts[0]) == ip.s0);
    assert(hex_group_val(parts[1]) == ip.s1);
    assert(hex_group_val(parts[2]) == ip.s2);
    assert(hex_group_val(parts[3]) == ip.s3);
    assert(hex_group_val(parts[4]) == ip.s4);
    assert(hex_group_val(parts[5]) == ip.s5);
    assert(hex_group_val(parts[6]) == ip.s6);
    assert(hex_group_val(parts[7]) == ip.s7);
    assert(rep_of(gvals(parts)) == ip);
}

/// The authority text of an address: its host, then `:port` when a port is
/// there.
pub open spec fn auth_text(a: crate::addr::AddrV) -> Seq<char> {
    (match a.host {
        Option::Some(h) => host_text(h),
        Option::None => Seq::<char>::empty(),
    }) + (match a.port {
        Option::Some(p) => seq![':'] + dec_str(p as nat),
        Option::None => Seq::<char>::empty(),
    })
}

/// The port text appended to a host.
pub open spec fn port_text(port: Option<u16>) -> Seq<char> {
    match port {
        Option::Some(p) => seq![':'] + dec_str(p as nat),
        Option::None => Seq::<char>::empty(),
    }
}

/// Port text holds a colon and digits only.
proof fn lemma_port_text_chars(port: Option<u16>)
    ensures
        forall|i: int|
            0 <= i < port_text(port).len() ==> (is_dec_digit(#[trigger] port_text(port)[i])
                || port_text(port)[i] == ':'),
        port matches Option::Some(p) ==> port_text(port)[0] == ':' && port_text(
            port,
        ).drop_first() =~= dec_str(p as nat),
{
    match port {
        Option::Some(p) => {
            lemma_dec_roundtrip(p as nat);
        },
        Option::None => {},
    }
}

/// A domain authority reads back to the domain and port.
proof fn lemma_auth_domain(d: Seq<char>, port: Option<u16>)
    requires
        crate::addr::wf_domain(d),
    ensures
        spec_decode_auth(d + port_text(port)) == Option::Some(
            (Option::Some(crate::addr::HostAddrV::Domain(d)), port),
        ),
{
    let t = d + port_text(port);
    lemma_port_text_chars(port);
    assert(t[0] == d[0]);
    assert(crate::addr::host_char_ok(d[0]));
    match port {
        Option::None => {
            assert(t =~= d);
            lemma_find_ch_none(d, ':');
        },
        Option::Some(p) => {
            lemma_dec_roundtrip(p as nat);
            lemma_find_ch_concat(d, port_text(port), ':');
            assert(find_ch(t, ':') == d.len());
            assert(t.take(d.len() as int) =~= d);
            assert(t.skip(d.len() as int + 1) =~= dec_str(p as nat));
            assert(spec_parse_port(dec_str(p as nat)) == Option::Some(p));
        },
    }
}

/// An IPv4 authority reads back to the address and port.
proof fn lemma_auth_ipv4(ip: crate::addr::Ipv4Rep, port: Option<u16>)
    ensures
        spec_decode_auth(ipv4_text(ip) + port_text(port)) == Option::Some(
            (Option::Some(crate::addr::HostAddrV::Ip4(ip)), port),
        ),
{
    let d = ipv4_text(ip);
    let t = d + port_text(port);
    lemma_ipv4_text_chars(ip);
    lemma_decode_ipv4(ip);
    lemma_port_text_chars(port);
    assert(t[0] == d[0]);
    assert(spec_decode_host(d) == Option::Some(crate::addr::HostAddrV::Ip4(ip)));
    match port {
        Option::None => {
            assert(t =~= d);
            lemma_find_ch_none(d, ':');
        },
        Option::Some(p) => {
            lemma_dec_roundtrip(p as nat);
            lemma_find_ch_concat(d, port_text(port), ':');
            assert(find_ch(t, ':') == d.len());
            assert(t.take(d.len() as int) =~= d);
            assert(t.skip(d.len() as int + 1) =~= dec_str(p as nat));
            assert(spec_parse_port(dec_str(p as nat)) == Option::Some(p));
        },
    }
}

/// An IPv6 authority reads back to the address and port.
#[verifier::rlimit(100)]
proof fn lemma_auth_ipv6(ip: crate::addr::Ipv6Rep, port: Option<u16>)
    ensures
        spec_decode_auth(ipv6_text(ip) + port_text(port)) == Option::Some(
            (Option::Some(crate::addr::HostAddrV::Ip6(ip)), port),
        ),
{
    let d = ipv6_text(ip);
    let inner = ipv6_inner(ip);
    let t = d + port_text(port);
    lemma_ipv6_text_chars(ip);
    lemma_decode_ipv6(ip);
    lemma_port_text_chars(port);
    assert(d =~= seq!['['] + inner + seq![']']);
    assert(t[0] == '[');
    let head = seq!['['] + inner;
    assert forall|i: int| 0 <= i < head.len() implies #[trigger] head[i] != ']' by {
        if i > 0 {
            assert(head[i] == d[i]);
            assert(is_hex_digit(d[i]) || d[i] == ':');
        } else {
            assert(head[0] == '[');
        }
    }
    assert((seq![']'] + port_text(port))[0] == ']');
    assert(t =~= head + (seq![']'] + port_text(port)));
    lemma_find_ch_concat(head, seq![']'] + port_text(port), ']');
    let k = find_ch(t, ']');
    assert(k == 1 + inner.len());
    assert(t.subrange(1, k) =~= inner);
    match port {
        Option::None => {
            assert(t.skip(k + 1) =~= Seq::<char>::empty());
        },
        Option::Some(p) => {
            lemma_dec_roundtrip(p as nat);
            let after = t.skip(k + 1);
            assert(after =~= port_text(port));
            assert(after[0] == ':');
            assert(after.drop_first() =~= dec_str(p as nat));
            assert(spec_parse_port(dec_str(p as nat)) == Option::Some(p));
        },
    }
}

/// The authority text of a well-formed address reads back to its host and
/// port, and holds no slash, tab or line break.
pub proof fn lemma_decode_auth(a: crate::addr::AddrV)
    requires
        crate::addr::wf_addr(a),
    ensures
        spec_decode_auth(auth_text(a)) == Option::Some((a.host, a.port)),
        forall|i: int|
            0 <= i < auth_text(a).len() ==> !((#[trigger] auth_text(a)[i]) == '/' || auth_text(
                a,
            )[i] == '\t' || auth_text(a)[i] == '\n'),
{
    let t = auth_text(a);
    lemma_port_text_chars(a.port);
    match a.host {
        Option::None => {
            assert(a.port is None);
            assert(t =~= Seq::<char>::empty());
        },
        Option::Some(crate::addr::HostAddrV::Domain(d)) => {
            assert(t =~= d + port_text(a.port));
            lemma_auth_domain(d, a.port);
            assert forall|i: int|
                0 <= i < t.len() implies !((#[trigger] t[i]) == '/' || t[i] == '\t' || t[i]
                == '\n') by {
                if i < d.len() {
                    assert(t[i] == d[i]);
                    assert(crate::addr::host_char_ok(d[i]));
                } else {
                    assert(t[i] == port_text(a.port)[i - d.len()]);
                }
            }
        },
        Option::Some(crate::addr::HostAddrV::Ip4(ip)) => {
            let d = ipv4_text(ip);
            assert(t =~= d + port_text(a.port));
            lemma_auth_ipv4(ip, a.port);
            lemma_ipv4_text_chars(ip);
            assert forall|i: int|
                0 <= i < t.len() implies !((#[trigger] t[i]) == '/' || t[i] == '\t' || t[i]
                == '\n') by {
                if i < d.len() {
                    assert(t[i] == d[i]);
                    assert(is_dec_digit(d[i]) || d[i] == '.');
                } else {
                    assert(t[i] == port_text(a.port)[i - d.len()]);
                }
            }
        },
        Option::Some(crate::addr::HostAddrV::Ip6(ip)) => {
            let d = ipv6_text(ip);
            assert(t =~= d + port_text(a.port));
            lemma_auth_ipv6(ip, a.port);
            lemma_ipv6_text_chars(ip);
            assert forall|i: int|
                0 <= i < t.len() implies !((#[trigger] t[i]) == '/' || t[i] == '\t' || t[i]
                == '\n') by {
                if i < d.len() {
                    assert(t[i] == d[i]);
                    if 0 < i < d.len() - 1 {
                        assert(is_hex_digit(d[i]) || d[i] == ':');
                    } else if i == 0 {
                        assert(d[0] == '[');
                    } else {
                        assert(d[i] == d.last());
                    }
                } else {
                    assert(t[i] == port_text(a.port)[i - d.len()]);
                }
            }
        },
    }
}

/// The canonical text of a well-formed address reads back to the address.
pub proof fn lemma_decode_addr_complete(a: crate::addr::AddrV)
    requires
        crate::addr::wf_addr(a),
    ensures
        spec_decode_addr(addr_text(a)) == Option::Some(a),
{
    reveal_strlit("://");
    let name = crate::addr::transport_name(a.scheme);
    lemma_transport_name_inverse(a.scheme);
    lemma_decode_auth(a);
    let auth = auth_text(a);
    let tail = "://"@ + auth + seq!['/'] + a.path;
    let s = addr_text(a);
    assert("://"@ =~= seq![':', '/', '/']);
    assert(tail[0] == ':');
    assert(s =~= name + tail);
    assert(forall|i: int| 0 <= i < name.len() ==> #[trigger] name[i] != ':') by {
        assert(forall|i: int|
            0 <= i < name.len() ==> crate::addr::scheme_char_ok(#[trigger] name[i]));
    }
    lemma_find_ch_concat(name, tail, ':');
    let i = find_ch(s, ':');
    assert(i == name.len());
    assert(s.take(i) =~= name);
    assert(s[i + 1] == '/');
    assert(s[i + 2] == '/');
    let rest = s.skip(i + 3);
    assert(rest =~= auth + (seq!['/'] + a.path));
    assert((seq!['/'] + a.path)[0] == '/');
    lemma_find_ch_concat(auth, seq!['/'] + a.path, '/');
    let j = find_ch(rest, '/');
    assert(j == auth.len());
    assert(rest.take(j) =~= auth);
    assert(rest.skip(j + 1) =~= a.path);
}

// ---------------------------------------------------------------------------
// Executable encoding and decoding
// ---------------------------------------------------------------------------

impl Addr {
    /// The canonical URL text of this address.
    pub fn to_url_string(&self) -> (r: String)
        ensures
            r@ == addr_text(self@),
    {
        let mut out = self.scheme.name();
        out.append("://");
        match &self.host {
            Option::Some(h) => push_host(&mut out, h),
            Option::None => {},
        }
        match self.port {
            Option::Some(p) => {
                out.append(":");
                push_dec_u64(&mut out, p as u64);
            },
            Option::None => {},
        }
        out.append("/");
        out.append(self.path.as_str());
        proof {
            reveal_strlit("://");
            reveal_strlit(":");
            reveal_strlit("/");
            assert(out@ =~= addr_text(self@));
        }
        out
    }
}

/// The first index of `c` in `s`.
fn find_char(s: &str, c: char) -> (r: Option<usize>)
    ensures
        ({
            let f = find_ch(s@, c);
            match r {
                Option::Some(i) => f == i && i < s@.len(),
                Option::None => f == -1,
            }
        }),
{
    proof {
        lemma_find_ch_bounds(s@, c);
    }
    let n = s.unicode_len();
    let mut i: usize = 0;
    while i < n
        invariant
            n == s@.len(),
            0 <= i <= n,
            forall|j: int| 0 <= j < i ==> #[trigger] s@[j] != c,
        decreases n - i,
    {
        if s.get_char(i) == c {
            proof {
                lemma_find_ch_bounds(s@, c);
            }
            return Some(i);
        }
        i += 1;
    }
    proof {
        lemma_find_ch_bounds(s@, c);
    }
    None
}

/// Whether every character of `s` satisfies the scheme alphabet, starting
/// with a letter.
fn is_wf_scheme(s: &str) -> (r: bool)
    ensures
        r == crate::addr::wf_scheme_chars(s@),
{
    let n = s.unicode_len();
    if n == 0 {
        return false;
    }
    let c0 = s.get_char(0);
    if !('a' <= c0 && c0 <= 'z') {
        return false;
    }
    let mut i: usize = 0;
    while i < n
        invariant
            n == s@.len(),
            n > 0,
            'a' <= s@[0] && s@[0] <= 'z',
            0 <= i <= n,
            forall|j: int| 0 <= j < i ==> crate::addr::scheme_char_ok(#[trigger] s@[j]),
        decreases n - i,
    {
        let c = s.get_char(i);
        if !(('a' <= c && c <= 'z') || ('0' <= c && c <= '9') || c == '+' || c == '-' || c == '.') {
            return false;
        }
        i += 1;
    }
    true
}

/// A decimal field as a number of at most the given bound.
fn parse_dec_bounded(s: &str, bound: u64) -> (r: Option<u64>)
    requires
        bound >= 9,
    ensures
        ({
            let ok = s@.len() > 0 && all_dec_digits(s@) && dec_val(s@) <= bound;
            match r {
                Option::Some(v) => ok && v == dec_val(s@),
                Option::None => !ok,
            }
        }),
{
    let n = s.unicode_len();
    if n == 0 {
        return None;
    }
    let mut val: u64 = 0;
    let mut i: usize = 0;
    proof {
        assert(s@.take(0) =~= Seq::<char>::empty());
    }
    while i < n
        invariant
            n == s@.len(),
            0 <= i <= n,
            bound >= 9,
            all_dec_digits(s@.take(i as int)),
            val == dec_val(s@.take(i as int)),
            val <= bound,
        decreases n - i,
    {
        let c = s.get_char(i);
        proof {
            assert(s@.take(i + 1).drop_last() =~= s@.take(i as int));
            assert(s@.take(i + 1).last() == s@[i as int]);
        }
        if !('0' <= c && c <= '9') {
            proof {
                assert(!is_dec_digit(s@[i as int]));
            }
            return None;
        }
        let d = (c as u32 - '0' as u32) as u64;
        proof {
            assert(d == digit_val(s@[i as int]));
        }
        if val > (bound - d) / 10 {
            proof {
                assert(dec_val(s@.take(i + 1)) == val * 10 + d);
                assert(val * 10 + d > bound) by (nonlinear_arith)
                    requires
                        val > (bound - d) / 10,
                        d <= 9,
                        bound >= d,
                {
                }
                lemma_dec_val_prefix(s@, i + 1);
                assert(dec_val(s@) > bound || !all_dec_digits(s@));
            }
            return None;
        }
        proof {
            assert(val * 10 + d <= bound) by (nonlinear_arith)
                requires
                    val <= (bound - d) / 10,
                    d <= 9,
                    bound >= d,
            {
            }
        }
        val = val * 10 + d;
        i += 1;
    }
    proof {
        assert(s@.take(n as int) =~= s@);
    }
    Some(val)
}

/// A longer all-digit string is worth at least its prefix, digit for digit.
pub proof fn lemma_dec_val_prefix(s: Seq<char>, i: int)
    requires
        0 <= i <= s.len(),
    ensures
        all_dec_digits(s) ==> dec_val(s) >= dec_val(s.take(i)),
    decreases s.len() - i,
{
    if i < s.len() {
        lemma_dec_val_prefix(s, i + 1);
        if all_dec_digits(s) {
            assert(s.take(i + 1).drop_last() =~= s.take(i));
            assert(dec_val(s.take(i + 1)) == dec_val(s.take(i)) * 10 + digit_val(s.take(i + 1).last()));
        }
    } else {
        assert(s.take(i) =~= s);
    }
}

/// The pieces of `s` between occurrences of `c`.
fn split_str(s: &str, c: char) -> (r: Vec<String>)
    ensures
        r@.len() == split_ch(s@, c).len(),
        forall|i: int| 0 <= i < r@.len() ==> (#[trigger] r@[i])@ == split_ch(s@, c)[i],
    decreases s@.len(),
{
    proof {
        lemma_find_ch_bounds(s@, c);
    }
    match find_char(s, c) {
        Option::None => {
            let mut out: Vec<String> = Vec::new();
            out.push(s.to_owned());
            out
        },
        Option::Some(i) => {
            let n = s.unicode_len();
            let head = s.substring_char(0, i).to_owned();
            let rest = s.substring_char(i + 1, n);
            proof {
                assert(rest@ == s@.skip(i + 1));
                assert(head@ == s@.take(i as int));
            }
            let mut out = split_str(rest, c);
            out.insert(0, head);
            out
        },
    }
}

/// One hexadecimal group of an IPv6 host.
fn parse_hex_group(s: &str) -> (r: Option<u16>)
    ensures
        ({
            match r {
                Option::Some(v) => ipv6_group_ok(s@) && v == hex_group_val(s@),
                Option::None => !ipv6_group_ok(s@),
            }
        }),
{
    let n = s.unicode_len();
    if n < 1 || n > 4 {
        return None;
    }
    let mut val: u32 = 0;
    let mut i: usize = 0;
    proof {
        assert(s@.take(0) =~= Seq::<char>::empty());
    }
    while i < n
        invariant
            n == s@.len(),
            1 <= n <= 4,
            0 <= i <= n,
            all_hex_digits(s@.take(i as int)),
            val == hex_val(s@.take(i as int)),
            i == 0 ==> val == 0,
            i == 1 ==> val < 16,
            i == 2 ==> val < 256,
            i == 3 ==> val < 4096,
            i == 4 ==> val < 65536,
        decreases n - i,
    {
        let c = s.get_char(i);
        proof {
            assert(s@.take(i + 1).drop_last() =~= s@.take(i as int));
            assert(s@.take(i + 1).last() == s@[i as int]);
        }
        let d: u32 = if '0' <= c && c <= '9' {
            c as u32 - '0' as u32
        } else if 'a' <= c && c <= 'f' {
            c as u32 - 'a' as u32 + 10
        } else {
            proof {
                assert(!is_hex_digit(s@[i as int]));
            }
            return None;
        };
        proof {
            assert(d == digit_val(s@[i as int]));
        }
        val = val * 16 + d;
        i += 1;
    }
    proof {
        assert(s@.take(n as int) =~= s@);
        assert(hex_val(s@) <= 65535);
    }
    Some(val as u16)
}

/// The first index where two colons stand together.
fn find_dcolon(s: &str) -> (r: Option<usize>)
    ensures
        ({
            let f = find_dc(s@);
            match r {
                Option::Some(i) => f == i && i + 1 < s@.len(),
                Option::None => f == -1,
            }
        }),
{
    proof {
        lemma_find_dc(s@);
    }
    let n = s.unicode_len();
    if n < 2 {
        return None;
    }
    let mut i: usize = 0;
    while i < n - 1
        invariant
            n == s@.len(),
            n >= 2,
            0 <= i <= n - 1,
            forall|j: int| 0 <= j < i ==> !(#[trigger] s@[j] == ':' && s@[j + 1] == ':'),
        decreases n - i,
    {
        if s.get_char(i) == ':' && s.get_char(i + 1) == ':' {
            proof {
                lemma_find_dc(s@);
            }
            return Some(i);
        }
        i += 1;
    }
    proof {
        lemma_find_dc(s@);
    }
    None
}

/// The group values of a list of group texts.
fn parse_groups(parts: &Vec<String>) -> (r: Option<Vec<u16>>)
    ensures
        ({
            let pv = Seq::new(parts@.len(), |i: int| (parts@[i])@);
            match r {
                Option::Some(g) => groups_ok(pv) && g@ == gvals(pv),
                Option::None => !groups_ok(pv),
            }
        }),
{
    let ghost pv = Seq::new(parts@.len(), |i: int| (parts@[i])@);
    let mut out: Vec<u16> = Vec::new();
    let mut i: usize = 0;
    while i < parts.len()
        invariant
            pv == Seq::new(parts@.len(), |k: int| (parts@[k])@),
            pv.len() == parts@.len(),
            0 <= i <= parts@.len(),
            out@.len() == i,
            forall|j: int| 0 <= j < i ==> ipv6_group_ok(#[trigger] pv[j]),
            forall|j: int| 0 <= j < i ==> out@[j] == hex_group_val(#[trigger] pv[j]),
        decreases parts@.len() - i,
    {
        match parse_hex_group(parts[i].as_str()) {
            Option::Some(v) => {
                out.push(v);
            },
            Option::None => {
                proof {
                    assert(!ipv6_group_ok(pv[i as int]));
                }
                return None;
            },
        }
        i += 1;
    }
    proof {
        assert(out@ =~= gvals(pv));
    }
    Some(out)
}

/// A bracket-less IPv6 host, full or compressed.
fn parse_ipv6_str(s: &str) -> (r: Option<Ipv6Rep>)
    ensures
        ({
            match r {
                Option::Some(ip) => spec_parse_ipv6(s@) == Option::Some(ip),
                Option::None => spec_parse_ipv6(s@) is None,
            }
        }),
{
    let n = s.unicode_len();
    match find_dcolon(s) {
        Option::None => {
            let parts = split_str(s, ':');
            let ghost pv0 = split_ch(s@, ':');
            proof {
                assert(Seq::new(parts@.len(), |i: int| (parts@[i])@) =~= pv0);
            }
            if parts.len() != 8 {
                return None;
            }
            match parse_groups(&parts) {
                Option::Some(g) => {
                    proof {
                        assert(g@ == gvals(pv0));
                        assert(g@.len() == 8);
                    }
                    Some(
                        Ipv6Rep {
                            s0: g[0],
                            s1: g[1],
                            s2: g[2],
                            s3: g[3],
                            s4: g[4],
                            s5: g[5],
                            s6: g[6],
                            s7: g[7],
                        },
                    )
                },
                Option::None => None,
            }
        },
        Option::Some(i) => {
            let l = s.substring_char(0, i);
            let rt = s.substring_char(i + 2, n);
            proof {
                assert(l@ == s@.take(i as int));
                assert(rt@ == s@.skip(i as int + 2));
            }
            let lp: Vec<String> = if l.unicode_len() == 0 {
                Vec::new()
            } else {
                split_str(l, ':')
            };
            let rp: Vec<String> = if rt.unicode_len() == 0 {
                Vec::new()
            } else {
                split_str(rt, ':')
            };
            let ghost lpv = side_groups(l@);
            let ghost rpv = side_groups(rt@);
            proof {
                assert(Seq::new(lp@.len(), |k: int| (lp@[k])@) =~= lpv);
                assert(Seq::new(rp@.len(), |k: int| (rp@[k])@) =~= rpv);
            }
            if lp.len() > 7 || rp.len() > 7 - lp.len() {
                return None;
            }
            let gl = match parse_groups(&lp) {
                Option::Some(g) => g,
                Option::None => {
                    return None;
                },
            };
            let gr = match parse_groups(&rp) {
                Option::Some(g) => g,
                Option::None => {
                    return None;
                },
            };
            let fill = 8 - gl.len() - gr.len();
            let mut segs = gl;
            let ghost segs0 = segs@;
            let mut z: usize = 0;
            while z < fill
                invariant
                    0 <= z <= fill,
                    fill + segs0.len() <= 8,
                    segs@ == segs0 + Seq::new(z as nat, |k: int| 0u16),
                decreases fill - z,
            {
                segs.push(0);
                proof {
                    assert(segs@ =~= segs0 + Seq::new((z + 1) as nat, |k: int| 0u16));
                }
                z += 1;
            }
            let mut tail = gr;
            segs.append(&mut tail);
            proof {
                assert(segs@ =~= compressed_groups(lpv, rpv));
                assert(segs@.len() == 8);
            }
            Some(
                Ipv6Rep {
                    s0: segs[0],
                    s1: segs[1],
                    s2: segs[2],
                    s3: segs[3],
                    s4: segs[4],
                    s5: segs[5],
                    s6: segs[6],
                    s7: segs[7],
                },
            )
        },
    }
}

/// A dotted-decimal IPv4 host, read strictly.
pub fn parse_ipv4_str(s: &str) -> (r: Option<Ipv4Rep>)
    ensures
        ({
            match r {
                Option::Some(ip) => spec_parse_ipv4(s@) == Option::Some(ip),
                Option::None => spec_parse_ipv4(s@) is None,
            }
        }),
{
    let parts = split_str(s, '.');
    let ghost pv = split_ch(s@, '.');
    if parts.len() != 4 {
        return None;
    }
    let g0 = parse_ipv4_group(parts[0].as_str());
    let g1 = parse_ipv4_group(parts[1].as_str());
    let g2 = parse_ipv4_group(parts[2].as_str());
    let g3 = parse_ipv4_group(parts[3].as_str());
    match (g0, g1, g2, g3) {
        (Option::Some(o0), Option::Some(o1), Option::Some(o2), Option::Some(o3)) => Some(
            Ipv4Rep { o0, o1, o2, o3 },
        ),
        _ => None,
    }
}

/// One dotted-decimal group.
fn parse_ipv4_group(s: &str) -> (r: Option<u8>)
    ensures
        ({
            match r {
                Option::Some(v) => ipv4_group_ok(s@) && v == dec_val(s@),
                Option::None => !ipv4_group_ok(s@),
            }
        }),
{
    let n = s.unicode_len();
    if n < 1 || n > 3 {
        return None;
    }
    match parse_dec_bounded(s, 255) {
        Option::Some(v) => Some(v as u8),
        Option::None => None,
    }
}

/// A bracket-free host field.
fn decode_host(s: &str) -> (r: Option<HostAddr>)
    ensures
        ({
            match r {
                Option::Some(h) => spec_decode_host(s@) == Option::Some(h@),
                Option::None => spec_decode_host(s@) is None,
            }
        }),
{
    let n = s.unicode_len();
    if n == 0 {
        return None;
    }
    match parse_ipv4_str(s) {
        Option::Some(ip) => Some(HostAddr::Ip4(ip)),
        Option::None => {
            if host_chars_ok(s) {
                Some(HostAddr::Domain(s.to_owned()))
            } else {
                None
            }
        },
    }
}

/// Whether every character may stand in a domain.
fn host_chars_ok(s: &str) -> (r: bool)
    ensures
        r == forall|j: int| 0 <= j < s@.len() ==> crate::addr::host_char_ok(#[trigger] s@[j]),
{
    let n = s.unicode_len();
    let mut i: usize = 0;
    while i < n
        invariant
            n == s@.len(),
            0 <= i <= n,
            forall|j: int| 0 <= j < i ==> crate::addr::host_char_ok(#[trigger] s@[j]),
        decreases n - i,
    {
        let c = s.get_char(i);
        if c == ':' || c == '/' || c == '[' || c == ']' || c == '\t' || c == '\n' || c == '\r' || c
            == ' ' || c == '#' || c == '?' || c == '@' || c == '\\' || c == '<' || c == '>' || c
            == '^' || c == '|' || c == '\u{0}' {
            return false;
        }
        i += 1;
    }
    true
}

/// An authority field: host and optional port.
fn decode_auth(s: &str) -> (r: Option<(Option<HostAddr>, Option<u16>)>)
    ensures
        ({
            match r {
                Option::Some((h, p)) => spec_decode_auth(s@) == Option::Some(
                    (
                        match h {
                            Option::Some(hh) => Option::Some(hh@),
                            Option::None => Option::None,
                        },
                        p,
                    ),
                ),
                Option::None => spec_decode_auth(s@) is None,
            }
        }),
{
    let n = s.unicode_len();
    if n == 0 {
        return Some((None, None));
    }
    if s.get_char(0) == '[' {
        let k = match find_char(s, ']') {
            Option::Some(k) => k,
            Option::None => {
                return None;
            },
        };
        if k < 1 {
            return None;
        }
        let inside = s.substring_char(1, k);
        let ip = match parse_ipv6_str(inside) {
            Option::Some(ip) => ip,
            Option::None => {
                return None;
            },
        };
        let after = s.substring_char(k + 1, n);
        let alen = after.unicode_len();
        proof {
            assert(after@ == s@.skip(k as int + 1));
        }
        if alen == 0 {
            Some((Some(HostAddr::Ip6(ip)), None))
        } else if after.get_char(0) == ':' {
            let ptext = after.substring_char(1, alen);
            proof {
                assert(ptext@ =~= after@.drop_first());
            }
            match parse_dec_bounded(ptext, 65535) {
                Option::Some(p) => Some((Some(HostAddr::Ip6(ip)), Some(p as u16))),
                Option::None => None,
            }
        } else {
            None
        }
    } else {
        match find_char(s, ':') {
            Option::None => {
                match decode_host(s) {
                    Option::Some(h) => Some((Some(h), None)),
                    Option::None => None,
                }
            },
            Option::Some(k) => {
                let hpart = s.substring_char(0, k);
                let ppart = s.substring_char(k + 1, n);
                proof {
                    assert(hpart@ == s@.take(k as int));
                    assert(ppart@ == s@.skip(k as int + 1));
                }
                match (decode_host(hpart), parse_dec_bounded(ppart, 65535)) {
                    (Option::Some(h), Option::Some(p)) => Some((Some(h), Some(p as u16))),
                    _ => None,
                }
            },
        }
    }
}

/// Whether every character may stand in a path.
fn path_chars_ok(s: &str) -> (r: bool)
    ensures
        r == forall|j: int| 0 <= j < s@.len() ==> crate::addr::path_char_ok(#[trigger] s@[j]),
{
    let n = s.unicode_len();
    let mut i: usize = 0;
    while i < n
        invariant
            n == s@.len(),
            0 <= i <= n,
            forall|j: int| 0 <= j < i ==> crate::addr::path_char_ok(#[trigger] s@[j]),
        decreases n - i,
    {
        let c = s.get_char(i);
        if c == '\t' || c == '\n' || c == '\r' {
            return false;
        }
        i += 1;
    }
    true
}

/// An address in canonical text form.
pub fn decode_addr(s: &str) -> (r: Option<Addr>)
    ensures
        ({
            match r {
                Option::Some(a) => spec_decode_addr(s@) == Option::Some(a@),
                Option::None => spec_decode_addr(s@) is None,
            }
        }),
{
    let n = s.unicode_len();
    let i = match find_char(s, ':') {
        Option::Some(i) => i,
        Option::None => {
            return None;
        },
    };
    let scheme_str = s.substring_char(0, i);
    proof {
        assert(scheme_str@ == s@.take(i as int));
    }
    if !is_wf_scheme(scheme_str) {
        return None;
    }
    if n - i < 3 {
        return None;
    }
    if !(s.get_char(i + 1) == '/' && s.get_char(i + 2) == '/') {
        return None;
    }
    let rest = s.substring_char(i + 3, n);
    proof {
        assert(rest@ == s@.skip(i as int + 3));
    }
    let rlen = rest.unicode_len();
    let j_opt = find_char(rest, '/');
    let auth = match j_opt {
        Option::Some(j) => rest.substring_char(0, j),
        Option::None => rest,
    };
    let path = match j_opt {
        Option::Some(j) => rest.substring_char(j + 1, rlen),
        Option::None => "",
    };
    proof {
        reveal_strlit("");
        assert(""@ =~= Seq::<char>::empty());
        let js = find_ch(rest@, '/');
        match j_opt {
            Option::Some(j) => {
                assert(js == j);
                assert(auth@ == rest@.take(j as int));
                assert(path@ == rest@.skip(j as int + 1));
            },
            Option::None => {
                assert(js == -1);
                assert(auth@ == rest@);
                assert(path@ =~= Seq::<char>::empty());
            },
        }
    }
    if !path_chars_ok(path) {
        return None;
    }
    match decode_auth(auth) {
        Option::None => None,
        Option::Some((host, port)) => {
            if port.is_some() && host.is_none() {
                return None;
            }
            Some(
                Addr {
                    scheme: Transport::from_name(scheme_str),
                    host,
                    port,
                    path: path.to_owned(),
                },
            )
        },
    }
}

// ---------------------------------------------------------------------------
// Persistence records
// ---------------------------------------------------------------------------

/// One persisted record: a colour and a book entry.
pub type Record = (HostColor, Entry);

/// Mathematical image of a record.
pub type RecV = (HostColor, EntryV);

/// The image of one record.
pub open spec fn recview(r: Record) -> RecV {
    (r.0, eview(r.1))
}

/// The colour word of a book, as it stands in a record.
pub open spec fn color_word(c: HostColor) -> Seq<char> {
    match c {
        HostColor::Grey => "grey"@,
        HostColor::White => "white"@,
        HostColor::Gold => "gold"@,
        HostColor::Black => "black"@,
        HostColor::Dark => "dark"@,
    }
}

/// The colour a record word names. Black is never persisted, so a `black`
/// word is as malformed as any other stranger.
pub open spec fn spec_color_of(s: Seq<char>) -> Option<HostColor> {
    if s == "gold"@ {
        Option::Some(HostColor::Gold)
    } else if s == "white"@ {
        Option::Some(HostColor::White)
    } else if s == "grey"@ {
        Option::Some(HostColor::Grey)
    } else if s == "dark"@ {
        Option::Some(HostColor::Dark)
    } else {
        Option::None
    }
}

/// One record line: `colour<TAB>url<TAB>last_seen<LF>`.
pub open spec fn line_text(r: RecV) -> Seq<char> {
    color_word(r.0) + seq!['\t'] + addr_text(r.1.0) + seq!['\t'] + dec_str(r.1.1 as nat) + seq![
        '\n',
    ]
}

/// The whole persistence file of a list of records.
pub open spec fn dump_text(recs: Seq<RecV>) -> Seq<char>
    decreases recs.len(),
{
    if recs.len() == 0 {
        Seq::<char>::empty()
    } else {
        line_text(recs[0]) + dump_text(recs.drop_first())
    }
}

/// One record read back from a line without its line break: at least three
/// tab-separated fields holding a colour word, an address and a timestamp.
pub open spec fn spec_parse_line(s: Seq<char>) -> Option<RecV> {
    let parts = split_ch(s, '\t');
    if parts.len() < 3 {
        Option::None
    } else {
        match (spec_color_of(parts[0]), spec_decode_addr(parts[1]), spec_parse_u64(parts[2])) {
            (Option::Some(c), Option::Some(a), Option::Some(ls)) => Option::Some((c, (a, ls))),
            _ => Option::None,
        }
    }
}

/// The records read back from a file; malformed lines are skipped.
pub open spec fn spec_parse_records(s: Seq<char>) -> Seq<RecV>
    decreases s.len(),
    via spec_parse_records_decreases
{
    let i = find_ch(s, '\n');
    if i == -1 {
        if s.len() == 0 {
            Seq::<RecV>::empty()
        } else {
            match spec_parse_line(s) {
                Option::Some(r) => seq![r],
                Option::None => Seq::<RecV>::empty(),
            }
        }
    } else {
        (match spec_parse_line(s.take(i)) {
            Option::Some(r) => seq![r],
            Option::None => Seq::<RecV>::empty(),
        }) + spec_parse_records(s.skip(i + 1))
    }
}

#[via_fn]
proof fn spec_parse_records_decreases(s: Seq<char>) {
    lemma_find_ch_bounds(s, '\n');
}

/// The text of a well-formed address holds no tab and no line break.
pub proof fn lemma_addr_text_clean(a: AddrV)
    requires
        crate::addr::wf_addr(a),
    ensures
        forall|i: int|
            0 <= i < addr_text(a).len() ==> !((#[trigger] addr_text(a)[i]) == '\t' || addr_text(
                a,
            )[i] == '\n'),
{
    reveal_strlit("://");
    lemma_decode_auth(a);
    let name = crate::addr::transport_name(a.scheme);
    lemma_transport_name_inverse(a.scheme);
    let t = addr_text(a);
    assert("://"@ =~= seq![':', '/', '/']);
    assert(t =~= name + "://"@ + auth_text(a) + seq!['/'] + a.path);
    assert forall|i: int|
        0 <= i < t.len() implies !((#[trigger] t[i]) == '\t' || t[i] == '\n') by {
        let n1 = name.len() as int;
        let n2 = n1 + 3;
        let n3 = n2 + auth_text(a).len() as int;
        let n4 = n3 + 1;
        if i < n1 {
            assert(t[i] == name[i]);
            assert(crate::addr::scheme_char_ok(name[i]));
        } else if i < n2 {
            assert(t[i] == "://"@[i - n1]);
        } else if i < n3 {
            assert(t[i] == auth_text(a)[i - n2]);
        } else if i < n4 {
            assert(t[i] == '/');
        } else {
            assert(t[i] == a.path[i - n4]);
            assert(crate::addr::path_char_ok(a.path[i - n4]));
        }
    }
}

/// Whether a record may be persisted: its colour is one of the saved books
/// and its address is well formed.
pub open spec fn wf_rec(r: RecV) -> bool {
    &&& crate::addr::wf_addr(r.1.0)
    &&& (r.0 == HostColor::Grey || r.0 == HostColor::White || r.0 == HostColor::Gold || r.0
        == HostColor::Dark)
}

/// The interior of a record line, before its line break.
pub open spec fn line_interior(r: RecV) -> Seq<char> {
    color_word(r.0) + seq!['\t'] + addr_text(r.1.0) + seq!['\t'] + dec_str(r.1.1 as nat)
}

/// A well-formed record's line interior holds no line break, and reads back
/// to the record.
pub proof fn lemma_line_complete(r: RecV)
    requires
        wf_rec(r),
    ensures
        forall|i: int| 0 <= i < line_interior(r).len() ==> (#[trigger] line_interior(r)[i]) != '\n',
        spec_parse_line(line_interior(r)) == Option::Some(r),
        line_text(r) =~= line_interior(r) + seq!['\n'],
{
    reveal_strlit("grey");
    reveal_strlit("white");
    reveal_strlit("gold");
    reveal_strlit("dark");
    reveal_strlit("black");
    assert("grey"@ =~= seq!['g', 'r', 'e', 'y']);
    assert("white"@ =~= seq!['w', 'h', 'i', 't', 'e']);
    assert("gold"@ =~= seq!['g', 'o', 'l', 'd']);
    assert("dark"@ =~= seq!['d', 'a', 'r', 'k']);
    let cw = color_word(r.0);
    let at = addr_text(r.1.0);
    let ds = dec_str(r.1.1 as nat);
    let t = line_interior(r);
    lemma_addr_text_clean(r.1.0);
    lemma_decode_addr_complete(r.1.0);
    lemma_dec_roundtrip(r.1.1 as nat);
    let tail2 = at + seq!['\t'] + ds;
    assert(t =~= cw + seq!['\t'] + tail2);
    lemma_split_ch_concat(cw, tail2, '\t');
    lemma_split_ch_concat(at, ds, '\t');
    lemma_split_ch_whole(ds, '\t');
    let parts = split_ch(t, '\t');
    assert(parts =~= seq![cw, at, ds]);
    assert(spec_color_of(cw) == Option::Some(r.0));
    assert(spec_parse_u64(ds) == Option::Some(r.1.1));
    assert forall|i: int| 0 <= i < t.len() implies (#[trigger] t[i]) != '\n' by {
        let n1 = cw.len() as int;
        let n2 = n1 + 1;
        let n3 = n2 + at.len() as int;
        let n4 = n3 + 1;
        if i < n1 {
            assert(t[i] == cw[i]);
        } else if i < n2 {
            assert(t[i] == '\t');
        } else if i < n3 {
            assert(t[i] == at[i - n2]);
        } else if i < n4 {
            assert(t[i] == '\t');
        } else {
            assert(t[i] == ds[i - n4]);
            assert(is_dec_digit(ds[i - n4]));
        }
    }
}

/// The dump of well-formed records reads back to exactly those records.
pub proof fn lemma_dump_complete(recs: Seq<RecV>)
    requires
        forall|i: int| 0 <= i < recs.len() ==> wf_rec(#[trigger] recs[i]),
    ensures
        spec_parse_records(dump_text(recs)) == recs,
    decreases recs.len(),
{
    if recs.len() == 0 {
        assert(dump_text(recs) == Seq::<char>::empty());
        assert(spec_parse_records(dump_text(recs)) =~= recs);
    } else {
        let r0 = recs[0];
        lemma_line_complete(r0);
        let interior = line_interior(r0);
        let rest = dump_text(recs.drop_first());
        let s = dump_text(recs);
        assert(s =~= interior + (seq!['\n'] + rest));
        lemma_find_ch_concat(interior, seq!['\n'] + rest, '\n');
        let i = find_ch(s, '\n');
        assert(i == interior.len());
        assert(s.take(i) =~= interior);
        assert(s.skip(i + 1) =~= rest);
        lemma_dump_complete(recs.drop_first());
        assert(spec_parse_records(s) =~= recs);
    }
}

/// One record read from a line.
fn parse_line(s: &str) -> (r: Option<Record>)
    ensures
        ({
            match r {
                Option::Some(rec) => spec_parse_line(s@) == Option::Some(recview(rec)),
                Option::None => spec_parse_line(s@) is None,
            }
        }),
{
    let parts = split_str(s, '\t');
    if parts.len() < 3 {
        return None;
    }
    let color = if crate::addr::str_eq(parts[0].as_str(), "gold") {
        HostColor::Gold
    } else if crate::addr::str_eq(parts[0].as_str(), "white") {
        HostColor::White
    } else if crate::addr::str_eq(parts[0].as_str(), "grey") {
        HostColor::Grey
    } else if crate::addr::str_eq(parts[0].as_str(), "dark") {
        HostColor::Dark
    } else {
        return None;
    };
    let addr = match decode_addr(parts[1].as_str()) {
        Option::Some(a) => a,
        Option::None => {
            return None;
        },
    };
    let ls = match parse_dec_bounded(parts[2].as_str(), u64::MAX) {
        Option::Some(v) => v,
        Option::None => {
            return None;
        },
    };
    Some((color, (addr, ls)))
}

/// The records of a persistence file; malformed lines are skipped.
pub fn parse_records(s: &str) -> (r: Vec<Record>)
    ensures
        r@.len() == spec_parse_records(s@).len(),
        forall|i: int|
            0 <= i < r@.len() ==> recview(#[trigger] r@[i]) == spec_parse_records(s@)[i],
    decreases s@.len(),
{
    proof {
        lemma_find_ch_bounds(s@, '\n');
    }
    match find_char(s, '\n') {
        Option::None => {
            let n = s.unicode_len();
            let mut out: Vec<Record> = Vec::new();
            if n > 0 {
                match parse_line(s) {
                    Option::Some(rec) => {
                        out.push(rec);
                    },
                    Option::None => {},
                }
            }
            out
        },
        Option::Some(i) => {
            let n = s.unicode_len();
            let line = s.substring_char(0, i);
            let rest = s.substring_char(i + 1, n);
            proof {
                assert(line@ == s@.take(i as int));
                assert(rest@ == s@.skip(i as int + 1));
            }
            let mut tail = parse_records(rest);
            match parse_line(line) {
                Option::Some(rec) => {
                    tail.insert(0, rec);
                },
                Option::None => {},
            }
            tail
        },
    }
}

// ---------------------------------------------------------------------------
// Saving and loading the books
// ---------------------------------------------------------------------------

/// A book's entries tagged with its colour.
pub open spec fn tagged(c: HostColor, book: Seq<EntryV>) -> Seq<RecV> {
    Seq::new(book.len(), |i: int| (c, book[i]))
}

/// The records a container saves: Dark, Grey, White, then Gold. Black is
/// never persisted.
pub open spec fn save_records(
    g: Seq<EntryV>,
    w: Seq<EntryV>,
    go: Seq<EntryV>,
    d: Seq<EntryV>,
) -> Seq<RecV> {
    tagged(HostColor::Dark, d) + tagged(HostColor::Grey, g) + tagged(HostColor::White, w) + tagged(
        HostColor::Gold,
        go,
    )
}

/// The dump of concatenated records is the concatenation of their dumps.
pub proof fn lemma_dump_concat(a: Seq<RecV>, b: Seq<RecV>)
    ensures
        dump_text(a + b) == dump_text(a) + dump_text(b),
    decreases a.len(),
{
    if a.len() == 0 {
        assert(a + b =~= b);
        assert(dump_text(a) == Seq::<char>::empty());
        assert(dump_text(a + b) =~= dump_text(a) + dump_text(b));
    } else {
        assert((a + b)[0] == a[0]);
        assert((a + b).drop_first() =~= a.drop_first() + b);
        lemma_dump_concat(a.drop_first(), b);
        assert(dump_text(a + b) =~= dump_text(a) + dump_text(b));
    }
}

/// The dump grows line by line.
proof fn lemma_dump_push(recs: Seq<RecV>, r: RecV)
    ensures
        dump_text(recs.push(r)) == dump_text(recs) + line_text(r),
{
    assert(recs.push(r) =~= recs + seq![r]);
    lemma_dump_concat(recs, seq![r]);
    assert(seq![r].drop_first() =~= Seq::<RecV>::empty());
    assert(dump_text(seq![r].drop_first()) == Seq::<char>::empty());
    assert(dump_text(seq![r]) =~= line_text(r));
}

/// Append one record line.
fn push_line(out: &mut String, color: HostColor, e: &Entry)
    ensures
        final(out)@ == old(out)@ + line_text((color, eview(*e))),
{
    match color {
        HostColor::Grey => out.append("grey"),
        HostColor::White => out.append("white"),
        HostColor::Gold => out.append("gold"),
        HostColor::Black => out.append("black"),
        HostColor::Dark => out.append("dark"),
    }
    out.append("\t");
    let a = e.0.to_url_string();
    out.append(a.as_str());
    out.append("\t");
    push_dec_u64(out, e.1);
    out.append("\n");
    proof {
        reveal_strlit("grey");
        reveal_strlit("white");
        reveal_strlit("gold");
        reveal_strlit("black");
        reveal_strlit("dark");
        reveal_strlit("\t");
        reveal_strlit("\n");
        assert("\t"@ =~= seq!['\t']);
        assert("\n"@ =~= seq!['\n']);
        assert(out@ =~= old(out)@ + line_text((color, eview(*e))));
    }
}

/// Append the lines of one book.
fn push_book(out: &mut String, color: HostColor, list: &Vec<Entry>)
    ensures
        final(out)@ == old(out)@ + dump_text(tagged(color, bview(list@))),
{
    let ghost bv = bview(list@);
    let mut i: usize = 0;
    proof {
        assert(tagged(color, bv).take(0) =~= Seq::<RecV>::empty());
        assert(out@ =~= old(out)@ + dump_text(tagged(color, bv).take(0)));
    }
    while i < list.len()
        invariant
            bv == bview(list@),
            bv.len() == list.len(),
            0 <= i <= list.len(),
            out@ == old(out)@ + dump_text(tagged(color, bv).take(i as int)),
        decreases list.len() - i,
    {
        push_line(out, color, &list[i]);
        proof {
            assert(eview(list@[i as int]) == bv[i as int]);
            lemma_dump_push(tagged(color, bv).take(i as int), (color, bv[i as int]));
            assert(tagged(color, bv).take(i + 1) =~= tagged(color, bv).take(i as int).push(
                (color, bv[i as int]),
            ));
        }
        i += 1;
    }
    proof {
        assert(tagged(color, bv).take(list@.len() as int) =~= tagged(color, bv));
    }
}

/// A book after loading one record: the entry appended, the book sorted.
pub open spec fn load_plain(book: Seq<EntryV>, e: EntryV) -> Seq<EntryV> {
    sort_desc(book.push(e))
}

/// A capped book after loading one record: appended, sorted, trimmed at the
/// cap.
pub open spec fn load_capped(book: Seq<EntryV>, e: EntryV, color: HostColor) -> Seq<EntryV> {
    let b = sort_desc(book.push(e));
    if b.len() == cap_value(color) {
        b.drop_last()
    } else {
        b
    }
}

/// The four loaded books (Grey, White, Gold, Dark) after a list of records.
/// Dark entries older than a day at load time are swept.
pub open spec fn load_books(
    g: Seq<EntryV>,
    w: Seq<EntryV>,
    go: Seq<EntryV>,
    d: Seq<EntryV>,
    recs: Seq<RecV>,
    now: u64,
) -> (Seq<EntryV>, Seq<EntryV>, Seq<EntryV>, Seq<EntryV>)
    decreases recs.len(),
{
    if recs.len() == 0 {
        (g, w, go, d)
    } else {
        let r = recs[0];
        let rest = recs.drop_first();
        match r.0 {
            HostColor::Grey => load_books(
                load_capped(g, r.1, HostColor::Grey),
                w,
                go,
                d,
                rest,
                now,
            ),
            HostColor::White => load_books(
                g,
                load_capped(w, r.1, HostColor::White),
                go,
                d,
                rest,
                now,
            ),
            HostColor::Gold => load_books(g, w, load_plain(go, r.1), d, rest, now),
            HostColor::Dark => load_books(
                g,
                w,
                go,
                swept(load_capped(d, r.1, HostColor::Dark), 86400, now),
                rest,
                now,
            ),
            HostColor::Black => load_books(g, w, go, d, rest, now),
        }
    }
}

/// Loading distributes over growing the record list at its end.
proof fn lemma_load_books_push(
    g: Seq<EntryV>,
    w: Seq<EntryV>,
    go: Seq<EntryV>,
    d: Seq<EntryV>,
    recs: Seq<RecV>,
    r: RecV,
    now: u64,
)
    ensures
        load_books(g, w, go, d, recs.push(r), now) == ({
            let prev = load_books(g, w, go, d, recs, now);
            match r.0 {
                HostColor::Grey => (
                    load_capped(prev.0, r.1, HostColor::Grey),
                    prev.1,
                    prev.2,
                    prev.3,
                ),
                HostColor::White => (
                    prev.0,
                    load_capped(prev.1, r.1, HostColor::White),
                    prev.2,
                    prev.3,
                ),
                HostColor::Gold => (prev.0, prev.1, load_plain(prev.2, r.1), prev.3),
                HostColor::Dark => (
                    prev.0,
                    prev.1,
                    prev.2,
                    swept(load_capped(prev.3, r.1, HostColor::Dark), 86400, now),
                ),
                HostColor::Black => prev,
            }
        }),
    decreases recs.len(),
{
    let sp = recs.push(r);
    if recs.len() == 0 {
        assert(sp[0] == r);
        assert(sp.drop_first() =~= Seq::<RecV>::empty());
        assert(load_books(g, w, go, d, recs, now) == (g, w, go, d));
        match r.0 {
            HostColor::Grey => {
                assert(load_books(
                    load_capped(g, r.1, HostColor::Grey),
                    w,
                    go,
                    d,
                    sp.drop_first(),
                    now,
                ) == (load_capped(g, r.1, HostColor::Grey), w, go, d));
            },
            HostColor::White => {
                assert(load_books(
                    g,
                    load_capped(w, r.1, HostColor::White),
                    go,
                    d,
                    sp.drop_first(),
                    now,
                ) == (g, load_capped(w, r.1, HostColor::White), go, d));
            },
            HostColor::Gold => {
                assert(load_books(g, w, load_plain(go, r.1), d, sp.drop_first(), now) == (
                    g,
                    w,
                    load_plain(go, r.1),
                    d,
                ));
            },
            HostColor::Dark => {
                assert(load_books(
                    g,
                    w,
                    go,
                    swept(load_capped(d, r.1, HostColor::Dark), 86400, now),
                    sp.drop_first(),
                    now,
                ) == (g, w, go, swept(load_capped(d, r.1, HostColor::Dark), 86400, now)));
            },
            HostColor::Black => {
                assert(load_books(g, w, go, d, sp.drop_first(), now) == (g, w, go, d));
            },
        }
    } else {
        assert(sp[0] == recs[0]);
        assert(sp.drop_first() =~= recs.drop_first().push(r));
        let r0 = recs[0];
        match r0.0 {
            HostColor::Grey => {
                lemma_load_books_push(
                    load_capped(g, r0.1, HostColor::Grey),
                    w,
                    go,
                    d,
                    recs.drop_first(),
                    r,
                    now,
                );
            },
            HostColor::White => {
                lemma_load_books_push(
                    g,
                    load_capped(w, r0.1, HostColor::White),
                    go,
                    d,
                    recs.drop_first(),
                    r,
                    now,
                );
            },
            HostColor::Gold => {
                lemma_load_books_push(g, w, load_plain(go, r0.1), d, recs.drop_first(), r, now);
            },
            HostColor::Dark => {
                lemma_load_books_push(
                    g,
                    w,
                    go,
                    swept(load_capped(d, r0.1, HostColor::Dark), 86400, now),
                    recs.drop_first(),
                    r,
                    now,
                );
            },
            HostColor::Black => {
                lemma_load_books_push(g, w, go, d, recs.drop_first(), r, now);
            },
        }
    }
}

impl HostContainer {
    /// The persistence file of the four saved books, one record per line.
    pub fn save_all(&self) -> (r: String)
        ensures
            r@ == dump_text(
                save_records(self.books(0), self.books(1), self.books(2), self.books(4)),
            ),
    {
        let mut out = String::new();
        let dark = self.fetch_all(HostColor::Dark);
        let grey = self.fetch_all(HostColor::Grey);
        let white = self.fetch_all(HostColor::White);
        let gold = self.fetch_all(HostColor::Gold);
        push_book(&mut out, HostColor::Dark, &dark);
        push_book(&mut out, HostColor::Grey, &grey);
        push_book(&mut out, HostColor::White, &white);
        push_book(&mut out, HostColor::Gold, &gold);
        proof {
            lemma_dump_concat(
                tagged(HostColor::Dark, self.books(4)),
                tagged(HostColor::Grey, self.books(0)),
            );
            lemma_dump_concat(
                tagged(HostColor::Dark, self.books(4)) + tagged(HostColor::Grey, self.books(0)),
                tagged(HostColor::White, self.books(1)),
            );
            lemma_dump_concat(
                tagged(HostColor::Dark, self.books(4)) + tagged(HostColor::Grey, self.books(0))
                    + tagged(HostColor::White, self.books(1)),
                tagged(HostColor::Gold, self.books(2)),
            );
            assert(out@ =~= dump_text(
                save_records(self.books(0), self.books(1), self.books(2), self.books(4)),
            ));
        }
        out
    }

    /// Restore the books from a persistence file: each well-formed record is
    /// appended to its book, the book sorted and trimmed at its cap, and the
    /// Dark book swept of entries older than a day. Malformed lines are
    /// skipped; Black is never read from disk.
    pub fn load_all(&mut self, contents: &str, now: u64)
        ensures
            ({
                let out = load_books(
                    old(self).books(0),
                    old(self).books(1),
                    old(self).books(2),
                    old(self).books(4),
                    spec_parse_records(contents@),
                    now,
                );
                &&& final(self).books(0) == out.0
                &&& final(self).books(1) == out.1
                &&& final(self).books(2) == out.2
                &&& final(self).books(4) == out.3
                &&& final(self).books(3) == old(self).books(3)
            }),
    {
        let records = parse_records(contents);
        let ghost rv = spec_parse_records(contents@);
        let mut k: usize = 0;
        proof {
            assert(rv.take(0) =~= Seq::<RecV>::empty());
        }
        while k < records.len()
            invariant
                records@.len() == rv.len(),
                forall|i: int| 0 <= i < rv.len() ==> recview(#[trigger] records@[i]) == rv[i],
                0 <= k <= records@.len(),
                ({
                    let out = load_books(
                        old(self).books(0),
                        old(self).books(1),
                        old(self).books(2),
                        old(self).books(4),
                        rv.take(k as int),
                        now,
                    );
                    &&& self.books(0) == out.0
                    &&& self.books(1) == out.1
                    &&& self.books(2) == out.2
                    &&& self.books(4) == out.3
                    &&& self.books(3) == old(self).books(3)
                }),
            decreases records@.len() - k,
        {
            let color = records[k].0;
            let addr = records[k].1.0.clone();
            let ls = records[k].1.1;
            let ghost r = rv[k as int];
            proof {
                assert(recview(records@[k as int]) == r);
                assert(r.1 == (addr@, ls));
                assert(rv.take(k + 1) =~= rv.take(k as int).push(r));
                lemma_load_books_push(
                    old(self).books(0),
                    old(self).books(1),
                    old(self).books(2),
                    old(self).books(4),
                    rv.take(k as int),
                    r,
                    now,
                );
            }
            match color {
                HostColor::Grey => {
                    self.store(0, addr, ls);
                    self.sort_by_last_seen(0);
                    self.resize(HostColor::Grey);
                },
                HostColor::White => {
                    self.store(1, addr, ls);
                    self.sort_by_last_seen(1);
                    self.resize(HostColor::White);
                },
                HostColor::Gold => {
                    self.store(2, addr, ls);
                    self.sort_by_last_seen(2);
                },
                HostColor::Dark => {
                    self.store(4, addr, ls);
                    self.sort_by_last_seen(4);
                    self.resize(HostColor::Dark);
                    self.refresh(HostColor::Dark, 86400, now);
                },
                HostColor::Black => {},
            }
            k += 1;
        }
        proof {
            assert(rv.take(records@.len() as int) =~= rv);
        }
    }
}

} // verus!
