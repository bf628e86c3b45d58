//! The address model: a URL-shaped value `scheme://host[:port][/path]`.
//!
//! Transports form a closed tagged variant keyed on scheme; hosts are plain
//! values (a domain string, four IPv4 octets or eight IPv6 segments), so that
//! every rule that reads an address is stated over its components.

use vstd::prelude::*;
use vstd::string::StrSliceExecFns;
use vstd::string::StringExecFns;

verus! {

/// Four IPv4 octets, most significant first.
#[derive(Clone, Copy, Debug, PartialEq, Eq, Structural)]
pub struct Ipv4Rep {
    pub o0: u8,
    pub o1: u8,
    pub o2: u8,
    pub o3: u8,
}

/// Eight IPv6 groups of 16 bits, most significant first.
#[derive(Clone, Copy, Debug, PartialEq, Eq, Structural)]
pub struct Ipv6Rep {
    pub s0: u16,
    pub s1: u16,
    pub s2: u16,
    pub s3: u16,
    pub s4: u16,
    pub s5: u16,
    pub s6: u16,
    pub s7: u16,
}

/// The transports a peer address can carry: the closed scheme set, UNIX
/// sockets, and an escape for any other scheme a URL may name.
#[derive(Debug)]
pub enum Transport {
    Tcp,
    TcpTls,
    Tor,
    TorTls,
    I2p,
    I2pTls,
    Nym,
    NymTls,
    Socks5,
    Socks5Tls,
    Unix,
    Other(String),
}

/// Mathematical image of `Transport`.
pub enum TransportV {
    Tcp,
    TcpTls,
    Tor,
    TorTls,
    I2p,
    I2pTls,
    Nym,
    NymTls,
    Socks5,
    Socks5Tls,
    Unix,
    Other(Seq<char>),
}

impl View for Transport {
    type V = TransportV;

    open spec fn view(&self) -> TransportV {
        match self {
            Transport::Tcp => TransportV::Tcp,
            Transport::TcpTls => TransportV::TcpTls,
            Transport::Tor => TransportV::Tor,
            Transport::TorTls => TransportV::TorTls,
            Transport::I2p => TransportV::I2p,
            Transport::I2pTls => TransportV::I2pTls,
            Transport::Nym => TransportV::Nym,
            Transport::NymTls => TransportV::NymTls,
            Transport::Socks5 => TransportV::Socks5,
            Transport::Socks5Tls => TransportV::Socks5Tls,
            Transport::Unix => TransportV::Unix,
            Transport::Other(s) => TransportV::Other(s@),
        }
    }
}

/// The host part of an address.
#[derive(Debug)]
pub enum HostAddr {
    Domain(String),
    Ip4(Ipv4Rep),
    Ip6(Ipv6Rep),
}

/// Mathematical image of `HostAddr`.
pub enum HostAddrV {
    Domain(Seq<char>),
    Ip4(Ipv4Rep),
    Ip6(Ipv6Rep),
}

impl View for HostAddr {
    type V = HostAddrV;

    open spec fn view(&self) -> HostAddrV {
        match self {
            HostAddr::Domain(d) => HostAddrV::Domain(d@),
            HostAddr::Ip4(ip) => HostAddrV::Ip4(*ip),
            HostAddr::Ip6(ip) => HostAddrV::Ip6(*ip),
        }
    }
}

/// A peer address: scheme, optional host, optional port and a path without
/// its leading slash. Equality is componentwise, which on the canonical URL
/// form is byte-exact equality.
#[derive(Debug)]
pub struct Addr {
    pub scheme: Transport,
    pub host: Option<HostAddr>,
    pub port: Option<u16>,
    pub path: String,
}

/// Mathematical image of `Addr`.
pub struct AddrV {
    pub scheme: TransportV,
    pub host: Option<HostAddrV>,
    pub port: Option<u16>,
    pub path: Seq<char>,
}

impl View for Addr {
    type V = AddrV;

    open spec fn view(&self) -> AddrV {
        AddrV {
            scheme: self.scheme@,
            host: match &self.host {
                Option::None => Option::None,
                Option::Some(h) => Option::Some(h@),
            },
            port: self.port,
            path: self.path@,
        }
    }
}

// ---------------------------------------------------------------------------
// Equality and cloning
// ---------------------------------------------------------------------------

/// Compares two string slices character by character.
pub fn str_eq(a: &str, b: &str) -> (r: bool)
    ensures
        r == (a@ == b@),
{
    let alen = a.unicode_len();
    let blen = b.unicode_len();
    if alen != blen {
        return false;
    }
    let mut i: usize = 0;
    while i < alen
        invariant
            alen == a@.len(),
            alen == b@.len(),
            0 <= i <= alen,
            forall|j: int| 0 <= j < i ==> a@[j] == b@[j],
        decreases alen - i,
    {
        if a.get_char(i) != b.get_char(i) {
            return false;
        }
        i += 1;
    }
    proof {
        assert(a@ =~= b@);
    }
    true
}

impl Clone for Transport {
    fn clone(&self) -> (r: Self)
        ensures
            r@ == self@,
    {
        match self {
            Transport::Tcp => Transport::Tcp,
            Transport::TcpTls => Transport::TcpTls,
            Transport::Tor => Transport::Tor,
            Transport::TorTls => Transport::TorTls,
            Transport::I2p => Transport::I2p,
            Transport::I2pTls => Transport::I2pTls,
            Transport::Nym => Transport::Nym,
            Transport::NymTls => Transport::NymTls,
            Transport::Socks5 => Transport::Socks5,
            Transport::Socks5Tls => Transport::Socks5Tls,
            Transport::Unix => Transport::Unix,
            Transport::Other(s) => Transport::Other(s.clone()),
        }
    }
}

impl PartialEq for Transport {
    fn eq(&self, other: &Self) -> (r: bool) {
        match self {
            Transport::Tcp => matches!(other, Transport::Tcp),
            Transport::TcpTls => matches!(other, Transport::TcpTls),
            Transport::Tor => matches!(other, Transport::Tor),
            Transport::TorTls => matches!(other, Transport::TorTls),
            Transport::I2p => matches!(other, Transport::I2p),
            Transport::I2pTls => matches!(other, Transport::I2pTls),
            Transport::Nym => matches!(other, Transport::Nym),
            Transport::NymTls => matches!(other, Transport::NymTls),
            Transport::Socks5 => matches!(other, Transport::Socks5),
            Transport::Socks5Tls => matches!(other, Transport::Socks5Tls),
            Transport::Unix => matches!(other, Transport::Unix),
            Transport::Other(a) => match other {
                Transport::Other(b) => *a == *b,
                _ => false,
            },
        }
    }
}

impl vstd::std_specs::cmp::PartialEqSpecImpl for Transport {
    open spec fn obeys_eq_spec() -> bool {
        true
    }

    open spec fn eq_spec(&self, other: &Self) -> bool {
        self@ == other@
    }
}

impl Clone for HostAddr {
    fn clone(&self) -> (r: Self)
        ensures
            r@ == self@,
    {
        match self {
            HostAddr::Domain(d) => HostAddr::Domain(d.clone()),
            HostAddr::Ip4(ip) => HostAddr::Ip4(*ip),
            HostAddr::Ip6(ip) => HostAddr::Ip6(*ip),
        }
    }
}

impl PartialEq for HostAddr {
    fn eq(&self, other: &Self) -> (r: bool) {
        match self {
            HostAddr::Domain(a) => match other {
                HostAddr::Domain(b) => *a == *b,
                _ => false,
            },
            HostAddr::Ip4(a) => match other {
                HostAddr::Ip4(b) => *a == *b,
                _ => false,
            },
            HostAddr::Ip6(a) => match other {
                HostAddr::Ip6(b) => *a == *b,
                _ => false,
            },
        }
    }
}

impl vstd::std_specs::cmp::PartialEqSpecImpl for HostAddr {
    open spec fn obeys_eq_spec() -> bool {
        true
    }

    open spec fn eq_spec(&self, other: &Self) -> bool {
        self@ == other@
    }
}

impl Clone for Addr {
    fn clone(&self) -> (r: Self)
        ensures
            r@ == self@,
    {
        Addr {
            scheme: self.scheme.clone(),
            host: match &self.host {
                Option::None => Option::None,
                Option::Some(h) => Option::Some(h.clone()),
            },
            port: self.port,
            path: self.path.clone(),
        }
    }
}

impl PartialEq for Addr {
    fn eq(&self, other: &Self) -> (r: bool) {
        let hosts_equal = match (&self.host, &other.host) {
            (Option::None, Option::None) => true,
            (Option::Some(a), Option::Some(b)) => *a == *b,
            _ => false,
        };
        let ports_equal = match (self.port, other.port) {
            (Option::None, Option::None) => true,
            (Option::Some(a), Option::Some(b)) => a == b,
            _ => false,
        };
        hosts_equal && ports_equal && self.scheme == other.scheme && self.path == other.path
    }
}

impl vstd::std_specs::cmp::PartialEqSpecImpl for Addr {
    open spec fn obeys_eq_spec() -> bool {
        true
    }

    open spec fn eq_spec(&self, other: &Self) -> bool {
        self@ == other@
    }
}

// ---------------------------------------------------------------------------
// Scheme names
// ---------------------------------------------------------------------------

/// The scheme word of a transport, as it stands in a URL.
pub open spec fn transport_name(t: TransportV) -> Seq<char> {
    match t {
        TransportV::Tcp => "tcp"@,
        TransportV::TcpTls => "tcp+tls"@,
        TransportV::Tor => "tor"@,
        TransportV::TorTls => "tor+tls"@,
        TransportV::I2p => "i2p"@,
        TransportV::I2pTls => "i2p+tls"@,
        TransportV::Nym => "nym"@,
        TransportV::NymTls => "nym+tls"@,
        TransportV::Socks5 => "socks5"@,
        TransportV::Socks5Tls => "socks5+tls"@,
        TransportV::Unix => "unix"@,
        TransportV::Other(s) => s,
    }
}

/// The transport a scheme word denotes.
pub open spec fn spec_transport_of(s: Seq<char>) -> TransportV {
    if s == "tcp"@ {
        TransportV::Tcp
    } else if s == "tcp+tls"@ {
        TransportV::TcpTls
    } else if s == "tor"@ {
        TransportV::Tor
    } else if s == "tor+tls"@ {
        TransportV::TorTls
    } else if s == "i2p"@ {
        TransportV::I2p
    } else if s == "i2p+tls"@ {
        TransportV::I2pTls
    } else if s == "nym"@ {
        TransportV::Nym
    } else if s == "nym+tls"@ {
        TransportV::NymTls
    } else if s == "socks5"@ {
        TransportV::Socks5
    } else if s == "socks5+tls"@ {
        TransportV::Socks5Tls
    } else if s == "unix"@ {
        TransportV::Unix
    } else {
        TransportV::Other(s)
    }
}

impl Transport {
    /// The scheme word of this transport as an owned string.
    pub fn name(&self) -> (r: String)
        ensures
            r@ == transport_name(self@),
    {
        match self {
            Transport::Tcp => String::from_str("tcp"),
            Transport::TcpTls => String::from_str("tcp+tls"),
            Transport::Tor => String::from_str("tor"),
            Transport::TorTls => String::from_str("tor+tls"),
            Transport::I2p => String::from_str("i2p"),
            Transport::I2pTls => String::from_str("i2p+tls"),
            Transport::Nym => String::from_str("nym"),
            Transport::NymTls => String::from_str("nym+tls"),
            Transport::Socks5 => String::from_str("socks5"),
            Transport::Socks5Tls => String::from_str("socks5+tls"),
            Transport::Unix => String::from_str("unix"),
            Transport::Other(s) => s.clone(),
        }
    }

    /// The transport a scheme word denotes; unknown words stay as they are.
    pub fn from_name(s: &str) -> (r: Transport)
        ensures
            r@ == spec_transport_of(s@),
    {
        if str_eq(s, "tcp") {
            Transport::Tcp
        } else if str_eq(s, "tcp+tls") {
            Transport::TcpTls
        } else if str_eq(s, "tor") {
            Transport::Tor
        } else if str_eq(s, "tor+tls") {
            Transport::TorTls
        } else if str_eq(s, "i2p") {
            Transport::I2p
        } else if str_eq(s, "i2p+tls") {
            Transport::I2pTls
        } else if str_eq(s, "nym") {
            Transport::Nym
        } else if str_eq(s, "nym+tls") {
            Transport::NymTls
        } else if str_eq(s, "socks5") {
            Transport::Socks5
        } else if str_eq(s, "socks5+tls") {
            Transport::Socks5Tls
        } else if str_eq(s, "unix") {
            Transport::Unix
        } else {
            Transport::Other(s.to_owned())
        }
    }
}

// ---------------------------------------------------------------------------
// Well-formedness
// ---------------------------------------------------------------------------

/// Characters a scheme word may hold after its first letter.
pub open spec fn scheme_char_ok(c: char) -> bool {
    ('a' <= c && c <= 'z') || ('0' <= c && c <= '9') || c == '+' || c == '-' || c == '.'
}

/// A well-formed scheme word: nonempty, a lowercase letter first, then
/// lowercase letters, digits, `+`, `-` or `.`.
pub open spec fn wf_scheme_chars(s: Seq<char>) -> bool {
    &&& s.len() > 0
    &&& 'a' <= s[0] && s[0] <= 'z'
    &&& forall|i: int| 0 <= i < s.len() ==> scheme_char_ok(#[trigger] s[i])
}

/// A transport is well formed when an `Other` scheme word is itself well
/// formed and is none of the named schemes, so that scheme words map to
/// transports one to one.
pub open spec fn wf_transport(t: TransportV) -> bool {
    match t {
        TransportV::Other(s) => wf_scheme_chars(s) && spec_transport_of(s) == TransportV::Other(s),
        _ => true,
    }
}

/// Characters a domain may hold: everything but the URL host separators and
/// whitespace that URL parsing forbids in a host.
pub open spec fn host_char_ok(c: char) -> bool {
    !(c == ':' || c == '/' || c == '[' || c == ']' || c == '\t' || c == '\n' || c == '\r'
        || c == ' ' || c == '#' || c == '?' || c == '@' || c == '\\' || c == '<' || c == '>'
        || c == '^' || c == '|' || c == '\u{0}')
}

/// A well-formed domain: nonempty, no forbidden host character, and not of
/// dotted-decimal IPv4 shape (such a host is held as `Ip4`).
pub open spec fn wf_domain(s: Seq<char>) -> bool {
    &&& s.len() > 0
    &&& forall|i: int| 0 <= i < s.len() ==> host_char_ok(#[trigger] s[i])
    &&& crate::codec::spec_parse_ipv4(s) is None
}

/// A well-formed host part.
pub open spec fn wf_host(h: HostAddrV) -> bool {
    match h {
        HostAddrV::Domain(d) => wf_domain(d),
        _ => true,
    }
}

/// Characters a path may hold: anything but the whitespace that URL parsing
/// strips or encodes, so a path never breaks a record line.
pub open spec fn path_char_ok(c: char) -> bool {
    !(c == '\t' || c == '\n' || c == '\r')
}

/// A well-formed address. A port needs a host to stand after.
pub open spec fn wf_addr(a: AddrV) -> bool {
    &&& wf_transport(a.scheme)
    &&& match a.host {
        Option::Some(h) => wf_host(h),
        Option::None => true,
    }
    &&& (a.port is Some ==> a.host is Some)
    &&& forall|i: int| 0 <= i < a.path.len() ==> path_char_ok(#[trigger] a.path[i])
}

// ---------------------------------------------------------------------------
// Local and global ranges
// ---------------------------------------------------------------------------

/// Whether an IPv4 address is globally reachable, after the extended IETF
/// definition: everything outside "this network", private, shared (CGN),
/// loopback, link-local, the `192.0.0.0/24` protocol block (except `.9` and
/// `.10`), documentation, benchmarking, reserved and broadcast ranges.
pub open spec fn spec_ipv4_is_global(ip: Ipv4Rep) -> bool {
    !(ip.o0 == 0 || ip.o0 == 10 || (ip.o0 == 172 && 16 <= ip.o1 && ip.o1 <= 31) || (ip.o0 == 192
        && ip.o1 == 168) || (ip.o0 == 100 && (ip.o1 & 0b1100_0000) == 0b0100_0000) || ip.o0 == 127
        || (ip.o0 == 169 && ip.o1 == 254) || (ip.o0 == 192 && ip.o1 == 0 && ip.o2 == 0 && ip.o3
        != 9 && ip.o3 != 10) || (ip.o0 == 192 && ip.o1 == 0 && ip.o2 == 2) || (ip.o0 == 198
        && ip.o1 == 51 && ip.o2 == 100) || (ip.o0 == 203 && ip.o1 == 0 && ip.o2 == 113) || (ip.o0
        == 198 && (ip.o1 & 0xfe) == 18) || ((ip.o0 & 240) == 240))
}

/// Whether an IPv6 address is globally reachable, after the extended IETF
/// definition.
pub open spec fn spec_ipv6_is_global(ip: Ipv6Rep) -> bool {
    !(spec_ipv6_is_unspecified(ip) || spec_ipv6_is_loopback(ip) || (ip.s0 == 0 && ip.s1 == 0
        && ip.s2 == 0 && ip.s3 == 0 && ip.s4 == 0 && ip.s5 == 0xffff) || (ip.s0 == 0x64 && ip.s1
        == 0xff9b && ip.s2 == 1) || (ip.s0 == 0x100 && ip.s1 == 0 && ip.s2 == 0 && ip.s3 == 0) || (
    ip.s0 == 0x2001 && ip.s1 < 0x200 && !((ip.s1 == 1 && ip.s2 == 0 && ip.s3 == 0 && ip.s4 == 0
        && ip.s5 == 0 && ip.s6 == 0 && (ip.s7 == 1 || ip.s7 == 2)) || (ip.s1 == 3) || (ip.s1 == 4
        && ip.s2 == 0x112) || (0x20 <= ip.s1 && ip.s1 <= 0x3F))) || ip.s0 == 0x2002 || (ip.s0
        == 0x2001 && ip.s1 == 0xdb8) || (ip.s0 == 0x3fff && ip.s1 <= 0x0fff) || ip.s0 == 0x5f00
        || (ip.s0 & 0xfe00) == 0xfc00 || (ip.s0 & 0xffc0) == 0xfe80)
}

pub open spec fn spec_ipv6_is_unspecified(ip: Ipv6Rep) -> bool {
    ip.s0 == 0 && ip.s1 == 0 && ip.s2 == 0 && ip.s3 == 0 && ip.s4 == 0 && ip.s5 == 0 && ip.s6 == 0
        && ip.s7 == 0
}

pub open spec fn spec_ipv6_is_loopback(ip: Ipv6Rep) -> bool {
    ip.s0 == 0 && ip.s1 == 0 && ip.s2 == 0 && ip.s3 == 0 && ip.s4 == 0 && ip.s5 == 0 && ip.s6 == 0
        && ip.s7 == 1
}

/// Executable check of `spec_ipv4_is_global`.
pub fn ipv4_is_global(ip: &Ipv4Rep) -> (r: bool)
    ensures
        r == spec_ipv4_is_global(*ip),
{
    !(ip.o0 == 0 || ip.o0 == 10 || (ip.o0 == 172 && 16 <= ip.o1 && ip.o1 <= 31) || (ip.o0 == 192
        && ip.o1 == 168) || (ip.o0 == 100 && (ip.o1 & 0b1100_0000) == 0b0100_0000) || ip.o0 == 127
        || (ip.o0 == 169 && ip.o1 == 254) || (ip.o0 == 192 && ip.o1 == 0 && ip.o2 == 0 && ip.o3
        != 9 && ip.o3 != 10) || (ip.o0 == 192 && ip.o1 == 0 && ip.o2 == 2) || (ip.o0 == 198
        && ip.o1 == 51 && ip.o2 == 100) || (ip.o0 == 203 && ip.o1 == 0 && ip.o2 == 113) || (ip.o0
        == 198 && (ip.o1 & 0xfe) == 18) || ((ip.o0 & 240) == 240))
}

/// Executable check of `spec_ipv6_is_global`.
pub fn ipv6_is_global(ip: &Ipv6Rep) -> (r: bool)
    ensures
        r == spec_ipv6_is_global(*ip),
{
    let unspecified = ip.s0 == 0 && ip.s1 == 0 && ip.s2 == 0 && ip.s3 == 0 && ip.s4 == 0 && ip.s5
        == 0 && ip.s6 == 0 && ip.s7 == 0;
    let loopback = ip.s0 == 0 && ip.s1 == 0 && ip.s2 == 0 && ip.s3 == 0 && ip.s4 == 0 && ip.s5 == 0
        && ip.s6 == 0 && ip.s7 == 1;
    !(unspecified || loopback || (ip.s0 == 0 && ip.s1 == 0 && ip.s2 == 0 && ip.s3 == 0 && ip.s4
        == 0 && ip.s5 == 0xffff) || (ip.s0 == 0x64 && ip.s1 == 0xff9b && ip.s2 == 1) || (ip.s0
        == 0x100 && ip.s1 == 0 && ip.s2 == 0 && ip.s3 == 0) || (ip.s0 == 0x2001 && ip.s1 < 0x200
        && !((ip.s1 == 1 && ip.s2 == 0 && ip.s3 == 0 && ip.s4 == 0 && ip.s5 == 0 && ip.s6 == 0 && (
    ip.s7 == 1 || ip.s7 == 2)) || (ip.s1 == 3) || (ip.s1 == 4 && ip.s2 == 0x112) || (0x20 <= ip.s1
        && ip.s1 <= 0x3F))) || ip.s0 == 0x2002 || (ip.s0 == 0x2001 && ip.s1 == 0xdb8) || (ip.s0
        == 0x3fff && ip.s1 <= 0x0fff) || ip.s0 == 0x5f00 || (ip.s0 & 0xfe00) == 0xfc00 || (ip.s0
        & 0xffc0) == 0xfe80)
}

/// Whether an address names a local host: a non-global IP range, or one of
/// the conventional local domain names.
pub open spec fn spec_is_local(a: AddrV) -> bool {
    match a.host {
        Option::Some(HostAddrV::Ip4(ip)) => !spec_ipv4_is_global(ip),
        Option::Some(HostAddrV::Ip6(ip)) => !spec_ipv6_is_global(ip),
        Option::Some(HostAddrV::Domain(d)) => d == "localhost"@ || d == "localhost.localdomain"@,
        Option::None => false,
    }
}

/// Whether an address has an IPv6 host.
pub open spec fn spec_is_ipv6(a: AddrV) -> bool {
    match a.host {
        Option::Some(HostAddrV::Ip6(_)) => true,
        _ => false,
    }
}

impl Addr {
    /// Executable check of `spec_is_local`.
    pub fn is_local(&self) -> (r: bool)
        ensures
            r == spec_is_local(self@),
    {
        match &self.host {
            Option::Some(HostAddr::Ip4(ip)) => !ipv4_is_global(ip),
            Option::Some(HostAddr::Ip6(ip)) => !ipv6_is_global(ip),
            Option::Some(HostAddr::Domain(d)) => str_eq(d.as_str(), "localhost") || str_eq(
                d.as_str(),
                "localhost.localdomain",
            ),
            Option::None => false,
        }
    }

    /// Executable check of `spec_is_ipv6`.
    pub fn is_ipv6_host(&self) -> (r: bool)
        ensures
            r == spec_is_ipv6(self@),
    {
        match &self.host {
            Option::Some(HostAddr::Ip6(_)) => true,
            _ => false,
        }
    }
}

// ---------------------------------------------------------------------------
// I2P hosts
// ---------------------------------------------------------------------------

/// The base32 alphabet of an I2P `.b32` label.
pub open spec fn b32_char_ok(c: char) -> bool {
    ('a' <= c && c <= 'z') || ('2' <= c && c <= '7')
}

/// A `.b32` label that decodes to a 32-byte digest: base32 characters whose
/// five bits each pack into exactly 32 bytes.
pub open spec fn is_b32_hash(s: Seq<char>) -> bool {
    &&& forall|i: int| 0 <= i < s.len() ==> b32_char_ok(#[trigger] s[i])
    &&& (5 * s.len()) / 8 == 32
}

/// A character a named I2P host may hold.
pub open spec fn i2p_name_char_ok(c: char) -> bool {
    ('a' <= c && c <= 'z') || ('A' <= c && c <= 'Z') || ('0' <= c && c <= '9') || c == '-' || c
        == '.'
}

/// A valid I2P host: it ends in `.i2p`, and the name before it is either a
/// `.b32` label decoding to a 32-byte digest, or a dotted name of letters,
/// digits and hyphens.
pub open spec fn spec_is_i2p(s: Seq<char>) -> bool {
    &&& s.len() >= 4
    &&& s.skip(s.len() - 4) == ".i2p"@
    &&& {
        let name = s.take(s.len() - 4);
        if name.len() >= 4 && name.skip(name.len() - 4) == ".b32"@ {
            is_b32_hash(name.take(name.len() - 4))
        } else {
            forall|i: int| 0 <= i < name.len() ==> i2p_name_char_ok(#[trigger] name[i])
        }
    }
}

/// Whether four characters of `s` starting at `at` spell the given suffix.
fn suffix_matches(s: &str, at: usize, c0: char, c1: char, c2: char, c3: char) -> (r: bool)
    requires
        at <= usize::MAX - 4,
        at + 4 <= s@.len(),
    ensures
        r == (s@.subrange(at as int, at + 4) =~= seq![c0, c1, c2, c3]),
{
    let r = s.get_char(at) == c0 && s.get_char(at + 1) == c1 && s.get_char(at + 2) == c2
        && s.get_char(at + 3) == c3;
    proof {
        if r {
            assert(s@.subrange(at as int, at + 4) =~= seq![c0, c1, c2, c3]);
        } else {
            assert(s@.subrange(at as int, at + 4)[0] == s@[at as int]);
            assert(s@.subrange(at as int, at + 4)[1] == s@[at + 1]);
            assert(s@.subrange(at as int, at + 4)[2] == s@[at + 2]);
            assert(s@.subrange(at as int, at + 4)[3] == s@[at + 3]);
        }
    }
    r
}

/// Executable check of `spec_is_i2p`.
pub fn i2p_host_ok(host: &str) -> (r: bool)
    ensures
        r == spec_is_i2p(host@),
{
    let n = host.unicode_len();
    if n < 4 {
        return false;
    }
    proof {
        reveal_strlit(".i2p");
        reveal_strlit(".b32");
        assert(".i2p"@ =~= seq!['.', 'i', '2', 'p']);
        assert(".b32"@ =~= seq!['.', 'b', '3', '2']);
        assert(host@.skip(n - 4) =~= host@.subrange(n - 4, n as int));
    }
    if !suffix_matches(host, n - 4, '.', 'i', '2', 'p') {
        return false;
    }
    let ghost name = host@.take(n - 4);
    proof {
        assert(forall|k: int| 0 <= k < name.len() ==> name[k] == host@[k]);
    }
    let b32_form = if n >= 8 {
        proof {
            assert(name.skip(name.len() - 4) =~= host@.subrange(n - 8, n - 4));
        }
        suffix_matches(host, n - 8, '.', 'b', '3', '2')
    } else {
        proof {
            assert(name.len() < 4);
        }
        false
    };
    if b32_form {
        let ghost label = name.take(name.len() - 4);
        proof {
            assert(forall|k: int| 0 <= k < label.len() ==> label[k] == host@[k]);
        }
        let m = n - 8;
        if m != 52 {
            proof {
                assert(label.len() == m);
                assert((5 * label.len()) / 8 != 32) by {
                    if label.len() <= 51 {
                        assert(5 * label.len() <= 255);
                    } else {
                        assert(5 * label.len() >= 265);
                    }
                }
                assert(!is_b32_hash(label));
                assert(name.len() >= 4);
                assert(name.skip(name.len() - 4) == ".b32"@);
                assert(!spec_is_i2p(host@));
            }
            return false;
        }
        proof {
            assert(spec_is_i2p(host@) == is_b32_hash(label));
        }
        let mut i: usize = 0;
        while i < m
            invariant
                spec_is_i2p(host@) == is_b32_hash(label),
                m == 52,
                n == host@.len(),
                n >= 8,
                m == n - 8,
                label == host@.take(n - 4).take(n - 8),
                label.len() == m,
                forall|k: int| 0 <= k < label.len() ==> label[k] == host@[k],
                0 <= i <= m,
                forall|k: int| 0 <= k < i ==> b32_char_ok(#[trigger] label[k]),
            decreases m - i,
        {
            let c = host.get_char(i);
            proof {
                assert(label[i as int] == host@[i as int]);
            }
            if !(('a' <= c && c <= 'z') || ('2' <= c && c <= '7')) {
                return false;
            }
            i += 1;
        }
        proof {
            assert((5 * label.len()) / 8 == 32);
            assert(is_b32_hash(label));
        }
        true
    } else {
        let m = n - 4;
        proof {
            assert(spec_is_i2p(host@) == (forall|k: int|
                0 <= k < name.len() ==> i2p_name_char_ok(#[trigger] name[k])));
        }
        let mut i: usize = 0;
        while i < m
            invariant
                spec_is_i2p(host@) == (forall|k: int|
                    0 <= k < name.len() ==> i2p_name_char_ok(#[trigger] name[k])),
                n == host@.len(),
                n >= 4,
                m == n - 4,
                name == host@.take(n - 4),
                name.len() == m,
                forall|k: int| 0 <= k < name.len() ==> name[k] == host@[k],
                0 <= i <= m,
                forall|k: int| 0 <= k < i ==> i2p_name_char_ok(#[trigger] name[k]),
                !(name.len() >= 4 && name.skip(name.len() - 4) == ".b32"@),
            decreases m - i,
        {
            let c = host.get_char(i);
            proof {
                assert(name[i as int] == host@[i as int]);
            }
            if !(('a' <= c && c <= 'z') || ('A' <= c && c <= 'Z') || ('0' <= c && c <= '9') || c
                == '-' || c == '.') {
                return false;
            }
            i += 1;
        }
        true
    }
}

/// The host the address model keeps for the raw parts of a parsed URL: a
/// dotted-decimal domain is held as four octets, like an IPv4 host proper.
pub open spec fn host_of_raw(r: crate::trusted::RawUrlV) -> Option<HostAddrV> {
    if r.dom is Some {
        match crate::codec::spec_parse_ipv4(r.dom->Some_0) {
            Option::Some(ip) => Option::Some(HostAddrV::Ip4(ip)),
            Option::None => Option::Some(HostAddrV::Domain(r.dom->Some_0)),
        }
    } else if r.ip4 is Some {
        let o = r.ip4->Some_0;
        Option::Some(HostAddrV::Ip4(Ipv4Rep { o0: o[0], o1: o[1], o2: o[2], o3: o[3] }))
    } else if r.ip6 is Some {
        let g = r.ip6->Some_0;
        Option::Some(
            HostAddrV::Ip6(
                Ipv6Rep {
                    s0: g[0],
                    s1: g[1],
                    s2: g[2],
                    s3: g[3],
                    s4: g[4],
                    s5: g[5],
                    s6: g[6],
                    s7: g[7],
                },
            ),
        )
    } else {
        Option::None
    }
}

/// The address the raw parts of a parsed URL denote: the scheme word mapped
/// onto its transport, and a port kept only beside a host.
pub open spec fn addr_of_raw(r: crate::trusted::RawUrlV) -> AddrV {
    AddrV {
        scheme: spec_transport_of(r.scheme),
        host: host_of_raw(r),
        port: if host_of_raw(r) is Some {
            r.port
        } else {
            Option::None
        },
        path: r.path,
    }
}

/// The image of an optional address.
pub open spec fn addr_opt_view(r: Option<Addr>) -> Option<AddrV> {
    match r {
        Option::Some(a) => Option::Some(a@),
        Option::None => Option::None,
    }
}

impl Addr {
    /// An address parsed from a URL string: exactly what the URL parser
    /// accepts comes back, with the scheme word mapped onto its transport, an
    /// IPv4-shaped host held as four octets, and the port kept only beside a
    /// host. Whatever comes back is well formed.
    pub fn from_url(s: &str) -> (r: Option<Addr>)
        ensures
            addr_opt_view(r) == (match crate::trusted::url_parse_of(s@) {
                Option::Some(u) => Option::Some(addr_of_raw(u)),
                Option::None => Option::<AddrV>::None,
            }),
            r matches Some(a) ==> wf_addr(a@),
    {
        let raw = match crate::trusted::parse_url_raw(s) {
            Option::Some(u) => u,
            Option::None => {
                return None;
            },
        };
        let ghost rv = raw@;
        let scheme = Transport::from_name(raw.scheme.as_str());
        let host: Option<HostAddr> = match raw.dom {
            Option::Some(d) => match crate::codec::parse_ipv4_str(d.as_str()) {
                Option::Some(ip) => Option::Some(HostAddr::Ip4(ip)),
                Option::None => Option::Some(HostAddr::Domain(d)),
            },
            Option::None => match raw.ip4 {
                Option::Some(o) => Option::Some(
                    HostAddr::Ip4(Ipv4Rep { o0: o[0], o1: o[1], o2: o[2], o3: o[3] }),
                ),
                Option::None => match raw.ip6 {
                    Option::Some(g) => Option::Some(
                        HostAddr::Ip6(
                            Ipv6Rep {
                                s0: g[0],
                                s1: g[1],
                                s2: g[2],
                                s3: g[3],
                                s4: g[4],
                                s5: g[5],
                                s6: g[6],
                                s7: g[7],
                            },
                        ),
                    ),
                    Option::None => Option::None,
                },
            },
        };
        proof {
            assert((match host {
                Option::Some(h) => Option::Some(h@),
                Option::None => Option::<HostAddrV>::None,
            }) == host_of_raw(rv));
        }
        let port = if host.is_some() {
            raw.port
        } else {
            None
        };
        let a = Addr { scheme, host, port, path: raw.path };
        proof {
            assert(wf_transport(a@.scheme));
            assert(a@ == addr_of_raw(rv));
        }
        Some(a)
    }
}

} // verus!
