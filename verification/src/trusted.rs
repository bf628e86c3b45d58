//! The boundary to the outside crates. Each function here is believed, not
//! proved: its body makes one outside call and converts plain values, and its
//! contract states no more than the called crate's source shows.

use vstd::prelude::*;
use std::str::FromStr;
use rand::Rng;
use rand::seq::IteratorRandom;
use crate::addr::{HostAddr, Ipv4Rep, Ipv6Rep};
use crate::container::{bview, Entry};

verus! {

/// The raw parts of a parsed URL: the scheme word; the host as a domain
/// string, four IPv4 octets or eight IPv6 groups; the port; and the path
/// without its leading slash.
pub struct RawUrl {
    pub scheme: String,
    pub dom: Option<String>,
    pub ip4: Option<[u8; 4]>,
    pub ip6: Option<[u16; 8]>,
    pub port: Option<u16>,
    pub path: String,
}

/// Mathematical image of `RawUrl`.
pub struct RawUrlV {
    pub scheme: Seq<char>,
    pub dom: Option<Seq<char>>,
    pub ip4: Option<Seq<u8>>,
    pub ip6: Option<Seq<u16>>,
    pub port: Option<u16>,
    pub path: Seq<char>,
}

impl View for RawUrl {
    type V = RawUrlV;

    open spec fn view(&self) -> RawUrlV {
        RawUrlV {
            scheme: self.scheme@,
            dom: match &self.dom {
                Option::Some(d) => Option::Some(d@),
                Option::None => Option::None,
            },
            ip4: match self.ip4 {
                Option::Some(o) => Option::Some(o@),
                Option::None => Option::None,
            },
            ip6: match self.ip6 {
                Option::Some(g) => Option::Some(g@),
                Option::None => Option::None,
            },
            port: self.port,
            path: self.path@,
        }
    }
}

/// The image of an optional raw URL.
pub open spec fn raw_view(r: Option<RawUrl>) -> Option<RawUrlV> {
    match r {
        Option::Some(u) => Option::Some(u@),
        Option::None => Option::None,
    }
}

/// What url::Url::parse returns: the raw parts of the URL a string names, or
/// nothing for an invalid string. The answer depends on the characters alone.
pub uninterp spec fn url_parse_of(s: Seq<char>) -> Option<RawUrlV>;

/// Relies on url::Url::parse and its accessors scheme, host, port and path:
/// a parse success is handed over as its raw parts. The parser admits only a
/// nonempty lowercase scheme word; a domain host is nonempty and free of the
/// forbidden host code points (separators, brackets, whitespace); tabs and
/// line breaks never survive parsing, so the path is free of them.
#[verifier::external_body]
pub(crate) fn parse_url_raw(s: &str) -> (r: Option<RawUrl>)
    ensures
        raw_view(r) == url_parse_of(s@),
        r matches Some(u) ==> {
            &&& crate::addr::wf_scheme_chars(u.scheme@)
            &&& match &u.dom {
                Option::Some(d) => d@.len() > 0 && forall|i: int|
                    0 <= i < d@.len() ==> crate::addr::host_char_ok(#[trigger] d@[i]),
                Option::None => true,
            }
            &&& forall|i: int|
                0 <= i < u.path@.len() ==> crate::addr::path_char_ok(#[trigger] u.path@[i])
        },
{
    let u = url::Url::parse(s).ok()?;
    let (mut dom, mut ip4, mut ip6) = (None, None, None);
    match u.host() {
        Some(url::Host::Domain(d)) => dom = Some(d.to_string()),
        Some(url::Host::Ipv4(x)) => ip4 = Some(x.octets()),
        Some(url::Host::Ipv6(x)) => ip6 = Some(x.segments()),
        None => {},
    }
    let p = u.path();
    let path = p.strip_prefix('/').unwrap_or(p).to_string();
    Some(RawUrl { scheme: u.scheme().to_string(), dom, ip4, ip6, port: u.port(), path })
}

/// What tor_hscrypto::pk::HsId::from_str accepts: the valid version-3 onion
/// service hostnames. The answer depends on the characters alone.
pub uninterp spec fn is_valid_hs_id(s: Seq<char>) -> bool;

/// Relies on tor_hscrypto::pk::HsId::from_str: parses a `<base32>.onion`
/// hostname and checks its length, version and checksum.
#[verifier::external_body]
pub(crate) fn onion_host_ok(host: &str) -> (r: bool)
    ensures
        r == is_valid_hs_id(host@),
{
    tor_hscrypto::pk::HsId::from_str(host).is_ok()
}

/// Relies on rand::Rng::gen_range: a uniformly random index below `n`.
#[verifier::external_body]
pub(crate) fn random_index(n: usize) -> (r: usize)
    requires
        n > 0,
    ensures
        r < n,
{
    rand::thread_rng().gen_range(0..n)
}

/// Relies on rand::seq::IteratorRandom::choose_multiple: `amount` entries
/// sampled without replacement, all drawn from the list; fewer only when the
/// list is shorter than `amount`.
#[verifier::external_body]
pub(crate) fn random_sample(items: &Vec<Entry>, amount: usize) -> (r: Vec<Entry>)
    ensures
        bview(r@).to_multiset().subset_of(bview(items@).to_multiset()),
        r@.len() == if amount <= items@.len() {
            amount as int
        } else {
            items@.len() as int
        },
{
    let picked = items.iter().choose_multiple(&mut rand::rngs::OsRng, amount);
    picked.into_iter().map(|e| e.clone()).collect()
}

/// What blake3::hash returns: a digest of the input bytes alone.
pub uninterp spec fn blake3_of(bytes: Seq<u8>) -> Seq<u8>;

/// Relies on blake3::hash: a 32-byte digest of the input.
#[verifier::external_body]
pub(crate) fn blake3_digest(bytes: &Vec<u8>) -> (r: Vec<u8>)
    ensures
        r@ == blake3_of(bytes@),
        r@.len() == 32,
{
    blake3::hash(bytes.as_slice()).as_bytes().to_vec()
}

} // verus!
