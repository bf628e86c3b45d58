//! The host manager: the per-address registry that serialises work on peers,
//! the five coloured books, gossip filtering, promotion and demotion, and the
//! queries sessions use to pick peers and channels.

use vstd::prelude::*;
use vstd::pervasive::VecAdditionalExecFns;
use vstd::string::StringExecFns;
use crate::addr::{Addr, AddrV, Ipv6Rep, Transport};
use crate::container::{
    bview, cap_value, color_index, contains_addr, eview, has_cap, remove_addr, scheme_in, sort_desc, swept,
    upsert, Entry, EntryV, HostColor, HostContainer,
};
use crate::state::{Channel, ChannelV, HostState, HostStateV, kind_of, transition_allowed};
use crate::state::{SESSION_REFINE, SESSION_SEED};
use crate::{NetError, StateKind};

verus! {

/// One blacklist line of the configuration: a hostname, the schemes to block
/// (all of `tcp+tls` when empty), and the ports to block (all ports when
/// empty).
pub struct BlacklistEntry {
    pub hostname: String,
    pub schemes: Vec<String>,
    pub ports: Vec<u16>,
}

/// The settings the host manager reads.
pub struct Settings {
    /// Schemes we dial directly.
    pub allowed_transports: Vec<Transport>,
    /// Schemes we only dial through a mix.
    pub mixed_transports: Vec<Transport>,
    /// Seed nodes; they never enter a book.
    pub seeds: Vec<Addr>,
    /// Manual peers; they never enter a book.
    pub peers: Vec<Addr>,
    /// Our own addresses, filtered out of the books.
    pub external_addrs: Vec<Addr>,
    /// Our inbound listeners; inbound channels from them are not registered.
    pub inbound_addrs: Vec<Addr>,
    /// Hosts to load into the Black book.
    pub blacklist: Vec<BlacklistEntry>,
    /// Relaxes the private-range and external-port filtering.
    pub localnet: bool,
}

impl Default for Settings {
    /// Empty settings: no transports, no peers, localnet off.
    fn default() -> (r: Settings)
        ensures
            r.allowed_transports@.len() == 0,
            r.mixed_transports@.len() == 0,
            r.seeds@.len() == 0,
            r.peers@.len() == 0,
            r.external_addrs@.len() == 0,
            r.inbound_addrs@.len() == 0,
            r.blacklist@.len() == 0,
            !r.localnet,
    {
        Settings {
            allowed_transports: Vec::new(),
            mixed_transports: Vec::new(),
            seeds: Vec::new(),
            peers: Vec::new(),
            external_addrs: Vec::new(),
            inbound_addrs: Vec::new(),
            blacklist: Vec::new(),
            localnet: false,
        }
    }
}

/// A registry slot.
pub type Slot = (Addr, HostState);

/// Mathematical image of a slot.
pub type SlotV = (AddrV, HostStateV);

/// The image of one slot.
pub open spec fn sview(s: Slot) -> SlotV {
    (s.0@, s.1@)
}

/// The image of the registry.
pub open spec fn rview(s: Seq<Slot>) -> Seq<SlotV> {
    Seq::new(s.len(), |i: int| sview(s[i]))
}

/// The first slot index for address `a`, or -1.
pub open spec fn find_slot(reg: Seq<SlotV>, a: AddrV) -> int
    decreases reg.len(),
{
    if reg.len() == 0 {
        -1
    } else if reg[0].0 == a {
        0
    } else {
        let r = find_slot(reg.drop_first(), a);
        if r == -1 {
            -1
        } else {
            r + 1
        }
    }
}

/// `find_slot` finds the first slot of `a`, and a negative result means
/// absence.
pub proof fn lemma_find_slot(reg: Seq<SlotV>, a: AddrV)
    ensures
        -1 <= find_slot(reg, a) < reg.len(),
        find_slot(reg, a) >= 0 ==> reg[find_slot(reg, a)].0 == a,
        forall|j: int| 0 <= j < find_slot(reg, a) ==> (#[trigger] reg[j]).0 != a,
        (find_slot(reg, a) >= 0) <==> exists|i: int|
            0 <= i < reg.len() && (#[trigger] reg[i]).0 == a,
    decreases reg.len(),
{
    if reg.len() > 0 && reg[0].0 != a {
        let t = reg.drop_first();
        lemma_find_slot(t, a);
        assert(forall|k: int| 0 <= k < t.len() ==> #[trigger] t[k] == reg[k + 1]);
        let r = find_slot(t, a);
        if r == -1 {
            assert forall|j: int| 0 <= j < reg.len() implies (#[trigger] reg[j]).0 != a by {
                if j > 0 {
                    assert(reg[j] == t[j - 1]);
                }
            }
        } else {
            assert(reg[r + 1] == t[r]);
            assert forall|j: int| 0 <= j < find_slot(reg, a) implies (#[trigger] reg[j]).0
                != a by {
                if j > 0 {
                    assert(reg[j] == t[j - 1]);
                }
            }
        }
    }
}

/// The state the registry holds for an address; an absent address is `Free`.
pub open spec fn reg_state(reg: Seq<SlotV>, a: AddrV) -> HostStateV {
    let i = find_slot(reg, a);
    if i == -1 {
        HostStateV::Free(0)
    } else {
        reg[i].1
    }
}

/// The registry after writing state `s` for address `a`.
pub open spec fn reg_write(reg: Seq<SlotV>, a: AddrV, s: HostStateV) -> Seq<SlotV> {
    let i = find_slot(reg, a);
    if i == -1 {
        reg.push((a, s))
    } else {
        reg.update(i, (a, s))
    }
}

/// The state a successful claim leaves in the slot: the claimed state, except
/// that freeing an already free slot keeps its age stamp.
pub open spec fn claim_result(cur: HostStateV, ns: HostStateV) -> HostStateV {
    if ns is Free && cur is Free {
        cur
    } else {
        ns
    }
}

/// No two registry slots name the same address.
pub open spec fn unique_slots(reg: Seq<SlotV>) -> bool {
    forall|i: int, j: int|
        0 <= i < j < reg.len() ==> (#[trigger] reg[i]).0 != (#[trigger] reg[j]).0
}

/// The channels of all connected slots, in registry order.
pub open spec fn channels_of(reg: Seq<SlotV>) -> Seq<ChannelV>
    decreases reg.len(),
{
    if reg.len() == 0 {
        Seq::<ChannelV>::empty()
    } else {
        (match reg[0].1 {
            HostStateV::Connected(c) => seq![c],
            _ => Seq::<ChannelV>::empty(),
        }) + channels_of(reg.drop_first())
    }
}

/// Whether a channel belongs to a seed or refinery session.
pub open spec fn is_session_channel(c: ChannelV) -> bool {
    c.session_type_id & (SESSION_SEED | SESSION_REFINE) != 0
}

/// The channels of connected peers, seed and refinery connections left out,
/// in registry order.
pub open spec fn peers_of(reg: Seq<SlotV>) -> Seq<ChannelV>
    decreases reg.len(),
{
    if reg.len() == 0 {
        Seq::<ChannelV>::empty()
    } else {
        (match reg[0].1 {
            HostStateV::Connected(c) => if !is_session_channel(c) {
                seq![c]
            } else {
                Seq::<ChannelV>::empty()
            },
            _ => Seq::<ChannelV>::empty(),
        }) + peers_of(reg.drop_first())
    }
}

/// The addresses of all suspended slots, in registry order.
pub open spec fn suspended_of(reg: Seq<SlotV>) -> Seq<AddrV>
    decreases reg.len(),
{
    if reg.len() == 0 {
        Seq::<AddrV>::empty()
    } else {
        (match reg[0].1 {
            HostStateV::Suspend => seq![reg[0].0],
            _ => Seq::<AddrV>::empty(),
        }) + suspended_of(reg.drop_first())
    }
}

/// The host manager.
pub struct Hosts {
    /// The per-address registry; the sole arbiter of who may act on an
    /// address.
    registry: Vec<Slot>,
    /// The five coloured books.
    pub container: HostContainer,
    /// The configured settings.
    pub settings: Settings,
    /// When the last connection was registered, as a Unix second stamp.
    last_connection: u64,
    /// Whether IPv6 connectivity is available.
    ipv6_available: bool,
    /// Our own addresses as remote peers reported them, most recent last;
    /// at most twenty are kept.
    auto_self_addrs: Vec<Ipv6Rep>,
}

impl Hosts {
    /// The image of the registry.
    pub closed spec fn reg(&self) -> Seq<SlotV> {
        rview(self.registry@)
    }

    /// The books, as a container value.
    pub closed spec fn cont(&self) -> HostContainer {
        self.container
    }

    /// The configured settings.
    pub closed spec fn conf(&self) -> Settings {
        self.settings
    }

    /// The reported self addresses.
    pub closed spec fn auto_addrs(&self) -> Seq<Ipv6Rep> {
        self.auto_self_addrs@
    }

    /// When the last connection was registered.
    pub closed spec fn last_conn(&self) -> u64 {
        self.last_connection
    }

    /// Whether IPv6 connectivity is available.
    pub closed spec fn ipv6_ok(&self) -> bool {
        self.ipv6_available
    }

    /// A well-formed manager: one registry slot per address.
    pub open spec fn wf(&self) -> bool {
        unique_slots(self.reg())
    }

    /// A fresh manager: empty registry, empty books, the given settings,
    /// IPv6 assumed available.
    pub fn new(settings: Settings) -> (r: Hosts)
        ensures
            r.wf(),
            r.reg() == Seq::<SlotV>::empty(),
            forall|i: int| 0 <= i < 5 ==> #[trigger] r.cont().books(i) == Seq::<EntryV>::empty(),
            r.conf() == settings,
            r.auto_addrs() == Seq::<Ipv6Rep>::empty(),
            r.last_conn() == 0,
            r.ipv6_ok(),
    {
        let r = Hosts {
            registry: Vec::new(),
            container: HostContainer::new(),
            settings,
            last_connection: 0,
            ipv6_available: true,
            auto_self_addrs: Vec::new(),
        };
        proof {
            assert(r.reg() =~= Seq::<SlotV>::empty());
        }
        r
    }

    /// Record whether IPv6 connectivity is available.
    pub fn set_ipv6_available(&mut self, available: bool)
        ensures
            final(self).ipv6_ok() == available,
            final(self).reg() == old(self).reg(),
            final(self).cont() == old(self).cont(),
            final(self).conf() == old(self).conf(),
            final(self).auto_addrs() == old(self).auto_addrs(),
            final(self).last_conn() == old(self).last_conn(),
    {
        self.ipv6_available = available;
    }

    /// The first slot index for an address.
    fn find_registry(&self, addr: &Addr) -> (r: Option<usize>)
        ensures
            ({
                let f = find_slot(self.reg(), addr@);
                match r {
                    Option::Some(i) => f == i && i < self.registry@.len(),
                    Option::None => f == -1,
                }
            }),
    {
        proof {
            lemma_find_slot(self.reg(), addr@);
        }
        let ghost rv = self.reg();
        let mut i: usize = 0;
        while i < self.registry.len()
            invariant
                0 <= i <= self.registry.len(),
                rv == self.reg(),
                rv.len() == self.registry.len(),
                forall|j: int| 0 <= j < i ==> (#[trigger] rv[j]).0 != addr@,
            decreases self.registry.len() - i,
        {
            if self.registry[i].0 == *addr {
                proof {
                    assert(rv[i as int].0 == addr@);
                    lemma_find_slot(rv, addr@);
                }
                return Some(i);
            }
            proof {
                assert(rv[i as int].0 != addr@);
            }
            i += 1;
        }
        proof {
            lemma_find_slot(rv, addr@);
        }
        None
    }

    /// Try to claim a state for an address. An absent address counts as
    /// `Free`. On success the claimed state is written into the slot and
    /// returned; a forbidden transition leaves the registry as it was and
    /// names the blocked pair.
    pub fn try_register(&mut self, addr: Addr, new_state: HostState) -> (r: Result<
        HostState,
        NetError,
    >)
        requires
            old(self).wf(),
        ensures
            final(self).wf(),
            ({
                let cur = reg_state(old(self).reg(), addr@);
                let k = kind_of(new_state@);
                if transition_allowed(cur, k) {
                    &&& r matches Ok(s) && s@ == claim_result(cur, new_state@)
                    &&& final(self).reg() == reg_write(
                        old(self).reg(),
                        addr@,
                        claim_result(cur, new_state@),
                    )
                } else {
                    &&& r == Err::<HostState, NetError>(
                        NetError::HostStateBlocked(kind_of(cur), k),
                    )
                    &&& final(self).reg() == old(self).reg()
                }
            }),
            final(self).cont() == old(self).cont(),
            final(self).conf() == old(self).conf(),
            final(self).auto_addrs() == old(self).auto_addrs(),
            final(self).last_conn() == old(self).last_conn(),
            final(self).ipv6_ok() == old(self).ipv6_ok(),
    {
        let ghost pre = self.reg();
        proof {
            lemma_find_slot(pre, addr@);
        }
        let found = self.find_registry(&addr);
        let cur: HostState = match found {
            Option::Some(i) => self.registry[i].1.clone(),
            Option::None => HostState::Free(0),
        };
        let result = match &new_state {
            HostState::Insert => cur.try_insert(),
            HostState::Refine => cur.try_refine(),
            HostState::Connect => cur.try_connect(),
            HostState::Suspend => cur.try_suspend(),
            HostState::Connected(c) => cur.try_connected(c.clone()),
            HostState::Move => cur.try_move(),
            HostState::Free(a) => cur.try_free(*a),
        };
        match &result {
            Ok(s) => {
                match found {
                    Option::Some(i) => {
                        self.registry.set(i, (addr, s.clone()));
                        proof {
                            assert(self.reg() =~= pre.update(
                                find_slot(pre, addr@),
                                (addr@, s@),
                            ));
                        }
                    },
                    Option::None => {
                        self.registry.push((addr, s.clone()));
                        proof {
                            assert(self.reg() =~= pre.push((addr@, s@)));
                        }
                    },
                }
                proof {
                    assert forall|i: int, j: int|
                        0 <= i < j < self.reg().len() implies (#[trigger] self.reg()[i]).0 != (
                    #[trigger] self.reg()[j]).0 by {
                        lemma_find_slot(pre, addr@);
                        if j < pre.len() {
                            assert(pre[i].0 != pre[j].0);
                        } else {
                            assert(self.reg()[i] == pre[i]);
                        }
                    }
                }
            },
            Err(_) => {},
        }
        result
    }

    /// Free an address for future operations, stamping the age it was freed
    /// at. Always succeeds: the registry accepts `Free` from every state.
    pub fn unregister(&mut self, addr: &Addr, age: u64)
        requires
            old(self).wf(),
        ensures
            final(self).wf(),
            final(self).reg() == reg_write(
                old(self).reg(),
                addr@,
                claim_result(reg_state(old(self).reg(), addr@), HostStateV::Free(age)),
            ),
            final(self).cont() == old(self).cont(),
            final(self).conf() == old(self).conf(),
            final(self).auto_addrs() == old(self).auto_addrs(),
            final(self).last_conn() == old(self).last_conn(),
            final(self).ipv6_ok() == old(self).ipv6_ok(),
    {
        let r = self.try_register(addr.clone(), HostState::Free(age));
        proof {
            assert(r is Ok);
        }
    }

    /// Whether a peer is available to be refined. A positive answer claims
    /// the `Refine` state: the caller holds the peer until it frees it.
    pub fn refinable(&mut self, addr: Addr) -> (r: bool)
        requires
            old(self).wf(),
        ensures
            final(self).wf(),
            r == transition_allowed(reg_state(old(self).reg(), addr@), StateKind::Refine),
            r ==> final(self).reg() == reg_write(old(self).reg(), addr@, HostStateV::Refine),
            !r ==> final(self).reg() == old(self).reg(),
            final(self).cont() == old(self).cont(),
            final(self).conf() == old(self).conf(),
    {
        let r = self.try_register(addr, HostState::Refine);
        r.is_ok()
    }

    /// All connected channels, seed and refinery connections counted too.
    pub fn channels(&self) -> (r: Vec<Channel>)
        ensures
            r@.len() == channels_of(self.reg()).len(),
            forall|i: int| 0 <= i < r@.len() ==> (#[trigger] r@[i])@ == channels_of(self.reg())[i],
    {
        let ghost rv = self.reg();
        let mut out: Vec<Channel> = Vec::new();
        let mut i: usize = 0;
        proof {
            lemma_channels_of_take(rv, 0);
        }
        while i < self.registry.len()
            invariant
                0 <= i <= self.registry.len(),
                rv == self.reg(),
                rv.len() == self.registry.len(),
                out@.len() == channels_of(rv.take(i as int)).len(),
                forall|j: int|
                    0 <= j < out@.len() ==> (#[trigger] out@[j])@ == channels_of(
                        rv.take(i as int),
                    )[j],
            decreases self.registry.len() - i,
        {
            proof {
                lemma_channels_of_push(rv.take(i as int), rv[i as int]);
                assert(rv.take(i + 1) =~= rv.take(i as int).push(rv[i as int]));
            }
            match &self.registry[i].1 {
                HostState::Connected(c) => {
                    let cc = c.clone();
                    proof {
                        assert(rv[i as int].1 == HostStateV::Connected(cc@));
                    }
                    out.push(cc);
                },
                _ => {},
            }
            i += 1;
        }
        proof {
            assert(rv.take(rv.len() as int) =~= rv);
        }
        out
    }
}

/// The channels of an empty prefix are empty.
proof fn lemma_channels_of_take(reg: Seq<SlotV>, n: int)
    ensures
        channels_of(reg.take(0)) == Seq::<ChannelV>::empty(),
{
    assert(reg.take(0) =~= Seq::<SlotV>::empty());
}

/// Channels distribute over growing the registry at its end.
proof fn lemma_channels_of_push(reg: Seq<SlotV>, s: SlotV)
    ensures
        channels_of(reg.push(s)) == channels_of(reg) + (match s.1 {
            HostStateV::Connected(c) => seq![c],
            _ => Seq::<ChannelV>::empty(),
        }),
    decreases reg.len(),
{
    let sp = reg.push(s);
    assert(channels_of(sp) == (match sp[0].1 {
        HostStateV::Connected(c) => seq![c],
        _ => Seq::<ChannelV>::empty(),
    }) + channels_of(sp.drop_first()));
    if reg.len() == 0 {
        assert(sp[0] == s);
        assert(sp.drop_first() =~= Seq::<SlotV>::empty());
        assert(channels_of(sp.drop_first()) == Seq::<ChannelV>::empty());
        assert(channels_of(reg) == Seq::<ChannelV>::empty());
        assert(channels_of(sp) =~= channels_of(reg) + (match s.1 {
            HostStateV::Connected(c) => seq![c],
            _ => Seq::<ChannelV>::empty(),
        }));
    } else {
        assert(sp[0] == reg[0]);
        assert(sp.drop_first() =~= reg.drop_first().push(s));
        lemma_channels_of_push(reg.drop_first(), s);
        assert(channels_of(reg) == (match reg[0].1 {
            HostStateV::Connected(c) => seq![c],
            _ => Seq::<ChannelV>::empty(),
        }) + channels_of(reg.drop_first()));
        assert(channels_of(sp) =~= channels_of(reg) + (match s.1 {
            HostStateV::Connected(c) => seq![c],
            _ => Seq::<ChannelV>::empty(),
        }));
    }
}

/// Whether a list of addresses holds `a`.
pub open spec fn addr_in(list: Seq<Addr>, a: AddrV) -> bool {
    exists|i: int| 0 <= i < list.len() && (#[trigger] list[i])@ == a
}

/// Whether a black book entry blocks every port of the host of `a`: a
/// port-less entry with the same host.
pub open spec fn blocks_all_ports(black: Seq<EntryV>, a: AddrV) -> bool {
    match a.host {
        Option::Some(h) => exists|i: int|
            0 <= i < black.len() && (#[trigger] black[i]).0.host == Option::Some(h) && black[i].0.port
                is None,
        Option::None => false,
    }
}

/// How often an address occurs in the reported list.
pub open spec fn occ_count(s: Seq<Ipv6Rep>, x: Ipv6Rep) -> nat
    decreases s.len(),
{
    if s.len() == 0 {
        0
    } else {
        occ_count(s.drop_last(), x) + (if s.last() == x {
            1nat
        } else {
            0nat
        })
    }
}

/// The index of the first most frequent element among the first `n`.
pub open spec fn best_upto(s: Seq<Ipv6Rep>, n: int) -> int
    decreases n,
{
    if n <= 1 {
        0
    } else {
        let b = best_upto(s, n - 1);
        if occ_count(s, s[n - 1]) > occ_count(s, s[b]) {
            n - 1
        } else {
            b
        }
    }
}

/// The first most frequent reported address, if any were reported.
pub open spec fn most_frequent(s: Seq<Ipv6Rep>) -> Option<Ipv6Rep> {
    if s.len() == 0 {
        Option::None
    } else {
        Option::Some(s[best_upto(s, s.len() as int)])
    }
}

/// The best index stays in range.
pub proof fn lemma_best_upto(s: Seq<Ipv6Rep>, n: int)
    requires
        1 <= n <= s.len(),
    ensures
        0 <= best_upto(s, n) < n,
    decreases n,
{
    if n > 1 {
        lemma_best_upto(s, n - 1);
    }
}

/// An external address after patching: an unspecified IPv6 host of a TCP
/// listener is replaced by the most frequent reported self address.
pub open spec fn patch_ext(a: AddrV, auto: Seq<Ipv6Rep>) -> AddrV {
    if (a.scheme == crate::addr::TransportV::Tcp || a.scheme == crate::addr::TransportV::TcpTls)
        && (a.host matches Option::Some(crate::addr::HostAddrV::Ip6(ip))
        && crate::addr::spec_ipv6_is_unspecified(ip)) && most_frequent(auto) is Some {
        AddrV {
            scheme: a.scheme,
            host: Option::Some(crate::addr::HostAddrV::Ip6(most_frequent(auto)->Some_0)),
            port: a.port,
            path: a.path,
        }
    } else {
        a
    }
}

/// The `last_seen` of the first entry for `a`, if one is there.
pub open spec fn book_last_seen(book: Seq<EntryV>, a: AddrV) -> Option<u64> {
    let i = crate::container::find_addr(book, a);
    if i == -1 {
        Option::None
    } else {
        Option::Some(book[i].1)
    }
}

/// Whether a list of addresses holds `a`.
fn addrs_contain(list: &Vec<Addr>, a: &Addr) -> (r: bool)
    ensures
        r == addr_in(list@, a@),
{
    let mut i: usize = 0;
    while i < list.len()
        invariant
            0 <= i <= list.len(),
            forall|j: int| 0 <= j < i ==> (#[trigger] list@[j])@ != a@,
        decreases list.len() - i,
    {
        if list[i] == *a {
            return true;
        }
        i += 1;
    }
    false
}

/// How often `x` occurs in the list.
fn count_addr(list: &Vec<Ipv6Rep>, x: Ipv6Rep) -> (r: usize)
    ensures
        r == occ_count(list@, x),
{
    let mut cnt: usize = 0;
    let mut i: usize = 0;
    proof {
        assert(list@.take(0) =~= Seq::<Ipv6Rep>::empty());
    }
    while i < list.len()
        invariant
            0 <= i <= list.len(),
            cnt == occ_count(list@.take(i as int), x),
            cnt <= i,
        decreases list.len() - i,
    {
        proof {
            assert(list@.take(i + 1).drop_last() =~= list@.take(i as int));
            assert(list@.take(i + 1).last() == list@[i as int]);
        }
        if list[i] == x {
            cnt += 1;
        }
        i += 1;
    }
    proof {
        assert(list@.take(list@.len() as int) =~= list@);
    }
    cnt
}

impl Hosts {
    /// The channels of connected peers; seed and refinery connections are not
    /// taken into account.
    pub fn peers(&self) -> (r: Vec<Channel>)
        ensures
            r@.len() == peers_of(self.reg()).len(),
            forall|i: int| 0 <= i < r@.len() ==> (#[trigger] r@[i])@ == peers_of(self.reg())[i],
    {
        let ghost rv = self.reg();
        let mut out: Vec<Channel> = Vec::new();
        let mut i: usize = 0;
        proof {
            assert(rv.take(0) =~= Seq::<SlotV>::empty());
        }
        while i < self.registry.len()
            invariant
                0 <= i <= self.registry.len(),
                rv == self.reg(),
                rv.len() == self.registry.len(),
                out@.len() == peers_of(rv.take(i as int)).len(),
                forall|j: int|
                    0 <= j < out@.len() ==> (#[trigger] out@[j])@ == peers_of(rv.take(i as int))[j],
            decreases self.registry.len() - i,
        {
            proof {
                lemma_peers_of_push(rv.take(i as int), rv[i as int]);
                assert(rv.take(i + 1) =~= rv.take(i as int).push(rv[i as int]));
            }
            match &self.registry[i].1 {
                HostState::Connected(c) => {
                    if c.session_type_id & (SESSION_SEED | SESSION_REFINE) == 0 {
                        let cc = c.clone();
                        proof {
                            assert(rv[i as int].1 == HostStateV::Connected(cc@));
                        }
                        out.push(cc);
                    } else {
                        proof {
                            assert(rv[i as int].1 matches HostStateV::Connected(cv)
                                && is_session_channel(cv));
                        }
                    }
                },
                _ => {},
            }
            i += 1;
        }
        proof {
            assert(rv.take(rv.len() as int) =~= rv);
        }
        out
    }

    /// The addresses of the suspended peers.
    pub fn suspended(&self) -> (r: Vec<Addr>)
        ensures
            r@.len() == suspended_of(self.reg()).len(),
            forall|i: int| 0 <= i < r@.len() ==> (#[trigger] r@[i])@ == suspended_of(self.reg())[i],
    {
        let ghost rv = self.reg();
        let mut out: Vec<Addr> = Vec::new();
        let mut i: usize = 0;
        proof {
            assert(rv.take(0) =~= Seq::<SlotV>::empty());
        }
        while i < self.registry.len()
            invariant
                0 <= i <= self.registry.len(),
                rv == self.reg(),
                rv.len() == self.registry.len(),
                out@.len() == suspended_of(rv.take(i as int)).len(),
                forall|j: int|
                    0 <= j < out@.len() ==> (#[trigger] out@[j])@ == suspended_of(
                        rv.take(i as int),
                    )[j],
            decreases self.registry.len() - i,
        {
            proof {
                lemma_suspended_of_push(rv.take(i as int), rv[i as int]);
                assert(rv.take(i + 1) =~= rv.take(i as int).push(rv[i as int]));
            }
            match &self.registry[i].1 {
                HostState::Suspend => {
                    let a = self.registry[i].0.clone();
                    proof {
                        assert(rv[i as int].0 == a@);
                        assert(rv[i as int].1 is Suspend);
                    }
                    out.push(a);
                },
                _ => {},
            }
            i += 1;
        }
        proof {
            assert(rv.take(rv.len() as int) =~= rv);
        }
        out
    }

    /// The connected channel with the given identifier, if one is there.
    pub fn get_channel(&self, id: u32) -> (r: Option<Channel>)
        ensures
            match r {
                Option::Some(c) => c@.id == id && channels_of(self.reg()).contains(c@),
                Option::None => forall|i: int|
                    0 <= i < channels_of(self.reg()).len() ==> (#[trigger] channels_of(
                        self.reg(),
                    )[i]).id != id,
            },
    {
        let channels = self.channels();
        let ghost cs = channels_of(self.reg());
        let mut i: usize = 0;
        while i < channels.len()
            invariant
                0 <= i <= channels.len(),
                cs == channels_of(self.reg()),
                channels@.len() == cs.len(),
                forall|j: int| 0 <= j < cs.len() ==> (#[trigger] channels@[j])@ == cs[j],
                forall|j: int| 0 <= j < i ==> (#[trigger] cs[j]).id != id,
            decreases channels.len() - i,
        {
            if channels[i].id == id {
                let c = channels[i].clone();
                proof {
                    assert(cs[i as int] == c@);
                }
                return Some(c);
            }
            i += 1;
        }
        None
    }

    /// A uniformly random connected channel.
    pub fn random_channel(&self) -> (r: Channel)
        requires
            channels_of(self.reg()).len() > 0,
        ensures
            channels_of(self.reg()).contains(r@),
    {
        let channels = self.channels();
        let position = crate::trusted::random_index(channels.len());
        let c = channels[position].clone();
        proof {
            assert(channels_of(self.reg())[position as int] == c@);
        }
        c
    }

    /// Add a channel to the set of connected channels. Inbound listeners are
    /// not registered; a peer already held in another state is refused. The
    /// answer says whether the channel was registered, so the caller can
    /// notify its subscribers.
    pub fn register_channel(&mut self, channel: Channel, now: u64) -> (r: bool)
        requires
            old(self).wf(),
        ensures
            final(self).wf(),
            ({
                let cur = reg_state(old(self).reg(), channel@.address);
                let inbound = addr_in(old(self).conf().inbound_addrs@, channel@.address);
                &&& r == (!inbound && transition_allowed(cur, StateKind::Connected))
                &&& (r ==> final(self).reg() == reg_write(
                    old(self).reg(),
                    channel@.address,
                    HostStateV::Connected(channel@),
                ) && final(self).last_conn() == now)
                &&& (!r ==> final(self).reg() == old(self).reg() && final(self).last_conn() == old(
                    self,
                ).last_conn())
            }),
            final(self).cont() == old(self).cont(),
            final(self).conf() == old(self).conf(),
            final(self).auto_addrs() == old(self).auto_addrs(),
            final(self).ipv6_ok() == old(self).ipv6_ok(),
    {
        let address = channel.address.clone();
        if addrs_contain(&self.settings.inbound_addrs, &address) {
            return false;
        }
        match self.try_register(address, HostState::Connected(channel)) {
            Ok(_) => {
                self.last_connection = now;
                true
            },
            Err(_) => false,
        }
    }

    /// The `last_seen` of an address, read from the Gold, White or Grey book,
    /// in that order.
    pub fn fetch_last_seen(&self, addr: &Addr) -> (r: Option<u64>)
        ensures
            r == (if contains_addr(self.cont().books(2), addr@) {
                book_last_seen(self.cont().books(2), addr@)
            } else if contains_addr(self.cont().books(1), addr@) {
                book_last_seen(self.cont().books(1), addr@)
            } else if contains_addr(self.cont().books(0), addr@) {
                book_last_seen(self.cont().books(0), addr@)
            } else {
                Option::None::<u64>
            }),
    {
        proof {
            crate::container::lemma_find_addr(self.cont().books(2), addr@);
            crate::container::lemma_find_addr(self.cont().books(1), addr@);
            crate::container::lemma_find_addr(self.cont().books(0), addr@);
        }
        if self.container.contains(2, addr) {
            self.container.get_last_seen(2, addr)
        } else if self.container.contains(1, addr) {
            self.container.get_last_seen(1, addr)
        } else if self.container.contains(0, addr) {
            self.container.get_last_seen(0, addr)
        } else {
            None
        }
    }

    /// Whether a URL names a local host.
    pub fn is_local_host(&self, url: &Addr) -> (r: bool)
        ensures
            r == crate::addr::spec_is_local(url@),
    {
        url.is_local()
    }

    /// Whether a URL has an IPv6 host.
    pub fn is_ipv6(&self, url: &Addr) -> (r: bool)
        ensures
            r == crate::addr::spec_is_ipv6(url@),
    {
        url.is_ipv6_host()
    }

    /// Whether a port-less Black entry blocks every port of this URL's host.
    pub fn block_all_ports(&self, url: &Addr) -> (r: bool)
        ensures
            r == blocks_all_ports(self.cont().books(3), url@),
    {
        let host = match &url.host {
            Option::Some(h) => h,
            Option::None => {
                return false;
            },
        };
        let black = self.container.fetch_all(HostColor::Black);
        let ghost bb = self.cont().books(3);
        let mut i: usize = 0;
        while i < black.len()
            invariant
                bb == self.cont().books(3),
                bview(black@) == bb,
                black@.len() == bb.len(),
                0 <= i <= black.len(),
                url@.host matches Option::Some(hh) && host@ == hh,
                forall|j: int|
                    0 <= j < i ==> !((#[trigger] bb[j]).0.host == url@.host && bb[j].0.port
                        is None),
            decreases black.len() - i,
        {
            let matches_host = match &black[i].0.host {
                Option::Some(bh) => *bh == *host,
                Option::None => false,
            };
            if matches_host && black[i].0.port.is_none() {
                proof {
                    assert(bb[i as int] == eview(black@[i as int]));
                    assert(bb[i as int].0.host == Option::Some(host@));
                    assert(url@.host == Option::Some(host@));
                    assert(bb[i as int].0.port is None);
                    assert(blocks_all_ports(bb, url@)) by {
                        let k = i as int;
                        assert(0 <= k && k < bb.len() && bb[k].0.host == Option::Some(host@)
                            && bb[k].0.port is None);
                    }
                }
                return true;
            }
            proof {
                assert(bb[i as int] == eview(black@[i as int]));
            }
            i += 1;
        }
        false
    }

    /// Record the external address a remote peer reported for us; the twenty
    /// most recent reports are kept.
    pub fn add_auto_addr(&mut self, addr: Ipv6Rep)
        ensures
            final(self).auto_addrs() == (if old(self).auto_addrs().len() == 20 {
                old(self).auto_addrs().drop_first()
            } else {
                old(self).auto_addrs()
            }).push(addr),
            final(self).reg() == old(self).reg(),
            final(self).cont() == old(self).cont(),
            final(self).conf() == old(self).conf(),
            final(self).last_conn() == old(self).last_conn(),
            final(self).ipv6_ok() == old(self).ipv6_ok(),
    {
        if self.auto_self_addrs.len() == 20 {
            self.auto_self_addrs.remove(0);
            proof {
                assert(self.auto_self_addrs@ =~= old(self).auto_addrs().drop_first());
            }
        }
        self.auto_self_addrs.push(addr);
    }

    /// The most frequent reported self address, when any report came in.
    pub fn guess_auto_addr(&self) -> (r: Option<Ipv6Rep>)
        ensures
            r == most_frequent(self.auto_addrs()),
    {
        let n = self.auto_self_addrs.len();
        if n == 0 {
            return None;
        }
        let ghost av = self.auto_addrs();
        let mut best: usize = 0;
        let mut k: usize = 1;
        while k < n
            invariant
                1 <= k <= n,
                n == self.auto_self_addrs.len(),
                av == self.auto_addrs(),
                av.len() == n,
                best < k,
                best == best_upto(av, k as int),
            decreases n - k,
        {
            let ck = count_addr(&self.auto_self_addrs, self.auto_self_addrs[k]);
            let cb = count_addr(&self.auto_self_addrs, self.auto_self_addrs[best]);
            if ck > cb {
                best = k;
            }
            k += 1;
        }
        Some(self.auto_self_addrs[best])
    }

    /// One external address after patching.
    fn patch_auto_addr(&self, ext_addr: &Addr) -> (r: Addr)
        ensures
            r@ == patch_ext(ext_addr@, self.auto_addrs()),
    {
        let is_tcp = match &ext_addr.scheme {
            Transport::Tcp => true,
            Transport::TcpTls => true,
            _ => false,
        };
        if is_tcp {
            match &ext_addr.host {
                Option::Some(crate::addr::HostAddr::Ip6(ip)) => {
                    let unspecified = ip.s0 == 0 && ip.s1 == 0 && ip.s2 == 0 && ip.s3 == 0 && ip.s4
                        == 0 && ip.s5 == 0 && ip.s6 == 0 && ip.s7 == 0;
                    if unspecified {
                        match self.guess_auto_addr() {
                            Option::Some(auto) => Addr {
                                scheme: ext_addr.scheme.clone(),
                                host: Some(crate::addr::HostAddr::Ip6(auto)),
                                port: ext_addr.port,
                                path: ext_addr.path.clone(),
                            },
                            Option::None => ext_addr.clone(),
                        }
                    } else {
                        ext_addr.clone()
                    }
                },
                _ => ext_addr.clone(),
            }
        } else {
            ext_addr.clone()
        }
    }

    /// The external addresses as configured, with unspecified IPv6 hosts
    /// patched to the best reported guess.
    pub fn external_addrs(&self) -> (r: Vec<Addr>)
        ensures
            r@.len() == self.conf().external_addrs@.len(),
            forall|i: int|
                0 <= i < r@.len() ==> (#[trigger] r@[i])@ == patch_ext(
                    self.conf().external_addrs@[i]@,
                    self.auto_addrs(),
                ),
    {
        let mut out: Vec<Addr> = Vec::new();
        let mut i: usize = 0;
        while i < self.settings.external_addrs.len()
            invariant
                0 <= i <= self.settings.external_addrs.len(),
                out@.len() == i,
                forall|j: int|
                    0 <= j < i ==> (#[trigger] out@[j])@ == patch_ext(
                        self.conf().external_addrs@[j]@,
                        self.auto_addrs(),
                    ),
            decreases self.settings.external_addrs.len() - i,
        {
            let patched = self.patch_auto_addr(&self.settings.external_addrs[i]);
            out.push(patched);
            i += 1;
        }
        out
    }

    /// Load the configured blacklist into the Black book: every line yields
    /// one `scheme://hostname[:port]` URL per named scheme and port (all of
    /// `tcp+tls` when no scheme is named, every port when none is named; a
    /// zero port is left off and so blocks all ports), and every combination
    /// the URL parser accepts is appended with a zero `last_seen`.
    /// Combinations that do not parse are skipped silently.
    pub fn import_blacklist(&mut self)
        requires
            old(self).wf(),
        ensures
            final(self).wf(),
            final(self).cont().books(3) == bl_fold(
                old(self).cont().books(3),
                old(self).conf().blacklist@,
            ),
            forall|j: int|
                0 <= j < 5 && j != 3 ==> #[trigger] final(self).cont().books(j) == old(
                    self,
                ).cont().books(j),
            final(self).reg() == old(self).reg(),
            final(self).conf() == old(self).conf(),
            final(self).auto_addrs() == old(self).auto_addrs(),
            final(self).ipv6_ok() == old(self).ipv6_ok(),
            final(self).last_conn() == old(self).last_conn(),
    {
        let ghost book0 = self.cont().books(3);
        let ghost bl = self.settings.blacklist@;
        let n = self.settings.blacklist.len();
        let mut idx: usize = 0;
        proof {
            assert(bl.take(0) =~= Seq::<BlacklistEntry>::empty());
        }
        while idx < n
            invariant
                self.wf(),
                n == bl.len(),
                bl == self.settings.blacklist@,
                0 <= idx <= n,
                book0 == old(self).cont().books(3),
                self.cont().books(3) == bl_fold(book0, bl.take(idx as int)),
                forall|j: int|
                    0 <= j < 5 && j != 3 ==> #[trigger] self.cont().books(j) == old(
                        self,
                    ).cont().books(j),
                self.reg() == old(self).reg(),
                self.conf() == old(self).conf(),
                self.auto_addrs() == old(self).auto_addrs(),
                self.ipv6_ok() == old(self).ipv6_ok(),
                self.last_conn() == old(self).last_conn(),
            decreases n - idx,
        {
            let ghost entry_v = bl[idx as int];
            let ghost book_e = self.cont().books(3);
            proof {
                assert(bl.take(idx + 1) =~= bl.take(idx as int).push(entry_v));
                lemma_bl_fold_push(book0, bl.take(idx as int), entry_v);
            }
            let hostname = self.settings.blacklist[idx].hostname.clone();
            let mut schemes: Vec<String> = Vec::new();
            let m = self.settings.blacklist[idx].schemes.len();
            let mut ci: usize = 0;
            while ci < m
                invariant
                    bl == self.settings.blacklist@,
                    idx < bl.len(),
                    entry_v == bl[idx as int],
                    m == entry_v.schemes@.len(),
                    0 <= ci <= m,
                    schemes@.len() == ci,
                    forall|j: int|
                        0 <= j < ci ==> (#[trigger] schemes@[j])@ == entry_v.schemes@[j]@,
                decreases m - ci,
            {
                schemes.push(self.settings.blacklist[idx].schemes[ci].clone());
                ci += 1;
            }
            if schemes.len() == 0 {
                schemes.push(String::from_str("tcp+tls"));
            }
            let mut ports: Vec<u16> = Vec::new();
            let mp = self.settings.blacklist[idx].ports.len();
            let mut ki: usize = 0;
            while ki < mp
                invariant
                    bl == self.settings.blacklist@,
                    idx < bl.len(),
                    entry_v == bl[idx as int],
                    mp == entry_v.ports@.len(),
                    0 <= ki <= mp,
                    ports@ == entry_v.ports@.take(ki as int),
                decreases mp - ki,
            {
                ports.push(self.settings.blacklist[idx].ports[ki]);
                proof {
                    assert(ports@ =~= entry_v.ports@.take(ki + 1));
                }
                ki += 1;
            }
            if ports.len() == 0 {
                ports.push(0);
            }
            let ghost ss = bl_schemes(entry_v);
            let ghost pp = bl_ports(entry_v);
            proof {
                if entry_v.ports@.len() == 0 {
                    assert(ports@ =~= pp);
                } else {
                    assert(entry_v.ports@.take(entry_v.ports@.len() as int) =~= entry_v.ports@);
                    assert(ports@ =~= pp);
                }
                if entry_v.schemes@.len() == 0 {
                    assert(schemes@.len() == ss.len());
                    assert((schemes@[0])@ == ss[0]);
                } else {
                    assert(schemes@.len() == ss.len());
                }
                assert(forall|j: int|
                    0 <= j < ss.len() ==> (#[trigger] schemes@[j])@ == ss[j]);
                assert(ss.take(0) =~= Seq::<Seq<char>>::empty());
            }
            let mut si: usize = 0;
            while si < schemes.len()
                invariant
                    self.wf(),
                    0 <= si <= schemes@.len(),
                    schemes@.len() == ss.len(),
                    forall|j: int| 0 <= j < ss.len() ==> (#[trigger] schemes@[j])@ == ss[j],
                    ports@ == pp,
                    hostname@ == entry_v.hostname@,
                    self.cont().books(3) == bl_fold_schemes(
                        book_e,
                        ss.take(si as int),
                        entry_v.hostname@,
                        pp,
                    ),
                    forall|j: int|
                        0 <= j < 5 && j != 3 ==> #[trigger] self.cont().books(j) == old(
                            self,
                        ).cont().books(j),
                    self.reg() == old(self).reg(),
                    self.conf() == old(self).conf(),
                    self.auto_addrs() == old(self).auto_addrs(),
                    self.ipv6_ok() == old(self).ipv6_ok(),
                    self.last_conn() == old(self).last_conn(),
                decreases schemes@.len() - si,
            {
                let ghost sch = ss[si as int];
                let ghost book_s = self.cont().books(3);
                proof {
                    assert(ss.take(si + 1) =~= ss.take(si as int).push(sch));
                    lemma_bl_fold_schemes_push(
                        book_e,
                        ss.take(si as int),
                        entry_v.hostname@,
                        pp,
                        sch,
                    );
                    assert(pp.take(0) =~= Seq::<u16>::empty());
                }
                let mut pi: usize = 0;
                while pi < ports.len()
                    invariant
                        self.wf(),
                        si < schemes@.len(),
                        (schemes@[si as int])@ == sch,
                        0 <= pi <= ports@.len(),
                        ports@ == pp,
                        hostname@ == entry_v.hostname@,
                        self.cont().books(3) == bl_fold_ports(
                            book_s,
                            sch,
                            entry_v.hostname@,
                            pp.take(pi as int),
                        ),
                        forall|j: int|
                            0 <= j < 5 && j != 3 ==> #[trigger] self.cont().books(j) == old(
                                self,
                            ).cont().books(j),
                        self.reg() == old(self).reg(),
                        self.conf() == old(self).conf(),
                        self.auto_addrs() == old(self).auto_addrs(),
                        self.ipv6_ok() == old(self).ipv6_ok(),
                        self.last_conn() == old(self).last_conn(),
                    decreases ports@.len() - pi,
                {
                    let port = ports[pi];
                    let ghost book_p = self.cont().books(3);
                    proof {
                        assert(pp.take(pi + 1) =~= pp.take(pi as int).push(port));
                        lemma_bl_fold_ports_push(
                            book_s,
                            sch,
                            entry_v.hostname@,
                            pp.take(pi as int),
                            port,
                        );
                    }
                    let mut url_string = schemes[si].clone();
                    url_string.append("://");
                    url_string.append(hostname.as_str());
                    if port != 0 {
                        url_string.append(":");
                        crate::codec::push_dec_u64(&mut url_string, port as u64);
                    }
                    proof {
                        reveal_strlit("://");
                        reveal_strlit(":");
                        assert(":"@ =~= seq![':']);
                        assert(url_string@ =~= bl_url_text(sch, entry_v.hostname@, port));
                    }
                    match Addr::from_url(url_string.as_str()) {
                        Option::Some(addr) => {
                            proof {
                                assert(bl_addr(sch, entry_v.hostname@, port) == Option::Some(
                                    addr@,
                                ));
                            }
                            self.container.store(3, addr, 0);
                            proof {
                                assert(self.cont().books(3) == bl_step(
                                    book_p,
                                    sch,
                                    entry_v.hostname@,
                                    port,
                                ));
                            }
                        },
                        Option::None => {
                            proof {
                                assert(bl_addr(sch, entry_v.hostname@, port) is None);
                                assert(self.cont().books(3) == bl_step(
                                    book_p,
                                    sch,
                                    entry_v.hostname@,
                                    port,
                                ));
                            }
                        },
                    }
                    pi += 1;
                }
                proof {
                    assert(pp.take(ports@.len() as int) =~= pp);
                }
                si += 1;
            }
            proof {
                assert(ss.take(schemes@.len() as int) =~= ss);
            }
            idx += 1;
        }
        proof {
            assert(bl.take(n as int) =~= bl);
        }
    }
}

/// The URL text a blacklist line builds for one scheme and port; a zero port
/// is left off, which blocks all ports of the host.
pub open spec fn bl_url_text(scheme: Seq<char>, hostname: Seq<char>, port: u16) -> Seq<char> {
    scheme + "://"@ + hostname + (if port == 0 {
        Seq::<char>::empty()
    } else {
        seq![':'] + crate::codec::dec_str(port as nat)
    })
}

/// The Black entry one scheme and port combination yields, when its URL
/// parses.
pub open spec fn bl_addr(scheme: Seq<char>, hostname: Seq<char>, port: u16) -> Option<AddrV> {
    match crate::trusted::url_parse_of(bl_url_text(scheme, hostname, port)) {
        Option::Some(u) => Option::Some(crate::addr::addr_of_raw(u)),
        Option::None => Option::None,
    }
}

/// The scheme words of one blacklist line; all of `tcp+tls` when none is
/// named.
pub open spec fn bl_schemes(e: BlacklistEntry) -> Seq<Seq<char>> {
    if e.schemes@.len() == 0 {
        seq!["tcp+tls"@]
    } else {
        Seq::new(e.schemes@.len(), |i: int| e.schemes@[i]@)
    }
}

/// The ports of one blacklist line; the all-ports zero when none is named.
pub open spec fn bl_ports(e: BlacklistEntry) -> Seq<u16> {
    if e.ports@.len() == 0 {
        seq![0u16]
    } else {
        e.ports@
    }
}

/// The Black book after one scheme and port combination.
pub open spec fn bl_step(
    book: Seq<EntryV>,
    scheme: Seq<char>,
    hostname: Seq<char>,
    port: u16,
) -> Seq<EntryV> {
    match bl_addr(scheme, hostname, port) {
        Option::Some(a) => book.push((a, 0)),
        Option::None => book,
    }
}

/// The Black book after every port of one scheme of one line.
pub open spec fn bl_fold_ports(
    book: Seq<EntryV>,
    scheme: Seq<char>,
    hostname: Seq<char>,
    ports: Seq<u16>,
) -> Seq<EntryV>
    decreases ports.len(),
{
    if ports.len() == 0 {
        book
    } else {
        bl_fold_ports(
            bl_step(book, scheme, hostname, ports[0]),
            scheme,
            hostname,
            ports.drop_first(),
        )
    }
}

/// The Black book after every scheme of one line.
pub open spec fn bl_fold_schemes(
    book: Seq<EntryV>,
    schemes: Seq<Seq<char>>,
    hostname: Seq<char>,
    ports: Seq<u16>,
) -> Seq<EntryV>
    decreases schemes.len(),
{
    if schemes.len() == 0 {
        book
    } else {
        bl_fold_schemes(
            bl_fold_ports(book, schemes[0], hostname, ports),
            schemes.drop_first(),
            hostname,
            ports,
        )
    }
}

/// The Black book after every configured blacklist line.
pub open spec fn bl_fold(book: Seq<EntryV>, entries: Seq<BlacklistEntry>) -> Seq<EntryV>
    decreases entries.len(),
{
    if entries.len() == 0 {
        book
    } else {
        bl_fold(
            bl_fold_schemes(
                book,
                bl_schemes(entries[0]),
                entries[0].hostname@,
                bl_ports(entries[0]),
            ),
            entries.drop_first(),
        )
    }
}

/// The port fold distributes over growing the port list at its end.
proof fn lemma_bl_fold_ports_push(
    book: Seq<EntryV>,
    scheme: Seq<char>,
    hostname: Seq<char>,
    ports: Seq<u16>,
    p: u16,
)
    ensures
        bl_fold_ports(book, scheme, hostname, ports.push(p)) == bl_step(
            bl_fold_ports(book, scheme, hostname, ports),
            scheme,
            hostname,
            p,
        ),
    decreases ports.len(),
{
    let sp = ports.push(p);
    let b0 = bl_step(book, scheme, hostname, sp[0]);
    assert(bl_fold_ports(book, scheme, hostname, sp) == bl_fold_ports(
        b0,
        scheme,
        hostname,
        sp.drop_first(),
    ));
    if ports.len() == 0 {
        assert(sp[0] == p);
        assert(sp.drop_first() =~= Seq::<u16>::empty());
        assert(bl_fold_ports(b0, scheme, hostname, sp.drop_first()) == b0);
        assert(bl_fold_ports(book, scheme, hostname, ports) == book);
    } else {
        assert(sp[0] == ports[0]);
        assert(sp.drop_first() =~= ports.drop_first().push(p));
        lemma_bl_fold_ports_push(b0, scheme, hostname, ports.drop_first(), p);
        assert(bl_fold_ports(book, scheme, hostname, ports) == bl_fold_ports(
            b0,
            scheme,
            hostname,
            ports.drop_first(),
        ));
    }
}

/// The scheme fold distributes over growing the scheme list at its end.
proof fn lemma_bl_fold_schemes_push(
    book: Seq<EntryV>,
    schemes: Seq<Seq<char>>,
    hostname: Seq<char>,
    ports: Seq<u16>,
    sch: Seq<char>,
)
    ensures
        bl_fold_schemes(book, schemes.push(sch), hostname, ports) == bl_fold_ports(
            bl_fold_schemes(book, schemes, hostname, ports),
            sch,
            hostname,
            ports,
        ),
    decreases schemes.len(),
{
    let sp = schemes.push(sch);
    let b0 = bl_fold_ports(book, sp[0], hostname, ports);
    assert(bl_fold_schemes(book, sp, hostname, ports) == bl_fold_schemes(
        b0,
        sp.drop_first(),
        hostname,
        ports,
    ));
    if schemes.len() == 0 {
        assert(sp[0] == sch);
        assert(sp.drop_first() =~= Seq::<Seq<char>>::empty());
        assert(bl_fold_schemes(b0, sp.drop_first(), hostname, ports) == b0);
        assert(bl_fold_schemes(book, schemes, hostname, ports) == book);
    } else {
        assert(sp[0] == schemes[0]);
        assert(sp.drop_first() =~= schemes.drop_first().push(sch));
        lemma_bl_fold_schemes_push(b0, schemes.drop_first(), hostname, ports, sch);
        assert(bl_fold_schemes(book, schemes, hostname, ports) == bl_fold_schemes(
            b0,
            schemes.drop_first(),
            hostname,
            ports,
        ));
    }
}

/// The blacklist fold distributes over growing the line list at its end.
proof fn lemma_bl_fold_push(book: Seq<EntryV>, entries: Seq<BlacklistEntry>, e: BlacklistEntry)
    ensures
        bl_fold(book, entries.push(e)) == bl_fold_schemes(
            bl_fold(book, entries),
            bl_schemes(e),
            e.hostname@,
            bl_ports(e),
        ),
    decreases entries.len(),
{
    let sp = entries.push(e);
    let b0 = bl_fold_schemes(book, bl_schemes(sp[0]), sp[0].hostname@, bl_ports(sp[0]));
    assert(bl_fold(book, sp) == bl_fold(b0, sp.drop_first()));
    if entries.len() == 0 {
        assert(sp[0] == e);
        assert(sp.drop_first() =~= Seq::<BlacklistEntry>::empty());
        assert(bl_fold(b0, sp.drop_first()) == b0);
        assert(bl_fold(book, entries) == book);
    } else {
        assert(sp[0] == entries[0]);
        assert(sp.drop_first() =~= entries.drop_first().push(e));
        lemma_bl_fold_push(b0, entries.drop_first(), e);
        assert(bl_fold(book, entries) == bl_fold(
            b0,
            entries.drop_first(),
        ));
    }
}

/// Peers distribute over growing the registry at its end.
proof fn lemma_peers_of_push(reg: Seq<SlotV>, s: SlotV)
    ensures
        peers_of(reg.push(s)) == peers_of(reg) + (match s.1 {
            HostStateV::Connected(c) => if !is_session_channel(c) {
                seq![c]
            } else {
                Seq::<ChannelV>::empty()
            },
            _ => Seq::<ChannelV>::empty(),
        }),
    decreases reg.len(),
{
    let sp = reg.push(s);
    let tail = (match s.1 {
        HostStateV::Connected(c) => if !is_session_channel(c) {
            seq![c]
        } else {
            Seq::<ChannelV>::empty()
        },
        _ => Seq::<ChannelV>::empty(),
    });
    assert(peers_of(sp) == (match sp[0].1 {
        HostStateV::Connected(c) => if !is_session_channel(c) {
            seq![c]
        } else {
            Seq::<ChannelV>::empty()
        },
        _ => Seq::<ChannelV>::empty(),
    }) + peers_of(sp.drop_first()));
    if reg.len() == 0 {
        assert(sp[0] == s);
        assert(sp.drop_first() =~= Seq::<SlotV>::empty());
        assert(peers_of(sp.drop_first()) == Seq::<ChannelV>::empty());
        assert(peers_of(reg) == Seq::<ChannelV>::empty());
        assert(peers_of(sp) =~= peers_of(reg) + tail);
    } else {
        assert(sp[0] == reg[0]);
        assert(sp.drop_first() =~= reg.drop_first().push(s));
        lemma_peers_of_push(reg.drop_first(), s);
        assert(peers_of(reg) == (match reg[0].1 {
            HostStateV::Connected(c) => if !is_session_channel(c) {
                seq![c]
            } else {
                Seq::<ChannelV>::empty()
            },
            _ => Seq::<ChannelV>::empty(),
        }) + peers_of(reg.drop_first()));
        assert(peers_of(sp) =~= peers_of(reg) + tail);
    }
}

/// Suspended addresses distribute over growing the registry at its end.
proof fn lemma_suspended_of_push(reg: Seq<SlotV>, s: SlotV)
    ensures
        suspended_of(reg.push(s)) == suspended_of(reg) + (match s.1 {
            HostStateV::Suspend => seq![s.0],
            _ => Seq::<AddrV>::empty(),
        }),
    decreases reg.len(),
{
    let sp = reg.push(s);
    let tail = (match s.1 {
        HostStateV::Suspend => seq![s.0],
        _ => Seq::<AddrV>::empty(),
    });
    assert(suspended_of(sp) == (match sp[0].1 {
        HostStateV::Suspend => seq![sp[0].0],
        _ => Seq::<AddrV>::empty(),
    }) + suspended_of(sp.drop_first()));
    if reg.len() == 0 {
        assert(sp[0] == s);
        assert(sp.drop_first() =~= Seq::<SlotV>::empty());
        assert(suspended_of(sp.drop_first()) == Seq::<AddrV>::empty());
        assert(suspended_of(reg) == Seq::<AddrV>::empty());
        assert(suspended_of(sp) =~= suspended_of(reg) + tail);
    } else {
        assert(sp[0] == reg[0]);
        assert(sp.drop_first() =~= reg.drop_first().push(s));
        lemma_suspended_of_push(reg.drop_first(), s);
        assert(suspended_of(reg) == (match reg[0].1 {
            HostStateV::Suspend => seq![reg[0].0],
            _ => Seq::<AddrV>::empty(),
        }) + suspended_of(reg.drop_first()));
        assert(suspended_of(sp) =~= suspended_of(reg) + tail);
    }
}

// ---------------------------------------------------------------------------
// Gossip filtering
// ---------------------------------------------------------------------------

/// Whether a Tor host is valid: a domain accepted as a version-3 onion
/// service id.
pub open spec fn onion_host(a: AddrV) -> bool {
    match a.host {
        Option::Some(crate::addr::HostAddrV::Domain(d)) => crate::trusted::is_valid_hs_id(d),
        _ => false,
    }
}

/// Whether an I2P host is valid.
pub open spec fn i2p_host(a: AddrV) -> bool {
    match a.host {
        Option::Some(crate::addr::HostAddrV::Domain(d)) => crate::addr::spec_is_i2p(d),
        _ => false,
    }
}

/// The scheme-specific validity of an address: onion ids for Tor, `.i2p`
/// names for I2P, nothing more for TCP; Nym is skipped for now, and any
/// other scheme is rejected.
pub open spec fn scheme_check_ok(a: AddrV) -> bool {
    match a.scheme {
        crate::addr::TransportV::Tor => onion_host(a),
        crate::addr::TransportV::TorTls => onion_host(a),
        crate::addr::TransportV::Nym => false,
        crate::addr::TransportV::NymTls => false,
        crate::addr::TransportV::Tcp => true,
        crate::addr::TransportV::TcpTls => true,
        crate::addr::TransportV::I2p => i2p_host(a),
        crate::addr::TransportV::I2pTls => i2p_host(a),
        _ => false,
    }
}

/// Whether the host of `a` is one of our own external addresses' hosts,
/// after patching.
pub open spec fn own_ext_host(h: Hosts, a: AddrV) -> bool {
    a.host is Some && exists|i: int|
        0 <= i < h.conf().external_addrs@.len() && (#[trigger] patch_ext(
            h.conf().external_addrs@[i]@,
            h.auto_addrs(),
        )).host == a.host
}

/// Whether the port of `a` is one of our configured external ports.
pub open spec fn own_ext_port(h: Hosts, a: AddrV) -> bool {
    exists|i: int|
        0 <= i < h.conf().external_addrs@.len() && (#[trigger] h.conf().external_addrs@[i])@.port
            == a.port
}

/// Whether `a` is one of our own external addresses, after patching.
pub open spec fn own_ext_addr(h: Hosts, a: AddrV) -> bool {
    exists|i: int|
        0 <= i < h.conf().external_addrs@.len() && patch_ext(
            (#[trigger] h.conf().external_addrs@[i])@,
            h.auto_addrs(),
        ) == a
}

/// Whether we can dial this address directly: its transport is allowed and,
/// for an IPv6 host, IPv6 is available.
pub open spec fn unsupported_transport(h: Hosts, a: AddrV) -> bool {
    !scheme_in(h.conf().allowed_transports@, a.scheme) || (!h.ipv6_ok()
        && crate::addr::spec_is_ipv6(a))
}

/// The filter clauses that precede the transport check: a well-shaped
/// address that is not a seed, not a manual peer, not blacklisted, not one
/// of our own addresses or ports, not a local range outside localnet, and
/// valid for its scheme.
pub open spec fn pre_dark_ok(h: Hosts, e: EntryV) -> bool {
    &&& e.0.host is Some
    &&& e.0.port is Some
    &&& !addr_in(h.conf().seeds@, e.0)
    &&& !addr_in(h.conf().peers@, e.0)
    &&& !contains_addr(h.cont().books(3), e.0)
    &&& !blocks_all_ports(h.cont().books(3), e.0)
    &&& (!h.conf().localnet ==> !own_ext_host(h, e.0))
    &&& (h.conf().localnet ==> !own_ext_port(h, e.0))
    &&& (!h.conf().localnet ==> !crate::addr::spec_is_local(e.0))
    &&& scheme_check_ok(e.0)
}

/// Whether the filter stores this entry on the Dark book: it passes every
/// clause but its transport cannot be used.
pub open spec fn darkens(h: Hosts, e: EntryV) -> bool {
    pre_dark_ok(h, e) && unsupported_transport(h, e.0)
}

/// Whether the filter accepts this entry: it passes every clause, an unusable
/// transport is at least mixed, and the address is in none of Gold, White
/// and Grey.
pub open spec fn accepted(h: Hosts, e: EntryV) -> bool {
    &&& pre_dark_ok(h, e)
    &&& (unsupported_transport(h, e.0) ==> scheme_in(h.conf().mixed_transports@, e.0.scheme))
    &&& !contains_addr(h.cont().books(2), e.0)
    &&& !contains_addr(h.cont().books(1), e.0)
    &&& !contains_addr(h.cont().books(0), e.0)
}

/// The entries the filter accepts, in order.
pub open spec fn accepted_list(h: Hosts, entries: Seq<EntryV>) -> Seq<EntryV> {
    entries.filter(|e: EntryV| accepted(h, e))
}

/// A book after an upsert, a sort and the cap eviction.
pub open spec fn settle_book(book: Seq<EntryV>, a: AddrV, ls: u64, color: HostColor) -> Seq<
    EntryV,
> {
    let b = sort_desc(upsert(book, a, ls));
    if has_cap(color) && b.len() == cap_value(color) {
        b.drop_last()
    } else {
        b
    }
}

/// What one darkened entry does to the Dark book: upsert, sort, evict at the
/// cap, and sweep entries older than a day.
pub open spec fn dark_step(book: Seq<EntryV>, e: EntryV, now: u64) -> Seq<EntryV> {
    swept(settle_book(book, e.0, e.1, HostColor::Dark), 86400, now)
}

/// The Dark book after the filter has walked a list of entries.
pub open spec fn dark_fold(book: Seq<EntryV>, h: Hosts, entries: Seq<EntryV>, now: u64) -> Seq<
    EntryV,
>
    decreases entries.len(),
{
    if entries.len() == 0 {
        book
    } else {
        dark_fold(
            if darkens(h, entries[0]) {
                dark_step(book, entries[0], now)
            } else {
                book
            },
            h,
            entries.drop_first(),
            now,
        )
    }
}

/// The Dark fold distributes over growing the entry list at its end.
proof fn lemma_dark_fold_push(book: Seq<EntryV>, h: Hosts, s: Seq<EntryV>, e: EntryV, now: u64)
    ensures
        dark_fold(book, h, s.push(e), now) == (if darkens(h, e) {
            dark_step(dark_fold(book, h, s, now), e, now)
        } else {
            dark_fold(book, h, s, now)
        }),
    decreases s.len(),
{
    let sp = s.push(e);
    let b0 = if darkens(h, sp[0]) {
        dark_step(book, sp[0], now)
    } else {
        book
    };
    assert(dark_fold(book, h, sp, now) == dark_fold(b0, h, sp.drop_first(), now));
    if s.len() == 0 {
        assert(sp[0] == e);
        assert(sp.drop_first() =~= Seq::<EntryV>::empty());
        assert(dark_fold(b0, h, sp.drop_first(), now) == b0);
        assert(dark_fold(book, h, s, now) == book);
    } else {
        assert(sp[0] == s[0]);
        assert(sp.drop_first() =~= s.drop_first().push(e));
        lemma_dark_fold_push(b0, h, s.drop_first(), e, now);
        assert(dark_fold(book, h, s, now) == dark_fold(b0, h, s.drop_first(), now));
    }
}

/// What an insert batch does to the target book, the registry and the count:
/// each entry whose `Insert` claim succeeds is upserted, the book sorted and
/// trimmed, and the claim released as `Free`; a held address is skipped.
pub open spec fn ins_fold(
    book: Seq<EntryV>,
    reg: Seq<SlotV>,
    entries: Seq<EntryV>,
    color: HostColor,
    now: u64,
) -> (Seq<EntryV>, Seq<SlotV>, int)
    decreases entries.len(),
{
    if entries.len() == 0 {
        (book, reg, 0)
    } else {
        let e = entries[0];
        if transition_allowed(reg_state(reg, e.0), StateKind::Insert) {
            let book1 = settle_book(book, e.0, e.1, color);
            let reg1 = reg_write(
                reg_write(reg, e.0, HostStateV::Insert),
                e.0,
                HostStateV::Free(now),
            );
            let rest = ins_fold(book1, reg1, entries.drop_first(), color, now);
            (rest.0, rest.1, rest.2 + 1)
        } else {
            ins_fold(book, reg, entries.drop_first(), color, now)
        }
    }
}

/// The insert fold distributes over growing the entry list at its end.
proof fn lemma_ins_fold_push(
    book: Seq<EntryV>,
    reg: Seq<SlotV>,
    s: Seq<EntryV>,
    e: EntryV,
    color: HostColor,
    now: u64,
)
    ensures
        ins_fold(book, reg, s.push(e), color, now) == ({
            let prev = ins_fold(book, reg, s, color, now);
            if transition_allowed(reg_state(prev.1, e.0), StateKind::Insert) {
                (
                    settle_book(prev.0, e.0, e.1, color),
                    reg_write(
                        reg_write(prev.1, e.0, HostStateV::Insert),
                        e.0,
                        HostStateV::Free(now),
                    ),
                    prev.2 + 1,
                )
            } else {
                prev
            }
        }),
    decreases s.len(),
{
    let sp = s.push(e);
    let allowed0 = transition_allowed(reg_state(reg, sp[0].0), StateKind::Insert);
    let b0 = if allowed0 {
        settle_book(book, sp[0].0, sp[0].1, color)
    } else {
        book
    };
    let r0 = if allowed0 {
        reg_write(reg_write(reg, sp[0].0, HostStateV::Insert), sp[0].0, HostStateV::Free(now))
    } else {
        reg
    };
    let restp = ins_fold(b0, r0, sp.drop_first(), color, now);
    assert(ins_fold(book, reg, sp, color, now) == (if allowed0 {
        (restp.0, restp.1, restp.2 + 1)
    } else {
        restp
    }));
    if s.len() == 0 {
        assert(sp[0] == e);
        assert(sp.drop_first() =~= Seq::<EntryV>::empty());
        assert(ins_fold(b0, r0, sp.drop_first(), color, now) == (b0, r0, 0int));
        assert(ins_fold(book, reg, s, color, now) == (book, reg, 0int));
    } else {
        assert(sp[0] == s[0]);
        assert(sp.drop_first() =~= s.drop_first().push(e));
        lemma_ins_fold_push(b0, r0, s.drop_first(), e, color, now);
        assert(ins_fold(book, reg, s, color, now) == (if allowed0 {
            let rest = ins_fold(b0, r0, s.drop_first(), color, now);
            (rest.0, rest.1, rest.2 + 1)
        } else {
            ins_fold(b0, r0, s.drop_first(), color, now)
        }));
    }
}

/// Writing a slot keeps the registry well formed, sets that address's state
/// and leaves every other address alone.
pub proof fn lemma_reg_write(reg: Seq<SlotV>, a: AddrV, st: HostStateV)
    requires
        unique_slots(reg),
    ensures
        unique_slots(reg_write(reg, a, st)),
        reg_state(reg_write(reg, a, st), a) == st,
        forall|b: AddrV| b != a ==> reg_state(reg_write(reg, a, st), b) == reg_state(reg, b),
{
    let i = find_slot(reg, a);
    lemma_find_slot(reg, a);
    let new = reg_write(reg, a, st);
    if i >= 0 {
        assert(forall|j: int| 0 <= j < new.len() ==> (#[trigger] new[j]).0 == reg[j].0);
        lemma_find_slot(new, a);
        let f2 = find_slot(new, a);
        assert(new[i].0 == a);
        assert(f2 >= 0);
        if f2 < i {
            assert(new[f2].0 == a);
            assert(reg[f2].0 == a);
            assert(false);
        }
        if f2 > i {
            assert(new[i].0 != a);
            assert(false);
        }
        assert(reg_state(new, a) == st);
        assert forall|b: AddrV| b != a implies reg_state(new, b) == reg_state(reg, b) by {
            lemma_find_slot(new, b);
            lemma_find_slot(reg, b);
            let fb2 = find_slot(new, b);
            let fb = find_slot(reg, b);
            if fb >= 0 {
                assert(new[fb].0 == b);
                if fb2 < fb {
                    assert(reg[fb2].0 == b);
                    assert(false);
                }
                if fb2 > fb {
                    assert(false);
                }
                assert(fb2 == fb);
                assert(fb != i);
                assert(new[fb] == reg[fb]);
            } else {
                if fb2 >= 0 {
                    assert(new[fb2].0 == b);
                    assert(reg[fb2].0 == b);
                    assert(false);
                }
            }
        }
    } else {
        assert(forall|j: int| 0 <= j < reg.len() ==> (#[trigger] reg[j]).0 != a);
        assert(forall|j: int| 0 <= j < reg.len() ==> (#[trigger] new[j]) == reg[j]);
        assert(new[reg.len() as int] == (a, st));
        assert forall|x: int, y: int|
            0 <= x < y < new.len() implies (#[trigger] new[x]).0 != (#[trigger] new[y]).0 by {
            if y < reg.len() {
                assert(reg[x].0 != reg[y].0);
            } else {
                assert(new[x].0 != a);
            }
        }
        lemma_find_slot(new, a);
        let f2 = find_slot(new, a);
        assert(new[f2].0 == a);
        if f2 < reg.len() {
            assert(reg[f2].0 == a);
            assert(false);
        }
        assert(reg_state(new, a) == st);
        assert forall|b: AddrV| b != a implies reg_state(new, b) == reg_state(reg, b) by {
            lemma_find_slot(new, b);
            lemma_find_slot(reg, b);
            let fb2 = find_slot(new, b);
            let fb = find_slot(reg, b);
            if fb >= 0 {
                assert(new[fb].0 == b);
                if fb2 < fb {
                    assert(reg[fb2].0 == b);
                    assert(false);
                }
                if fb2 > fb {
                    assert(false);
                }
                assert(new[fb] == reg[fb]);
            } else {
                if fb2 >= 0 {
                    assert(new[fb2].0 == b);
                    if fb2 < reg.len() {
                        assert(reg[fb2].0 == b);
                        assert(false);
                    }
                    assert(new[fb2].0 == a);
                    assert(false);
                }
            }
        }
    }
}

/// Whether the host of `a` equals the host of an address in the list.
fn hosts_match(list: &Vec<Addr>, a: &Addr) -> (r: bool)
    ensures
        r == (a@.host is Some && exists|i: int|
            0 <= i < list@.len() && (#[trigger] list@[i])@.host == a@.host),
{
    let host = match &a.host {
        Option::Some(h) => h,
        Option::None => {
            return false;
        },
    };
    let mut i: usize = 0;
    while i < list.len()
        invariant
            0 <= i <= list.len(),
            a@.host matches Option::Some(hh) && host@ == hh,
            forall|j: int| 0 <= j < i ==> (#[trigger] list@[j])@.host != a@.host,
        decreases list.len() - i,
    {
        let m = match &list[i].host {
            Option::Some(h) => *h == *host,
            Option::None => false,
        };
        if m {
            proof {
                assert(list@[i as int]@.host == a@.host);
            }
            return true;
        }
        i += 1;
    }
    false
}

/// Whether the port of `a` equals the port of an address in the list.
fn ports_match(list: &Vec<Addr>, a: &Addr) -> (r: bool)
    ensures
        r == exists|i: int| 0 <= i < list@.len() && (#[trigger] list@[i])@.port == a@.port,
{
    let mut i: usize = 0;
    while i < list.len()
        invariant
            0 <= i <= list.len(),
            forall|j: int| 0 <= j < i ==> (#[trigger] list@[j])@.port != a@.port,
        decreases list.len() - i,
    {
        let m = match (&list[i].port, &a.port) {
            (Option::Some(x), Option::Some(y)) => *x == *y,
            (Option::None, Option::None) => true,
            _ => false,
        };
        if m {
            proof {
                assert(list@[i as int]@.port == a@.port);
            }
            return true;
        }
        i += 1;
    }
    false
}

impl Hosts {
    /// Filter given addresses for entry into the books. Rejected entries are
    /// dropped silently; an entry whose transport we cannot use is recorded
    /// on the Dark book on its way through, and survives only when its
    /// scheme is mixed. Strictly called on the first time peers are learned.
    pub fn filter_addresses(&mut self, addrs: &Vec<Entry>, now: u64) -> (ret: Vec<Entry>)
        requires
            old(self).wf(),
        ensures
            final(self).wf(),
            bview(ret@) == accepted_list(*old(self), bview(addrs@)),
            final(self).cont().books(4) == dark_fold(
                old(self).cont().books(4),
                *old(self),
                bview(addrs@),
                now,
            ),
            forall|j: int|
                0 <= j < 5 && j != 4 ==> #[trigger] final(self).cont().books(j) == old(
                    self,
                ).cont().books(j),
            final(self).reg() == old(self).reg(),
            final(self).conf() == old(self).conf(),
            final(self).auto_addrs() == old(self).auto_addrs(),
            final(self).ipv6_ok() == old(self).ipv6_ok(),
            final(self).last_conn() == old(self).last_conn(),
    {
        let ghost h0 = *old(self);
        let ghost av = bview(addrs@);
        let ext = self.external_addrs();
        let mut ret: Vec<Entry> = Vec::new();
        let mut i: usize = 0;
        proof {
            assert(av.take(0) =~= Seq::<EntryV>::empty());
            assert(accepted_list(h0, av.take(0)) =~= Seq::<EntryV>::empty());
            assert(bview(ret@) =~= Seq::<EntryV>::empty());
        }
        while i < addrs.len()
            invariant
                self.wf(),
                h0 == *old(self),
                h0.wf(),
                av == bview(addrs@),
                av.len() == addrs@.len(),
                0 <= i <= addrs@.len(),
                ext@.len() == h0.conf().external_addrs@.len(),
                forall|j: int|
                    0 <= j < ext@.len() ==> (#[trigger] ext@[j])@ == patch_ext(
                        h0.conf().external_addrs@[j]@,
                        h0.auto_addrs(),
                    ),
                forall|j: int|
                    0 <= j < 5 && j != 4 ==> #[trigger] self.cont().books(j) == h0.cont().books(j),
                self.cont().books(4) == dark_fold(
                    h0.cont().books(4),
                    h0,
                    av.take(i as int),
                    now,
                ),
                self.reg() == h0.reg(),
                self.conf() == h0.conf(),
                self.auto_addrs() == h0.auto_addrs(),
                self.ipv6_ok() == h0.ipv6_ok(),
                self.last_conn() == h0.last_conn(),
                bview(ret@) == accepted_list(h0, av.take(i as int)),
            decreases addrs@.len() - i,
        {
            let addr = addrs[i].0.clone();
            let ls = addrs[i].1;
            let ghost ev = av[i as int];
            proof {
                assert(ev == (addr@, ls));
            }
            let ok_shape = addr.host.is_some() && addr.port.is_some();
            let ok_seed = !addrs_contain(&self.settings.seeds, &addr);
            let ok_peer = !addrs_contain(&self.settings.peers, &addr);
            let ok_black = !self.container.contains(3, &addr) && !self.block_all_ports(&addr);
            let ok_ext = if !self.settings.localnet {
                !hosts_match(&ext, &addr)
            } else {
                !ports_match(&self.settings.external_addrs, &addr)
            };
            let ok_local = if !self.settings.localnet {
                !addr.is_local()
            } else {
                true
            };
            let ok_scheme = match &addr.scheme {
                Transport::Tor => match &addr.host {
                    Option::Some(crate::addr::HostAddr::Domain(d)) => crate::trusted::onion_host_ok(
                        d.as_str(),
                    ),
                    _ => false,
                },
                Transport::TorTls => match &addr.host {
                    Option::Some(crate::addr::HostAddr::Domain(d)) => crate::trusted::onion_host_ok(
                        d.as_str(),
                    ),
                    _ => false,
                },
                Transport::Nym => false,
                Transport::NymTls => false,
                Transport::Tcp => true,
                Transport::TcpTls => true,
                Transport::I2p => match &addr.host {
                    Option::Some(crate::addr::HostAddr::Domain(d)) => crate::addr::i2p_host_ok(
                        d.as_str(),
                    ),
                    _ => false,
                },
                Transport::I2pTls => match &addr.host {
                    Option::Some(crate::addr::HostAddr::Domain(d)) => crate::addr::i2p_host_ok(
                        d.as_str(),
                    ),
                    _ => false,
                },
                _ => false,
            };
            let pre_ok = ok_shape && ok_seed && ok_peer && ok_black && ok_ext && ok_local
                && ok_scheme;
            proof {
                assert(ok_shape == (ev.0.host is Some && ev.0.port is Some));
                assert(ok_seed == !addr_in(h0.conf().seeds@, ev.0));
                assert(ok_peer == !addr_in(h0.conf().peers@, ev.0));
                assert(ok_black == (!contains_addr(h0.cont().books(3), ev.0) && !blocks_all_ports(
                    h0.cont().books(3),
                    ev.0,
                )));
                if !self.settings.localnet {
                    let hm = addr@.host is Some && exists|j: int|
                        0 <= j < ext@.len() && (#[trigger] ext@[j])@.host == addr@.host;
                    if hm {
                        let j = choose|j: int|
                            0 <= j < ext@.len() && (#[trigger] ext@[j])@.host == addr@.host;
                        assert(patch_ext(
                            h0.conf().external_addrs@[j]@,
                            h0.auto_addrs(),
                        ).host == addr@.host);
                        assert(own_ext_host(h0, ev.0));
                    }
                    if own_ext_host(h0, ev.0) {
                        let j = choose|j: int|
                            0 <= j < h0.conf().external_addrs@.len() && (#[trigger] patch_ext(
                                h0.conf().external_addrs@[j]@,
                                h0.auto_addrs(),
                            )).host == ev.0.host;
                        assert(ext@[j]@.host == ev.0.host);
                    }
                    assert(ok_ext == !own_ext_host(h0, ev.0));
                } else {
                    assert(ok_ext == !own_ext_port(h0, ev.0));
                }
                assert(ok_scheme == scheme_check_ok(ev.0));
                assert(pre_ok == pre_dark_ok(h0, ev));
            }
            let scheme_unsupported = !crate::container::schemes_contain(
                &self.settings.allowed_transports,
                &addr.scheme,
            ) || (!self.ipv6_available && addr.is_ipv6_host());
            proof {
                assert(scheme_unsupported == unsupported_transport(h0, ev.0));
                assert(av.take(i + 1) =~= av.take(i as int).push(ev));
                lemma_dark_fold_push(h0.cont().books(4), h0, av.take(i as int), ev, now);
                crate::container::lemma_filter_push(
                    av.take(i as int),
                    ev,
                    |e: EntryV| accepted(h0, e),
                );
            }
            if pre_ok && scheme_unsupported {
                let ghost dpre = self.cont().books(4);
                self.container.store_or_update(HostColor::Dark, addr.clone(), ls);
                self.container.sort_by_last_seen(4);
                self.container.resize(HostColor::Dark);
                self.container.refresh(HostColor::Dark, 86400, now);
                proof {
                    assert(self.cont().books(4) == dark_step(dpre, ev, now));
                }
            }
            let mix_ok = !scheme_unsupported || crate::container::schemes_contain(
                &self.settings.mixed_transports,
                &addr.scheme,
            );
            let in_books = self.container.contains(2, &addr) || self.container.contains(1, &addr)
                || self.container.contains(0, &addr);
            let acc = pre_ok && mix_ok && !in_books;
            proof {
                assert(acc == accepted(h0, ev));
                assert(self.cont().books(4) == dark_fold(
                    h0.cont().books(4),
                    h0,
                    av.take(i + 1),
                    now,
                ));
            }
            let ghost rpre = bview(ret@);
            if acc {
                ret.push((addr, ls));
                proof {
                    assert(bview(ret@) =~= rpre.push(ev));
                }
            }
            proof {
                assert(bview(ret@) == accepted_list(h0, av.take(i + 1)));
            }
            i += 1;
        }
        proof {
            assert(av.take(addrs@.len() as int) =~= av);
        }
        ret
    }

    /// Safely insert gossiped addresses: filter them, then claim each
    /// survivor, upsert it into the book of the given colour, sort and trim
    /// the book, and release the claim. An address held in another state is
    /// skipped. Returns how many entries were inserted, for the caller to
    /// publish.
    pub fn insert(&mut self, color: HostColor, addrs: &Vec<Entry>, now: u64) -> (r: usize)
        requires
            old(self).wf(),
        ensures
            final(self).wf(),
            ({
                let filtered = accepted_list(*old(self), bview(addrs@));
                let fdark = dark_fold(old(self).cont().books(4), *old(self), bview(addrs@), now);
                let outcome = ins_fold(
                    (if color_index(color) == 4 {
                        fdark
                    } else {
                        old(self).cont().books(color_index(color))
                    }),
                    old(self).reg(),
                    filtered,
                    color,
                    now,
                );
                &&& r == outcome.2
                &&& final(self).cont().books(color_index(color)) == outcome.0
                &&& final(self).reg() == outcome.1
                &&& (color_index(color) != 4 ==> final(self).cont().books(4) == fdark)
                &&& forall|j: int|
                    0 <= j < 5 && j != color_index(color) && j != 4
                        ==> #[trigger] final(self).cont().books(j) == old(self).cont().books(j)
            }),
            final(self).conf() == old(self).conf(),
            final(self).auto_addrs() == old(self).auto_addrs(),
            final(self).ipv6_ok() == old(self).ipv6_ok(),
            final(self).last_conn() == old(self).last_conn(),
    {
        let ghost h0 = *old(self);
        let filtered = self.filter_addresses(addrs, now);
        let ghost hf = *self;
        let ghost fv = bview(filtered@);
        let cidx = color.index();
        let ghost base = self.cont().books(cidx as int);
        let ghost reg0 = self.reg();
        let mut count: usize = 0;
        let mut k: usize = 0;
        proof {
            assert(fv.take(0) =~= Seq::<EntryV>::empty());
        }
        while k < filtered.len()
            invariant
                self.wf(),
                0 <= k <= filtered@.len(),
                fv == bview(filtered@),
                fv.len() == filtered@.len(),
                cidx == color_index(color),
                cidx < 5,
                base == hf.cont().books(cidx as int),
                reg0 == hf.reg(),
                ({
                    let outcome = ins_fold(base, reg0, fv.take(k as int), color, now);
                    &&& count == outcome.2
                    &&& self.cont().books(cidx as int) == outcome.0
                    &&& self.reg() == outcome.1
                }),
                count <= k,
                forall|j: int|
                    0 <= j < 5 && j != cidx ==> #[trigger] self.cont().books(j) == hf.cont().books(
                        j,
                    ),
                self.conf() == hf.conf(),
                self.auto_addrs() == hf.auto_addrs(),
                self.ipv6_ok() == hf.ipv6_ok(),
                self.last_conn() == hf.last_conn(),
            decreases filtered@.len() - k,
        {
            let addr = filtered[k].0.clone();
            let ls = filtered[k].1;
            let ghost ev = fv[k as int];
            let ghost regk = self.reg();
            let ghost bookk = self.cont().books(cidx as int);
            proof {
                assert(ev == (addr@, ls));
                assert(fv.take(k + 1) =~= fv.take(k as int).push(ev));
                lemma_ins_fold_push(base, reg0, fv.take(k as int), ev, color, now);
            }
            match self.try_register(addr.clone(), HostState::Insert) {
                Ok(_) => {
                    proof {
                        lemma_reg_write(regk, ev.0, HostStateV::Insert);
                    }
                    self.container.store_or_update(color, addr.clone(), ls);
                    self.container.sort_by_last_seen(cidx);
                    self.container.resize(color);
                    self.unregister(&addr, now);
                    proof {
                        assert(self.cont().books(cidx as int) == settle_book(
                            bookk,
                            ev.0,
                            ev.1,
                            color,
                        ));
                        assert(self.reg() == reg_write(
                            reg_write(regk, ev.0, HostStateV::Insert),
                            ev.0,
                            HostStateV::Free(now),
                        ));
                    }
                    count += 1;
                },
                Err(_) => {},
            }
            k += 1;
        }
        proof {
            assert(fv.take(filtered@.len() as int) =~= fv);
        }
        count
    }
}

/// Whether an entry may be dialled: not a seed, not one of our own external
/// addresses, and free to claim `Connect`.
pub open spec fn candidate_ok(h: Hosts, e: EntryV) -> bool {
    &&& !addr_in(h.conf().seeds@, e.0)
    &&& !own_ext_addr(h, e.0)
    &&& transition_allowed(reg_state(h.reg(), e.0), StateKind::Connect)
}

/// `i` points at the first dialable entry of `s`.
pub open spec fn first_candidate(h: Hosts, s: Seq<EntryV>, i: int) -> bool {
    &&& 0 <= i < s.len()
    &&& candidate_ok(h, s[i])
    &&& forall|j: int| 0 <= j < i ==> !candidate_ok(h, #[trigger] s[j])
}

impl Hosts {
    /// Move a host between books. The sole path for every colour change:
    /// a downgrade to Grey leaves Gold and White, a refinery pass to White
    /// leaves Grey, an upgrade to Gold leaves Grey and White, a ban moves a
    /// non-local host to Black, and Dark is refused: the darklist is only
    /// written by the filter. The address is left in the `Move` state; the
    /// caller frees it.
    pub fn move_host(&mut self, addr: &Addr, last_seen: u64, destination: HostColor) -> (r: Result<
        (),
        NetError,
    >)
        requires
            old(self).wf(),
        ensures
            final(self).wf(),
            final(self).conf() == old(self).conf(),
            final(self).auto_addrs() == old(self).auto_addrs(),
            final(self).ipv6_ok() == old(self).ipv6_ok(),
            final(self).last_conn() == old(self).last_conn(),
            ({
                let cur = reg_state(old(self).reg(), addr@);
                if !transition_allowed(cur, StateKind::Move) {
                    &&& r == Err::<(), NetError>(
                        NetError::HostStateBlocked(kind_of(cur), StateKind::Move),
                    )
                    &&& final(self).reg() == old(self).reg()
                    &&& forall|j: int|
                        0 <= j < 5 ==> #[trigger] final(self).cont().books(j) == old(
                            self,
                        ).cont().books(j)
                } else {
                    &&& final(self).reg() == reg_write(old(self).reg(), addr@, HostStateV::Move)
                    &&& match destination {
                        HostColor::Grey => {
                            &&& r is Ok
                            &&& final(self).cont().books(0) == settle_book(
                                old(self).cont().books(0),
                                addr@,
                                last_seen,
                                HostColor::Grey,
                            )
                            &&& final(self).cont().books(1) == remove_addr(
                                old(self).cont().books(1),
                                addr@,
                            )
                            &&& final(self).cont().books(2) == remove_addr(
                                old(self).cont().books(2),
                                addr@,
                            )
                            &&& final(self).cont().books(3) == old(self).cont().books(3)
                            &&& final(self).cont().books(4) == old(self).cont().books(4)
                        },
                        HostColor::White => {
                            &&& r is Ok
                            &&& final(self).cont().books(1) == settle_book(
                                old(self).cont().books(1),
                                addr@,
                                last_seen,
                                HostColor::White,
                            )
                            &&& final(self).cont().books(0) == remove_addr(
                                old(self).cont().books(0),
                                addr@,
                            )
                            &&& final(self).cont().books(2) == old(self).cont().books(2)
                            &&& final(self).cont().books(3) == old(self).cont().books(3)
                            &&& final(self).cont().books(4) == old(self).cont().books(4)
                        },
                        HostColor::Gold => {
                            &&& r is Ok
                            &&& final(self).cont().books(2) == sort_desc(
                                upsert(old(self).cont().books(2), addr@, last_seen),
                            )
                            &&& final(self).cont().books(0) == remove_addr(
                                old(self).cont().books(0),
                                addr@,
                            )
                            &&& final(self).cont().books(1) == remove_addr(
                                old(self).cont().books(1),
                                addr@,
                            )
                            &&& final(self).cont().books(3) == old(self).cont().books(3)
                            &&& final(self).cont().books(4) == old(self).cont().books(4)
                        },
                        HostColor::Black => {
                            &&& r is Ok
                            &&& if addr@.host is Some && !(!old(self).conf().localnet
                                && crate::addr::spec_is_local(addr@)) {
                                &&& final(self).cont().books(0) == remove_addr(
                                    old(self).cont().books(0),
                                    addr@,
                                )
                                &&& final(self).cont().books(1) == remove_addr(
                                    old(self).cont().books(1),
                                    addr@,
                                )
                                &&& final(self).cont().books(2) == remove_addr(
                                    old(self).cont().books(2),
                                    addr@,
                                )
                                &&& final(self).cont().books(3) == upsert(
                                    old(self).cont().books(3),
                                    addr@,
                                    last_seen,
                                )
                                &&& final(self).cont().books(4) == old(self).cont().books(4)
                            } else {
                                forall|j: int|
                                    0 <= j < 5 ==> #[trigger] final(self).cont().books(j) == old(
                                        self,
                                    ).cont().books(j)
                            }
                        },
                        HostColor::Dark => {
                            &&& r == Err::<(), NetError>(NetError::InvalidHostColor)
                            &&& forall|j: int|
                                0 <= j < 5 ==> #[trigger] final(self).cont().books(j) == old(
                                    self,
                                ).cont().books(j)
                        },
                    }
                }
            }),
    {
        match self.try_register(addr.clone(), HostState::Move) {
            Err(e) => {
                return Err(e);
            },
            Ok(_) => {},
        }
        match destination {
            HostColor::Grey => {
                self.container.remove_if_exists(HostColor::Gold, addr);
                self.container.remove_if_exists(HostColor::White, addr);
                self.container.store_or_update(HostColor::Grey, addr.clone(), last_seen);
                self.container.sort_by_last_seen(0);
                self.container.resize(HostColor::Grey);
                Ok(())
            },
            HostColor::White => {
                self.container.remove_if_exists(HostColor::Grey, addr);
                self.container.store_or_update(HostColor::White, addr.clone(), last_seen);
                self.container.sort_by_last_seen(1);
                self.container.resize(HostColor::White);
                Ok(())
            },
            HostColor::Gold => {
                self.container.remove_if_exists(HostColor::Grey, addr);
                self.container.remove_if_exists(HostColor::White, addr);
                self.container.store_or_update(HostColor::Gold, addr.clone(), last_seen);
                self.container.sort_by_last_seen(2);
                Ok(())
            },
            HostColor::Black => {
                let has_host = addr.host.is_some();
                if has_host {
                    if !self.settings.localnet && addr.is_local() {
                        return Ok(());
                    }
                    self.container.remove_if_exists(HostColor::Grey, addr);
                    self.container.remove_if_exists(HostColor::White, addr);
                    self.container.remove_if_exists(HostColor::Gold, addr);
                    self.container.store_or_update(HostColor::Black, addr.clone(), last_seen);
                }
                Ok(())
            },
            HostColor::Dark => Err(NetError::InvalidHostColor),
        }
    }

    /// Downgrade a host to Grey and free it.
    pub fn greylist_host(&mut self, addr: &Addr, last_seen: u64, now: u64) -> (r: Result<
        (),
        NetError,
    >)
        requires
            old(self).wf(),
        ensures
            final(self).wf(),
            final(self).conf() == old(self).conf(),
            ({
                let cur = reg_state(old(self).reg(), addr@);
                if transition_allowed(cur, StateKind::Move) {
                    &&& r is Ok
                    &&& final(self).cont().books(0) == settle_book(
                        old(self).cont().books(0),
                        addr@,
                        last_seen,
                        HostColor::Grey,
                    )
                    &&& final(self).cont().books(1) == remove_addr(
                        old(self).cont().books(1),
                        addr@,
                    )
                    &&& final(self).cont().books(2) == remove_addr(
                        old(self).cont().books(2),
                        addr@,
                    )
                    &&& final(self).cont().books(3) == old(self).cont().books(3)
                    &&& final(self).cont().books(4) == old(self).cont().books(4)
                    &&& final(self).reg() == reg_write(
                        reg_write(old(self).reg(), addr@, HostStateV::Move),
                        addr@,
                        HostStateV::Free(now),
                    )
                } else {
                    &&& r == Err::<(), NetError>(
                        NetError::HostStateBlocked(kind_of(cur), StateKind::Move),
                    )
                    &&& final(self).reg() == old(self).reg()
                    &&& forall|j: int|
                        0 <= j < 5 ==> #[trigger] final(self).cont().books(j) == old(
                            self,
                        ).cont().books(j)
                }
            }),
    {
        let ghost r0 = self.reg();
        match self.move_host(addr, last_seen, HostColor::Grey) {
            Err(e) => Err(e),
            Ok(_) => {
                proof {
                    lemma_reg_write(r0, addr@, HostStateV::Move);
                }
                self.unregister(addr, now);
                Ok(())
            },
        }
    }

    /// Promote a host to White and free it. Called when the refinery found
    /// the host reachable.
    pub fn whitelist_host(&mut self, addr: &Addr, last_seen: u64, now: u64) -> (r: Result<
        (),
        NetError,
    >)
        requires
            old(self).wf(),
        ensures
            final(self).wf(),
            final(self).conf() == old(self).conf(),
            ({
                let cur = reg_state(old(self).reg(), addr@);
                if transition_allowed(cur, StateKind::Move) {
                    &&& r is Ok
                    &&& final(self).cont().books(1) == settle_book(
                        old(self).cont().books(1),
                        addr@,
                        last_seen,
                        HostColor::White,
                    )
                    &&& final(self).cont().books(0) == remove_addr(
                        old(self).cont().books(0),
                        addr@,
                    )
                    &&& final(self).cont().books(2) == old(self).cont().books(2)
                    &&& final(self).cont().books(3) == old(self).cont().books(3)
                    &&& final(self).cont().books(4) == old(self).cont().books(4)
                    &&& final(self).reg() == reg_write(
                        reg_write(old(self).reg(), addr@, HostStateV::Move),
                        addr@,
                        HostStateV::Free(now),
                    )
                } else {
                    &&& r == Err::<(), NetError>(
                        NetError::HostStateBlocked(kind_of(cur), StateKind::Move),
                    )
                    &&& final(self).reg() == old(self).reg()
                    &&& forall|j: int|
                        0 <= j < 5 ==> #[trigger] final(self).cont().books(j) == old(
                            self,
                        ).cont().books(j)
                }
            }),
    {
        let ghost r0 = self.reg();
        match self.move_host(addr, last_seen, HostColor::White) {
            Err(e) => Err(e),
            Ok(_) => {
                proof {
                    lemma_reg_write(r0, addr@, HostStateV::Move);
                }
                self.unregister(addr, now);
                Ok(())
            },
        }
    }

    /// Walk a list of candidates and atomically reserve the first that is
    /// not a seed, not one of our own addresses, and free to dial.
    pub fn check_addrs(&mut self, hosts: Vec<Entry>) -> (r: Option<Entry>)
        requires
            old(self).wf(),
        ensures
            final(self).wf(),
            final(self).cont() == old(self).cont(),
            final(self).conf() == old(self).conf(),
            final(self).auto_addrs() == old(self).auto_addrs(),
            match r {
                Option::Some(e) => exists|i: int|
                    #[trigger] first_candidate(*old(self), bview(hosts@), i) && eview(e) == bview(
                        hosts@,
                    )[i] && final(self).reg() == reg_write(
                        old(self).reg(),
                        bview(hosts@)[i].0,
                        HostStateV::Connect,
                    ),
                Option::None => (forall|i: int|
                    0 <= i < hosts@.len() ==> !candidate_ok(*old(self), #[trigger] bview(hosts@)[i]))
                    && final(self).reg() == old(self).reg(),
            },
    {
        let ghost h0 = *old(self);
        let ghost hv = bview(hosts@);
        let ext = self.external_addrs();
        let mut k: usize = 0;
        while k < hosts.len()
            invariant
                self.wf(),
                h0 == *old(self),
                h0.wf(),
                hv == bview(hosts@),
                hv.len() == hosts@.len(),
                0 <= k <= hosts@.len(),
                ext@.len() == h0.conf().external_addrs@.len(),
                forall|j: int|
                    0 <= j < ext@.len() ==> (#[trigger] ext@[j])@ == patch_ext(
                        h0.conf().external_addrs@[j]@,
                        h0.auto_addrs(),
                    ),
                self.reg() == h0.reg(),
                self.cont() == h0.cont(),
                self.conf() == h0.conf(),
                self.auto_addrs() == h0.auto_addrs(),
                forall|j: int| 0 <= j < k ==> !candidate_ok(h0, #[trigger] hv[j]),
            decreases hosts@.len() - k,
        {
            let ghost ev = hv[k as int];
            let is_seed = addrs_contain(&self.settings.seeds, &hosts[k].0);
            let is_ext = addrs_contain(&ext, &hosts[k].0);
            proof {
                assert(ev.0 == hosts@[k as int].0@);
                if is_ext {
                    let j = choose|j: int|
                        0 <= j < ext@.len() && (#[trigger] ext@[j])@ == ev.0;
                    assert(patch_ext(h0.conf().external_addrs@[j]@, h0.auto_addrs()) == ev.0);
                    assert(own_ext_addr(h0, ev.0));
                }
                if own_ext_addr(h0, ev.0) {
                    let j = choose|j: int|
                        0 <= j < h0.conf().external_addrs@.len() && patch_ext(
                            (#[trigger] h0.conf().external_addrs@[j])@,
                            h0.auto_addrs(),
                        ) == ev.0;
                    assert(ext@[j]@ == ev.0);
                }
                assert(is_ext == own_ext_addr(h0, ev.0));
            }
            if !is_seed && !is_ext {
                match self.try_register(hosts[k].0.clone(), HostState::Connect) {
                    Ok(_) => {
                        let e = (hosts[k].0.clone(), hosts[k].1);
                        proof {
                            assert(candidate_ok(h0, ev));
                            assert(first_candidate(h0, hv, k as int));
                            assert(eview(e) == hv[k as int]);
                        }
                        return Some(e);
                    },
                    Err(_) => {
                        proof {
                            assert(!candidate_ok(h0, ev));
                        }
                    },
                }
            } else {
                proof {
                    assert(!candidate_ok(h0, ev));
                }
            }
            k += 1;
        }
        None
    }
}

impl Hosts {
    /// Whether a hostname is a valid I2P host.
    pub fn is_i2p_host(host: &str) -> (r: bool)
        ensures
            r == crate::addr::spec_is_i2p(host@),
    {
        crate::addr::i2p_host_ok(host)
    }
}

} // verus!
