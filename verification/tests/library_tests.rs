//! The library's laws on concrete values: filtering scenarios, registry
//! exclusivity, caps, sorting, the persistence round trip and the error
//! cases.

use hostlist::addr::{Addr, Transport};
use hostlist::container::{HostColor, HostContainer};
use hostlist::hosts::{Hosts, Settings};
use hostlist::proposal::{BlockInfo, Header, Proposal};
use hostlist::state::HostState;
use hostlist::{NetError, StateKind};

fn url(s: &str) -> Addr {
    Addr::from_url(s).unwrap()
}

fn tp(s: &str) -> Transport {
    Transport::from_name(s)
}

fn unix_now() -> u64 {
    std::time::UNIX_EPOCH.elapsed().unwrap().as_secs()
}

#[test]
fn filter_rejects_localhost_outside_localnet() {
    let settings = Settings {
        localnet: false,
        allowed_transports: vec![tp("tcp")],
        ..Default::default()
    };
    let mut hosts = Hosts::new(settings);
    let filtered = hosts.filter_addresses(&vec![(url("tcp://127.0.0.1:5000"), 1)], unix_now());
    assert!(filtered.is_empty());
}

#[test]
fn filter_accepts_valid_onion() {
    let settings = Settings { allowed_transports: vec![tp("tor")], ..Default::default() };
    let mut hosts = Hosts::new(settings);
    let onion = "tor://eweiibe6tdjsdprb4px6rqrzzcsi22m4koia44kc5pcjr7nec2rlxyad.onion:1";
    let filtered = hosts.filter_addresses(&vec![(url(onion), 1)], unix_now());
    assert_eq!(filtered.len(), 1);
    assert!(filtered[0].0 == url(onion));
    assert_eq!(filtered[0].1, 1);
}

#[test]
fn filter_rejects_malformed_onion() {
    let settings = Settings { allowed_transports: vec![tp("tor")], ..Default::default() };
    let mut hosts = Hosts::new(settings);
    let filtered = hosts.filter_addresses(&vec![(url("tor://not-an-onion.onion:1"), 1)], unix_now());
    assert!(filtered.is_empty());
}

#[test]
fn filter_darkens_unsupported_transport() {
    let settings = Settings {
        allowed_transports: vec![tp("tcp")],
        mixed_transports: vec![tp("tor")],
        ..Default::default()
    };
    let mut hosts = Hosts::new(settings);
    let onion = "tor://eweiibe6tdjsdprb4px6rqrzzcsi22m4koia44kc5pcjr7nec2rlxyad.onion:1";
    let now = unix_now();
    let filtered = hosts.filter_addresses(&vec![(url(onion), now)], now);
    // The transport is mixed, so the entry survives, and it is recorded on
    // the Dark book on its way through.
    assert_eq!(filtered.len(), 1);
    assert!(hosts.container.contains(4, &url(onion)));
}

#[test]
fn registry_claims_are_exclusive() {
    let mut hosts = Hosts::new(Settings::default());
    let addr = url("tcp://dark.fi:28880");
    assert!(hosts.try_register(url("tcp://dark.fi:28880"), HostState::Connect).is_ok());
    let second = hosts.try_register(url("tcp://dark.fi:28880"), HostState::Connect);
    assert!(matches!(
        second,
        Err(NetError::HostStateBlocked(StateKind::Connect, StateKind::Connect))
    ));
    hosts.unregister(&addr, unix_now());
    assert!(hosts.try_register(url("tcp://dark.fi:28880"), HostState::Connect).is_ok());
}

#[test]
fn suspend_needs_move() {
    let mut hosts = Hosts::new(Settings::default());
    let blocked = hosts.try_register(url("tcp://dark.fi:28880"), HostState::Suspend);
    assert!(matches!(
        blocked,
        Err(NetError::HostStateBlocked(StateKind::Free, StateKind::Suspend))
    ));
    assert!(hosts.try_register(url("tcp://dark.fi:28880"), HostState::Move).is_ok());
    assert!(hosts.try_register(url("tcp://dark.fi:28880"), HostState::Suspend).is_ok());
}

#[test]
fn insert_writes_grey_and_counts() {
    let settings = Settings { allowed_transports: vec![tp("tcp")], ..Default::default() };
    let mut hosts = Hosts::new(settings);
    let now = unix_now();
    let count = hosts.insert(
        HostColor::Grey,
        &vec![(url("tcp://dark.fi:28880"), now), (url("tcp://agorism.xyz:80"), now)],
        now,
    );
    assert_eq!(count, 2);
    assert!(hosts.container.contains(0, &url("tcp://dark.fi:28880")));
    assert!(hosts.container.contains(0, &url("tcp://agorism.xyz:80")));
    // A second insert of the same addresses is rejected: they are on Grey.
    let again = hosts.insert(HostColor::Grey, &vec![(url("tcp://dark.fi:28880"), now)], now);
    assert_eq!(again, 0);
}

#[test]
fn move_host_keeps_books_exclusive() {
    let settings = Settings { allowed_transports: vec![tp("tcp")], ..Default::default() };
    let mut hosts = Hosts::new(settings);
    let now = unix_now();
    let a = url("tcp://dark.fi:28880");
    hosts.insert(HostColor::Grey, &vec![(url("tcp://dark.fi:28880"), now)], now);

    hosts.whitelist_host(&a, now, now).unwrap();
    assert!(!hosts.container.contains(0, &a));
    assert!(hosts.container.contains(1, &a));

    hosts.move_host(&a, now, HostColor::Gold).unwrap();
    hosts.unregister(&a, now);
    assert!(!hosts.container.contains(0, &a));
    assert!(!hosts.container.contains(1, &a));
    assert!(hosts.container.contains(2, &a));

    hosts.greylist_host(&a, now, now).unwrap();
    assert!(hosts.container.contains(0, &a));
    assert!(!hosts.container.contains(1, &a));
    assert!(!hosts.container.contains(2, &a));
}

#[test]
fn move_host_refuses_dark() {
    let mut hosts = Hosts::new(Settings::default());
    let a = url("tcp://dark.fi:28880");
    let r = hosts.move_host(&a, 5, HostColor::Dark);
    assert!(matches!(r, Err(NetError::InvalidHostColor)));
}

#[test]
fn dark_book_stays_under_its_cap() {
    let mut container = HostContainer::new();
    let now = unix_now();
    for i in 0..1000u64 {
        container.store(4, url(&format!("tcp://dark{i}.example:5")), now + i);
    }
    assert_eq!(container.fetch_all(HostColor::Dark).len(), 1000);
    container.sort_by_last_seen(4);
    container.resize(HostColor::Dark);
    // At the cap, the oldest entry is evicted.
    let dark = container.fetch_all(HostColor::Dark);
    assert_eq!(dark.len(), 999);
    assert!(container.contains(4, &url("tcp://dark999.example:5")));
    assert!(!container.contains(4, &url("tcp://dark0.example:5")));
}

#[test]
fn books_sort_by_last_seen_descending() {
    let settings = Settings { allowed_transports: vec![tp("tcp")], ..Default::default() };
    let mut hosts = Hosts::new(settings);
    let now = 1720000000u64;
    hosts.insert(
        HostColor::Grey,
        &vec![
            (url("tcp://a.example:1"), now + 3),
            (url("tcp://b.example:1"), now + 9),
            (url("tcp://c.example:1"), now + 1),
            (url("tcp://d.example:1"), now + 7),
        ],
        now,
    );
    let grey = hosts.container.fetch_all(HostColor::Grey);
    assert_eq!(grey.len(), 4);
    for i in 1..grey.len() {
        assert!(grey[i - 1].1 >= grey[i].1);
    }
    assert_eq!(grey[0].1, now + 9);
}

#[test]
fn check_addrs_reserves_first_free_candidate() {
    let settings = Settings { seeds: vec![url("tcp://seed.example:1")], ..Default::default() };
    let mut hosts = Hosts::new(settings);
    // Hold the first candidate so only the second is free.
    assert!(hosts.try_register(url("tcp://busy.example:1"), HostState::Refine).is_ok());
    let picked = hosts.check_addrs(vec![
        (url("tcp://seed.example:1"), 4),
        (url("tcp://busy.example:1"), 5),
        (url("tcp://free.example:1"), 6),
    ]);
    let (a, ls) = picked.unwrap();
    assert!(a == url("tcp://free.example:1"));
    assert_eq!(ls, 6);
    // The pick claimed the peer: a second reservation is refused.
    assert!(hosts.try_register(url("tcp://free.example:1"), HostState::Connect).is_err());
}

#[test]
fn fetch_never_returns_mixed_transport() {
    let mut container = HostContainer::new();
    container.store_or_update(HostColor::Grey, url("tcp://dark.fi:28880"), 0);
    container.store_or_update(HostColor::Grey, url("tor://example.onion:1"), 0);
    let fetched = container.fetch(
        HostColor::Grey,
        &vec![tp("tcp"), tp("tor")],
        &vec![tp("tcp")],
        None,
        None,
    );
    for (a, _) in fetched.iter() {
        assert!(a.scheme != tp("tcp"));
    }
}

#[test]
fn persistence_round_trip_keeps_entries() {
    let now = unix_now();
    let mut container = HostContainer::new();
    container.store(0, url("tcp://grey1.example:1"), now);
    container.store(0, url("tcp://grey2.example:1"), now + 1);
    container.store(1, url("tcp://white1.example:2"), now + 2);
    container.store(2, url("tor://eweiibe6tdjsdprb4px6rqrzzcsi22m4koia44kc5pcjr7nec2rlxyad.onion:3"), now + 3);
    container.store(4, url("tcp://[2345:425:2ca1::567:5673:23b5]:4"), now);

    let saved = container.save_all();

    let mut restored = HostContainer::new();
    restored.load_all(saved.as_str(), now);

    for color in [HostColor::Grey, HostColor::White, HostColor::Gold, HostColor::Dark] {
        let mut before: Vec<(String, u64)> = container
            .fetch_all(color)
            .iter()
            .map(|e| (e.0.to_url_string(), e.1))
            .collect();
        let mut after: Vec<(String, u64)> = restored
            .fetch_all(color)
            .iter()
            .map(|e| (e.0.to_url_string(), e.1))
            .collect();
        before.sort();
        after.sort();
        assert_eq!(before, after);
    }
    // Black is never persisted.
    assert!(restored.is_empty(HostColor::Black));
}

#[test]
fn load_skips_malformed_lines() {
    let mut container = HostContainer::new();
    let contents = "grey\ttcp://ok.example:1/\t7\nnothing\nred\ttcp://x.example:1/\t3\ngrey\ttcp://bad.example:1/\tnotanumber\n";
    container.load_all(contents, unix_now());
    let grey = container.fetch_all(HostColor::Grey);
    assert_eq!(grey.len(), 1);
    assert_eq!(grey[0].0.to_url_string(), "tcp://ok.example:1/");
    assert_eq!(grey[0].1, 7);
}

#[test]
fn url_parsing_canonicalizes() {
    // The URL parser lowercases the scheme, and the host of a special
    // scheme; handing back the input unchanged would fail this.
    let a = url("TCP://dark.fi:28880");
    assert_eq!(a.to_url_string(), "tcp://dark.fi:28880/");
    let c = url("HTTPS://DYNE.org");
    assert_eq!(c.to_url_string(), "https://dyne.org/");
    // An IPv4-shaped host is held as four octets and printed canonically.
    let b = url("tcp://127.0.0.1:9050");
    assert!(b.host == url("tcp://127.0.0.1:80").host);
    assert_eq!(b.to_url_string(), "tcp://127.0.0.1:9050/");
}

#[test]
fn random_fetches_sample_from_the_book() {
    let mut container = HostContainer::new();
    container.store_or_update(HostColor::White, url("tcp://a.example:1"), 1);
    container.store_or_update(HostColor::White, url("tcp://b.example:1"), 2);
    container.store_or_update(HostColor::White, url("tor://c.onion:1"), 3);
    let sample = container.fetch_n_random(HostColor::White, 2);
    assert_eq!(sample.len(), 2);
    for (a, _) in sample.iter() {
        assert!(container.contains(1, a));
    }
    let (entry, pos) = container
        .fetch_random_with_schemes(HostColor::White, &vec![tp("tcp")])
        .unwrap();
    assert!(entry.0.scheme == tp("tcp"));
    assert!(pos < 2);
    let none = container.fetch_random_with_schemes(HostColor::Gold, &vec![tp("tcp")]);
    assert!(none.is_none());
}

#[test]
fn external_addrs_patch_unspecified_ipv6() {
    let settings = Settings {
        external_addrs: vec![url("tcp://[::]:1365")],
        ..Default::default()
    };
    let mut hosts = Hosts::new(settings);
    let reported = url("tcp://[2345:425:2ca1::567:5673:23b5]:1");
    let ip = match reported.host.as_ref().unwrap() {
        hostlist::addr::HostAddr::Ip6(ip) => *ip,
        _ => panic!("expected an IPv6 host"),
    };
    hosts.add_auto_addr(ip);
    hosts.add_auto_addr(ip);
    let ext = hosts.external_addrs();
    assert_eq!(ext.len(), 1);
    assert_eq!(ext[0].to_url_string(), "tcp://[2345:425:2ca1:0:0:567:5673:23b5]:1365/");
}

#[test]
fn import_blacklist_fills_black_book() {
    let settings = Settings {
        blacklist: vec![hostlist::hosts::BlacklistEntry {
            hostname: String::from("agorism.xyz"),
            schemes: vec![],
            ports: vec![],
        }],
        ..Default::default()
    };
    let mut hosts = Hosts::new(settings);
    hosts.import_blacklist();
    assert!(hosts.container.contains(3, &url("tcp+tls://agorism.xyz")));
    assert!(hosts.block_all_ports(&url("tcp+tls://agorism.xyz:443")));
}

#[test]
fn proposal_names_block_by_header_digest() {
    let block = BlockInfo {
        header: Header {
            version: 1,
            previous: vec![7u8; 32],
            height: 42,
            timestamp: 1720000000,
            nonce: 99,
        },
        txs: vec![],
    };
    let expected_bytes = block.header_to_bytes();
    let proposal = Proposal::new(block);
    let expected = blake3::hash(&expected_bytes);
    assert_eq!(proposal.hash.as_slice(), expected.as_bytes());
    assert_eq!(proposal.hash.len(), 32);
}

#[test]
fn channels_and_peers_follow_the_registry() {
    let mut hosts = Hosts::new(Settings::default());
    let now = unix_now();
    let peer = hostlist::state::Channel {
        id: 7,
        session_type_id: hostlist::state::SESSION_OUTBOUND,
        address: url("tcp://peer.example:1"),
    };
    let seed = hostlist::state::Channel {
        id: 9,
        session_type_id: hostlist::state::SESSION_SEED,
        address: url("tcp://seed.example:1"),
    };
    assert!(hosts.register_channel(peer, now));
    assert!(hosts.register_channel(seed, now));
    assert_eq!(hosts.channels().len(), 2);
    let peers = hosts.peers();
    assert_eq!(peers.len(), 1);
    assert_eq!(peers[0].id, 7);
    assert!(hosts.get_channel(9).is_some());
    assert!(hosts.get_channel(13).is_none());
    let any = hosts.random_channel();
    assert!(any.id == 7 || any.id == 9);
}

#[test]
fn store_or_update_keeps_one_entry_per_address() {
    let mut container = HostContainer::new();
    container.store_or_update(HostColor::Grey, url("tcp://dark.fi:28880"), 5);
    container.store_or_update(HostColor::Grey, url("tcp://dark.fi:28880"), 9);
    let grey = container.fetch_all(HostColor::Grey);
    assert_eq!(grey.len(), 1);
    assert_eq!(grey[0].1, 9);
    assert_eq!(
        container.get_last_seen(0, &url("tcp://dark.fi:28880")),
        Some(9)
    );
    assert_eq!(container.get_index_at_addr(0, &url("tcp://dark.fi:28880")), Some(0));
    assert_eq!(container.get_index_at_addr(0, &url("tcp://other.fi:1")), None);
}

#[test]
fn load_reads_compressed_ipv6_and_slashless_urls() {
    // Lines as another writer would produce them: compressed IPv6 text and
    // no slash before an empty path.
    let mut container = HostContainer::new();
    let contents = "grey\ttor://[::1]:21481\t5\nwhite\ttcp://dark.fi:28880\t6\ngold\ttcp://[2345:425:2ca1::567:5673:23b5]:4\t7\n";
    container.load_all(contents, unix_now());
    let grey = container.fetch_all(HostColor::Grey);
    assert_eq!(grey.len(), 1);
    assert_eq!(grey[0].0.to_url_string(), "tor://[0:0:0:0:0:0:0:1]:21481/");
    assert!(grey[0].0 == url("tor://[::1]:21481"));
    let white = container.fetch_all(HostColor::White);
    assert_eq!(white.len(), 1);
    assert!(white[0].0 == url("tcp://dark.fi:28880"));
    let gold = container.fetch_all(HostColor::Gold);
    assert_eq!(gold.len(), 1);
    assert!(gold[0].0 == url("tcp://[2345:0425:2CA1:0000:0000:0567:5673:23b5]:4"));
}

#[test]
fn import_blacklist_expands_schemes_and_ports() {
    let settings = Settings {
        blacklist: vec![
            hostlist::hosts::BlacklistEntry {
                hostname: String::from("nietzsche.king"),
                schemes: vec![String::from("tcp"), String::from("tor")],
                ports: vec![11, 22],
            },
        ],
        ..Default::default()
    };
    let mut hosts = Hosts::new(settings);
    hosts.import_blacklist();
    let black = hosts.container.fetch_all(HostColor::Black);
    assert_eq!(black.len(), 4);
    for (_, last_seen) in black.iter() {
        assert_eq!(*last_seen, 0);
    }
    assert!(hosts.container.contains(3, &url("tcp://nietzsche.king:11")));
    assert!(hosts.container.contains(3, &url("tcp://nietzsche.king:22")));
    assert!(hosts.container.contains(3, &url("tor://nietzsche.king:11")));
    assert!(hosts.container.contains(3, &url("tor://nietzsche.king:22")));
}
