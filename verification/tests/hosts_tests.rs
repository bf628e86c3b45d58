//! The host manager's behaviour on concrete inputs: local-host detection,
//! blacklisting, book writes, the Dark sweep and the transport-mixing fetch.

use hostlist::addr::{Addr, Transport};
use hostlist::container::{HostColor, HostContainer};
use hostlist::hosts::{Hosts, Settings};

fn url(s: &str) -> Addr {
    Addr::from_url(s).unwrap()
}

fn tp(s: &str) -> Transport {
    Transport::from_name(s)
}

fn unix_now() -> u64 {
    std::time::UNIX_EPOCH.elapsed().unwrap().as_secs()
}

#[test]
fn test_is_local_host() {
    let settings = Settings {
        localnet: false,
        external_addrs: vec![url("tcp://foo.bar:123"), url("tcp://lol.cat:321")],
        ..Default::default()
    };
    let hosts = Hosts::new(settings);

    let local_hosts: Vec<Addr> = vec![
        url("tcp://localhost"),
        url("tcp://127.0.0.1"),
        url("tcp+tls://[::1]"),
        url("tcp://localhost.localdomain"),
        url("tcp://192.168.10.65"),
    ];
    for host in local_hosts {
        println!("{}", host.to_url_string());
        assert!(hosts.is_local_host(&host));
    }
    let remote_hosts: Vec<Addr> = vec![
        url("https://dyne.org"),
        url("tcp://77.168.10.65:2222"),
        url("tcp://[2345:0425:2CA1:0000:0000:0567:5673:23b5]"),
        url("http://eweiibe6tdjsdprb4px6rqrzzcsi22m4koia44kc5pcjr7nec2rlxyad.onion"),
    ];
    for host in remote_hosts {
        assert!(!hosts.is_local_host(&host))
    }
}

#[test]
fn test_is_ipv6() {
    let settings = Settings { ..Default::default() };
    let hosts = Hosts::new(settings);

    let ipv6_hosts: Vec<Addr> = vec![
        url("tcp+tls://[::1]"),
        url("tcp://[2001:0000:130F:0000:0000:09C0:876A:130B]"),
        url("tcp://[2345:0425:2CA1:0000:0000:0567:5673:23b5]"),
    ];

    let ipv4_hosts: Vec<Addr> = vec![
        url("tcp://192.168.10.65"),
        url("https://dyne.org"),
        url("tcp+tls://agorism.xyz"),
    ];

    for host in ipv6_hosts {
        assert!(hosts.is_ipv6(&host))
    }

    for host in ipv4_hosts {
        assert!(!hosts.is_ipv6(&host))
    }
}

#[test]
fn test_block_all_ports() {
    let settings = Settings { ..Default::default() };
    let mut hosts = Hosts::new(settings);

    let blacklist1 = url("tcp+tls://nietzsche.king:333");
    let blacklist2 = url("tcp+tls://agorism.xyz");

    hosts.container.store(3, url("tcp+tls://nietzsche.king:333"), 0);
    hosts.container.store(3, url("tcp+tls://agorism.xyz"), 0);

    assert!(hosts.block_all_ports(&blacklist2));
    assert!(!hosts.block_all_ports(&blacklist1));
}

#[test]
fn test_store() {
    let last_seen = unix_now();

    let settings = Settings { ..Default::default() };
    let mut hosts = Hosts::new(settings);

    let grey_hosts = vec![
        url("tcp://localhost:3921"),
        url("tor://[::1]:21481"),
        url("tcp://192.168.10.65:311"),
        url("tcp+tls://0.0.0.0:2312"),
        url("tcp://255.255.255.255:2131"),
    ];

    for addr in &grey_hosts {
        hosts.container.store(0, Addr::from_url(&addr.to_url_string()).unwrap(), last_seen);
    }
    assert!(!hosts.container.is_empty(HostColor::Grey));

    let white_hosts = vec![
        url("tcp://localhost:3921"),
        url("tor://[::1]:21481"),
        url("tcp://192.168.10.65:311"),
        url("tcp+tls://0.0.0.0:2312"),
        url("tcp://255.255.255.255:2131"),
    ];

    for host in &white_hosts {
        hosts.container.store(1, Addr::from_url(&host.to_url_string()).unwrap(), last_seen);
    }
    assert!(!hosts.container.is_empty(HostColor::White));

    let gold_hosts = vec![
        url("tcp://dark.fi:80"),
        url("tcp://http.cat:401"),
        url("tcp://foo.bar:111"),
    ];

    for host in &gold_hosts {
        hosts.container.store(2, Addr::from_url(&host.to_url_string()).unwrap(), last_seen);
    }

    assert!(hosts.container.contains(0, &grey_hosts[0]));
    assert!(hosts.container.contains(1, &white_hosts[1]));
    assert!(hosts.container.contains(2, &gold_hosts[2]));
}

#[test]
fn test_refresh() {
    let settings = Settings { ..Default::default() };
    let mut hosts = Hosts::new(settings);
    let old_timestamp = 1720000000u64;

    for i in 0..5u64 {
        let last_seen = old_timestamp + i;
        let u = url(&format!("tcp://old_darklist{i}:123"));
        hosts.container.store(4, u, last_seen);
    }

    for _i in 0..5 {
        let last_seen = unix_now();
        let u = url(&format!("tcp://new_darklist{_i}:123"));
        hosts.container.store(4, u, last_seen);
    }

    let day = 86400;
    hosts.container.refresh(HostColor::Dark, day, unix_now());

    let darklist = hosts.container.fetch_all(HostColor::Dark);
    assert!(darklist.len() == 5);

    for (_, last_seen) in darklist.iter() {
        assert!(*last_seen > old_timestamp);
    }

    let now = unix_now();
    let future_timestamp = now + 100;

    for i in 0..5 {
        let last_seen = future_timestamp;
        let u = url(&format!("tcp://future_darklist{i}:123"));
        hosts.container.store(4, u, last_seen);
    }

    hosts.container.refresh(HostColor::Dark, day, unix_now());

    let darklist = hosts.container.fetch_all(HostColor::Dark);
    assert!(darklist.len() == 10);
}

#[test]
fn test_get_last() {
    let settings = Settings { ..Default::default() };
    let mut hosts = Hosts::new(settings);

    let base = unix_now();
    for i in 0..10u64 {
        let last_seen = base + i;
        let u = url(&format!("tcp://whitelist{i}:123"));
        hosts.container.store(1, u, last_seen);
    }
    hosts.container.sort_by_last_seen(1);

    for (u, last_seen) in hosts.container.fetch_all(HostColor::White).iter() {
        println!("{} {}", u.to_url_string(), last_seen);
    }

    let entry = hosts.container.fetch_last(HostColor::White).unwrap();
    println!("last entry: {} {}", entry.0.to_url_string(), entry.1);
    assert_eq!(entry.1, base);
}

#[test]
fn test_is_p2p_host() {
    assert!(Hosts::is_i2p_host("tm7bz5qfh73id33yjpshxmesrqedoz2ckghd3levktqywcrramwq.b32.i2p"));
    assert!(!Hosts::is_i2p_host("randomstring.b32.i2p"));
    assert!(Hosts::is_i2p_host("node.dark.fi.i2p"));
    assert!(!Hosts::is_i2p_host("node.dark.fi"));
}

// Test tcp endpoint is changed to tor and tcp will not be used to
// connect to any host directly
#[test]
fn test_transport_tor_mixed_with_tcp_fetch() {
    let mut host_container = HostContainer::new();
    host_container.store_or_update(HostColor::Grey, url("tcp://dark.fi:28880"), 0);

    let fetched_hosts = host_container.fetch(
        HostColor::Grey,
        &vec![tp("tor+tls"), tp("tcp"), tp("tor")],
        &vec![tp("tcp")],
        Addr::from_url("socks5://127.0.0.1:9050"),
        None,
    );

    assert_eq!(fetched_hosts.len(), 1);
    assert_eq!(fetched_hosts[0].0.to_url_string(), "tor://dark.fi:28880/");
}

// Test when both tor_socks5_proxy and nym_socks5_proxy are passed
// tcp+tls endpoint is changed to socks5+tls and the endpoint is changed to two
// endpoints where one is routed through tor and another through nym
#[test]
fn test_transport_socks5_mixed_with_tcp_through_tor_and_nym_proxy_fetch() {
    let mut host_container = HostContainer::new();
    host_container.store_or_update(HostColor::Grey, url("tcp+tls://dark.fi:28880"), 0);
    let tor_socks5_proxy_url = Addr::from_url("socks5://127.0.0.1:9050");
    let nym_socks5_proxy_url = Addr::from_url("socks5://127.0.0.1:1080");

    let fetched_hosts = host_container.fetch(
        HostColor::Grey,
        &vec![tp("socks5"), tp("socks5+tls")],
        &vec![tp("tcp+tls")],
        tor_socks5_proxy_url.clone(),
        nym_socks5_proxy_url.clone(),
    );

    assert_eq!(fetched_hosts.len(), 2);
    assert!(
        fetched_hosts[0].0.scheme == tp("socks5+tls") && fetched_hosts[1].0.scheme == tp(
            "socks5+tls"
        )
    );
    assert_eq!(
        fetched_hosts
            .iter()
            .filter(|h| h.0.port == tor_socks5_proxy_url.as_ref().unwrap().port)
            .count(),
        1
    );
    assert_eq!(
        fetched_hosts
            .iter()
            .filter(|h| h.0.port == nym_socks5_proxy_url.as_ref().unwrap().port)
            .count(),
        1
    );
}

// Test tor endpoint is changed to socks5 and tor will not be used to
// connect to any host directly and tor endpoints are not routed through nym
#[test]
fn test_transport_socks5_mixed_with_tor_fetch() {
    let mut host_container = HostContainer::new();
    let addr = "eweiibe6tdjsdprb4px6rqrzzcsi22m4koia44kc5pcjr7nec2rlxyad.onion:23330";
    host_container.store_or_update(HostColor::Grey, url(&format!("tor://{addr}")), 0);
    let tor_socks5_proxy_url = Addr::from_url("socks5://127.0.0.1:9050");
    let nym_socks5_proxy_url = Addr::from_url("socks5://127.0.0.1:1080");

    let fetched_hosts = host_container.fetch(
        HostColor::Grey,
        &vec![tp("socks5"), tp("socks5+tls"), tp("tor")],
        &vec![tp("tor")],
        tor_socks5_proxy_url.clone(),
        nym_socks5_proxy_url,
    );

    assert_eq!(fetched_hosts.len(), 1);
    let mixed_url = &fetched_hosts[0].0;
    let proxy = tor_socks5_proxy_url.as_ref().unwrap();
    assert_eq!(mixed_url.scheme, proxy.scheme);
    assert_eq!(mixed_url.host, proxy.host);
    assert_eq!(mixed_url.port, proxy.port);
    assert_eq!(mixed_url.path, addr);
}

// Test the tcp endpoint is changed to two endpoints socks5 and tor.
#[test]
fn test_transport_tor_and_socks5_mixed_with_tcp_fetch() {
    let mut host_container = HostContainer::new();
    host_container.store_or_update(HostColor::Grey, url("tcp://dark.fi:28880"), 0);

    let fetched_hosts = host_container.fetch(
        HostColor::Grey,
        &vec![tp("tor"), tp("tor+tls"), tp("socks5"), tp("socks5+tls")],
        &vec![tp("tcp")],
        Addr::from_url("socks5://127.0.0.1:9050"),
        None,
    );

    assert_eq!(fetched_hosts.len(), 2);
    let endpoints: Vec<_> = fetched_hosts.iter().map(|item| item.0.scheme.clone()).collect();
    assert!(endpoints.iter().all(|scheme| *scheme == tp("tor") || *scheme == tp("socks5")));
}
