//! Configuration parsing, resolver ordering, and address normalization.

use slipstream::addr::normalize_dual_stack_addr;
use slipstream::addr::parse_ipv4_literal;
use slipstream::addr::SockAddr;
use slipstream::client::build_resolvers;
use slipstream::client::IndexedHostPort;
use slipstream::config::normalize_domain;
use slipstream::config::parse_host_port;
use slipstream::config::parse_resolver_addresses;
use slipstream::config::AddressFamily;
use slipstream::config::AddressKind;
use slipstream::config::HostPort;
use slipstream::config::ResolverMode;
use slipstream::config::ResolverSpec;
use slipstream::resolver::resolve_resolvers;
use slipstream::resolver::resolver_states_from_addrs;

fn v4_host(host: &str, port: u16) -> HostPort {
    HostPort { host: host.to_string(), port, family: AddressFamily::V4 }
}

#[test]
fn rejects_duplicate_resolver_addr() {
    let resolvers = vec![
        ResolverSpec {
            resolver: HostPort {
                host: "127.0.0.1".to_string(),
                port: 8853,
                family: AddressFamily::V4,
            },
            mode: ResolverMode::Recursive,
        },
        ResolverSpec {
            resolver: HostPort {
                host: "127.0.0.1".to_string(),
                port: 8853,
                family: AddressFamily::V4,
            },
            mode: ResolverMode::Authoritative,
        },
    ];

    match resolve_resolvers(&resolvers, 900, false) {
        Ok(_) => panic!("expected duplicate resolver error"),
        Err(err) => {
            assert!(err.message().contains("Duplicate resolver address"));
            assert_eq!(err.message(), "Duplicate resolver address 127.0.0.1:8853");
        }
    }
}

#[test]
fn preserves_ordered_resolvers() {
    // as on a command line: --resolver 1.1.1.1 --authoritative 2.2.2.2
    // --resolver 3.3.3.3:5353, with each value's argument position
    let recursive = [
        IndexedHostPort { index: 2, host_port: v4_host("1.1.1.1", 53) },
        IndexedHostPort { index: 6, host_port: v4_host("3.3.3.3", 5353) },
    ];
    let authoritative = [IndexedHostPort { index: 4, host_port: v4_host("2.2.2.2", 53) }];
    let resolvers = build_resolvers(&recursive, &authoritative).expect("resolvers should parse");
    assert_eq!(resolvers.len(), 3);
    assert_eq!(resolvers[0].resolver.host, "1.1.1.1");
    assert_eq!(resolvers[0].resolver.port, 53);
    assert_eq!(resolvers[0].mode, ResolverMode::Recursive);
    assert_eq!(resolvers[1].resolver.host, "2.2.2.2");
    assert_eq!(resolvers[1].mode, ResolverMode::Authoritative);
    assert_eq!(resolvers[2].resolver.host, "3.3.3.3");
    assert_eq!(resolvers[2].resolver.port, 5353);
}

#[test]
fn maps_authoritative_first() {
    // --authoritative 8.8.8.8 --resolver 9.9.9.9
    let recursive = [IndexedHostPort { index: 4, host_port: v4_host("9.9.9.9", 53) }];
    let authoritative = [IndexedHostPort { index: 2, host_port: v4_host("8.8.8.8", 53) }];
    let resolvers = build_resolvers(&recursive, &authoritative).expect("resolvers should parse");
    assert_eq!(resolvers.len(), 2);
    assert_eq!(resolvers[0].resolver.host, "8.8.8.8");
    assert_eq!(resolvers[0].mode, ResolverMode::Authoritative);
    assert_eq!(resolvers[1].resolver.host, "9.9.9.9");
    assert_eq!(resolvers[1].mode, ResolverMode::Recursive);
}

#[test]
fn no_resolver_at_all_is_an_error() {
    let err = build_resolvers(&[], &[]).unwrap_err();
    assert!(err.message().contains("At least one resolver"));
}

#[test]
fn first_resolver_is_the_initial_path() {
    let resolvers = vec![
        ResolverSpec { resolver: v4_host("1.1.1.1", 53), mode: ResolverMode::Recursive },
        ResolverSpec { resolver: v4_host("2.2.2.2", 53), mode: ResolverMode::Authoritative },
    ];
    let states = resolve_resolvers(&resolvers, 900, false).expect("should resolve");
    assert_eq!(states.len(), 2);
    assert!(states[0].added);
    assert_eq!(states[0].path_id, Some(0));
    assert_eq!(states[0].mode, ResolverMode::Recursive);
    assert!(!states[1].added);
    assert_eq!(states[1].path_id, None);
    assert_eq!(states[1].mode, ResolverMode::Authoritative);
    assert_ne!(states[0].addr, states[1].addr);
}

#[test]
fn ipv6_resolvers_are_carried_and_deduplicated() {
    let specs = vec![
        ResolverSpec {
            resolver: HostPort {
                host: "2001:db8::1".to_string(),
                port: 53,
                family: AddressFamily::V6,
            },
            mode: ResolverMode::Recursive,
        },
        ResolverSpec { resolver: v4_host("1.2.3.4", 53), mode: ResolverMode::Authoritative },
    ];
    let addrs = vec![
        SockAddr::V6 { addr: 0x20010db8_0000_0000_0000_0000_0000_0001, port: 53 },
        SockAddr::V4 { addr: 0x01020304, port: 53 },
    ];
    let states = resolver_states_from_addrs(&specs, &addrs, 900, false).expect("both carried");
    assert_eq!(states.len(), 2);
    assert_eq!(states[0].addr, addrs[0]);
    assert_eq!(states[0].mode, ResolverMode::Recursive);
    assert!(states[0].added);
    assert_eq!(states[1].mode, ResolverMode::Authoritative);
    assert!(!states[1].added);

    // an IPv4 address and its v4-mapped IPv6 form are the same resolver
    let dup_specs = vec![
        ResolverSpec { resolver: v4_host("1.2.3.4", 53), mode: ResolverMode::Recursive },
        ResolverSpec {
            resolver: HostPort {
                host: "::ffff:1.2.3.4".to_string(),
                port: 53,
                family: AddressFamily::V6,
            },
            mode: ResolverMode::Authoritative,
        },
    ];
    let dup_addrs = vec![
        SockAddr::V4 { addr: 0x01020304, port: 53 },
        SockAddr::V6 { addr: 0x0000ffff_01020304, port: 53 },
    ];
    match resolver_states_from_addrs(&dup_specs, &dup_addrs, 900, false) {
        Ok(_) => panic!("expected duplicate resolver error"),
        Err(err) => {
            assert!(err.message().contains("Duplicate resolver address"));
            assert!(err.message().contains("::ffff:1.2.3.4:53"));
        }
    }
}

#[test]
fn normalizes_v4_to_mapped_v6_idempotently() {
    let v4 = SockAddr::V4 { addr: 0x7f000001, port: 8853 };
    let n1 = normalize_dual_stack_addr(v4);
    assert_eq!(n1, SockAddr::V6 { addr: 0x0000ffff7f000001, port: 8853 });
    // idempotent on the result
    assert_eq!(normalize_dual_stack_addr(n1), n1);
    // v6 addresses pass through
    let v6 = SockAddr::V6 { addr: 1, port: 53 };
    assert_eq!(normalize_dual_stack_addr(v6), v6);
}

#[test]
fn parses_dotted_quads_strictly() {
    assert_eq!(parse_ipv4_literal(b"127.0.0.1"), Some(0x7f000001));
    assert_eq!(parse_ipv4_literal(b"255.255.255.255"), Some(0xffffffff));
    assert_eq!(parse_ipv4_literal(b"1.2.3"), None);
    assert_eq!(parse_ipv4_literal(b"256.0.0.1"), None);
    assert_eq!(parse_ipv4_literal(b"01.2.3.4"), None);
    assert_eq!(parse_ipv4_literal(b"a.b.c.d"), None);
}

#[test]
fn normalizes_domains() {
    assert_eq!(normalize_domain(" example.com. ").unwrap(), "example.com");
    assert_eq!(normalize_domain("example.com").unwrap(), "example.com");
    assert_eq!(normalize_domain("example.com...").unwrap(), "example.com");
    assert!(normalize_domain("").is_err());
    assert!(normalize_domain("   ").is_err());
    assert!(normalize_domain("...").is_err());
}

#[test]
fn parses_host_port_shapes() {
    let hp = parse_host_port("1.1.1.1", 53, AddressKind::Resolver).unwrap();
    assert_eq!(hp.host, "1.1.1.1");
    assert_eq!(hp.port, 53);
    assert_eq!(hp.family, AddressFamily::V4);

    let hp = parse_host_port("3.3.3.3:5353", 53, AddressKind::Resolver).unwrap();
    assert_eq!(hp.host, "3.3.3.3");
    assert_eq!(hp.port, 5353);

    let hp = parse_host_port("[::1]", 53, AddressKind::Resolver).unwrap();
    assert_eq!(hp.host, "::1");
    assert_eq!(hp.port, 53);
    assert_eq!(hp.family, AddressFamily::V6);

    let hp = parse_host_port("[2001:db8::1]:8853", 53, AddressKind::Resolver).unwrap();
    assert_eq!(hp.host, "2001:db8::1");
    assert_eq!(hp.port, 8853);

    assert!(parse_host_port("host:", 53, AddressKind::Resolver).is_err());
    assert!(parse_host_port("host:0", 53, AddressKind::Resolver).is_err());
    assert!(parse_host_port("host:65536", 53, AddressKind::Resolver).is_err());
    assert!(parse_host_port("host:12x", 53, AddressKind::Resolver).is_err());
    assert!(parse_host_port("", 53, AddressKind::Resolver).is_err());
    assert!(parse_host_port("[::1", 53, AddressKind::Resolver).is_err());
    let err = parse_host_port(":53", 53, AddressKind::Target).unwrap_err();
    assert!(err.message().contains("target"));
}

#[test]
fn parses_resolver_address_lists() {
    let addrs = vec!["1.1.1.1".to_string(), "9.9.9.9:9953".to_string()];
    let parsed = parse_resolver_addresses(&addrs).unwrap();
    assert_eq!(parsed.len(), 2);
    assert_eq!(parsed[0].port, 53);
    assert_eq!(parsed[1].port, 9953);

    let bad = vec!["1.1.1.1".to_string(), "x:notaport".to_string()];
    assert!(parse_resolver_addresses(&bad).is_err());
}
