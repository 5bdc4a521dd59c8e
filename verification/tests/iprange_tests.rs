use mole::iprange::{format_ipv4, Ipv4Network, NetError};

#[test]
fn test_create_network_by_cidr() {
    assert_eq!(
        Ipv4Network::from_str("192.168.8.5/24").unwrap(),
        Ipv4Network {
            network: 3232237568,
            netmask: 4294967040,
        }
    );
    assert_eq!(
        Ipv4Network::from_str("192.168.8.5/16").unwrap(),
        Ipv4Network {
            network: 3232235520,
            netmask: 4294901760,
        }
    );
    assert_eq!(
        Ipv4Network::from_str("192.168.15.5/21").unwrap(),
        Ipv4Network {
            network: 3232237568,
            netmask: 4294965248,
        }
    );
}

#[test]
fn test_create_network_by_netmask() {
    assert_eq!(
        Ipv4Network::from_str("192.168.8.5/255.255.255.0").unwrap(),
        Ipv4Network {
            network: 3232237568,
            netmask: 4294967040,
        }
    );
    assert_eq!(
        Ipv4Network::from_str("192.168.8.5/255.255.0.0").unwrap(),
        Ipv4Network {
            network: 3232235520,
            netmask: 4294901760,
        }
    );
    assert_eq!(
        Ipv4Network::from_str("192.168.15.5/255.255.248.0").unwrap(),
        Ipv4Network {
            network: 3232237568,
            netmask: 4294965248,
        }
    );
}

#[test]
fn test_create_network_by_cidr_invalid() {
    assert_eq!(
        Ipv4Network::from_str("192.168.8.a/24").err(),
        Some(NetError::UnsupportedFormat("192.168.8.a/24".to_string()))
    );
    assert_eq!(
        Ipv4Network::from_str("192.168.8.5/2b").err(),
        Some(NetError::UnsupportedFormat("192.168.8.5/2b".to_string()))
    );
    assert_eq!(
        Ipv4Network::from_str("300.500.8.5/24").err(),
        Some(NetError::InvalidAddress("300.500.8.5".to_string()))
    );
    assert_eq!(
        Ipv4Network::from_str("192.168.8.5/99").err(),
        Some(NetError::InvalidPrefix("99".to_string()))
    );
}

#[test]
fn test_create_network_by_netmask_invalid() {
    assert_eq!(
        Ipv4Network::from_str("192.168.8.a/255.255.255.0").err(),
        Some(NetError::UnsupportedFormat(
            "192.168.8.a/255.255.255.0".to_string()
        ))
    );
    assert_eq!(
        Ipv4Network::from_str("192.168.8.5/255.255.25b.0").err(),
        Some(NetError::UnsupportedFormat(
            "192.168.8.5/255.255.25b.0".to_string()
        ))
    );
    assert_eq!(
        Ipv4Network::from_str("300.500.8.5/255.255.255.0").err(),
        Some(NetError::InvalidAddress("300.500.8.5".to_string()))
    );
    assert_eq!(
        Ipv4Network::from_str("192.168.8.5/300.400.500.600").err(),
        Some(NetError::InvalidNetmask("300.400.500.600".to_string()))
    );
}

#[test]
fn test_network_iter() {
    let network = Ipv4Network::from_str("192.168.1.0/29").unwrap();
    let result = [
        "192.168.1.0",
        "192.168.1.1",
        "192.168.1.2",
        "192.168.1.3",
        "192.168.1.4",
        "192.168.1.5",
        "192.168.1.6",
        "192.168.1.7",
    ];
    let mut it = network.iter();
    for t in result.iter() {
        let ip = it.next().unwrap();
        assert_eq!(format_ipv4(ip).as_str(), *t);
    }
    assert_eq!(it.next(), None);
}

#[test]
fn cidr_iteration_count_and_order() {
    // a /29 holds exactly 2^(32-29) = 8 addresses, strictly ascending,
    // first the masked base, last base | 7
    let network = Ipv4Network::from_str("192.168.1.3/29").unwrap();
    let mut it = network.iter();
    assert_eq!(it.remaining(), 8);
    let mut prev: Option<u32> = None;
    let mut count = 0u64;
    let mut first: Option<u32> = None;
    let mut last: Option<u32> = None;
    while let Some(a) = it.next() {
        if first.is_none() {
            first = Some(a);
        }
        if let Some(p) = prev {
            assert!(a > p);
        }
        prev = Some(a);
        last = Some(a);
        count += 1;
    }
    assert_eq!(count, 8);
    assert_eq!(first, Some(3232235776)); // 192.168.1.0
    assert_eq!(last, Some(3232235783)); // 192.168.1.7
}

#[test]
fn host_range_is_single_address() {
    let network = Ipv4Network::from_str("10.1.2.3").unwrap();
    assert_eq!(
        network,
        Ipv4Network {
            network: 0x0A010203,
            netmask: 0xFFFFFFFF,
        }
    );
    let mut it = network.iter();
    assert_eq!(it.remaining(), 1);
    assert_eq!(it.next(), Some(0x0A010203));
    assert_eq!(it.next(), None);
}

#[test]
fn whole_space_prefix_zero() {
    let network = Ipv4Network::from_str("0.0.0.0/0").unwrap();
    assert_eq!(network.netmask, 0);
    assert_eq!(network.network, 0);
    let mut it = network.iter();
    assert_eq!(it.remaining(), 1u64 << 32);
    assert_eq!(it.next(), Some(0));
}

#[test]
fn top_address_iterates_once() {
    let network = Ipv4Network::from_str("255.255.255.255").unwrap();
    let mut it = network.iter();
    assert_eq!(it.next(), Some(u32::MAX));
    assert_eq!(it.next(), None);
    assert_eq!(it.remaining(), 0);
}

#[test]
fn reparsing_gives_equal_ranges_and_sequences() {
    // construction is idempotent: same expression, same range, same walk
    let a = Ipv4Network::from_str("172.16.5.9/255.255.252.0").unwrap();
    let b = Ipv4Network::from_str("172.16.5.9/255.255.252.0").unwrap();
    assert_eq!(a, b);
    let mut ia = a.iter();
    let mut ib = b.iter();
    loop {
        let xa = ia.next();
        let xb = ib.next();
        assert_eq!(xa, xb);
        if xa.is_none() {
            break;
        }
    }
}

#[test]
fn unsupported_shapes() {
    for bad in [
        "",
        "1.2.3",
        "1.2.3.4.5",
        "1.2.3.4/",
        "1.2.3.4/24/8",
        "1.2.3.4/-1",
        "hello",
        "1..3.4",
    ] {
        assert_eq!(
            Ipv4Network::from_str(bad).err(),
            Some(NetError::UnsupportedFormat(bad.to_string())),
            "for input {:?}",
            bad
        );
    }
}

#[test]
fn prefix_boundaries() {
    assert!(Ipv4Network::from_str("1.2.3.4/32").is_ok());
    assert!(Ipv4Network::from_str("1.2.3.4/0").is_ok());
    assert_eq!(
        Ipv4Network::from_str("1.2.3.4/33").err(),
        Some(NetError::InvalidPrefix("33".to_string()))
    );
    assert_eq!(
        Ipv4Network::from_str("1.2.3.4/300").err(),
        Some(NetError::InvalidPrefix("300".to_string()))
    );
    assert_eq!(
        Ipv4Network::from_str("1.2.3.4/99999999999999999999").err(),
        Some(NetError::InvalidPrefix("99999999999999999999".to_string()))
    );
}

#[test]
fn netmask_and_cidr_same_range_agree() {
    // the two spellings of the same mask normalize identically
    let by_mask = Ipv4Network::from_str("10.20.30.40/255.255.255.128").unwrap();
    let by_cidr = Ipv4Network::from_str("10.20.30.40/25").unwrap();
    assert_eq!(by_mask, by_cidr);
}

#[test]
fn new_aligns_base_to_mask() {
    let n = Ipv4Network::new(3232237573, 4294967040);
    assert_eq!(n.network, 3232237568);
    assert_eq!(n.netmask, 4294967040);
}

#[test]
fn dotted_formatting() {
    assert_eq!(format_ipv4(0).as_str(), "0.0.0.0");
    assert_eq!(format_ipv4(u32::MAX).as_str(), "255.255.255.255");
    assert_eq!(format_ipv4(3232237568).as_str(), "192.168.8.0");
    assert_eq!(format_ipv4(0x0A000001).as_str(), "10.0.0.1");
}
