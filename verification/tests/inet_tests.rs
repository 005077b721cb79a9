use nettools::inet::{
    blobify, contains, in_subnet, normalize_mask, InetError, IpAddress, IpNetwork, MaskArg,
    UserNetAddr,
};

#[test]
fn parse_v4_address() {
    match UserNetAddr::from_str("10.2.3.1").unwrap() {
        UserNetAddr::Address(IpAddress::V4(v)) => assert_eq!(v, 0x0a020301),
        other => panic!("expected a v4 address, got {:?}", other),
    }
}

#[test]
fn parse_v4_network() {
    match UserNetAddr::from_str("128.231.60.0/22").unwrap() {
        UserNetAddr::Network(IpNetwork {
            addr: IpAddress::V4(v),
            prefix,
        }) => {
            assert_eq!(v, 0x80e73c00);
            assert_eq!(prefix, 22);
        }
        other => panic!("expected a v4 network, got {:?}", other),
    }
}

#[test]
fn parse_v6_forms() {
    match UserNetAddr::from_str("fe80::82fe:a2").unwrap() {
        UserNetAddr::Address(IpAddress::V6(v)) => {
            assert_eq!(v, 0xfe80_0000_0000_0000_0000_0000_82fe_00a2);
        }
        other => panic!("expected a v6 address, got {:?}", other),
    }
    match UserNetAddr::from_str("::1").unwrap() {
        UserNetAddr::Address(IpAddress::V6(v)) => assert_eq!(v, 1),
        other => panic!("expected a v6 address, got {:?}", other),
    }
    match UserNetAddr::from_str("fe80::/10").unwrap() {
        UserNetAddr::Network(IpNetwork {
            addr: IpAddress::V6(v),
            prefix,
        }) => {
            assert_eq!(v, 0xfe80_0000_0000_0000_0000_0000_0000_0000);
            assert_eq!(prefix, 10);
        }
        other => panic!("expected a v6 network, got {:?}", other),
    }
}

#[test]
fn parse_v4_in_v6_forms() {
    match UserNetAddr::from_str("::ffff:1.2.3.4").unwrap() {
        UserNetAddr::Address(IpAddress::V6(v)) => {
            assert_eq!(v, 0x0000_0000_0000_0000_0000_ffff_0102_0304);
        }
        other => panic!("expected a v4-mapped v6 address, got {:?}", other),
    }
    match UserNetAddr::from_str("::1.2.3.4").unwrap() {
        UserNetAddr::Address(IpAddress::V6(v)) => assert_eq!(v, 0x01020304),
        other => panic!("expected a v4-compatible v6 address, got {:?}", other),
    }
    match UserNetAddr::from_str("64:ff9b::192.0.2.33").unwrap() {
        UserNetAddr::Address(IpAddress::V6(v)) => {
            assert_eq!(v, 0x0064_ff9b_0000_0000_0000_0000_c000_0221);
        }
        other => panic!("expected a v6 address, got {:?}", other),
    }
    match UserNetAddr::from_str("1:2:3:4:5:6:1.2.3.4").unwrap() {
        UserNetAddr::Address(IpAddress::V6(v)) => {
            assert_eq!(v, 0x0001_0002_0003_0004_0005_0006_0102_0304);
        }
        other => panic!("expected a v6 address, got {:?}", other),
    }
    // Too many groups, or a short quad, stay rejected.
    assert!(UserNetAddr::from_str("1:2:3:4:5:6:7:1.2.3.4").is_err());
    assert!(UserNetAddr::from_str("::1.2.3").is_err());
    // The canonical output form is pure hexadecimal.
    assert_eq!(
        nettools::inet::format(Some("::ffff:1.2.3.4"), None, None)
            .unwrap()
            .unwrap(),
        "::ffff:102:304"
    );
}

#[test]
fn parse_rejects_bad_inet_text() {
    assert!(matches!(
        UserNetAddr::from_str("10.2.3"),
        Err(InetError::BadAddress(_))
    ));
    assert!(matches!(
        UserNetAddr::from_str("10.2.3.256"),
        Err(InetError::BadAddress(_))
    ));
    assert!(matches!(
        UserNetAddr::from_str("10.2.3.1/33"),
        Err(InetError::BadAddress(_))
    ));
    assert!(matches!(
        UserNetAddr::from_str("1:2:3:4:5:6:7"),
        Err(InetError::BadAddress(_))
    ));
    assert!(matches!(
        UserNetAddr::from_str("1::2::3"),
        Err(InetError::BadAddress(_))
    ));
}

#[test]
fn normalize_with_dotted_mask() {
    let net = normalize_mask(Some("10.2.3.1"), Some("255.255.255.0"))
        .unwrap()
        .unwrap();
    assert_eq!(
        net,
        IpNetwork {
            addr: IpAddress::V4(0x0a020301),
            prefix: 24
        }
    );
}

#[test]
fn normalize_cidr_short_circuits_mask() {
    let net = normalize_mask(Some("10.2.3.1/16"), Some("255.255.255.0"))
        .unwrap()
        .unwrap();
    assert_eq!(net.prefix, 16);
    assert_eq!(normalize_mask(None, None).unwrap(), None);
    assert!(matches!(
        normalize_mask(Some("10.2.3.1"), None),
        Err(InetError::BadAddress(_))
    ));
}

#[test]
fn non_contiguous_mask_is_rejected() {
    assert!(normalize_mask(Some("10.2.3.1"), Some("255.0.255.0")).is_err());
    assert!(matches!(
        normalize_mask(Some("10.2.3.1"), Some("255.0.255.0")),
        Err(InetError::PrefixLength)
    ));
}

#[test]
fn format_examples() {
    assert_eq!(nettools::inet::format(Some("192.168.3.2"), None, None).unwrap().unwrap(), "192.168.3.2");
    assert_eq!(
        nettools::inet::format(Some("192.168.3.2/16"), None, None).unwrap().unwrap(),
        "192.168.3.2/16"
    );
    assert_eq!(
        nettools::inet::format(Some("10.2.3.1"), Some("255.255.255.0"), None)
            .unwrap()
            .unwrap(),
        "10.2.3.1/24"
    );
    assert_eq!(
        nettools::inet::format(Some("10.2.3.1"), Some("255.255.255.0"), Some(true))
            .unwrap()
            .unwrap(),
        "10.2.3.0/24"
    );
    assert_eq!(
        nettools::inet::format(Some("fe80:0:0:0:2:03:0:aabb/10"), None, None)
            .unwrap()
            .unwrap(),
        "fe80::2:3:0:aabb/10"
    );
    assert_eq!(
        nettools::inet::format(Some("fe80:0:0:0:2:03:0:aabb/10"), None, Some(true))
            .unwrap()
            .unwrap(),
        "fe80::/10"
    );
    assert_eq!(nettools::inet::format(None, None, None).unwrap(), None);
}

#[test]
fn containment_examples() {
    assert_eq!(
        contains(Some("128.231.61.3"), Some("128.231.60.0/22"), None)
            .unwrap()
            .unwrap(),
        true
    );
    assert_eq!(
        contains(
            Some("128.231.59.7"),
            Some("128.231.60.0"),
            Some("255.255.252.0")
        )
        .unwrap()
        .unwrap(),
        false
    );
    assert_eq!(
        contains(Some("fe80::82fe:a2"), Some("fe80::/10"), None)
            .unwrap()
            .unwrap(),
        true
    );
    // A network candidate is covered only as a whole range.
    assert_eq!(
        contains(Some("128.231.60.0/24"), Some("128.231.60.0/22"), None)
            .unwrap()
            .unwrap(),
        true
    );
    assert_eq!(
        contains(Some("128.231.60.0/20"), Some("128.231.60.0/22"), None)
            .unwrap()
            .unwrap(),
        false
    );
    // Family mismatch is no match, not an error.
    assert_eq!(
        contains(Some("fe80::1"), Some("10.0.0.0/8"), None)
            .unwrap()
            .unwrap(),
        false
    );
}

#[test]
fn in_subnet_examples() {
    assert_eq!(
        in_subnet("128.231.61.3", "128.231.60.0/22", None).unwrap(),
        true
    );
    assert_eq!(
        in_subnet("128.231.59.7", "128.231.60.0", Some("255.255.252.0")).unwrap(),
        false
    );
}

#[test]
fn truncation_is_idempotent() {
    let net = IpNetwork {
        addr: IpAddress::V4(0x0a020301),
        prefix: 24,
    };
    let once = net.trunc();
    assert_eq!(once.addr, IpAddress::V4(0x0a020300));
    assert_eq!(once.trunc(), once);
    let v6 = IpNetwork {
        addr: IpAddress::V6(0xfe80_0000_0000_0000_0002_0003_0000_aabb),
        prefix: 10,
    };
    let once6 = v6.trunc();
    assert_eq!(once6.trunc(), once6);
}

#[test]
fn format_truncated_is_fixpoint() {
    // Formatting an already-truncated network under the truncate flag is a
    // no-op at the text level too.
    let s = nettools::inet::format(Some("10.2.3.1"), Some("255.255.252.0"), Some(true))
        .unwrap()
        .unwrap();
    assert_eq!(
        nettools::inet::format(Some(s.as_str()), None, Some(true))
            .unwrap()
            .unwrap(),
        s
    );
    let s6 = nettools::inet::format(Some("fe80:0:0:0:2:03:0:aabb/10"), None, Some(true))
        .unwrap()
        .unwrap();
    assert_eq!(
        nettools::inet::format(Some(s6.as_str()), None, Some(true))
            .unwrap()
            .unwrap(),
        s6
    );
}

#[test]
fn blob_round_trip() {
    assert_eq!(
        blobify(Some("127.0.0.1")).unwrap().unwrap(),
        vec![127u8, 0, 0, 1]
    );
    assert_eq!(
        blobify(Some("10.2.3.0/24")).unwrap().unwrap(),
        vec![10u8, 2, 3, 0, 24]
    );
    assert_eq!(blobify(None).unwrap(), None);
    let v4 = UserNetAddr::from_blob(&vec![127u8, 0, 0, 1]).unwrap();
    assert_eq!(v4, UserNetAddr::Address(IpAddress::V4(0x7f000001)));
    let v4net = UserNetAddr::from_blob(&vec![10u8, 2, 3, 0, 24]).unwrap();
    assert_eq!(
        v4net,
        UserNetAddr::Network(IpNetwork {
            addr: IpAddress::V4(0x0a020300),
            prefix: 24
        })
    );
    let v6 = UserNetAddr::from_blob(&vec![
        0xfeu8, 0x80, 0, 0, 0, 0, 0, 0, 0, 0, 0, 0, 0, 0, 0, 1,
    ])
    .unwrap();
    assert_eq!(
        v6,
        UserNetAddr::Address(IpAddress::V6(0xfe80_0000_0000_0000_0000_0000_0000_0001))
    );
    assert!(matches!(
        UserNetAddr::from_blob(&vec![1u8, 2, 3]),
        Err(InetError::UnrecognizedBlobLength(_))
    ));
    assert!(matches!(
        UserNetAddr::from_blob(&vec![10u8, 2, 3, 0, 33]),
        Err(InetError::PrefixLength)
    ));
}

#[test]
fn apply_mask_forms() {
    let addr = UserNetAddr::Address(IpAddress::V4(0x0a020301));
    assert_eq!(addr.apply_mask(&MaskArg::Absent).unwrap(), addr);
    assert_eq!(
        addr.apply_mask(&MaskArg::Int(24)).unwrap(),
        UserNetAddr::Network(IpNetwork {
            addr: IpAddress::V4(0x0a020301),
            prefix: 24
        })
    );
    assert_eq!(
        addr.apply_mask(&MaskArg::Text("0024".to_string())).unwrap(),
        UserNetAddr::Network(IpNetwork {
            addr: IpAddress::V4(0x0a020301),
            prefix: 24
        })
    );
    assert_eq!(
        addr.apply_mask(&MaskArg::Text("24".to_string())).unwrap(),
        UserNetAddr::Network(IpNetwork {
            addr: IpAddress::V4(0x0a020301),
            prefix: 24
        })
    );
    assert_eq!(
        addr.apply_mask(&MaskArg::Text("255.255.252.0".to_string()))
            .unwrap(),
        UserNetAddr::Network(IpNetwork {
            addr: IpAddress::V4(0x0a020301),
            prefix: 22
        })
    );
    assert!(matches!(
        addr.apply_mask(&MaskArg::Int(33)),
        Err(InetError::PrefixLength)
    ));
    assert!(matches!(
        addr.apply_mask(&MaskArg::Text("fe80::".to_string())),
        Err(InetError::InvalidNetworkMask(_))
    ));
    let net = UserNetAddr::Network(IpNetwork {
        addr: IpAddress::V4(0x0a020301),
        prefix: 24,
    });
    assert!(matches!(
        net.apply_mask(&MaskArg::Int(16)),
        Err(InetError::MultipleNetworkMasks(_))
    ));
    assert_eq!(net.apply_mask(&MaskArg::Absent).unwrap(), net);
}

#[test]
fn v6_canonical_text() {
    assert_eq!(nettools::inet::format(Some("::"), None, None).unwrap().unwrap(), "::");
    assert_eq!(nettools::inet::format(Some("::1"), None, None).unwrap().unwrap(), "::1");
    assert_eq!(nettools::inet::format(Some("1::"), None, None).unwrap().unwrap(), "1::");
    assert_eq!(
        nettools::inet::format(Some("1:0:0:2:0:0:0:3"), None, None).unwrap().unwrap(),
        "1:0:0:2::3"
    );
    assert_eq!(
        nettools::inet::format(Some("1:2:3:4:5:6:7:8"), None, None).unwrap().unwrap(),
        "1:2:3:4:5:6:7:8"
    );
    assert_eq!(
        nettools::inet::format(Some("0:A:0:0:B:0:0:0"), None, None).unwrap().unwrap(),
        "0:a:0:0:b::"
    );
}
