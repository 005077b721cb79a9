use nettools::exports::mac::{prefix, MacFormatError};
use nettools::mac::{
    format_mac_dashed, is_local, is_multicast, is_unicast, is_universal, parse_mac_addr,
    parse_mac_addr_extend, MacStyle, ParseMacError,
};
use nettools::oui::OuiDb;

#[test]
fn style_formatting() {
    let mac = 0x0000AABBCCDDEEFFu64;
    assert_eq!("aabbccddeeff", MacStyle::Plain.format(mac, false).as_str());
    assert_eq!(
        "aa-bb-cc-dd-ee-ff",
        MacStyle::Dashed.format(mac, false).as_str()
    );
    assert_eq!(
        "a8bb:ccff:fedd:eeff",
        MacStyle::InterfaceId.format(mac, false).as_str()
    );
    assert_eq!(
        "fe80::a8bb:ccff:fedd:eeff",
        MacStyle::LinkLocal.format(mac, false).as_str()
    );
    assert_eq!(
        "FE80::A8BB:CCFF:FEDD:EEFF",
        MacStyle::LinkLocal.format(mac, true).as_str()
    );
}

#[test]
fn more_styles() {
    let mac = 0xAABBCCDDEEFFu64;
    assert_eq!("aa:bb:cc:dd:ee:ff", MacStyle::Colon.format(mac, false).as_str());
    assert_eq!("aabb.ccdd.eeff", MacStyle::Dots.format(mac, false).as_str());
    assert_eq!("0xaabbccddeeff", MacStyle::Prefixed.format(mac, false).as_str());
    assert_eq!("AA:BB:CC:DD:EE:FF", MacStyle::Colon.format(mac, true).as_str());
    assert_eq!("AABBCCDDEEFF", format_mac_dashed(mac).as_str());
}

#[test]
fn parse_tolerant_forms() {
    let expect = 0xAABBCCDDEEFFu64;
    assert_eq!(parse_mac_addr("aa-bb-cc-dd-ee-ff").unwrap(), expect);
    assert_eq!(parse_mac_addr("aa:bb:cc:dd:ee:ff").unwrap(), expect);
    assert_eq!(parse_mac_addr("aabb.ccdd.eeff").unwrap(), expect);
    assert_eq!(parse_mac_addr("aabbccddeeff").unwrap(), expect);
    assert_eq!(parse_mac_addr("0xaabbccddeeff").unwrap(), expect);
    assert_eq!(parse_mac_addr("AABBCCDDEEFF").unwrap(), expect);
}

#[test]
fn parse_rejects_bad_mac_text() {
    assert!(matches!(
        parse_mac_addr("aa-bb-cc-dd-ee-f"),
        Err(ParseMacError::InvalidLength(_))
    ));
    assert!(matches!(
        parse_mac_addr("aa-bb-cc-dd-ee-ff-00"),
        Err(ParseMacError::InvalidLength(_))
    ));
    match parse_mac_addr("aa-bb-cc-dd-ee-fg") {
        Err(ParseMacError::InvalidCharacter(text, c)) => {
            assert_eq!(text, "aa-bb-cc-dd-ee-fg");
            assert_eq!(c, 'g');
        }
        other => panic!("expected a character fault, got {:?}", other),
    }
}

#[test]
fn parse_format_roundtrip_concrete() {
    let v = 0x02005E10A2B3u64;
    for style in [
        MacStyle::Plain,
        MacStyle::Dashed,
        MacStyle::Colon,
        MacStyle::Dots,
        MacStyle::Prefixed,
    ] {
        let text = style.format(v, false);
        assert_eq!(parse_mac_addr(text.as_str()).unwrap(), v);
        let upper = style.format(v, true);
        assert_eq!(parse_mac_addr(upper.as_str()).unwrap(), v);
    }
}

#[test]
fn zero_extension_matches_explicit_zeroes() {
    let short = parse_mac_addr_extend("08:00:87", true).unwrap();
    let full = parse_mac_addr("08:00:87:00:00:00").unwrap();
    assert_eq!(short, full);
    assert!(matches!(
        parse_mac_addr_extend("08:00:87", false),
        Err(ParseMacError::InvalidLength(_))
    ));
}

#[test]
fn address_bits() {
    let unicast_universal = parse_mac_addr("fc:00:00:00:00:01").unwrap();
    assert!(is_unicast(unicast_universal));
    assert!(!is_multicast(unicast_universal));
    assert!(is_universal(unicast_universal));
    assert!(!is_local(unicast_universal));
    let multicast_local = parse_mac_addr("33:33:00:00:00:01").unwrap();
    assert!(!is_unicast(multicast_local));
    assert!(is_multicast(multicast_local));
    assert!(!is_universal(multicast_local));
    assert!(is_local(multicast_local));
}

#[test]
fn address_bits_from_text() {
    assert_eq!(
        nettools::exports::mac::is_unicast(Some("fc:00:00:00:00:01")).unwrap(),
        Some(true)
    );
    assert_eq!(
        nettools::exports::mac::is_multicast(Some("33:33:00:00:00:01")).unwrap(),
        Some(true)
    );
    assert_eq!(
        nettools::exports::mac::is_universal(Some("fc:00:00:00:00:01")).unwrap(),
        Some(true)
    );
    assert_eq!(
        nettools::exports::mac::is_local(Some("33:33:00:00:00:01")).unwrap(),
        Some(true)
    );
    assert_eq!(nettools::exports::mac::is_unicast(None).unwrap(), None);
    assert_eq!(nettools::exports::mac::is_unicast(Some("")).unwrap(), None);
    assert!(nettools::exports::mac::is_unicast(Some("not-a-mac!")).is_err());
}

#[test]
fn host_format_specifiers() {
    let mac = "aa-bb-cc-dd-ee-ff";
    assert_eq!(nettools::exports::mac::format(mac, None).unwrap().unwrap(), "aa:bb:cc:dd:ee:ff");
    assert_eq!(nettools::exports::mac::format(mac, Some("hex")).unwrap().unwrap(), "aa:bb:cc:dd:ee:ff");
    assert_eq!(nettools::exports::mac::format(mac, Some("HEX")).unwrap().unwrap(), "AA:BB:CC:DD:EE:FF");
    assert_eq!(
        nettools::exports::mac::format(mac, Some("hexstring")).unwrap().unwrap(),
        "aa:bb:cc:dd:ee:ff"
    );
    assert_eq!(
        nettools::exports::mac::format(mac, Some("hexadecimal")).unwrap().unwrap(),
        "0xaabbccddeeff"
    );
    assert_eq!(nettools::exports::mac::format(mac, Some("bare")).unwrap().unwrap(), "aabbccddeeff");
    assert_eq!(nettools::exports::mac::format(mac, Some("dot")).unwrap().unwrap(), "aabb.ccdd.eeff");
    assert_eq!(
        nettools::exports::mac::format(mac, Some("canonical")).unwrap().unwrap(),
        "aa-bb-cc-dd-ee-ff"
    );
    assert_eq!(
        nettools::exports::mac::format(mac, Some("interface-id")).unwrap().unwrap(),
        "a8bb:ccff:fedd:eeff"
    );
    assert_eq!(
        nettools::exports::mac::format(mac, Some("link-local")).unwrap().unwrap(),
        "fe80::a8bb:ccff:fedd:eeff"
    );
}

#[test]
fn host_format_flags() {
    let mac = "aa-bb-cc-dd-ee-ff";
    assert!(matches!(
        nettools::exports::mac::format(mac, Some("de$H")),
        Err(MacFormatError::MixedCaseFmtSpecifier)
    ));
    assert!(matches!(
        nettools::exports::mac::format(mac, Some("nope")),
        Err(MacFormatError::BadFmtSpecifier(_))
    ));
    // The stray uppercase letter in the ignored specifier still selects
    // uppercase output.
    assert_eq!(
        nettools::exports::mac::format(mac, Some("~de$H")).unwrap().unwrap(),
        "AA:BB:CC:DD:EE:FF"
    );
    assert_eq!(nettools::exports::mac::format("a!-bbkcc-dd2ee-ff", Some("?dash")).unwrap(), None);
    assert_eq!(nettools::exports::mac::format("a!-bbcc-dd2ee-ff", Some("?~")).unwrap(), None);
    assert!(matches!(
        nettools::exports::mac::format(mac, Some("dAsh")),
        Err(MacFormatError::MixedCaseFmtSpecifier)
    ));
    assert!(matches!(
        nettools::exports::mac::format("not-a-mac", Some("dash")),
        Err(MacFormatError::MacParsing(_))
    ));
}

#[test]
fn prefix_text_forms() {
    let db = OuiDb::parse_from_string(
        "2C:23:3A\tHewlettP\tHewlett Packard\n8C:47:6E:30:00:00/28\tShanghai\tShanghai Satellite",
    )
    .unwrap();
    assert_eq!(
        prefix(&db, "2c:23:3a:00:11:22").unwrap().unwrap(),
        "2c:23:3a"
    );
    assert_eq!(
        prefix(&db, "8c:47:6e:3a:bb:cc").unwrap().unwrap(),
        "8c:47:6e:30:00:00/28"
    );
    assert_eq!(prefix(&db, "b0:c5:5a:aa:bb:cc").unwrap(), None);
    assert_eq!(prefix(&db, "").unwrap(), None);
}

#[test]
fn vendor_lookup_fields() {
    let db = OuiDb::parse_from_string("08:00:87\tXyplexTe\tXyplex\t# terminal servers").unwrap();
    assert_eq!(
        nettools::exports::mac::manuf(&db, "08:00:87:aa:bb:cc")
            .unwrap()
            .unwrap(),
        "XyplexTe"
    );
    assert_eq!(
        nettools::exports::mac::manuf_long(&db, "08:00:87:aa:bb:cc")
            .unwrap()
            .unwrap(),
        "Xyplex"
    );
    assert_eq!(
        nettools::exports::mac::comment(&db, "08:00:87:aa:bb:cc")
            .unwrap()
            .unwrap(),
        "terminal servers"
    );
}
