use nettools::mac::parse_mac_addr;
use nettools::oui::{DbParsingError, Oui, OuiDb, OuiMeta, ParseOuiError};

fn vendor_db_text() -> String {
    [
        "# test vendor database",
        "",
        "00:00:00\t00:00:00\tOfficially Xerox, but 0:0:0:0:0:0 is more common",
        "00:00:17\tOracle",
        "08:00:87\tXyplexTe\tXyplex\t# terminal servers",
        "2C:23:3A\tHewlettP\tHewlett Packard",
        "2C:27:9E\tIEEERegi\tIEEE Registration Authority",
        "2C:27:9E:10:00:00/28\tSubBlock\tA carved-out sub-block",
        "8C:1F:64\tIEEERegi\tIEEE Registration Authority",
        "8C:1F:64:CB:20:00/36\tDyncirSo\tDyncir Solu\u{e7}\u{f5}es Tecnol\u{f3}gicas Ltda",
        "8C:47:6E\tIEEERegi\tIEEE Registration Authority",
        "8C:47:6E:30:00:00/28\tShanghai\tShanghai Satellite Communication Technology Co.,Ltd",
        "B0:C5:59\tSamsungE\tSamsung Electronics Co.,Ltd",
        "B0:C5:CA\tIEEERegi\tIEEE Registration Authority",
    ]
    .join("\n")
}

fn vendor_db() -> OuiDb {
    OuiDb::parse_from_string(vendor_db_text().as_str()).unwrap()
}

#[test]
fn embedded_db_builds() {
    OuiDb::parse_from_string(vendor_db_text().as_str()).unwrap();
}

#[test]
fn match_no_long_name() {
    // 00:00:17	Oracle
    let mac = parse_mac_addr("00:00:17:aa:bb:cc").unwrap();
    assert_eq!(
        vendor_db().search(mac),
        Some(OuiMeta {
            short: "Oracle",
            long: None,
            comment: None,
        })
    );
}

#[test]
fn match_prefix_zeros() {
    let mac = parse_mac_addr("00:00:00:00:00:00").unwrap();
    assert_eq!(
        vendor_db().search(mac),
        Some(OuiMeta {
            short: "00:00:00",
            long: Some("Officially Xerox, but 0:0:0:0:0:0 is more common"),
            comment: None,
        })
    );
}

#[test]
fn match_prefix_exact() {
    // 2C:23:3A	HewlettP	Hewlett Packard
    let mac = parse_mac_addr("2c:23:3a:00:00:00").unwrap();
    assert_eq!(
        vendor_db().search(mac),
        Some(OuiMeta {
            short: "HewlettP",
            long: Some("Hewlett Packard"),
            comment: None,
        })
    );
}

#[test]
fn match_prefix_basic() {
    // 2C:23:3A	HewlettP	Hewlett Packard
    let mac = parse_mac_addr("2c:23:3a:aa:bb:cc").unwrap();
    assert_eq!(
        vendor_db().search(mac),
        Some(OuiMeta {
            short: "HewlettP",
            long: Some("Hewlett Packard"),
            comment: None,
        })
    );
}

#[test]
fn match_prefix_extended() {
    // 8C:47:6E:30:00:00/28	Shanghai	Shanghai Satellite Communication Technology Co.,Ltd
    let mac = parse_mac_addr("8c:47:6e:3a:bb:cc").unwrap();
    assert_eq!(
        vendor_db().search(mac),
        Some(OuiMeta {
            short: "Shanghai",
            long: Some("Shanghai Satellite Communication Technology Co.,Ltd"),
            comment: None,
        })
    );
}

#[test]
fn match_commented() {
    // 08:00:87	XyplexTe	Xyplex	# terminal servers
    let mac = parse_mac_addr("08:00:87:aa:bb:cc").unwrap();
    assert_eq!(
        vendor_db().search(mac),
        Some(OuiMeta {
            short: "XyplexTe",
            long: Some("Xyplex"),
            comment: Some("terminal servers"),
        })
    );
}

#[test]
fn match_unicode() {
    // 8C:1F:64:CB:20:00/36	DyncirSo	Dyncir Soluções Tecnológicas Ltda
    let mac = parse_mac_addr("8c:1f:64:cb:2b:cc").unwrap();
    assert_eq!(
        vendor_db().search(mac),
        Some(OuiMeta {
            short: "DyncirSo",
            long: Some("Dyncir Soluções Tecnológicas Ltda"),
            comment: None,
        })
    );
}

#[test]
fn resolve_mac_to_superprefix_when_missing_subprefix() {
    // 2C:27:9E	IEEERegi	IEEE Registration Authority
    // is split into /28, without a 2C:27:9E:F0:00:00/28 member
    let mac = parse_mac_addr("2c:27:9e:fa:bb:cc").unwrap();
    assert_eq!(
        vendor_db().search(mac),
        Some(OuiMeta {
            short: "IEEERegi",
            long: Some("IEEE Registration Authority"),
            comment: None,
        })
    );
}

#[test]
fn match_none() {
    // B0:C5:59	SamsungE	Samsung Electronics Co.,Ltd
    // B0:C5:CA	IEEERegi	IEEE Registration Authority
    let mac = parse_mac_addr("b0:c5:5a:aa:bb:cc").unwrap();
    assert_eq!(vendor_db().search(mac), None);
}

#[test]
fn search_entry_returns_prefix_and_meta() {
    let db = vendor_db();
    let mac = parse_mac_addr("8c:47:6e:3a:bb:cc").unwrap();
    let (oui, meta) = db.search_entry(mac).unwrap();
    assert_eq!(oui.address, 0x8c476e300000);
    assert_eq!(oui.length, 28);
    assert_eq!(meta.short, "Shanghai");
}

#[test]
fn search_prefix_below_table_start_is_none() {
    let db = OuiDb::parse_from_string("2C:23:3A\tHewlettP\tHewlett Packard").unwrap();
    let mac = parse_mac_addr("00:00:00:00:00:01").unwrap();
    assert_eq!(db.search(mac), None);
    assert_eq!(OuiDb::parse_from_string("").unwrap().search(mac), None);
}

#[test]
fn oui_from_str_forms() {
    let o = Oui::from_str("08:00:87").unwrap();
    assert_eq!(o.address, 0x080087000000);
    assert_eq!(o.length, 24);
    let o = Oui::from_str("8C:47:6E:30:00:00/28").unwrap();
    assert_eq!(o.address, 0x8c476e300000);
    assert_eq!(o.length, 28);
    assert!(matches!(
        Oui::from_str("08:00:87/23"),
        Err(ParseOuiError::PrefixLengthValue(23, _))
    ));
    assert!(matches!(
        Oui::from_str("08:00:87/x"),
        Err(ParseOuiError::PrefixLengthParsing(_))
    ));
    assert!(matches!(
        Oui::from_str("08:00:8z"),
        Err(ParseOuiError::MacParsing(_))
    ));
}

#[test]
fn oui_contains_ranges() {
    let parent = Oui::from_str("8C:47:6E").unwrap();
    let child = Oui::from_str("8C:47:6E:30:00:00/28").unwrap();
    assert!(parent.contains(&child));
    assert!(!child.contains(&parent));
    let key = Oui::from_addr(parse_mac_addr("8c:47:6e:3a:bb:cc").unwrap());
    assert!(child.contains(&key));
    assert!(parent.contains(&key));
}

#[test]
fn db_rejects_bad_field_count() {
    assert!(matches!(
        OuiDb::parse_from_string("00:00:17"),
        Err(DbParsingError::BadFieldCount(0, 1, _))
    ));
}

#[test]
fn db_rejects_bad_prefix() {
    assert!(matches!(
        OuiDb::parse_from_string("00:00:zz\tOracle"),
        Err(DbParsingError::OuiParsing(0, _, _))
    ));
}

#[test]
fn db_rejects_duplicates() {
    let text = "00:00:17\tOracle\n# comment\n00:00:17\tOracleAgain";
    assert!(matches!(
        OuiDb::parse_from_string(text),
        Err(DbParsingError::DuplicatedEntries)
    ));
}

#[test]
fn db_sorts_unordered_input() {
    let db = OuiDb::parse_from_string("B0:C5:59\tSamsungE\n00:00:17\tOracle").unwrap();
    let prefixes = db.raw_prefixes();
    assert_eq!(prefixes.len(), 2);
    assert_eq!(prefixes[0].0.address, 0x000017000000);
    assert_eq!(prefixes[1].0.address, 0xb0c559000000);
    assert_eq!(prefixes[0].1.manuf(), &"Oracle");
}
