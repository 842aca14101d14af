use helios_build::illumos::{
    parse_net_adm, zone_from_fields, zones_from_rows, OutputError, Terms, UserAttr, ZonesExt,
};
use helios_build::text::parse_u64;
use helios_build::Bindings;

fn strings(v: &[&str]) -> Vec<String> {
    v.iter().map(|s| s.to_string()).collect()
}

#[test]
fn net_adm_splits_on_colons() {
    let rows = parse_net_adm(b"a:b:c\nd\\:e:f".to_vec()).unwrap();
    assert_eq!(rows, vec![strings(&["a", "b", "c"]), strings(&["d:e", "f"])]);
}

#[test]
fn net_adm_keeps_empty_terms() {
    let rows = parse_net_adm(b"::x:".to_vec()).unwrap();
    assert_eq!(rows, vec![strings(&["", "", "x", ""])]);
}

#[test]
fn net_adm_escape_of_backslash_and_trailing_escape() {
    let rows = parse_net_adm(b"a\\\\b".to_vec()).unwrap();
    assert_eq!(rows, vec![strings(&["a\\b"])]);
    let rows = parse_net_adm(b"ab\\".to_vec()).unwrap();
    assert_eq!(rows, vec![strings(&["ab"])]);
}

#[test]
fn net_adm_rejects_invalid_utf8() {
    assert_eq!(parse_net_adm(vec![0xff, 0xfe]).unwrap_err(), OutputError::InvalidUtf8);
}

#[test]
fn terms_accumulate_and_commit() {
    let mut t = Terms::new();
    t.append('h');
    t.append('i');
    t.commit();
    t.commit();
    t.append('x');
    assert_eq!(t.result(), strings(&["hi", ""]));
}

#[test]
fn zone_rows_parse() {
    let z = zone_from_fields(&strings(&[
        "7", "buildzone", "running", "/zones/buildzone", "", "lipkg", "excl",
    ]))
    .unwrap();
    assert_eq!(z.id, Some(7));
    assert_eq!(z.name, "buildzone");
    assert_eq!(z.state, "running");
    assert_eq!(z.path, "/zones/buildzone");
    assert_eq!(z.uuid, None);
    assert_eq!(z.brand, "lipkg");
    assert_eq!(z.ip_type, "excl");

    let z = zone_from_fields(&strings(&[
        "-", "other", "configured", "/zones/other", "abcd-123", "lipkg", "excl",
    ]))
    .unwrap();
    assert_eq!(z.id, None);
    assert_eq!(z.uuid, Some("abcd-123".to_string()));
}

#[test]
fn zone_row_errors() {
    assert_eq!(
        zone_from_fields(&strings(&["1", "z", "running"])).unwrap_err(),
        OutputError::ShortZoneLine
    );
    assert_eq!(
        zone_from_fields(&strings(&["x1", "z", "running", "/p", "", "b", "e"])).unwrap_err(),
        OutputError::BadZoneId
    );
}

#[test]
fn zone_listing_queries() {
    let rows = vec![
        strings(&["0", "global", "running", "/", "", "ipkg", "shared"]),
        strings(&["-", "helios", "installed", "/zones/helios", "", "lipkg", "excl"]),
    ];
    let zones = zones_from_rows(&rows).unwrap();
    assert!(zones.zone_exists("helios"));
    assert!(!zones.zone_exists("missing"));
    let z = zones.by_name("helios").unwrap();
    assert_eq!(z.state, "installed");
    assert_eq!(zones.by_name("missing").unwrap_err(), OutputError::NoSuchZone);
}

#[test]
fn user_profiles_split_and_trim() {
    let mut attr = Bindings::new();
    attr.insert("profiles", "Primary Administrator , Basic Solaris User,Extra");
    let ua = UserAttr { name: "build".to_string(), attr };
    assert_eq!(
        ua.profiles(),
        strings(&["Primary Administrator", "Basic Solaris User", "Extra"])
    );

    let ua = UserAttr { name: "build".to_string(), attr: Bindings::new() };
    assert!(ua.profiles().is_empty());
}

#[test]
fn bindings_last_insertion_wins() {
    let mut b = Bindings::new();
    b.insert("k", "v1");
    b.insert("k", "v2");
    assert_eq!(b.get("k"), Some("v2".to_string()));
    assert_eq!(b.get("missing"), None);
    assert!(b.contains_key("k"));
    assert!(!b.contains_key("missing"));
}

#[test]
fn parse_u64_bounds() {
    assert_eq!(parse_u64("0"), Some(0));
    assert_eq!(parse_u64("18446744073709551615"), Some(u64::MAX));
    assert_eq!(parse_u64("18446744073709551616"), None);
    assert_eq!(parse_u64(""), None);
    assert_eq!(parse_u64("12a"), None);
    assert_eq!(parse_u64("+1"), None);
}

#[test]
fn by_name_returns_first_of_duplicates() {
    let rows = vec![
        strings(&["1", "dup", "running", "/zones/first", "", "lipkg", "excl"]),
        strings(&["2", "dup", "installed", "/zones/second", "", "lipkg", "excl"]),
    ];
    let zones = zones_from_rows(&rows).unwrap();
    let z = zones.by_name("dup").unwrap();
    assert_eq!(z.path, "/zones/first");
    assert_eq!(z.state, "running");
}
