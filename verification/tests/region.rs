use aivpn_server::region::{
    continent_for, continent_members, rollup_members, sanitize_country_code_for_log,
};

#[test]
fn continent_lookup_covers_common_countries() {
    assert_eq!(continent_for(b"US"), *b"NA");
    assert_eq!(continent_for(b"DE"), *b"EU");
    assert_eq!(continent_for(b"JP"), *b"AS");
    assert_eq!(continent_for(b"ZA"), *b"AF");
    assert_eq!(continent_for(b"AU"), *b"OC");
    assert_eq!(continent_for(b"BR"), *b"SA");
    assert_eq!(continent_for(b"ZZ"), *b"ZZ");
}

#[test]
fn continent_members_includes_all_table_entries_and_self() {
    let na = continent_members(b"NA", b"US");
    assert!(na.contains(b"US"));
    assert!(na.contains(b"CA"));
    assert!(na.contains(b"MX"));
    let unknown = continent_members(b"ZZ", b"ZZ");
    assert_eq!(unknown, vec![*b"ZZ"]);
}

#[test]
fn sanitize_country_code_for_log_accepts_ascii_alphanumeric() {
    assert_eq!(sanitize_country_code_for_log(b"US"), "US");
    assert_eq!(sanitize_country_code_for_log(b"DE"), "DE");
}

#[test]
fn sanitize_country_code_for_log_hex_escapes_non_alphanumeric() {
    let malicious = [0x1bu8, b'X'];
    assert_eq!(sanitize_country_code_for_log(&malicious), "0x1b58");
}

#[test]
fn members_are_listed_once_and_share_a_continent() {
    let eu = continent_members(&continent_for(b"DE"), b"DE");
    for (i, code) in eu.iter().enumerate() {
        assert_eq!(continent_for(code), *b"EU");
        assert!(!eu[..i].contains(code));
    }
    assert!(eu.contains(b"FR"));
    assert!(!eu.contains(b"US"));
    assert_eq!(rollup_members(b"DE"), eu);
    assert_eq!(continent_members(b"OC", b"DE"), vec![*b"AU", *b"NZ", *b"DE"]);
}

#[test]
fn unlisted_code_rolls_up_alone() {
    for code in [b"ZZ", b"NA", b"EU", b"AS", b"AF", b"OC"] {
        assert_eq!(rollup_members(code), vec![*code]);
    }
    assert!(rollup_members(b"SA").contains(b"JP"), "Saudi Arabia is in Asia");
    assert!(!rollup_members(b"US").contains(b"NA"));
}
