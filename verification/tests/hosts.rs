use butaman::hosts::{field, host_from_row, hosts_from_csv, hosts_from_rows, is_space_char, trim};
use butaman::hosts::HostEntry;

fn row(fields: &[&str]) -> Vec<String> {
    fields.iter().map(|f| f.to_string()).collect()
}

fn triple(host: &HostEntry) -> (String, String, Option<String>) {
    (host.name.clone(), host.ip.clone(), host.ssh.clone())
}

fn expect(name: &str, ip: &str, ssh: Option<&str>) -> (String, String, Option<String>) {
    (name.to_string(), ip.to_string(), ssh.map(|s| s.to_string()))
}

#[test]
fn white_space_is_what_unicode_calls_white_space() {
    for c in [' ', '\t', '\n', '\u{0B}', '\u{0C}', '\r', '\u{85}', '\u{A0}', '\u{1680}', '\u{2000}',
        '\u{2005}', '\u{200A}', '\u{2028}', '\u{2029}', '\u{202F}', '\u{205F}', '\u{3000}']
    {
        assert!(is_space_char(c));
        assert!(c.is_whitespace());
    }
    for c in ['a', '0', '_', '\u{08}', '\u{0E}', '\u{1F}', '\u{200B}', '\u{180E}', '\u{2060}',
        '\u{FEFF}', '\u{1FFF}', '\u{200C}']
    {
        assert!(!is_space_char(c));
        assert!(!c.is_whitespace());
    }
}

#[test]
fn white_space_agrees_with_the_standard_library_on_every_character() {
    for code in 0u32..=0x10FFFF {
        if let Some(c) = char::from_u32(code) {
            assert_eq!(is_space_char(c), c.is_whitespace());
        }
    }
}

#[test]
fn trim_takes_white_space_from_both_ends_only() {
    assert_eq!(trim("  a b  "), "a b");
    assert_eq!(trim("a"), "a");
    assert_eq!(trim(""), "");
    assert_eq!(trim("   "), "");
    assert_eq!(trim("\t\r\n x \u{3000}"), "x");
    assert_eq!(trim("\u{A0}é  è\u{2003}"), "é  è");
    assert_eq!(trim("x  "), "x");
    assert_eq!(trim("  x"), "x");
}

#[test]
fn trim_agrees_with_the_standard_library() {
    for s in ["", " ", "a", " a", "a ", " a ", "  a  b  ", "\u{85}z\u{85}", "\nq\n\n", "ｘ　"] {
        assert_eq!(trim(s), s.trim());
    }
}

#[test]
fn a_field_that_is_not_there_is_empty() {
    let r = row(&[" alpha ", "10.0.0.1"]);
    assert_eq!(field(&r, 0), "alpha");
    assert_eq!(field(&r, 1), "10.0.0.1");
    assert_eq!(field(&r, 2), "");
    assert_eq!(field(&Vec::new(), 0), "");
}

#[test]
fn a_row_gives_name_address_and_relay() {
    let host = host_from_row(&row(&["B", "10.0.0.2", "relay@10.0.0.9"])).unwrap();
    assert_eq!(triple(&host), expect("B", "10.0.0.2", Some("relay@10.0.0.9")));
}

#[test]
fn an_empty_relay_means_a_direct_probe() {
    let host = host_from_row(&row(&["A", "10.0.0.1", ""])).unwrap();
    assert_eq!(triple(&host), expect("A", "10.0.0.1", None));
    let host = host_from_row(&row(&["A", "10.0.0.1", "   "])).unwrap();
    assert_eq!(triple(&host), expect("A", "10.0.0.1", None));
    let host = host_from_row(&row(&["A", "10.0.0.1"])).unwrap();
    assert_eq!(triple(&host), expect("A", "10.0.0.1", None));
}

#[test]
fn a_row_without_an_address_gives_no_host() {
    assert!(host_from_row(&row(&["A", "", "relay"])).is_none());
    assert!(host_from_row(&row(&["A", "  \t", "relay"])).is_none());
    assert!(host_from_row(&row(&["A"])).is_none());
    assert!(host_from_row(&row(&[])).is_none());
}

#[test]
fn fields_are_trimmed() {
    let host = host_from_row(&row(&["  A  ", " 10.0.0.1 ", " relay "])).unwrap();
    assert_eq!(triple(&host), expect("A", "10.0.0.1", Some("relay")));
}

#[test]
fn a_name_may_be_empty_and_more_fields_are_ignored() {
    let host = host_from_row(&row(&["", "10.0.0.1", "", "extra"])).unwrap();
    assert_eq!(triple(&host), expect("", "10.0.0.1", None));
}

#[test]
fn rows_that_could_not_be_read_are_passed_over() {
    let rows = vec![
        Some(row(&["A", "10.0.0.1", ""])),
        None,
        Some(row(&["skipped", "", ""])),
        Some(row(&["B", "10.0.0.2", "relay@10.0.0.9"])),
    ];
    let hosts = hosts_from_rows(&rows);
    let got: Vec<_> = hosts.iter().map(triple).collect();
    assert_eq!(
        got,
        vec![expect("A", "10.0.0.1", None), expect("B", "10.0.0.2", Some("relay@10.0.0.9"))]
    );
    assert!(hosts_from_rows(&Vec::new()).is_empty());
}

#[test]
fn the_list_is_read_after_its_header() {
    let text = "name,ip,ssh\nA,10.0.0.1,\nB,10.0.0.2,relay@10.0.0.9\n";
    let got: Vec<_> = hosts_from_csv(text.as_bytes()).iter().map(triple).collect();
    assert_eq!(
        got,
        vec![expect("A", "10.0.0.1", None), expect("B", "10.0.0.2", Some("relay@10.0.0.9"))]
    );
}

#[test]
fn the_header_is_never_a_host() {
    let got = hosts_from_csv(b"gateway,192.168.0.1,\n");
    assert!(got.is_empty());
    assert!(hosts_from_csv(b"").is_empty());
    assert!(hosts_from_csv(b"name,ip,ssh\n").is_empty());
}

#[test]
fn rows_of_the_list_are_trimmed_and_filtered() {
    let text = "name,ip,ssh\n  A  , 10.0.0.1 ,  \nno address,,relay\n\"B, the second\",10.0.0.2, relay@10.0.0.9 \n";
    let got: Vec<_> = hosts_from_csv(text.as_bytes()).iter().map(triple).collect();
    assert_eq!(
        got,
        vec![
            expect("A", "10.0.0.1", None),
            expect("B, the second", "10.0.0.2", Some("relay@10.0.0.9")),
        ]
    );
}

#[test]
fn a_row_with_another_number_of_fields_is_passed_over() {
    let text = "name,ip,ssh\nA,10.0.0.1,\nshort,10.0.0.7\nlong,10.0.0.8,,more\nB,10.0.0.2,r\n";
    let got: Vec<_> = hosts_from_csv(text.as_bytes()).iter().map(triple).collect();
    assert_eq!(got, vec![expect("A", "10.0.0.1", None), expect("B", "10.0.0.2", Some("r"))]);
}

#[test]
fn a_row_that_is_not_utf8_is_passed_over() {
    let mut bytes = b"name,ip,ssh\nA,10.0.0.1,\n".to_vec();
    bytes.extend_from_slice(b"bad\xff,10.0.0.9,\n");
    bytes.extend_from_slice(b"B,10.0.0.2,\n");
    let got: Vec<_> = hosts_from_csv(&bytes).iter().map(triple).collect();
    assert_eq!(got, vec![expect("A", "10.0.0.1", None), expect("B", "10.0.0.2", None)]);
}

#[test]
fn a_list_of_two_columns_has_no_relays() {
    let text = "name,ip\nA,10.0.0.1\nB,10.0.0.2\n";
    let got: Vec<_> = hosts_from_csv(text.as_bytes()).iter().map(triple).collect();
    assert_eq!(got, vec![expect("A", "10.0.0.1", None), expect("B", "10.0.0.2", None)]);
}

#[test]
fn a_clone_of_a_host_holds_the_same() {
    let host = HostEntry {
        name: "B".to_string(),
        ip: "10.0.0.2".to_string(),
        ssh: Some("relay@10.0.0.9".to_string()),
    };
    assert_eq!(triple(&host.clone()), triple(&host));
    let host = HostEntry { name: "A".to_string(), ip: "10.0.0.1".to_string(), ssh: None };
    assert_eq!(triple(&host.clone()), expect("A", "10.0.0.1", None));
}
