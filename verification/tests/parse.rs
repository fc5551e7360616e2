use zicsv::addresses::Addresses;
use zicsv::datetime::{Date, DateTime};
use zicsv::reader::{load_records, parse_bytes, Reader};
use zicsv::types::{Address, Ipv4, ParseError};

fn doc(rows: &[&str]) -> Vec<u8> {
    let mut out = String::from("Updated: 2023-05-01 12:00:00 +0300\n");
    for r in rows {
        out.push_str(r);
        out.push('\n');
    }
    out.into_bytes()
}

fn addrs_of(list: &zicsv::types::List, rec: usize) -> Vec<Address> {
    let set: &Addresses = &list.records[rec].addresses;
    let mut out = Vec::new();
    let mut i = 0;
    while i < set.len() {
        out.push(set.get(i).clone());
        i += 1;
    }
    out
}

#[test]
fn header_utc_normalization() {
    let list = parse_bytes(&doc(&[])).unwrap();
    assert_eq!(
        list.updated,
        DateTime { date: Date { year: 2023, month: 5, day: 1 }, hour: 9, minute: 0, second: 0 }
    );
    assert_eq!(list.records.len(), 0);
}

#[test]
fn header_negative_offset() {
    let data = b"Updated: 2023-01-01 00:30:00 -0300\n".to_vec();
    let list = parse_bytes(&data).unwrap();
    assert_eq!(
        list.updated,
        DateTime { date: Date { year: 2023, month: 1, day: 1 }, hour: 3, minute: 30, second: 0 }
    );
}

#[test]
fn header_offset_crosses_midnight() {
    let data = b"Updated: 2023-01-01 00:30:00 +0300\n".to_vec();
    let list = parse_bytes(&data).unwrap();
    assert_eq!(
        list.updated,
        DateTime { date: Date { year: 2022, month: 12, day: 31 }, hour: 21, minute: 30, second: 0 }
    );
}

#[test]
fn header_without_colon_fails() {
    let data = b"no separator here\n".to_vec();
    assert_eq!(parse_bytes(&data).unwrap_err(), ParseError::HeaderFormat);
}

#[test]
fn header_bad_timestamp_fails() {
    let data = b"Updated: 2023-05-01\n".to_vec();
    assert_eq!(parse_bytes(&data).unwrap_err(), ParseError::TimestampFormat);
}

#[test]
fn empty_input_fails_as_header() {
    assert_eq!(parse_bytes(&[]).unwrap_err(), ParseError::HeaderFormat);
}

#[test]
fn cidr_vs_host_classification() {
    let list = parse_bytes(&doc(&["203.0.113.0/24|203.0.113.5;;;Org;1;2023-01-02"])).unwrap();
    let addrs = addrs_of(&list, 0);
    assert_eq!(addrs.len(), 2);
    assert_eq!(addrs[0], Address::IPv4(Ipv4 { a: 203, b: 0, c: 113, d: 5 }));
    assert_eq!(
        addrs[1],
        Address::IPv4Network(Ipv4 { a: 203, b: 0, c: 113, d: 0 }, 24)
    );
}

#[test]
fn wildcard_vs_plain_domain() {
    let list = parse_bytes(&doc(&[";*.example.com|example.com;;Org;1;2023-01-02"])).unwrap();
    let addrs = addrs_of(&list, 0);
    assert_eq!(addrs.len(), 2);
    assert_eq!(addrs[0], Address::DomainName("example.com".to_string()));
    assert_eq!(
        addrs[1],
        Address::WildcardDomainName("*.example.com".to_string())
    );
}

#[test]
fn url_field_splits_on_space_pipe_space() {
    // one URL holds a literal `|`: two tokens, not three
    let list =
        parse_bytes(&doc(&[";;http://example.com/a|b | http://example.org/;Org;1;2023-01-02"]))
            .unwrap();
    let addrs = addrs_of(&list, 0);
    assert_eq!(addrs.len(), 2);
    for a in &addrs {
        assert!(matches!(a, Address::URL(_)));
    }
    assert!(addrs.iter().any(|a| match a {
        Address::URL(u) => u == "http://example.org/",
        _ => false,
    }));
    assert!(addrs.iter().any(|a| match a {
        Address::URL(u) => u.contains("a|b") || u.contains("a%7Cb"),
        _ => false,
    }));
}

#[test]
fn invalid_dotted_quad_fails_record() {
    let err = parse_bytes(&doc(&["999.1.1.1;;;Org;1;2023-01-02"])).unwrap_err();
    assert_eq!(err, ParseError::AddressFormat);
}

#[test]
fn invalid_url_fails_record() {
    let err = parse_bytes(&doc(&[";;not a url;Org;1;2023-01-02"])).unwrap_err();
    assert_eq!(err, ParseError::AddressFormat);
}

#[test]
fn bad_order_date_fails_record() {
    let err = parse_bytes(&doc(&["1.2.3.4;;;Org;1;2023-13-02"])).unwrap_err();
    assert_eq!(err, ParseError::DateFormat);
}

#[test]
fn field_count_error_carries_line_number() {
    // five fields on the first data row: line 2, header is line 1
    let err = parse_bytes(&doc(&["1.2.3.4;;;Org;1"])).unwrap_err();
    assert_eq!(err, ParseError::FieldCount { line: 2, count: 5 });
    // seven fields on the second data row: line 3
    let err = parse_bytes(&doc(&[
        "1.2.3.4;;;Org;1;2023-01-02",
        "1.2.3.4;;;Org;1;2023-01-02;extra",
    ]))
    .unwrap_err();
    assert_eq!(err, ParseError::FieldCount { line: 3, count: 7 });
}

#[test]
fn quoted_field_keeps_delimiter() {
    let list = parse_bytes(&doc(&["1.2.3.4;;;\"Org; with semi\";1;2023-01-02"])).unwrap();
    assert_eq!(list.records[0].organization, "Org; with semi");
}

#[test]
fn doubled_quote_is_literal() {
    let list = parse_bytes(&doc(&["1.2.3.4;;;\"Org \"\"quoted\"\"\";1;2023-01-02"])).unwrap();
    assert_eq!(list.records[0].organization, "Org \"quoted\"");
}

#[test]
fn unclosed_quote_is_tokenization_error() {
    let err = parse_bytes(&doc(&["1.2.3.4;;;\"no closing quote;1;2023-01-02"])).unwrap_err();
    assert_eq!(err, ParseError::Tokenization { line: 2 });
}

#[test]
fn junk_after_closing_quote_is_tokenization_error() {
    let err = parse_bytes(&doc(&["1.2.3.4;;;\"Org\"junk;1;2023-01-02"])).unwrap_err();
    assert_eq!(err, ParseError::Tokenization { line: 2 });
}

#[test]
fn duplicate_addresses_collapse() {
    let list = parse_bytes(&doc(&["1.2.3.4|1.2.3.4| 1.2.3.4 ;;;Org;1;2023-01-02"])).unwrap();
    let addrs = addrs_of(&list, 0);
    assert_eq!(addrs.len(), 1);
    assert_eq!(addrs[0], Address::IPv4(Ipv4 { a: 1, b: 2, c: 3, d: 4 }));
}

#[test]
fn addresses_iterate_in_sorted_order() {
    let list = parse_bytes(&doc(&[
        "9.9.9.9|1.2.3.0/24;zeta.org|*.alpha.org;http://example.com/;Org;1;2023-01-02",
    ]))
    .unwrap();
    let addrs = addrs_of(&list, 0);
    assert_eq!(addrs.len(), 5);
    assert!(matches!(addrs[0], Address::IPv4(_)));
    assert!(matches!(addrs[1], Address::IPv4Network(_, _)));
    assert!(matches!(addrs[2], Address::DomainName(_)));
    assert!(matches!(addrs[3], Address::WildcardDomainName(_)));
    assert!(matches!(addrs[4], Address::URL(_)));
}

#[test]
fn parsing_twice_is_deterministic() {
    let data = doc(&[
        "1.2.3.4|5.6.7.0/8;example.com|*.example.com;http://example.com/;Org;1;2023-01-02",
        ";;;Other Org;2;2024-12-31",
    ]);
    let one = parse_bytes(&data).unwrap();
    let two = parse_bytes(&data).unwrap();
    assert_eq!(one, two);
}

#[test]
fn record_plain_fields_are_trimmed() {
    let list = parse_bytes(&doc(&["1.2.3.4;;;  Org Name  ;  order-77  ; 2023-01-02 "])).unwrap();
    let rec = &list.records[0];
    assert_eq!(rec.organization, "Org Name");
    assert_eq!(rec.order_id, "order-77");
    assert_eq!(rec.order_date, Date { year: 2023, month: 1, day: 2 });
}

#[test]
fn rows_keep_input_order() {
    let list = parse_bytes(&doc(&[
        ";;;First;1;2023-01-02",
        ";;;Second;2;2023-01-03",
        ";;;Third;3;2023-01-04",
    ]))
    .unwrap();
    assert_eq!(list.records.len(), 3);
    assert_eq!(list.records[0].organization, "First");
    assert_eq!(list.records[1].organization, "Second");
    assert_eq!(list.records[2].organization, "Third");
}

#[test]
fn cp1251_bytes_decode() {
    // 0xCE 0xF0 0xE3 is the windows-1251 encoding of a Cyrillic word
    let mut data = b"Updated: 2023-05-01 12:00:00 +0300\n1.2.3.4;;;".to_vec();
    data.extend_from_slice(&[0xCE, 0xF0, 0xE3]);
    data.extend_from_slice(b";1;2023-01-02\n");
    let list = parse_bytes(&data).unwrap();
    assert_eq!(list.records[0].organization, "\u{41E}\u{440}\u{433}");
}

#[test]
fn streaming_yields_prefix_then_error_then_stops() {
    let data = doc(&[
        ";;;Good;1;2023-01-02",
        "bad row",
        ";;;Never seen;3;2023-01-04",
    ]);
    let reader = Reader::from_bytes(&data).unwrap();
    let mut records = reader.records();
    let first = records.next_record().unwrap().unwrap();
    assert_eq!(first.organization, "Good");
    let second = records.next_record().unwrap();
    assert_eq!(second.unwrap_err(), ParseError::FieldCount { line: 3, count: 1 });
    assert!(records.next_record().is_none());
    assert!(records.next_record().is_none());
}

#[test]
fn eager_load_matches_streaming() {
    let data = doc(&[";;;Org;1;2023-01-02"]);
    let reader = Reader::from_bytes(&data).unwrap();
    assert_eq!(
        *reader.get_timestamp(),
        DateTime { date: Date { year: 2023, month: 5, day: 1 }, hour: 9, minute: 0, second: 0 }
    );
    let list = load_records(reader).unwrap();
    assert_eq!(list.records.len(), 1);
    assert_eq!(list.records[0].organization, "Org");
}

#[test]
fn crlf_line_endings_accepted() {
    let data = b"Updated: 2023-05-01 12:00:00 +0300\r\n1.2.3.4;;;Org;1;2023-01-02\r\n".to_vec();
    let list = parse_bytes(&data).unwrap();
    assert_eq!(list.records.len(), 1);
    assert_eq!(list.records[0].organization, "Org");
}

#[test]
fn empty_address_fields_give_empty_set() {
    let list = parse_bytes(&doc(&[";;;Org;1;2023-01-02"])).unwrap();
    assert_eq!(list.records[0].addresses.len(), 0);
}

#[test]
fn leap_day_accepted_and_rejected() {
    assert!(parse_bytes(&doc(&[";;;Org;1;2024-02-29"])).is_ok());
    assert_eq!(
        parse_bytes(&doc(&[";;;Org;1;2023-02-29"])).unwrap_err(),
        ParseError::DateFormat
    );
}

#[test]
fn prefix_length_over_32_rejected() {
    assert_eq!(
        parse_bytes(&doc(&["1.2.3.0/33;;;Org;1;2023-01-02"])).unwrap_err(),
        ParseError::AddressFormat
    );
    assert!(parse_bytes(&doc(&["1.2.3.0/32;;;Org;1;2023-01-02"])).is_ok());
}

#[test]
fn domains_sort_lexicographically() {
    let list = parse_bytes(&doc(&[";b.org|a.org|c.org;;Org;1;2023-01-02"])).unwrap();
    let addrs = addrs_of(&list, 0);
    assert_eq!(
        addrs,
        vec![
            Address::DomainName("a.org".to_string()),
            Address::DomainName("b.org".to_string()),
            Address::DomainName("c.org".to_string()),
        ]
    );
}

#[test]
fn url_is_stored_canonicalized() {
    // the URL parser canonicalizes scheme and host case
    let list = parse_bytes(&doc(&[";;HTTP://EXAMPLE.com/Path;Org;1;2023-01-02"])).unwrap();
    let addrs = addrs_of(&list, 0);
    assert_eq!(addrs, vec![Address::URL("http://example.com/Path".to_string())]);
}

#[test]
fn leading_zero_octet_rejected() {
    assert_eq!(
        parse_bytes(&doc(&["01.2.3.4;;;Org;1;2023-01-02"])).unwrap_err(),
        ParseError::AddressFormat
    );
}

#[test]
fn blank_data_row_is_a_field_count_error() {
    let err = parse_bytes(&doc(&["", ";;;Org;1;2023-01-02"])).unwrap_err();
    assert_eq!(err, ParseError::FieldCount { line: 2, count: 1 });
}

#[test]
fn cyrillic_domain_classifies() {
    // windows-1251 bytes of a Cyrillic domain label in the domain field
    let mut data = b"Updated: 2023-05-01 12:00:00 +0300\n;".to_vec();
    data.extend_from_slice(&[0xE4, 0xEE, 0xEC]);
    data.extend_from_slice(b".org;;Org;1;2023-01-02\n");
    let list = parse_bytes(&data).unwrap();
    let addrs = addrs_of(&list, 0);
    assert_eq!(
        addrs,
        vec![Address::DomainName("\u{434}\u{43E}\u{43C}.org".to_string())]
    );
}
