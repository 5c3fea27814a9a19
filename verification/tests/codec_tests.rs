use easydc::dns::{
    build_dns_record_binary, ipv6_to_string, parse_dns_record_binary, parse_dns_rpc_name,
    parse_ipv4, parse_ipv6, parse_txt_bytes, record_value_accepted,
};
use easydc::encoding::{encode_password, from_hex, hex_input_ok, sv, to_hex};

fn record(rtype: u16, ttl: u32, payload: &[u8]) -> Vec<u8> {
    let mut rec = Vec::new();
    rec.extend_from_slice(&(payload.len() as u16).to_le_bytes());
    rec.extend_from_slice(&rtype.to_le_bytes());
    rec.push(5);
    rec.push(0xF0);
    rec.extend_from_slice(&[0, 0, 0, 0, 0, 0]);
    rec.extend_from_slice(&ttl.to_be_bytes());
    rec.extend_from_slice(&[0; 8]);
    rec.extend_from_slice(payload);
    rec
}

#[test]
fn sv_gives_utf8_bytes() {
    assert_eq!(sv("dc=é"), "dc=é".as_bytes().to_vec());
    assert_eq!(sv(""), Vec::<u8>::new());
}

#[test]
fn password_is_quoted_utf16le() {
    assert_eq!(encode_password("ab"), vec![0x22, 0, b'a', 0, b'b', 0, 0x22, 0]);
    // a character outside the BMP becomes a surrogate pair
    assert_eq!(
        encode_password("\u{1F600}"),
        vec![0x22, 0, 0x3D, 0xD8, 0x00, 0xDE, 0x22, 0]
    );
}

#[test]
fn hex_roundtrip_and_errors() {
    assert_eq!(to_hex(&[0x00, 0xab, 0x7f]), "00ab7f");
    assert_eq!(from_hex("00ab7f"), Some(vec![0x00, 0xab, 0x7f]));
    assert_eq!(from_hex(&to_hex(&[1, 2, 250])), Some(vec![1, 2, 250]));
    assert_eq!(from_hex("abc"), None);
    assert_eq!(from_hex("zz"), None);
    assert_eq!(from_hex("AB"), Some(vec![0xab]));
    assert_eq!(from_hex(""), Some(vec![]));
    assert!(hex_input_ok("00ab"));
    assert!(hex_input_ok("zé"));
    assert!(!hex_input_ok("zéz"));
}

#[test]
fn rpc_name_edge_cases() {
    assert_eq!(parse_dns_rpc_name(&[]), ".");
    assert_eq!(parse_dns_rpc_name(&[1, 0, 0]), ".");
    // a label running past the end stops the name
    assert_eq!(parse_dns_rpc_name(&[9, 2, 3, b'a', b'b', b'c', 9, b'x']), "abc");
    // invalid UTF-8 is shown with the replacement character
    assert_eq!(parse_dns_rpc_name(&[3, 1, 1, 0xff, 0]), "\u{FFFD}");
}

#[test]
fn txt_pieces_joined_with_spaces() {
    assert_eq!(parse_txt_bytes(&[2, b'h', b'i', 3, b'y', b'o', b'u']), "hi you");
    assert_eq!(parse_txt_bytes(&[5, b'a']), "");
    assert_eq!(parse_txt_bytes(&[]), "");
}

#[test]
fn address_texts() {
    assert_eq!(parse_ipv4("10.0.0.1"), Some(vec![10, 0, 0, 1]));
    assert_eq!(parse_ipv4("10.0.0"), None);
    assert_eq!(parse_ipv4("256.0.0.1"), None);
    assert_eq!(parse_ipv4("01.0.0.1"), None);
    let v6 = parse_ipv6("2001:db8::1").unwrap();
    assert_eq!(v6, vec![0x20, 0x01, 0x0d, 0xb8, 0, 0, 0, 0, 0, 0, 0, 0, 0, 0, 0, 1]);
    assert_eq!(ipv6_to_string(&v6), "2001:db8::1");
    assert_eq!(parse_ipv6("::ffff:1.2.3.4").map(|o| ipv6_to_string(&o)), Some("::ffff:1.2.3.4".to_string()));
    assert_eq!(parse_ipv6("1:2:3:4:5:6:7:8:9"), None);
    let zero = [0u8; 16];
    assert_eq!(ipv6_to_string(&zero), "::");
}

#[test]
fn record_decoding_by_type() {
    assert_eq!(
        parse_dns_record_binary(&record(1, 600, &[192, 168, 1, 10])),
        Some(("A".to_string(), "192.168.1.10".to_string(), 600))
    );
    let mut mx = vec![10, 0];
    mx.extend_from_slice(&[10, 2, 4, b'm', b'a', b'i', b'l', 3, b'l', b'a', b'n', 0]);
    assert_eq!(
        parse_dns_record_binary(&record(15, 60, &mx)),
        Some(("MX".to_string(), "10 mail.lan".to_string(), 60))
    );
    let srv = [1, 0, 2, 0, 0x58, 0x01, 4, 1, 2, b'd', b'c', 0];
    assert_eq!(
        parse_dns_record_binary(&record(33, 1, &srv)),
        Some(("SRV".to_string(), "1 2 344 dc".to_string(), 1))
    );
    assert_eq!(
        parse_dns_record_binary(&record(6, 1, &[])),
        Some(("SOA".to_string(), "(zone authority)".to_string(), 1))
    );
    assert_eq!(
        parse_dns_record_binary(&record(99, 1, &[0xde, 0xad])),
        Some(("TYPE99".to_string(), "dead".to_string(), 1))
    );
    // tombstones and short values are skipped
    assert_eq!(parse_dns_record_binary(&record(0, 1, &[1, 2, 3, 4])), None);
    assert_eq!(parse_dns_record_binary(&[0u8; 23]), None);
}

#[test]
fn record_building_and_errors() {
    let a = build_dns_record_binary("A", "10.1.2.3", 300).unwrap();
    assert_eq!(&a[0..4], &[4, 0, 1, 0]);
    assert_eq!(&a[24..], &[10, 1, 2, 3]);
    assert_eq!(parse_dns_record_binary(&a), Some(("A".to_string(), "10.1.2.3".to_string(), 300)));
    let aaaa = build_dns_record_binary("AAAA", "fe80::1", 5).unwrap();
    assert_eq!(parse_dns_record_binary(&aaaa), Some(("AAAA".to_string(), "fe80::1".to_string(), 5)));
    let txt = build_dns_record_binary("TXT", "v=spf1 -all", 5).unwrap();
    assert_eq!(parse_dns_record_binary(&txt), Some(("TXT".to_string(), "v=spf1 -all".to_string(), 5)));
    let mx = build_dns_record_binary("MX", "10 mail.lan", 5).unwrap();
    assert_eq!(parse_dns_record_binary(&mx), Some(("MX".to_string(), "10 mail.lan".to_string(), 5)));
    let cname = build_dns_record_binary("CNAME", "www.lan.", 5).unwrap();
    assert_eq!(parse_dns_record_binary(&cname), Some(("CNAME".to_string(), "www.lan".to_string(), 5)));
    assert_eq!(build_dns_record_binary("A", "10.1.2", 1), Err("Invalid IPv4: 10.1.2".to_string()));
    assert_eq!(build_dns_record_binary("AAAA", "fe80:::1", 1), Err("Invalid IPv6: fe80:::1".to_string()));
    assert_eq!(build_dns_record_binary("MX", "mail.lan", 1), Err("MX format: <priority> <hostname>".to_string()));
    assert_eq!(build_dns_record_binary("MX", "10", 1), Err("MX format: <priority> <hostname>".to_string()));
    assert_eq!(build_dns_record_binary("SRV", "x", 1), Err("Unsupported type: SRV".to_string()));
    assert!(record_value_accepted("PTR", "host.lan"));
}

#[test]
fn addresses_display_and_parse_inverse() {
    for text in ["10.0.0.1", "255.255.255.255", "0.0.0.0", "192.168.100.7"] {
        let o = parse_ipv4(text).unwrap();
        let rec = build_dns_record_binary("A", text, 1).unwrap();
        assert_eq!(parse_dns_record_binary(&rec).unwrap().1, text);
        assert_eq!(o.len(), 4);
    }
    let samples: [[u8; 16]; 5] = [
        [0; 16],
        [0x20, 0x01, 0x0d, 0xb8, 0, 0, 0, 0, 0, 0, 0, 0, 0, 0, 0, 1],
        [0, 0, 0, 0, 0, 0, 0, 0, 0, 0, 0xff, 0xff, 192, 0, 2, 1],
        [0xfe, 0x80, 0, 1, 0, 0, 0, 0, 0, 2, 0, 0, 0, 0, 0, 3],
        [1, 2, 3, 4, 5, 6, 7, 8, 9, 10, 11, 12, 13, 14, 15, 16],
    ];
    for o in samples {
        let text = ipv6_to_string(&o);
        assert_eq!(parse_ipv6(&text), Some(o.to_vec()));
    }
    assert_eq!(ipv6_to_string(&samples[3]), "fe80:1::2:0:0:3");
}

#[test]
fn canonical_records_read_back_unchanged() {
    let cases = [
        ("A", "192.168.0.10"),
        ("AAAA", "2001:db8::1"),
        ("AAAA", "::ffff:10.0.0.1"),
        ("PTR", "host.corp.lan"),
        ("NS", "ns1.corp.lan"),
        ("CNAME", "www.corp.lan"),
        ("MX", "10 mail.corp.lan"),
        ("TXT", "v=spf1 include:corp.lan -all"),
    ];
    for (kind, value) in cases {
        let bytes = build_dns_record_binary(kind, value, 3600).unwrap();
        assert_eq!(
            parse_dns_record_binary(&bytes),
            Some((kind.to_string(), value.to_string(), 3600))
        );
    }
}
