use easydc::dns::{build_dns_record_binary, encode_dns_rpc_name, parse_dns_record_binary, parse_dns_rpc_name};

#[test]
fn encode_dnsp_name_matches_ms_dnsp_layout() {
    // "example.com" -> [13][2][7]example[3]com[0]
    let got = encode_dns_rpc_name("example.com");
    let mut want = vec![13u8, 2, 7];
    want.extend_from_slice(b"example");
    want.push(3);
    want.extend_from_slice(b"com");
    want.push(0);
    assert_eq!(got, want);
}

#[test]
fn encode_strips_trailing_dot() {
    assert_eq!(encode_dns_rpc_name("host.lan."), encode_dns_rpc_name("host.lan"));
}

#[test]
fn roundtrip_ptr_target() {
    let name = "win10.hakim.family";
    assert_eq!(parse_dns_rpc_name(&encode_dns_rpc_name(name)), name);
}

#[test]
fn ptr_record_header_is_valid_zone_record() {
    let rec = build_dns_record_binary("PTR", "easylog.hakim.family", 3600).unwrap();
    // wType = 12 (PTR), little-endian
    assert_eq!(u16::from_le_bytes([rec[2], rec[3]]), 12);
    // version = 5, rank = DNS_RANK_ZONE (0xF0)
    assert_eq!(rec[4], 5);
    assert_eq!(rec[5], 0xF0);
    // dwTtlSeconds is big-endian
    assert_eq!(u32::from_be_bytes([rec[12], rec[13], rec[14], rec[15]]), 3600);
}

#[test]
fn ptr_record_roundtrips_through_parse() {
    let rec = build_dns_record_binary("PTR", "easylog.hakim.family", 3600).unwrap();
    let (rtype, value, ttl) = parse_dns_record_binary(&rec).unwrap();
    assert_eq!(rtype, "PTR");
    assert_eq!(value, "easylog.hakim.family");
    assert_eq!(ttl, 3600);
}
