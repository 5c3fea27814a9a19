use easydc::directory::Entry;
use easydc::dns::build_dns_record_binary;
use easydc::encoding::to_hex;
use easydc::requests::ModOp;
use easydc::zones::{
    next_zone_base, node_dn, nodes_from_entries, plan_add_record, plan_delete_record,
    zone_lookup_filter, zone_search_bases, zones_from_entries, RecordWrite,
};

fn zone(dn: &str, name: &str) -> Entry {
    Entry { dn: dn.to_string(), attrs: vec![("dc".to_string(), vec![name.to_string()])], bin_attrs: vec![] }
}

fn node(name: &str, key: &str, raws: Vec<Vec<u8>>) -> Entry {
    Entry {
        dn: format!("DC={},DC=z", name),
        attrs: vec![("dc".to_string(), vec![name.to_string()])],
        bin_attrs: vec![(key.to_string(), raws)],
    }
}

#[test]
fn zone_containers_and_filters() {
    assert_eq!(
        zone_search_bases("DC=x"),
        vec![
            "CN=MicrosoftDNS,DC=DomainDnsZones,DC=x".to_string(),
            "CN=MicrosoftDNS,CN=System,DC=x".to_string(),
            "DC=DomainDnsZones,DC=x".to_string(),
        ]
    );
    assert_eq!(next_zone_base(0, 3, false), Some(1));
    assert_eq!(next_zone_base(1, 3, true), None);
    assert_eq!(next_zone_base(2, 3, false), None);
    assert_eq!(zone_lookup_filter("corp.lan"), "(&(objectClass=dnsZone)(dc=corp.lan))");
    assert_eq!(node_dn("www", "DC=corp.lan,CN=MicrosoftDNS"), "DC=www,DC=corp.lan,CN=MicrosoftDNS");
}

#[test]
fn zones_listed_by_name() {
    let entries = vec![
        zone("DC=b.lan", "b.lan"),
        zone("DC=_msdcs", "_msdcs.b.lan"),
        zone("DC=RootDNSServers", "RootDNSServers"),
        zone("DC=..TrustAnchors", "..TrustAnchors"),
        zone("DC=A.lan", "A.lan"),
        zone("DC=", ""),
    ];
    let zones = zones_from_entries(&entries);
    let names: Vec<&str> = zones.iter().map(|z| z.name.as_str()).collect();
    assert_eq!(names, vec!["A.lan", "b.lan"]);
    assert_eq!(zones[0].dn, "DC=A.lan");
}

#[test]
fn nodes_apex_first_then_by_name() {
    let a = build_dns_record_binary("A", "10.0.0.5", 600).unwrap();
    let tomb = vec![0u8; 24];
    let entries = vec![
        node("www", "dnsRecord", vec![a.clone()]),
        node("@", "dnsrecord", vec![a.clone(), tomb.clone()]),
        node("Mail", "dnsRecord", vec![tomb.clone()]),
        node("empty", "dnsRecord", vec![]),
    ];
    let nodes = nodes_from_entries(&entries);
    let names: Vec<&str> = nodes.iter().map(|n| n.name.as_str()).collect();
    assert_eq!(names, vec!["@", "Mail", "www"]);
    assert_eq!(nodes[0].records.len(), 1);
    assert_eq!(nodes[0].records[0].node_name, "@");
    assert_eq!(nodes[0].records[0].record_type, "A");
    assert_eq!(nodes[0].records[0].value, "10.0.0.5");
    assert_eq!(nodes[0].records[0].ttl, 600);
    assert_eq!(nodes[0].records[0].raw_hex, to_hex(&a));
    assert!(nodes[1].records.is_empty());
}

#[test]
fn adding_and_deleting_records() {
    let rec = vec![1u8, 2, 3];
    match plan_add_record("DC=z", "www", rec.clone(), true) {
        RecordWrite::AddToNode(m) => {
            assert_eq!(m[0].op, ModOp::Add);
            assert_eq!(m[0].attr, b"dnsRecord".to_vec());
            assert_eq!(m[0].values, vec![rec.clone()]);
        }
        RecordWrite::CreateNode(_) => panic!("node exists"),
    }
    match plan_add_record("DC=z", "www", rec.clone(), false) {
        RecordWrite::CreateNode(n) => {
            assert_eq!(n.dn, "DC=www,DC=z");
            assert_eq!(n.attrs[0].1, vec![b"top".to_vec(), b"dnsNode".to_vec()]);
            assert_eq!(n.attrs[1], (b"dc".to_vec(), vec![b"www".to_vec()]));
            assert_eq!(n.attrs[2], (b"dnsRecord".to_vec(), vec![rec.clone()]));
        }
        RecordWrite::AddToNode(_) => panic!("node is new"),
    }
    let del = plan_delete_record("0a0b").unwrap();
    assert_eq!(del[0].op, ModOp::Delete);
    assert_eq!(del[0].values, vec![vec![10u8, 11]]);
    assert_eq!(plan_delete_record("xyz1").unwrap_err(), "Invalid record data");
}

#[test]
fn record_attribute_found_in_any_case() {
    let a = build_dns_record_binary("A", "10.0.0.7", 60).unwrap();
    let entries = vec![
        node("upper", "DNSRECORD", vec![a.clone()]),
        node("mixed", "DnsRecord", vec![a.clone()]),
        node("other", "dnsRecords", vec![a.clone()]),
    ];
    let nodes = nodes_from_entries(&entries);
    let names: Vec<&str> = nodes.iter().map(|n| n.name.as_str()).collect();
    assert_eq!(names, vec!["mixed", "upper"]);
    assert_eq!(nodes[1].records[0].value, "10.0.0.7");
}
