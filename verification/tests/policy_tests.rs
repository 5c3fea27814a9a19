use easydc::directory::Entry;
use easydc::policy::{
    build_gp_link, current_gp_link, gpo_display_name, gpo_dn_for_guid, gpo_links_from_entries,
    gpo_status_label, gpos_from_entries, parse_gp_link, plan_create_gpo, plan_create_gpo_with_id,
    plan_link_gpo, plan_unlink_gpo, plan_update_gpo, policies_dn,
};
use easydc::requests::ModOp;

fn entry(dn: &str, attrs: &[(&str, &str)]) -> Entry {
    Entry {
        dn: dn.to_string(),
        attrs: attrs.iter().map(|(k, v)| (k.to_string(), vec![v.to_string()])).collect(),
        bin_attrs: vec![],
    }
}

fn utf8(b: &[u8]) -> String {
    String::from_utf8(b.to_vec()).unwrap()
}

#[test]
fn gp_link_parsing() {
    let v = "[LDAP://cn={A},cn=policies,cn=system,DC=x;0][ldap://CN={B},DC=x;2][bad entry][LDAP://cn={C};x]";
    let links = parse_gp_link(v);
    assert_eq!(
        links,
        vec![
            ("cn={A},cn=policies,cn=system,DC=x".to_string(), 0),
            ("CN={B},DC=x".to_string(), 2),
            ("cn={C}".to_string(), 0),
        ]
    );
    assert_eq!(parse_gp_link(""), vec![]);
    assert_eq!(parse_gp_link("[LDAP://a;1"), vec![]);
    assert_eq!(parse_gp_link("junk[LDAP://LDAP://a;b;3]"), vec![("a;b".to_string(), 3)]);
}

#[test]
fn gp_link_roundtrip() {
    let links = vec![("cn={A},DC=x".to_string(), 0u8), ("cn={B},DC=x".to_string(), 3)];
    let text = build_gp_link(&links);
    assert_eq!(text, "[LDAP://cn={A},DC=x;0][LDAP://cn={B},DC=x;3]");
    assert_eq!(parse_gp_link(&text), links);
    assert_eq!(build_gp_link(&[]), "");
}

#[test]
fn linking_appends_once() {
    let current = "[LDAP://cn={A},DC=x;1]";
    let mods = plan_link_gpo(current, "CN={B},DC=x").unwrap();
    assert_eq!(mods[0].op, ModOp::Replace);
    assert_eq!(utf8(&mods[0].attr), "gPLink");
    assert_eq!(utf8(&mods[0].values[0]), "[LDAP://cn={A},DC=x;1][LDAP://CN={B},DC=x;0]");
    // already linked (DNs compared in lower case): nothing to do
    assert!(plan_link_gpo(current, "CN={a},dc=X").is_none());
}

#[test]
fn unlinking_drops_every_link_to_the_gpo() {
    let current = "[LDAP://cn={A},DC=x;0][LDAP://cn={B},DC=x;2][LDAP://CN={A},DC=X;1]";
    let mods = plan_unlink_gpo(current, "cn={a},dc=x");
    assert_eq!(mods[0].op, ModOp::Replace);
    assert_eq!(utf8(&mods[0].values[0]), "[LDAP://cn={B},DC=x;2]");
    let last = plan_unlink_gpo("[LDAP://cn={A},DC=x;0]", "cn={A},DC=x");
    assert_eq!(last[0].op, ModOp::Delete);
    assert!(last[0].values.is_empty());
}

#[test]
fn link_then_unlink_restores() {
    let current = "[LDAP://cn={A},DC=x;2]";
    let linked = plan_link_gpo(current, "cn={N},DC=x").unwrap();
    let after = utf8(&linked[0].values[0]);
    let undone = plan_unlink_gpo(&after, "cn={N},DC=x");
    assert_eq!(utf8(&undone[0].values[0]), current);
}

#[test]
fn gpo_links_of_containers() {
    let entries = vec![
        entry("OU=Sales,DC=x", &[("ou", "Sales"), ("gPLink", "[LDAP://cn={A},DC=x;2][LDAP://cn={A},DC=x;1]")]),
        entry("DC=x", &[("name", "x"), ("gPLink", "[LDAP://cn={B},DC=x;0]")]),
        entry("OU=Ops,DC=x", &[("name", "Ops"), ("gPLink", "[LDAP://CN={A},DC=X;3]")]),
    ];
    let links = gpo_links_from_entries(&entries, "cn={a},dc=x");
    assert_eq!(links.len(), 2);
    assert_eq!(links[0].ou_dn, "OU=Sales,DC=x");
    assert_eq!(links[0].ou_name, "Sales");
    assert_eq!(links[0].link_flags, 2);
    assert_eq!(links[0].link_status, "Enforced");
    assert_eq!(links[1].ou_name, "Ops");
    assert_eq!(links[1].link_status, "Disabled + Enforced");
    assert_eq!(current_gp_link(&entries), "[LDAP://cn={A},DC=x;2][LDAP://cn={A},DC=x;1]");
    assert_eq!(current_gp_link(&vec![]), "");
}

#[test]
fn gpo_list() {
    let entries = vec![
        entry("CN={B},CN=Policies", &[("cn", "{B}"), ("displayName", "beta"), ("flags", "3"), ("versionNumber", "7")]),
        entry("CN={A},CN=Policies", &[("cn", "{A}"), ("displayName", "Alpha"), ("flags", "oops")]),
        entry("CN=x", &[("displayName", "no guid")]),
    ];
    let gpos = gpos_from_entries(&entries);
    assert_eq!(gpos.len(), 2);
    assert_eq!(gpos[0].display_name, "Alpha");
    assert_eq!(gpos[0].guid, "{A}");
    assert_eq!(gpos[0].guid_url, "A");
    assert_eq!(gpos[0].flags, 0);
    assert_eq!(gpos[0].status_label, "Enabled");
    assert_eq!(gpos[1].version, 7);
    assert_eq!(gpos[1].status_label, "All Settings Disabled");
    assert_eq!(gpo_display_name(&gpos, "b"), "beta");
    assert_eq!(gpo_display_name(&gpos, "zzz"), "zzz");
}

#[test]
fn gpo_status_labels() {
    assert_eq!(gpo_status_label(0), "Enabled");
    assert_eq!(gpo_status_label(1), "User Config Disabled");
    assert_eq!(gpo_status_label(2), "Computer Config Disabled");
    assert_eq!(gpo_status_label(3), "All Settings Disabled");
    assert_eq!(gpo_status_label(-1), "Enabled");
}

#[test]
fn gpo_names_and_changes() {
    assert_eq!(policies_dn("DC=x"), "CN=Policies,CN=System,DC=x");
    assert_eq!(gpo_dn_for_guid("ab-cd", "DC=x"), "CN={AB-CD},CN=Policies,CN=System,DC=x");
    let mods = plan_update_gpo("New name", -2);
    assert_eq!(utf8(&mods[0].values[0]), "New name");
    assert_eq!(utf8(&mods[1].attr), "flags");
    assert_eq!(utf8(&mods[1].values[0]), "-2");
}

#[test]
fn gpo_creation() {
    let c = plan_create_gpo_with_id("0a1b2c3d-0000-4000-8000-00000000abcd", "Baseline", "DC=corp,DC=lan");
    assert_eq!(c.guid, "{0A1B2C3D-0000-4000-8000-00000000ABCD}");
    assert_eq!(c.entry.dn, "CN={0A1B2C3D-0000-4000-8000-00000000ABCD},CN=Policies,CN=System,DC=corp,DC=lan");
    let path = utf8(&c.entry.attrs[3].1[0]);
    assert_eq!(path, "\\\\corp.lan\\SysVol\\corp.lan\\Policies\\{0A1B2C3D-0000-4000-8000-00000000ABCD}");
    assert_eq!(utf8(&c.entry.attrs[0].1[2]), "groupPolicyContainer");
    let fresh = plan_create_gpo("X", "DC=x");
    assert_eq!(fresh.guid.len(), 38);
    assert!(fresh.guid.starts_with('{') && fresh.guid.ends_with('}'));
    assert_eq!(&fresh.guid[15..16], "4");
    assert_eq!(fresh.guid, fresh.guid.to_uppercase());
    assert_ne!(fresh.guid, plan_create_gpo("X", "DC=x").guid);
}

#[test]
fn gpo_flags_read_back() {
    for flags in [0, 1, 2, 3, -7] {
        let mods = plan_update_gpo("P", flags);
        let value = utf8(&mods[1].values[0]);
        let e = entry("CN={P}", &[("cn", "{P}"), ("displayName", "P"), ("flags", &value)]);
        let gpos = gpos_from_entries(&vec![e]);
        assert_eq!(gpos[0].flags, flags);
        assert_eq!(gpos[0].status_label, gpo_status_label(flags));
    }
}

#[test]
fn linking_twice_changes_nothing() {
    for current in ["", "[LDAP://cn={A},DC=x;1]", "[ldap://LDAP://cn={C},DC=x;2]", "junk"] {
        let first = plan_link_gpo(current, "CN={B},DC=x").unwrap();
        let written = utf8(&first[0].values[0]);
        assert!(plan_link_gpo(&written, "CN={B},DC=x").is_none());
        assert!(plan_link_gpo(&written, "cn={b},dc=X").is_none());
    }
}
