use easydc::directory::{
    attr, base_dn_from_root, base_dn_to_domain, computers_from_entries, first_dn,
    group_lookup_filter, group_type_label, groups_from_entries, int_attr, member_dns,
    members_from_entries,
    user_lookup_filter, users_from_entries, Entry,
};

fn entry(dn: &str, attrs: &[(&str, &[&str])]) -> Entry {
    Entry {
        dn: dn.to_string(),
        attrs: attrs
            .iter()
            .map(|(k, vs)| (k.to_string(), vs.iter().map(|v| v.to_string()).collect()))
            .collect(),
        bin_attrs: vec![],
    }
}

#[test]
fn attribute_reading() {
    let e = entry("CN=a", &[("mail", &["a@x", "b@x"]), ("empty", &[]), ("n", &["42"])]);
    assert_eq!(attr(&e, "mail"), "a@x");
    assert_eq!(attr(&e, "empty"), "");
    assert_eq!(attr(&e, "missing"), "");
    assert_eq!(int_attr(&e, "n", 7), 42);
    assert_eq!(int_attr(&e, "mail", 7), 7);
    assert_eq!(int_attr(&e, "missing", -3), -3);
}

#[test]
fn users_listed_by_lower_case_name() {
    let entries = vec![
        entry("CN=Zed,CN=Users,DC=x", &[("sAMAccountName", &["zed"]), ("userAccountControl", &["512"])]),
        entry("CN=Anna,CN=Users,DC=x", &[
            ("sAMAccountName", &["Anna"]),
            ("givenName", &["Anna"]),
            ("sn", &["Berg"]),
            ("displayName", &["Anna Berg"]),
            ("mail", &["anna@x"]),
            ("userAccountControl", &["514"]),
            ("lockoutTime", &["132000000000"]),
            ("badPwdCount", &["3"]),
        ]),
        entry("CN=NoName,DC=x", &[("givenName", &["Nobody"])]),
        entry("CN=bob,DC=x", &[("sAMAccountName", &["bob"])]),
    ];
    let users = users_from_entries(&entries);
    let names: Vec<&str> = users.iter().map(|u| u.username.as_str()).collect();
    assert_eq!(names, vec!["Anna", "bob", "zed"]);
    let anna = &users[0];
    assert_eq!(anna.dn, "CN=Anna,CN=Users,DC=x");
    assert_eq!(anna.display_name, "Anna Berg");
    assert!(!anna.enabled);
    assert!(anna.locked);
    assert_eq!(anna.bad_pwd_count, 3);
    // a missing userAccountControl counts as disabled
    assert!(!users[1].enabled);
    assert!(!users[1].locked);
    assert!(users[2].enabled);
}

#[test]
fn equal_keys_keep_search_order() {
    let entries = vec![
        entry("CN=1", &[("sAMAccountName", &["SAM"])]),
        entry("CN=2", &[("sAMAccountName", &["sam"])]),
        entry("CN=3", &[("sAMAccountName", &["Sam"])]),
    ];
    let users = users_from_entries(&entries);
    let dns: Vec<&str> = users.iter().map(|u| u.dn.as_str()).collect();
    assert_eq!(dns, vec!["CN=1", "CN=2", "CN=3"]);
}

#[test]
fn groups_with_types_and_members() {
    let entries = vec![
        entry("CN=Staff,DC=x", &[
            ("sAMAccountName", &["Staff"]),
            ("groupType", &["-2147483646"]),
            ("member", &["CN=a", "CN=b"]),
            ("description", &["all staff"]),
        ]),
        entry("CN=list,DC=x", &[("sAMAccountName", &["list"]), ("groupType", &["8"])]),
        entry("CN=odd,DC=x", &[("sAMAccountName", &["odd"]), ("groupType", &["x"])]),
        entry("CN=none,DC=x", &[]),
    ];
    let groups = groups_from_entries(&entries);
    assert_eq!(groups.len(), 3);
    assert_eq!(groups[0].name, "list");
    assert_eq!(groups[0].group_type_label, "Universal Distribution");
    assert_eq!(groups[0].member_count, 0);
    assert_eq!(groups[1].name, "odd");
    assert_eq!(groups[1].group_type, 0);
    assert_eq!(groups[1].group_type_label, "Other");
    assert_eq!(groups[2].name, "Staff");
    assert_eq!(groups[2].group_type_label, "Global Security");
    assert_eq!(groups[2].member_count, 2);
    assert_eq!(groups[2].description, "all staff");
}

#[test]
fn group_type_labels() {
    assert_eq!(group_type_label(-2147483646), "Global Security");
    assert_eq!(group_type_label(-2147483644), "Domain Local Security");
    assert_eq!(group_type_label(-2147483640), "Universal Security");
    assert_eq!(group_type_label(2), "Global Distribution");
    assert_eq!(group_type_label(4), "Domain Local Distribution");
    assert_eq!(group_type_label(8), "Universal Distribution");
    assert_eq!(group_type_label(0), "Other");
}

#[test]
fn members_hide_lock_state() {
    let entries = vec![
        entry("CN=b,DC=x", &[("sAMAccountName", &["b"]), ("lockoutTime", &["5"]), ("badPwdCount", &["9"])]),
        entry("CN=a,DC=x", &[("sAMAccountName", &["a"]), ("userAccountControl", &["66048"])]),
        entry("CN=Group,DC=x", &[("cn", &["Group"])]),
    ];
    let members = members_from_entries(&entries);
    assert_eq!(members.len(), 2);
    assert_eq!(members[0].username, "a");
    assert!(members[0].enabled);
    assert_eq!(members[1].username, "b");
    assert!(!members[1].locked);
    assert_eq!(members[1].bad_pwd_count, 0);
    assert!(!members[1].enabled);
}

#[test]
fn computers_default_to_enabled() {
    let entries = vec![
        entry("CN=WS2,DC=x", &[("cn", &["WS2"]), ("userAccountControl", &["4098"])]),
        entry("CN=ws1,DC=x", &[("cn", &["ws1"]), ("dNSHostName", &["ws1.x"]), ("operatingSystem", &["Windows"])]),
        entry("CN=,DC=x", &[("sAMAccountName", &["orphan$"])]),
    ];
    let computers = computers_from_entries(&entries);
    assert_eq!(computers.len(), 2);
    assert_eq!(computers[0].name, "ws1");
    assert!(computers[0].enabled);
    assert_eq!(computers[0].dns_hostname, "ws1.x");
    assert_eq!(computers[0].os, "Windows");
    assert_eq!(computers[1].name, "WS2");
    assert!(!computers[1].enabled);
}

#[test]
fn lookups_and_not_found_messages() {
    assert_eq!(user_lookup_filter("jo"), "(&(objectClass=user)(sAMAccountName=jo))");
    assert_eq!(group_lookup_filter("g"), "(&(objectClass=group)(sAMAccountName=g))");
    let found = vec![entry("CN=jo,DC=x", &[]), entry("CN=jo2,DC=x", &[])];
    assert_eq!(first_dn(&found, "User", "jo"), Ok("CN=jo,DC=x".to_string()));
    assert_eq!(first_dn(&vec![], "User", "jo"), Err("User 'jo' not found".to_string()));
    assert_eq!(first_dn(&vec![], "Group", "g"), Err("Group 'g' not found".to_string()));
}

#[test]
fn base_dn_from_root_dse() {
    let root = vec![entry("", &[("defaultNamingContext", &["DC=corp,DC=lan"])])];
    assert_eq!(base_dn_from_root(&root), Ok("DC=corp,DC=lan".to_string()));
    let missing = vec![entry("", &[])];
    let msg = "Could not determine domain base DN from server".to_string();
    assert_eq!(base_dn_from_root(&missing), Err(msg.clone()));
    assert_eq!(base_dn_from_root(&vec![]), Err(msg));
}

#[test]
fn domain_from_base_dn() {
    assert_eq!(base_dn_to_domain("DC=corp,DC=example,DC=com"), "corp.example.com");
    assert_eq!(base_dn_to_domain("dc=a, DC=b"), "a.b");
    assert_eq!(base_dn_to_domain("OU=x,DC=lan"), "lan");
    assert_eq!(base_dn_to_domain("CN=Users"), "");
}

#[test]
fn ordering_ignores_case() {
    let entries = vec![
        entry("CN=Zed", &[("sAMAccountName", &["Zed"])]),
        entry("CN=alice", &[("sAMAccountName", &["alice"])]),
    ];
    let users = users_from_entries(&entries);
    assert_eq!(users[0].username, "alice");
    assert_eq!(users[1].username, "Zed");
}

#[test]
fn member_dns_of_a_group() {
    let group = vec![entry("CN=G", &[("member", &["CN=a,DC=x", "CN=b,DC=x"])])];
    assert_eq!(member_dns(&group), vec!["CN=a,DC=x".to_string(), "CN=b,DC=x".to_string()]);
    assert_eq!(member_dns(&vec![entry("CN=G", &[])]), Vec::<String>::new());
    assert_eq!(member_dns(&vec![]), Vec::<String>::new());
}

#[test]
fn attribute_order_does_not_matter() {
    let a = entry("CN=a,DC=x", &[("cn", &["a"]), ("mail", &["a@x", "b@x"]), ("sn", &["A"])]);
    let b = entry("CN=a,DC=x", &[("sn", &["A"]), ("mail", &["a@x", "b@x"]), ("cn", &["a"])]);
    for key in ["cn", "mail", "sn", "givenName"] {
        assert_eq!(attr(&a, key), attr(&b, key));
    }
    assert_eq!(attr(&a, "mail"), "a@x");
}
