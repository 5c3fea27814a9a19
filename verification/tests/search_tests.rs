use easydc::searches::{
    account_lookup_search, gp_link_search, gpos_search, member_search, nodes_search, ous_search,
    root_dse_search, user_lookup_search, users_search, zones_search, SearchScope,
};

#[test]
fn user_searches() {
    let s = users_search("DC=x");
    assert_eq!(s.base, "DC=x");
    assert_eq!(s.scope, SearchScope::Subtree);
    assert_eq!(s.filter, "(&(objectClass=user)(!(objectClass=computer)))");
    assert_eq!(s.attrs.len(), 8);
    assert_eq!(s.attrs[7], "badPwdCount");
    let l = user_lookup_search("DC=x", "bob");
    assert_eq!(l.filter, "(&(objectClass=user)(sAMAccountName=bob))");
    assert_eq!(l.attrs, vec!["dn".to_string()]);
    let m = member_search("CN=bob,DC=x");
    assert_eq!((m.base.as_str(), m.scope), ("CN=bob,DC=x", SearchScope::Base));
    assert_eq!(account_lookup_search("DC=x", "pc1$").filter, "(sAMAccountName=pc1$)");
}

#[test]
fn other_searches() {
    let r = root_dse_search();
    assert_eq!((r.base.as_str(), r.scope, r.filter.as_str()), ("", SearchScope::Base, "(objectClass=*)"));
    assert_eq!(r.attrs, vec!["defaultNamingContext".to_string()]);
    assert_eq!(zones_search("CN=MicrosoftDNS,DC=x", None).filter, "(objectClass=dnsZone)");
    assert_eq!(zones_search("CN=MicrosoftDNS,DC=x", Some("lan")).filter, "(&(objectClass=dnsZone)(dc=lan))");
    assert_eq!(nodes_search("DC=lan,CN=MicrosoftDNS,DC=x").scope, SearchScope::OneLevel);
    assert_eq!(ous_search("DC=x", true).attrs, vec!["ou".to_string(), "description".to_string()]);
    assert_eq!(ous_search("DC=x", false).attrs, vec!["ou".to_string(), "name".to_string()]);
    let g = gpos_search("DC=x");
    assert_eq!(g.base, "CN=Policies,CN=System,DC=x");
    assert_eq!(g.filter, "(objectClass=groupPolicyContainer)");
    assert_eq!(gp_link_search("OU=a,DC=x").attrs, vec!["gPLink".to_string()]);
}
