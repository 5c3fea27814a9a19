use easydc::directory::Entry;
use easydc::units::{dn_tree_sort_key, first_rdn, ou_depth, ou_nodes_from_entries, ous_flat, ous_from_entries};

fn entry(dn: &str, attrs: &[(&str, &str)]) -> Entry {
    Entry {
        dn: dn.to_string(),
        attrs: attrs.iter().map(|(k, v)| (k.to_string(), vec![v.to_string()])).collect(),
        bin_attrs: vec![],
    }
}

#[test]
fn depth_below_base() {
    assert_eq!(ou_depth("OU=Sales,DC=corp,DC=lan", "DC=corp,DC=lan"), 0);
    assert_eq!(ou_depth("OU=EU,OU=Sales,DC=corp,DC=lan", "DC=corp,DC=lan"), 1);
    assert_eq!(ou_depth("DC=corp,DC=lan", "DC=corp,DC=lan"), 0);
    assert_eq!(ou_depth("DC=lan", "DC=corp,DC=lan"), 0);
}

#[test]
fn tree_keys_run_from_the_root() {
    assert_eq!(dn_tree_sort_key("OU=EU, OU=Sales,DC=Corp"), "dc=corp,ou=sales,ou=eu");
    let parent = dn_tree_sort_key("OU=Sales,DC=corp");
    let child = dn_tree_sort_key("OU=EU,OU=Sales,DC=corp");
    assert!(child.starts_with(&parent));
    assert!(parent < child);
}

#[test]
fn ou_tree_in_tree_order() {
    let entries = vec![
        entry("OU=EU,OU=Sales,DC=x", &[("ou", "EU")]),
        entry("OU=Admin,DC=x", &[("ou", "Admin"), ("description", "admins")]),
        entry("OU=Sales,DC=x", &[("ou", "Sales")]),
        entry("CN=Users,DC=x", &[]),
    ];
    let nodes = ou_nodes_from_entries(&entries, "DC=x");
    let names: Vec<&str> = nodes.iter().map(|n| n.name.as_str()).collect();
    assert_eq!(names, vec!["Admin", "Sales", "EU"]);
    assert_eq!(nodes[0].description, "admins");
    assert_eq!(nodes[1].depth, 0);
    assert_eq!(nodes[2].depth, 1);
    let flat = ous_flat(&nodes, "DC=x");
    assert_eq!(flat.len(), 4);
    assert_eq!(flat[0].name, "Domain Root (DC=x)");
    assert_eq!(flat[3].dn, "OU=EU,OU=Sales,DC=x");
}

#[test]
fn ou_choices_start_at_the_domain_root() {
    let entries = vec![
        entry("OU=b,DC=corp,DC=lan", &[("ou", "b")]),
        entry("OU=A,DC=corp,DC=lan", &[("name", "A")]),
        entry("CN=x,DC=corp,DC=lan", &[]),
    ];
    let ous = ous_from_entries(&entries, "DC=corp,DC=lan");
    assert_eq!(ous.len(), 3);
    assert_eq!(ous[0].dn, "DC=corp,DC=lan");
    assert_eq!(ous[0].name, "Domain Root (corp.lan)");
    assert_eq!(ous[1].name, "A");
    assert_eq!(ous[2].name, "b");
}

#[test]
fn rdn_of_an_object() {
    assert_eq!(first_rdn("CN=John Doe,CN=Users,DC=x"), "CN=John Doe");
    assert_eq!(first_rdn("CN=solo"), "CN=solo");
    assert_eq!(first_rdn(""), "");
}

#[test]
fn ou_tree_keeps_subtrees_together() {
    let entries = vec![
        entry("OU=Sales Team,DC=corp,DC=lan", &[("ou", "Sales Team")]),
        entry("OU=East,OU=Sales,DC=corp,DC=lan", &[("ou", "East")]),
        entry("OU=Sales,DC=corp,DC=lan", &[("ou", "Sales")]),
        entry("OU=West,OU=Sales Team,DC=corp,DC=lan", &[("ou", "West")]),
        entry("OU=A,OU=East,OU=Sales,DC=corp,DC=lan", &[("ou", "A")]),
    ];
    let nodes = ou_nodes_from_entries(&entries, "DC=corp,DC=lan");
    let names: Vec<&str> = nodes.iter().map(|n| n.name.as_str()).collect();
    assert_eq!(names, vec!["Sales", "East", "A", "Sales Team", "West"]);
    let depths: Vec<usize> = nodes.iter().map(|n| n.depth).collect();
    assert_eq!(depths, vec![0, 1, 2, 0, 1]);
}
