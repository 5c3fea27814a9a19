use easydc::encoding::encode_password;
use easydc::requests::{
    plan_create_group, plan_create_ou, plan_create_user, plan_member_change, plan_reset_password,
    plan_set_computer_enabled, plan_set_user_enabled, plan_unlock_user, plan_update_group,
    plan_update_user, ou_rename_rdn, GroupUpdate, ModOp, Modification, NewEntry, NewGroup, NewUser,
    UserUpdate,
};
use easydc::directory::{users_from_entries, computers_from_entries, groups_from_entries, Entry};

fn text(m: &Modification) -> (ModOp, String, Vec<String>) {
    (
        m.op,
        String::from_utf8(m.attr.clone()).unwrap(),
        m.values.iter().map(|v| String::from_utf8(v.clone()).unwrap()).collect(),
    )
}

fn attrs(e: &NewEntry) -> Vec<(String, Vec<String>)> {
    e.attrs
        .iter()
        .map(|(k, vs)| {
            (
                String::from_utf8(k.clone()).unwrap(),
                vs.iter().map(|v| String::from_utf8(v.clone()).unwrap()).collect(),
            )
        })
        .collect()
}

fn pair(k: &str, vs: &[&str]) -> (String, Vec<String>) {
    (k.to_string(), vs.iter().map(|v| v.to_string()).collect())
}

fn read_back(e: &NewEntry) -> Entry {
    Entry { dn: e.dn.clone(), attrs: attrs(e), bin_attrs: vec![] }
}

#[test]
fn new_user_entry_and_steps() {
    let u = NewUser { username: "jdoe", first_name: "John", last_name: "Doe", email: "", password: "Secr3t!" };
    let plan = plan_create_user("DC=corp,DC=lan", &u);
    assert_eq!(plan.entry.dn, "CN=John Doe,CN=Users,DC=corp,DC=lan");
    assert_eq!(
        attrs(&plan.entry),
        vec![
            pair("objectClass", &["top", "person", "organizationalPerson", "user"]),
            pair("cn", &["John Doe"]),
            pair("sAMAccountName", &["jdoe"]),
            pair("userPrincipalName", &["jdoe@corp.lan"]),
            pair("userAccountControl", &["514"]),
            pair("givenName", &["John"]),
            pair("sn", &["Doe"]),
            pair("displayName", &["John Doe"]),
        ]
    );
    assert_eq!(plan.set_password.len(), 1);
    assert_eq!(plan.set_password[0].op, ModOp::Replace);
    assert_eq!(plan.set_password[0].attr, b"unicodePwd".to_vec());
    assert_eq!(plan.set_password[0].values, vec![encode_password("Secr3t!")]);
    assert_eq!(text(&plan.enable[0]), (ModOp::Replace, "userAccountControl".to_string(), vec!["512".to_string()]));
}

#[test]
fn new_user_without_names_uses_logon_name() {
    let u = NewUser { username: "svc", first_name: "", last_name: " ", email: "svc@x", password: "p" };
    let plan = plan_create_user("DC=x", &u);
    assert_eq!(plan.entry.dn, "CN=svc,CN=Users,DC=x");
    let a = attrs(&plan.entry);
    assert_eq!(a[1], pair("cn", &["svc"]));
    assert_eq!(a[5], pair("sn", &[" "]));
    assert_eq!(a[6], pair("mail", &["svc@x"]));
    assert_eq!(a.len(), 7);
}

#[test]
fn user_update_with_and_without_password() {
    let u = UserUpdate { first_name: "A", last_name: "", email: "a@x", password: "" };
    let mods: Vec<_> = plan_update_user(&u).iter().map(text).collect();
    assert_eq!(
        mods,
        vec![
            (ModOp::Replace, "givenName".to_string(), vec!["A".to_string()]),
            (ModOp::Replace, "sn".to_string(), vec!["".to_string()]),
            (ModOp::Replace, "displayName".to_string(), vec!["A".to_string()]),
            (ModOp::Replace, "mail".to_string(), vec!["a@x".to_string()]),
        ]
    );
    let with_pw = plan_update_user(&UserUpdate { password: "new", ..u });
    assert_eq!(with_pw.len(), 5);
    assert_eq!(with_pw[4].attr, b"unicodePwd".to_vec());
    assert_eq!(with_pw[4].values, vec![encode_password("new")]);
}

#[test]
fn account_state_changes() {
    assert_eq!(text(&plan_set_user_enabled(true)[0]).2, vec!["512".to_string()]);
    assert_eq!(text(&plan_set_user_enabled(false)[0]).2, vec!["514".to_string()]);
    assert_eq!(text(&plan_set_computer_enabled(true)[0]).2, vec!["4096".to_string()]);
    assert_eq!(text(&plan_set_computer_enabled(false)[0]).2, vec!["4098".to_string()]);
    assert_eq!(text(&plan_unlock_user()[0]), (ModOp::Replace, "lockoutTime".to_string(), vec!["0".to_string()]));
    let forced = plan_reset_password("pw", true);
    assert_eq!(forced[0].values, vec![encode_password("pw")]);
    assert_eq!(text(&forced[1]), (ModOp::Replace, "pwdLastSet".to_string(), vec!["0".to_string()]));
    let fresh = plan_reset_password("pw", false);
    assert_eq!(text(&fresh[1]).2, vec!["-1".to_string()]);
}

#[test]
fn enabled_state_reads_back() {
    for enable in [true, false] {
        let mods = plan_set_user_enabled(enable);
        let value = text(&mods[0]).2[0].clone();
        let e = Entry {
            dn: "CN=u".to_string(),
            attrs: vec![pair("sAMAccountName", &["u"]), ("userAccountControl".to_string(), vec![value])],
            bin_attrs: vec![],
        };
        assert_eq!(users_from_entries(&vec![e])[0].enabled, enable);
        let cmods = plan_set_computer_enabled(enable);
        let cvalue = text(&cmods[0]).2[0].clone();
        let c = Entry {
            dn: "CN=c".to_string(),
            attrs: vec![pair("cn", &["c"]), ("userAccountControl".to_string(), vec![cvalue])],
            bin_attrs: vec![],
        };
        assert_eq!(computers_from_entries(&vec![c])[0].enabled, enable);
    }
}

#[test]
fn new_group_entry_reads_back() {
    let g = NewGroup { name: "Ops", description: "", group_type: -2147483644 };
    let e = plan_create_group("DC=x", &g);
    assert_eq!(e.dn, "CN=Ops,CN=Users,DC=x");
    assert_eq!(
        attrs(&e),
        vec![
            pair("objectClass", &["top", "group"]),
            pair("cn", &["Ops"]),
            pair("sAMAccountName", &["Ops"]),
            pair("groupType", &["-2147483644"]),
        ]
    );
    let listed = groups_from_entries(&vec![read_back(&e)]);
    assert_eq!(listed[0].group_type, -2147483644);
    assert_eq!(listed[0].group_type_label, "Domain Local Security");
    let with_desc = plan_create_group("DC=x", &NewGroup { description: "d", ..g });
    assert_eq!(attrs(&with_desc)[4], pair("description", &["d"]));
}

#[test]
fn group_changes() {
    let cleared = plan_update_group(&GroupUpdate { description: "" });
    assert_eq!(text(&cleared[0]), (ModOp::Delete, "description".to_string(), vec![]));
    let set = plan_update_group(&GroupUpdate { description: "hi" });
    assert_eq!(text(&set[0]), (ModOp::Replace, "description".to_string(), vec!["hi".to_string()]));
    assert_eq!(text(&plan_member_change("CN=u,DC=x", true)[0]), (ModOp::Add, "member".to_string(), vec!["CN=u,DC=x".to_string()]));
    assert_eq!(text(&plan_member_change("CN=u,DC=x", false)[0]).0, ModOp::Delete);
}

#[test]
fn ou_creation_and_rename() {
    let e = plan_create_ou("DC=x", "Sales", "");
    assert_eq!(e.dn, "OU=Sales,DC=x");
    assert_eq!(attrs(&e), vec![pair("objectClass", &["top", "organizationalUnit"]), pair("ou", &["Sales"])]);
    let d = plan_create_ou("OU=Sales,DC=x", "EU", "Europe");
    assert_eq!(attrs(&d)[2], pair("description", &["Europe"]));
    assert_eq!(ou_rename_rdn("Ops"), "OU=Ops");
}

#[test]
fn new_user_reads_back() {
    let u = NewUser { username: "mia", first_name: "Mia", last_name: "", email: "mia@x", password: "p" };
    let plan = plan_create_user("DC=x", &u);
    let listed = users_from_entries(&vec![read_back(&plan.entry)]);
    assert_eq!(listed.len(), 1);
    let m = &listed[0];
    assert_eq!(m.username, "mia");
    assert_eq!(m.first_name, "Mia");
    assert_eq!(m.last_name, "");
    assert_eq!(m.display_name, "Mia");
    assert_eq!(m.email, "mia@x");
    assert!(!m.enabled);
    assert!(!m.locked);
    assert_eq!(m.bad_pwd_count, 0);
}

fn no_repeats(values: &[Vec<u8>]) -> bool {
    values.iter().enumerate().all(|(i, v)| values[i + 1..].iter().all(|w| w != v))
}

#[test]
fn new_entries_hold_each_value_once() {
    let u = NewUser {
        username: "jdoe",
        first_name: "John",
        last_name: "Doe",
        email: "jdoe@corp.lan",
        password: "Secret123!",
    };
    let c = plan_create_user("DC=corp,DC=lan", &u);
    assert!(c.entry.attrs.iter().all(|(_, vs)| no_repeats(vs)));
    let classes = &c.entry.attrs[0].1;
    assert_eq!(classes.len(), 4);
    let ou = plan_create_ou("DC=corp,DC=lan", "Sales", "top");
    assert!(ou.attrs.iter().all(|(_, vs)| no_repeats(vs)));
    let g = plan_create_group("DC=corp,DC=lan", &NewGroup { name: "group", description: "", group_type: -2147483646 });
    assert!(g.attrs.iter().all(|(_, vs)| no_repeats(vs)));
}
