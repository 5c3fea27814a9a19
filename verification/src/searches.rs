//! The directory searches the console makes: where each one starts, how
//! deep it goes, what it filters on and which attributes it asks for.

use vstd::prelude::*;
use crate::text::owned;
use crate::directory::{account_lookup_filter, computer_lookup_filter, group_lookup_filter, user_lookup_filter};
use crate::policy::policies_dn;
use crate::zones::zone_lookup_filter;

verus! {

broadcast use vstd::string::group_string_axioms;

/// How far below its base a search looks.
#[derive(Clone, Copy, Debug, PartialEq, Eq)]
pub enum SearchScope {
    /// The base entry only.
    Base,
    /// The entries directly below the base.
    OneLevel,
    /// The base and everything below it.
    Subtree,
}

/// One search: base DN, scope, filter and requested attributes.
pub struct Search {
    pub base: String,
    pub scope: SearchScope,
    pub filter: String,
    pub attrs: Vec<String>,
}

/// Whether `s` is the search with the given parts.
pub open spec fn is_search(
    s: Search,
    base: Seq<char>,
    scope: SearchScope,
    filter: Seq<char>,
    attrs: Seq<Seq<char>>,
) -> bool {
    &&& s.base@ == base
    &&& s.scope == scope
    &&& s.filter@ == filter
    &&& s.attrs.deep_view() == attrs
}

fn one_name(a: &str) -> (r: Vec<String>)
    ensures
        r.deep_view() == seq![a@],
{
    let mut r: Vec<String> = Vec::new();
    r.push(owned(a));
    assert(r.deep_view() =~= seq![a@]);
    r
}

/// Appends an attribute name.
fn with_name(names: Vec<String>, a: &str) -> (r: Vec<String>)
    ensures
        r.deep_view() == names.deep_view().push(a@),
{
    let mut r = names;
    let ghost before = r.deep_view();
    r.push(owned(a));
    assert(r.deep_view() =~= before.push(a@));
    r
}

/// The base search of the root DSE for the domain's naming context.
pub fn root_dse_search() -> (r: Search)
    ensures
        is_search(r, ""@, SearchScope::Base, "(objectClass=*)"@, seq!["defaultNamingContext"@]),
{
    Search {
        base: owned(""),
        scope: SearchScope::Base,
        filter: owned("(objectClass=*)"),
        attrs: one_name("defaultNamingContext"),
    }
}

/// A subtree search below the base that only needs the DNs it finds.
fn dn_search(base_dn: &str, filter: String) -> (r: Search)
    ensures
        is_search(r, base_dn@, SearchScope::Subtree, filter@, seq!["dn"@]),
{
    Search { base: owned(base_dn), scope: SearchScope::Subtree, filter, attrs: one_name("dn") }
}

/// The search that finds a user account by logon name.
pub fn user_lookup_search(base_dn: &str, username: &str) -> (r: Search)
    ensures
        is_search(
            r,
            base_dn@,
            SearchScope::Subtree,
            "(&(objectClass=user)(sAMAccountName="@ + username@ + "))"@,
            seq!["dn"@],
        ),
{
    dn_search(base_dn, user_lookup_filter(username))
}

/// The search that finds a group by account name.
pub fn group_lookup_search(base_dn: &str, name: &str) -> (r: Search)
    ensures
        is_search(
            r,
            base_dn@,
            SearchScope::Subtree,
            "(&(objectClass=group)(sAMAccountName="@ + name@ + "))"@,
            seq!["dn"@],
        ),
{
    dn_search(base_dn, group_lookup_filter(name))
}

/// The search that finds a computer by common name.
pub fn computer_lookup_search(base_dn: &str, name: &str) -> (r: Search)
    ensures
        is_search(
            r,
            base_dn@,
            SearchScope::Subtree,
            "(&(objectClass=computer)(cn="@ + name@ + "))"@,
            seq!["dn"@],
        ),
{
    dn_search(base_dn, computer_lookup_filter(name))
}

/// The search that finds any object by account name, for moving it.
pub fn account_lookup_search(base_dn: &str, sam_account: &str) -> (r: Search)
    ensures
        is_search(
            r,
            base_dn@,
            SearchScope::Subtree,
            "(sAMAccountName="@ + sam_account@ + ")"@,
            seq!["cn"@],
        ),
{
    Search {
        base: owned(base_dn),
        scope: SearchScope::Subtree,
        filter: account_lookup_filter(sam_account),
        attrs: one_name("cn"),
    }
}

/// The search for the user list: user accounts that are not computers.
pub fn users_search(base_dn: &str) -> (r: Search)
    ensures
        is_search(
            r,
            base_dn@,
            SearchScope::Subtree,
            "(&(objectClass=user)(!(objectClass=computer)))"@,
            seq![
                "sAMAccountName"@,
                "givenName"@,
                "sn"@,
                "displayName"@,
                "mail"@,
                "userAccountControl"@,
                "lockoutTime"@,
                "badPwdCount"@,
            ],
        ),
{
    let a = one_name("sAMAccountName");
    let a = with_name(a, "givenName");
    let a = with_name(a, "sn");
    let a = with_name(a, "displayName");
    let a = with_name(a, "mail");
    let a = with_name(a, "userAccountControl");
    let a = with_name(a, "lockoutTime");
    let a = with_name(a, "badPwdCount");
    assert(a.deep_view() =~= seq![
        "sAMAccountName"@,
        "givenName"@,
        "sn"@,
        "displayName"@,
        "mail"@,
        "userAccountControl"@,
        "lockoutTime"@,
        "badPwdCount"@,
    ]);
    Search {
        base: owned(base_dn),
        scope: SearchScope::Subtree,
        filter: owned("(&(objectClass=user)(!(objectClass=computer)))"),
        attrs: a,
    }
}

/// The search for the group list.
pub fn groups_search(base_dn: &str) -> (r: Search)
    ensures
        is_search(
            r,
            base_dn@,
            SearchScope::Subtree,
            "(objectClass=group)"@,
            seq!["sAMAccountName"@, "description"@, "groupType"@, "member"@],
        ),
{
    let a = one_name("sAMAccountName");
    let a = with_name(a, "description");
    let a = with_name(a, "groupType");
    let a = with_name(a, "member");
    assert(a.deep_view() =~= seq!["sAMAccountName"@, "description"@, "groupType"@, "member"@]);
    Search {
        base: owned(base_dn),
        scope: SearchScope::Subtree,
        filter: owned("(objectClass=group)"),
        attrs: a,
    }
}

/// The base search that reads a group's member DNs.
pub fn group_members_search(group_dn: &str) -> (r: Search)
    ensures
        is_search(r, group_dn@, SearchScope::Base, "(objectClass=group)"@, seq!["member"@]),
{
    Search {
        base: owned(group_dn),
        scope: SearchScope::Base,
        filter: owned("(objectClass=group)"),
        attrs: one_name("member"),
    }
}

/// The base search that reads one member of a group.
pub fn member_search(member_dn: &str) -> (r: Search)
    ensures
        is_search(
            r,
            member_dn@,
            SearchScope::Base,
            "(objectClass=*)"@,
            seq![
                "sAMAccountName"@,
                "givenName"@,
                "sn"@,
                "displayName"@,
                "mail"@,
                "userAccountControl"@,
            ],
        ),
{
    let a = one_name("sAMAccountName");
    let a = with_name(a, "givenName");
    let a = with_name(a, "sn");
    let a = with_name(a, "displayName");
    let a = with_name(a, "mail");
    let a = with_name(a, "userAccountControl");
    assert(a.deep_view() =~= seq![
        "sAMAccountName"@,
        "givenName"@,
        "sn"@,
        "displayName"@,
        "mail"@,
        "userAccountControl"@,
    ]);
    Search {
        base: owned(member_dn),
        scope: SearchScope::Base,
        filter: owned("(objectClass=*)"),
        attrs: a,
    }
}

/// The search for the computer list.
pub fn computers_search(base_dn: &str) -> (r: Search)
    ensures
        is_search(
            r,
            base_dn@,
            SearchScope::Subtree,
            "(objectClass=computer)"@,
            seq![
                "cn"@,
                "sAMAccountName"@,
                "dNSHostName"@,
                "operatingSystem"@,
                "operatingSystemVersion"@,
                "userAccountControl"@,
            ],
        ),
{
    let a = one_name("cn");
    let a = with_name(a, "sAMAccountName");
    let a = with_name(a, "dNSHostName");
    let a = with_name(a, "operatingSystem");
    let a = with_name(a, "operatingSystemVersion");
    let a = with_name(a, "userAccountControl");
    assert(a.deep_view() =~= seq![
        "cn"@,
        "sAMAccountName"@,
        "dNSHostName"@,
        "operatingSystem"@,
        "operatingSystemVersion"@,
        "userAccountControl"@,
    ]);
    Search {
        base: owned(base_dn),
        scope: SearchScope::Subtree,
        filter: owned("(objectClass=computer)"),
        attrs: a,
    }
}

/// The search of one zone container: all zones, or the zone with a name.
pub fn zones_search(container_dn: &str, zone_name: Option<&str>) -> (r: Search)
    ensures
        is_search(
            r,
            container_dn@,
            SearchScope::OneLevel,
            match zone_name {
                Some(z) => "(&(objectClass=dnsZone)(dc="@ + z@ + "))"@,
                None => "(objectClass=dnsZone)"@,
            },
            seq!["dc"@],
        ),
{
    let filter = match zone_name {
        Some(z) => zone_lookup_filter(z),
        None => owned("(objectClass=dnsZone)"),
    };
    Search {
        base: owned(container_dn),
        scope: SearchScope::OneLevel,
        filter,
        attrs: one_name("dc"),
    }
}

/// The search for the live nodes of a zone and their records.
pub fn nodes_search(zone_dn: &str) -> (r: Search)
    ensures
        is_search(
            r,
            zone_dn@,
            SearchScope::OneLevel,
            "(&(objectClass=dnsNode)(!(dNSTombstoned=TRUE)))"@,
            seq!["dc"@, "dnsRecord"@],
        ),
{
    let a = one_name("dc");
    let a = with_name(a, "dnsRecord");
    assert(a.deep_view() =~= seq!["dc"@, "dnsRecord"@]);
    Search {
        base: owned(zone_dn),
        scope: SearchScope::OneLevel,
        filter: owned("(&(objectClass=dnsNode)(!(dNSTombstoned=TRUE)))"),
        attrs: a,
    }
}

/// The base search that tells whether a node exists.
pub fn node_search(node_dn: &str) -> (r: Search)
    ensures
        is_search(r, node_dn@, SearchScope::Base, "(objectClass=dnsNode)"@, seq!["dc"@]),
{
    Search {
        base: owned(node_dn),
        scope: SearchScope::Base,
        filter: owned("(objectClass=dnsNode)"),
        attrs: one_name("dc"),
    }
}

/// The search for organizational units: with their descriptions for the OU
/// tree (`tree`), or with `ou` and `name` for the OU choices.
pub fn ous_search(base_dn: &str, tree: bool) -> (r: Search)
    ensures
        is_search(
            r,
            base_dn@,
            SearchScope::Subtree,
            "(objectClass=organizationalUnit)"@,
            if tree {
                seq!["ou"@, "description"@]
            } else {
                seq!["ou"@, "name"@]
            },
        ),
{
    let a = one_name("ou");
    let a = if tree {
        with_name(a, "description")
    } else {
        with_name(a, "name")
    };
    assert(a.deep_view() =~= if tree {
        seq!["ou"@, "description"@]
    } else {
        seq!["ou"@, "name"@]
    });
    Search {
        base: owned(base_dn),
        scope: SearchScope::Subtree,
        filter: owned("(objectClass=organizationalUnit)"),
        attrs: a,
    }
}

/// The search for the GPOs of the domain.
pub fn gpos_search(base_dn: &str) -> (r: Search)
    ensures
        is_search(
            r,
            "CN=Policies,CN=System,"@ + base_dn@,
            SearchScope::OneLevel,
            "(objectClass=groupPolicyContainer)"@,
            seq!["cn"@, "displayName"@, "flags"@, "versionNumber"@, "gPCFileSysPath"@],
        ),
{
    let a = one_name("cn");
    let a = with_name(a, "displayName");
    let a = with_name(a, "flags");
    let a = with_name(a, "versionNumber");
    let a = with_name(a, "gPCFileSysPath");
    assert(a.deep_view() =~= seq![
        "cn"@,
        "displayName"@,
        "flags"@,
        "versionNumber"@,
        "gPCFileSysPath"@,
    ]);
    Search {
        base: policies_dn(base_dn),
        scope: SearchScope::OneLevel,
        filter: owned("(objectClass=groupPolicyContainer)"),
        attrs: a,
    }
}

/// The search for every container that links a GPO.
pub fn linked_containers_search(base_dn: &str) -> (r: Search)
    ensures
        is_search(
            r,
            base_dn@,
            SearchScope::Subtree,
            "(gPLink=*)"@,
            seq!["name"@, "ou"@, "gPLink"@],
        ),
{
    let a = one_name("name");
    let a = with_name(a, "ou");
    let a = with_name(a, "gPLink");
    assert(a.deep_view() =~= seq!["name"@, "ou"@, "gPLink"@]);
    Search { base: owned(base_dn), scope: SearchScope::Subtree, filter: owned("(gPLink=*)"), attrs: a }
}

/// The base search that reads one container's `gPLink`.
pub fn gp_link_search(container_dn: &str) -> (r: Search)
    ensures
        is_search(r, container_dn@, SearchScope::Base, "(objectClass=*)"@, seq!["gPLink"@]),
{
    Search {
        base: owned(container_dn),
        scope: SearchScope::Base,
        filter: owned("(objectClass=*)"),
        attrs: one_name("gPLink"),
    }
}

} // verus!
