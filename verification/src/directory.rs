//! Directory entries as LDAP searches return them, and what the domain
//! management views make of them: users, groups, computers, and the
//! modifications that create and change them.

use vstd::prelude::*;
use vstd::utf8::*;
use crate::text::{
    chars_of, concat2, concat3, has_prefix, join_spec, join_strings, lowercase, owned, parse_int,
    parse_int_spec, skip_chars, split_chars, split_spec, starts_with, string_of, to_lowercase,
    trim_chars, trim_spec,
};
use crate::sort::{SortKey, is_stable_order, keys_of, sort_stable};
use crate::encoding::{encode_password, password_value, sv};

verus! {

broadcast use vstd::string::group_string_axioms;

// ── entries ──────────────────────────────────────────────────────────────────

/// One entry of a search result: its DN, text attribute values, and binary
/// attribute values, each attribute name listed once.
pub struct Entry {
    pub dn: String,
    pub attrs: Vec<(String, Vec<String>)>,
    pub bin_attrs: Vec<(String, Vec<Vec<u8>>)>,
}

/// The values of the first attribute named `key`.
pub open spec fn attr_values(attrs: Seq<(String, Vec<String>)>, key: Seq<char>) -> Option<
    Seq<Seq<char>>,
>
    decreases attrs.len(),
{
    if attrs.len() == 0 {
        None
    } else if attrs[0].0@ == key {
        Some(attrs[0].1.deep_view())
    } else {
        attr_values(attrs.drop_first(), key)
    }
}

/// Whether each attribute name of an entry occurs once among its text
/// attributes and once among its binary ones, as the keys of a search
/// result's attribute maps do.
pub open spec fn attr_names_unique(e: Entry) -> bool {
    &&& forall|i: int, j: int|
        0 <= i < j < e.attrs@.len() ==> (#[trigger] e.attrs@[i]).0@ != (#[trigger] e.attrs@[j]).0@
    &&& forall|i: int, j: int|
        0 <= i < j < e.bin_attrs@.len() ==> (#[trigger] e.bin_attrs@[i]).0@ != (
        #[trigger] e.bin_attrs@[j]).0@
}

proof fn lemma_lookup_at(attrs: Seq<(String, Vec<String>)>, i: int)
    requires
        0 <= i < attrs.len(),
        forall|a: int, b: int|
            0 <= a < b < attrs.len() ==> (#[trigger] attrs[a]).0@ != (#[trigger] attrs[b]).0@,
    ensures
        attr_values(attrs, attrs[i].0@) == Some(attrs[i].1.deep_view()),
    decreases i,
{
    if i > 0 {
        assert(attrs[0].0@ != attrs[i].0@);
        let rest = attrs.drop_first();
        assert forall|a: int, b: int| 0 <= a < b < rest.len() implies (#[trigger] rest[a]).0@ != (
        #[trigger] rest[b]).0@ by {
            assert(rest[a] == attrs[a + 1]);
            assert(rest[b] == attrs[b + 1]);
        }
        lemma_lookup_at(rest, i - 1);
        assert(rest[i - 1] == attrs[i]);
    }
}

/// Where each name occurs once, reading an attribute gives that attribute's
/// own values, wherever it stands among the entry's attributes: the order in
/// which the attributes were listed does not matter.
pub proof fn lemma_attr_read_back(e: Entry, i: int)
    requires
        attr_names_unique(e),
        0 <= i < e.attrs@.len(),
    ensures
        attr_values(e.attrs@, e.attrs@[i].0@) == Some(e.attrs@[i].1.deep_view()),
{
    lemma_lookup_at(e.attrs@, i);
}

/// The first value of attribute `key`, or the empty string.
pub open spec fn attr_spec(e: Entry, key: Seq<char>) -> Seq<char> {
    match attr_values(e.attrs@, key) {
        Some(v) => if v.len() > 0 {
            v[0]
        } else {
            Seq::<char>::empty()
        },
        None => Seq::<char>::empty(),
    }
}

/// Attribute `key` read as an `i64`, `default` when absent or not a number.
pub open spec fn int_attr_spec(e: Entry, key: Seq<char>, default: i64) -> i64 {
    match parse_int_spec(attr_spec(e, key), true, i64::MIN as int, i64::MAX as int) {
        Some(v) => v as i64,
        None => default,
    }
}

/// The first value of attribute `key` in an entry, or the empty string.
pub fn attr(e: &Entry, key: &str) -> (r: String)
    ensures
        r@ == attr_spec(*e, key@),
{
    let k = owned(key);
    let mut i: usize = 0;
    assert(e.attrs@.skip(0) =~= e.attrs@);
    while i < e.attrs.len()
        invariant
            i <= e.attrs@.len(),
            k@ == key@,
            attr_values(e.attrs@, key@) == attr_values(e.attrs@.skip(i as int), key@),
        decreases e.attrs@.len() - i,
    {
        assert(e.attrs@.skip(i as int).drop_first() =~= e.attrs@.skip(i + 1));
        if e.attrs[i].0 == k {
            let vals = &e.attrs[i].1;
            if vals.len() > 0 {
                assert(vals.deep_view()[0] == vals@[0]@);
                return vals[0].clone();
            } else {
                return String::new();
            }
        }
        i += 1;
    }
    String::new()
}

/// Attribute `key` read as an `i64` (`str::parse`), `default` when absent
/// or not a number.
pub fn int_attr(e: &Entry, key: &str, default: i64) -> (r: i64)
    ensures
        r == int_attr_spec(*e, key@, default),
{
    let v = attr(e, key);
    let c = chars_of(v.as_str());
    match parse_int(&c, true, i64::MIN, i64::MAX) {
        Some(x) => x,
        None => default,
    }
}

/// Whether a `userAccountControl` value has the account-disabled bit (2) clear.
pub open spec fn uac_enabled(uac: i64) -> bool {
    uac & 2 == 0
}

/// Only the ACCOUNTDISABLE flag (bit value 2) of `userAccountControl`
/// decides whether an account is listed as enabled: an account with no
/// flags is enabled, setting or clearing any other flags (such as
/// SERVER_TRUST_ACCOUNT or TRUSTED_FOR_DELEGATION) leaves the state as it
/// was, and toggling that flag flips it.
pub proof fn lemma_uac_disable_flag(uac: i64, other: i64)
    ensures
        uac_enabled(0),
        other & 2 == 0 ==> uac_enabled(uac | other) == uac_enabled(uac),
        other & 2 == 0 ==> uac_enabled(uac & !other) == uac_enabled(uac),
        uac_enabled(uac ^ 2) != uac_enabled(uac),
        uac_enabled(uac | 2) == false,
{
    assert(0i64 & 2 == 0) by (bit_vector);
    assert(other & 2 == 0 ==> ((uac | other) & 2 == 0) == (uac & 2 == 0)) by (bit_vector);
    assert(other & 2 == 0 ==> ((uac & !other) & 2 == 0) == (uac & 2 == 0)) by (bit_vector);
    assert(((uac ^ 2) & 2 == 0) != (uac & 2 == 0)) by (bit_vector);
    assert((uac | 2) & 2 != 0) by (bit_vector);
}

fn uac_is_enabled(uac: i64) -> (b: bool)
    ensures
        b == uac_enabled(uac),
{
    uac & 2 == 0
}

// ── users ────────────────────────────────────────────────────────────────────

/// A user account as listed.
pub struct LdapUser {
    pub dn: String,
    pub username: String,
    pub first_name: String,
    pub last_name: String,
    pub display_name: String,
    pub email: String,
    pub enabled: bool,
    pub locked: bool,
    pub bad_pwd_count: i64,
}

impl SortKey for LdapUser {
    open spec fn sort_key(&self) -> Seq<char> {
        lowercase(self.username@)
    }

    fn key_chars(&self) -> (k: Vec<char>) {
        let l = to_lowercase(self.username.as_str());
        chars_of(l.as_str())
    }
}

/// Whether `u` is the user listed for entry `e`: a missing or unparsable
/// `userAccountControl` counts as 514 (disabled), any non-zero
/// `lockoutTime` means locked.
pub open spec fn user_matches(u: LdapUser, e: Entry) -> bool {
    &&& u.dn@ == e.dn@
    &&& u.username@ == attr_spec(e, "sAMAccountName"@)
    &&& u.first_name@ == attr_spec(e, "givenName"@)
    &&& u.last_name@ == attr_spec(e, "sn"@)
    &&& u.display_name@ == attr_spec(e, "displayName"@)
    &&& u.email@ == attr_spec(e, "mail"@)
    &&& u.enabled == uac_enabled(int_attr_spec(e, "userAccountControl"@, 514))
    &&& u.locked == (int_attr_spec(e, "lockoutTime"@, 0) != 0)
    &&& u.bad_pwd_count == int_attr_spec(e, "badPwdCount"@, 0)
}

// ── listings ─────────────────────────────────────────────────────────────────

/// A value that a listing shows for directory entries found below a search
/// base.
pub trait Listed: SortKey + Sized {
    /// Whether entry `e` appears in the listing.
    spec fn shown(e: Entry, base: Seq<char>) -> bool;

    /// The key the listing orders entries by.
    spec fn entry_key(e: Entry, base: Seq<char>) -> Seq<char>;

    /// Whether `self` is what the listing shows for `e`.
    spec fn shows(self, e: Entry, base: Seq<char>) -> bool;

    /// Reads one entry: `None` for an entry the listing leaves out.
    fn read(e: &Entry, base: &str) -> (r: Option<Self>)
        ensures
            r is Some <==> Self::shown(*e, base@),
            r matches Some(v) ==> v.shows(*e, base@) && v.sort_key() == Self::entry_key(
                *e,
                base@,
            ),
    ;
}

/// The entries a listing of `T` shows, in search order.
pub open spec fn shown_entries<T: Listed>(entries: Seq<Entry>, base: Seq<char>) -> Seq<Entry> {
    entries.filter(|e: Entry| T::shown(e, base))
}

/// The keys of the shown entries, in search order.
pub open spec fn shown_keys<T: Listed>(entries: Seq<Entry>, base: Seq<char>) -> Seq<Seq<char>> {
    shown_entries::<T>(entries, base).map_values(|e: Entry| T::entry_key(e, base))
}

/// Whether `out` is the listing of `entries`: one value for each shown entry,
/// ordered by key, entries with equal keys in search order.
pub open spec fn listing<T: Listed>(out: Seq<T>, entries: Seq<Entry>, base: Seq<char>) -> bool {
    let shown = shown_entries::<T>(entries, base);
    exists|p: Seq<int>|
        #[trigger] is_stable_order(shown_keys::<T>(entries, base), p) && out.len() == shown.len()
            && forall|k: int| 0 <= k < out.len() ==> (#[trigger] out[k]).shows(shown[p[k]], base)
}

/// Reads the shown entries and orders them by key, keeping search order
/// among equal keys (a stable `sort_by`).
pub fn list_entries<T: Listed>(entries: &Vec<Entry>, base: &str) -> (r: Vec<T>)
    ensures
        listing(r@, entries@, base@),
{
    let ghost pred = |e: Entry| T::shown(e, base@);
    let mut built: Vec<T> = Vec::new();
    let ghost mut shown: Seq<Entry> = Seq::empty();
    let mut i: usize = 0;
    while i < entries.len()
        invariant
            i <= entries@.len(),
            pred == (|e: Entry| T::shown(e, base@)),
            shown == entries@.take(i as int).filter(pred),
            built@.len() == shown.len(),
            forall|k: int|
                0 <= k < built@.len() ==> (#[trigger] built@[k]).shows(shown[k], base@)
                    && built@[k].sort_key() == T::entry_key(shown[k], base@),
        decreases entries@.len() - i,
    {
        let item = T::read(&entries[i], base);
        proof {
            assert(entries@.take(i + 1) =~= entries@.take(i as int).push(entries@[i as int]));
            entries@.take(i as int).lemma_filter_push(entries@[i as int], pred);
        }
        match item {
            Some(v) => {
                built.push(v);
                proof {
                    shown = shown.push(entries@[i as int]);
                }
            },
            None => {},
        }
        i += 1;
    }
    assert(entries@.take(i as int) =~= entries@);
    assert(shown == shown_entries::<T>(entries@, base@)) by {
        assert(pred =~= (|e: Entry| T::shown(e, base@)));
    }
    let ghost b = built@;
    let sorted = sort_stable(built);
    proof {
        let p = choose|p: Seq<int>|
            #[trigger] is_stable_order(keys_of(b), p) && sorted@ == p.map_values(|j: int| b[j]);
        assert(keys_of(b) =~= shown_keys::<T>(entries@, base@));
        assert(is_stable_order(shown_keys::<T>(entries@, base@), p));
        assert(sorted@.len() == shown.len());
        assert forall|k: int| 0 <= k < sorted@.len() implies (#[trigger] sorted@[k]).shows(
            shown[p[k]],
            base@,
        ) by {
            assert(sorted@[k] == b[p[k]]);
        }
    }
    sorted
}

impl Listed for LdapUser {
    open spec fn shown(e: Entry, base: Seq<char>) -> bool {
        attr_spec(e, "sAMAccountName"@).len() > 0
    }

    open spec fn entry_key(e: Entry, base: Seq<char>) -> Seq<char> {
        lowercase(attr_spec(e, "sAMAccountName"@))
    }

    open spec fn shows(self, e: Entry, base: Seq<char>) -> bool {
        user_matches(self, e)
    }

    fn read(e: &Entry, base: &str) -> (r: Option<Self>) {
        let uac = int_attr(e, "userAccountControl", 514);
        let lockout = int_attr(e, "lockoutTime", 0);
        let u = LdapUser {
            dn: e.dn.clone(),
            username: attr(e, "sAMAccountName"),
            first_name: attr(e, "givenName"),
            last_name: attr(e, "sn"),
            display_name: attr(e, "displayName"),
            email: attr(e, "mail"),
            enabled: uac_is_enabled(uac),
            locked: lockout != 0,
            bad_pwd_count: int_attr(e, "badPwdCount", 0),
        };
        if u.username.as_str().is_empty() {
            None
        } else {
            Some(u)
        }
    }
}

/// The users of a search result, as the user list shows them: entries with
/// a user name, ordered by lower-case user name (ties keep search order).
pub fn users_from_entries(entries: &Vec<Entry>) -> (r: Vec<LdapUser>)
    ensures
        listing(r@, entries@, Seq::empty()),
{
    proof {
        reveal_strlit("");
        assert(""@ =~= Seq::<char>::empty());
    }
    list_entries(entries, "")
}

// ── groups ───────────────────────────────────────────────────────────────────

/// A group as listed.
pub struct LdapGroup {
    pub dn: String,
    pub name: String,
    pub description: String,
    pub group_type: i64,
    pub group_type_label: String,
    pub member_count: usize,
}

/// The label shown for a `groupType` value.
pub open spec fn group_type_text(t: i64) -> Seq<char> {
    if t == -2147483646 {
        "Global Security"@
    } else if t == -2147483644 {
        "Domain Local Security"@
    } else if t == -2147483640 {
        "Universal Security"@
    } else if t == 2 {
        "Global Distribution"@
    } else if t == 4 {
        "Domain Local Distribution"@
    } else if t == 8 {
        "Universal Distribution"@
    } else {
        "Other"@
    }
}

/// The label shown for a `groupType` value: scope and kind of the group.
pub fn group_type_label(t: i64) -> (r: &'static str)
    ensures
        r@ == group_type_text(t),
{
    if t == -2147483646 {
        "Global Security"
    } else if t == -2147483644 {
        "Domain Local Security"
    } else if t == -2147483640 {
        "Universal Security"
    } else if t == 2 {
        "Global Distribution"
    } else if t == 4 {
        "Domain Local Distribution"
    } else if t == 8 {
        "Universal Distribution"
    } else {
        "Other"
    }
}

/// The number of values of attribute `key` (0 when absent).
pub open spec fn value_count(e: Entry, key: Seq<char>) -> nat {
    match attr_values(e.attrs@, key) {
        Some(v) => v.len(),
        None => 0,
    }
}

/// The number of values of attribute `key` in an entry.
pub fn attr_count(e: &Entry, key: &str) -> (r: usize)
    ensures
        r == value_count(*e, key@),
{
    let k = owned(key);
    let mut i: usize = 0;
    assert(e.attrs@.skip(0) =~= e.attrs@);
    while i < e.attrs.len()
        invariant
            i <= e.attrs@.len(),
            k@ == key@,
            attr_values(e.attrs@, key@) == attr_values(e.attrs@.skip(i as int), key@),
        decreases e.attrs@.len() - i,
    {
        assert(e.attrs@.skip(i as int).drop_first() =~= e.attrs@.skip(i + 1));
        if e.attrs[i].0 == k {
            return e.attrs[i].1.len();
        }
        i += 1;
    }
    0
}

/// The first value of attribute `key`, if the attribute has one.
pub open spec fn first_value(e: Entry, key: Seq<char>) -> Option<Seq<char>> {
    match attr_values(e.attrs@, key) {
        Some(v) => if v.len() > 0 {
            Some(v[0])
        } else {
            None
        },
        None => None,
    }
}

/// The first value of attribute `key` in an entry, if there is one.
pub fn attr_first(e: &Entry, key: &str) -> (r: Option<String>)
    ensures
        r matches Some(v) ==> first_value(*e, key@) == Some(v@),
        r is None ==> first_value(*e, key@) is None,
{
    let k = owned(key);
    let mut i: usize = 0;
    assert(e.attrs@.skip(0) =~= e.attrs@);
    while i < e.attrs.len()
        invariant
            i <= e.attrs@.len(),
            k@ == key@,
            attr_values(e.attrs@, key@) == attr_values(e.attrs@.skip(i as int), key@),
        decreases e.attrs@.len() - i,
    {
        assert(e.attrs@.skip(i as int).drop_first() =~= e.attrs@.skip(i + 1));
        if e.attrs[i].0 == k {
            let vals = &e.attrs[i].1;
            if vals.len() > 0 {
                assert(vals.deep_view()[0] == vals@[0]@);
                return Some(vals[0].clone());
            } else {
                return None;
            }
        }
        i += 1;
    }
    None
}

/// All values of attribute `key` (none when absent).
pub open spec fn all_values(e: Entry, key: Seq<char>) -> Seq<Seq<char>> {
    match attr_values(e.attrs@, key) {
        Some(v) => v,
        None => Seq::empty(),
    }
}

/// A copy of a list of strings.
fn copy_strings(v: &Vec<String>) -> (r: Vec<String>)
    ensures
        r.deep_view() == v.deep_view(),
{
    let mut out: Vec<String> = Vec::new();
    let mut j: usize = 0;
    while j < v.len()
        invariant
            j <= v@.len(),
            out.deep_view() == v.deep_view().take(j as int),
        decreases v@.len() - j,
    {
        let ghost before = out.deep_view();
        assert(v.deep_view()[j as int] == v@[j as int]@);
        let s = owned(v[j].as_str());
        let ghost sv = s@;
        out.push(s);
        assert(out.deep_view() =~= before.push(sv));
        assert(v.deep_view().take(j + 1) =~= v.deep_view().take(j as int).push(sv));
        j += 1;
    }
    assert(v.deep_view().take(j as int) =~= v.deep_view());
    out
}

/// All values of attribute `key` in an entry.
pub fn attr_all(e: &Entry, key: &str) -> (r: Vec<String>)
    ensures
        r.deep_view() == all_values(*e, key@),
{
    let k = owned(key);
    let mut i: usize = 0;
    assert(e.attrs@.skip(0) =~= e.attrs@);
    while i < e.attrs.len()
        invariant
            i <= e.attrs@.len(),
            k@ == key@,
            attr_values(e.attrs@, key@) == attr_values(e.attrs@.skip(i as int), key@),
        decreases e.attrs@.len() - i,
    {
        assert(e.attrs@.skip(i as int).drop_first() =~= e.attrs@.skip(i + 1));
        if e.attrs[i].0 == k {
            return copy_strings(&e.attrs[i].1);
        }
        i += 1;
    }
    Vec::new()
}

/// The member DNs of the group a base search found (none when the search
/// found nothing or the group has no members).
pub fn member_dns(entries: &Vec<Entry>) -> (r: Vec<String>)
    ensures
        r.deep_view() == if entries@.len() > 0 {
            all_values(entries@[0], "member"@)
        } else {
            Seq::empty()
        },
{
    if entries.len() == 0 {
        Vec::new()
    } else {
        attr_all(&entries[0], "member")
    }
}

impl SortKey for LdapGroup {
    open spec fn sort_key(&self) -> Seq<char> {
        lowercase(self.name@)
    }

    fn key_chars(&self) -> (k: Vec<char>) {
        let l = to_lowercase(self.name.as_str());
        chars_of(l.as_str())
    }
}

impl Listed for LdapGroup {
    open spec fn shown(e: Entry, base: Seq<char>) -> bool {
        attr_spec(e, "sAMAccountName"@).len() > 0
    }

    open spec fn entry_key(e: Entry, base: Seq<char>) -> Seq<char> {
        lowercase(attr_spec(e, "sAMAccountName"@))
    }

    /// An unparsable `groupType` counts as 0; the member count is the number
    /// of `member` values.
    open spec fn shows(self, e: Entry, base: Seq<char>) -> bool {
        let gt = int_attr_spec(e, "groupType"@, 0);
        &&& self.dn@ == e.dn@
        &&& self.name@ == attr_spec(e, "sAMAccountName"@)
        &&& self.description@ == attr_spec(e, "description"@)
        &&& self.group_type == gt
        &&& self.group_type_label@ == group_type_text(gt)
        &&& self.member_count == value_count(e, "member"@)
    }

    fn read(e: &Entry, base: &str) -> (r: Option<Self>) {
        let name = attr(e, "sAMAccountName");
        if name.as_str().is_empty() {
            return None;
        }
        let gt = int_attr(e, "groupType", 0);
        Some(
            LdapGroup {
                dn: e.dn.clone(),
                name,
                description: attr(e, "description"),
                group_type: gt,
                group_type_label: owned(group_type_label(gt)),
                member_count: attr_count(e, "member"),
            },
        )
    }
}

/// The groups of a search result, as the group list shows them: entries
/// with a name, ordered by lower-case name (ties keep search order).
pub fn groups_from_entries(entries: &Vec<Entry>) -> (r: Vec<LdapGroup>)
    ensures
        listing(r@, entries@, Seq::empty()),
{
    proof {
        reveal_strlit("");
        assert(""@ =~= Seq::<char>::empty());
    }
    list_entries(entries, "")
}

// ── group members ────────────────────────────────────────────────────────────

/// Whether `u` is the member shown for entry `e`: lock state and failed
/// logons are not shown in member lists, and a missing or unparsable
/// `userAccountControl` counts as 514.
pub open spec fn member_matches(u: LdapUser, e: Entry) -> bool {
    &&& u.dn@ == e.dn@
    &&& u.username@ == attr_spec(e, "sAMAccountName"@)
    &&& u.first_name@ == attr_spec(e, "givenName"@)
    &&& u.last_name@ == attr_spec(e, "sn"@)
    &&& u.display_name@ == attr_spec(e, "displayName"@)
    &&& u.email@ == attr_spec(e, "mail"@)
    &&& u.enabled == uac_enabled(int_attr_spec(e, "userAccountControl"@, 514))
    &&& !u.locked
    &&& u.bad_pwd_count == 0
}

/// A group member as the member list reads it.
pub struct GroupMember {
    pub user: LdapUser,
}

impl SortKey for GroupMember {
    open spec fn sort_key(&self) -> Seq<char> {
        lowercase(self.user.username@)
    }

    fn key_chars(&self) -> (k: Vec<char>) {
        let l = to_lowercase(self.user.username.as_str());
        chars_of(l.as_str())
    }
}

impl Listed for GroupMember {
    open spec fn shown(e: Entry, base: Seq<char>) -> bool {
        attr_spec(e, "sAMAccountName"@).len() > 0
    }

    open spec fn entry_key(e: Entry, base: Seq<char>) -> Seq<char> {
        lowercase(attr_spec(e, "sAMAccountName"@))
    }

    open spec fn shows(self, e: Entry, base: Seq<char>) -> bool {
        member_matches(self.user, e)
    }

    fn read(e: &Entry, base: &str) -> (r: Option<Self>) {
        let username = attr(e, "sAMAccountName");
        if username.as_str().is_empty() {
            return None;
        }
        let uac = int_attr(e, "userAccountControl", 514);
        Some(
            GroupMember {
                user: LdapUser {
                    dn: e.dn.clone(),
                    username,
                    first_name: attr(e, "givenName"),
                    last_name: attr(e, "sn"),
                    display_name: attr(e, "displayName"),
                    email: attr(e, "mail"),
                    enabled: uac_is_enabled(uac),
                    locked: false,
                    bad_pwd_count: 0,
                },
            },
        )
    }
}

/// The members of a group, from the entry found for each member DN (in
/// member order): members with a user name, ordered by lower-case user name.
pub fn members_from_entries(entries: &Vec<Entry>) -> (r: Vec<LdapUser>)
    ensures
        exists|listed: Seq<GroupMember>|
            #[trigger] listing(listed, entries@, Seq::empty()) && r@ == listed.map_values(
                |m: GroupMember| m.user,
            ),
{
    proof {
        reveal_strlit("");
        assert(""@ =~= Seq::<char>::empty());
    }
    let listed: Vec<GroupMember> = list_entries(entries, "");
    let ghost lv = listed@;
    let mut out: Vec<LdapUser> = Vec::new();
    let mut rest = listed;
    while rest.len() > 0
        invariant
            out@.len() + rest@.len() == lv.len(),
            forall|k: int| 0 <= k < out@.len() ==> #[trigger] out@[k] == lv[k].user,
            forall|k: int| 0 <= k < rest@.len() ==> #[trigger] rest@[k] == lv[out@.len() + k],
        decreases rest@.len(),
    {
        let m = rest.remove(0);
        out.push(m.user);
    }
    assert(out@ =~= lv.map_values(|m: GroupMember| m.user));
    out
}

// ── computers ────────────────────────────────────────────────────────────────

/// A computer account as listed.
pub struct LdapComputer {
    pub dn: String,
    pub name: String,
    pub sam_account: String,
    pub dns_hostname: String,
    pub os: String,
    pub os_version: String,
    pub enabled: bool,
}

impl SortKey for LdapComputer {
    open spec fn sort_key(&self) -> Seq<char> {
        lowercase(self.name@)
    }

    fn key_chars(&self) -> (k: Vec<char>) {
        let l = to_lowercase(self.name.as_str());
        chars_of(l.as_str())
    }
}

impl Listed for LdapComputer {
    open spec fn shown(e: Entry, base: Seq<char>) -> bool {
        attr_spec(e, "cn"@).len() > 0
    }

    open spec fn entry_key(e: Entry, base: Seq<char>) -> Seq<char> {
        lowercase(attr_spec(e, "cn"@))
    }

    /// A missing or unparsable `userAccountControl` counts as 4096 (an
    /// enabled workstation account).
    open spec fn shows(self, e: Entry, base: Seq<char>) -> bool {
        &&& self.dn@ == e.dn@
        &&& self.name@ == attr_spec(e, "cn"@)
        &&& self.sam_account@ == attr_spec(e, "sAMAccountName"@)
        &&& self.dns_hostname@ == attr_spec(e, "dNSHostName"@)
        &&& self.os@ == attr_spec(e, "operatingSystem"@)
        &&& self.os_version@ == attr_spec(e, "operatingSystemVersion"@)
        &&& self.enabled == uac_enabled(int_attr_spec(e, "userAccountControl"@, 4096))
    }

    fn read(e: &Entry, base: &str) -> (r: Option<Self>) {
        let name = attr(e, "cn");
        if name.as_str().is_empty() {
            return None;
        }
        let uac = int_attr(e, "userAccountControl", 4096);
        Some(
            LdapComputer {
                dn: e.dn.clone(),
                name,
                sam_account: attr(e, "sAMAccountName"),
                dns_hostname: attr(e, "dNSHostName"),
                os: attr(e, "operatingSystem"),
                os_version: attr(e, "operatingSystemVersion"),
                enabled: uac_is_enabled(uac),
            },
        )
    }
}

/// The computers of a search result, as the computer list shows them:
/// entries with a name, ordered by lower-case name (ties keep search order).
pub fn computers_from_entries(entries: &Vec<Entry>) -> (r: Vec<LdapComputer>)
    ensures
        listing(r@, entries@, Seq::empty()),
{
    proof {
        reveal_strlit("");
        assert(""@ =~= Seq::<char>::empty());
    }
    list_entries(entries, "")
}

// ── lookups ──────────────────────────────────────────────────────────────────

/// The message for a lookup that found nothing: `<kind> '<name>' not found`.
pub open spec fn not_found_text(kind: Seq<char>, name: Seq<char>) -> Seq<char> {
    kind + " '"@ + name + "' not found"@
}

/// The DN of the first entry a lookup found, or the not-found message.
pub fn first_dn(entries: &Vec<Entry>, kind: &str, name: &str) -> (r: Result<String, String>)
    ensures
        match r {
            Ok(dn) => entries@.len() > 0 && dn@ == entries@[0].dn@,
            Err(msg) => entries@.len() == 0 && msg@ == not_found_text(kind@, name@),
        },
{
    if entries.len() > 0 {
        Ok(entries[0].dn.clone())
    } else {
        let a = concat3(kind, " '", name);
        Err(concat2(a.as_str(), "' not found"))
    }
}

/// The search filter that finds a user account by its logon name.
pub fn user_lookup_filter(username: &str) -> (r: String)
    ensures
        r@ == "(&(objectClass=user)(sAMAccountName="@ + username@ + "))"@,
{
    concat3("(&(objectClass=user)(sAMAccountName=", username, "))")
}

/// The search filter that finds a group by its account name.
pub fn group_lookup_filter(name: &str) -> (r: String)
    ensures
        r@ == "(&(objectClass=group)(sAMAccountName="@ + name@ + "))"@,
{
    concat3("(&(objectClass=group)(sAMAccountName=", name, "))")
}

/// The search filter that finds a computer by its common name.
pub fn computer_lookup_filter(name: &str) -> (r: String)
    ensures
        r@ == "(&(objectClass=computer)(cn="@ + name@ + "))"@,
{
    concat3("(&(objectClass=computer)(cn=", name, "))")
}

/// The search filter that finds any object by its account name.
pub fn account_lookup_filter(sam_account: &str) -> (r: String)
    ensures
        r@ == "(sAMAccountName="@ + sam_account@ + ")"@,
{
    concat3("(sAMAccountName=", sam_account, ")")
}

/// The base DN the root DSE names, from the entries of the base search of
/// the root DSE: the first value of `defaultNamingContext` of the first
/// entry, or an error.
pub fn base_dn_from_root(entries: &Vec<Entry>) -> (r: Result<String, String>)
    ensures
        match r {
            Ok(dn) => entries@.len() > 0 && first_value(entries@[0], "defaultNamingContext"@)
                == Some(dn@),
            Err(msg) => (entries@.len() == 0 || first_value(
                entries@[0],
                "defaultNamingContext"@,
            ) is None) && msg@ == "Could not determine domain base DN from server"@,
        },
{
    if entries.len() == 0 {
        return Err(owned("Could not determine domain base DN from server"));
    }
    match attr_first(&entries[0], "defaultNamingContext") {
        Some(v) => Ok(v),
        None => Err(owned("Could not determine domain base DN from server")),
    }
}

// ── domain names ─────────────────────────────────────────────────────────────

/// The domain label of one DN component: after trimming, the text that
/// follows `dc=` or `DC=`, if the component starts so.
pub open spec fn dc_label(part: Seq<char>) -> Option<Seq<char>> {
    let p = trim_spec(part);
    if has_prefix(p, "dc="@) || has_prefix(p, "DC="@) {
        Some(p.skip(3))
    } else {
        None
    }
}

/// The domain labels of DN components, in order.
pub open spec fn dc_labels(parts: Seq<Seq<char>>) -> Seq<Seq<char>>
    decreases parts.len(),
{
    if parts.len() == 0 {
        Seq::empty()
    } else {
        let prev = dc_labels(parts.drop_last());
        match dc_label(parts.last()) {
            Some(l) => prev.push(l),
            None => prev,
        }
    }
}

/// The DNS domain of a base DN: its `dc` components joined with dots.
pub open spec fn domain_of(base_dn: Seq<char>) -> Seq<char> {
    join_spec(dc_labels(split_spec(base_dn, ',')), "."@)
}

/// The DNS domain of a base DN (`DC=corp,DC=example,DC=com` gives
/// `corp.example.com`).
pub fn base_dn_to_domain(base_dn: &str) -> (r: String)
    ensures
        r@ == domain_of(base_dn@),
{
    proof {
        reveal_strlit("dc=");
        reveal_strlit("DC=");
    }
    let c = chars_of(base_dn);
    let parts = split_chars(&c, ',');
    let lower = chars_of("dc=");
    let upper = chars_of("DC=");
    let mut labels: Vec<String> = Vec::new();
    let mut i: usize = 0;
    while i < parts.len()
        invariant
            i <= parts@.len(),
            lower@ == "dc="@,
            upper@ == "DC="@,
            "dc="@.len() == 3,
            "DC="@.len() == 3,
            labels.deep_view() == dc_labels(parts.deep_view().take(i as int)),
        decreases parts@.len() - i,
    {
        assert(parts.deep_view().take(i + 1).drop_last() =~= parts.deep_view().take(i as int));
        assert(parts.deep_view().take(i + 1).last() == parts@[i as int]@);
        let p = trim_chars(&parts[i]);
        if starts_with(&p, &lower) || starts_with(&p, &upper) {
            let rest = skip_chars(&p, 3);
            let ghost before = labels.deep_view();
            labels.push(string_of(&rest));
            assert(labels.deep_view() =~= before.push(rest@));
        }
        i += 1;
    }
    assert(parts.deep_view().take(i as int) =~= parts.deep_view());
    join_strings(&labels, ".")
}

} // verus!
