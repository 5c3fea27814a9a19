//! The directory changes the management views make: the entries they add and
//! the modifications they apply, as attribute names and raw values.

use vstd::prelude::*;
use vstd::utf8::*;
use crate::text::{
    chars_of, concat2, concat3, dec_signed_spec, decimal_signed, lemma_parse_dec_signed, owned,
    parse_int_spec, string_of, trim_chars, trim_spec,
};
use crate::encoding::{encode_password, password_value, sv};
use crate::directory::{
    Entry, LdapComputer, LdapUser, Listed, attr_spec, domain_of, base_dn_to_domain,
    int_attr_spec, group_type_text, uac_enabled, user_matches,
};

verus! {

broadcast use vstd::string::group_string_axioms;

// ── modifications ────────────────────────────────────────────────────────────

/// How a modification changes an attribute.
#[derive(Clone, Copy, Debug, PartialEq, Eq)]
pub enum ModOp {
    /// Adds the values.
    Add,
    /// Removes the values (all values when none are given).
    Delete,
    /// Replaces all values with the given ones.
    Replace,
}

/// One change to one attribute of an entry.
#[derive(Debug)]
pub struct Modification {
    pub op: ModOp,
    pub attr: Vec<u8>,
    pub values: Vec<Vec<u8>>,
}

/// An entry to add: its DN and its attributes with their values.
#[derive(Debug)]
pub struct NewEntry {
    pub dn: String,
    pub attrs: Vec<(Vec<u8>, Vec<Vec<u8>>)>,
}

/// An attribute as name bytes and value bytes.
pub open spec fn attr_view(a: (Vec<u8>, Vec<Vec<u8>>)) -> (Seq<u8>, Seq<Seq<u8>>) {
    (a.0@, a.1.deep_view())
}

/// The attributes of an entry to add.
pub open spec fn attrs_view(attrs: Seq<(Vec<u8>, Vec<Vec<u8>>)>) -> Seq<(Seq<u8>, Seq<Seq<u8>>)> {
    attrs.map_values(|a: (Vec<u8>, Vec<Vec<u8>>)| attr_view(a))
}

/// A text attribute: its name and values in UTF-8.
pub open spec fn text_attr(name: Seq<char>, values: Seq<Seq<char>>) -> (Seq<u8>, Seq<Seq<u8>>) {
    (encode_utf8(name), values.map_values(|v: Seq<char>| encode_utf8(v)))
}

/// A text attribute with one value, or nothing when the value is empty.
pub open spec fn optional_attr(name: Seq<char>, value: Seq<char>) -> Seq<(Seq<u8>, Seq<Seq<u8>>)> {
    if value.len() == 0 {
        Seq::empty()
    } else {
        seq![text_attr(name, seq![value])]
    }
}

/// A modification as operation, attribute bytes and value bytes.
pub open spec fn mod_view(m: Modification) -> (ModOp, Seq<u8>, Seq<Seq<u8>>) {
    (m.op, m.attr@, m.values.deep_view())
}

/// A list of modifications.
pub open spec fn mods_view(ms: Seq<Modification>) -> Seq<(ModOp, Seq<u8>, Seq<Seq<u8>>)> {
    ms.map_values(|m: Modification| mod_view(m))
}

/// Whether no attribute of an entry to add repeats a value: each attribute
/// holds a set of values, as the directory keeps them.
pub open spec fn values_distinct(attrs: Seq<(Seq<u8>, Seq<Seq<u8>>)>) -> bool {
    forall|i: int| 0 <= i < attrs.len() ==> (#[trigger] attrs[i]).1.no_duplicates()
}

/// Whether no modification repeats a value: each carries a set of values.
pub open spec fn mod_values_distinct(ms: Seq<(ModOp, Seq<u8>, Seq<Seq<u8>>)>) -> bool {
    forall|i: int| 0 <= i < ms.len() ==> (#[trigger] ms[i]).2.no_duplicates()
}

/// Different texts have different UTF-8 bytes, so distinct text values stay
/// distinct once encoded.
pub proof fn lemma_encoded_distinct(values: Seq<Seq<char>>)
    requires
        values.no_duplicates(),
    ensures
        values.map_values(|v: Seq<char>| encode_utf8(v)).no_duplicates(),
{
    broadcast use encode_utf8_decode_utf8;

    let enc = values.map_values(|v: Seq<char>| encode_utf8(v));
    assert forall|i: int, j: int| 0 <= i < enc.len() && 0 <= j < enc.len() && i != j implies enc[i]
        != enc[j] by {
        if enc[i] == enc[j] {
            assert(decode_utf8(encode_utf8(values[i])) == values[i]);
            assert(decode_utf8(encode_utf8(values[j])) == values[j]);
        }
    }
}

/// The object classes the planners give new entries name each class once.
pub(crate) proof fn lemma_object_classes_distinct()
    ensures
        seq!["top"@, "person"@, "organizationalPerson"@, "user"@].no_duplicates(),
        seq!["top"@, "group"@].no_duplicates(),
        seq!["top"@, "organizationalUnit"@].no_duplicates(),
        seq!["top"@, "container"@, "groupPolicyContainer"@].no_duplicates(),
        seq!["top"@, "dnsNode"@].no_duplicates(),
{
    reveal_strlit("top");
    reveal_strlit("person");
    reveal_strlit("organizationalPerson");
    reveal_strlit("user");
    reveal_strlit("group");
    reveal_strlit("organizationalUnit");
    reveal_strlit("container");
    reveal_strlit("groupPolicyContainer");
    reveal_strlit("dnsNode");
    let u = seq!["top"@, "person"@, "organizationalPerson"@, "user"@];
    assert forall|i: int, j: int| 0 <= i < u.len() && 0 <= j < u.len() && i != j implies u[i]
        != u[j] by {
        assert(u[i].len() != u[j].len());
    }
    let g = seq!["top"@, "container"@, "groupPolicyContainer"@];
    assert forall|i: int, j: int| 0 <= i < g.len() && 0 <= j < g.len() && i != j implies g[i]
        != g[j] by {
        assert(g[i].len() != g[j].len());
    }
    assert("top"@.len() != "group"@.len());
    assert("top"@.len() != "organizationalUnit"@.len());
    assert("top"@.len() != "dnsNode"@.len());
}

/// A modification of a text attribute.
pub open spec fn text_mod(op: ModOp, name: Seq<char>, values: Seq<Seq<char>>) -> (
    ModOp,
    Seq<u8>,
    Seq<Seq<u8>>,
) {
    (op, encode_utf8(name), values.map_values(|v: Seq<char>| encode_utf8(v)))
}

/// The UTF-8 bytes of each text value.
pub fn text_values(values: &Vec<String>) -> (r: Vec<Vec<u8>>)
    ensures
        r.deep_view() == values.deep_view().map_values(|v: Seq<char>| encode_utf8(v)),
{
    let mut r: Vec<Vec<u8>> = Vec::new();
    let mut i: usize = 0;
    while i < values.len()
        invariant
            i <= values@.len(),
            r.deep_view() == values.deep_view().take(i as int).map_values(
                |v: Seq<char>| encode_utf8(v),
            ),
        decreases values@.len() - i,
    {
        let b = sv(values[i].as_str());
        let ghost before = r.deep_view();
        assert(b.deep_view() =~= b@);
        r.push(b);
        i += 1;
        assert(r.deep_view() =~= before.push(b@));
        assert(r.deep_view() =~= values.deep_view().take(i as int).map_values(
            |v: Seq<char>| encode_utf8(v),
        ));
    }
    assert(values.deep_view().take(i as int) =~= values.deep_view());
    r
}

/// One text value.
fn one_value(v: &str) -> (r: Vec<Vec<u8>>)
    ensures
        r.deep_view() == seq![encode_utf8(v@)],
{
    let mut r: Vec<Vec<u8>> = Vec::new();
    let b = sv(v);
    assert(b.deep_view() =~= b@);
    r.push(b);
    assert(r.deep_view() =~= seq![encode_utf8(v@)]);
    r
}

/// A text attribute with one value.
pub(crate) fn attr_one(name: &str, value: &str) -> (r: (Vec<u8>, Vec<Vec<u8>>))
    ensures
        attr_view(r) == text_attr(name@, seq![value@]),
        attr_view(r).1.no_duplicates(),
{
    let r = (sv(name), one_value(value));
    assert(attr_view(r).1 =~= text_attr(name@, seq![value@]).1);
    r
}

/// A text attribute with several values.
pub(crate) fn attr_many(name: &str, values: &Vec<String>) -> (r: (Vec<u8>, Vec<Vec<u8>>))
    requires
        values.deep_view().no_duplicates(),
    ensures
        attr_view(r) == text_attr(name@, values.deep_view()),
        attr_view(r).1.no_duplicates(),
{
    proof {
        lemma_encoded_distinct(values.deep_view());
    }
    (sv(name), text_values(values))
}

/// Appends a one-valued text attribute unless the value is empty.
pub(crate) fn push_optional(attrs: &mut Vec<(Vec<u8>, Vec<Vec<u8>>)>, name: &str, value: &str)
    ensures
        attrs_view(final(attrs)@) == attrs_view(old(attrs)@) + optional_attr(name@, value@),
        values_distinct(attrs_view(old(attrs)@)) ==> values_distinct(attrs_view(final(attrs)@)),
{
    let ghost before = attrs_view(attrs@);
    if !value.is_empty() {
        let a = attr_one(name, value);
        attrs.push(a);
        assert(attrs_view(attrs@) =~= before + optional_attr(name@, value@));
    } else {
        assert(attrs_view(attrs@) =~= before + optional_attr(name@, value@));
    }
}

/// A modification of a text attribute with one value.
pub fn mod_one(op: ModOp, name: &str, value: &str) -> (r: Modification)
    ensures
        mod_view(r) == text_mod(op, name@, seq![value@]),
        mod_view(r).2.no_duplicates(),
{
    let r = Modification { op, attr: sv(name), values: one_value(value) };
    assert(mod_view(r).2 =~= text_mod(op, name@, seq![value@]).2);
    r
}

/// A modification of an attribute with no values.
pub fn mod_none(op: ModOp, name: &str) -> (r: Modification)
    ensures
        mod_view(r) == text_mod(op, name@, Seq::empty()),
        mod_view(r).2.no_duplicates(),
{
    let r = Modification { op, attr: sv(name), values: Vec::new() };
    assert(mod_view(r).2 =~= text_mod(op, name@, Seq::empty()).2);
    r
}

/// A list of one modification.
pub(crate) fn single(m: Modification) -> (r: Vec<Modification>)
    ensures
        mods_view(r@) == seq![mod_view(m)],
        mod_view(m).2.no_duplicates() ==> mod_values_distinct(mods_view(r@)),
{
    let mut r: Vec<Modification> = Vec::new();
    r.push(m);
    assert(mods_view(r@) =~= seq![mod_view(m)]);
    r
}

/// Builds a list of text strings.
pub(crate) fn strings2(a: &str, b: &str) -> (r: Vec<String>)
    ensures
        r.deep_view() == seq![a@, b@],
{
    let mut r: Vec<String> = Vec::new();
    r.push(owned(a));
    r.push(owned(b));
    assert(r.deep_view() =~= seq![a@, b@]);
    r
}

// ── users ────────────────────────────────────────────────────────────────────

/// The fields of a new user account.
pub struct NewUser<'a> {
    pub username: &'a str,
    pub first_name: &'a str,
    pub last_name: &'a str,
    pub email: &'a str,
    pub password: &'a str,
}

/// The changes to an existing user account.
pub struct UserUpdate<'a> {
    pub first_name: &'a str,
    pub last_name: &'a str,
    pub email: &'a str,
    pub password: &'a str,
}

/// The display name of a person: first and last name, space-separated,
/// trimmed.
pub open spec fn display_name_of(first: Seq<char>, last: Seq<char>) -> Seq<char> {
    trim_spec(first + " "@ + last)
}

/// The common name of a new user: the display name, or the logon name when
/// the display name is empty.
pub open spec fn user_cn(username: Seq<char>, first: Seq<char>, last: Seq<char>) -> Seq<char> {
    let display = display_name_of(first, last);
    if display.len() == 0 {
        username
    } else {
        display
    }
}

/// The steps that create a user: add the entry (disabled), set its
/// password, then enable it.
pub struct UserCreation {
    pub entry: NewEntry,
    pub set_password: Vec<Modification>,
    pub enable: Vec<Modification>,
}

/// The attributes of a new user entry.
pub open spec fn new_user_attrs(
    username: Seq<char>,
    first: Seq<char>,
    last: Seq<char>,
    email: Seq<char>,
    base_dn: Seq<char>,
) -> Seq<(Seq<u8>, Seq<Seq<u8>>)> {
    let display = display_name_of(first, last);
    seq![
        text_attr("objectClass"@, seq!["top"@, "person"@, "organizationalPerson"@, "user"@]),
        text_attr("cn"@, seq![user_cn(username, first, last)]),
        text_attr("sAMAccountName"@, seq![username]),
        text_attr("userPrincipalName"@, seq![username + "@"@ + domain_of(base_dn)]),
        text_attr("userAccountControl"@, seq!["514"@]),
    ] + optional_attr("givenName"@, first) + optional_attr("sn"@, last) + optional_attr(
        "displayName"@,
        display,
    ) + optional_attr("mail"@, email)
}

/// The modification that sets a password (`unicodePwd`).
pub open spec fn password_mod(password: Seq<char>) -> (ModOp, Seq<u8>, Seq<Seq<u8>>) {
    (ModOp::Replace, encode_utf8("unicodePwd"@), seq![password_value(password)])
}

/// The display name for the given first and last names.
fn display_name(first: &str, last: &str) -> (r: String)
    ensures
        r@ == display_name_of(first@, last@),
{
    let joined = concat3(first, " ", last);
    let c = chars_of(joined.as_str());
    let t = trim_chars(&c);
    string_of(&t)
}

/// The `unicodePwd` replacement for a password.
fn password_change(password: &str) -> (r: Modification)
    ensures
        mod_view(r) == password_mod(password@),
        mod_view(r).2.no_duplicates(),
{
    let mut values: Vec<Vec<u8>> = Vec::new();
    let b = encode_password(password);
    assert(b.deep_view() =~= b@);
    values.push(b);
    let r = Modification { op: ModOp::Replace, attr: sv("unicodePwd"), values };
    assert(mod_view(r).2 =~= password_mod(password@).2);
    r
}

/// The changes that create a user below `CN=Users` of the domain: the entry
/// is added disabled (514), then the password is set, then the account is
/// enabled (512).
pub fn plan_create_user(base_dn: &str, u: &NewUser) -> (r: UserCreation)
    ensures
        r.entry.dn@ == "CN="@ + user_cn(u.username@, u.first_name@, u.last_name@) + ",CN=Users,"@
            + base_dn@,
        attrs_view(r.entry.attrs@) == new_user_attrs(
            u.username@,
            u.first_name@,
            u.last_name@,
            u.email@,
            base_dn@,
        ),
        mods_view(r.set_password@) == seq![password_mod(u.password@)],
        mods_view(r.enable@) == seq![text_mod(ModOp::Replace, "userAccountControl"@, seq!["512"@])],
        values_distinct(attrs_view(r.entry.attrs@)),
        mod_values_distinct(mods_view(r.set_password@)),
        mod_values_distinct(mods_view(r.enable@)),
{
    let display = display_name(u.first_name, u.last_name);
    let cn = if display.as_str().is_empty() {
        owned(u.username)
    } else {
        owned(display.as_str())
    };
    let domain = base_dn_to_domain(base_dn);
    let upn = concat3(u.username, "@", domain.as_str());
    let head = concat3("CN=", cn.as_str(), ",CN=Users,");
    let dn = concat2(head.as_str(), base_dn);

    let mut classes: Vec<String> = Vec::new();
    classes.push(owned("top"));
    classes.push(owned("person"));
    classes.push(owned("organizationalPerson"));
    classes.push(owned("user"));
    assert(classes.deep_view() =~= seq!["top"@, "person"@, "organizationalPerson"@, "user"@]);
    proof {
        lemma_object_classes_distinct();
    }

    let mut attrs: Vec<(Vec<u8>, Vec<Vec<u8>>)> = Vec::new();
    attrs.push(attr_many("objectClass", &classes));
    attrs.push(attr_one("cn", cn.as_str()));
    attrs.push(attr_one("sAMAccountName", u.username));
    attrs.push(attr_one("userPrincipalName", upn.as_str()));
    attrs.push(attr_one("userAccountControl", "514"));
    let ghost fixed = attrs_view(attrs@);
    assert(fixed =~= seq![
        text_attr("objectClass"@, seq!["top"@, "person"@, "organizationalPerson"@, "user"@]),
        text_attr("cn"@, seq![user_cn(u.username@, u.first_name@, u.last_name@)]),
        text_attr("sAMAccountName"@, seq![u.username@]),
        text_attr("userPrincipalName"@, seq![u.username@ + "@"@ + domain_of(base_dn@)]),
        text_attr("userAccountControl"@, seq!["514"@]),
    ]);
    push_optional(&mut attrs, "givenName", u.first_name);
    push_optional(&mut attrs, "sn", u.last_name);
    push_optional(&mut attrs, "displayName", display.as_str());
    push_optional(&mut attrs, "mail", u.email);
    let r = UserCreation {
        entry: NewEntry { dn, attrs },
        set_password: single(password_change(u.password)),
        enable: single(mod_one(ModOp::Replace, "userAccountControl", "512")),
    };
    assert(attrs_view(r.entry.attrs@) =~= new_user_attrs(
        u.username@,
        u.first_name@,
        u.last_name@,
        u.email@,
        base_dn@,
    ));
    r
}

/// The changes to a user's names and mail, and to the password when one is
/// given.
pub open spec fn user_update_view(
    first: Seq<char>,
    last: Seq<char>,
    email: Seq<char>,
    password: Seq<char>,
) -> Seq<(ModOp, Seq<u8>, Seq<Seq<u8>>)> {
    seq![
        text_mod(ModOp::Replace, "givenName"@, seq![first]),
        text_mod(ModOp::Replace, "sn"@, seq![last]),
        text_mod(ModOp::Replace, "displayName"@, seq![display_name_of(first, last)]),
        text_mod(ModOp::Replace, "mail"@, seq![email]),
    ] + if password.len() == 0 {
        Seq::empty()
    } else {
        seq![password_mod(password)]
    }
}

/// The modifications that update a user: names, display name and mail are
/// replaced; the password only when a new one is given.
pub fn plan_update_user(u: &UserUpdate) -> (r: Vec<Modification>)
    ensures
        mods_view(r@) == user_update_view(u.first_name@, u.last_name@, u.email@, u.password@),
        mod_values_distinct(mods_view(r@)),
{
    let display = display_name(u.first_name, u.last_name);
    let mut mods: Vec<Modification> = Vec::new();
    mods.push(mod_one(ModOp::Replace, "givenName", u.first_name));
    mods.push(mod_one(ModOp::Replace, "sn", u.last_name));
    mods.push(mod_one(ModOp::Replace, "displayName", display.as_str()));
    mods.push(mod_one(ModOp::Replace, "mail", u.email));
    if !u.password.is_empty() {
        mods.push(password_change(u.password));
    }
    assert(mods_view(mods@) =~= user_update_view(
        u.first_name@,
        u.last_name@,
        u.email@,
        u.password@,
    ));
    mods
}

/// The `userAccountControl` value that enables (512) or disables (514) a
/// normal user account.
pub open spec fn user_uac_text(enable: bool) -> Seq<char> {
    if enable {
        "512"@
    } else {
        "514"@
    }
}

/// The modification that enables or disables a user account.
pub fn plan_set_user_enabled(enable: bool) -> (r: Vec<Modification>)
    ensures
        mods_view(r@) == seq![
            text_mod(ModOp::Replace, "userAccountControl"@, seq![user_uac_text(enable)]),
        ],
        mod_values_distinct(mods_view(r@)),
{
    let uac = if enable {
        "512"
    } else {
        "514"
    };
    single(mod_one(ModOp::Replace, "userAccountControl", uac))
}

/// The `pwdLastSet` value after a reset: 0 makes the user change the
/// password at next logon, -1 marks it freshly set.
pub open spec fn pwd_last_set_text(force_change: bool) -> Seq<char> {
    if force_change {
        "0"@
    } else {
        "-1"@
    }
}

/// The modifications that reset a user's password.
pub fn plan_reset_password(new_password: &str, force_change: bool) -> (r: Vec<Modification>)
    ensures
        mods_view(r@) == seq![
            password_mod(new_password@),
            text_mod(ModOp::Replace, "pwdLastSet"@, seq![pwd_last_set_text(force_change)]),
        ],
        mod_values_distinct(mods_view(r@)),
{
    let pls = if force_change {
        "0"
    } else {
        "-1"
    };
    let mut mods: Vec<Modification> = Vec::new();
    mods.push(password_change(new_password));
    mods.push(mod_one(ModOp::Replace, "pwdLastSet", pls));
    assert(mods_view(mods@) =~= seq![
        password_mod(new_password@),
        text_mod(ModOp::Replace, "pwdLastSet"@, seq![pwd_last_set_text(force_change)]),
    ]);
    mods
}

/// The modification that clears an account lockout.
pub fn plan_unlock_user() -> (r: Vec<Modification>)
    ensures
        mods_view(r@) == seq![text_mod(ModOp::Replace, "lockoutTime"@, seq!["0"@])],
        mod_values_distinct(mods_view(r@)),
{
    single(mod_one(ModOp::Replace, "lockoutTime", "0"))
}

// ── groups ───────────────────────────────────────────────────────────────────

/// The fields of a new group.
pub struct NewGroup<'a> {
    pub name: &'a str,
    pub description: &'a str,
    pub group_type: i64,
}

/// The changes to an existing group.
pub struct GroupUpdate<'a> {
    pub description: &'a str,
}

/// The attributes of a new group entry.
pub open spec fn new_group_attrs(name: Seq<char>, description: Seq<char>, group_type: i64) -> Seq<
    (Seq<u8>, Seq<Seq<u8>>),
> {
    seq![
        text_attr("objectClass"@, seq!["top"@, "group"@]),
        text_attr("cn"@, seq![name]),
        text_attr("sAMAccountName"@, seq![name]),
        text_attr("groupType"@, seq![dec_signed_spec(group_type as int)]),
    ] + optional_attr("description"@, description)
}

/// The entry that creates a group below `CN=Users` of the domain.
pub fn plan_create_group(base_dn: &str, g: &NewGroup) -> (r: NewEntry)
    ensures
        r.dn@ == "CN="@ + g.name@ + ",CN=Users,"@ + base_dn@,
        attrs_view(r.attrs@) == new_group_attrs(g.name@, g.description@, g.group_type),
        values_distinct(attrs_view(r.attrs@)),
{
    let head = concat3("CN=", g.name, ",CN=Users,");
    let dn = concat2(head.as_str(), base_dn);
    let gt = decimal_signed(g.group_type);
    let classes = strings2("top", "group");
    proof {
        lemma_object_classes_distinct();
    }
    let mut attrs: Vec<(Vec<u8>, Vec<Vec<u8>>)> = Vec::new();
    attrs.push(attr_many("objectClass", &classes));
    attrs.push(attr_one("cn", g.name));
    attrs.push(attr_one("sAMAccountName", g.name));
    attrs.push(attr_one("groupType", gt.as_str()));
    push_optional(&mut attrs, "description", g.description);
    assert(attrs_view(attrs@) =~= new_group_attrs(g.name@, g.description@, g.group_type));
    NewEntry { dn, attrs }
}

/// The modification that sets a group's description; an empty description
/// removes the attribute.
pub fn plan_update_group(g: &GroupUpdate) -> (r: Vec<Modification>)
    ensures
        mods_view(r@) == if g.description@.len() == 0 {
            seq![text_mod(ModOp::Delete, "description"@, Seq::empty())]
        } else {
            seq![text_mod(ModOp::Replace, "description"@, seq![g.description@])]
        },
        mod_values_distinct(mods_view(r@)),
{
    if g.description.is_empty() {
        single(mod_none(ModOp::Delete, "description"))
    } else {
        single(mod_one(ModOp::Replace, "description", g.description))
    }
}

/// The modification that adds (`add`) or removes a member DN of a group.
pub fn plan_member_change(user_dn: &str, add: bool) -> (r: Vec<Modification>)
    ensures
        mods_view(r@) == seq![
            text_mod(if add { ModOp::Add } else { ModOp::Delete }, "member"@, seq![user_dn@]),
        ],
        mod_values_distinct(mods_view(r@)),
{
    let op = if add {
        ModOp::Add
    } else {
        ModOp::Delete
    };
    single(mod_one(op, "member", user_dn))
}

// ── computers ────────────────────────────────────────────────────────────────

/// The `userAccountControl` value of an enabled (4096) or disabled (4098)
/// workstation account.
pub open spec fn computer_uac_text(enable: bool) -> Seq<char> {
    if enable {
        "4096"@
    } else {
        "4098"@
    }
}

/// The modification that enables or disables a computer account.
pub fn plan_set_computer_enabled(enable: bool) -> (r: Vec<Modification>)
    ensures
        mods_view(r@) == seq![
            text_mod(ModOp::Replace, "userAccountControl"@, seq![computer_uac_text(enable)]),
        ],
        mod_values_distinct(mods_view(r@)),
{
    let uac = if enable {
        "4096"
    } else {
        "4098"
    };
    single(mod_one(ModOp::Replace, "userAccountControl", uac))
}

// ── organizational units ─────────────────────────────────────────────────────

/// The entry that creates an organizational unit below `parent_dn`.
pub fn plan_create_ou(parent_dn: &str, name: &str, description: &str) -> (r: NewEntry)
    ensures
        r.dn@ == "OU="@ + name@ + ","@ + parent_dn@,
        attrs_view(r.attrs@) == seq![
            text_attr("objectClass"@, seq!["top"@, "organizationalUnit"@]),
            text_attr("ou"@, seq![name@]),
        ] + optional_attr("description"@, description@),
        values_distinct(attrs_view(r.attrs@)),
{
    let dn = concat3("OU=", name, ",");
    let dn = concat2(dn.as_str(), parent_dn);
    let classes = strings2("top", "organizationalUnit");
    proof {
        lemma_object_classes_distinct();
    }
    let mut attrs: Vec<(Vec<u8>, Vec<Vec<u8>>)> = Vec::new();
    attrs.push(attr_many("objectClass", &classes));
    attrs.push(attr_one("ou", name));
    let ghost fixed = attrs_view(attrs@);
    assert(fixed =~= seq![
        text_attr("objectClass"@, seq!["top"@, "organizationalUnit"@]),
        text_attr("ou"@, seq![name@]),
    ]);
    push_optional(&mut attrs, "description", description);
    NewEntry { dn, attrs }
}

/// The new RDN of a renamed organizational unit.
pub fn ou_rename_rdn(new_name: &str) -> (r: String)
    ensures
        r@ == "OU="@ + new_name@,
{
    concat2("OU=", new_name)
}

// ── laws ─────────────────────────────────────────────────────────────────────

/// Decimal text of a small literal value.
proof fn lemma_literal_values()
    ensures
        "512"@ == dec_signed_spec(512),
        "514"@ == dec_signed_spec(514),
        "4096"@ == dec_signed_spec(4096),
        "4098"@ == dec_signed_spec(4098),
{
    reveal_strlit("512");
    reveal_strlit("514");
    reveal_strlit("4096");
    reveal_strlit("4098");
    reveal_with_fuel(crate::text::dec_spec, 5);
    assert("512"@ =~= dec_signed_spec(512));
    assert("514"@ =~= dec_signed_spec(514));
    assert("4096"@ =~= dec_signed_spec(4096));
    assert("4098"@ =~= dec_signed_spec(4098));
}

/// A user account whose state was last set with `enable` is listed as
/// enabled exactly when `enable` was given.
pub proof fn lemma_user_state_read_back(enable: bool, e: Entry, u: LdapUser)
    requires
        attr_spec(e, "userAccountControl"@) == user_uac_text(enable),
        u.shows(e, Seq::empty()),
    ensures
        u.enabled == enable,
{
    lemma_literal_values();
    lemma_parse_dec_signed(512, i64::MIN as int, i64::MAX as int);
    lemma_parse_dec_signed(514, i64::MIN as int, i64::MAX as int);
    assert(512i64 & 2 == 0) by (bit_vector);
    assert(514i64 & 2 == 2) by (bit_vector);
}

/// A user account just created (added disabled, then enabled) is listed as
/// enabled.
pub proof fn lemma_new_user_listed_enabled(e: Entry, u: LdapUser)
    requires
        attr_spec(e, "userAccountControl"@) == "512"@,
        u.shows(e, Seq::empty()),
    ensures
        u.enabled,
{
    lemma_user_state_read_back(true, e, u);
}

/// A computer account whose state was last set with `enable` is listed as
/// enabled exactly when `enable` was given.
pub proof fn lemma_computer_state_read_back(enable: bool, e: Entry, c: LdapComputer)
    requires
        attr_spec(e, "userAccountControl"@) == computer_uac_text(enable),
        c.shows(e, Seq::empty()),
    ensures
        c.enabled == enable,
{
    lemma_literal_values();
    lemma_parse_dec_signed(4096, i64::MIN as int, i64::MAX as int);
    lemma_parse_dec_signed(4098, i64::MIN as int, i64::MAX as int);
    assert(4096i64 & 2 == 0) by (bit_vector);
    assert(4098i64 & 2 == 2) by (bit_vector);
}

/// A group is listed with the type it was created with, and that type's
/// label.
pub proof fn lemma_group_type_read_back(group_type: i64, e: Entry)
    requires
        attr_spec(e, "groupType"@) == dec_signed_spec(group_type as int),
    ensures
        int_attr_spec(e, "groupType"@, 0) == group_type,
        group_type_text(int_attr_spec(e, "groupType"@, 0)) == group_type_text(group_type),
{
    lemma_parse_dec_signed(group_type as int, i64::MIN as int, i64::MAX as int);
}

// ── reading back a new user ──────────────────────────────────────────────────

/// An entry's attributes as text names and values.
pub open spec fn text_attrs(e: Entry) -> Seq<(Seq<char>, Seq<Seq<char>>)> {
    e.attrs@.map_values(|a: (String, Vec<String>)| (a.0@, a.1.deep_view()))
}

/// The values of the first text attribute named `key`.
pub open spec fn text_lookup(attrs: Seq<(Seq<char>, Seq<Seq<char>>)>, key: Seq<char>) -> Option<
    Seq<Seq<char>>,
>
    decreases attrs.len(),
{
    if attrs.len() == 0 {
        None
    } else if attrs[0].0 == key {
        Some(attrs[0].1)
    } else {
        text_lookup(attrs.drop_first(), key)
    }
}

/// A one-valued text attribute, or nothing when the value is empty.
pub open spec fn optional_text(name: Seq<char>, value: Seq<char>) -> Seq<
    (Seq<char>, Seq<Seq<char>>),
> {
    if value.len() == 0 {
        Seq::empty()
    } else {
        seq![(name, seq![value])]
    }
}

/// The attributes of a new user entry, as text.
pub open spec fn new_user_text(
    username: Seq<char>,
    first: Seq<char>,
    last: Seq<char>,
    email: Seq<char>,
    base_dn: Seq<char>,
) -> Seq<(Seq<char>, Seq<Seq<char>>)> {
    new_user_fixed(username, first, last, base_dn) + optional_text("givenName"@, first)
        + optional_text("sn"@, last) + optional_text(
        "displayName"@,
        display_name_of(first, last),
    ) + optional_text("mail"@, email)
}

/// The attributes written for a new user are the UTF-8 form of its text
/// attributes.
pub proof fn lemma_new_user_attrs_text(
    username: Seq<char>,
    first: Seq<char>,
    last: Seq<char>,
    email: Seq<char>,
    base_dn: Seq<char>,
)
    ensures
        new_user_attrs(username, first, last, email, base_dn) == new_user_text(
            username,
            first,
            last,
            email,
            base_dn,
        ).map_values(|a: (Seq<char>, Seq<Seq<char>>)| text_attr(a.0, a.1)),
{
    let f = |a: (Seq<char>, Seq<Seq<char>>)| text_attr(a.0, a.1);
    let fixed = new_user_fixed(username, first, last, base_dn);
    let o1 = optional_text("givenName"@, first);
    let o2 = optional_text("sn"@, last);
    let o3 = optional_text("displayName"@, display_name_of(first, last));
    let o4 = optional_text("mail"@, email);
    assert(o1.map_values(f) =~= optional_attr("givenName"@, first));
    assert(o2.map_values(f) =~= optional_attr("sn"@, last));
    assert(o3.map_values(f) =~= optional_attr("displayName"@, display_name_of(first, last)));
    assert(o4.map_values(f) =~= optional_attr("mail"@, email));
    assert(fixed.map_values(f) =~= seq![
        text_attr("objectClass"@, seq!["top"@, "person"@, "organizationalPerson"@, "user"@]),
        text_attr("cn"@, seq![user_cn(username, first, last)]),
        text_attr("sAMAccountName"@, seq![username]),
        text_attr("userPrincipalName"@, seq![username + "@"@ + domain_of(base_dn)]),
        text_attr("userAccountControl"@, seq!["514"@]),
    ]);
    assert((fixed + o1 + o2 + o3 + o4).map_values(f) =~= fixed.map_values(f) + o1.map_values(f)
        + o2.map_values(f) + o3.map_values(f) + o4.map_values(f));
}

proof fn lemma_lookup_entry(attrs: Seq<(String, Vec<String>)>, key: Seq<char>)
    ensures
        crate::directory::attr_values(attrs, key) == text_lookup(
            attrs.map_values(|a: (String, Vec<String>)| (a.0@, a.1.deep_view())),
            key,
        ),
    decreases attrs.len(),
{
    let f = |a: (String, Vec<String>)| (a.0@, a.1.deep_view());
    if attrs.len() > 0 {
        lemma_lookup_entry(attrs.drop_first(), key);
        assert(attrs.map_values(f).drop_first() =~= attrs.drop_first().map_values(f));
    }
}

proof fn lemma_lookup_concat(
    a: Seq<(Seq<char>, Seq<Seq<char>>)>,
    b: Seq<(Seq<char>, Seq<Seq<char>>)>,
    key: Seq<char>,
)
    ensures
        text_lookup(a + b, key) == match text_lookup(a, key) {
            Some(v) => Some(v),
            None => text_lookup(b, key),
        },
    decreases a.len(),
{
    if a.len() > 0 {
        assert((a + b).drop_first() =~= a.drop_first() + b);
        lemma_lookup_concat(a.drop_first(), b, key);
    } else {
        assert(a + b =~= b);
    }
}

/// The first value of `key` among text attributes, or the empty text.
pub open spec fn text_first(attrs: Seq<(Seq<char>, Seq<Seq<char>>)>, key: Seq<char>) -> Seq<char> {
    match text_lookup(attrs, key) {
        Some(v) => if v.len() > 0 {
            v[0]
        } else {
            Seq::empty()
        },
        None => Seq::empty(),
    }
}

/// The fixed attributes of a new user entry.
pub open spec fn new_user_fixed(
    username: Seq<char>,
    first: Seq<char>,
    last: Seq<char>,
    base_dn: Seq<char>,
) -> Seq<(Seq<char>, Seq<Seq<char>>)> {
    seq![
        ("objectClass"@, seq!["top"@, "person"@, "organizationalPerson"@, "user"@]),
        ("cn"@, seq![user_cn(username, first, last)]),
        ("sAMAccountName"@, seq![username]),
        ("userPrincipalName"@, seq![username + "@"@ + domain_of(base_dn)]),
        ("userAccountControl"@, seq!["514"@]),
    ]
}

proof fn lemma_lookup_parts(
    username: Seq<char>,
    first: Seq<char>,
    last: Seq<char>,
    email: Seq<char>,
    base_dn: Seq<char>,
    k: Seq<char>,
)
    ensures
        text_lookup(new_user_text(username, first, last, email, base_dn), k) == match text_lookup(
            new_user_fixed(username, first, last, base_dn),
            k,
        ) {
            Some(v) => Some(v),
            None => match text_lookup(optional_text("givenName"@, first), k) {
                Some(v) => Some(v),
                None => match text_lookup(optional_text("sn"@, last), k) {
                    Some(v) => Some(v),
                    None => match text_lookup(
                        optional_text("displayName"@, display_name_of(first, last)),
                        k,
                    ) {
                        Some(v) => Some(v),
                        None => text_lookup(optional_text("mail"@, email), k),
                    },
                },
            },
        },
{
    let fixed = new_user_fixed(username, first, last, base_dn);
    let o1 = optional_text("givenName"@, first);
    let o2 = optional_text("sn"@, last);
    let o3 = optional_text("displayName"@, display_name_of(first, last));
    let o4 = optional_text("mail"@, email);
    assert(new_user_text(username, first, last, email, base_dn) == fixed + o1 + o2 + o3 + o4);
    lemma_lookup_concat(fixed + o1 + o2 + o3, o4, k);
    lemma_lookup_concat(fixed + o1 + o2, o3, k);
    lemma_lookup_concat(fixed + o1, o2, k);
    lemma_lookup_concat(fixed, o1, k);
}

proof fn lemma_lookup_single(n: Seq<char>, v: Seq<char>, k: Seq<char>)
    ensures
        text_lookup(optional_text(n, v), k) == if v.len() > 0 && n == k {
            Some(seq![v])
        } else {
            None::<Seq<Seq<char>>>
        },
{
    if v.len() > 0 {
        assert(optional_text(n, v).drop_first() =~= Seq::<(Seq<char>, Seq<Seq<char>>)>::empty());
        reveal_with_fuel(text_lookup, 2);
    }
}

proof fn lemma_lookup_fixed(
    username: Seq<char>,
    first: Seq<char>,
    last: Seq<char>,
    base_dn: Seq<char>,
    k: Seq<char>,
)
    ensures
        text_lookup(new_user_fixed(username, first, last, base_dn), k) == if k
            == "objectClass"@ {
            Some(seq!["top"@, "person"@, "organizationalPerson"@, "user"@])
        } else if k == "cn"@ {
            Some(seq![user_cn(username, first, last)])
        } else if k == "sAMAccountName"@ {
            Some(seq![username])
        } else if k == "userPrincipalName"@ {
            Some(seq![username + "@"@ + domain_of(base_dn)])
        } else if k == "userAccountControl"@ {
            Some(seq!["514"@])
        } else {
            None::<Seq<Seq<char>>>
        },
{
    let f = new_user_fixed(username, first, last, base_dn);
    assert(f.drop_first().drop_first().drop_first().drop_first().drop_first() =~= Seq::<
        (Seq<char>, Seq<Seq<char>>),
    >::empty());
    reveal_with_fuel(text_lookup, 6);
}

/// The lengths and first letters of the attribute names a new user entry
/// uses, which tell them apart.
proof fn lemma_attr_name_shapes()
    ensures
        "objectClass"@.len() == 11,
        "objectClass"@[0] == 'o',
        "cn"@.len() == 2,
        "cn"@[0] == 'c',
        "sAMAccountName"@.len() == 14,
        "sAMAccountName"@[0] == 's',
        "userPrincipalName"@.len() == 17,
        "userPrincipalName"@[0] == 'u',
        "userAccountControl"@.len() == 18,
        "userAccountControl"@[0] == 'u',
        "givenName"@.len() == 9,
        "givenName"@[0] == 'g',
        "sn"@.len() == 2,
        "sn"@[0] == 's',
        "displayName"@.len() == 11,
        "displayName"@[0] == 'd',
        "mail"@.len() == 4,
        "mail"@[0] == 'm',
        "lockoutTime"@.len() == 11,
        "lockoutTime"@[0] == 'l',
        "badPwdCount"@.len() == 11,
        "badPwdCount"@[0] == 'b',
{
    reveal_strlit("objectClass");
    reveal_strlit("cn");
    reveal_strlit("sAMAccountName");
    reveal_strlit("userPrincipalName");
    reveal_strlit("userAccountControl");
    reveal_strlit("givenName");
    reveal_strlit("sn");
    reveal_strlit("displayName");
    reveal_strlit("mail");
    reveal_strlit("lockoutTime");
    reveal_strlit("badPwdCount");
    assert("objectClass"@.len() == 11);
    assert("cn"@.len() == 2);
    assert("sAMAccountName"@.len() == 14);
    assert("userPrincipalName"@.len() == 17);
    assert("userAccountControl"@.len() == 18);
    assert("givenName"@.len() == 9);
    assert("sn"@.len() == 2);
    assert("displayName"@.len() == 11);
    assert("mail"@.len() == 4);
    assert("lockoutTime"@.len() == 11);
    assert("badPwdCount"@.len() == 11);
}

proof fn lemma_key_facts(
    username: Seq<char>,
    first: Seq<char>,
    last: Seq<char>,
    email: Seq<char>,
    base_dn: Seq<char>,
    k: Seq<char>,
)
    ensures
        text_lookup(new_user_text(username, first, last, email, base_dn), k) == match text_lookup(
            new_user_fixed(username, first, last, base_dn),
            k,
        ) {
            Some(v) => Some(v),
            None => match text_lookup(optional_text("givenName"@, first), k) {
                Some(v) => Some(v),
                None => match text_lookup(optional_text("sn"@, last), k) {
                    Some(v) => Some(v),
                    None => match text_lookup(
                        optional_text("displayName"@, display_name_of(first, last)),
                        k,
                    ) {
                        Some(v) => Some(v),
                        None => text_lookup(optional_text("mail"@, email), k),
                    },
                },
            },
        },
        text_lookup(new_user_fixed(username, first, last, base_dn), k) == if k
            == "objectClass"@ {
            Some(seq!["top"@, "person"@, "organizationalPerson"@, "user"@])
        } else if k == "cn"@ {
            Some(seq![user_cn(username, first, last)])
        } else if k == "sAMAccountName"@ {
            Some(seq![username])
        } else if k == "userPrincipalName"@ {
            Some(seq![username + "@"@ + domain_of(base_dn)])
        } else if k == "userAccountControl"@ {
            Some(seq!["514"@])
        } else {
            None::<Seq<Seq<char>>>
        },
        text_lookup(optional_text("givenName"@, first), k) == if first.len() > 0 && "givenName"@
            == k {
            Some(seq![first])
        } else {
            None::<Seq<Seq<char>>>
        },
        text_lookup(optional_text("sn"@, last), k) == if last.len() > 0 && "sn"@ == k {
            Some(seq![last])
        } else {
            None::<Seq<Seq<char>>>
        },
        text_lookup(optional_text("displayName"@, display_name_of(first, last)), k) == if display_name_of(
            first,
            last,
        ).len() > 0 && "displayName"@ == k {
            Some(seq![display_name_of(first, last)])
        } else {
            None::<Seq<Seq<char>>>
        },
        text_lookup(optional_text("mail"@, email), k) == if email.len() > 0 && "mail"@ == k {
            Some(seq![email])
        } else {
            None::<Seq<Seq<char>>>
        },
{
    lemma_lookup_parts(username, first, last, email, base_dn, k);
    lemma_lookup_fixed(username, first, last, base_dn, k);
    lemma_lookup_single("givenName"@, first, k);
    lemma_lookup_single("sn"@, last, k);
    lemma_lookup_single("displayName"@, display_name_of(first, last), k);
    lemma_lookup_single("mail"@, email, k);
}

/// Where the listing finds each field of a new user entry.
proof fn lemma_new_user_lookups(
    username: Seq<char>,
    first: Seq<char>,
    last: Seq<char>,
    email: Seq<char>,
    base_dn: Seq<char>,
)
    ensures
        text_first(new_user_text(username, first, last, email, base_dn), "sAMAccountName"@) == username,
        text_first(new_user_text(username, first, last, email, base_dn), "givenName"@) == first,
        text_first(new_user_text(username, first, last, email, base_dn), "sn"@) == last,
        text_first(new_user_text(username, first, last, email, base_dn), "displayName"@) == display_name_of(first, last),
        text_first(new_user_text(username, first, last, email, base_dn), "mail"@) == email,
        text_first(new_user_text(username, first, last, email, base_dn), "userAccountControl"@) == "514"@,
        text_first(new_user_text(username, first, last, email, base_dn), "lockoutTime"@) == Seq::<char>::empty(),
        text_first(new_user_text(username, first, last, email, base_dn), "badPwdCount"@) == Seq::<char>::empty(),
{
    lemma_attr_name_shapes();
    lemma_key_facts(username, first, last, email, base_dn, "sAMAccountName"@);
    lemma_key_facts(username, first, last, email, base_dn, "givenName"@);
    lemma_key_facts(username, first, last, email, base_dn, "sn"@);
    lemma_key_facts(username, first, last, email, base_dn, "displayName"@);
    lemma_key_facts(username, first, last, email, base_dn, "mail"@);
    lemma_key_facts(username, first, last, email, base_dn, "userAccountControl"@);
    lemma_key_facts(username, first, last, email, base_dn, "lockoutTime"@);
    lemma_key_facts(username, first, last, email, base_dn, "badPwdCount"@);
    if first.len() == 0 {
        assert(first =~= Seq::<char>::empty());
    }
    if last.len() == 0 {
        assert(last =~= Seq::<char>::empty());
    }
    if display_name_of(first, last).len() == 0 {
        assert(display_name_of(first, last) =~= Seq::<char>::empty());
    }
    if email.len() == 0 {
        assert(email =~= Seq::<char>::empty());
    }
}

/// A new user's entry, read back, is listed with the logon name, names,
/// mail and display name it was created with, disabled (it is enabled by a
/// later step), not locked out, and with no failed logons.
pub proof fn lemma_new_user_read_back(
    username: Seq<char>,
    first: Seq<char>,
    last: Seq<char>,
    email: Seq<char>,
    base_dn: Seq<char>,
    e: Entry,
    u: LdapUser,
)
    requires
        text_attrs(e) == new_user_text(username, first, last, email, base_dn),
        u.shows(e, Seq::empty()),
    ensures
        u.username@ == username,
        u.first_name@ == first,
        u.last_name@ == last,
        u.email@ == email,
        u.display_name@ == display_name_of(first, last),
        !u.enabled,
        !u.locked,
        u.bad_pwd_count == 0,
{
    lemma_new_user_lookups(username, first, last, email, base_dn);
    lemma_lookup_entry(e.attrs@, "sAMAccountName"@);
    lemma_lookup_entry(e.attrs@, "givenName"@);
    lemma_lookup_entry(e.attrs@, "sn"@);
    lemma_lookup_entry(e.attrs@, "displayName"@);
    lemma_lookup_entry(e.attrs@, "mail"@);
    lemma_lookup_entry(e.attrs@, "userAccountControl"@);
    lemma_lookup_entry(e.attrs@, "lockoutTime"@);
    lemma_lookup_entry(e.attrs@, "badPwdCount"@);
    assert(attr_spec(e, "userAccountControl"@) == "514"@);
    lemma_user_state_read_back(false, e, u);
    reveal_strlit("");
    assert(parse_int_spec(Seq::<char>::empty(), true, i64::MIN as int, i64::MAX as int) is None);
}

} // verus!
