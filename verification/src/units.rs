//! Organizational units: their nesting depth and tree order, the OU lists
//! the views show, and the RDN an object keeps when it moves.

use vstd::prelude::*;
use crate::text::{
    chars_of, concat3, join_spec, join_strings, lemma_split_concat, lemma_split_no_sep, lemma_split_nonempty, lowercase, owned, seq_lt,
    split_chars, split_spec, string_of, to_lowercase, trim_chars, trim_spec,
};
use crate::sort::{SortKey, is_stable_order, lemma_seq_lt_irreflexive, lemma_seq_lt_transitive};
use crate::directory::{
    Entry, Listed, attr, attr_spec, base_dn_to_domain, domain_of, list_entries, listing, shown_entries, shown_keys,
};
use crate::policy::ou_or_name;

verus! {

broadcast use vstd::string::group_string_axioms;

// ── depth and tree order ─────────────────────────────────────────────────────

/// How many levels below the base DN an entry sits: its DN components past
/// those of the base and the entry's own, never negative.
pub open spec fn depth_of(dn: Seq<char>, base_dn: Seq<char>) -> nat {
    let d = split_spec(dn, ',').len();
    let b = split_spec(base_dn, ',').len();
    if d > b + 1 {
        (d - b - 1) as nat
    } else {
        0
    }
}

/// The nesting depth of an OU below the base DN (0 for a top-level OU).
pub fn ou_depth(dn: &str, base_dn: &str) -> (r: usize)
    ensures
        r == depth_of(dn@, base_dn@),
{
    let dn_parts = split_chars(&chars_of(dn), ',').len();
    let base_parts = split_chars(&chars_of(base_dn), ',').len();
    if dn_parts > base_parts {
        dn_parts - base_parts - 1
    } else {
        0
    }
}

/// The DN components from the root down, trimmed and in lower case.
pub open spec fn tree_parts(parts: Seq<Seq<char>>) -> Seq<Seq<char>> {
    parts.reverse().map_values(|p: Seq<char>| lowercase(trim_spec(p)))
}

/// A DN's components from the root down, trimmed, lower-cased, joined with
/// commas.
pub open spec fn dn_tree_key(dn: Seq<char>) -> Seq<char> {
    join_spec(tree_parts(split_spec(dn, ',')), ","@)
}

/// The joined key of a DN: a parent's key is a prefix of its children's.
pub fn dn_tree_sort_key(dn: &str) -> (r: String)
    ensures
        r@ == dn_tree_key(dn@),
{
    let parts = split_chars(&chars_of(dn), ',');
    let ghost ps = parts.deep_view();
    let n = parts.len();
    let mut keys: Vec<String> = Vec::new();
    let mut i: usize = n;
    while i > 0
        invariant
            i <= n,
            n == parts@.len(),
            ps == parts.deep_view(),
            keys@.len() == n - i,
            forall|j: int|
                0 <= j < n - i ==> (#[trigger] keys@[j])@ == lowercase(trim_spec(ps[n - 1 - j])),
        decreases i,
    {
        i -= 1;
        assert(ps[i as int] == parts@[i as int]@);
        let t = trim_chars(&parts[i]);
        let ts = string_of(&t);
        keys.push(to_lowercase(ts.as_str()));
    }
    assert(keys.deep_view() =~= tree_parts(ps)) by {
        assert forall|j: int| 0 <= j < n implies #[trigger] keys.deep_view()[j] == tree_parts(
            ps,
        )[j] by {
            assert(keys.deep_view()[j] == keys@[j]@);
        }
    }
    join_strings(&keys, ",")
}

proof fn lemma_prefix_lt(a: Seq<char>, b: Seq<char>)
    requires
        b.len() > 0,
    ensures
        seq_lt(a, a + b),
    decreases a.len(),
{
    if a.len() > 0 {
        assert((a + b).drop_first() =~= a.drop_first() + b);
        lemma_prefix_lt(a.drop_first(), b);
    } else {
        assert(a + b =~= b);
    }
}

/// For an OU directly inside `parent` (its RDN holds no comma), the joined
/// key is the parent's, a comma, and its own trimmed, lower-cased RDN, so it
/// sorts after the parent's key; and its depth is one more than the
/// parent's.
pub proof fn lemma_child_follows_parent(rdn: Seq<char>, parent: Seq<char>, base_dn: Seq<char>)
    requires
        forall|m: int| 0 <= m < rdn.len() ==> rdn[m] != ',',
    ensures
        dn_tree_key(rdn + ","@ + parent) == dn_tree_key(parent) + ","@ + lowercase(
            trim_spec(rdn),
        ),
        seq_lt(dn_tree_key(parent), dn_tree_key(rdn + ","@ + parent)),
        split_spec(parent, ',').len() > split_spec(base_dn, ',').len() ==> depth_of(
            rdn + ","@ + parent,
            base_dn,
        ) == depth_of(parent, base_dn) + 1,
{
    reveal_strlit(",");
    let child = rdn + ","@ + parent;
    assert(child =~= rdn + seq![','] + parent);
    lemma_split_concat(rdn, parent, ',');
    lemma_split_no_sep(rdn, ',');
    let pp = split_spec(parent, ',');
    lemma_split_nonempty(parent, ',');
    let cp = split_spec(child, ',');
    assert(cp =~= seq![rdn] + pp);
    let f = |p: Seq<char>| lowercase(trim_spec(p));
    assert(tree_parts(cp) =~= tree_parts(pp).push(lowercase(trim_spec(rdn))));
    let tp = tree_parts(pp);
    assert(tp.len() >= 1);
    let tc = tp.push(lowercase(trim_spec(rdn)));
    assert(tc.drop_last() =~= tp);
    assert(join_spec(tc, ","@) == join_spec(tp, ","@) + ","@ + lowercase(trim_spec(rdn)));
    assert(dn_tree_key(child) =~= dn_tree_key(parent) + (","@ + lowercase(trim_spec(rdn))));
    lemma_prefix_lt(dn_tree_key(parent), ","@ + lowercase(trim_spec(rdn)));
}

// ── the OU tree ──────────────────────────────────────────────────────────────

/// The path of a DN from the root down: its components in reverse order,
/// trimmed and in lower case. One DN is within another when its path is a
/// prefix of the other's.
pub open spec fn tree_path(dn: Seq<char>) -> Seq<Seq<char>> {
    tree_parts(split_spec(dn, ','))
}

/// Whether the entry named `inner` lies in the subtree of `outer` (the entry
/// itself included).
pub open spec fn is_within(outer: Seq<char>, inner: Seq<char>) -> bool {
    tree_path(outer).is_prefix_of(tree_path(inner))
}

/// One component in the tree-order key: each character behind a `'1'`,
/// closed by a `'0'`. A component that ends sorts before one that goes on,
/// so a shorter name sorts before a longer name it begins.
pub open spec fn comp_code(c: Seq<char>) -> Seq<char> {
    Seq::new(2 * c.len(), |k: int| if k % 2 == 0 { '1' } else { c[k / 2] }) + seq!['0']
}

/// The codes of a path's components, root first.
pub open spec fn path_code(parts: Seq<Seq<char>>) -> Seq<char>
    decreases parts.len(),
{
    if parts.len() == 0 {
        Seq::empty()
    } else {
        comp_code(parts[0]) + path_code(parts.drop_first())
    }
}

/// The key that lists OUs as a tree: the path compared component by
/// component, so every OU comes right before its subtree.
pub open spec fn tree_order_key(dn: Seq<char>) -> Seq<char> {
    path_code(tree_path(dn))
}

proof fn lemma_path_code_push(parts: Seq<Seq<char>>, c: Seq<char>)
    ensures
        path_code(parts.push(c)) == path_code(parts) + comp_code(c),
    decreases parts.len(),
{
    if parts.len() == 0 {
        assert(parts.push(c).drop_first() =~= Seq::<Seq<char>>::empty());
        assert(path_code(parts.push(c).drop_first()) == Seq::<char>::empty());
        assert(path_code(parts.push(c)) =~= comp_code(c));
    } else {
        assert(parts.push(c).drop_first() =~= parts.drop_first().push(c));
        lemma_path_code_push(parts.drop_first(), c);
        assert(path_code(parts.push(c)) =~= path_code(parts) + comp_code(c));
    }
}

/// A path that extends another has a key that extends the other's; a longer
/// path, a longer key.
proof fn lemma_path_code_prefix(a: Seq<Seq<char>>, b: Seq<Seq<char>>)
    requires
        a.is_prefix_of(b),
    ensures
        path_code(a).is_prefix_of(path_code(b)),
        a.len() < b.len() ==> path_code(a).len() < path_code(b).len(),
    decreases a.len(),
{
    if a.len() == 0 {
        if b.len() > 0 {
            assert(path_code(b).len() >= comp_code(b[0]).len());
        }
    } else {
        assert(a[0] == b[0]);
        assert(a.drop_first().is_prefix_of(b.drop_first())) by {
            assert(a.drop_first() =~= b.drop_first().subrange(0, a.len() - 1));
        }
        lemma_path_code_prefix(a.drop_first(), b.drop_first());
        let ca = comp_code(a[0]);
        let ra = path_code(a.drop_first());
        let rb = path_code(b.drop_first());
        assert((ca + ra) =~= (ca + rb).subrange(0, (ca + ra).len() as int));
    }
}

/// A component's code fixes the component: no code begins another one.
proof fn lemma_comp_code_prefix(a: Seq<char>, b: Seq<char>)
    requires
        comp_code(a).is_prefix_of(comp_code(b)),
    ensures
        a == b,
{
    let ca = comp_code(a);
    let cb = comp_code(b);
    if a.len() < b.len() {
        let e: int = 2 * a.len() as int;
        assert(ca[e] == '0');
        assert(cb[e] == '1');
        assert(cb.subrange(0, ca.len() as int)[e] == cb[e]);
    }
    assert forall|m: int| 0 <= m < a.len() implies a[m] == b[m] by {
        assert(ca[2 * m + 1] == a[m]);
        assert(cb[2 * m + 1] == b[m]);
        assert(cb.subrange(0, ca.len() as int)[2 * m + 1] == cb[2 * m + 1]);
    }
    assert(a =~= b);
}

/// A key that begins another key belongs to a path that begins the other
/// path.
proof fn lemma_path_code_prefix_back(a: Seq<Seq<char>>, b: Seq<Seq<char>>)
    requires
        path_code(a).is_prefix_of(path_code(b)),
    ensures
        a.is_prefix_of(b),
    decreases a.len(),
{
    if a.len() > 0 {
        let ca = comp_code(a[0]);
        let ka = path_code(a);
        let kb = path_code(b);
        assert(b.len() > 0);
        let cb = comp_code(b[0]);
        if ca.len() <= cb.len() {
            assert(ca =~= cb.subrange(0, ca.len() as int)) by {
                assert forall|m: int| 0 <= m < ca.len() implies ca[m] == cb[m] by {
                    assert(ka[m] == ca[m]);
                    assert(kb[m] == cb[m]);
                    assert(kb.subrange(0, ka.len() as int)[m] == kb[m]);
                }
            }
            lemma_comp_code_prefix(a[0], b[0]);
        } else {
            assert(cb =~= ca.subrange(0, cb.len() as int)) by {
                assert forall|m: int| 0 <= m < cb.len() implies cb[m] == ca[m] by {
                    assert(ka[m] == ca[m]);
                    assert(kb[m] == cb[m]);
                    assert(kb.subrange(0, ka.len() as int)[m] == kb[m]);
                }
            }
            lemma_comp_code_prefix(b[0], a[0]);
        }
        let ra = path_code(a.drop_first());
        let rb = path_code(b.drop_first());
        assert(ra.is_prefix_of(rb)) by {
            assert forall|m: int| 0 <= m < ra.len() implies ra[m] == rb[m] by {
                assert(ka[ca.len() + m] == ra[m]);
                assert(kb[ca.len() + m] == rb[m]);
                assert(kb.subrange(0, ka.len() as int)[ca.len() + m] == kb[ca.len() + m]);
            }
            assert(ra =~= rb.subrange(0, ra.len() as int));
        }
        lemma_path_code_prefix_back(a.drop_first(), b.drop_first());
        assert(a =~= b.subrange(0, a.len() as int)) by {
            assert forall|m: int| 0 <= m < a.len() implies a[m] == b[m] by {
                if m > 0 {
                    assert(a.drop_first()[m - 1] == b.drop_first().subrange(
                        0,
                        a.len() - 1,
                    )[m - 1]);
                }
            }
        }
    }
}

/// A key between a key and one it begins also begins with it.
proof fn lemma_between_prefix(x: Seq<char>, y: Seq<char>, z: Seq<char>)
    requires
        x.is_prefix_of(z),
        seq_lt(x, y) || x == y,
        seq_lt(y, z) || y == z,
    ensures
        x.is_prefix_of(y),
    decreases x.len(),
{
    if x.len() > 0 && x != y {
        assert(z[0] == x[0]) by {
            assert(z.subrange(0, x.len() as int)[0] == z[0]);
        }
        assert(y.len() > 0);
        if y[0] != x[0] {
            if y != z {
                assert((x[0] as u32) < (y[0] as u32));
                assert((y[0] as u32) < (z[0] as u32));
            }
        }
        assert(y[0] == x[0]);
        assert(x.drop_first().is_prefix_of(z.drop_first())) by {
            assert forall|m: int| 0 <= m < x.len() - 1 implies x.drop_first()[m]
                == z.drop_first()[m] by {
                assert(z.subrange(0, x.len() as int)[m + 1] == z[m + 1]);
            }
            assert(x.drop_first() =~= z.drop_first().subrange(0, x.len() - 1));
        }
        if y == z {
            assert(y.drop_first() == z.drop_first());
        }
        if x.drop_first() == y.drop_first() {
            assert(x =~= y) by {
                assert(x =~= seq![x[0]] + x.drop_first());
                assert(y =~= seq![y[0]] + y.drop_first());
            }
        }
        lemma_between_prefix(x.drop_first(), y.drop_first(), z.drop_first());
        assert(x =~= y.subrange(0, x.len() as int)) by {
            assert forall|m: int| 0 <= m < x.len() implies x[m] == y[m] by {
                if m > 0 {
                    assert(x.drop_first()[m - 1] == y.drop_first().subrange(
                        0,
                        x.len() - 1,
                    )[m - 1]);
                }
            }
        }
    }
}

/// Computes `tree_order_key(dn)`.
fn tree_order_chars(dn: &str) -> (r: Vec<char>)
    ensures
        r@ == tree_order_key(dn@),
{
    let parts = split_chars(&chars_of(dn), ',');
    let ghost ps = parts.deep_view();
    let ghost path = tree_parts(ps);
    let n = parts.len();
    let mut key: Vec<char> = Vec::new();
    let mut i: usize = n;
    assert(path.take(0) =~= Seq::<Seq<char>>::empty());
    while i > 0
        invariant
            i <= n,
            n == parts@.len(),
            ps == parts.deep_view(),
            path == tree_parts(ps),
            key@ == path_code(path.take(n - i)),
        decreases i,
    {
        i -= 1;
        assert(ps[i as int] == parts@[i as int]@);
        let t = trim_chars(&parts[i]);
        let ts = string_of(&t);
        let low = to_lowercase(ts.as_str());
        let cs = chars_of(low.as_str());
        let ghost before = key@;
        let ghost c = cs@;
        assert(c == path[n - 1 - i]);
        let mut j: usize = 0;
        while j < cs.len()
            invariant
                j <= cs@.len(),
                c == cs@,
                key@ == before + Seq::new(
                    2 * j as nat,
                    |k: int| if k % 2 == 0 { '1' } else { c[k / 2] },
                ),
            decreases cs@.len() - j,
        {
            key.push('1');
            key.push(cs[j]);
            j += 1;
            assert(key@ =~= before + Seq::new(
                2 * j as nat,
                |k: int| if k % 2 == 0 { '1' } else { c[k / 2] },
            ));
        }
        key.push('0');
        proof {
            assert(key@ =~= before + comp_code(c));
            assert(path.take(n - i) =~= path.take(n - 1 - i).push(c));
            lemma_path_code_push(path.take(n - 1 - i), c);
        }
    }
    assert(path.take(n as int) =~= path);
    key
}

/// An organizational unit as the OU tree shows it.
pub struct LdapOuNode {
    pub dn: String,
    pub name: String,
    pub description: String,
    pub depth: usize,
}

impl SortKey for LdapOuNode {
    open spec fn sort_key(&self) -> Seq<char> {
        tree_order_key(self.dn@)
    }

    fn key_chars(&self) -> (k: Vec<char>) {
        tree_order_chars(self.dn.as_str())
    }
}

impl Listed for LdapOuNode {
    open spec fn shown(e: Entry, base: Seq<char>) -> bool {
        attr_spec(e, "ou"@).len() > 0
    }

    open spec fn entry_key(e: Entry, base: Seq<char>) -> Seq<char> {
        tree_order_key(e.dn@)
    }

    open spec fn shows(self, e: Entry, base: Seq<char>) -> bool {
        &&& self.dn@ == e.dn@
        &&& self.name@ == attr_spec(e, "ou"@)
        &&& self.description@ == attr_spec(e, "description"@)
        &&& self.depth == depth_of(e.dn@, base)
    }

    fn read(e: &Entry, base: &str) -> (r: Option<Self>) {
        let name = attr(e, "ou");
        if name.as_str().is_empty() {
            return None;
        }
        Some(
            LdapOuNode {
                depth: ou_depth(e.dn.as_str(), base),
                name,
                description: attr(e, "description"),
                dn: e.dn.clone(),
            },
        )
    }
}

/// The OUs below `base_dn` in tree order, with their depth below the base.
pub fn ou_nodes_from_entries(entries: &Vec<Entry>, base_dn: &str) -> (r: Vec<LdapOuNode>)
    ensures
        listing(r@, entries@, base_dn@),
{
    list_entries(entries, base_dn)
}

/// The OU tree lists each OU directly before its whole subtree: an OU comes
/// after every OU it lies in, and an OU that lies between an OU and one of
/// that OU's descendants is a descendant too.
pub proof fn lemma_ou_tree_preorder(out: Seq<LdapOuNode>, entries: Seq<Entry>, base: Seq<char>)
    requires
        listing(out, entries, base),
    ensures
        forall|i: int, k: int|
            0 <= i < out.len() && 0 <= k < out.len() && is_within(out[k].dn@, out[i].dn@)
                && tree_path(out[k].dn@).len() < tree_path(out[i].dn@).len() ==> k < i,
        forall|i: int, j: int, k: int|
            0 <= i < j < k < out.len() && is_within(out[i].dn@, out[k].dn@) ==> is_within(
                out[i].dn@,
                out[j].dn@,
            ),
{
    let shown = shown_entries::<LdapOuNode>(entries, base);
    let keys = shown_keys::<LdapOuNode>(entries, base);
    let p = choose|p: Seq<int>|
        #[trigger] is_stable_order(keys, p) && out.len() == shown.len() && forall|k: int|
            0 <= k < out.len() ==> (#[trigger] out[k]).shows(shown[p[k]], base);
    assert forall|k: int| 0 <= k < out.len() implies keys[p[k]] == tree_order_key(
        #[trigger] out[k].dn@,
    ) by {
        assert(out[k].shows(shown[p[k]], base));
    }
    assert forall|i: int, k: int|
        0 <= i < out.len() && 0 <= k < out.len() && is_within(out[k].dn@, out[i].dn@)
            && tree_path(out[k].dn@).len() < tree_path(out[i].dn@).len() implies k < i by {
        let ki = tree_order_key(out[i].dn@);
        let kk = tree_order_key(out[k].dn@);
        assert(keys[p[i]] == ki);
        assert(keys[p[k]] == kk);
        lemma_path_code_prefix(tree_path(out[k].dn@), tree_path(out[i].dn@));
        assert(kk.len() < ki.len());
        assert(ki =~= kk + ki.skip(kk.len() as int));
        lemma_prefix_lt(kk, ki.skip(kk.len() as int));
        if i < k {
            assert(seq_lt(keys[p[i]], keys[p[k]]) || keys[p[i]] == keys[p[k]]);
            if seq_lt(ki, kk) {
                lemma_seq_lt_transitive(ki, kk, ki);
                lemma_seq_lt_irreflexive(ki);
            }
        }
    }
    assert forall|i: int, j: int, k: int|
        0 <= i < j < k < out.len() && is_within(out[i].dn@, out[k].dn@) implies is_within(
        out[i].dn@,
        out[j].dn@,
    ) by {
        let ki = tree_order_key(out[i].dn@);
        let kj = tree_order_key(out[j].dn@);
        let kk = tree_order_key(out[k].dn@);
        assert(keys[p[i]] == ki);
        assert(keys[p[j]] == kj);
        assert(keys[p[k]] == kk);
        assert(seq_lt(keys[p[i]], keys[p[j]]) || keys[p[i]] == keys[p[j]]);
        assert(seq_lt(keys[p[j]], keys[p[k]]) || keys[p[j]] == keys[p[k]]);
        lemma_path_code_prefix(tree_path(out[i].dn@), tree_path(out[k].dn@));
        lemma_between_prefix(ki, kj, kk);
        lemma_path_code_prefix_back(tree_path(out[i].dn@), tree_path(out[j].dn@));
    }
}

// ── OU choices ───────────────────────────────────────────────────────────────

/// A container that can be chosen as a target.
pub struct LdapOu {
    pub dn: String,
    pub name: String,
}

impl SortKey for LdapOu {
    open spec fn sort_key(&self) -> Seq<char> {
        lowercase(self.name@)
    }

    fn key_chars(&self) -> (k: Vec<char>) {
        let l = to_lowercase(self.name.as_str());
        chars_of(l.as_str())
    }
}

impl Listed for LdapOu {
    open spec fn shown(e: Entry, base: Seq<char>) -> bool {
        ou_or_name(e).len() > 0
    }

    open spec fn entry_key(e: Entry, base: Seq<char>) -> Seq<char> {
        lowercase(ou_or_name(e))
    }

    open spec fn shows(self, e: Entry, base: Seq<char>) -> bool {
        self.dn@ == e.dn@ && self.name@ == ou_or_name(e)
    }

    fn read(e: &Entry, base: &str) -> (r: Option<Self>) {
        let n = attr(e, "ou");
        let name = if n.as_str().is_empty() {
            attr(e, "name")
        } else {
            n
        };
        if name.as_str().is_empty() {
            None
        } else {
            Some(LdapOu { dn: e.dn.clone(), name })
        }
    }
}

/// The OUs a GPO can be linked to: the domain root first, named after the
/// domain, then the OUs ordered by lower-case name.
pub fn ous_from_entries(entries: &Vec<Entry>, base_dn: &str) -> (r: Vec<LdapOu>)
    ensures
        r@.len() > 0,
        r@[0].dn@ == base_dn@,
        r@[0].name@ == "Domain Root ("@ + domain_of(base_dn@) + ")"@,
        listing(r@.drop_first(), entries@, Seq::empty()),
{
    proof {
        reveal_strlit("");
        assert(""@ =~= Seq::<char>::empty());
    }
    let mut ous: Vec<LdapOu> = list_entries(entries, "");
    let ghost listed = ous@;
    let domain = base_dn_to_domain(base_dn);
    ous.insert(0, LdapOu { dn: owned(base_dn), name: concat3("Domain Root (", domain.as_str(), ")") });
    assert(ous@.drop_first() =~= listed);
    ous
}

/// The parent choices of the OU view: the domain root first (named after
/// the base DN), then each OU of the tree in order.
pub fn ous_flat(nodes: &Vec<LdapOuNode>, base_dn: &str) -> (r: Vec<LdapOu>)
    ensures
        r@.len() == nodes@.len() + 1,
        r@[0].dn@ == base_dn@,
        r@[0].name@ == "Domain Root ("@ + base_dn@ + ")"@,
        forall|k: int|
            0 <= k < nodes@.len() ==> (#[trigger] r@[k + 1]).dn@ == nodes@[k].dn@ && r@[k
                + 1].name@ == nodes@[k].name@,
{
    let mut out: Vec<LdapOu> = Vec::new();
    out.push(LdapOu { dn: owned(base_dn), name: concat3("Domain Root (", base_dn, ")") });
    let mut i: usize = 0;
    while i < nodes.len()
        invariant
            i <= nodes@.len(),
            out@.len() == i + 1,
            out@[0].dn@ == base_dn@,
            out@[0].name@ == "Domain Root ("@ + base_dn@ + ")"@,
            forall|k: int|
                0 <= k < i ==> (#[trigger] out@[k + 1]).dn@ == nodes@[k].dn@ && out@[k
                    + 1].name@ == nodes@[k].name@,
        decreases nodes@.len() - i,
    {
        out.push(LdapOu { dn: nodes[i].dn.clone(), name: nodes[i].name.clone() });
        i += 1;
    }
    out
}

// ── moving objects ───────────────────────────────────────────────────────────

/// The RDN of a DN: its first component.
pub fn first_rdn(dn: &str) -> (r: String)
    ensures
        r@ == split_spec(dn@, ',')[0],
{
    let parts = split_chars(&chars_of(dn), ',');
    proof {
        lemma_split_nonempty(dn@, ',');
    }
    assert(parts.deep_view()[0] == parts@[0]@);
    string_of(&parts[0])
}

} // verus!
