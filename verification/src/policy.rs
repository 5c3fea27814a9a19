//! Group Policy Objects: the `gPLink` attribute that links them to
//! containers, the GPO list, and the changes that create, update, link and
//! unlink them.

use vstd::prelude::*;
use vstd::utf8::{decode_utf8, encode_utf8, encode_utf8_decode_utf8};
use crate::text::{
    ascii_upper, chars_of, concat2, concat3, dec_signed_spec, dec_spec, decimal, decimal_signed,
    has_prefix, lemma_parse_dec, lemma_parse_dec_signed, lowercase, owned, parse_int,
    parse_int_spec, skip_chars, starts_with, string_of, take_chars, to_lowercase, to_uppercase,
    uppercase,
};
use crate::sort::SortKey;
use crate::directory::{Entry, Listed, attr, attr_spec, base_dn_to_domain, domain_of};
use crate::requests::{
    ModOp, Modification, NewEntry, attr_many, attr_one, attrs_view, lemma_object_classes_distinct, mod_none, mod_one, mods_view, mod_values_distinct, values_distinct,
    single, text_attr, text_mod,
};

verus! {

broadcast use vstd::string::group_string_axioms;

// ── searching characters ─────────────────────────────────────────────────────

/// The index of the first `c` in `s`, or `s.len()` when there is none
/// (`str::find`).
pub open spec fn first_index(s: Seq<char>, c: char) -> int
    decreases s.len(),
{
    if s.len() == 0 {
        0
    } else if s[0] == c {
        0
    } else {
        1 + first_index(s.drop_first(), c)
    }
}

/// The index of the last `c` in `s`, or -1 when there is none
/// (`str::rfind`).
pub open spec fn last_index(s: Seq<char>, c: char) -> int
    decreases s.len(),
{
    if s.len() == 0 {
        -1
    } else if s.last() == c {
        s.len() - 1
    } else {
        last_index(s.drop_last(), c)
    }
}

/// `s` with every leading copy of `p` removed (`str::trim_start_matches`).
pub open spec fn strip_all(s: Seq<char>, p: Seq<char>) -> Seq<char>
    decreases s.len(),
{
    if p.len() > 0 && has_prefix(s, p) {
        strip_all(s.skip(p.len() as int), p)
    } else {
        s
    }
}

/// `first_index` lies within the text, points at the character when it
/// is found, and nothing before it is that character.
pub proof fn lemma_first_index_bounds(s: Seq<char>, c: char)
    ensures
        0 <= first_index(s, c) <= s.len(),
        first_index(s, c) < s.len() ==> s[first_index(s, c)] == c,
        forall|m: int| 0 <= m < first_index(s, c) ==> s[m] != c,
    decreases s.len(),
{
    if s.len() > 0 && s[0] != c {
        lemma_first_index_bounds(s.drop_first(), c);
        assert forall|m: int| 0 <= m < first_index(s, c) implies s[m] != c by {
            if m > 0 {
                assert(s[m] == s.drop_first()[m - 1]);
            }
        }
    }
}

proof fn lemma_first_index_skip(a: Seq<char>, b: Seq<char>, c: char)
    requires
        forall|m: int| 0 <= m < a.len() ==> a[m] != c,
    ensures
        first_index(a + b, c) == a.len() + first_index(b, c),
    decreases a.len(),
{
    if a.len() > 0 {
        assert((a + b).drop_first() =~= a.drop_first() + b);
        lemma_first_index_skip(a.drop_first(), b, c);
    } else {
        assert(a + b =~= b);
    }
}

proof fn lemma_last_index_at(a: Seq<char>, b: Seq<char>, c: char)
    requires
        forall|m: int| 0 <= m < b.len() ==> b[m] != c,
    ensures
        last_index(a + seq![c] + b, c) == a.len(),
    decreases b.len(),
{
    if b.len() > 0 {
        assert((a + seq![c] + b).drop_last() =~= a + seq![c] + b.drop_last());
        lemma_last_index_at(a, b.drop_last(), c);
    } else {
        assert(a + seq![c] + b =~= (a + seq![c]));
    }
}

/// `last_index` lies within the text and points at the character when it
/// is found.
pub proof fn lemma_last_index_bounds(s: Seq<char>, c: char)
    ensures
        -1 <= last_index(s, c) < s.len(),
        last_index(s, c) >= 0 ==> s[last_index(s, c)] == c,
    decreases s.len(),
{
    if s.len() > 0 && s.last() != c {
        lemma_last_index_bounds(s.drop_last(), c);
    }
}

/// The index of the first `c` at or after `from`, or `s.len()`.
fn find_from(s: &Vec<char>, from: usize, c: char) -> (r: usize)
    requires
        from <= s@.len(),
    ensures
        r == from + first_index(s@.skip(from as int), c),
        r <= s@.len(),
{
    let mut k = from;
    proof {
        lemma_first_index_bounds(s@.skip(from as int), c);
    }
    while k < s.len() && s[k] != c
        invariant
            from <= k <= s@.len(),
            first_index(s@.skip(from as int), c) == (k - from) + first_index(
                s@.skip(k as int),
                c,
            ),
        decreases s@.len() - k,
    {
        assert(s@.skip(k as int).drop_first() =~= s@.skip(k + 1));
        k += 1;
    }
    if k == s.len() {
        assert(s@.skip(k as int).len() == 0);
    }
    k
}

/// The index of the last `c` in `s`, if any.
fn find_last(s: &Vec<char>, c: char) -> (r: Option<usize>)
    ensures
        match r {
            Some(k) => k == last_index(s@, c),
            None => last_index(s@, c) < 0,
        },
{
    let mut k = s.len();
    assert(s@.take(k as int) =~= s@);
    while k > 0 && s[k - 1] != c
        invariant
            k <= s@.len(),
            last_index(s@, c) == last_index(s@.take(k as int), c),
        decreases k,
    {
        assert(s@.take(k as int).drop_last() =~= s@.take(k - 1));
        k -= 1;
    }
    if k == 0 {
        None
    } else {
        Some(k - 1)
    }
}

/// `s` with every leading copy of `p` removed.
fn strip_prefix_all(s: Vec<char>, p: &Vec<char>) -> (r: Vec<char>)
    requires
        p@.len() > 0,
    ensures
        r@ == strip_all(s@, p@),
{
    let mut cur = s;
    while starts_with(&cur, p)
        invariant
            p@.len() > 0,
            strip_all(cur@, p@) == strip_all(s@, p@),
        decreases cur@.len(),
    {
        cur = skip_chars(&cur, p.len());
    }
    cur
}

// ── gPLink ───────────────────────────────────────────────────────────────────

/// The link flags of a `gPLink` entry: a `u8` in decimal, 0 when it is not
/// one.
pub open spec fn flags_value(s: Seq<char>) -> u8 {
    match parse_int_spec(s, false, 0, 255) {
        Some(v) => v as u8,
        None => 0,
    }
}

/// One bracketed `gPLink` entry, `LDAP://<dn>;<flags>`: the DN and flags, or
/// nothing when it has no `;`.
pub open spec fn link_entry(entry: Seq<char>) -> Option<(Seq<char>, u8)> {
    let e = strip_all(strip_all(entry, "LDAP://"@), "ldap://"@);
    let k = last_index(e, ';');
    if k < 0 {
        None
    } else {
        Some((e.take(k), flags_value(e.skip(k + 1))))
    }
}

/// The links a `gPLink` value holds, in order: each `[...]` entry with a
/// DN and flags; an unclosed `[` ends the list.
pub open spec fn gp_links(s: Seq<char>) -> Seq<(Seq<char>, u8)>
    decreases s.len(),
{
    let i = first_index(s, '[');
    if i >= s.len() {
        Seq::empty()
    } else {
        let rest = s.skip(i + 1);
        let j = first_index(rest, ']');
        if j >= rest.len() {
            Seq::empty()
        } else {
            proof {
                lemma_first_index_bounds(s, '[');
                lemma_first_index_bounds(rest, ']');
            }
            let tail = gp_links(rest.skip(j + 1));
            match link_entry(rest.take(j)) {
                Some(l) => seq![l] + tail,
                None => tail,
            }
        }
    }
}

/// The `gPLink` text of one link.
pub open spec fn link_text(l: (Seq<char>, u8)) -> Seq<char> {
    "[LDAP://"@ + l.0 + ";"@ + dec_spec(l.1 as nat) + "]"@
}

/// The `gPLink` value for links, in order.
pub open spec fn gp_link_text(links: Seq<(Seq<char>, u8)>) -> Seq<char>
    decreases links.len(),
{
    if links.len() == 0 {
        Seq::empty()
    } else {
        link_text(links[0]) + gp_link_text(links.drop_first())
    }
}

/// A link as text values.
pub open spec fn links_view(links: Seq<(String, u8)>) -> Seq<(Seq<char>, u8)> {
    links.map_values(|l: (String, u8)| (l.0@, l.1))
}

/// The links of a `gPLink` value, as `(DN, flags)` pairs in order.
pub fn parse_gp_link(gp_link: &str) -> (r: Vec<(String, u8)>)
    ensures
        links_view(r@) == gp_links(gp_link@),
{
    proof {
        reveal_strlit("LDAP://");
        reveal_strlit("ldap://");
    }
    let c = chars_of(gp_link);
    let upper = chars_of("LDAP://");
    let lower = chars_of("ldap://");
    let mut out: Vec<(String, u8)> = Vec::new();
    let mut pos: usize = 0;
    assert(c@.skip(0) =~= c@);
    assert(links_view(out@) =~= Seq::<(Seq<char>, u8)>::empty());
    while pos < c.len()
        invariant
            pos <= c@.len(),
            c@ == gp_link@,
            upper@ == "LDAP://"@,
            lower@ == "ldap://"@,
            upper@.len() == 7,
            lower@.len() == 7,
            links_view(out@) + gp_links(c@.skip(pos as int)) == gp_links(c@),
        decreases c@.len() - pos,
    {
        let ghost s = c@.skip(pos as int);
        let ghost before = links_view(out@);
        let i = find_from(&c, pos, '[');
        proof {
            lemma_first_index_bounds(s, '[');
            assert(c@.skip(c@.len() as int) =~= Seq::<char>::empty());
        }
        if i == c.len() {
            assert(gp_links(s) == Seq::<(Seq<char>, u8)>::empty());
            assert(gp_links(Seq::<char>::empty()) == Seq::<(Seq<char>, u8)>::empty());
            assert(before + gp_links(c@.skip(c@.len() as int)) =~= before + gp_links(s));
            pos = c.len();
        } else {
            let ghost rest = s.skip(i - pos + 1);
            assert(rest =~= c@.skip(i + 1));
            let j = find_from(&c, i + 1, ']');
            proof {
                lemma_first_index_bounds(rest, ']');
            }
            if j == c.len() {
                assert(gp_links(s) == Seq::<(Seq<char>, u8)>::empty());
                assert(gp_links(Seq::<char>::empty()) == Seq::<(Seq<char>, u8)>::empty());
                assert(before + gp_links(c@.skip(c@.len() as int)) =~= before + gp_links(s));
                pos = c.len();
            } else {
                let ghost jj = j - i - 1;
                let inner = skip_chars(&c, i + 1);
                let entry = take_chars(&inner, j - i - 1);
                assert(entry@ =~= rest.take(jj));
                assert(c@.skip(j + 1) =~= rest.skip(jj + 1));
                let e1 = strip_prefix_all(entry, &upper);
                let e2 = strip_prefix_all(e1, &lower);
                proof {
                    lemma_last_index_bounds(e2@, ';');
                }
                match find_last(&e2, ';') {
                    Some(k) => {
                        assert(k < e2@.len());
                        let dn = take_chars(&e2, k);
                        let fl = skip_chars(&e2, k + 1);
                        let flags: u8 = match parse_int(&fl, false, 0, 255) {
                            Some(v) => v as u8,
                            None => 0,
                        };
                        out.push((string_of(&dn), flags));
                        assert(links_view(out@) =~= before.push((e2@.take(k as int), flags)));
                        assert(link_entry(rest.take(jj)) == Some((e2@.take(k as int), flags)));
                        assert(links_view(out@) + gp_links(c@.skip(j + 1)) =~= before + gp_links(
                            s,
                        ));
                    },
                    None => {
                        assert(link_entry(rest.take(jj)) is None);
                    },
                }
                pos = j + 1;
            }
        }
    }
    assert(c@.skip(pos as int) =~= Seq::<char>::empty());
    assert(gp_links(Seq::<char>::empty()) == Seq::<(Seq<char>, u8)>::empty());
    assert(links_view(out@) + gp_links(c@.skip(pos as int)) =~= links_view(out@));
    out
}

proof fn lemma_gp_link_text_push(links: Seq<(Seq<char>, u8)>, l: (Seq<char>, u8))
    ensures
        gp_link_text(links.push(l)) == gp_link_text(links) + link_text(l),
    decreases links.len(),
{
    if links.len() == 0 {
        assert(links.push(l).drop_first() =~= Seq::<(Seq<char>, u8)>::empty());
        assert(links.push(l)[0] == l);
        assert(gp_link_text(Seq::<(Seq<char>, u8)>::empty()) == Seq::<char>::empty());
        assert(gp_link_text(links) == Seq::<char>::empty());
        assert(gp_link_text(links.push(l)) =~= link_text(l));
    } else {
        assert(links.push(l).drop_first() =~= links.drop_first().push(l));
        lemma_gp_link_text_push(links.drop_first(), l);
        assert(links.push(l)[0] == links[0]);
        assert(gp_link_text(links.push(l)) =~= gp_link_text(links) + link_text(l));
    }
}

/// The `gPLink` value for links, in order: `[LDAP://<dn>;<flags>]` for each.
pub fn build_gp_link(links: &[(String, u8)]) -> (r: String)
    ensures
        r@ == gp_link_text(links_view(links@)),
{
    let mut r = String::new();
    let mut i: usize = 0;
    while i < links.len()
        invariant
            i <= links@.len(),
            r@ == gp_link_text(links_view(links@).take(i as int)),
        decreases links@.len() - i,
    {
        let ghost lv = links_view(links@);
        proof {
            assert(lv.take(i + 1) =~= lv.take(i as int).push(lv[i as int]));
            lemma_gp_link_text_push(lv.take(i as int), lv[i as int]);
        }
        r.append("[LDAP://");
        r.append(links[i].0.as_str());
        r.append(";");
        let f = decimal(links[i].1 as u64);
        r.append(f.as_str());
        r.append("]");
        i += 1;
        assert(r@ =~= gp_link_text(lv.take(i as int)));
    }
    assert(links_view(links@).take(i as int) =~= links_view(links@));
    r
}

/// Whether a DN can stand in a `gPLink` entry and be read back unchanged:
/// it holds no `]` and does not itself begin with `LDAP://` or `ldap://`.
pub open spec fn link_dn_ok(dn: Seq<char>) -> bool {
    &&& forall|m: int| 0 <= m < dn.len() ==> dn[m] != ']'
    &&& !has_prefix(dn, "LDAP://"@)
    &&& !has_prefix(dn, "ldap://"@)
}

proof fn lemma_strip_after_dn(dn: Seq<char>, d: Seq<char>, p: Seq<char>)
    requires
        !has_prefix(dn, p),
        p.len() > 0,
        forall|m: int| 0 <= m < p.len() ==> p[m] != ';',
    ensures
        strip_all(dn + ";"@ + d, p) == dn + ";"@ + d,
{
    reveal_strlit(";");
    let x = dn + ";"@ + d;
    if has_prefix(x, p) {
        if dn.len() >= p.len() {
            assert(dn.take(p.len() as int) =~= x.take(p.len() as int));
        } else {
            assert(x[dn.len() as int] == ';');
            assert(x.take(p.len() as int)[dn.len() as int] == p[dn.len() as int]);
        }
    }
}

/// The text of one entry, `LDAP://<dn>;<flags>`, holds no `]` and reads back
/// as the link.
proof fn lemma_link_entry_reads_back(l: (Seq<char>, u8))
    requires
        link_dn_ok(l.0),
    ensures
        link_entry("LDAP://"@ + l.0 + ";"@ + dec_spec(l.1 as nat)) == Some(l),
        forall|m: int|
            0 <= m < ("LDAP://"@ + l.0 + ";"@ + dec_spec(l.1 as nat)).len() ==> #[trigger] (
            "LDAP://"@ + l.0 + ";"@ + dec_spec(l.1 as nat))[m] != ']',
{
    reveal_strlit("LDAP://");
    reveal_strlit("ldap://");
    reveal_strlit(";");
    let dn = l.0;
    let d = dec_spec(l.1 as nat);
    crate::text::lemma_dec_digits(l.1 as nat);
    let e = "LDAP://"@ + dn + ";"@ + d;
    assert forall|m: int| 0 <= m < e.len() implies e[m] != ']' by {
        if m >= 7 && m < 7 + dn.len() {
            assert(e[m] == dn[m - 7]);
        } else if m >= 8 + dn.len() {
            assert(e[m] == d[m - 8 - dn.len()]);
            assert('0' <= d[m - 8 - dn.len()]);
        }
    }
    let x = dn + ";"@ + d;
    assert(e =~= "LDAP://"@ + x);
    assert(e.take(7) =~= "LDAP://"@);
    assert(has_prefix(e, "LDAP://"@));
    assert(e.skip(7) =~= x);
    lemma_strip_after_dn(dn, d, "LDAP://"@);
    assert(strip_all(e, "LDAP://"@) == x);
    lemma_strip_after_dn(dn, d, "ldap://"@);
    assert forall|m: int| 0 <= m < d.len() implies d[m] != ';' by {
        assert('0' <= d[m] && d[m] <= '9');
    }
    assert(x =~= dn + seq![';'] + d);
    lemma_last_index_at(dn, d, ';');
    assert(x.take(dn.len() as int) =~= dn);
    assert(x.skip(dn.len() as int + 1) =~= d);
    lemma_parse_dec(l.1 as nat, false, 0, 255);
}

/// Links written with `build_gp_link` read back unchanged with
/// `parse_gp_link`, when each DN can stand in a `gPLink` entry.
#[verifier::rlimit(30)]
pub proof fn lemma_gp_link_roundtrip(links: Seq<(Seq<char>, u8)>)
    requires
        forall|i: int| 0 <= i < links.len() ==> link_dn_ok(#[trigger] links[i].0),
    ensures
        gp_links(gp_link_text(links)) == links,
    decreases links.len(),
{
    reveal_strlit("[LDAP://");
    reveal_strlit("LDAP://");
    reveal_strlit("]");
    if links.len() == 0 {
        assert(gp_links(Seq::<char>::empty()) =~= Seq::<(Seq<char>, u8)>::empty());
    } else {
        let l = links[0];
        let t = gp_link_text(links.drop_first());
        assert forall|i: int| 0 <= i < links.drop_first().len() implies link_dn_ok(
            #[trigger] links.drop_first()[i].0,
        ) by {
            assert(links.drop_first()[i] == links[i + 1]);
        }
        lemma_gp_link_roundtrip(links.drop_first());
        assert(link_dn_ok(links[0].0));
        lemma_link_entry_reads_back(l);
        let s = gp_link_text(links);
        let e = "LDAP://"@ + l.0 + ";"@ + dec_spec(l.1 as nat);
        assert(s =~= seq!['['] + (e + (seq![']'] + t)));
        assert(first_index(s, '[') == 0);
        let rest = s.skip(1);
        assert(rest =~= e + (seq![']'] + t));
        lemma_first_index_skip(e, seq![']'] + t, ']');
        assert(first_index(seq![']'] + t, ']') == 0);
        assert(rest.take(e.len() as int) =~= e);
        assert(rest.skip(e.len() as int + 1) =~= t);
        assert(gp_links(s) =~= seq![l] + gp_links(t));
        assert(links =~= seq![l] + links.drop_first());
    }
}

/// Stripping prefixes adds no `]`.
proof fn lemma_strip_no_close(s: Seq<char>, p: Seq<char>)
    requires
        forall|m: int| 0 <= m < s.len() ==> s[m] != ']',
    ensures
        forall|m: int| 0 <= m < strip_all(s, p).len() ==> strip_all(s, p)[m] != ']',
    decreases s.len(),
{
    if p.len() > 0 && has_prefix(s, p) {
        let t = s.skip(p.len() as int);
        assert forall|m: int| 0 <= m < t.len() implies t[m] != ']' by {
            assert(t[m] == s[m + p.len()]);
        }
        lemma_strip_no_close(t, p);
        assert(strip_all(s, p) == strip_all(t, p));
    } else {
        assert(strip_all(s, p) == s);
    }
}

/// No DN read from a `gPLink` value holds a `]`.
proof fn lemma_parsed_dns_no_close(s: Seq<char>)
    ensures
        forall|i: int, m: int|
            0 <= i < gp_links(s).len() && 0 <= m < gp_links(s)[i].0.len() ==> gp_links(s)[i].0[m]
                != ']',
    decreases s.len(),
{
    let i = first_index(s, '[');
    lemma_first_index_bounds(s, '[');
    if i < s.len() {
        let rest = s.skip(i + 1);
        let j = first_index(rest, ']');
        lemma_first_index_bounds(rest, ']');
        if j < rest.len() {
            let tail_text = rest.skip(j + 1);
            lemma_parsed_dns_no_close(tail_text);
            let entry = rest.take(j);
            assert forall|m: int| 0 <= m < entry.len() implies entry[m] != ']' by {
                assert(entry[m] == rest[m]);
            }
            lemma_strip_no_close(entry, "LDAP://"@);
            let e1 = strip_all(entry, "LDAP://"@);
            lemma_strip_no_close(e1, "ldap://"@);
            let e = strip_all(e1, "ldap://"@);
            let tail = gp_links(tail_text);
            match link_entry(entry) {
                Some(l) => {
                    let k = last_index(e, ';');
                    lemma_last_index_bounds(e, ';');
                    assert(l.0 == e.take(k));
                    assert(gp_links(s) == seq![l] + tail);
                    assert forall|a: int, m: int|
                        0 <= a < gp_links(s).len() && 0 <= m < gp_links(s)[a].0.len() implies gp_links(
                        s,
                    )[a].0[m] != ']' by {
                        if a == 0 {
                            assert(gp_links(s)[0] == l);
                            assert(l.0[m] == e.take(k)[m]);
                            assert(e.take(k)[m] == e[m]);
                        } else {
                            assert(gp_links(s)[a] == tail[a - 1]);
                        }
                    }
                },
                None => {
                    assert(gp_links(s) == tail);
                },
            }
        }
    }
}

/// Reading a value that begins with one written link: the entry's link (if
/// it reads as one), then the links of what follows, when the link's DN
/// holds no `]`.
proof fn lemma_link_text_parse(l: (Seq<char>, u8), x: Seq<char>)
    requires
        forall|m: int| 0 <= m < l.0.len() ==> l.0[m] != ']',
    ensures
        link_dn_ok(l.0) ==> gp_links(link_text(l) + x) == seq![l] + gp_links(x),
        gp_links(link_text(l) + x) == seq![l] + gp_links(x) || gp_links(link_text(l) + x) == gp_links(
            x,
        ) || exists|v: (Seq<char>, u8)| gp_links(link_text(l) + x) == seq![v] + gp_links(x),
{
    reveal_strlit("[LDAP://");
    reveal_strlit("LDAP://");
    reveal_strlit(";");
    reveal_strlit("]");
    let d = dec_spec(l.1 as nat);
    crate::text::lemma_dec_digits(l.1 as nat);
    let e = "LDAP://"@ + l.0 + ";"@ + d;
    assert forall|m: int| 0 <= m < e.len() implies e[m] != ']' by {
        if m >= 7 && m < 7 + l.0.len() {
            assert(e[m] == l.0[m - 7]);
        } else if m >= 8 + l.0.len() {
            assert(e[m] == d[m - 8 - l.0.len()]);
            assert('0' <= d[m - 8 - l.0.len()]);
        }
    }
    let s = link_text(l) + x;
    assert(s =~= seq!['['] + (e + (seq![']'] + x)));
    assert(first_index(s, '[') == 0);
    let rest = s.skip(1);
    assert(rest =~= e + (seq![']'] + x));
    lemma_first_index_skip(e, seq![']'] + x, ']');
    assert(first_index(seq![']'] + x, ']') == 0);
    assert(rest.take(e.len() as int) =~= e);
    assert(rest.skip(e.len() as int + 1) =~= x);
    match link_entry(e) {
        Some(v) => {
            assert(gp_links(s) == seq![v] + gp_links(x));
        },
        None => {
            assert(gp_links(s) == gp_links(x));
        },
    }
    if link_dn_ok(l.0) {
        lemma_link_entry_reads_back(l);
    }
}

// ── linking ──────────────────────────────────────────────────────────────────

/// The flags of the first link to the GPO whose lower-case DN is
/// `gpo_lower` (DNs compared in lower case).
pub open spec fn first_link_flags(links: Seq<(Seq<char>, u8)>, gpo_lower: Seq<char>) -> Option<u8>
    decreases links.len(),
{
    if links.len() == 0 {
        None
    } else if lowercase(links[0].0) == gpo_lower {
        Some(links[0].1)
    } else {
        first_link_flags(links.drop_first(), gpo_lower)
    }
}

/// The links that do not point at the GPO whose lower-case DN is
/// `gpo_lower`, in order.
pub open spec fn other_links(links: Seq<(Seq<char>, u8)>, gpo_lower: Seq<char>) -> Seq<
    (Seq<char>, u8),
> {
    links.filter(|l: (Seq<char>, u8)| lowercase(l.0) != gpo_lower)
}

/// The lower-case DN of each link.
fn lower_dns(links: &Vec<(String, u8)>) -> (r: Vec<String>)
    ensures
        r@.len() == links@.len(),
        forall|k: int| 0 <= k < links@.len() ==> (#[trigger] r@[k])@ == lowercase(links@[k].0@),
{
    let mut r: Vec<String> = Vec::new();
    let mut i: usize = 0;
    while i < links.len()
        invariant
            i <= links@.len(),
            r@.len() == i,
            forall|k: int| 0 <= k < i ==> (#[trigger] r@[k])@ == lowercase(links@[k].0@),
        decreases links@.len() - i,
    {
        r.push(to_lowercase(links[i].0.as_str()));
        i += 1;
    }
    r
}

/// The flags of the first link in `links` to the GPO whose lower-case DN is
/// `gpo_lower`.
fn find_link(links: &Vec<(String, u8)>, gpo_lower: &String) -> (r: Option<u8>)
    ensures
        r == first_link_flags(links_view(links@), gpo_lower@),
{
    let lows = lower_dns(links);
    let ghost lv = links_view(links@);
    let mut i: usize = 0;
    assert(lv.skip(0) =~= lv);
    while i < links.len()
        invariant
            i <= links@.len(),
            lv == links_view(links@),
            lows@.len() == links@.len(),
            forall|k: int| 0 <= k < links@.len() ==> (#[trigger] lows@[k])@ == lowercase(links@[k].0@),
            first_link_flags(lv, gpo_lower@) == first_link_flags(lv.skip(i as int), gpo_lower@),
        decreases links@.len() - i,
    {
        assert(lv.skip(i as int).drop_first() =~= lv.skip(i + 1));
        assert(lv.skip(i as int)[0] == (links@[i as int].0@, links@[i as int].1));
        if lows[i] == *gpo_lower {
            return Some(links[i].1);
        }
        i += 1;
    }
    None
}

/// The changes that link a GPO to a container whose `gPLink` value is
/// `current`: nothing when a link to it is there already (DNs compared in
/// lower case), otherwise the value with a new enabled link appended.
pub fn plan_link_gpo(current: &str, gpo_dn: &str) -> (r: Option<Vec<Modification>>)
    ensures
        match r {
            None => first_link_flags(gp_links(current@), lowercase(gpo_dn@)) is Some,
            Some(m) => first_link_flags(gp_links(current@), lowercase(gpo_dn@)) is None
                && mods_view(m@) == seq![
                text_mod(
                    ModOp::Replace,
                    "gPLink"@,
                    seq![gp_link_text(gp_links(current@).push((gpo_dn@, 0u8)))],
                ),
            ],
        },
        r matches Some(m) ==> mod_values_distinct(mods_view(m@)),
{
    let gpo_lower = to_lowercase(gpo_dn);
    let mut links = parse_gp_link(current);
    if find_link(&links, &gpo_lower).is_some() {
        return None;
    }
    let ghost before = links_view(links@);
    links.push((owned(gpo_dn), 0));
    assert(links_view(links@) =~= before.push((gpo_dn@, 0u8)));
    let text = build_gp_link(links.as_slice());
    Some(single(mod_one(ModOp::Replace, "gPLink", text.as_str())))
}

/// The changes that unlink a GPO from a container whose `gPLink` value is
/// `current`: every link to it is dropped (DNs compared in lower case); the
/// attribute is removed when no link is left.
pub fn plan_unlink_gpo(current: &str, gpo_dn: &str) -> (r: Vec<Modification>)
    ensures
        mods_view(r@) == if other_links(gp_links(current@), lowercase(gpo_dn@)).len() == 0 {
            seq![text_mod(ModOp::Delete, "gPLink"@, Seq::empty())]
        } else {
            seq![
                text_mod(
                    ModOp::Replace,
                    "gPLink"@,
                    seq![gp_link_text(other_links(gp_links(current@), lowercase(gpo_dn@)))],
                ),
            ]
        },
        mod_values_distinct(mods_view(r@)),
{
    let gpo_lower = to_lowercase(gpo_dn);
    let links = parse_gp_link(current);
    let lows = lower_dns(&links);
    let ghost lv = links_view(links@);
    let ghost pred = |l: (Seq<char>, u8)| lowercase(l.0) != gpo_lower@;
    let mut kept: Vec<(String, u8)> = Vec::new();
    let mut i: usize = 0;
    while i < links.len()
        invariant
            i <= links@.len(),
            lv == links_view(links@),
            lows@.len() == links@.len(),
            forall|k: int| 0 <= k < links@.len() ==> (#[trigger] lows@[k])@ == lowercase(links@[k].0@),
            pred == (|l: (Seq<char>, u8)| lowercase(l.0) != gpo_lower@),
            links_view(kept@) == lv.take(i as int).filter(pred),
        decreases links@.len() - i,
    {
        proof {
            assert(lv.take(i + 1) =~= lv.take(i as int).push(lv[i as int]));
            lv.take(i as int).lemma_filter_push(lv[i as int], pred);
        }
        if lows[i] != gpo_lower {
            let ghost before = links_view(kept@);
            kept.push((owned(links[i].0.as_str()), links[i].1));
            assert(links_view(kept@) =~= before.push(lv[i as int]));
        }
        i += 1;
    }
    assert(lv.take(i as int) =~= lv);
    assert(links_view(kept@) == other_links(gp_links(current@), gpo_lower@)) by {
        assert(pred =~= (|l: (Seq<char>, u8)| lowercase(l.0) != gpo_lower@));
    }
    if kept.len() == 0 {
        single(mod_none(ModOp::Delete, "gPLink"))
    } else {
        let text = build_gp_link(kept.as_slice());
        single(mod_one(ModOp::Replace, "gPLink", text.as_str()))
    }
}

proof fn lemma_first_link_flags_push(links: Seq<(Seq<char>, u8)>, l: (Seq<char>, u8), g: Seq<char>)
    ensures
        first_link_flags(links.push(l), g) == match first_link_flags(links, g) {
            Some(f) => Some(f),
            None => if lowercase(l.0) == g {
                Some(l.1)
            } else {
                None
            },
        },
    decreases links.len(),
{
    if links.len() > 0 {
        assert(links.push(l).drop_first() =~= links.drop_first().push(l));
        lemma_first_link_flags_push(links.drop_first(), l, g);
    } else {
        assert(links.push(l).drop_first() =~= links);
    }
}

/// Linking then unlinking a GPO gives back the links a container had: after
/// a link is added to links that had none to the GPO, reading the new value
/// finds the GPO linked (enabled), and dropping its links leaves the
/// original links.
pub proof fn lemma_link_then_unlink(links: Seq<(Seq<char>, u8)>, gpo_dn: Seq<char>)
    requires
        forall|i: int| 0 <= i < links.len() ==> link_dn_ok(#[trigger] links[i].0),
        link_dn_ok(gpo_dn),
        first_link_flags(links, lowercase(gpo_dn)) is None,
    ensures
        gp_links(gp_link_text(links.push((gpo_dn, 0u8)))) == links.push((gpo_dn, 0u8)),
        first_link_flags(links.push((gpo_dn, 0u8)), lowercase(gpo_dn)) == Some(0u8),
        other_links(links.push((gpo_dn, 0u8)), lowercase(gpo_dn)) == links,
{
    let g = lowercase(gpo_dn);
    let pushed = links.push((gpo_dn, 0u8));
    assert forall|i: int| 0 <= i < pushed.len() implies link_dn_ok(#[trigger] pushed[i].0) by {
        if i < links.len() {
            assert(pushed[i] == links[i]);
        }
    }
    lemma_gp_link_roundtrip(pushed);
    lemma_first_link_flags_push(links, (gpo_dn, 0u8), g);
    let pred = |l: (Seq<char>, u8)| lowercase(l.0) != g;
    links.lemma_filter_push((gpo_dn, 0u8), pred);
    lemma_no_link_filter(links, g);
}

/// The value written after a link is appended holds a link to that GPO.
proof fn lemma_pushed_link_found(links: Seq<(Seq<char>, u8)>, l: (Seq<char>, u8))
    requires
        forall|i: int, m: int|
            0 <= i < links.len() && 0 <= m < links[i].0.len() ==> links[i].0[m] != ']',
        link_dn_ok(l.0),
    ensures
        first_link_flags(gp_links(gp_link_text(links.push(l))), lowercase(l.0)) is Some,
    decreases links.len(),
{
    let g = lowercase(l.0);
    if links.len() == 0 {
        assert(links.push(l).drop_first() =~= Seq::<(Seq<char>, u8)>::empty());
        assert(gp_link_text(Seq::<(Seq<char>, u8)>::empty()) == Seq::<char>::empty());
        assert(gp_link_text(links.push(l)) =~= link_text(l) + Seq::<char>::empty());
        lemma_link_text_parse(l, Seq::<char>::empty());
        assert(gp_links(gp_link_text(links.push(l))) =~= seq![l] + gp_links(Seq::<char>::empty()));
    } else {
        let rest = links.drop_first();
        assert(links.push(l).drop_first() =~= rest.push(l));
        assert forall|i: int, m: int|
            0 <= i < rest.len() && 0 <= m < rest[i].0.len() implies rest[i].0[m] != ']' by {
            assert(rest[i] == links[i + 1]);
        }
        lemma_pushed_link_found(rest, l);
        let x = gp_link_text(rest.push(l));
        assert(gp_link_text(links.push(l)) == link_text(links[0]) + x);
        assert(forall|m: int| 0 <= m < links[0].0.len() ==> links[0].0[m] != ']');
        lemma_link_text_parse(links[0], x);
        let t = gp_links(x);
        let all = gp_links(link_text(links[0]) + x);
        if all != t {
            let v = choose|v: (Seq<char>, u8)| all == seq![v] + t;
            assert(all == seq![v] + t);
            assert(all.drop_first() =~= t);
        }
    }
}

/// Linking a GPO a second time changes nothing: once the value written by
/// the first link is stored, the container holds a link to the GPO, so
/// `plan_link_gpo` on that value plans no change. This holds whatever the
/// container held before, when the GPO's DN can stand in a `gPLink` entry.
pub proof fn lemma_link_idempotent(current: Seq<char>, gpo_dn: Seq<char>)
    requires
        link_dn_ok(gpo_dn),
    ensures
        first_link_flags(gp_links(current), lowercase(gpo_dn)) is None ==> first_link_flags(
            gp_links(gp_link_text(gp_links(current).push((gpo_dn, 0u8)))),
            lowercase(gpo_dn),
        ) is Some,
{
    lemma_parsed_dns_no_close(current);
    lemma_pushed_link_found(gp_links(current), (gpo_dn, 0u8));
}

proof fn lemma_kept_dns_ok(links: Seq<(Seq<char>, u8)>, gpo_lower: Seq<char>)
    requires
        forall|i: int| 0 <= i < links.len() ==> link_dn_ok(#[trigger] links[i].0),
    ensures
        forall|j: int|
            0 <= j < other_links(links, gpo_lower).len() ==> link_dn_ok(
                #[trigger] other_links(links, gpo_lower)[j].0,
            ),
    decreases links.len(),
{
    let pred = |l: (Seq<char>, u8)| lowercase(l.0) != gpo_lower;
    if links.len() > 0 {
        let init = links.drop_last();
        assert forall|i: int| 0 <= i < init.len() implies link_dn_ok(#[trigger] init[i].0) by {
            assert(init[i] == links[i]);
        }
        lemma_kept_dns_ok(init, gpo_lower);
        assert(links =~= init.push(links.last()));
        init.lemma_filter_push(links.last(), pred);
        assert(link_dn_ok(links[links.len() - 1].0));
        let k0 = other_links(init, gpo_lower);
        let k1 = other_links(links, gpo_lower);
        assert forall|j: int| 0 <= j < k1.len() implies link_dn_ok(#[trigger] k1[j].0) by {
            if j < k0.len() {
                assert(k1[j] == k0[j]);
            } else {
                assert(k1[j] == links.last());
            }
        }
    } else {
        reveal(Seq::filter);
        assert(other_links(links, gpo_lower) =~= links);
    }
}

/// After unlinking, no link to the GPO is left, and reading the new value
/// back gives the remaining links in their order (when their DNs can stand
/// in a `gPLink` entry).
pub proof fn lemma_unlink_removes(links: Seq<(Seq<char>, u8)>, gpo_lower: Seq<char>)
    ensures
        first_link_flags(other_links(links, gpo_lower), gpo_lower) is None,
        (forall|i: int| 0 <= i < links.len() ==> link_dn_ok(#[trigger] links[i].0)) ==> gp_links(
            gp_link_text(other_links(links, gpo_lower)),
        ) == other_links(links, gpo_lower),
    decreases links.len(),
{
    let pred = |l: (Seq<char>, u8)| lowercase(l.0) != gpo_lower;
    let kept = other_links(links, gpo_lower);
    if links.len() > 0 {
        let init = links.drop_last();
        lemma_unlink_removes(init, gpo_lower);
        assert(links =~= init.push(links.last()));
        init.lemma_filter_push(links.last(), pred);
        lemma_first_link_flags_push(other_links(init, gpo_lower), links.last(), gpo_lower);
    } else {
        reveal(Seq::filter);
        assert(kept =~= links);
    }
    if forall|i: int| 0 <= i < links.len() ==> link_dn_ok(#[trigger] links[i].0) {
        lemma_kept_dns_ok(links, gpo_lower);
        lemma_gp_link_roundtrip(kept);
    }
}

proof fn lemma_no_link_filter(links: Seq<(Seq<char>, u8)>, g: Seq<char>)
    requires
        first_link_flags(links, g) is None,
    ensures
        other_links(links, g) == links,
    decreases links.len(),
{
    if links.len() > 0 {
        let pred = |l: (Seq<char>, u8)| lowercase(l.0) != g;
        lemma_first_link_flags_drop_last(links, g);
        lemma_no_link_filter(links.drop_last(), g);
        assert(links =~= links.drop_last().push(links.last()));
        links.drop_last().lemma_filter_push(links.last(), pred);
    } else {
        reveal(Seq::filter);
        assert(other_links(links, g) =~= links);
    }
}

proof fn lemma_first_link_flags_drop_last(links: Seq<(Seq<char>, u8)>, g: Seq<char>)
    requires
        links.len() > 0,
        first_link_flags(links, g) is None,
    ensures
        first_link_flags(links.drop_last(), g) is None,
        lowercase(links.last().0) != g,
{
    assert(links =~= links.drop_last().push(links.last()));
    lemma_first_link_flags_push(links.drop_last(), links.last(), g);
}

/// The `gPLink` value of the container a base search found (empty when
/// there is none or it has no links).
pub fn current_gp_link(entries: &Vec<Entry>) -> (r: String)
    ensures
        r@ == if entries@.len() > 0 {
            attr_spec(entries@[0], "gPLink"@)
        } else {
            Seq::empty()
        },
{
    if entries.len() > 0 {
        attr(&entries[0], "gPLink")
    } else {
        String::new()
    }
}

// ── links of one GPO ─────────────────────────────────────────────────────────

/// A container a GPO is linked to.
pub struct GpoLink {
    pub ou_dn: String,
    pub ou_name: String,
    pub link_flags: u8,
    pub link_status: String,
}

/// The state shown for link flags.
pub open spec fn link_status_text(flags: u8) -> Seq<char> {
    if flags == 1 {
        "Disabled"@
    } else if flags == 2 {
        "Enforced"@
    } else if flags == 3 {
        "Disabled + Enforced"@
    } else {
        "Enabled"@
    }
}

/// What a link's status says of its flags: bit 0 disables the link and bit
/// 1 enforces it, so flags 0 read "Enabled", 1 "Disabled", 2 "Enforced" and
/// 3 "Disabled + Enforced"; any other value reads "Enabled". A link whose
/// flags are 1 or 3 is never shown as enabled.
pub proof fn lemma_link_status_meaning(flags: u8)
    ensures
        flags < 4 && flags % 2 == 0 && flags / 2 == 0 ==> link_status_text(flags) == "Enabled"@,
        flags < 4 && flags % 2 == 1 && flags / 2 == 0 ==> link_status_text(flags) == "Disabled"@,
        flags < 4 && flags % 2 == 0 && flags / 2 == 1 ==> link_status_text(flags) == "Enforced"@,
        flags < 4 && flags % 2 == 1 && flags / 2 == 1 ==> link_status_text(flags)
            == "Disabled + Enforced"@,
        flags >= 4 ==> link_status_text(flags) == "Enabled"@,
        flags < 4 && flags % 2 == 1 ==> link_status_text(flags) != "Enabled"@,
{
    reveal_strlit("Enabled");
    reveal_strlit("Disabled");
    reveal_strlit("Disabled + Enforced");
    assert("Enabled"@.len() != "Disabled"@.len());
    assert("Enabled"@.len() != "Disabled + Enforced"@.len());
}

fn link_status(flags: u8) -> (r: &'static str)
    ensures
        r@ == link_status_text(flags),
{
    if flags == 1 {
        "Disabled"
    } else if flags == 2 {
        "Enforced"
    } else if flags == 3 {
        "Disabled + Enforced"
    } else {
        "Enabled"
    }
}

/// The name shown for a container: its `ou`, or its `name` when it has no
/// `ou`.
pub open spec fn ou_or_name(e: Entry) -> Seq<char> {
    let n = attr_spec(e, "ou"@);
    if n.len() == 0 {
        attr_spec(e, "name"@)
    } else {
        n
    }
}

fn read_ou_or_name(e: &Entry) -> (r: String)
    ensures
        r@ == ou_or_name(*e),
{
    let n = attr(e, "ou");
    if n.as_str().is_empty() {
        attr(e, "name")
    } else {
        n
    }
}

/// The flags of the first link of entry `e` to the GPO `gpo_dn`.
pub open spec fn entry_link_flags(e: Entry, gpo_dn: Seq<char>) -> Option<u8> {
    first_link_flags(gp_links(attr_spec(e, "gPLink"@)), lowercase(gpo_dn))
}

/// The entries linked to the GPO, in search order.
pub open spec fn linked_entries(entries: Seq<Entry>, gpo_dn: Seq<char>) -> Seq<Entry> {
    entries.filter(|e: Entry| entry_link_flags(e, gpo_dn) is Some)
}

/// Whether `l` is the link shown for entry `e` with link flags `flags`.
pub open spec fn link_shows(l: GpoLink, e: Entry, flags: u8) -> bool {
    &&& l.ou_dn@ == e.dn@
    &&& l.ou_name@ == ou_or_name(e)
    &&& l.link_flags == flags
    &&& l.link_status@ == link_status_text(flags)
}

/// The containers linked to a GPO, from the entries that have a `gPLink`:
/// one per entry with a link to the GPO (the first such link counts), in
/// search order.
pub fn gpo_links_from_entries(entries: &Vec<Entry>, gpo_dn: &str) -> (r: Vec<GpoLink>)
    ensures
        r@.len() == linked_entries(entries@, gpo_dn@).len(),
        forall|k: int|
            0 <= k < r@.len() ==> link_shows(
                #[trigger] r@[k],
                linked_entries(entries@, gpo_dn@)[k],
                entry_link_flags(linked_entries(entries@, gpo_dn@)[k], gpo_dn@)->Some_0,
            ),
{
    let gpo_lower = to_lowercase(gpo_dn);
    let ghost pred = |e: Entry| entry_link_flags(e, gpo_dn@) is Some;
    let ghost mut linked: Seq<Entry> = Seq::empty();
    let mut out: Vec<GpoLink> = Vec::new();
    let mut i: usize = 0;
    while i < entries.len()
        invariant
            i <= entries@.len(),
            gpo_lower@ == lowercase(gpo_dn@),
            pred == (|e: Entry| entry_link_flags(e, gpo_dn@) is Some),
            linked == entries@.take(i as int).filter(pred),
            out@.len() == linked.len(),
            forall|k: int|
                0 <= k < out@.len() ==> link_shows(
                    #[trigger] out@[k],
                    linked[k],
                    entry_link_flags(linked[k], gpo_dn@)->Some_0,
                ),
        decreases entries@.len() - i,
    {
        proof {
            assert(entries@.take(i + 1) =~= entries@.take(i as int).push(entries@[i as int]));
            entries@.take(i as int).lemma_filter_push(entries@[i as int], pred);
        }
        let e = &entries[i];
        let gl = attr(e, "gPLink");
        let links = parse_gp_link(gl.as_str());
        match find_link(&links, &gpo_lower) {
            Some(flags) => {
                out.push(
                    GpoLink {
                        ou_dn: e.dn.clone(),
                        ou_name: read_ou_or_name(e),
                        link_flags: flags,
                        link_status: owned(link_status(flags)),
                    },
                );
                proof {
                    linked = linked.push(entries@[i as int]);
                }
            },
            None => {},
        }
        i += 1;
    }
    assert(entries@.take(i as int) =~= entries@);
    assert(linked == linked_entries(entries@, gpo_dn@)) by {
        assert(pred =~= (|e: Entry| entry_link_flags(e, gpo_dn@) is Some));
    }
    out
}

// ── the GPO list ─────────────────────────────────────────────────────────────

/// A Group Policy Object as listed.
pub struct LdapGpo {
    pub dn: String,
    pub guid: String,
    pub guid_url: String,
    pub display_name: String,
    pub flags: i32,
    pub version: i32,
    pub file_sys_path: String,
    pub status_label: String,
}

/// The state shown for GPO flags.
pub open spec fn gpo_status_text(flags: i32) -> Seq<char> {
    if flags == 1 {
        "User Config Disabled"@
    } else if flags == 2 {
        "Computer Config Disabled"@
    } else if flags == 3 {
        "All Settings Disabled"@
    } else {
        "Enabled"@
    }
}

/// The state shown for GPO flags: which halves of the policy are disabled.
pub fn gpo_status_label(flags: i32) -> (r: &'static str)
    ensures
        r@ == gpo_status_text(flags),
{
    if flags == 1 {
        "User Config Disabled"
    } else if flags == 2 {
        "Computer Config Disabled"
    } else if flags == 3 {
        "All Settings Disabled"
    } else {
        "Enabled"
    }
}

pub open spec fn is_brace(c: char) -> bool {
    c == '{' || c == '}'
}

/// `s` without leading braces.
pub open spec fn trim_braces_start(s: Seq<char>) -> Seq<char>
    decreases s.len(),
{
    if s.len() > 0 && is_brace(s[0]) {
        trim_braces_start(s.drop_first())
    } else {
        s
    }
}

/// `s` without trailing braces.
pub open spec fn trim_braces_end(s: Seq<char>) -> Seq<char>
    decreases s.len(),
{
    if s.len() > 0 && is_brace(s.last()) {
        trim_braces_end(s.drop_last())
    } else {
        s
    }
}

/// A GUID without its braces (`trim_matches` of `{` and `}`).
pub open spec fn trim_braces(s: Seq<char>) -> Seq<char> {
    trim_braces_end(trim_braces_start(s))
}

fn strip_braces(s: &str) -> (r: String)
    ensures
        r@ == trim_braces(s@),
{
    let c = chars_of(s);
    let mut start: usize = 0;
    assert(c@.skip(0) =~= c@);
    while start < c.len() && (c[start] == '{' || c[start] == '}')
        invariant
            start <= c@.len(),
            trim_braces_start(c@) == trim_braces_start(c@.skip(start as int)),
        decreases c@.len() - start,
    {
        assert(c@.skip(start as int).drop_first() =~= c@.skip(start + 1));
        start += 1;
    }
    let ghost t = c@.skip(start as int);
    let mut end: usize = c.len();
    assert(t.take(t.len() as int) =~= t);
    while end > start && (c[end - 1] == '{' || c[end - 1] == '}')
        invariant
            start <= end <= c@.len(),
            t == c@.skip(start as int),
            trim_braces_end(t) == trim_braces_end(c@.subrange(start as int, end as int)),
        decreases end,
    {
        assert(c@.subrange(start as int, end as int).drop_last() =~= c@.subrange(
            start as int,
            end - 1,
        ));
        end -= 1;
    }
    let inner = skip_chars(&c, start);
    let kept = take_chars(&inner, end - start);
    assert(kept@ =~= c@.subrange(start as int, end as int));
    string_of(&kept)
}

/// Attribute `key` read as an `i32`, 0 when absent or not a number.
pub open spec fn int32_attr_spec(e: Entry, key: Seq<char>) -> i32 {
    match parse_int_spec(attr_spec(e, key), true, i32::MIN as int, i32::MAX as int) {
        Some(v) => v as i32,
        None => 0,
    }
}

fn int32_attr(e: &Entry, key: &str) -> (r: i32)
    ensures
        r == int32_attr_spec(*e, key@),
{
    let v = attr(e, key);
    let c = chars_of(v.as_str());
    match parse_int(&c, true, i32::MIN as i64, i32::MAX as i64) {
        Some(x) => x as i32,
        None => 0,
    }
}

impl SortKey for LdapGpo {
    open spec fn sort_key(&self) -> Seq<char> {
        lowercase(self.display_name@)
    }

    fn key_chars(&self) -> (k: Vec<char>) {
        let l = to_lowercase(self.display_name.as_str());
        chars_of(l.as_str())
    }
}

impl Listed for LdapGpo {
    open spec fn shown(e: Entry, base: Seq<char>) -> bool {
        attr_spec(e, "cn"@).len() > 0
    }

    open spec fn entry_key(e: Entry, base: Seq<char>) -> Seq<char> {
        lowercase(attr_spec(e, "displayName"@))
    }

    /// Unparsable `flags` and `versionNumber` count as 0.
    open spec fn shows(self, e: Entry, base: Seq<char>) -> bool {
        &&& self.dn@ == e.dn@
        &&& self.guid@ == attr_spec(e, "cn"@)
        &&& self.guid_url@ == trim_braces(attr_spec(e, "cn"@))
        &&& self.display_name@ == attr_spec(e, "displayName"@)
        &&& self.flags == int32_attr_spec(e, "flags"@)
        &&& self.version == int32_attr_spec(e, "versionNumber"@)
        &&& self.file_sys_path@ == attr_spec(e, "gPCFileSysPath"@)
        &&& self.status_label@ == gpo_status_text(int32_attr_spec(e, "flags"@))
    }

    fn read(e: &Entry, base: &str) -> (r: Option<Self>) {
        let guid = attr(e, "cn");
        if guid.as_str().is_empty() {
            return None;
        }
        let flags = int32_attr(e, "flags");
        Some(
            LdapGpo {
                dn: e.dn.clone(),
                guid_url: strip_braces(guid.as_str()),
                guid,
                display_name: attr(e, "displayName"),
                flags,
                version: int32_attr(e, "versionNumber"),
                file_sys_path: attr(e, "gPCFileSysPath"),
                status_label: owned(gpo_status_label(flags)),
            },
        )
    }
}

/// The GPOs of a search of the policies container, as the GPO list shows
/// them: entries with a GUID, ordered by lower-case display name.
pub fn gpos_from_entries(entries: &Vec<Entry>) -> (r: Vec<LdapGpo>)
    ensures
        crate::directory::listing(r@, entries@, Seq::empty()),
{
    proof {
        reveal_strlit("");
        assert(""@ =~= Seq::<char>::empty());
    }
    crate::directory::list_entries(entries, "")
}

/// The display name of the listed GPO whose braceless GUID matches `guid`
/// (compared in upper case), or `guid` itself.
pub open spec fn gpo_name_for(gpos: Seq<LdapGpo>, guid: Seq<char>) -> Seq<char>
    decreases gpos.len(),
{
    if gpos.len() == 0 {
        guid
    } else if uppercase(gpos[0].guid_url@) == uppercase(guid) {
        gpos[0].display_name@
    } else {
        gpo_name_for(gpos.drop_first(), guid)
    }
}

/// The display name shown for a GPO given by its GUID.
pub fn gpo_display_name(gpos: &Vec<LdapGpo>, guid: &str) -> (r: String)
    ensures
        r@ == gpo_name_for(gpos@, guid@),
{
    let want = to_uppercase(guid);
    let mut i: usize = 0;
    assert(gpos@.skip(0) =~= gpos@);
    while i < gpos.len()
        invariant
            i <= gpos@.len(),
            want@ == uppercase(guid@),
            gpo_name_for(gpos@, guid@) == gpo_name_for(gpos@.skip(i as int), guid@),
        decreases gpos@.len() - i,
    {
        assert(gpos@.skip(i as int).drop_first() =~= gpos@.skip(i + 1));
        let u = to_uppercase(gpos[i].guid_url.as_str());
        if u == want {
            return gpos[i].display_name.clone();
        }
        i += 1;
    }
    owned(guid)
}

// ── GPO changes ──────────────────────────────────────────────────────────────

/// The container of the domain's GPOs.
pub fn policies_dn(base_dn: &str) -> (r: String)
    ensures
        r@ == "CN=Policies,CN=System,"@ + base_dn@,
{
    concat2("CN=Policies,CN=System,", base_dn)
}

/// The DN of the GPO with the given GUID (written without braces, in any
/// case).
pub fn gpo_dn_for_guid(guid: &str, base_dn: &str) -> (r: String)
    ensures
        r@ == "CN={"@ + uppercase(guid@) + "},CN=Policies,CN=System,"@ + base_dn@,
{
    let up = to_uppercase(guid);
    let head = concat3("CN={", up.as_str(), "},CN=Policies,CN=System,");
    concat2(head.as_str(), base_dn)
}

/// The modifications that rename a GPO and set its flags.
pub fn plan_update_gpo(display_name: &str, flags: i32) -> (r: Vec<Modification>)
    ensures
        mods_view(r@) == seq![
            text_mod(ModOp::Replace, "displayName"@, seq![display_name@]),
            text_mod(ModOp::Replace, "flags"@, seq![dec_signed_spec(flags as int)]),
        ],
        mod_values_distinct(mods_view(r@)),
{
    let f = decimal_signed(flags as i64);
    let mut mods: Vec<Modification> = Vec::new();
    mods.push(mod_one(ModOp::Replace, "displayName", display_name));
    mods.push(mod_one(ModOp::Replace, "flags", f.as_str()));
    assert(mods_view(mods@) =~= seq![
        text_mod(ModOp::Replace, "displayName"@, seq![display_name@]),
        text_mod(ModOp::Replace, "flags"@, seq![dec_signed_spec(flags as int)]),
    ]);
    mods
}

/// A GPO is listed with the flags it was last updated with, and their state.
pub proof fn lemma_gpo_flags_read_back(flags: i32, e: Entry)
    requires
        attr_spec(e, "flags"@) == dec_signed_spec(flags as int),
    ensures
        int32_attr_spec(e, "flags"@) == flags,
        gpo_status_text(int32_attr_spec(e, "flags"@)) == gpo_status_text(flags),
{
    lemma_parse_dec_signed(flags as int, i32::MIN as int, i32::MAX as int);
}

/// Whether `s` is a hyphenated lower-case UUID of version 4 (random).
pub open spec fn uuid_v4_text(s: Seq<char>) -> bool {
    &&& s.len() == 36
    &&& forall|i: int|
        0 <= i < 36 ==> if i == 8 || i == 13 || i == 18 || i == 23 {
            #[trigger] s[i] == '-'
        } else {
            ('0' <= s[i] && s[i] <= '9') || ('a' <= s[i] && s[i] <= 'f')
        }
    &&& s[14] == '4'
    &&& (s[19] == '8' || s[19] == '9' || s[19] == 'a' || s[19] == 'b')
}

/// uuid `Uuid::new_v4` in its `Display` form: a random version-4 UUID,
/// hyphenated, in lower-case hex. Which UUID comes back is chance; its shape
/// is stated.
#[verifier::external_body]
pub(crate) fn random_uuid_text() -> (r: String)
    ensures
        uuid_v4_text(r@),
{
    uuid::Uuid::new_v4().to_string()
}

/// A new GPO: its GUID in braces and the entry that creates it.
pub struct GpoCreation {
    pub guid: String,
    pub entry: NewEntry,
}

/// The attributes of a new GPO.
pub open spec fn new_gpo_attrs(guid: Seq<char>, display_name: Seq<char>, base_dn: Seq<char>) -> Seq<
    (Seq<u8>, Seq<Seq<u8>>),
> {
    let domain = domain_of(base_dn);
    seq![
        text_attr("objectClass"@, seq!["top"@, "container"@, "groupPolicyContainer"@]),
        text_attr("cn"@, seq![guid]),
        text_attr("displayName"@, seq![display_name]),
        text_attr(
            "gPCFileSysPath"@,
            seq![
                "\\\\"@ + domain + "\\SysVol\\"@ + domain + "\\Policies\\"@ + guid,
            ],
        ),
        text_attr("gPCFunctionalityVersion"@, seq!["2"@]),
        text_attr("flags"@, seq!["0"@]),
        text_attr("versionNumber"@, seq!["0"@]),
    ]
}

/// Whether `c` creates the GPO with the UUID `id` and the given display name
/// in the domain of `base_dn`: its GUID is the upper-case UUID in braces,
/// its files live under the domain's SysVol share.
pub open spec fn gpo_creation_of(
    c: GpoCreation,
    id: Seq<char>,
    display_name: Seq<char>,
    base_dn: Seq<char>,
) -> bool {
    let guid = "{"@ + uppercase(id) + "}"@;
    &&& c.guid@ == guid
    &&& c.entry.dn@ == "CN="@ + guid + ",CN=Policies,CN=System,"@ + base_dn
    &&& attrs_view(c.entry.attrs@) == new_gpo_attrs(guid, display_name, base_dn)
}

/// A new GPO is named as asked: its entry has a `displayName` attribute,
/// and every `displayName` attribute it has holds exactly the given display
/// name (in UTF-8), once.
pub proof fn lemma_gpo_display_name(
    c: GpoCreation,
    id: Seq<char>,
    display_name: Seq<char>,
    base_dn: Seq<char>,
)
    requires
        gpo_creation_of(c, id, display_name, base_dn),
    ensures
        exists|i: int|
            0 <= i < c.entry.attrs@.len() && #[trigger] c.entry.attrs@[i].0@ == encode_utf8(
                "displayName"@,
            ),
        forall|i: int|
            0 <= i < c.entry.attrs@.len() && #[trigger] c.entry.attrs@[i].0@ == encode_utf8(
                "displayName"@,
            ) ==> c.entry.attrs@[i].1.deep_view() == seq![encode_utf8(display_name)],
{
    broadcast use encode_utf8_decode_utf8;

    reveal_strlit("objectClass");
    reveal_strlit("cn");
    reveal_strlit("displayName");
    reveal_strlit("gPCFileSysPath");
    reveal_strlit("gPCFunctionalityVersion");
    reveal_strlit("flags");
    reveal_strlit("versionNumber");
    let guid = "{"@ + uppercase(id) + "}"@;
    let want = new_gpo_attrs(guid, display_name, base_dn);
    let a = c.entry.attrs@;
    assert(attrs_view(a) == want);
    assert(a.len() == 7) by {
        assert(attrs_view(a).len() == a.len());
    }
    assert(a[2].0@ == attrs_view(a)[2].0);
    assert(a[2].0@ == encode_utf8("displayName"@));
    assert forall|i: int|
        0 <= i < a.len() && #[trigger] a[i].0@ == encode_utf8("displayName"@) implies a[i].1.deep_view()
        == seq![encode_utf8(display_name)] by {
        assert(a[i].0@ == attrs_view(a)[i].0);
        assert(a[i].1.deep_view() == attrs_view(a)[i].1);
        if i != 2 {
            let names = seq![
                "objectClass"@,
                "cn"@,
                "displayName"@,
                "gPCFileSysPath"@,
                "gPCFunctionalityVersion"@,
                "flags"@,
                "versionNumber"@,
            ];
            assert(want[i].0 == encode_utf8(names[i]));
            assert(decode_utf8(encode_utf8(names[i])) == names[i]);
            assert(decode_utf8(encode_utf8("displayName"@)) == "displayName"@);
            assert(names[i] != "displayName"@) by {
                if i == 0 {
                    assert(names[i][0] != "displayName"@[0]);
                } else {
                    assert(names[i].len() != "displayName"@.len());
                }
            }
        } else {
            assert(want[2].1 =~= seq![encode_utf8(display_name)]);
        }
    }
}

/// The creation of a GPO whose UUID is `id`.
pub fn plan_create_gpo_with_id(id: &str, display_name: &str, base_dn: &str) -> (r: GpoCreation)
    ensures
        gpo_creation_of(r, id@, display_name@, base_dn@),
        vstd::utf8::is_ascii_chars(id@) ==> uppercase(id@) == ascii_upper(id@),
        values_distinct(attrs_view(r.entry.attrs@)),
{
    let up = to_uppercase(id);
    let guid = concat3("{", up.as_str(), "}");
    let domain = base_dn_to_domain(base_dn);
    let head = concat3("CN=", guid.as_str(), ",CN=Policies,CN=System,");
    let dn = concat2(head.as_str(), base_dn);
    let p1 = concat3("\\\\", domain.as_str(), "\\SysVol\\");
    let p2 = concat3(p1.as_str(), domain.as_str(), "\\Policies\\");
    let path = concat2(p2.as_str(), guid.as_str());
    let mut classes: Vec<String> = Vec::new();
    classes.push(owned("top"));
    classes.push(owned("container"));
    classes.push(owned("groupPolicyContainer"));
    assert(classes.deep_view() =~= seq!["top"@, "container"@, "groupPolicyContainer"@]);
    proof {
        lemma_object_classes_distinct();
    }
    let mut attrs: Vec<(Vec<u8>, Vec<Vec<u8>>)> = Vec::new();
    attrs.push(attr_many("objectClass", &classes));
    attrs.push(attr_one("cn", guid.as_str()));
    attrs.push(attr_one("displayName", display_name));
    attrs.push(attr_one("gPCFileSysPath", path.as_str()));
    attrs.push(attr_one("gPCFunctionalityVersion", "2"));
    attrs.push(attr_one("flags", "0"));
    attrs.push(attr_one("versionNumber", "0"));
    let r = GpoCreation { guid, entry: NewEntry { dn, attrs } };
    assert(attrs_view(r.entry.attrs@) =~= new_gpo_attrs(r.guid@, display_name@, base_dn@));
    r
}

/// The creation of a new GPO with a fresh random UUID.
pub fn plan_create_gpo(display_name: &str, base_dn: &str) -> (r: GpoCreation)
    ensures
        exists|id: Seq<char>| #[trigger]
            uuid_v4_text(id) && gpo_creation_of(r, id, display_name@, base_dn@) && uppercase(id)
                == ascii_upper(id),
        values_distinct(attrs_view(r.entry.attrs@)),
{
    let id = random_uuid_text();
    proof {
        assert(vstd::utf8::is_ascii_chars(id@)) by {
            assert forall|i: int| 0 <= i < id@.len() implies '\0' <= #[trigger] id@[i] <= '\u{7f}' by {
                if !(i == 8 || i == 13 || i == 18 || i == 23) {
                    assert(('0' <= id@[i] && id@[i] <= '9') || ('a' <= id@[i] && id@[i] <= 'f'));
                } else {
                    assert(id@[i] == '-');
                }
            }
        }
    }
    plan_create_gpo_with_id(id.as_str(), display_name, base_dn)
}

} // verus!
