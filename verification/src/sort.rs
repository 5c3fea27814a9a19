//! Stable sorting by a text key, as `slice::sort_by` with a key comparison
//! orders listings.

use vstd::prelude::*;
use crate::text::{chars_lt, seq_lt};

verus! {

/// A value listed in order of a text key.
pub trait SortKey {
    /// The key the value is ordered by.
    spec fn sort_key(&self) -> Seq<char>;

    /// Computes the key.
    fn key_chars(&self) -> (k: Vec<char>)
        ensures
            k@ == self.sort_key(),
    ;
}

/// Whether `p` lists every position of `keys` once, in increasing key order,
/// equal keys in their original order.
pub open spec fn is_stable_order(keys: Seq<Seq<char>>, p: Seq<int>) -> bool {
    &&& p.len() == keys.len()
    &&& forall|i: int| 0 <= i < p.len() ==> 0 <= #[trigger] p[i] < keys.len()
    &&& forall|i: int, j: int| 0 <= i < j < p.len() ==> #[trigger] p[i] != #[trigger] p[j]
    &&& forall|i: int, j: int|
        0 <= i < j < p.len() ==> seq_lt(keys[#[trigger] p[i]], keys[#[trigger] p[j]]) || (keys[p[i]]
            == keys[p[j]] && p[i] < p[j])
}

/// The keys of a sequence of values.
pub open spec fn keys_of<T: SortKey>(s: Seq<T>) -> Seq<Seq<char>> {
    s.map_values(|t: T| t.sort_key())
}

/// Whether `out` is `inp` stably sorted by key.
pub open spec fn sorted_stably<T: SortKey>(out: Seq<T>, inp: Seq<T>) -> bool {
    exists|p: Seq<int>| #[trigger]
        is_stable_order(keys_of(inp), p) && out == p.map_values(|i: int| inp[i])
}

/// No key sorts before itself.
pub proof fn lemma_seq_lt_irreflexive(a: Seq<char>)
    ensures
        !seq_lt(a, a),
    decreases a.len(),
{
    if a.len() > 0 {
        lemma_seq_lt_irreflexive(a.drop_first());
    }
}

/// Key order is transitive.
pub proof fn lemma_seq_lt_transitive(a: Seq<char>, b: Seq<char>, c: Seq<char>)
    requires
        seq_lt(a, b),
        seq_lt(b, c),
    ensures
        seq_lt(a, c),
    decreases a.len(),
{
    if a.len() > 0 && b.len() > 0 && c.len() > 0 && a[0] == b[0] && b[0] == c[0] {
        lemma_seq_lt_transitive(a.drop_first(), b.drop_first(), c.drop_first());
    }
}

/// Of two different keys, one sorts before the other.
pub proof fn lemma_seq_lt_total(a: Seq<char>, b: Seq<char>)
    ensures
        seq_lt(a, b) || a == b || seq_lt(b, a),
    decreases a.len(),
{
    if a.len() > 0 && b.len() > 0 && a[0] == b[0] {
        lemma_seq_lt_total(a.drop_first(), b.drop_first());
        if a.drop_first() == b.drop_first() {
            assert(a =~= seq![a[0]] + a.drop_first());
            assert(b =~= seq![b[0]] + b.drop_first());
        }
    } else if a.len() == 0 && b.len() == 0 {
        assert(a =~= b);
    } else if a.len() > 0 && b.len() > 0 {
        let x = a[0] as u32;
        let y = b[0] as u32;
        if x == y {
            vstd::utf8::char_u32_cast(a[0], x);
            vstd::utf8::char_u32_cast(b[0], y);
        }
    }
}

/// Sorts values by key, keeping values with equal keys in their original
/// order (what `sort_by` with a key comparison gives).
pub fn sort_stable<T: SortKey>(items: Vec<T>) -> (r: Vec<T>)
    ensures
        sorted_stably(r@, items@),
{
    let ghost inp = items@;
    let ghost ks = keys_of(inp);
    let mut items = items;
    let mut out: Vec<T> = Vec::new();
    let mut keys: Vec<Vec<char>> = Vec::new();
    let ghost mut p: Seq<int> = Seq::empty();
    while items.len() > 0
        invariant
            inp.len() >= items@.len(),
            ks == keys_of(inp),
            items@ == inp.take(items@.len() as int),
            p.len() == inp.len() - items@.len(),
            out@ == p.map_values(|i: int| inp[i]),
            keys.deep_view() == p.map_values(|i: int| ks[i]),
            forall|i: int| 0 <= i < p.len() ==> items@.len() <= #[trigger] p[i] < inp.len(),
            forall|i: int, j: int| 0 <= i < j < p.len() ==> #[trigger] p[i] != #[trigger] p[j],
            forall|i: int, j: int|
                0 <= i < j < p.len() ==> seq_lt(ks[#[trigger] p[i]], ks[#[trigger] p[j]]) || (
                ks[p[i]] == ks[p[j]] && p[i] < p[j]),
        decreases items@.len(),
    {
        let x = items.pop().unwrap();
        let ghost j = items@.len() as int;
        assert(x == inp[j]);
        assert(items@ =~= inp.take(j));
        let kx = x.key_chars();
        assert(kx@ == ks[j]);
        let mut pos: usize = 0;
        assert(keys.deep_view().len() == keys@.len());
        while pos < out.len() && chars_lt(&keys[pos], &kx)
            invariant
                pos <= out@.len(),
                out@.len() == keys@.len(),
                p.len() == out@.len(),
                kx@ == ks[j],
                keys.deep_view() == p.map_values(|i: int| ks[i]),
                forall|q: int| 0 <= q < pos ==> seq_lt(#[trigger] ks[p[q]], kx@),
            decreases out@.len() - pos,
        {
            assert(keys@[pos as int]@ =~= keys.deep_view()[pos as int]);
            pos += 1;
        }
        proof {
            if pos < out@.len() {
                assert(keys@[pos as int]@ =~= keys.deep_view()[pos as int]);
                assert(!seq_lt(ks[p[pos as int]], kx@));
            }
        }
        let ghost old_p = p;
        out.insert(pos, x);
        let ghost kdv = keys.deep_view();
        let ghost kv_before = keys@;
        let ghost kxv = kx@;
        keys.insert(pos, kx);
        proof {
            assert(keys@[pos as int].deep_view() =~= kxv);
            assert forall|i: int| 0 <= i < keys@.len() implies #[trigger] keys.deep_view()[i]
                == kdv.insert(pos as int, kxv)[i] by {
                if i < pos {
                    assert(keys@[i] == kv_before[i]);
                } else if i > pos {
                    assert(keys@[i] == kv_before[i - 1]);
                }
            }
            p = old_p.insert(pos as int, j);
            assert(keys.deep_view() =~= kdv.insert(pos as int, kx@));
            assert(keys.deep_view() =~= p.map_values(|i: int| ks[i]));
            assert(out@ =~= p.map_values(|i: int| inp[i]));
            assert forall|a: int, b: int| 0 <= a < b < p.len() implies seq_lt(
                ks[#[trigger] p[a]],
                ks[#[trigger] p[b]],
            ) || (ks[p[a]] == ks[p[b]] && p[a] < p[b]) by {
                if a < pos && b == pos {
                    assert(seq_lt(ks[old_p[a]], kx@));
                } else if a == pos && b > pos {
                    let q = b - 1;
                    let kq = ks[old_p[q]];
                    // kx <= key at pos <= key at q
                    let kp = ks[old_p[pos as int]];
                    lemma_seq_lt_total(kp, kx@);
                    if q > pos {
                        assert(seq_lt(kp, kq) || (kp == kq && old_p[pos as int] < old_p[q]));
                    }
                    if seq_lt(kx@, kp) && seq_lt(kp, kq) {
                        lemma_seq_lt_transitive(kx@, kp, kq);
                    }
                    assert(j < old_p[q]);
                } else if a < pos && b > pos {
                    assert(p[a] == old_p[a] && p[b] == old_p[b - 1]);
                } else if a > pos {
                    assert(p[a] == old_p[a - 1] && p[b] == old_p[b - 1]);
                } else {
                    assert(p[a] == old_p[a] && p[b] == old_p[b]);
                }
            }
            assert forall|a: int, b: int| 0 <= a < b < p.len() implies #[trigger] p[a]
                != #[trigger] p[b] by {
                if a == pos as int {
                    assert(p[b] == old_p[b - 1]);
                } else if b == pos as int {
                    assert(p[a] == old_p[a]);
                } else if a > pos {
                    assert(p[a] == old_p[a - 1] && p[b] == old_p[b - 1]);
                } else if b > pos {
                    assert(p[a] == old_p[a] && p[b] == old_p[b - 1]);
                } else {
                    assert(p[a] == old_p[a] && p[b] == old_p[b]);
                }
            }
            assert forall|a: int| 0 <= a < p.len() implies items@.len() <= #[trigger] p[a]
                < inp.len() by {
                if a < pos {
                    assert(p[a] == old_p[a]);
                } else if a > pos {
                    assert(p[a] == old_p[a - 1]);
                }
            }
        }
    }
    proof {
        assert(is_stable_order(ks, p));
    }
    out
}

} // verus!
