//! A stable sort of keyed items, and the keys that the library sorts by.
use vstd::prelude::*;

use crate::text::{chars_of, lemma_lex_refl, lemma_lex_total, lemma_lex_trans, lex_le, lex_le_chars};

verus! {

broadcast use vstd::seq_lib::group_seq_properties;

/// A key with a total preorder, compared in executable code by `le`.
pub trait SortKey: Sized {
    spec fn key_le(self, other: Self) -> bool;

    proof fn lemma_key_refl(a: Self)
        ensures
            a.key_le(a),
    ;

    proof fn lemma_key_total(a: Self, b: Self)
        ensures
            a.key_le(b) || b.key_le(a),
    ;

    proof fn lemma_key_trans(a: Self, b: Self, c: Self)
        requires
            a.key_le(b),
            b.key_le(c),
        ensures
            a.key_le(c),
    ;

    fn le(&self, other: &Self) -> (r: bool)
        ensures
            r == self.key_le(*other),
    ;
}

impl SortKey for usize {
    open spec fn key_le(self, other: Self) -> bool {
        self <= other
    }

    proof fn lemma_key_refl(a: Self) {
    }

    proof fn lemma_key_total(a: Self, b: Self) {
    }

    proof fn lemma_key_trans(a: Self, b: Self, c: Self) {
    }

    fn le(&self, other: &Self) -> (r: bool) {
        *self <= *other
    }
}

/// Strings are ordered as `Ord` orders them: lexicographically by code point.
impl SortKey for String {
    open spec fn key_le(self, other: Self) -> bool {
        lex_le(self@, other@)
    }

    proof fn lemma_key_refl(a: Self) {
        lemma_lex_refl(a@);
    }

    proof fn lemma_key_total(a: Self, b: Self) {
        lemma_lex_total(a@, b@);
    }

    proof fn lemma_key_trans(a: Self, b: Self, c: Self) {
        lemma_lex_trans(a@, b@, c@);
    }

    fn le(&self, other: &Self) -> (r: bool) {
        let a = chars_of(self.as_str());
        let b = chars_of(other.as_str());
        lex_le_chars(&a, &b)
    }
}

/// Items in order of their keys.
pub open spec fn keys_sorted<K: SortKey, T>(s: Seq<(K, T)>) -> bool {
    forall|p: int, q: int| 0 <= p < q < s.len() ==> (#[trigger] s[p]).0.key_le((#[trigger] s[q]).0)
}

/// Whether an item's key is equivalent to `k`.
pub open spec fn key_class<K: SortKey, T>(k: K) -> spec_fn((K, T)) -> bool {
    |x: (K, T)| k.key_le(x.0) && x.0.key_le(k)
}

/// `out` is `input` sorted stably by key: in key order, and the items of
/// each class of equivalent keys in the order they had in `input`.
pub open spec fn is_stable_sort<K: SortKey, T>(input: Seq<(K, T)>, out: Seq<(K, T)>) -> bool {
    &&& keys_sorted(out)
    &&& forall|k: K| #[trigger] out.filter(key_class::<K, T>(k)) == input.filter(key_class::<K, T>(k))
}

/// `perm` maps each position of `out` to a distinct position of `input`
/// holding the same item.
pub open spec fn perm_maps<A>(perm: Seq<int>, out: Seq<A>, input: Seq<A>) -> bool {
    &&& perm.len() == out.len()
    &&& out.len() == input.len()
    &&& forall|m: int| 0 <= m < out.len() ==> 0 <= #[trigger] perm[m] < input.len() && out[m] == input[perm[m]]
    &&& forall|p: int, q: int| 0 <= p < q < out.len() ==> #[trigger] perm[p] != #[trigger] perm[q]
}

/// `out` holds the items of `input`, rearranged.
pub open spec fn is_permutation_of<A>(out: Seq<A>, input: Seq<A>) -> bool {
    exists|perm: Seq<int>| perm_maps(perm, out, input)
}

proof fn lemma_insert_sorted<K: SortKey, T>(old: Seq<(K, T)>, j: int, x: (K, T))
    requires
        0 <= j <= old.len(),
        keys_sorted(old),
        forall|m: int| 0 <= m < j ==> (#[trigger] old[m]).0.key_le(x.0),
        j < old.len() ==> !old[j].0.key_le(x.0),
    ensures
        keys_sorted(old.insert(j, x)),
        forall|m: int| j <= m < old.len() ==> !(#[trigger] old[m]).0.key_le(x.0),
{
    let new = old.insert(j, x);
    assert forall|m: int| j <= m < old.len() implies !(#[trigger] old[m]).0.key_le(x.0) by {
        if m > j && old[m].0.key_le(x.0) {
            K::lemma_key_trans(old[j].0, old[m].0, x.0);
        }
    }
    if j < old.len() {
        K::lemma_key_total(old[j].0, x.0);
    }
    assert forall|p: int, q: int| 0 <= p < q < new.len() implies (#[trigger] new[p]).0.key_le(
        (#[trigger] new[q]).0,
    ) by {
        if q < j {
            assert(old[p].0.key_le(old[q].0));
        } else if p < j && q == j {
        } else if p < j && q > j {
            assert(old[p].0.key_le(old[q - 1].0));
        } else if p == j {
            assert(j < old.len());
            if q - 1 > j {
                assert(old[j].0.key_le(old[q - 1].0));
                K::lemma_key_trans(x.0, old[j].0, old[q - 1].0);
            }
        } else {
            assert(old[p - 1].0.key_le(old[q - 1].0));
        }
    }
}

proof fn lemma_insert_filter<K: SortKey, T>(old: Seq<(K, T)>, j: int, x: (K, T), k: K)
    requires
        0 <= j <= old.len(),
        forall|m: int| j <= m < old.len() ==> !(#[trigger] old[m]).0.key_le(x.0),
    ensures
        old.insert(j, x).filter(key_class::<K, T>(k)) == if key_class::<K, T>(k)(x) {
            old.filter(key_class::<K, T>(k)).push(x)
        } else {
            old.filter(key_class::<K, T>(k))
        },
{
    let f = key_class::<K, T>(k);
    let a = old.take(j);
    let b = old.skip(j);
    assert(old =~= a + b);
    assert(old.insert(j, x) =~= a + (seq![x] + b));
    Seq::filter_distributes_over_add(a, b, f);
    Seq::filter_distributes_over_add(a, seq![x] + b, f);
    Seq::filter_distributes_over_add(seq![x], b, f);
    assert(seq![x].filter(f) =~= if f(x) { seq![x] } else { Seq::empty() }) by {
        reveal_with_fuel(Seq::filter, 2);
        assert(seq![x].drop_last() =~= Seq::<(K, T)>::empty());
    }
    if f(x) {
        assert forall|m: int| 0 <= m < b.len() implies !f(#[trigger] b[m]) by {
            assert(b[m] == old[m + j]);
            if f(b[m]) {
                K::lemma_key_trans(b[m].0, k, x.0);
            }
        }
        b.lemma_all_neg_filter_empty(f);
        assert(b.filter(f) =~= Seq::<(K, T)>::empty());
        assert(a.filter(f) + (seq![x] + Seq::<(K, T)>::empty()) =~= (a.filter(f) + Seq::<(K, T)>::empty()).push(x));
    } else {
        assert(Seq::<(K, T)>::empty() + b.filter(f) =~= b.filter(f));
    }
}

/// Sorts `items` by key, keeping the order of items with equivalent keys.
pub fn sort_by_key_stable<K: SortKey, T>(items: Vec<(K, T)>) -> (out: Vec<(K, T)>)
    ensures
        is_stable_sort(items@, out@),
        is_permutation_of(out@, items@),
{
    let ghost orig = items@;
    let mut items = items;
    let mut out: Vec<(K, T)> = Vec::new();
    let ghost mut i: int = 0;
    let ghost mut perm: Seq<int> = Seq::empty();
    proof {
        assert(orig.skip(0) =~= orig);
    }
    while items.len() > 0
        invariant
            0 <= i <= orig.len(),
            items@ == orig.skip(i),
            keys_sorted(out@),
            perm_maps(perm, out@, orig.take(i)),
            forall|m: int| 0 <= m < perm.len() ==> #[trigger] perm[m] < i,
            forall|k: K| #[trigger] out@.filter(key_class::<K, T>(k)) == orig.take(i).filter(
                key_class::<K, T>(k),
            ),
        decreases items@.len(),
    {
        let x = items.remove(0);
        let mut j: usize = 0;
        while j < out.len() && out[j].0.le(&x.0)
            invariant
                j <= out@.len(),
                forall|m: int| 0 <= m < j ==> (#[trigger] out@[m]).0.key_le(x.0),
            decreases out@.len() - j,
        {
            j = j + 1;
        }
        let ghost prev = out@;
        proof {
            lemma_insert_sorted(prev, j as int, x);
        }
        out.insert(j, x);
        proof {
            assert(x == orig[i]);
            assert(orig.take(i + 1) =~= orig.take(i).push(x));
            assert forall|k: K| #[trigger] out@.filter(key_class::<K, T>(k)) == orig.take(i + 1).filter(
                key_class::<K, T>(k),
            ) by {
                lemma_insert_filter(prev, j as int, x, k);
                orig.take(i).lemma_filter_push(x, key_class::<K, T>(k));
            }
            assert(orig.skip(i + 1) =~= orig.skip(i).drop_first());
            let np = perm.insert(j as int, i);
            assert forall|m: int| 0 <= m < out@.len() implies 0 <= #[trigger] np[m] < orig.take(i + 1).len()
                && out@[m] == orig.take(i + 1)[np[m]] by {
                if m < j {
                    assert(np[m] == perm[m]);
                    assert(out@[m] == prev[m]);
                } else if m > j {
                    assert(np[m] == perm[m - 1]);
                    assert(out@[m] == prev[m - 1]);
                }
            }
            assert forall|p: int, q: int| 0 <= p < q < out@.len() implies #[trigger] np[p] != #[trigger] np[q] by {
                if p != j && q != j {
                    let pp = if p < j { p } else { p - 1 };
                    let qq = if q < j { q } else { q - 1 };
                    assert(np[p] == perm[pp]);
                    assert(np[q] == perm[qq]);
                } else if p == j {
                    assert(np[q] == perm[q - 1]);
                } else {
                    assert(np[p] == perm[p]);
                }
            }
            assert forall|m: int| 0 <= m < np.len() implies #[trigger] np[m] < i + 1 by {
                if m < j {
                    assert(np[m] == perm[m]);
                } else if m > j {
                    assert(np[m] == perm[m - 1]);
                }
            }
            perm = np;
            i = i + 1;
        }
    }
    proof {
        assert(orig.take(i) =~= orig);
        assert(perm_maps(perm, out@, orig));
    }
    out
}


/// The items of keyed pairs.
pub open spec fn items_of<K, T>(s: Seq<(K, T)>) -> Seq<T> {
    s.map_values(|x: (K, T)| x.1)
}

/// Filtering keyed pairs and then dropping the keys is dropping the keys and
/// then filtering, when the two predicates agree on every pair.
pub proof fn lemma_filter_items<K, T>(s: Seq<(K, T)>, p: spec_fn(T) -> bool, q: spec_fn((K, T)) -> bool)
    requires
        forall|m: int| 0 <= m < s.len() ==> q(#[trigger] s[m]) == p(s[m].1),
    ensures
        items_of(s).filter(p) == items_of(s.filter(q)),
    decreases s.len(),
{
    reveal(Seq::filter);
    if s.len() > 0 {
        let t = s.drop_last();
        assert forall|m: int| 0 <= m < t.len() implies q(#[trigger] t[m]) == p(t[m].1) by {
            assert(t[m] == s[m]);
        }
        lemma_filter_items(t, p, q);
        assert(items_of(s).drop_last() =~= items_of(t));
        assert(q(s[s.len() - 1]) == p(s[s.len() - 1].1));
        if q(s.last()) {
            assert(items_of(s.filter(q)) =~= items_of(t.filter(q)).push(s.last().1));
        } else {
            assert(items_of(s.filter(q)) =~= items_of(t.filter(q)));
        }
    } else {
        assert(items_of(s) =~= Seq::<T>::empty());
    }
}

/// In a stable sort every output item comes from the input.
pub proof fn lemma_stable_sort_from_input<K: SortKey, T>(input: Seq<(K, T)>, out: Seq<(K, T)>, m: int)
    requires
        is_stable_sort(input, out),
        is_permutation_of(out, input),
        0 <= m < out.len(),
    ensures
        input.contains(out[m]),
{
    let perm = choose|perm: Seq<int>| perm_maps(perm, out, input);
    assert(out[m] == input[perm[m]]);
}

/// Dropping the keys of a rearrangement rearranges the items.
pub proof fn lemma_items_permutation<K, T>(out: Seq<(K, T)>, input: Seq<(K, T)>)
    requires
        is_permutation_of(out, input),
    ensures
        is_permutation_of(items_of(out), items_of(input)),
{
    let perm = choose|perm: Seq<int>| perm_maps(perm, out, input);
    assert forall|m: int| 0 <= m < items_of(out).len() implies 0 <= #[trigger] perm[m] < items_of(input).len()
        && items_of(out)[m] == items_of(input)[perm[m]] by {
        assert(out[m] == input[perm[m]]);
    }
    assert(perm_maps(perm, items_of(out), items_of(input)));
}

} // verus!
