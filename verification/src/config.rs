//! Persistent user settings: custom browser order, favourite (default)
//! browser and per-browser shortcut letters, with the ordering and letter
//! resolution that the windows apply.
use vstd::prelude::*;

use crate::browsers::{browser_id, ids, Browser};
use crate::letters::{
    ids_unique, letters_text, letters_upper, lemma_letter_map_roundtrip, parse_letters,
    parse_letters_text, serialize_letters, LetterMap,
};
use crate::sort::{
    is_permutation_of, items_of, key_class, lemma_filter_items, lemma_items_permutation,
    lemma_stable_sort_from_input, sort_by_key_stable, SortKey,
};
use crate::text::{
    ascii_upper, ascii_upper_char, chars_of, is_ascii_letter, is_ascii_letter_char,
    join_strings, join_with, lemma_split_join_non_empty, non_empty, split_char, split_on,
    views, free_of, opt_view,
};

verus! {

broadcast use vstd::seq_lib::group_seq_properties;

/// The user's settings.
pub struct Settings {
    /// Browser ids (lower-cased exe paths) in the user's preferred order.
    pub order: Vec<String>,
    /// Favourite/default browser id, if set.
    pub favorite: Option<String>,
    /// User-configured shortcut letters, keyed by browser id.
    pub letters: LetterMap,
}

/// The text of a value that may be missing; a missing value reads as empty.
pub open spec fn text_or_empty(o: Option<String>) -> Seq<char> {
    match o {
        Some(s) => s@,
        None => Seq::empty(),
    }
}

/// The stored order: the non-empty `|`-separated pieces of the text.
pub open spec fn order_from_text(s: Seq<char>) -> Seq<Seq<char>> {
    split_on(s, '|').filter(non_empty())
}

/// The stored favourite: the text, unless it is empty.
pub open spec fn favorite_from_text(s: Seq<char>) -> Option<Seq<char>> {
    if s.len() > 0 {
        Some(s)
    } else {
        None
    }
}

/// The text a favourite is stored as: the id, or empty when there is none.
pub open spec fn favorite_text(f: Option<Seq<char>>) -> Seq<char> {
    match f {
        Some(s) => s,
        None => Seq::empty(),
    }
}

impl Settings {
    /// No order, no favourite, no letters: what a missing settings key reads as.
    pub fn empty() -> (s: Settings)
        ensures
            s.order@.len() == 0,
            s.favorite is None,
            s.letters@ == Map::<Seq<char>, char>::empty(),
    {
        Settings { order: Vec::new(), favorite: None, letters: LetterMap::new() }
    }
}

impl Default for Settings {
    /// No order, no favourite, no letters.
    fn default() -> (s: Settings)
        ensures
            s.order@.len() == 0,
            s.favorite is None,
            s.letters@ == Map::<Seq<char>, char>::empty(),
    {
        Settings::empty()
    }
}

/// The settings that the stored values `Order`, `Favorite` and `Letters`
/// describe (`None` for a value that could not be read).
pub fn settings_from_values(
    order: Option<String>,
    favorite: Option<String>,
    letters: Option<String>,
) -> (s: Settings)
    ensures
        views(s.order@) == order_from_text(text_or_empty(order)),
        opt_view(s.favorite) == favorite_from_text(text_or_empty(favorite)),
        s.letters@ == parse_letters_text(text_or_empty(letters)),
        ids_unique(s.letters.pairs()),
{
    let order_text = match order {
        Some(o) => o,
        None => String::new(),
    };
    let pieces = split_char(order_text.as_str(), '|');
    let ghost all = views(pieces@);
    let mut ids: Vec<String> = Vec::new();
    let mut pieces = pieces;
    let ghost mut k: int = 0;
    proof {
        assert(all.take(0) =~= Seq::<Seq<char>>::empty());
        reveal_with_fuel(Seq::filter, 1);
        assert(views(pieces@) =~= all.skip(0));
    }
    while pieces.len() > 0
        invariant
            0 <= k <= all.len(),
            views(pieces@) == all.skip(k),
            views(ids@) == all.take(k).filter(non_empty()),
        decreases pieces@.len(),
    {
        let ghost before = pieces@;
        let p = pieces.remove(0);
        let ghost pre = all.take(k);
        proof {
            assert(views(before).len() == all.len() - k);
            assert(views(before)[0] == all.skip(k)[0]);
            assert(p@ == all[k]);
            assert(views(pieces@) =~= views(before).drop_first());
            assert(all.take(k + 1) =~= pre.push(all[k]));
            pre.lemma_filter_push(all[k], non_empty());
            assert(all.skip(k + 1) =~= all.skip(k).drop_first());
        }
        if !p.as_str().is_empty() {
            let ghost old_ids = ids@;
            ids.push(p);
            proof {
                assert(views(ids@) =~= views(old_ids).push(all[k]));
            }
        }
        proof {
            k = k + 1;
        }
    }
    proof {
        assert(all.take(k) =~= all);
    }
    let favorite = match favorite {
        Some(f) => if f.as_str().is_empty() {
            None
        } else {
            Some(f)
        },
        None => None,
    };
    let letters_text = match letters {
        Some(l) => l,
        None => String::new(),
    };
    let letters = parse_letters(letters_text.as_str());
    Settings { order: ids, favorite, letters }
}

/// The values `Order`, `Favorite` and `Letters` that settings are stored as:
/// the ids joined by `|`, the favourite id or empty, and the letters as
/// `id=L` pairs joined by `|`.
pub fn settings_values(order: &Vec<String>, favorite: &Option<String>, letters: &LetterMap) -> (r: (
    String,
    String,
    String,
))
    ensures
        r.0@ == join_with(views(order@), '|'),
        r.1@ == favorite_text(opt_view(*favorite)),
        r.2@ == letters_text(letters.pairs()),
        ids_unique(letters.pairs()),
{
    let order_text = join_strings(order, '|');
    let favorite_value = match favorite {
        Some(f) => f.clone(),
        None => String::new(),
    };
    (order_text, favorite_value, serialize_letters(letters))
}

/// The favourite that reading back a stored favourite gives: the id, unless
/// it is empty.
pub open spec fn non_empty_favorite(f: Option<Seq<char>>) -> Option<Seq<char>> {
    match f {
        Some(id) => if id.len() > 0 {
            Some(id)
        } else {
            None
        },
        None => None,
    }
}

/// Settings read back after they were stored are the settings stored: the
/// order without its empty ids, when no id holds `|`; the favourite, unless
/// it is empty; the letters, when no id holds `|` and every letter is an
/// ASCII upper-case letter.
pub proof fn lemma_settings_roundtrip(order: Seq<Seq<char>>, favorite: Option<Seq<char>>, letters: LetterMap)
    requires
        free_of(order, '|'),
        ids_unique(letters.pairs()),
        forall|k: Seq<char>| #[trigger] letters@.contains_key(k) ==> !k.contains('|'),
        letters_upper(letters@),
    ensures
        order_from_text(join_with(order, '|')) == order.filter(non_empty()),
        favorite_from_text(favorite_text(favorite)) == non_empty_favorite(favorite),
        parse_letters_text(letters_text(letters.pairs())) == letters@,
{
    lemma_split_join_non_empty(order, '|');
    lemma_letter_map_roundtrip(letters);
}


/// The position of the first `x` in `s`, if any.
pub open spec fn position_of(s: Seq<Seq<char>>, x: Seq<char>) -> Option<int>
    decreases s.len(),
{
    if s.len() == 0 {
        None
    } else if s[0] == x {
        Some(0)
    } else {
        match position_of(s.drop_first(), x) {
            Some(i) => Some(i + 1),
            None => None,
        }
    }
}

proof fn lemma_position_found(s: Seq<Seq<char>>, x: Seq<char>, k: int)
    requires
        0 <= k < s.len(),
        s[k] == x,
        forall|m: int| 0 <= m < k ==> #[trigger] s[m] != x,
    ensures
        position_of(s, x) == Some(k),
    decreases k,
{
    if k > 0 {
        lemma_position_found(s.drop_first(), x, k - 1);
    }
}

proof fn lemma_position_none(s: Seq<Seq<char>>, x: Seq<char>)
    requires
        forall|m: int| 0 <= m < s.len() ==> #[trigger] s[m] != x,
    ensures
        position_of(s, x) is None,
    decreases s.len(),
{
    if s.len() > 0 {
        lemma_position_none(s.drop_first(), x);
    }
}

/// Where a browser goes in the user's order: the position of its id, or
/// `usize::MAX` (after every listed browser) when the order does not list it.
pub open spec fn order_rank(order: Seq<Seq<char>>, b: Browser) -> int {
    match position_of(order, browser_id(b)) {
        Some(i) => i,
        None => usize::MAX as int,
    }
}

/// A browser that the order lists ranks at the first position of its id;
/// one that it does not list ranks after every listed one.
pub proof fn lemma_order_rank(order: Seq<Seq<char>>, b: Browser)
    ensures
        forall|i: int|
            0 <= i < order.len() && #[trigger] order[i] == browser_id(b) && (forall|m: int| 0 <= m < i ==> order[m] != browser_id(b))
                ==> order_rank(order, b) == i,
        (forall|i: int| 0 <= i < order.len() ==> #[trigger] order[i] != browser_id(b)) ==> order_rank(order, b) == usize::MAX,
{
    assert forall|i: int|
        0 <= i < order.len() && #[trigger] order[i] == browser_id(b) && (forall|m: int| 0 <= m < i ==> order[m] != browser_id(b))
            implies order_rank(order, b) == i by {
        lemma_position_found(order, browser_id(b), i);
    }
    if forall|i: int| 0 <= i < order.len() ==> #[trigger] order[i] != browser_id(b) {
        lemma_position_none(order, browser_id(b));
    }
}

/// Whether a browser's rank in `order` is `k`.
pub open spec fn has_rank(order: Seq<Seq<char>>, k: usize) -> spec_fn(Browser) -> bool {
    |b: Browser| order_rank(order, b) == k as int
}

/// The position of string `x` among `v`, or `usize::MAX`.
fn rank_in(v: &Vec<String>, x: &String) -> (r: usize)
    ensures
        r as int == match position_of(views(v@), x@) {
            Some(i) => i,
            None => usize::MAX as int,
        },
{
    let mut k: usize = 0;
    while k < v.len()
        invariant
            k <= v@.len(),
            forall|m: int| 0 <= m < k ==> #[trigger] views(v@)[m] != x@,
        decreases v@.len() - k,
    {
        if v[k] == *x {
            proof {
                lemma_position_found(views(v@), x@, k as int);
            }
            return k;
        }
        k = k + 1;
    }
    proof {
        lemma_position_none(views(v@), x@);
    }
    usize::MAX
}

/// The result of `apply` for a favourite: the position of the first listed
/// browser whose id is the favourite.
pub open spec fn favorite_position(list: Seq<Browser>, favorite: Option<Seq<char>>) -> Option<int> {
    match favorite {
        Some(f) => position_of(ids(list), f),
        None => None,
    }
}

/// The index of the first browser of `list` whose id is `f`.
fn first_with_id(list: &Vec<Browser>, f: &String) -> (r: Option<usize>)
    ensures
        match r {
            Some(i) => position_of(ids(list@), f@) == Some(i as int),
            None => position_of(ids(list@), f@) is None,
        },
{
    let mut k: usize = 0;
    while k < list.len()
        invariant
            k <= list@.len(),
            forall|m: int| 0 <= m < k ==> #[trigger] ids(list@)[m] != f@,
        decreases list@.len() - k,
    {
        let id = list[k].id();
        if id == *f {
            proof {
                lemma_position_found(ids(list@), f@, k as int);
            }
            return Some(k);
        }
        k = k + 1;
    }
    proof {
        lemma_position_none(ids(list@), f@);
    }
    None
}

/// Reorders `list` by the saved order and returns the favourite's index.
/// Browsers that the order lists come first, in its order; the rest follow
/// in their given order. The favourite's index is that of the first browser
/// whose id is the favourite, if any.
pub fn apply(list: Vec<Browser>, s: &Settings) -> (r: (Vec<Browser>, Option<usize>))
    ensures
        forall|p: int, q: int|
            0 <= p < q < r.0@.len() ==> order_rank(views(s.order@), #[trigger] r.0@[p]) <= order_rank(
                views(s.order@),
                #[trigger] r.0@[q],
            ),
        forall|k: usize| #[trigger] r.0@.filter(has_rank(views(s.order@), k)) == list@.filter(has_rank(views(s.order@), k)),
        is_permutation_of(r.0@, list@),
        match r.1 {
            Some(i) => favorite_position(r.0@, opt_view(s.favorite)) == Some(i as int),
            None => favorite_position(r.0@, opt_view(s.favorite)) is None,
        },
{
    let ghost order = views(s.order@);
    let ghost orig = list@;
    let mut list = list;
    let mut pairs: Vec<(usize, Browser)> = Vec::new();
    let ghost mut i: int = 0;
    proof {
        assert(orig.skip(0) =~= orig);
    }
    while list.len() > 0
        invariant
            0 <= i <= orig.len(),
            list@ == orig.skip(i),
            order == views(s.order@),
            items_of(pairs@) == orig.take(i),
            forall|m: int| 0 <= m < pairs@.len() ==> (#[trigger] pairs@[m]).0 as int == order_rank(order, pairs@[m].1),
        decreases list@.len(),
    {
        let ghost before = list@;
        let b = list.remove(0);
        let id = b.id();
        let rank = rank_in(&s.order, &id);
        proof {
            assert(b == before[0]);
            assert(b == orig[i]);
        }
        let ghost old_pairs = pairs@;
        pairs.push((rank, b));
        proof {
            assert(pairs@ == old_pairs.push((rank, b)));
            assert(items_of(pairs@) =~= items_of(old_pairs).push(b));
            assert(orig.take(i + 1) =~= orig.take(i).push(orig[i]));
            assert(items_of(pairs@) =~= orig.take(i + 1));
            assert(orig.skip(i + 1) =~= orig.skip(i).drop_first());
            i = i + 1;
        }
    }
    proof {
        assert(orig.take(i) =~= orig);
    }
    let ghost input = pairs@;
    let mut sorted = sort_by_key_stable(pairs);
    let ghost sv = sorted@;
    proof {
        assert forall|m: int| 0 <= m < sv.len() implies (#[trigger] sv[m]).0 as int == order_rank(order, sv[m].1) by {
            lemma_stable_sort_from_input(input, sv, m);
            let j = choose|j: int| 0 <= j < input.len() && input[j] == sv[m];
        }
        assert forall|k: usize| #[trigger] items_of(sv).filter(has_rank(order, k)) == orig.filter(has_rank(order, k)) by {
            let q = key_class::<usize, Browser>(k);
            lemma_filter_items(sv, has_rank(order, k), q);
            lemma_filter_items(input, has_rank(order, k), q);
            assert(sv.filter(q) == input.filter(q));
        }
        lemma_items_permutation(sv, input);
    }
    let mut r: Vec<Browser> = Vec::new();
    let ghost mut j: int = 0;
    while sorted.len() > 0
        invariant
            0 <= j <= sv.len(),
            sorted@ == sv.skip(j),
            r@ == items_of(sv).take(j),
        decreases sorted@.len(),
    {
        let (_k, b) = sorted.remove(0);
        r.push(b);
        proof {
            assert(r@ =~= items_of(sv).take(j + 1));
            assert(sv.skip(j + 1) =~= sv.skip(j).drop_first());
            j = j + 1;
        }
    }
    proof {
        assert(r@ =~= items_of(sv));
        assert forall|p: int, q: int| 0 <= p < q < r@.len() implies order_rank(order, #[trigger] r@[p]) <= order_rank(
            order,
            #[trigger] r@[q],
        ) by {
            assert(sv[p].0.key_le(sv[q].0));
        }
    }
    let fav = match &s.favorite {
        Some(f) => first_with_id(&r, f),
        None => None,
    };
    (r, fav)
}


/// The letter configured for browser `i`, when it is an ASCII letter.
pub open spec fn configured_letter(list: Seq<Browser>, configured: Map<Seq<char>, char>, i: int) -> Option<char> {
    let id = browser_id(list[i]);
    if configured.contains_key(id) && is_ascii_letter(configured[id]) {
        Some(configured[id])
    } else {
        None
    }
}

/// The first pass: a browser gets its configured letter unless an earlier
/// browser has the same letter configured.
pub open spec fn first_pass(list: Seq<Browser>, configured: Map<Seq<char>, char>, i: int) -> Option<char> {
    match configured_letter(list, configured, i) {
        Some(c) => if forall|j: int| 0 <= j < i ==> configured_letter(list, configured, j) != Some(c) {
            Some(c)
        } else {
            None
        },
        None => None,
    }
}

/// The first ASCII letter of a name, upper-cased.
pub open spec fn first_letter(s: Seq<char>) -> Option<char>
    decreases s.len(),
{
    if s.len() == 0 {
        None
    } else if is_ascii_letter(s[0]) {
        Some(ascii_upper(s[0]))
    } else {
        first_letter(s.drop_first())
    }
}

/// The automatic letter of a name is its first ASCII letter, upper-cased;
/// a name without an ASCII letter has none.
pub proof fn lemma_first_letter(s: Seq<char>)
    ensures
        forall|k: int|
            0 <= k < s.len() && is_ascii_letter(#[trigger] s[k]) && (forall|m: int| 0 <= m < k ==> !is_ascii_letter(s[m]))
                ==> first_letter(s) == Some(ascii_upper(s[k])),
        (forall|k: int| 0 <= k < s.len() ==> !is_ascii_letter(#[trigger] s[k])) <==> first_letter(s) is None,
    decreases s.len(),
{
    if s.len() > 0 {
        let t = s.drop_first();
        lemma_first_letter(t);
        assert forall|k: int|
            0 <= k < s.len() && is_ascii_letter(#[trigger] s[k]) && (forall|m: int| 0 <= m < k ==> !is_ascii_letter(s[m]))
                implies first_letter(s) == Some(ascii_upper(s[k])) by {
            if k > 0 {
                assert(!is_ascii_letter(s[0]));
                assert(t[k - 1] == s[k]);
                assert forall|m: int| 0 <= m < k - 1 implies !is_ascii_letter(t[m]) by {
                    assert(t[m] == s[m + 1]);
                }
            }
        }
        if forall|k: int| 0 <= k < s.len() ==> !is_ascii_letter(#[trigger] s[k]) {
            assert(!is_ascii_letter(s[0]));
            assert forall|k: int| 0 <= k < t.len() implies !is_ascii_letter(#[trigger] t[k]) by {
                assert(t[k] == s[k + 1]);
            }
        }
        if first_letter(s) is None {
            assert(!is_ascii_letter(s[0]));
            assert forall|k: int| 0 <= k < s.len() implies !is_ascii_letter(#[trigger] s[k]) by {
                if k > 0 {
                    assert(s[k] == t[k - 1]);
                }
            }
        }
    }
}

/// A configured ASCII letter that no earlier browser has configured is the
/// browser's letter; with nothing configured, the first browser gets the
/// first letter of its name.
pub proof fn lemma_configured_letter_wins(list: Seq<Browser>, configured: Map<Seq<char>, char>, i: int)
    requires
        0 <= i < list.len(),
    ensures
        configured.contains_key(browser_id(list[i])) && is_ascii_letter(configured[browser_id(list[i])]) && (forall|j: int|
            0 <= j < i && #[trigger] configured.contains_key(browser_id(list[j])) ==> configured[browser_id(list[j])]
                != configured[browser_id(list[i])]) ==> effective_letter(list, configured, i) == Some(
            configured[browser_id(list[i])],
        ),
        configured == Map::<Seq<char>, char>::empty() ==> effective_letter(list, configured, i) == if exists|j: int|
            0 <= j < i && #[trigger] first_letter(list[j].name@) == first_letter(list[i].name@) {
            None
        } else {
            first_letter(list[i].name@)
        },
{
    let id = browser_id(list[i]);
    if configured.contains_key(id) && is_ascii_letter(configured[id]) && (forall|j: int|
        0 <= j < i && #[trigger] configured.contains_key(browser_id(list[j])) ==> configured[browser_id(list[j])]
            != configured[id]) {
        let c = configured[id];
        assert forall|j: int| 0 <= j < i implies configured_letter(list, configured, j) != Some(c) by {
            if configured.contains_key(browser_id(list[j])) {
            }
        }
    }
    if configured == Map::<Seq<char>, char>::empty() {
        assert forall|k: int| 0 <= k < list.len() implies #[trigger] first_pass(list, configured, k) is None by {
            assert(configured_letter(list, configured, k) is None);
        }
        match first_letter(list[i].name@) {
            Some(a) => {
                assert(!claimed_first(list, configured, a));
                if exists|j: int| 0 <= j < i && #[trigger] first_letter(list[j].name@) == first_letter(list[i].name@) {
                    let j = choose|j: int| 0 <= j < i && #[trigger] first_letter(list[j].name@) == first_letter(list[i].name@);
                    assert(asks_second(list, configured, j, a));
                } else {
                    assert forall|j: int| 0 <= j < i implies !asks_second(list, configured, j, a) by {
                        if asks_second(list, configured, j, a) {
                            assert(first_letter(list[j].name@) == first_letter(list[i].name@));
                        }
                    }
                }
            },
            None => {},
        }
    }
}

/// The favourite's index is that of the first browser with the favourite's
/// id; there is none when no browser has it, or no favourite is set.
pub proof fn lemma_favorite_position(list: Seq<Browser>, f: Seq<char>)
    ensures
        forall|i: int|
            0 <= i < list.len() && browser_id(#[trigger] list[i]) == f && (forall|m: int| 0 <= m < i ==> browser_id(list[m]) != f)
                ==> favorite_position(list, Some(f)) == Some(i),
        (forall|i: int| 0 <= i < list.len() ==> browser_id(#[trigger] list[i]) != f) ==> favorite_position(list, Some(f)) is None,
        favorite_position(list, None) is None,
{
    let s = ids(list);
    assert forall|i: int|
        0 <= i < list.len() && browser_id(#[trigger] list[i]) == f && (forall|m: int| 0 <= m < i ==> browser_id(list[m]) != f)
            implies favorite_position(list, Some(f)) == Some(i) by {
        assert(s[i] == f);
        assert forall|m: int| 0 <= m < i implies #[trigger] s[m] != f by {
            assert(s[m] == browser_id(list[m]));
        }
        lemma_position_found(s, f, i);
    }
    if forall|i: int| 0 <= i < list.len() ==> browser_id(#[trigger] list[i]) != f {
        assert forall|m: int| 0 <= m < s.len() implies #[trigger] s[m] != f by {
            assert(s[m] == browser_id(list[m]));
        }
        lemma_position_none(s, f);
    }
}

/// Whether the first pass gives letter `c` to some browser.
pub open spec fn claimed_first(list: Seq<Browser>, configured: Map<Seq<char>, char>, c: char) -> bool {
    exists|k: int| 0 <= k < list.len() && first_pass(list, configured, k) == Some(c)
}

/// Whether browser `j` asks for letter `a` in the second pass.
pub open spec fn asks_second(list: Seq<Browser>, configured: Map<Seq<char>, char>, j: int, a: char) -> bool {
    first_pass(list, configured, j) is None && first_letter(list[j].name@) == Some(a)
}

/// The shortcut letter of browser `i`: its configured letter from the first
/// pass; otherwise the first letter of its name, upper-cased, unless the
/// first pass gave that letter away or an earlier browser asked for it in
/// the second pass.
pub open spec fn effective_letter(list: Seq<Browser>, configured: Map<Seq<char>, char>, i: int) -> Option<char> {
    match first_pass(list, configured, i) {
        Some(c) => Some(c),
        None => match first_letter(list[i].name@) {
            Some(a) => if !claimed_first(list, configured, a) && forall|j: int|
                0 <= j < i ==> !asks_second(list, configured, j, a) {
                Some(a)
            } else {
                None
            },
            None => None,
        },
    }
}

/// No two browsers get the same shortcut letter.
pub proof fn lemma_letters_distinct(list: Seq<Browser>, configured: Map<Seq<char>, char>, p: int, q: int)
    requires
        0 <= p < q < list.len(),
        effective_letter(list, configured, p) is Some,
    ensures
        effective_letter(list, configured, p) != effective_letter(list, configured, q),
{
    let c = effective_letter(list, configured, p).unwrap();
    if effective_letter(list, configured, q) == Some(c) {
        if first_pass(list, configured, p) is Some {
            if first_pass(list, configured, q) is Some {
                assert(configured_letter(list, configured, p) == Some(c));
            } else {
                assert(claimed_first(list, configured, c));
            }
        } else {
            if first_pass(list, configured, q) is Some {
                assert(claimed_first(list, configured, c));
            } else {
                assert(asks_second(list, configured, p, c));
            }
        }
    }
}

proof fn lemma_configured_claimed(list: Seq<Browser>, configured: Map<Seq<char>, char>, j: int, c: char)
    requires
        0 <= j < list.len(),
        configured_letter(list, configured, j) == Some(c),
    ensures
        claimed_first(list, configured, c),
    decreases j,
{
    if exists|m: int| 0 <= m < j && configured_letter(list, configured, m) == Some(c) {
        let m = choose|m: int| 0 <= m < j && configured_letter(list, configured, m) == Some(c);
        lemma_configured_claimed(list, configured, m, c);
    } else {
        assert(first_pass(list, configured, j) == Some(c));
    }
}

/// The first ASCII letter of `name`, upper-cased.
fn name_letter(name: &String) -> (r: Option<char>)
    ensures
        r == first_letter(name@),
{
    let v = chars_of(name.as_str());
    let mut k: usize = 0;
    proof {
        assert(v@.skip(0) =~= v@);
    }
    while k < v.len()
        invariant
            v@ == name@,
            k <= v@.len(),
            first_letter(v@) == first_letter(v@.skip(k as int)),
        decreases v@.len() - k,
    {
        proof {
            assert(v@.skip(k as int)[0] == v@[k as int]);
            assert(v@.skip(k as int).drop_first() =~= v@.skip(k + 1));
        }
        if is_ascii_letter_char(v[k]) {
            return Some(ascii_upper_char(v[k]));
        }
        k = k + 1;
    }
    None
}

fn contains_char(v: &Vec<char>, c: char) -> (r: bool)
    ensures
        r == v@.contains(c),
{
    let mut k: usize = 0;
    while k < v.len()
        invariant
            k <= v@.len(),
            forall|m: int| 0 <= m < k ==> v@[m] != c,
        decreases v@.len() - k,
    {
        if v[k] == c {
            proof {
                assert(v@[k as int] == c);
            }
            return true;
        }
        k = k + 1;
    }
    false
}

/// Resolves the shortcut letter of each browser: a configured letter wins;
/// otherwise the first alphabetic character of the name is used. Each
/// letter is claimed once, first come: a browser whose letter is taken gets
/// none.
pub fn effective_letters(browsers: &Vec<Browser>, configured: &LetterMap) -> (r: Vec<Option<char>>)
    ensures
        r@.len() == browsers@.len(),
        forall|i: int| 0 <= i < r@.len() ==> #[trigger] r@[i] == effective_letter(browsers@, configured@, i),
        forall|p: int, q: int| 0 <= p < q < r@.len() && (#[trigger] r@[p]) is Some ==> r@[p] != #[trigger] r@[q],
{
    let ghost list = browsers@;
    let ghost conf = configured@;
    let n = browsers.len();
    let mut out: Vec<Option<char>> = Vec::new();
    while out.len() < n
        invariant
            out@.len() <= n,
            forall|j: int| 0 <= j < out@.len() ==> out@[j] is None,
        decreases n - out@.len(),
    {
        out.push(None);
    }
    let mut claimed: Vec<char> = Vec::new();
    let mut i: usize = 0;
    while i < n
        invariant
            n == list.len(),
            list == browsers@,
            conf == configured@,
            i <= n,
            out@.len() == n,
            forall|j: int| 0 <= j < i ==> #[trigger] out@[j] == first_pass(list, conf, j),
            forall|j: int| i <= j < n ==> (#[trigger] out@[j]) is None,
            forall|c: char| #[trigger] claimed@.contains(c) <==> exists|j: int| 0 <= j < i && configured_letter(list, conf, j) == Some(c),
        decreases n - i,
    {
        let id = browsers[i].id();
        let got = configured.get(&id);
        match got {
            Some(c) => {
                if is_ascii_letter_char(c) && !contains_char(&claimed, c) {
                    out.set(i, Some(c));
                    claimed.push(c);
                    proof {
                        assert(first_pass(list, conf, i as int) == Some(c));
                        assert forall|d: char| #[trigger] claimed@.contains(d) <==> exists|j: int| 0 <= j < i + 1 && configured_letter(list, conf, j) == Some(d) by {
                            if d == c {
                                assert(configured_letter(list, conf, i as int) == Some(c));
                            }
                            if claimed@.contains(d) && d != c {
                                assert(claimed@.drop_last().contains(d) || claimed@.last() == d);
                                let w = choose|w: int| 0 <= w < claimed@.len() && claimed@[w] == d;
                                assert(claimed@.drop_last()[w] == d);
                            }
                            if exists|j: int| 0 <= j < i + 1 && configured_letter(list, conf, j) == Some(d) {
                                let j = choose|j: int| 0 <= j < i + 1 && configured_letter(list, conf, j) == Some(d);
                                if j < i {
                                    let old_claimed = claimed@.drop_last();
                                    assert(old_claimed.contains(d));
                                    let w = choose|w: int| 0 <= w < old_claimed.len() && old_claimed[w] == d;
                                    assert(claimed@[w] == d);
                                }
                            }
                        }
                    }
                } else {
                    proof {
                        if is_ascii_letter(c) {
                            assert(configured_letter(list, conf, i as int) == Some(c));
                            let j = choose|j: int| 0 <= j < i && configured_letter(list, conf, j) == Some(c);
                            assert(first_pass(list, conf, i as int) is None);
                        } else {
                            assert(configured_letter(list, conf, i as int) is None);
                        }
                        assert forall|d: char| #[trigger] claimed@.contains(d) <==> exists|j: int| 0 <= j < i + 1 && configured_letter(list, conf, j) == Some(d) by {
                            if exists|j: int| 0 <= j < i + 1 && configured_letter(list, conf, j) == Some(d) {
                                let j = choose|j: int| 0 <= j < i + 1 && configured_letter(list, conf, j) == Some(d);
                                if j == i {
                                    assert(claimed@.contains(c));
                                }
                            }
                        }
                    }
                }
            },
            None => {
                proof {
                    assert(configured_letter(list, conf, i as int) is None);
                    assert forall|d: char| #[trigger] claimed@.contains(d) <==> exists|j: int| 0 <= j < i + 1 && configured_letter(list, conf, j) == Some(d) by {
                        if exists|j: int| 0 <= j < i + 1 && configured_letter(list, conf, j) == Some(d) {
                            let j = choose|j: int| 0 <= j < i + 1 && configured_letter(list, conf, j) == Some(d);
                            assert(j < i);
                        }
                    }
                }
            },
        }
        i = i + 1;
    }
    proof {
        assert forall|c: char| #[trigger] claimed@.contains(c) <==> claimed_first(list, conf, c) by {
            if claimed@.contains(c) {
                let j = choose|j: int| 0 <= j < n && configured_letter(list, conf, j) == Some(c);
                lemma_configured_claimed(list, conf, j, c);
            }
            if claimed_first(list, conf, c) {
                let k = choose|k: int| 0 <= k < list.len() && first_pass(list, conf, k) == Some(c);
                assert(configured_letter(list, conf, k) == Some(c));
            }
        }
    }
    let mut i: usize = 0;
    while i < n
        invariant
            n == list.len(),
            list == browsers@,
            conf == configured@,
            i <= n,
            out@.len() == n,
            forall|j: int| 0 <= j < i ==> #[trigger] out@[j] == effective_letter(list, conf, j),
            forall|j: int| i <= j < n ==> #[trigger] out@[j] == first_pass(list, conf, j),
            forall|c: char| #[trigger] claimed@.contains(c) <==> (claimed_first(list, conf, c) || exists|j: int| 0 <= j < i && asks_second(list, conf, j, c)),
        decreases n - i,
    {
        if out[i].is_none() {
            let a = name_letter(&browsers[i].name);
            proof {
                assert(first_pass(list, conf, i as int) is None);
            }
            match a {
                Some(c) => {
                    let taken = contains_char(&claimed, c);
                    proof {
                        assert(asks_second(list, conf, i as int, c));
                        if !taken {
                            assert forall|j: int| 0 <= j < i implies !asks_second(list, conf, j, c) by {
                                if asks_second(list, conf, j, c) {
                                    assert(claimed@.contains(c));
                                }
                            }
                            assert(effective_letter(list, conf, i as int) == Some(c));
                        } else {
                            assert(effective_letter(list, conf, i as int) is None);
                        }
                    }
                    let ghost before = claimed@;
                    proof {
                        assert forall|d: char| #[trigger] before.contains(d) <==> (claimed_first(list, conf, d) || exists|j: int| 0 <= j < i && asks_second(list, conf, j, d)) by {
                        }
                    }
                    if !taken {
                        out.set(i, Some(c));
                        claimed.push(c);
                    }
                    proof {
                        if !taken {
                            assert(claimed@.drop_last() =~= before);
                        }
                        assert forall|d: char| #[trigger] claimed@.contains(d) <==> (claimed_first(list, conf, d) || exists|j: int| 0 <= j < i + 1 && asks_second(list, conf, j, d)) by {
                            if exists|j: int| 0 <= j < i + 1 && asks_second(list, conf, j, d) {
                                let j = choose|j: int| 0 <= j < i + 1 && asks_second(list, conf, j, d);
                                if j == i {
                                    assert(d == c);
                                    if !taken {
                                        assert(claimed@[claimed@.len() - 1] == c);
                                    }
                                } else if !taken {
                                    let old_claimed = claimed@.drop_last();
                                    assert(old_claimed.contains(d));
                                    let w = choose|w: int| 0 <= w < old_claimed.len() && old_claimed[w] == d;
                                    assert(claimed@[w] == d);
                                }
                            }
                            if claimed_first(list, conf, d) && !taken {
                                let old_claimed = claimed@.drop_last();
                                assert(old_claimed.contains(d));
                                let w = choose|w: int| 0 <= w < old_claimed.len() && old_claimed[w] == d;
                                assert(claimed@[w] == d);
                            }
                            if claimed@.contains(d) && !taken && d != c {
                                let w = choose|w: int| 0 <= w < claimed@.len() && claimed@[w] == d;
                                assert(claimed@.drop_last()[w] == d);
                            }
                        }
                    }
                },
                None => {
                    proof {
                        assert(effective_letter(list, conf, i as int) is None);
                        assert forall|d: char| #[trigger] claimed@.contains(d) <==> (claimed_first(list, conf, d) || exists|j: int| 0 <= j < i + 1 && asks_second(list, conf, j, d)) by {
                            if exists|j: int| 0 <= j < i + 1 && asks_second(list, conf, j, d) {
                                let j = choose|j: int| 0 <= j < i + 1 && asks_second(list, conf, j, d);
                                assert(j != i);
                            }
                        }
                    }
                },
            }
        } else {
            proof {
                assert(effective_letter(list, conf, i as int) == first_pass(list, conf, i as int));
                assert forall|d: char| #[trigger] claimed@.contains(d) <==> (claimed_first(list, conf, d) || exists|j: int| 0 <= j < i + 1 && asks_second(list, conf, j, d)) by {
                    if exists|j: int| 0 <= j < i + 1 && asks_second(list, conf, j, d) {
                        let j = choose|j: int| 0 <= j < i + 1 && asks_second(list, conf, j, d);
                        assert(j != i);
                    }
                }
            }
        }
        i = i + 1;
    }
    proof {
        assert forall|p: int, q: int| 0 <= p < q < out@.len() && (#[trigger] out@[p]) is Some implies out@[p] != #[trigger] out@[q] by {
            lemma_letters_distinct(list, conf, p, q);
        }
    }
    out
}

} // verus!
