//! Browsers as found in the registry: parsing the launch command, choosing
//! the display name, and selecting the list that the picker offers.
use vstd::prelude::*;

use crate::sort::{
    is_permutation_of, is_stable_sort, items_of, key_class, lemma_filter_items,
    lemma_stable_sort_from_input, perm_maps, sort_by_key_stable, SortKey,
};
use crate::text::{
    chars_of, contains_string, eq_ignore_ascii_case, eq_ignore_ascii_case_str, first_word,
    is_blank, is_white, is_white_char, lemma_leading_word_take, lemma_lex_antisym, lemma_lex_refl,
    lemma_trim_start_id, lex_le, lowercase, opt_view, string_of_range, to_lower, trim, trim_bounds,
};
use crate::PROG_KEY;

verus! {

/// An installed browser, as registered under `Clients\StartMenuInternet`.
#[derive(Clone, Debug)]
pub struct Browser {
    /// `StartMenuInternet` subkey name (e.g. "Google Chrome").
    pub key: String,
    /// Friendly display name.
    pub name: String,
    /// Raw `shell\open\command` template.
    pub command: String,
    /// Executable path parsed out of `command`.
    pub exe: String,
    /// `DefaultIcon` value ("path,index").
    pub icon: String,
}

/// The characters of `s` before its first double quote, or `None` when `s`
/// holds no double quote.
pub open spec fn until_quote(s: Seq<char>) -> Option<Seq<char>>
    decreases s.len(),
{
    if s.len() == 0 {
        None
    } else if s[0] == '"' {
        Some(Seq::empty())
    } else {
        match until_quote(s.drop_first()) {
            Some(r) => Some(seq![s[0]] + r),
            None => None,
        }
    }
}

/// The executable named by a `shell\open\command` template: after trimming,
/// the text between a leading double quote and the next one; otherwise the
/// first white-space separated word (empty when there is none).
pub open spec fn exe_of_command(command: Seq<char>) -> Seq<char> {
    let t = trim(command);
    if t.len() > 0 && t[0] == '"' && until_quote(t.drop_first()) is Some {
        until_quote(t.drop_first()).unwrap()
    } else {
        first_word(t)
    }
}

pub proof fn lemma_until_quote_found(t: Seq<char>, j: int)
    requires
        0 <= j < t.len(),
        forall|m: int| 0 <= m < j ==> #[trigger] t[m] != '"',
        t[j] == '"',
    ensures
        until_quote(t) == Some(t.take(j)),
    decreases j,
{
    if j > 0 {
        lemma_until_quote_found(t.drop_first(), j - 1);
        assert(t.take(j) =~= seq![t[0]] + t.drop_first().take(j - 1));
    } else {
        assert(t.take(0) =~= Seq::<char>::empty());
    }
}

proof fn lemma_until_quote_none(t: Seq<char>)
    requires
        forall|m: int| 0 <= m < t.len() ==> #[trigger] t[m] != '"',
    ensures
        until_quote(t) is None,
    decreases t.len(),
{
    if t.len() > 0 {
        lemma_until_quote_none(t.drop_first());
    }
}

/// Extract the executable path from a `shell\open\command` template such as
/// `"C:\...\chrome.exe" -- "%1"` or `C:\...\browser.exe %1`.
pub fn parse_exe(command: &str) -> (exe: String)
    ensures
        exe@ == exe_of_command(command@),
{
    let v = chars_of(command);
    let (a, b) = trim_bounds(&v);
    let ghost t = v@.subrange(a as int, b as int);
    if a < b && v[a] == '"' {
        let mut k: usize = a + 1;
        while k < b && v[k] != '"'
            invariant
                a < k <= b <= v@.len(),
                forall|m: int| a + 1 <= m < k ==> #[trigger] v@[m] != '"',
            decreases b - k,
        {
            k = k + 1;
        }
        proof {
            let r = t.drop_first();
            assert forall|m: int| 0 <= m < k - a - 1 implies #[trigger] r[m] != '"' by {
                assert(r[m] == v@[m + a + 1]);
            }
            if k < b {
                assert(r[k - a - 1] == v@[k as int]);
                lemma_until_quote_found(r, k - a - 1);
                assert(r.take(k - a - 1) =~= v@.subrange(a + 1, k as int));
            } else {
                lemma_until_quote_none(r);
            }
        }
        if k < b {
            return string_of_range(&v, a + 1, k);
        }
    }
    let mut k: usize = a;
    while k < b && !is_white_char(v[k])
        invariant
            a <= k <= b <= v@.len(),
            forall|m: int| a <= m < k ==> !is_white(#[trigger] v@[m]),
        decreases b - k,
    {
        k = k + 1;
    }
    proof {
        lemma_trim_start_id(t);
        assert forall|m: int| 0 <= m < k - a implies !is_white(#[trigger] t[m]) by {
            assert(t[m] == v@[m + a]);
        }
        if k < b {
            assert(t[k - a] == v@[k as int]);
        }
        lemma_leading_word_take(t, k - a);
        assert(t.take(k - a) =~= v@.subrange(a as int, k as int));
    }
    string_of_range(&v, a, k)
}


/// A browser's identity: its executable path, lower-cased.
pub open spec fn browser_id(b: Browser) -> Seq<char> {
    lowercase(b.exe@)
}

/// The key the picker orders browsers by: the name, lower-cased.
pub open spec fn name_key(b: Browser) -> Seq<char> {
    lowercase(b.name@)
}

impl Browser {
    /// The browser's id: its executable path, lower-cased.
    pub fn id(&self) -> (r: String)
        ensures
            r@ == browser_id(*self),
    {
        to_lower(self.exe.as_str())
    }
}

/// Whether two paths name the same file, ignoring case.
pub fn same_path(a: &str, b: &str) -> (r: bool)
    ensures
        r == (lowercase(a@) == lowercase(b@)),
{
    let la = to_lower(a);
    let lb = to_lower(b);
    la == lb
}

/// Whether `b` may be offered: it is not the picker's own registration, it
/// has an executable, and that is not the excluded one (compared ignoring
/// case).
pub open spec fn admissible(b: Browser, exclude: Option<Seq<char>>) -> bool {
    &&& !eq_ignore_ascii_case(b.key@, PROG_KEY@)
    &&& b.exe@.len() > 0
    &&& match exclude {
        Some(e) => lowercase(b.exe@) != lowercase(e),
        None => true,
    }
}

/// The ids of a sequence of browsers.
pub open spec fn ids(s: Seq<Browser>) -> Seq<Seq<char>> {
    s.map_values(|b: Browser| browser_id(b))
}

/// The admissible browsers of `s`, each id once: the first browser with a
/// given id is kept, in the order of `s`.
pub open spec fn kept_browsers(s: Seq<Browser>, exclude: Option<Seq<char>>) -> Seq<Browser>
    decreases s.len(),
{
    if s.len() == 0 {
        Seq::empty()
    } else {
        let prev = kept_browsers(s.drop_last(), exclude);
        let b = s.last();
        if admissible(b, exclude) && !ids(prev).contains(browser_id(b)) {
            prev.push(b)
        } else {
            prev
        }
    }
}

/// What `kept_browsers` keeps: distinct ids, admissible browsers of `s`
/// only, and the id of every admissible browser of `s`.
pub proof fn lemma_kept_browsers(s: Seq<Browser>, ex: Option<Seq<char>>)
    ensures
        forall|p: int, q: int|
            0 <= p < q < kept_browsers(s, ex).len() ==> browser_id(#[trigger] kept_browsers(s, ex)[p])
                != browser_id(#[trigger] kept_browsers(s, ex)[q]),
        forall|m: int|
            0 <= m < kept_browsers(s, ex).len() ==> admissible(#[trigger] kept_browsers(s, ex)[m], ex)
                && s.contains(kept_browsers(s, ex)[m]),
        forall|j: int|
            0 <= j < s.len() && admissible(#[trigger] s[j], ex) ==> ids(kept_browsers(s, ex)).contains(
                browser_id(s[j]),
            ),
    decreases s.len(),
{
    if s.len() > 0 {
        let t = s.drop_last();
        lemma_kept_browsers(t, ex);
        let prev = kept_browsers(t, ex);
        let k = kept_browsers(s, ex);
        let b = s.last();
        assert forall|m: int| 0 <= m < k.len() implies admissible(#[trigger] k[m], ex) && s.contains(k[m]) by {
            if m < prev.len() {
                assert(k[m] == prev[m]);
                let w = choose|w: int| 0 <= w < t.len() && t[w] == prev[m];
                assert(s[w] == t[w]);
            } else {
                assert(s[s.len() - 1] == b);
            }
        }
        assert forall|p: int, q: int| 0 <= p < q < k.len() implies browser_id(#[trigger] k[p])
            != browser_id(#[trigger] k[q]) by {
            if q == prev.len() {
                assert(ids(prev)[p] == browser_id(prev[p]));
            } else {
                assert(k[p] == prev[p]);
            }
        }
        assert forall|j: int| 0 <= j < s.len() && admissible(#[trigger] s[j], ex) implies ids(k).contains(
            browser_id(s[j]),
        ) by {
            if j < t.len() {
                assert(t[j] == s[j]);
                let w = choose|w: int| 0 <= w < ids(prev).len() && ids(prev)[w] == browser_id(t[j]);
                assert(ids(k)[w] == ids(prev)[w]);
            } else if ids(prev).contains(browser_id(b)) {
                let w = choose|w: int| 0 <= w < ids(prev).len() && ids(prev)[w] == browser_id(b);
                assert(ids(k)[w] == ids(prev)[w]);
            } else {
                assert(ids(k)[prev.len() as int] == browser_id(b));
            }
        }
    }
}

/// Browsers in order of their lower-cased names.
pub open spec fn names_sorted(s: Seq<Browser>) -> bool {
    forall|p: int, q: int| 0 <= p < q < s.len() ==> lex_le(name_key(#[trigger] s[p]), name_key(#[trigger] s[q]))
}

/// Whether a browser's lower-cased name is `n`.
pub open spec fn has_name_key(n: Seq<char>) -> spec_fn(Browser) -> bool {
    |b: Browser| name_key(b) == n
}

/// Each pair holds a browser and its lower-cased name.
spec fn keyed_by_name(s: Seq<(String, Browser)>) -> bool {
    forall|m: int| 0 <= m < s.len() ==> (#[trigger] s[m]).0@ == name_key(s[m].1)
}

/// Whether a pair's key is `n`.
spec fn first_is(n: Seq<char>) -> spec_fn((String, Browser)) -> bool {
    |x: (String, Browser)| x.0@ == n
}

/// An item of a filtered sequence is an item of the sequence.
proof fn filter_contains_source<A>(s: Seq<A>, f: spec_fn(A) -> bool, x: A)
    requires
        s.filter(f).contains(x),
    ensures
        s.contains(x),
    decreases s.len(),
{
    reveal(Seq::filter);
    if s.len() > 0 {
        if x != s.last() {
            let t = s.drop_last();
            let j = choose|j: int| 0 <= j < s.filter(f).len() && s.filter(f)[j] == x;
            if f(s.last()) {
                assert(t.filter(f)[j] == x);
            } else {
                assert(t.filter(f)[j] == x);
            }
            filter_contains_source(t, f, x);
            let k = choose|k: int| 0 <= k < t.len() && t[k] == x;
            assert(s[k] == x);
        } else {
            assert(s[s.len() - 1] == x);
        }
    }
}

/// A filter by equivalent `String` keys is a filter by equal key views.
proof fn lemma_class_is_first_is(k: String, n: Seq<char>)
    requires
        k@ == n,
    ensures
        key_class::<String, Browser>(k) =~= first_is(n),
{
    assert forall|x: (String, Browser)| #[trigger] key_class::<String, Browser>(k)(x) == first_is(n)(x) by {
        if key_class::<String, Browser>(k)(x) {
            lemma_lex_antisym(k@, x.0@);
        }
        if first_is(n)(x) {
            lemma_lex_refl(n);
        }
    }
}

proof fn lemma_no_first_is(s: Seq<(String, Browser)>, n: Seq<char>)
    requires
        forall|m: int| 0 <= m < s.len() ==> (#[trigger] s[m]).0@ != n,
    ensures
        s.filter(first_is(n)) =~= Seq::<(String, Browser)>::empty(),
{
    s.lemma_all_neg_filter_empty(first_is(n));
}

/// Sorting by name keys keeps, for each key, the browsers in input order.
proof fn lemma_name_sort(input: Seq<(String, Browser)>, out: Seq<(String, Browser)>, n: Seq<char>)
    requires
        is_stable_sort(input, out),
        is_permutation_of(out, input),
        keyed_by_name(input),
    ensures
        keyed_by_name(out),
        items_of(out).filter(has_name_key(n)) == items_of(input).filter(has_name_key(n)),
{
    assert forall|m: int| 0 <= m < out.len() implies (#[trigger] out[m]).0@ == name_key(out[m].1) by {
        lemma_stable_sort_from_input(input, out, m);
        let j = choose|j: int| 0 <= j < input.len() && input[j] == out[m];
    }
    lemma_filter_items(input, has_name_key(n), first_is(n));
    lemma_filter_items(out, has_name_key(n), first_is(n));
    if exists|m: int| 0 <= m < out.len() && (#[trigger] out[m]).0@ == n {
        let m = choose|m: int| 0 <= m < out.len() && (#[trigger] out[m]).0@ == n;
        lemma_class_is_first_is(out[m].0, n);
        assert(out.filter(key_class::<String, Browser>(out[m].0)) == input.filter(key_class::<String, Browser>(out[m].0)));
    } else if exists|m: int| 0 <= m < input.len() && (#[trigger] input[m]).0@ == n {
        let m = choose|m: int| 0 <= m < input.len() && (#[trigger] input[m]).0@ == n;
        lemma_class_is_first_is(input[m].0, n);
        assert(out.filter(key_class::<String, Browser>(input[m].0)) == input.filter(key_class::<String, Browser>(input[m].0)));
    } else {
        lemma_no_first_is(out, n);
        lemma_no_first_is(input, n);
    }
}

/// Orders browsers by lower-cased name, keeping the given order among
/// browsers whose lower-cased names are equal.
pub fn sort_by_name(list: Vec<Browser>) -> (r: Vec<Browser>)
    ensures
        names_sorted(r@),
        forall|n: Seq<char>| #[trigger] r@.filter(has_name_key(n)) == list@.filter(has_name_key(n)),
        is_permutation_of(r@, list@),
{
    let ghost orig = list@;
    let mut list = list;
    let mut pairs: Vec<(String, Browser)> = Vec::new();
    let ghost mut i: int = 0;
    while list.len() > 0
        invariant
            0 <= i <= orig.len(),
            list@ == orig.skip(i),
            pairs@.len() == i,
            keyed_by_name(pairs@),
            items_of(pairs@) == orig.take(i),
        decreases list@.len(),
    {
        let b = list.remove(0);
        let k = to_lower(b.name.as_str());
        proof {
            assert(b == orig[i]);
        }
        pairs.push((k, b));
        proof {
            assert(items_of(pairs@) =~= orig.take(i + 1));
            assert(orig.skip(i + 1) =~= orig.skip(i).drop_first());
            i = i + 1;
        }
    }
    proof {
        assert(orig.take(i) =~= orig);
    }
    let ghost input = pairs@;
    let mut sorted = sort_by_key_stable(pairs);
    proof {
        assert forall|n: Seq<char>| #[trigger] items_of(sorted@).filter(has_name_key(n)) == orig.filter(has_name_key(n)) by {
            lemma_name_sort(input, sorted@, n);
        }
        lemma_name_sort(input, sorted@, Seq::empty());
    }
    let ghost sorted_view = sorted@;
    let mut r: Vec<Browser> = Vec::new();
    let ghost mut j: int = 0;
    while sorted.len() > 0
        invariant
            0 <= j <= sorted_view.len(),
            sorted@ == sorted_view.skip(j),
            r@ == items_of(sorted_view).take(j),
        decreases sorted@.len(),
    {
        let (_k, b) = sorted.remove(0);
        r.push(b);
        proof {
            assert(r@ =~= items_of(sorted_view).take(j + 1));
            assert(sorted_view.skip(j + 1) =~= sorted_view.skip(j).drop_first());
            j = j + 1;
        }
    }
    proof {
        assert(r@ =~= items_of(sorted_view));
        assert forall|p: int, q: int| 0 <= p < q < r@.len() implies lex_le(name_key(#[trigger] r@[p]), name_key(#[trigger] r@[q])) by {
            assert(sorted_view[p].0.key_le(sorted_view[q].0));
        }
        let perm = choose|perm: Seq<int>| perm_maps(perm, sorted_view, input);
        assert forall|m: int| 0 <= m < r@.len() implies 0 <= #[trigger] perm[m] < orig.len() && r@[m] == orig[perm[m]] by {
            assert(r@[m] == sorted_view[m].1);
            assert(sorted_view[m] == input[perm[m]]);
            assert(items_of(input)[perm[m]] == input[perm[m]].1);
        }
        assert(perm_maps(perm, r@, orig));
    }
    r
}


/// The browsers the picker offers out of those found in the registry:
/// the picker's own registration, browsers without an executable, and those
/// whose executable is `exclude` (usually the picker's own path) are dropped; of browsers with the same executable
/// (ignoring case) the first is kept; the rest is ordered by lower-cased name,
/// browsers with equal names keeping the order in which they were found.
pub fn select_browsers(found: Vec<Browser>, exclude: Option<String>) -> (r: Vec<Browser>)
    ensures
        names_sorted(r@),
        forall|n: Seq<char>| #[trigger] r@.filter(has_name_key(n)) == kept_browsers(found@, opt_view(exclude)).filter(has_name_key(n)),
        forall|p: int, q: int| 0 <= p < q < r@.len() ==> browser_id(#[trigger] r@[p]) != browser_id(#[trigger] r@[q]),
        forall|m: int| 0 <= m < r@.len() ==> admissible(#[trigger] r@[m], opt_view(exclude)) && found@.contains(r@[m]),
        forall|j: int| 0 <= j < found@.len() && admissible(#[trigger] found@[j], opt_view(exclude))
            ==> exists|m: int| 0 <= m < r@.len() && browser_id(#[trigger] r@[m]) == browser_id(found@[j]),
{
    let ghost orig = found@;
    let ghost ex = opt_view(exclude);
    let mut found = found;
    let mut kept: Vec<Browser> = Vec::new();
    let mut seen: Vec<String> = Vec::new();
    let ghost mut i: int = 0;
    proof {
        assert(orig.skip(0) =~= orig);
        assert(orig.take(0) =~= Seq::<Browser>::empty());
    }
    while found.len() > 0
        invariant
            0 <= i <= orig.len(),
            found@ == orig.skip(i),
            kept@ == kept_browsers(orig.take(i), ex),
            seen@.len() == kept@.len(),
            forall|k: int| 0 <= k < seen@.len() ==> (#[trigger] seen@[k])@ == browser_id(kept@[k]),
            ex == opt_view(exclude),
        decreases found@.len(),
    {
        let b = found.remove(0);
        let id = b.id();
        let mut ok = !b.exe.as_str().is_empty() && !is_own_key(b.key.as_str());
        match &exclude {
            Some(e) => {
                if same_path(b.exe.as_str(), e.as_str()) {
                    ok = false;
                }
            },
            None => {},
        }
        proof {
            assert(b == orig[i]);
            assert(orig.take(i + 1).drop_last() =~= orig.take(i));
            assert(orig.take(i + 1).last() == b);
            assert(ok == admissible(b, ex));
        }
        if ok && !contains_string(&seen, &id) {
            proof {
                let prev = kept@;
                assert forall|k: int| 0 <= k < ids(prev).len() implies ids(prev)[k] != browser_id(b) by {
                    assert(seen@[k]@ == browser_id(prev[k]));
                }
            }
            kept.push(b);
            seen.push(id);
        } else {
            proof {
                if ok {
                    let k = choose|k: int| 0 <= k < seen@.len() && (#[trigger] seen@[k])@ == id@;
                    assert(ids(kept@)[k] == browser_id(b));
                }
            }
        }
        proof {
            assert(orig.skip(i + 1) =~= orig.skip(i).drop_first());
            i = i + 1;
        }
    }
    proof {
        assert(orig.take(i) =~= orig);
    }
    let ghost kv = kept@;
    let r = sort_by_name(kept);
    proof {
        lemma_kept_browsers(orig, ex);
        let perm = choose|perm: Seq<int>| perm_maps(perm, r@, kv);
        assert forall|p: int, q: int| 0 <= p < q < r@.len() implies browser_id(#[trigger] r@[p]) != browser_id(#[trigger] r@[q]) by {
            if perm[p] < perm[q] {
                assert(browser_id(kv[perm[p]]) != browser_id(kv[perm[q]]));
            } else {
                assert(browser_id(kv[perm[q]]) != browser_id(kv[perm[p]]));
            }
        }
        assert forall|m: int| 0 <= m < r@.len() implies admissible(#[trigger] r@[m], ex) && orig.contains(r@[m]) by {
            assert(r@[m] == kv[perm[m]]);
        }
        assert forall|j: int| 0 <= j < orig.len() && admissible(#[trigger] orig[j], ex)
            implies exists|m: int| 0 <= m < r@.len() && browser_id(#[trigger] r@[m]) == browser_id(orig[j]) by {
            let w = choose|w: int| 0 <= w < ids(kv).len() && ids(kv)[w] == browser_id(orig[j]);
            let x = kv[w];
            let f = has_name_key(name_key(x));
            kv.lemma_filter_contains(f, w);
            assert(r@.filter(f) == kv.filter(f));
            filter_contains_source(r@, f, x);
            let m = choose|m: int| 0 <= m < r@.len() && r@[m] == x;
            assert(browser_id(r@[m]) == browser_id(orig[j]));
        }
    }
    r
}


/// Whether a `StartMenuInternet` subkey is the picker's own registration,
/// which is never listed.
pub fn is_own_key(key_name: &str) -> (r: bool)
    ensures
        r == eq_ignore_ascii_case(key_name@, PROG_KEY@),
{
    eq_ignore_ascii_case_str(key_name, PROG_KEY)
}

/// The display name of a browser: `Capabilities\ApplicationName` when it is
/// not blank; else the key's default value when it could be read; else the
/// subkey name. A blank result falls back to the subkey name too.
pub open spec fn display_name(
    key_name: Seq<char>,
    default_value: Option<Seq<char>>,
    app_name: Option<Seq<char>>,
) -> Seq<char> {
    let from_default = match default_value {
        Some(d) => d,
        None => key_name,
    };
    let chosen = match app_name {
        Some(a) => if trim(a).len() > 0 {
            a
        } else {
            from_default
        },
        None => from_default,
    };
    if trim(chosen).len() == 0 {
        key_name
    } else {
        chosen
    }
}

/// Which value names a browser: `Capabilities\ApplicationName` when it is
/// not blank; otherwise the key's default value when it was read and is not
/// blank; otherwise the subkey name.
pub proof fn lemma_display_name(key_name: Seq<char>, default_value: Option<Seq<char>>, app_name: Option<Seq<char>>)
    ensures
        app_name is Some && trim(app_name->0).len() > 0 ==> display_name(key_name, default_value, app_name)
            == app_name->0,
        !(app_name is Some && trim(app_name->0).len() > 0) && default_value is Some && trim(default_value->0).len() > 0
            ==> display_name(key_name, default_value, app_name) == default_value->0,
        !(app_name is Some && trim(app_name->0).len() > 0) && !(default_value is Some && trim(default_value->0).len()
            > 0) ==> display_name(key_name, default_value, app_name) == key_name,
{
}

/// A browser from the values read under its `StartMenuInternet` subkey:
/// the subkey name, its default value, `Capabilities\ApplicationName`,
/// `shell\open\command` and `DefaultIcon` (`None` where a value could not be
/// read).
pub fn browser_from_values(
    key_name: String,
    default_value: Option<String>,
    app_name: Option<String>,
    command: String,
    icon: Option<String>,
) -> (b: Browser)
    ensures
        b.key@ == key_name@,
        b.name@ == display_name(key_name@, opt_view(default_value), opt_view(app_name)),
        b.command@ == command@,
        b.exe@ == exe_of_command(command@),
        b.icon@ == match icon {
            Some(i) => i@,
            None => Seq::<char>::empty(),
        },
{
    let mut name = match default_value {
        Some(d) => d,
        None => key_name.clone(),
    };
    match app_name {
        Some(a) => {
            if !is_blank(a.as_str()) {
                name = a;
            }
        },
        None => {},
    }
    if is_blank(name.as_str()) {
        name = key_name.clone();
    }
    let exe = parse_exe(command.as_str());
    let icon = match icon {
        Some(i) => i,
        None => String::new(),
    };
    Browser { key: key_name, name, command, exe, icon }
}

} // verus!
