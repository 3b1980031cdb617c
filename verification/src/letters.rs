//! Shortcut letters configured per browser id, and their stored text form
//! `"id=L|id2=M|..."`.
use vstd::prelude::*;

use crate::text::{
    ascii_upper, ascii_upper_char, chars_of, free_of, is_ascii_letter, is_ascii_letter_char,
    join_strings, join_with, lemma_filter_all, lemma_split_join, lemma_split_join_non_empty,
    non_empty, push_char, split_char, split_on, string_of_range, views,
};

verus! {

/// The map that a sequence of (id, letter) pairs describes, a later pair
/// overriding an earlier one with the same id.
pub open spec fn map_of(ps: Seq<(Seq<char>, char)>) -> Map<Seq<char>, char>
    decreases ps.len(),
{
    if ps.len() == 0 {
        Map::empty()
    } else {
        map_of(ps.drop_last()).insert(ps.last().0, ps.last().1)
    }
}

/// No id occurs twice.
pub open spec fn ids_unique(ps: Seq<(Seq<char>, char)>) -> bool {
    forall|p: int, q: int| 0 <= p < q < ps.len() ==> (#[trigger] ps[p]).0 != (#[trigger] ps[q]).0
}

/// With distinct ids, the map holds exactly the pairs, one key per pair.
pub proof fn lemma_map_of(ps: Seq<(Seq<char>, char)>)
    requires
        ids_unique(ps),
    ensures
        forall|k: Seq<char>| #[trigger] map_of(ps).contains_key(k) <==> exists|i: int| 0 <= i < ps.len() && (#[trigger] ps[i]).0 == k,
        forall|i: int| 0 <= i < ps.len() ==> #[trigger] map_of(ps)[ps[i].0] == ps[i].1,
        map_of(ps).dom().finite(),
        map_of(ps).len() == ps.len(),
    decreases ps.len(),
{
    if ps.len() == 0 {
        assert(map_of(ps).dom() =~= Set::<Seq<char>>::empty());
    } else {
        let init = ps.drop_last();
        assert(ids_unique(init)) by {
            assert forall|p: int, q: int| 0 <= p < q < init.len() implies (#[trigger] init[p]).0 != (#[trigger] init[q]).0 by {
                assert(init[p] == ps[p] && init[q] == ps[q]);
            }
        }
        lemma_map_of(init);
        assert forall|k: Seq<char>| #[trigger] map_of(ps).contains_key(k) <==> exists|i: int| 0 <= i < ps.len() && (#[trigger] ps[i]).0 == k by {
            assert(map_of(ps) == map_of(init).insert(ps.last().0, ps.last().1));
            if map_of(ps).contains_key(k) && k != ps.last().0 {
                assert(map_of(init).contains_key(k));
                let i = choose|i: int| 0 <= i < init.len() && (#[trigger] init[i]).0 == k;
                assert(ps[i] == init[i]);
            }
            if exists|i: int| 0 <= i < ps.len() && (#[trigger] ps[i]).0 == k {
                let i = choose|i: int| 0 <= i < ps.len() && (#[trigger] ps[i]).0 == k;
                if i < init.len() {
                    assert(init[i] == ps[i]);
                    assert(map_of(init).contains_key(k));
                }
            }
        }
        assert forall|i: int| 0 <= i < ps.len() implies #[trigger] map_of(ps)[ps[i].0] == ps[i].1 by {
            assert(map_of(ps) == map_of(init).insert(ps.last().0, ps.last().1));
            if i < init.len() {
                assert(init[i] == ps[i]);
                assert(ps[i].0 != ps[ps.len() - 1].0);
                assert(map_of(init)[init[i].0] == init[i].1);
                assert(map_of(init).contains_key(init[i].0));
            }
        }
        if map_of(init).contains_key(ps.last().0) {
            let i = choose|i: int| 0 <= i < init.len() && (#[trigger] init[i]).0 == ps.last().0;
            assert(init[i] == ps[i]);
            assert(ps[i].0 != ps[ps.len() - 1].0);
        }
        assert(map_of(ps).dom() == map_of(init).dom().insert(ps.last().0));
    }
}

/// Shortcut letters keyed by browser id. No id occurs twice.
pub struct LetterMap {
    entries: Vec<(String, char)>,
}

/// The (id, letter) pairs of a vector of entries.
pub open spec fn pairs_of(v: Seq<(String, char)>) -> Seq<(Seq<char>, char)> {
    v.map_values(|e: (String, char)| (e.0@, e.1))
}

impl LetterMap {
    #[verifier::type_invariant]
    spec fn inv(self) -> bool {
        ids_unique(pairs_of(self.entries@))
    }

    /// The (id, letter) pairs in the order in which they are kept.
    pub closed spec fn pairs(self) -> Seq<(Seq<char>, char)> {
        pairs_of(self.entries@)
    }

    /// An empty map.
    pub fn new() -> (m: LetterMap)
        ensures
            m@ == Map::<Seq<char>, char>::empty(),
            m.pairs() == Seq::<(Seq<char>, char)>::empty(),
            ids_unique(m.pairs()),
    {
        let m = LetterMap { entries: Vec::new() };
        proof {
            assert(pairs_of(m.entries@) =~= Seq::<(Seq<char>, char)>::empty());
        }
        m
    }

    fn find(&self, id: &String) -> (r: Option<usize>)
        ensures
            match r {
                Some(k) => k < self.pairs().len() && self.pairs()[k as int].0 == id@,
                None => forall|k: int| 0 <= k < self.pairs().len() ==> (#[trigger] self.pairs()[k]).0 != id@,
            },
    {
        let mut k: usize = 0;
        while k < self.entries.len()
            invariant
                k <= self.entries@.len(),
                forall|m: int| 0 <= m < k ==> (#[trigger] self.pairs()[m]).0 != id@,
            decreases self.entries@.len() - k,
        {
            if self.entries[k].0 == *id {
                return Some(k);
            }
            k = k + 1;
        }
        None
    }

    /// The letter configured for `id`, if any.
    pub fn get(&self, id: &String) -> (r: Option<char>)
        ensures
            r == if self@.contains_key(id@) {
                Some(self@[id@])
            } else {
                None
            },
    {
        proof {
            use_type_invariant(self);
            lemma_map_of(self.pairs());
        }
        match self.find(id) {
            Some(k) => Some(self.entries[k].1),
            None => None,
        }
    }

    /// Sets the letter of `id`, replacing any it had. A new id goes last.
    pub fn insert(&mut self, id: String, c: char)
        ensures
            final(self)@ == old(self)@.insert(id@, c),
            final(self).pairs() == match id_position(old(self).pairs(), id@) {
                Some(k) => old(self).pairs().update(k, (id@, c)),
                None => old(self).pairs().push((id@, c)),
            },
            ids_unique(final(self).pairs()),
    {
        proof {
            use_type_invariant(&*self);
        }
        let ghost old_pairs = self.pairs();
        let ghost key = id@;
        let mut entries: Vec<(String, char)> = Vec::new();
        std::mem::swap(&mut entries, &mut self.entries);
        proof {
            assert(pairs_of(entries@) == old_pairs);
        }
        match self.find_in(&entries, &id) {
            Some(k) => {
                let mut e = (id, c);
                entries.set_and_swap(k, &mut e);
                proof {
                    assert(pairs_of(entries@) =~= old_pairs.update(k as int, (key, c)));
                    lemma_map_of_update(old_pairs, k as int, c);
                    lemma_id_position(old_pairs, k as int);
                }
            },
            None => {
                entries.push((id, c));
                proof {
                    assert(pairs_of(entries@) =~= old_pairs.push((key, c)));
                    lemma_map_of_push(old_pairs, key, c);
                }
            },
        }
        self.entries = entries;
    }

    fn find_in(&self, entries: &Vec<(String, char)>, id: &String) -> (r: Option<usize>)
        ensures
            match r {
                Some(k) => k < entries@.len() && pairs_of(entries@)[k as int].0 == id@,
                None => forall|k: int| 0 <= k < entries@.len() ==> (#[trigger] pairs_of(entries@)[k]).0 != id@,
            },
    {
        let mut k: usize = 0;
        while k < entries.len()
            invariant
                k <= entries@.len(),
                forall|m: int| 0 <= m < k ==> (#[trigger] pairs_of(entries@)[m]).0 != id@,
            decreases entries@.len() - k,
        {
            if entries[k].0 == *id {
                return Some(k);
            }
            k = k + 1;
        }
        None
    }

    /// Removes the letter of `id`, if it has one.
    pub fn remove(&mut self, id: &String)
        ensures
            final(self)@ == old(self)@.remove(id@),
            final(self).pairs() == match id_position(old(self).pairs(), id@) {
                Some(k) => old(self).pairs().remove(k),
                None => old(self).pairs(),
            },
            ids_unique(final(self).pairs()),
    {
        proof {
            use_type_invariant(&*self);
            lemma_map_of(self.pairs());
        }
        let ghost old_pairs = self.pairs();
        match self.find(id) {
            Some(k) => {
                let mut entries: Vec<(String, char)> = Vec::new();
                std::mem::swap(&mut entries, &mut self.entries);
                entries.remove(k);
                proof {
                    assert(pairs_of(entries@) =~= old_pairs.remove(k as int));
                    lemma_map_of_remove(old_pairs, k as int);
                    lemma_id_position(old_pairs, k as int);
                }
                self.entries = entries;
            },
            None => {
                proof {
                    assert(map_of(old_pairs) =~= map_of(old_pairs).remove(id@));
                }
            },
        }
    }
}

/// Where `id` stands among the pairs, if it does.
pub open spec fn id_position(ps: Seq<(Seq<char>, char)>, id: Seq<char>) -> Option<int> {
    if exists|k: int| 0 <= k < ps.len() && (#[trigger] ps[k]).0 == id {
        Some(choose|k: int| 0 <= k < ps.len() && (#[trigger] ps[k]).0 == id)
    } else {
        None
    }
}

proof fn lemma_id_position(ps: Seq<(Seq<char>, char)>, k: int)
    requires
        ids_unique(ps),
        0 <= k < ps.len(),
    ensures
        id_position(ps, ps[k].0) == Some(k),
{
    let id = ps[k].0;
    assert(ps[k].0 == id);
    let j = choose|j: int| 0 <= j < ps.len() && (#[trigger] ps[j]).0 == id;
    if j != k {
        if j < k {
            assert(ps[j].0 != ps[k].0);
        } else {
            assert(ps[k].0 != ps[j].0);
        }
    }
}

proof fn lemma_map_of_push(ps: Seq<(Seq<char>, char)>, key: Seq<char>, c: char)
    requires
        ids_unique(ps),
        forall|k: int| 0 <= k < ps.len() ==> (#[trigger] ps[k]).0 != key,
    ensures
        ids_unique(ps.push((key, c))),
        map_of(ps.push((key, c))) == map_of(ps).insert(key, c),
{
    assert(ps.push((key, c)).drop_last() =~= ps);
    let n = ps.push((key, c));
    assert forall|p: int, q: int| 0 <= p < q < n.len() implies (#[trigger] n[p]).0 != (#[trigger] n[q]).0 by {
        assert(n[p] == ps[p]);
        if q < ps.len() {
            assert(n[q] == ps[q]);
        }
    }
}

proof fn lemma_map_of_update(ps: Seq<(Seq<char>, char)>, k: int, c: char)
    requires
        ids_unique(ps),
        0 <= k < ps.len(),
    ensures
        ids_unique(ps.update(k, (ps[k].0, c))),
        map_of(ps.update(k, (ps[k].0, c))) == map_of(ps).insert(ps[k].0, c),
{
    let key = ps[k].0;
    let n = ps.update(k, (key, c));
    assert forall|p: int, q: int| 0 <= p < q < n.len() implies (#[trigger] n[p]).0 != (#[trigger] n[q]).0 by {
        assert(ps[p].0 != ps[q].0);
    }
    lemma_map_of(ps);
    lemma_map_of(n);
    let target = map_of(ps).insert(key, c);
    assert forall|x: Seq<char>| #[trigger] map_of(n).contains_key(x) <==> target.contains_key(x) by {
        if map_of(n).contains_key(x) {
            let i = choose|i: int| 0 <= i < n.len() && (#[trigger] n[i]).0 == x;
            assert(ps[i].0 == x);
            assert(map_of(ps).contains_key(x));
        }
        if map_of(ps).contains_key(x) {
            let i = choose|i: int| 0 <= i < ps.len() && (#[trigger] ps[i]).0 == x;
            assert(n[i].0 == x);
        }
        assert(n[k].0 == key);
    }
    assert forall|x: Seq<char>| #[trigger] map_of(n).contains_key(x) implies map_of(n)[x] == target[x] by {
        let i = choose|i: int| 0 <= i < n.len() && (#[trigger] n[i]).0 == x;
        if i != k {
            assert(n[i] == ps[i]);
            assert(map_of(ps)[ps[i].0] == ps[i].1);
        }
    }
    assert(map_of(n) =~= target);
}

proof fn lemma_map_of_remove(ps: Seq<(Seq<char>, char)>, k: int)
    requires
        ids_unique(ps),
        0 <= k < ps.len(),
    ensures
        ids_unique(ps.remove(k)),
        map_of(ps.remove(k)) == map_of(ps).remove(ps[k].0),
{
    let key = ps[k].0;
    let n = ps.remove(k);
    assert forall|p: int, q: int| 0 <= p < q < n.len() implies (#[trigger] n[p]).0 != (#[trigger] n[q]).0 by {
        let pp = if p < k { p } else { p + 1 };
        let qq = if q < k { q } else { q + 1 };
        assert(n[p] == ps[pp] && n[q] == ps[qq]);
    }
    lemma_map_of(ps);
    lemma_map_of(n);
    let target = map_of(ps).remove(key);
    assert forall|x: Seq<char>| #[trigger] map_of(n).contains_key(x) <==> target.contains_key(x) by {
        if map_of(n).contains_key(x) {
            let i = choose|i: int| 0 <= i < n.len() && (#[trigger] n[i]).0 == x;
            let ii = if i < k { i } else { i + 1 };
            assert(n[i] == ps[ii]);
            assert(map_of(ps).contains_key(x));
        }
        if map_of(ps).contains_key(x) && x != key {
            let i = choose|i: int| 0 <= i < ps.len() && (#[trigger] ps[i]).0 == x;
            let ii = if i < k { i } else { i - 1 };
            assert(n[ii] == ps[i]);
        }
    }
    assert forall|x: Seq<char>| #[trigger] map_of(n).contains_key(x) implies map_of(n)[x] == target[x] by {
        let i = choose|i: int| 0 <= i < n.len() && (#[trigger] n[i]).0 == x;
        let ii = if i < k { i } else { i + 1 };
        assert(n[i] == ps[ii]);
        assert(map_of(ps)[ps[ii].0] == ps[ii].1);
    }
    assert(map_of(n) =~= target);
}

impl LetterMap {
    /// Drops letter `c` from every id that has it.
    pub fn remove_letter(&mut self, c: char)
        ensures
            final(self)@ == without_letter(old(self)@, c),
            final(self).pairs() == old(self).pairs().filter(letter_is_not(c)),
            ids_unique(final(self).pairs()),
    {
        proof {
            use_type_invariant(&*self);
        }
        let ghost old_map = self@;
        let ghost old_pairs = self.pairs();
        let ghost mut j: int = 0;
        let mut entries: Vec<(String, char)> = Vec::new();
        std::mem::swap(&mut entries, &mut self.entries);
        let mut k: usize = 0;
        while k < entries.len()
            invariant
                k <= entries@.len(),
                ids_unique(pairs_of(entries@)),
                forall|m: int| 0 <= m < k ==> (#[trigger] entries@[m]).1 != c,
                forall|x: Seq<char>| #[trigger] map_of(pairs_of(entries@)).contains_key(x) ==> old_map.contains_key(x)
                    && map_of(pairs_of(entries@))[x] == old_map[x],
                forall|x: Seq<char>| #[trigger] old_map.contains_key(x) && old_map[x] != c ==> map_of(
                    pairs_of(entries@),
                ).contains_key(x),
                0 <= j <= old_pairs.len(),
                k == old_pairs.take(j).filter(letter_is_not(c)).len(),
                pairs_of(entries@) == old_pairs.take(j).filter(letter_is_not(c)) + old_pairs.skip(j),
            decreases entries@.len() - k,
        {
            let ghost ps = pairs_of(entries@);
            let ghost kept = old_pairs.take(j).filter(letter_is_not(c));
            proof {
                assert(ps[k as int] == old_pairs.skip(j)[0]);
                assert(old_pairs.skip(j)[0] == old_pairs[j]);
                assert(old_pairs.take(j + 1) =~= old_pairs.take(j).push(old_pairs[j]));
                old_pairs.take(j).lemma_filter_push(old_pairs[j], letter_is_not(c));
                assert(old_pairs.skip(j + 1) =~= old_pairs.skip(j).drop_first());
            }
            if entries[k].1 == c {
                entries.remove(k);
                proof {
                    assert(pairs_of(entries@) =~= ps.remove(k as int));
                    lemma_map_of_remove(ps, k as int);
                    lemma_map_of(ps);
                    assert(map_of(ps)[ps[k as int].0] == c);
                    assert(ps.remove(k as int) =~= kept + old_pairs.skip(j + 1));
                    j = j + 1;
                }
            } else {
                proof {
                    assert(ps =~= kept.push(old_pairs[j]) + old_pairs.skip(j + 1));
                    j = j + 1;
                }
                k = k + 1;
            }
        }
        proof {
            assert(old_pairs.skip(j).len() == 0);
            assert(old_pairs.take(j) =~= old_pairs);
            assert(pairs_of(entries@) =~= old_pairs.filter(letter_is_not(c)));
        }
        proof {
            let ps = pairs_of(entries@);
            lemma_map_of(ps);
            let target = without_letter(old_map, c);
            assert forall|x: Seq<char>| #[trigger] map_of(ps).contains_key(x) <==> target.contains_key(x) by {
                if map_of(ps).contains_key(x) {
                    let i = choose|i: int| 0 <= i < ps.len() && (#[trigger] ps[i]).0 == x;
                    assert(entries@[i].1 != c);
                    assert(map_of(ps)[ps[i].0] == ps[i].1);
                }
            }
            assert(map_of(ps) =~= target);
        }
        self.entries = entries;
    }

    /// Gives `id` the letter `c`, taking it from any other id that had it.
    pub fn assign_letter(&mut self, id: String, c: char)
        ensures
            final(self)@ == without_letter(old(self)@, c).insert(id@, c),
            final(self).pairs() == {
                let kept = old(self).pairs().filter(letter_is_not(c));
                match id_position(kept, id@) {
                    Some(k) => kept.update(k, (id@, c)),
                    None => kept.push((id@, c)),
                }
            },
            ids_unique(final(self).pairs()),
    {
        self.remove_letter(c);
        self.insert(id, c);
    }
}

/// Whether a pair's letter is not `c`.
pub open spec fn letter_is_not(c: char) -> spec_fn((Seq<char>, char)) -> bool {
    |p: (Seq<char>, char)| p.1 != c
}

/// `m` without the ids whose letter is `c`.
pub open spec fn without_letter(m: Map<Seq<char>, char>, c: char) -> Map<Seq<char>, char> {
    Map::new(|k: Seq<char>| m.contains_key(k) && m[k] != c, |k: Seq<char>| m[k])
}

/// No letter is configured for two ids.
pub open spec fn letters_distinct(m: Map<Seq<char>, char>) -> bool {
    forall|a: Seq<char>, b: Seq<char>| #[trigger] m.contains_key(a) && #[trigger] m.contains_key(b) && a != b ==> m[a] != m[b]
}

/// Assigning a letter keeps configured letters distinct.
pub proof fn lemma_assign_keeps_distinct(m: Map<Seq<char>, char>, id: Seq<char>, c: char)
    requires
        letters_distinct(m),
    ensures
        letters_distinct(without_letter(m, c).insert(id, c)),
{
}

/// Removing an id's letter keeps configured letters distinct.
pub proof fn lemma_remove_keeps_distinct(m: Map<Seq<char>, char>, id: Seq<char>)
    requires
        letters_distinct(m),
    ensures
        letters_distinct(m.remove(id)),
{
}

impl View for LetterMap {
    type V = Map<Seq<char>, char>;

    open spec fn view(&self) -> Map<Seq<char>, char> {
        map_of(self.pairs())
    }
}


/// The stored text of one (id, letter) pair: `id=L`.
pub open spec fn entry_text(p: (Seq<char>, char)) -> Seq<char> {
    p.0.push('=').push(p.1)
}

/// The pieces that a letter map is stored as: `id=L` for each pair.
pub open spec fn entry_texts(ps: Seq<(Seq<char>, char)>) -> Seq<Seq<char>> {
    ps.map_values(|p: (Seq<char>, char)| entry_text(p))
}

/// The stored text of a letter map: its pairs as `id=L`, joined by `|`.
pub open spec fn letters_text(ps: Seq<(Seq<char>, char)>) -> Seq<char> {
    join_with(entry_texts(ps), '|')
}

/// The index of the last `c` in `s`, if any.
pub open spec fn last_index_of(s: Seq<char>, c: char) -> Option<int>
    decreases s.len(),
{
    if s.len() == 0 {
        None
    } else if s.last() == c {
        Some(s.len() - 1)
    } else {
        last_index_of(s.drop_last(), c)
    }
}

/// What one stored piece contributes: split at its last `=`, the id before
/// it gets the first character after it, upper-cased, when that is an ASCII
/// letter.
pub open spec fn piece_letter(piece: Seq<char>) -> Option<(Seq<char>, char)> {
    match last_index_of(piece, '=') {
        Some(j) => {
            let rest = piece.skip(j + 1);
            if rest.len() > 0 && is_ascii_letter(rest[0]) {
                Some((piece.take(j), ascii_upper(rest[0])))
            } else {
                None
            }
        },
        None => None,
    }
}

/// The letters that stored pieces describe, a later piece overriding an
/// earlier one for the same id.
pub open spec fn letters_of(pieces: Seq<Seq<char>>) -> Map<Seq<char>, char>
    decreases pieces.len(),
{
    if pieces.len() == 0 {
        Map::empty()
    } else {
        let m = letters_of(pieces.drop_last());
        match piece_letter(pieces.last()) {
            Some((id, c)) => m.insert(id, c),
            None => m,
        }
    }
}

/// The letters that a stored text describes: its `|`-separated non-empty
/// pieces, read in order.
pub open spec fn parse_letters_text(s: Seq<char>) -> Map<Seq<char>, char> {
    letters_of(split_on(s, '|').filter(non_empty()))
}

/// Whether no id holds `|` and no letter is `|`, so that the stored pieces
/// stay apart.
pub open spec fn pieces_apart(m: Map<Seq<char>, char>) -> bool {
    forall|k: Seq<char>| #[trigger] m.contains_key(k) ==> !k.contains('|') && m[k] != '|'
}

/// Whether every letter is an ASCII upper-case letter.
pub open spec fn letters_upper(m: Map<Seq<char>, char>) -> bool {
    forall|k: Seq<char>| #[trigger] m.contains_key(k) ==> 'A' <= m[k] && m[k] <= 'Z'
}

/// The text form of a letter map: `id=L` pairs joined by `|`. Each id is
/// listed once; an empty map gives an empty text; when no id or letter
/// holds `|`, splitting the text at `|` gives back exactly the pieces.
pub fn serialize_letters(m: &LetterMap) -> (r: String)
    ensures
        r@ == letters_text(m.pairs()),
        ids_unique(m.pairs()),
        m@ == Map::<Seq<char>, char>::empty() ==> r@ == Seq::<char>::empty(),
        m@.len() > 0 && pieces_apart(m@) ==> split_on(r@, '|') == entry_texts(m.pairs()),
{
    proof {
        use_type_invariant(m);
        lemma_map_of(m.pairs());
        if m@ == Map::<Seq<char>, char>::empty() {
            assert(m.pairs().len() == 0);
            assert(entry_texts(m.pairs()).len() == 0);
        }
        if m@.len() > 0 && pieces_apart(m@) {
            lemma_pairs_apart(m.pairs());
            lemma_texts_apart(m.pairs());
            lemma_split_join(entry_texts(m.pairs()), '|');
        }
    }
    let mut pieces: Vec<String> = Vec::new();
    let mut k: usize = 0;
    while k < m.entries.len()
        invariant
            k <= m.entries@.len(),
            views(pieces@) == entry_texts(m.pairs().take(k as int)),
        decreases m.entries@.len() - k,
    {
        let mut piece = m.entries[k].0.clone();
        push_char(&mut piece, '=');
        push_char(&mut piece, m.entries[k].1);
        let ghost old_pieces = pieces@;
        pieces.push(piece);
        proof {
            assert(m.pairs()[k as int] == (m.entries@[k as int].0@, m.entries@[k as int].1));
            assert(views(pieces@) =~= views(old_pieces).push(entry_text(m.pairs()[k as int])));
            assert(m.pairs().take(k + 1) =~= m.pairs().take(k as int).push(m.pairs()[k as int]));
            assert(views(pieces@) =~= entry_texts(m.pairs().take(k + 1)));
        }
        k = k + 1;
    }
    proof {
        assert(m.pairs().take(k as int) =~= m.pairs());
    }
    join_strings(&pieces, '|')
}

/// The piece's id and letter, when it holds them.
fn read_piece(piece: &String) -> (r: Option<(String, char)>)
    ensures
        match r {
            Some((id, c)) => piece_letter(piece@) == Some((id@, c)),
            None => piece_letter(piece@) is None,
        },
{
    let v = chars_of(piece.as_str());
    let mut j: usize = v.len();
    proof {
        assert(v@.take(v@.len() as int) =~= v@);
    }
    while j > 0 && v[j - 1] != '='
        invariant
            v@ == piece@,
            j <= v@.len(),
            last_index_of(v@, '=') == last_index_of(v@.take(j as int), '='),
        decreases j,
    {
        proof {
            assert(v@.take(j as int).drop_last() =~= v@.take(j - 1));
        }
        j = j - 1;
    }
    proof {
        assert(v@.take(v@.len() as int) =~= v@) by {
        }
    }
    if j == 0 {
        proof {
            assert(v@.take(0) =~= Seq::<char>::empty());
        }
        return None;
    }
    proof {
        assert(v@.take(j as int).last() == v@[j - 1]);
    }
    let eq = j - 1;
    if eq + 1 < v.len() && is_ascii_letter_char(v[eq + 1]) {
        let id = string_of_range(&v, 0, eq);
        let c = ascii_upper_char(v[eq + 1]);
        proof {
            assert(v@.skip(eq + 1)[0] == v@[eq + 1]);
            assert(v@.take(eq as int) =~= v@.subrange(0, eq as int));
        }
        Some((id, c))
    } else {
        proof {
            if eq + 1 < v.len() {
                assert(v@.skip(eq + 1)[0] == v@[eq + 1]);
            }
        }
        None
    }
}

/// Reads stored letters `"id=L|id2=M|..."`: each non-empty piece is split
/// at its last `=`; when the first character after it is an ASCII letter,
/// the id gets that letter, upper-cased. Later pieces override earlier ones.
pub fn parse_letters(s: &str) -> (m: LetterMap)
    ensures
        m@ == parse_letters_text(s@),
        ids_unique(m.pairs()),
{
    let pieces = split_char(s, '|');
    let ghost all = views(pieces@);
    let mut m = LetterMap::new();
    let mut k: usize = 0;
    proof {
        reveal_with_fuel(Seq::filter, 1);
        assert(all.take(0) =~= Seq::<Seq<char>>::empty());
    }
    while k < pieces.len()
        invariant
            k <= pieces@.len(),
            all == views(pieces@),
            m@ == letters_of(all.take(k as int).filter(non_empty())),
            ids_unique(m.pairs()),
        decreases pieces@.len() - k,
    {
        let ghost pre = all.take(k as int);
        proof {
            assert(all.take(k + 1) =~= pre.push(all[k as int]));
            pre.lemma_filter_push(all[k as int], non_empty());
            assert(all[k as int] == pieces@[k as int]@);
        }
        if !pieces[k].as_str().is_empty() {
            match read_piece(&pieces[k]) {
                Some((id, c)) => {
                    m.insert(id, c);
                    proof {
                        let f = pre.filter(non_empty()).push(all[k as int]);
                        assert(f.drop_last() =~= pre.filter(non_empty()));
                    }
                },
                None => {
                    proof {
                        let f = pre.filter(non_empty()).push(all[k as int]);
                        assert(f.drop_last() =~= pre.filter(non_empty()));
                    }
                },
            }
        }
        k = k + 1;
    }
    proof {
        assert(all.take(k as int) =~= all);
    }
    m
}

/// Reading back the stored text of a letter map gives the same map, when no
/// id holds `|` and every letter is an ASCII upper-case letter.
pub proof fn lemma_letter_map_roundtrip(m: LetterMap)
    requires
        ids_unique(m.pairs()),
        forall|k: Seq<char>| #[trigger] m@.contains_key(k) ==> !k.contains('|'),
        letters_upper(m@),
    ensures
        parse_letters_text(letters_text(m.pairs())) == m@,
{
    let ps = m.pairs();
    lemma_map_of(ps);
    assert(pieces_apart(m@));
    lemma_pairs_apart(ps);
    assert forall|i: int| 0 <= i < ps.len() implies 'A' <= (#[trigger] ps[i]).1 && ps[i].1 <= 'Z' by {
        assert(m@.contains_key(ps[i].0));
    }
    lemma_letters_roundtrip(ps);
}

/// The pairs of a map whose ids and letters hold no `|` hold none either.
proof fn lemma_pairs_apart(ps: Seq<(Seq<char>, char)>)
    requires
        ids_unique(ps),
        pieces_apart(map_of(ps)),
    ensures
        forall|i: int, k: int| 0 <= i < ps.len() && 0 <= k < ps[i].0.len() ==> #[trigger] ps[i].0[k] != '|',
        forall|i: int| 0 <= i < ps.len() ==> (#[trigger] ps[i]).1 != '|',
{
    lemma_map_of(ps);
    assert forall|i: int, k: int| 0 <= i < ps.len() && 0 <= k < ps[i].0.len() implies #[trigger] ps[i].0[k] != '|' by {
        assert(map_of(ps).contains_key(ps[i].0));
        if ps[i].0[k] == '|' {
            assert(ps[i].0.contains('|'));
        }
    }
    assert forall|i: int| 0 <= i < ps.len() implies (#[trigger] ps[i]).1 != '|' by {
        assert(map_of(ps).contains_key(ps[i].0));
    }
}

/// The stored pieces of pairs whose ids and letters hold no `|` hold none,
/// and none is empty.
proof fn lemma_texts_apart(ps: Seq<(Seq<char>, char)>)
    requires
        forall|i: int, k: int| 0 <= i < ps.len() && 0 <= k < ps[i].0.len() ==> #[trigger] ps[i].0[k] != '|',
        forall|i: int| 0 <= i < ps.len() ==> (#[trigger] ps[i]).1 != '|',
    ensures
        free_of(entry_texts(ps), '|'),
        forall|i: int| 0 <= i < ps.len() ==> (#[trigger] entry_texts(ps)[i]).len() > 0,
{
    let texts = entry_texts(ps);
    assert forall|i: int, k: int| 0 <= i < texts.len() && 0 <= k < texts[i].len() implies #[trigger] texts[i][k] != '|' by {
        assert(texts[i] == entry_text(ps[i]));
        if k < ps[i].0.len() {
            assert(texts[i][k] == ps[i].0[k]);
        }
    }
    assert forall|i: int| 0 <= i < ps.len() implies (#[trigger] entry_texts(ps)[i]).len() > 0 by {
        assert(texts[i] == entry_text(ps[i]));
    }
}

/// Reading the stored text of pairs gives back their map, when no id holds
/// `|` and every letter is an ASCII upper-case letter.
proof fn lemma_letters_roundtrip(ps: Seq<(Seq<char>, char)>)
    requires
        forall|i: int, k: int| 0 <= i < ps.len() && 0 <= k < ps[i].0.len() ==> #[trigger] ps[i].0[k] != '|',
        forall|i: int| 0 <= i < ps.len() ==> 'A' <= (#[trigger] ps[i]).1 && ps[i].1 <= 'Z',
    ensures
        parse_letters_text(letters_text(ps)) == map_of(ps),
{
    let texts = entry_texts(ps);
    lemma_texts_apart(ps);
    lemma_split_join_non_empty(texts, '|');
    lemma_filter_all(texts, non_empty());
    lemma_letters_of_texts(ps);
}

proof fn lemma_letters_of_texts(ps: Seq<(Seq<char>, char)>)
    requires
        forall|i: int| 0 <= i < ps.len() ==> 'A' <= (#[trigger] ps[i]).1 && ps[i].1 <= 'Z',
    ensures
        letters_of(entry_texts(ps)) == map_of(ps),
    decreases ps.len(),
{
    if ps.len() > 0 {
        let init = ps.drop_last();
        assert forall|i: int| 0 <= i < init.len() implies 'A' <= (#[trigger] init[i]).1 && init[i].1 <= 'Z' by {
            assert(init[i] == ps[i]);
        }
        lemma_letters_of_texts(init);
        let texts = entry_texts(ps);
        assert(texts.drop_last() =~= entry_texts(init));
        let p = ps.last();
        let t = entry_text(p);
        assert(texts.last() == t);
        assert(p.1 != '=') by {
            assert('A' <= ps[ps.len() - 1].1);
        }
        assert(t.drop_last() =~= p.0.push('='));
        assert(t.last() == p.1);
        assert(p.0.push('=').last() == '=');
        assert(last_index_of(p.0.push('='), '=') == Some(p.0.len() as int));
        assert(last_index_of(t, '=') == Some(p.0.len() as int));
        assert(t.skip(p.0.len() as int + 1) =~= seq![p.1]);
        assert(t.take(p.0.len() as int) =~= p.0);
        assert(ascii_upper(p.1) == p.1);
    }
}

} // verus!
