//! The per-level manual order of a drawer: for each level key, the ids of its
//! elements in the order the user arranged them. Entries are kept sorted by
//! key, the order in which a `BTreeMap<String, _>` holds them (code point
//! order, which is the byte order of UTF-8 text).
use vstd::prelude::*;

use crate::paths::{is_same_or_descendant, relative_key, relative_key_of, replace_prefix, replaced_prefix, same_or_descendant};
use crate::text::{chars_eq, chars_of};

verus! {

/// Strict lexicographic order of character sequences.
pub open spec fn lex_lt(a: Seq<char>, b: Seq<char>) -> bool
    decreases a.len(),
{
    if a.len() == 0 {
        b.len() > 0
    } else if b.len() == 0 {
        false
    } else if a[0] != b[0] {
        a[0] < b[0]
    } else {
        lex_lt(a.drop_first(), b.drop_first())
    }
}

pub proof fn lemma_lex_irreflexive(a: Seq<char>)
    ensures
        !lex_lt(a, a),
    decreases a.len(),
{
    if a.len() > 0 {
        lemma_lex_irreflexive(a.drop_first());
    }
}

pub proof fn lemma_lex_transitive(a: Seq<char>, b: Seq<char>, c: Seq<char>)
    requires
        lex_lt(a, b),
        lex_lt(b, c),
    ensures
        lex_lt(a, c),
    decreases a.len(),
{
    if a.len() > 0 && b.len() > 0 && c.len() > 0 {
        if a[0] == b[0] && b[0] == c[0] {
            lemma_lex_transitive(a.drop_first(), b.drop_first(), c.drop_first());
        }
    }
}

pub proof fn lemma_lex_total(a: Seq<char>, b: Seq<char>)
    requires
        a != b,
    ensures
        lex_lt(a, b) || lex_lt(b, a),
    decreases a.len(),
{
    if a.len() > 0 && b.len() > 0 && a[0] == b[0] {
        if a.drop_first() == b.drop_first() {
            assert(a =~= seq![a[0]] + a.drop_first());
            assert(b =~= seq![b[0]] + b.drop_first());
        }
        lemma_lex_total(a.drop_first(), b.drop_first());
    } else if a.len() == 0 && b.len() == 0 {
        assert(a =~= b);
    }
}

/// `a < b` on character vectors, lexicographically.
pub fn chars_lt(a: &Vec<char>, b: &Vec<char>) -> (r: bool)
    ensures
        r == lex_lt(a@, b@),
{
    let mut i: usize = 0;
    assert(a@.skip(0) =~= a@);
    assert(b@.skip(0) =~= b@);
    while i < a.len() && i < b.len() && a[i] == b[i]
        invariant
            i <= a.len(),
            i <= b.len(),
            lex_lt(a@, b@) == lex_lt(a@.skip(i as int), b@.skip(i as int)),
        decreases a.len() - i,
    {
        assert(a@.skip(i as int).drop_first() =~= a@.skip(i + 1));
        assert(b@.skip(i as int).drop_first() =~= b@.skip(i + 1));
        i = i + 1;
    }
    proof {
        if i < a.len() && i < b.len() {
            assert(a@.skip(i as int)[0] == a@[i as int]);
            assert(b@.skip(i as int)[0] == b@[i as int]);
        }
    }
    if i == a.len() {
        i < b.len()
    } else if i == b.len() {
        false
    } else {
        a[i] < b[i]
    }
}

/// The ids of one level, by view.
pub open spec fn ids_view(ids: Seq<String>) -> Seq<Seq<char>> {
    ids.map_values(|s: String| s@)
}

pub struct LevelOrder {
    pub key: String,
    pub ids: Vec<String>,
}

impl LevelOrder {
    pub open spec fn entry_view(&self) -> (Seq<char>, Seq<Seq<char>>) {
        (self.key@, ids_view(self.ids@))
    }
}

pub open spec fn entries_view(es: Seq<LevelOrder>) -> Seq<(Seq<char>, Seq<Seq<char>>)> {
    es.map_values(|e: LevelOrder| e.entry_view())
}

/// Keys strictly increasing.
pub open spec fn sorted_keys(s: Seq<(Seq<char>, Seq<Seq<char>>)>) -> bool {
    forall|i: int, j: int| 0 <= i < j < s.len() ==> lex_lt(#[trigger] s[i].0, #[trigger] s[j].0)
}

/// The map that a key-sorted list of entries holds.
pub open spec fn to_map(s: Seq<(Seq<char>, Seq<Seq<char>>)>) -> Map<Seq<char>, Seq<Seq<char>>>
    decreases s.len(),
{
    if s.len() == 0 {
        Map::empty()
    } else {
        to_map(s.drop_last()).insert(s.last().0, s.last().1)
    }
}

pub proof fn lemma_to_map(s: Seq<(Seq<char>, Seq<Seq<char>>)>)
    requires
        sorted_keys(s),
    ensures
        forall|i: int| 0 <= i < s.len() ==> #[trigger] to_map(s).contains_key(s[i].0) && to_map(
            s,
        )[s[i].0] == s[i].1,
        forall|k: Seq<char>|
            #[trigger] to_map(s).contains_key(k) ==> exists|i: int| 0 <= i < s.len() && s[i].0 == k,
    decreases s.len(),
{
    if s.len() > 0 {
        let p = s.drop_last();
        assert(sorted_keys(p));
        lemma_to_map(p);
        assert forall|i: int| 0 <= i < s.len() implies #[trigger] to_map(s).contains_key(s[i].0)
            && to_map(s)[s[i].0] == s[i].1 by {
            if i < s.len() - 1 {
                assert(p[i] == s[i]);
                assert(to_map(p).contains_key(p[i].0));
                assert(lex_lt(s[i].0, s[s.len() - 1].0));
                lemma_lex_irreflexive(s[i].0);
                assert(s[i].0 != s.last().0);
            }
        }
        assert forall|k: Seq<char>| #[trigger] to_map(s).contains_key(k) implies exists|i: int|
            0 <= i < s.len() && s[i].0 == k by {
            if k != s.last().0 {
                assert(to_map(p).contains_key(k));
                let i = choose|i: int| 0 <= i < p.len() && p[i].0 == k;
                assert(s[i] == p[i]);
            }
        }
    }
}

/// The manual orders of all levels of one drawer.
pub struct LevelOrders {
    entries: Vec<LevelOrder>,
}

impl LevelOrders {
    pub closed spec fn entries(&self) -> Seq<(Seq<char>, Seq<Seq<char>>)> {
        entries_view(self.entries@)
    }

    pub open spec fn wf(&self) -> bool {
        sorted_keys(self.entries())
    }

    /// What the orders hold: level key to ids.
    pub open spec fn view(&self) -> Map<Seq<char>, Seq<Seq<char>>> {
        to_map(self.entries())
    }

    pub fn new() -> (r: Self)
        ensures
            r.wf(),
            r.view() == Map::<Seq<char>, Seq<Seq<char>>>::empty(),
            r.entries().len() == 0,
    {
        let r = LevelOrders { entries: Vec::new() };
        assert(r.entries() =~= Seq::<(Seq<char>, Seq<Seq<char>>)>::empty());
        r
    }

    pub fn len(&self) -> (r: usize)
        ensures
            r == self.entries().len(),
    {
        self.entries.len()
    }

    /// Position of `key`, if present.
    pub fn find(&self, key: &Vec<char>) -> (r: Option<usize>)
        requires
            self.wf(),
        ensures
            r matches Some(i) ==> i < self.entries().len() && self.entries()[i as int].0 == key@,
            r is None ==> forall|i: int|
                0 <= i < self.entries().len() ==> #[trigger] self.entries()[i].0 != key@,
            r is None <==> !self.view().contains_key(key@),
    {
        proof {
            lemma_to_map(self.entries());
        }
        let mut i: usize = 0;
        while i < self.entries.len()
            invariant
                i <= self.entries.len(),
                self.wf(),
                self.entries() == entries_view(self.entries@),
                forall|k: int| 0 <= k < i ==> #[trigger] self.entries()[k].0 != key@,
            decreases self.entries.len() - i,
        {
            assert(self.entries()[i as int].0 == self.entries@[i as int].key@);
            let kv = chars_of(self.entries[i].key.as_str());
            if chars_eq(&kv, key) {
                proof {
                    lemma_to_map(self.entries());
                    assert(self.entries()[i as int].0 == self.entries@[i as int].key@);
                    assert(to_map(self.entries()).contains_key(self.entries()[i as int].0));
                }
                return Some(i);
            }
            i = i + 1;
        }
        None
    }

    /// The ids stored for `key`.
    pub fn get(&self, key: &str) -> (r: Option<&Vec<String>>)
        requires
            self.wf(),
        ensures
            r is Some <==> self.view().contains_key(key@),
            r matches Some(ids) ==> ids_view(ids@) == self.view()[key@],
    {
        let kv = chars_of(key);
        match self.find(&kv) {
            Some(i) => {
                proof {
                    lemma_to_map(self.entries());
                }
                Some(&self.entries[i].ids)
            },
            None => None,
        }
    }
}

} // verus!

verus! {

/// Replacing the value at one position keeps the keys and updates the map.
pub proof fn lemma_map_update(s: Seq<(Seq<char>, Seq<Seq<char>>)>, i: int, v: Seq<Seq<char>>)
    requires
        sorted_keys(s),
        0 <= i < s.len(),
    ensures
        sorted_keys(s.update(i, (s[i].0, v))),
        to_map(s.update(i, (s[i].0, v))) == to_map(s).insert(s[i].0, v),
{
    let t = s.update(i, (s[i].0, v));
    assert(sorted_keys(t)) by {
        assert forall|a: int, b: int| 0 <= a < b < t.len() implies lex_lt(
            #[trigger] t[a].0,
            #[trigger] t[b].0,
        ) by {
            assert(t[a].0 == s[a].0);
            assert(t[b].0 == s[b].0);
        }
    }
    lemma_to_map(s);
    lemma_to_map(t);
    assert forall|k: Seq<char>| #[trigger] to_map(t).contains_key(k) <==> to_map(s).insert(
        s[i].0,
        v,
    ).contains_key(k) by {
        if to_map(t).contains_key(k) {
            let a = choose|a: int| 0 <= a < t.len() && t[a].0 == k;
            assert(s[a].0 == k);
            assert(to_map(s).contains_key(s[a].0));
        }
        if to_map(s).contains_key(k) {
            let a = choose|a: int| 0 <= a < s.len() && s[a].0 == k;
            assert(t[a].0 == k);
            assert(to_map(t).contains_key(t[a].0));
        }
        if k == s[i].0 {
            assert(t[i].0 == k);
            assert(to_map(t).contains_key(t[i].0));
        }
    }
    assert forall|k: Seq<char>| #[trigger] to_map(t).contains_key(k) implies to_map(t)[k]
        == to_map(s).insert(s[i].0, v)[k] by {
        let a = choose|a: int| 0 <= a < t.len() && t[a].0 == k;
        assert(to_map(t).contains_key(t[a].0));
        assert(to_map(s).contains_key(s[a].0));
        if a != i {
            if k == s[i].0 {
                if a < i {
                    assert(lex_lt(s[a].0, s[i].0));
                } else {
                    assert(lex_lt(s[i].0, s[a].0));
                }
                lemma_lex_irreflexive(k);
            }
        }
    }
    assert(to_map(t) =~= to_map(s).insert(s[i].0, v));
}

/// Inserting a new key at its sorted position keeps the order and adds it to the map.
pub proof fn lemma_map_insert_at(
    s: Seq<(Seq<char>, Seq<Seq<char>>)>,
    j: int,
    k: Seq<char>,
    v: Seq<Seq<char>>,
)
    requires
        sorted_keys(s),
        0 <= j <= s.len(),
        forall|a: int| 0 <= a < j ==> lex_lt(#[trigger] s[a].0, k),
        j < s.len() ==> lex_lt(k, s[j].0),
    ensures
        sorted_keys(s.insert(j, (k, v))),
        to_map(s.insert(j, (k, v))) == to_map(s).insert(k, v),
{
    let t = s.insert(j, (k, v));
    assert(sorted_keys(t)) by {
        assert forall|a: int, b: int| 0 <= a < b < t.len() implies lex_lt(
            #[trigger] t[a].0,
            #[trigger] t[b].0,
        ) by {
            if b < j {
                assert(t[a] == s[a] && t[b] == s[b]);
            } else if b == j {
                assert(t[a] == s[a]);
            } else if a == j {
                assert(t[b] == s[b - 1]);
                if b - 1 > j {
                    assert(lex_lt(s[j].0, s[b - 1].0));
                    lemma_lex_transitive(k, s[j].0, s[b - 1].0);
                }
            } else if a < j {
                assert(t[a] == s[a] && t[b] == s[b - 1]);
            } else {
                assert(t[a] == s[a - 1] && t[b] == s[b - 1]);
            }
        }
    }
    lemma_to_map(s);
    lemma_to_map(t);
    assert forall|x: Seq<char>| #[trigger] to_map(t).contains_key(x) <==> to_map(s).insert(
        k,
        v,
    ).contains_key(x) by {
        if to_map(t).contains_key(x) && x != k {
            let a = choose|a: int| 0 <= a < t.len() && t[a].0 == x;
            let b = if a < j {
                a
            } else {
                a - 1
            };
            assert(s[b].0 == x);
            assert(to_map(s).contains_key(s[b].0));
        }
        if to_map(s).contains_key(x) {
            let a = choose|a: int| 0 <= a < s.len() && s[a].0 == x;
            let b = if a < j {
                a
            } else {
                a + 1
            };
            assert(t[b].0 == x);
            assert(to_map(t).contains_key(t[b].0));
        }
        if x == k {
            assert(t[j].0 == k);
            assert(to_map(t).contains_key(t[j].0));
        }
    }
    assert forall|x: Seq<char>| #[trigger] to_map(t).contains_key(x) implies to_map(t)[x]
        == to_map(s).insert(k, v)[x] by {
        let a = choose|a: int| 0 <= a < t.len() && t[a].0 == x;
        assert(to_map(t).contains_key(t[a].0));
        if a != j {
            let b = if a < j {
                a
            } else {
                a - 1
            };
            assert(t[a] == s[b]);
            assert(to_map(s).contains_key(s[b].0));
            if x == k {
                assert(t[j].0 == k);
                lemma_lex_irreflexive(k);
            }
        }
    }
    assert(to_map(t) =~= to_map(s).insert(k, v));
}

impl LevelOrders {
    /// First position whose key is not below `kv`.
    fn lower_bound(&self, kv: &Vec<char>) -> (j: usize)
        requires
            self.wf(),
        ensures
            j <= self.entries().len(),
            forall|a: int| 0 <= a < j ==> lex_lt(#[trigger] self.entries()[a].0, kv@),
            j < self.entries().len() ==> !lex_lt(self.entries()[j as int].0, kv@),
    {
        let mut j: usize = 0;
        while j < self.entries.len() && chars_lt(&chars_of(self.entries[j].key.as_str()), kv)
            invariant
                j <= self.entries.len(),
                self.entries() == entries_view(self.entries@),
                forall|a: int| 0 <= a < j ==> lex_lt(#[trigger] self.entries()[a].0, kv@),
            decreases self.entries.len() - j,
        {
            assert(self.entries()[j as int].0 == self.entries@[j as int].key@);
            j = j + 1;
        }
        proof {
            if j < self.entries.len() {
                assert(self.entries()[j as int].0 == self.entries@[j as int].key@);
            }
        }
        j
    }

    /// Stores `ids` as the order of `key`, replacing what it had.
    pub fn set(&mut self, key: &str, ids: Vec<String>)
        requires
            old(self).wf(),
        ensures
            final(self).wf(),
            final(self).view() == old(self).view().insert(key@, ids_view(ids@)),
    {
        let kv = chars_of(key);
        let j = self.lower_bound(&kv);
        let ghost s = self.entries();
        let ghost v = ids_view(ids@);
        let ghost old_entries = self.entries@;
        let entry = LevelOrder { key: key.to_owned(), ids };
        assert(entry.entry_view() == (key@, v));
        if j < self.entries.len() && chars_eq(&chars_of(self.entries[j].key.as_str()), &kv) {
            assert(s[j as int].0 == key@);
            proof {
                lemma_map_update(s, j as int, v);
            }
            self.entries.set(j, entry);
            assert(self.entries() =~= s.update(j as int, (s[j as int].0, v)));
        } else {
            proof {
                if j < s.len() {
                    assert(s[j as int].0 == old_entries[j as int].key@);
                    lemma_lex_total(s[j as int].0, key@);
                }
            }
            proof {
                lemma_map_insert_at(s, j as int, key@, v);
            }
            self.entries.insert(j, entry);
            assert(self.entries() =~= s.insert(j as int, (key@, v)));
        }
    }
}

} // verus!

verus! {

/// `ids` without the occurrences of `x`.
pub open spec fn without(ids: Seq<Seq<char>>, x: Seq<char>) -> Seq<Seq<char>>
    decreases ids.len(),
{
    if ids.len() == 0 {
        ids
    } else if ids.last() == x {
        without(ids.drop_last(), x)
    } else {
        without(ids.drop_last(), x).push(ids.last())
    }
}

/// Forgetting `x` in a manual order keeps every other id, in order, and
/// leaves no mention of `x`.
pub proof fn lemma_without_forgets_only(ids: Seq<Seq<char>>, x: Seq<char>)
    ensures
        without(ids, x) == ids.filter(|y: Seq<char>| y != x),
        !without(ids, x).contains(x),
    decreases ids.len(),
{
    reveal(Seq::filter);
    if ids.len() > 0 {
        lemma_without_forgets_only(ids.drop_last(), x);
    }
    ids.filter_lemma(|y: Seq<char>| y != x);
}

/// `cur` followed by each of `ids` that it does not hold yet, in order.
pub open spec fn append_missing(cur: Seq<Seq<char>>, ids: Seq<Seq<char>>) -> Seq<Seq<char>>
    decreases ids.len(),
{
    if ids.len() == 0 {
        cur
    } else {
        let prev = append_missing(cur, ids.drop_last());
        if prev.contains(ids.last()) {
            prev
        } else {
            prev.push(ids.last())
        }
    }
}

/// Adding ids to a manual order keeps the order as it was, in front; every
/// added id is then mentioned; and nothing is mentioned twice that was
/// not already: only ids missing so far are appended, once each.
pub proof fn lemma_append_missing_adds_once(cur: Seq<Seq<char>>, ids: Seq<Seq<char>>)
    ensures
        append_missing(cur, ids).take(cur.len() as int) == cur,
        cur.len() <= append_missing(cur, ids).len(),
        forall|i: int| 0 <= i < ids.len() ==> append_missing(cur, ids).contains(#[trigger] ids[i]),
        forall|x: Seq<char>|
            #[trigger] append_missing(cur, ids).contains(x) ==> cur.contains(x) || ids.contains(x),
        forall|i: int, j: int|
            cur.len() <= i < j < append_missing(cur, ids).len() ==> #[trigger] append_missing(
                cur,
                ids,
            )[i] != #[trigger] append_missing(cur, ids)[j],
        forall|i: int|
            cur.len() <= i < append_missing(cur, ids).len() ==> !cur.contains(
                #[trigger] append_missing(cur, ids)[i],
            ),
    decreases ids.len(),
{
    if ids.len() == 0 {
        assert(cur.take(cur.len() as int) =~= cur);
    } else {
        let p = ids.drop_last();
        let prev = append_missing(cur, p);
        let r = append_missing(cur, ids);
        lemma_append_missing_adds_once(cur, p);
        if !prev.contains(ids.last()) {
            assert(r == prev.push(ids.last()));
            assert(r.take(cur.len() as int) =~= prev.take(cur.len() as int));
            assert forall|x: Seq<char>| #[trigger] r.contains(x) implies cur.contains(x)
                || ids.contains(x) by {
                if prev.contains(x) {
                    if p.contains(x) {
                        let w = choose|w: int| 0 <= w < p.len() && p[w] == x;
                        assert(ids[w] == x);
                    }
                } else {
                    assert(x == ids.last());
                    assert(ids[ids.len() - 1] == x);
                }
            }
            assert forall|i: int| 0 <= i < ids.len() implies r.contains(#[trigger] ids[i]) by {
                if i < p.len() {
                    assert(p[i] == ids[i]);
                    let w = choose|w: int| 0 <= w < prev.len() && prev[w] == ids[i];
                    assert(r[w] == ids[i]);
                } else {
                    assert(r[r.len() - 1] == ids[i]);
                }
            }
            assert forall|i: int, j: int| cur.len() <= i < j < r.len() implies #[trigger] r[i]
                != #[trigger] r[j] by {
                if j == r.len() - 1 {
                    assert(prev.contains(r[i]) ==> true);
                    if r[i] == r[j] {
                        assert(prev[i] == ids.last());
                    }
                }
            }
            assert forall|i: int| cur.len() <= i < r.len() implies !cur.contains(#[trigger] r[i]) by {
                if i == r.len() - 1 {
                    if cur.contains(r[i]) {
                        let w = choose|w: int| 0 <= w < cur.len() && cur[w] == r[i];
                        assert(prev.take(cur.len() as int)[w] == prev[w]);
                        assert(prev[w] == ids.last());
                    }
                } else {
                    assert(r[i] == prev[i]);
                }
            }
        } else {
            assert forall|x: Seq<char>| #[trigger] r.contains(x) implies cur.contains(x)
                || ids.contains(x) by {
                if p.contains(x) {
                    let w = choose|w: int| 0 <= w < p.len() && p[w] == x;
                    assert(ids[w] == x);
                }
            }
            assert forall|i: int| 0 <= i < ids.len() implies r.contains(#[trigger] ids[i]) by {
                if i < p.len() {
                    assert(p[i] == ids[i]);
                }
            }
        }
    }
}

/// The order stored for `key`, empty when there is none.
pub open spec fn order_or_empty(m: Map<Seq<char>, Seq<Seq<char>>>, key: Seq<char>) -> Seq<
    Seq<char>,
> {
    if m.contains_key(key) {
        m[key]
    } else {
        Seq::empty()
    }
}

/// A copy of `ids` without `x`.
pub fn ids_without(ids: &Vec<String>, x: &str) -> (r: Vec<String>)
    ensures
        ids_view(r@) == without(ids_view(ids@), x@),
{
    let mut r: Vec<String> = Vec::new();
    let mut i: usize = 0;
    while i < ids.len()
        invariant
            i <= ids.len(),
            ids_view(r@) == without(ids_view(ids@.take(i as int)), x@),
        decreases ids.len() - i,
    {
        assert(ids_view(ids@.take(i + 1)).drop_last() =~= ids_view(ids@.take(i as int)));
        assert(ids_view(ids@.take(i + 1)).last() == ids@[i as int]@);
        if !crate::text::str_eq(ids[i].as_str(), x) {
            r.push(ids[i].clone());
            assert(ids_view(r@) =~= without(ids_view(ids@.take(i as int)), x@).push(
                ids@[i as int]@,
            ));
        }
        i = i + 1;
    }
    assert(ids@.take(ids.len() as int) =~= ids@);
    r
}

/// Whether `ids` holds `x`.
pub fn ids_contain(ids: &Vec<String>, x: &str) -> (r: bool)
    ensures
        r == ids_view(ids@).contains(x@),
{
    let mut i: usize = 0;
    while i < ids.len()
        invariant
            i <= ids.len(),
            forall|k: int| 0 <= k < i ==> ids@[k]@ != x@,
        decreases ids.len() - i,
    {
        if crate::text::str_eq(ids[i].as_str(), x) {
            assert(ids_view(ids@)[i as int] == x@);
            return true;
        }
        i = i + 1;
    }
    proof {
        if ids_view(ids@).contains(x@) {
            let k = choose|k: int| 0 <= k < ids_view(ids@).len() && ids_view(ids@)[k] == x@;
            assert(ids@[k]@ == x@);
        }
    }
    false
}

/// A copy of a list of ids.
pub fn clone_ids(ids: &Vec<String>) -> (r: Vec<String>)
    ensures
        ids_view(r@) == ids_view(ids@),
{
    let mut r: Vec<String> = Vec::new();
    let mut i: usize = 0;
    while i < ids.len()
        invariant
            i <= ids.len(),
            ids_view(r@) == ids_view(ids@.take(i as int)),
        decreases ids.len() - i,
    {
        let c = ids[i].clone();
        let ghost before = ids_view(r@);
        r.push(c);
        assert(ids_view(r@) =~= before.push(c@));
        assert(ids_view(ids@.take(i + 1)) =~= ids_view(ids@.take(i as int)).push(ids@[i as int]@));
        i = i + 1;
    }
    assert(ids@.take(ids.len() as int) =~= ids@);
    r
}

impl LevelOrders {
    /// The stored order of `key`, or an empty one.
    pub fn ids_or_empty(&self, key: &str) -> (r: Vec<String>)
        requires
            self.wf(),
        ensures
            ids_view(r@) == order_or_empty(self.view(), key@),
    {
        match self.get(key) {
            Some(ids) => clone_ids(ids),
            None => {
                let r: Vec<String> = Vec::new();
                assert(ids_view(r@) =~= Seq::<Seq<char>>::empty());
                r
            },
        }
    }

    /// Drops `id` from the order of `key`, when that order exists.
    pub fn remove_id(&mut self, key: &str, id: &str)
        requires
            old(self).wf(),
        ensures
            final(self).wf(),
            final(self).view() == (if old(self).view().contains_key(key@) {
                old(self).view().insert(key@, without(old(self).view()[key@], id@))
            } else {
                old(self).view()
            }),
    {
        let next = match self.get(key) {
            Some(ids) => Some(ids_without(ids, id)),
            None => None,
        };
        if let Some(ids) = next {
            self.set(key, ids);
        }
    }

    /// Moves `id` to the end of the order of `key`, creating that order.
    pub fn append_id(&mut self, key: &str, id: String)
        requires
            old(self).wf(),
        ensures
            final(self).wf(),
            final(self).view() == old(self).view().insert(
                key@,
                without(order_or_empty(old(self).view(), key@), id@).push(id@),
            ),
    {
        let current = self.ids_or_empty(key);
        let mut next = ids_without(&current, id.as_str());
        let ghost before = ids_view(next@);
        next.push(id);
        assert(ids_view(next@) =~= before.push(next@.last()@));
        self.set(key, next);
    }

    /// Appends to the order of `key` each of `ids` it does not hold yet.
    pub fn add_missing(&mut self, key: &str, ids: &Vec<String>)
        requires
            old(self).wf(),
        ensures
            final(self).wf(),
            final(self).view() == old(self).view().insert(
                key@,
                append_missing(order_or_empty(old(self).view(), key@), ids_view(ids@)),
            ),
    {
        let mut order = self.ids_or_empty(key);
        let ghost start = ids_view(order@);
        let mut i: usize = 0;
        while i < ids.len()
            invariant
                i <= ids.len(),
                ids_view(order@) == append_missing(start, ids_view(ids@.take(i as int))),
            decreases ids.len() - i,
        {
            assert(ids_view(ids@.take(i + 1)).drop_last() =~= ids_view(ids@.take(i as int)));
            assert(ids_view(ids@.take(i + 1)).last() == ids@[i as int]@);
            if !ids_contain(&order, ids[i].as_str()) {
                let ghost before = ids_view(order@);
                order.push(ids[i].clone());
                assert(ids_view(order@) =~= before.push(ids@[i as int]@));
            }
            i = i + 1;
        }
        assert(ids@.take(ids.len() as int) =~= ids@);
        self.set(key, order);
    }
}

} // verus!

verus! {

/// The keys of the levels outside `prefix`.
pub open spec fn outside_set(prefix: Seq<char>) -> Set<Seq<char>> {
    Set::new(|k: Seq<char>| !same_or_descendant(k, prefix))
}

/// The entries of levels at or below `old_prefix`, in order, renamed under
/// `new_prefix`.
pub open spec fn moved_entries(
    s: Seq<(Seq<char>, Seq<Seq<char>>)>,
    old_prefix: Seq<char>,
    new_prefix: Seq<char>,
) -> Seq<(Seq<char>, Seq<Seq<char>>)>
    decreases s.len(),
{
    if s.len() == 0 {
        Seq::empty()
    } else {
        let p = moved_entries(s.drop_last(), old_prefix, new_prefix);
        if same_or_descendant(s.last().0, old_prefix) {
            p.push((replaced_prefix(s.last().0, old_prefix, new_prefix), s.last().1))
        } else {
            p
        }
    }
}

/// `m` after storing each moved entry, in order, under the key of its level.
pub open spec fn apply_moved(
    m: Map<Seq<char>, Seq<Seq<char>>>,
    es: Seq<(Seq<char>, Seq<Seq<char>>)>,
) -> Map<Seq<char>, Seq<Seq<char>>>
    decreases es.len(),
{
    if es.len() == 0 {
        m
    } else {
        apply_moved(m, es.drop_last()).insert(relative_key_of(es.last().0), es.last().1)
    }
}

impl LevelOrders {
    /// Removes the orders of `prefix` and every level below it; keeps the
    /// others and the moved ones, renamed under `new_prefix`, are returned in
    /// key order.
    pub fn split_subtree(&mut self, old_prefix: &str, new_prefix: &str) -> (r: Vec<LevelOrder>)
        requires
            old(self).wf(),
        ensures
            final(self).wf(),
            final(self).view() == old(self).view().restrict(outside_set(old_prefix@)),
            entries_view(r@) == moved_entries(old(self).entries(), old_prefix@, new_prefix@),
    {
        let mut kept = LevelOrders::new();
        let mut moved: Vec<LevelOrder> = Vec::new();
        let ghost s = self.entries();
        let mut i: usize = 0;
        while i < self.entries.len()
            invariant
                i <= self.entries.len(),
                s == self.entries(),
                self.entries() == entries_view(self.entries@),
                kept.wf(),
                kept.view() == to_map(s.take(i as int)).restrict(outside_set(old_prefix@)),
                entries_view(moved@) == moved_entries(s.take(i as int), old_prefix@, new_prefix@),
            decreases self.entries.len() - i,
        {
            let ghost e = s[i as int];
            assert(s.take(i + 1).drop_last() =~= s.take(i as int));
            assert(s.take(i + 1).last() == e);
            assert(e.0 == self.entries@[i as int].key@);
            assert(e.1 == ids_view(self.entries@[i as int].ids@));
            let ids = clone_ids(&self.entries[i].ids);
            if is_same_or_descendant(self.entries[i].key.as_str(), old_prefix) {
                let key = replace_prefix(self.entries[i].key.as_str(), old_prefix, new_prefix);
                let ghost before = entries_view(moved@);
                let entry = LevelOrder { key, ids };
                moved.push(entry);
                assert(entries_view(moved@) =~= before.push(entry.entry_view()));
                assert(kept.view() =~= to_map(s.take(i + 1)).restrict(outside_set(old_prefix@)));
            } else {
                kept.set(self.entries[i].key.as_str(), ids);
                assert(kept.view() =~= to_map(s.take(i + 1)).restrict(outside_set(old_prefix@)));
            }
            i = i + 1;
        }
        assert(s.take(s.len() as int) =~= s);
        *self = kept;
        moved
    }

    /// Stores each of `moved`, in order, under the key of its level.
    pub fn absorb(&mut self, moved: Vec<LevelOrder>)
        requires
            old(self).wf(),
        ensures
            final(self).wf(),
            final(self).view() == apply_moved(old(self).view(), entries_view(moved@)),
    {
        let ghost m0 = self.view();
        let ghost es = entries_view(moved@);
        let mut i: usize = 0;
        while i < moved.len()
            invariant
                i <= moved.len(),
                es == entries_view(moved@),
                self.wf(),
                self.view() == apply_moved(m0, es.take(i as int)),
            decreases moved.len() - i,
        {
            assert(es.take(i + 1).drop_last() =~= es.take(i as int));
            assert(es.take(i + 1).last() == moved@[i as int].entry_view());
            let key = relative_key(moved[i].key.as_str());
            let ids = clone_ids(&moved[i].ids);
            self.set(key.as_str(), ids);
            i = i + 1;
        }
        assert(es.take(es.len() as int) =~= es);
    }

    /// Keeps only the orders of levels outside `prefix`.
    pub fn retain_outside(&mut self, prefix: &str)
        requires
            old(self).wf(),
        ensures
            final(self).wf(),
            final(self).view() == old(self).view().restrict(outside_set(prefix@)),
    {
        let _ = self.split_subtree(prefix, "");
    }
}

} // verus!
