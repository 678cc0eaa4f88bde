//! Stable ordering by a rank and then a name, as `sort_by` / `sort_by_key`
//! order: elements that compare equal keep their relative order.
use vstd::prelude::*;

use crate::order_map::{chars_lt, lemma_lex_irreflexive, lemma_lex_transitive, lex_lt};

verus! {

/// An element with its sort key.
pub struct Keyed<T> {
    pub rank: u64,
    pub name: Vec<char>,
    pub value: T,
}

/// An element with its key, by value: rank, name, element.
pub type KeyedView<T> = (u64, Seq<char>, T);

impl<T> Keyed<T> {
    pub open spec fn key_view(&self) -> KeyedView<T> {
        (self.rank, self.name@, self.value)
    }
}

pub open spec fn keyed_views<T>(s: Seq<Keyed<T>>) -> Seq<KeyedView<T>> {
    s.map_values(|k: Keyed<T>| k.key_view())
}

/// The elements, without their keys.
pub open spec fn values_of<T>(s: Seq<KeyedView<T>>) -> Seq<T> {
    s.map_values(|k: KeyedView<T>| k.2)
}

/// Strictly before, by rank and then by name.
pub open spec fn key_lt<T>(a: KeyedView<T>, b: KeyedView<T>) -> bool {
    a.0 < b.0 || (a.0 == b.0 && lex_lt(a.1, b.1))
}

/// Strictly before in the requested direction: ascending keys, or
/// descending keys when `desc`.
pub open spec fn key_before<T>(a: KeyedView<T>, b: KeyedView<T>, desc: bool) -> bool {
    if desc {
        key_lt(b, a)
    } else {
        key_lt(a, b)
    }
}

/// Where a stable insertion puts `e`: after every element not after it.
pub open spec fn insert_pos<T>(s: Seq<KeyedView<T>>, e: KeyedView<T>, desc: bool) -> int
    decreases s.len(),
{
    if s.len() == 0 {
        0
    } else if key_before(e, s[0], desc) {
        0
    } else {
        1 + insert_pos(s.drop_first(), e, desc)
    }
}

/// The stable sort of `s`: each element inserted, in order, after the
/// elements already placed that do not come after it.
pub open spec fn stable_sorted<T>(s: Seq<KeyedView<T>>, desc: bool) -> Seq<KeyedView<T>>
    decreases s.len(),
{
    if s.len() == 0 {
        s
    } else {
        let p = stable_sorted(s.drop_last(), desc);
        p.insert(insert_pos(p, s.last(), desc), s.last())
    }
}

proof fn lemma_insert_pos_bound<T>(s: Seq<KeyedView<T>>, e: KeyedView<T>, desc: bool)
    ensures
        0 <= insert_pos(s, e, desc) <= s.len(),
    decreases s.len(),
{
    if s.len() > 0 && !key_before(e, s[0], desc) {
        lemma_insert_pos_bound(s.drop_first(), e, desc);
    }
}

pub proof fn lemma_insert_pos_in_range<T>(s: Seq<KeyedView<T>>, e: KeyedView<T>, desc: bool)
    ensures
        0 <= insert_pos(s, e, desc) <= s.len(),
{
    lemma_insert_pos_bound(s, e, desc);
}

pub proof fn lemma_stable_sorted_len<T>(s: Seq<KeyedView<T>>, desc: bool)
    ensures
        stable_sorted(s, desc).len() == s.len(),
    decreases s.len(),
{
    if s.len() > 0 {
        lemma_stable_sorted_len(s.drop_last(), desc);
        lemma_insert_pos_bound(stable_sorted(s.drop_last(), desc), s.last(), desc);
    }
}

/// Whether `a` comes strictly before `b`.
pub fn keyed_lt<T>(a: &Keyed<T>, b: &Keyed<T>) -> (r: bool)
    ensures
        r == key_lt(a.key_view(), b.key_view()),
{
    a.rank < b.rank || (a.rank == b.rank && chars_lt(&a.name, &b.name))
}

fn keyed_before<T>(a: &Keyed<T>, b: &Keyed<T>, desc: bool) -> (r: bool)
    ensures
        r == key_before(a.key_view(), b.key_view(), desc),
{
    if desc {
        keyed_lt(b, a)
    } else {
        keyed_lt(a, b)
    }
}

/// Sorts by rank and then name (descending when `desc`), keeping the
/// relative order of equal keys.
pub fn stable_sort<T>(items: Vec<Keyed<T>>, desc: bool) -> (r: Vec<Keyed<T>>)
    ensures
        keyed_views(r@) == stable_sorted(keyed_views(items@), desc),
{
    let mut sorted: Vec<Keyed<T>> = Vec::new();
    let mut rest = items;
    let ghost all = keyed_views(rest@);
    let n = rest.len();
    let mut taken: usize = 0;
    let mut rev: Vec<Keyed<T>> = Vec::new();
    // Reverse first so that elements can be popped in their original order.
    while rest.len() > 0
        invariant
            rev@.len() + rest@.len() == all.len(),
            keyed_views(rest@) == all.take(rest@.len() as int),
            forall|k: int| 0 <= k < rev@.len() ==> rev@[k].key_view() == all[all.len() - 1 - k],
        decreases rest.len(),
    {
        let ghost before = rest@;
        let e = rest.pop().unwrap();
        assert(e.key_view() == keyed_views(before)[before.len() - 1]);
        rev.push(e);
        assert(keyed_views(rest@) =~= all.take(rest@.len() as int));
    }
    assert(keyed_views(sorted@) =~= stable_sorted(all.take(0), desc));
    while rev.len() > 0
        invariant
            rev@.len() + taken == all.len(),
            all.len() == n,
            forall|k: int| 0 <= k < rev@.len() ==> rev@[k].key_view() == all[all.len() - 1 - k],
            keyed_views(sorted@) == stable_sorted(all.take(taken as int), desc),
        decreases rev.len(),
    {
        let e = rev.pop().unwrap();
        let ghost prefix = all.take(taken as int);
        let ghost ev = e.key_view();
        let ghost sv = keyed_views(sorted@);
        assert(ev == all[taken as int]);
        assert(all.take(taken + 1).drop_last() =~= prefix);
        assert(all.take(taken + 1).last() == ev);
        let mut j: usize = 0;
        proof {
            assert(sv.skip(0) =~= sv);
        }
        while j < sorted.len() && !keyed_before(&e, &sorted[j], desc)
            invariant
                j <= sorted.len(),
                sv == keyed_views(sorted@),
                ev == e.key_view(),
                insert_pos(sv, ev, desc) == j + insert_pos(sv.skip(j as int), ev, desc),
            decreases sorted.len() - j,
        {
            assert(sv.skip(j as int)[0] == sv[j as int]);
            assert(sv.skip(j as int).drop_first() =~= sv.skip(j + 1));
            j = j + 1;
        }
        proof {
            if j < sorted.len() {
                assert(sv.skip(j as int)[0] == sv[j as int]);
            }
        }
        sorted.insert(j, e);
        assert(keyed_views(sorted@) =~= sv.insert(j as int, ev));
        taken = taken + 1;
    }
    assert(all.take(all.len() as int) =~= all);
    sorted
}

proof fn lemma_insert_pos_props<T>(s: Seq<KeyedView<T>>, e: KeyedView<T>, desc: bool)
    ensures
        forall|k: int| 0 <= k < insert_pos(s, e, desc) ==> !key_before(e, #[trigger] s[k], desc),
        insert_pos(s, e, desc) < s.len() ==> key_before(e, s[insert_pos(s, e, desc)], desc),
    decreases s.len(),
{
    lemma_insert_pos_bound(s, e, desc);
    if s.len() > 0 && !key_before(e, s[0], desc) {
        let t = s.drop_first();
        lemma_insert_pos_props(t, e, desc);
        lemma_insert_pos_bound(t, e, desc);
        assert forall|k: int| 0 <= k < insert_pos(s, e, desc) implies !key_before(
            e,
            #[trigger] s[k],
            desc,
        ) by {
            if k > 0 {
                assert(s[k] == t[k - 1]);
            }
        }
        let ps = insert_pos(s, e, desc);
        let pt = insert_pos(t, e, desc);
        assert(ps == 1 + pt);
        if ps < s.len() {
            assert(s[ps] == t[pt]);
        }
    }
}

/// Being before is transitive.
pub proof fn lemma_key_before_transitive<T>(
    a: KeyedView<T>,
    b: KeyedView<T>,
    c: KeyedView<T>,
    desc: bool,
)
    requires
        key_before(a, b, desc),
        key_before(b, c, desc),
    ensures
        key_before(a, c, desc),
{
    if desc {
        if c.0 == b.0 && b.0 == a.0 {
            lemma_lex_transitive(c.1, b.1, a.1);
        }
    } else {
        if a.0 == b.0 && b.0 == c.0 {
            lemma_lex_transitive(a.1, b.1, c.1);
        }
    }
}

/// No element comes before an element placed ahead of it.
pub open spec fn sorted_by<T>(s: Seq<KeyedView<T>>, desc: bool) -> bool {
    forall|i: int, j: int| 0 <= i < j < s.len() ==> !key_before(#[trigger] s[j], #[trigger] s[i], desc)
}

/// The result of a stable sort is in order.
pub proof fn lemma_stable_sorted_in_order<T>(s: Seq<KeyedView<T>>, desc: bool)
    ensures
        sorted_by(stable_sorted(s, desc), desc),
    decreases s.len(),
{
    if s.len() > 0 {
        let p = stable_sorted(s.drop_last(), desc);
        let e = s.last();
        lemma_stable_sorted_in_order(s.drop_last(), desc);
        lemma_stable_sorted_len(s.drop_last(), desc);
        let pos = insert_pos(p, e, desc);
        lemma_insert_pos_props(p, e, desc);
        lemma_insert_pos_bound(p, e, desc);
        let q = p.insert(pos, e);
        assert(stable_sorted(s, desc) == q);
        assert forall|i: int, j: int| 0 <= i < j < q.len() implies !key_before(
            #[trigger] q[j],
            #[trigger] q[i],
            desc,
        ) by {
            if j < pos {
                assert(q[i] == p[i] && q[j] == p[j]);
            } else if j == pos {
                assert(q[i] == p[i] && q[j] == e);
            } else if i < pos {
                assert(q[i] == p[i] && q[j] == p[j - 1]);
            } else if i == pos {
                assert(q[i] == e && q[j] == p[j - 1]);
                if key_before(p[j - 1], e, desc) {
                    lemma_key_before_transitive(p[j - 1], e, p[pos], desc);
                    if j - 1 > pos {
                        assert(!key_before(p[j - 1], p[pos], desc));
                    } else {
                        lemma_lex_irreflexive(p[pos].1);
                    }
                }
            } else {
                assert(q[i] == p[i - 1] && q[j] == p[j - 1]);
            }
        }
    }
}

/// A stable sort only rearranges: it keeps every element, as many times.
pub proof fn lemma_stable_sorted_permutes<T>(s: Seq<KeyedView<T>>, desc: bool)
    ensures
        stable_sorted(s, desc).to_multiset() == s.to_multiset(),
    decreases s.len(),
{
    if s.len() > 0 {
        let p = stable_sorted(s.drop_last(), desc);
        let e = s.last();
        lemma_stable_sorted_permutes(s.drop_last(), desc);
        lemma_stable_sorted_len(s.drop_last(), desc);
        lemma_insert_pos_bound(p, e, desc);
        let pos = insert_pos(p, e, desc);
        vstd::seq_lib::to_multiset_insert(p, pos, e);
        vstd::seq_lib::to_multiset_build(s.drop_last(), e);
        assert(s.drop_last().push(e) =~= s);
    }
}

/// A stable sort keeps every element, as many times, whatever the keys.
pub proof fn lemma_stable_sorted_values_permute<T>(s: Seq<KeyedView<T>>, desc: bool)
    ensures
        values_of(stable_sorted(s, desc)).to_multiset() == values_of(s).to_multiset(),
    decreases s.len(),
{
    if s.len() > 0 {
        let p = stable_sorted(s.drop_last(), desc);
        let e = s.last();
        lemma_stable_sorted_values_permute(s.drop_last(), desc);
        lemma_stable_sorted_len(s.drop_last(), desc);
        lemma_insert_pos_bound(p, e, desc);
        let pos = insert_pos(p, e, desc);
        assert(values_of(p.insert(pos, e)) =~= values_of(p).insert(pos, e.2));
        vstd::seq_lib::to_multiset_insert(values_of(p), pos, e.2);
        assert(values_of(s) =~= values_of(s.drop_last()).push(e.2));
        vstd::seq_lib::to_multiset_build(values_of(s.drop_last()), e.2);
    }
}

/// Sorting a list already in order changes nothing.
pub proof fn lemma_stable_sorted_of_sorted<T>(s: Seq<KeyedView<T>>, desc: bool)
    requires
        sorted_by(s, desc),
    ensures
        stable_sorted(s, desc) == s,
    decreases s.len(),
{
    if s.len() > 0 {
        let p = s.drop_last();
        let e = s.last();
        assert forall|i: int, j: int| 0 <= i < j < p.len() implies !key_before(
            #[trigger] p[j],
            #[trigger] p[i],
            desc,
        ) by {
            assert(p[i] == s[i] && p[j] == s[j]);
        }
        lemma_stable_sorted_of_sorted(p, desc);
        assert forall|i: int| 0 <= i < p.len() implies !key_before(e, #[trigger] p[i], desc) by {
            assert(p[i] == s[i]);
            assert(e == s[s.len() - 1]);
        }
        lemma_insert_pos_after_all(p, e, desc);
        assert(p.insert(p.len() as int, e) =~= s);
    }
}

proof fn lemma_insert_pos_after_all<T>(s: Seq<KeyedView<T>>, e: KeyedView<T>, desc: bool)
    requires
        forall|i: int| 0 <= i < s.len() ==> !key_before(e, #[trigger] s[i], desc),
    ensures
        insert_pos(s, e, desc) == s.len(),
    decreases s.len(),
{
    if s.len() > 0 {
        let t = s.drop_first();
        assert forall|i: int| 0 <= i < t.len() implies !key_before(e, #[trigger] t[i], desc) by {
            assert(t[i] == s[i + 1]);
        }
        assert(!key_before(e, s[0], desc));
        lemma_insert_pos_after_all(t, e, desc);
    }
}

} // verus!
