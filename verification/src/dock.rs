//! The Dock's launchers: their order, separators, names and the folder
//! metadata that keeps identity and order next to the launchers on disk.
use vstd::prelude::*;

use crate::ids::{new_id, uuid_text};
use crate::model::{DockItem, DockItemKind, DrawerItemType};
use crate::order_map::lemma_lex_irreflexive;
use crate::sorting::{
    key_before, keyed_views, lemma_stable_sorted_in_order, lemma_stable_sorted_len,
    lemma_stable_sorted_permutes, stable_sort, stable_sorted, values_of, Keyed, KeyedView,
};
use crate::text::{chars_of, str_eq, trim_seq};
use crate::validation::{dock_name_message, validate_dock_item_name};

verus! {

/// `max(order) + 1` (saturating), or `0` for an empty Dock.
pub open spec fn next_order_after(orders: Seq<u32>) -> int
    decreases orders.len(),
{
    if orders.len() == 0 {
        0
    } else {
        let rest = next_order_after(orders.drop_last());
        let here = if orders.last() == u32::MAX {
            u32::MAX as int
        } else {
            orders.last() + 1
        };
        if rest > here {
            rest
        } else {
            here
        }
    }
}

/// The order given to a new launcher comes after every order already
/// used (saturating at `u32::MAX`), and is one past the largest of them:
/// no order is skipped.
pub proof fn lemma_next_order_after_all(orders: Seq<u32>)
    ensures
        0 <= next_order_after(orders) <= u32::MAX,
        forall|k: int|
            0 <= k < orders.len() ==> (#[trigger] orders[k]) < next_order_after(orders) || (
            orders[k] == u32::MAX && next_order_after(orders) == u32::MAX),
        orders.len() == 0 ==> next_order_after(orders) == 0,
        orders.len() > 0 ==> exists|k: int|
            0 <= k < orders.len() && next_order_after(orders) == (if orders[k] == u32::MAX {
                u32::MAX as int
            } else {
                orders[k] + 1
            }),
    decreases orders.len(),
{
    if orders.len() > 0 {
        let p = orders.drop_last();
        lemma_next_order_after_all(p);
        assert forall|k: int|
            0 <= k < orders.len() implies (#[trigger] orders[k]) < next_order_after(orders) || (
        orders[k] == u32::MAX && next_order_after(orders) == u32::MAX) by {
            if k < orders.len() - 1 {
                assert(orders[k] == p[k]);
            }
        }
        if p.len() > 0 && next_order_after(p) > (if orders.last() == u32::MAX {
            u32::MAX as int
        } else {
            orders.last() + 1
        }) {
            let k = choose|k: int|
                0 <= k < p.len() && next_order_after(p) == (if p[k] == u32::MAX {
                    u32::MAX as int
                } else {
                    p[k] + 1
                });
            assert(orders[k] == p[k]);
        } else {
            assert(orders[orders.len() - 1] == orders.last());
        }
    }
}

pub open spec fn dock_orders(items: Seq<DockItem>) -> Seq<u32> {
    items.map_values(|i: DockItem| i.order)
}

/// The order a new launcher gets: after every existing one.
pub fn next_order(items: &Vec<DockItem>) -> (r: u32)
    ensures
        r as int == next_order_after(dock_orders(items@)),
{
    let mut r: u32 = 0;
    let mut i: usize = 0;
    while i < items.len()
        invariant
            i <= items.len(),
            r as int == next_order_after(dock_orders(items@.take(i as int))),
        decreases items.len() - i,
    {
        assert(dock_orders(items@.take(i + 1)).drop_last() =~= dock_orders(items@.take(i as int)));
        let o = items[i].order;
        let here = if o == u32::MAX {
            u32::MAX
        } else {
            o + 1
        };
        if here > r {
            r = here;
        }
        i = i + 1;
    }
    assert(items@.take(items.len() as int) =~= items@);
    r
}

/// The position of an element as its stored order: its index, capped at
/// `u32::MAX`.
pub open spec fn index_order(i: int) -> u32 {
    if i <= u32::MAX {
        i as u32
    } else {
        u32::MAX
    }
}

/// `items` numbered `0, 1, 2, ...` in their current order.
pub open spec fn resequenced(items: Seq<DockItem>) -> Seq<DockItem> {
    Seq::new(items.len(), |i: int| DockItem { order: index_order(i), ..items[i] })
}

pub fn resequence(items: &mut Vec<DockItem>)
    ensures
        final(items)@ == resequenced(old(items)@),
{
    let mut i: usize = 0;
    while i < items.len()
        invariant
            i <= items.len(),
            items@.len() == old(items)@.len(),
            forall|k: int| 0 <= k < i ==> items@[k] == resequenced(old(items)@)[k],
            forall|k: int| i <= k < items@.len() ==> items@[k] == old(items)@[k],
        decreases items.len() - i,
    {
        let order: u32 = if i <= u32::MAX as usize {
            i as u32
        } else {
            u32::MAX
        };
        let mut item = items[i].duplicate();
        item.order = order;
        items.set(i, item);
        i = i + 1;
    }
    assert(items@ =~= resequenced(old(items)@));
}

/// The ids of the launchers.
pub open spec fn dock_ids(items: Seq<DockItem>) -> Set<Seq<char>> {
    Set::new(|x: Seq<char>| exists|i: int| 0 <= i < items.len() && (#[trigger] items[i]).id@ == x)
}

pub open spec fn listed_ids(ordered: Seq<String>) -> Set<Seq<char>> {
    Set::new(|x: Seq<char>| exists|i: int| 0 <= i < ordered.len() && (#[trigger] ordered[i])@ == x)
}

/// Index of the first `id` in `ordered`, or `usize::MAX`.
pub open spec fn first_position(ordered: Seq<String>, id: Seq<char>) -> usize {
    if exists|i: int| 0 <= i < ordered.len() && (#[trigger] ordered[i])@ == id {
        (choose|i: int|
            0 <= i < ordered.len() && ordered[i]@ == id && forall|j: int|
                0 <= j < i ==> (#[trigger] ordered[j])@ != id) as usize
    } else {
        usize::MAX
    }
}

pub fn position_of(ordered: &Vec<String>, id: &str) -> (r: usize)
    ensures
        r == first_position(ordered@, id@),
{
    let mut i: usize = 0;
    while i < ordered.len()
        invariant
            i <= ordered.len(),
            forall|j: int| 0 <= j < i ==> (#[trigger] ordered@[j])@ != id@,
        decreases ordered.len() - i,
    {
        if str_eq(ordered[i].as_str(), id) {
            proof {
                let c = choose|c: int|
                    0 <= c < ordered@.len() && ordered@[c]@ == id@ && forall|j: int|
                        0 <= j < c ==> (#[trigger] ordered@[j])@ != id@;
                if c < i {
                    assert(ordered@[c]@ != id@);
                }
                if i < c {
                    assert(ordered@[i as int]@ != id@);
                }
            }
            return i;
        }
        i = i + 1;
    }
    usize::MAX
}

/// The launchers keyed by the position of their id in `ordered`.
pub open spec fn ranked_by(items: Seq<DockItem>, ordered: Seq<String>) -> Seq<KeyedView<DockItem>> {
    Seq::new(
        items.len(),
        |i: int| (first_position(ordered, items[i].id@) as u64, Seq::<char>::empty(), items[i]),
    )
}

pub open spec fn reorder_message() -> Seq<char> {
    "El nuevo orden no coincide con los accesos del Dock"@
}

/// Whether `id` is among `b`.
fn is_listed(b: &Vec<String>, id: &str) -> (r: bool)
    ensures
        r == listed_ids(b@).contains(id@),
{
    let mut j: usize = 0;
    while j < b.len()
        invariant
            j <= b.len(),
            forall|k: int| 0 <= k < j ==> (#[trigger] b@[k])@ != id@,
        decreases b.len() - j,
    {
        if str_eq(b[j].as_str(), id) {
            assert(b@[j as int]@ == id@);
            return true;
        }
        j = j + 1;
    }
    proof {
        if listed_ids(b@).contains(id@) {
            let k = choose|k: int| 0 <= k < b@.len() && (#[trigger] b@[k])@ == id@;
            assert(b@[k]@ != id@);
        }
    }
    false
}

/// Whether every id of `a` is among `b`.
fn all_listed(a: &Vec<DockItem>, b: &Vec<String>) -> (r: bool)
    ensures
        r == (forall|i: int| 0 <= i < a@.len() ==> listed_ids(b@).contains(#[trigger] a@[i].id@)),
{
    let mut i: usize = 0;
    while i < a.len()
        invariant
            i <= a.len(),
            forall|k: int| 0 <= k < i ==> listed_ids(b@).contains(#[trigger] a@[k].id@),
        decreases a.len() - i,
    {
        if !is_listed(b, a[i].id.as_str()) {
            return false;
        }
        i = i + 1;
    }
    true
}

/// Whether some launcher of `a` has the id `id`.
fn has_id(a: &Vec<DockItem>, id: &str) -> (r: bool)
    ensures
        r == dock_ids(a@).contains(id@),
{
    let mut j: usize = 0;
    while j < a.len()
        invariant
            j <= a.len(),
            forall|k: int| 0 <= k < j ==> (#[trigger] a@[k]).id@ != id@,
        decreases a.len() - j,
    {
        if str_eq(a[j].id.as_str(), id) {
            assert(a@[j as int].id@ == id@);
            return true;
        }
        j = j + 1;
    }
    proof {
        if dock_ids(a@).contains(id@) {
            let k = choose|k: int| 0 <= k < a@.len() && (#[trigger] a@[k]).id@ == id@;
            assert(a@[k].id@ != id@);
        }
    }
    false
}

/// Whether every id of `b` belongs to a launcher of `a`.
fn all_present(a: &Vec<DockItem>, b: &Vec<String>) -> (r: bool)
    ensures
        r == (forall|i: int| 0 <= i < b@.len() ==> dock_ids(a@).contains(#[trigger] b@[i]@)),
{
    let mut i: usize = 0;
    while i < b.len()
        invariant
            i <= b.len(),
            forall|k: int| 0 <= k < i ==> dock_ids(a@).contains(#[trigger] b@[k]@),
        decreases b.len() - i,
    {
        if !has_id(a, b[i].as_str()) {
            return false;
        }
        i = i + 1;
    }
    true
}

/// Whether the launchers' ids and `ordered` name the same set of ids.
fn same_ids(items: &Vec<DockItem>, ordered: &Vec<String>) -> (r: bool)
    ensures
        r == (dock_ids(items@) == listed_ids(ordered@)),
{
    let a = all_listed(items, ordered);
    let b = all_present(items, ordered);
    proof {
        if a && b {
            assert(dock_ids(items@) =~= listed_ids(ordered@)) by {
                assert forall|x: Seq<char>| dock_ids(items@).contains(x) implies listed_ids(
                    ordered@,
                ).contains(x) by {
                    let i = choose|i: int| 0 <= i < items@.len() && (#[trigger] items@[i]).id@ == x;
                    assert(listed_ids(ordered@).contains(items@[i].id@));
                }
                assert forall|x: Seq<char>| listed_ids(ordered@).contains(x) implies dock_ids(
                    items@,
                ).contains(x) by {
                    let i = choose|i: int| 0 <= i < ordered@.len() && (#[trigger] ordered@[i])@ == x;
                    assert(dock_ids(items@).contains(ordered@[i]@));
                }
            }
        }
        if dock_ids(items@) == listed_ids(ordered@) {
            assert forall|i: int| 0 <= i < items@.len() implies listed_ids(ordered@).contains(
                #[trigger] items@[i].id@,
            ) by {
                assert(dock_ids(items@).contains(items@[i].id@));
            }
            assert forall|i: int| 0 <= i < ordered@.len() implies dock_ids(items@).contains(
                #[trigger] ordered@[i]@,
            ) by {
                assert(listed_ids(ordered@).contains(ordered@[i]@));
            }
        }
    }
    a && b
}

/// The launchers stably sorted by the position of their id in `ordered`.
fn arranged(items: &Vec<DockItem>, ordered: &Vec<String>) -> (r: Vec<DockItem>)
    ensures
        r@ == values_of(stable_sorted(ranked_by(items@, ordered@), false)),
{
    let mut keyed: Vec<Keyed<DockItem>> = Vec::new();
    let mut i: usize = 0;
    while i < items.len()
        invariant
            i <= items.len(),
            keyed_views(keyed@) == ranked_by(items@, ordered@).take(i as int),
        decreases items.len() - i,
    {
        let rank = position_of(ordered, items[i].id.as_str());
        let k = Keyed { rank: rank as u64, name: Vec::new(), value: items[i].duplicate() };
        let ghost before = keyed_views(keyed@);
        keyed.push(k);
        assert(keyed_views(keyed@) =~= ranked_by(items@, ordered@).take(i + 1)) by {
            assert(k.name@ =~= Seq::<char>::empty());
            assert(keyed_views(keyed@) =~= before.push(k.key_view()));
        }
        i = i + 1;
    }
    assert(ranked_by(items@, ordered@).take(items.len() as int) =~= ranked_by(items@, ordered@));
    let sorted = stable_sort(keyed, false);
    let mut result: Vec<DockItem> = Vec::new();
    let mut j: usize = 0;
    let ghost sv = keyed_views(sorted@);
    while j < sorted.len()
        invariant
            j <= sorted.len(),
            sv == keyed_views(sorted@),
            result@ == values_of(sv).take(j as int),
        decreases sorted.len() - j,
    {
        result.push(sorted[j].value.duplicate());
        assert(result@ =~= values_of(sv).take(j + 1));
        j = j + 1;
    }
    assert(values_of(sv).take(sorted.len() as int) =~= values_of(sv));
    result
}

/// Puts the launchers in the order of `ordered_item_ids`, which must name
/// exactly the Dock's launchers, and renumbers them.
pub fn reorder_dock_items(items: &mut Vec<DockItem>, ordered_item_ids: &Vec<String>) -> (r: Result<
    (),
    String,
>)
    ensures
        r is Ok <==> dock_ids(old(items)@) == listed_ids(ordered_item_ids@),
        r matches Err(m) ==> m@ == reorder_message() && final(items)@ == old(items)@,
        r is Ok ==> final(items)@ == resequenced(
            values_of(stable_sorted(ranked_by(old(items)@, ordered_item_ids@), false)),
        ),
{
    if !same_ids(items, ordered_item_ids) {
        let m = "El nuevo orden no coincide con los accesos del Dock".to_owned();
        proof {
            reveal_strlit("El nuevo orden no coincide con los accesos del Dock");
        }
        return Err(m);
    }
    let mut result = arranged(items, ordered_item_ids);
    resequence(&mut result);
    *items = result;
    Ok(())
}

/// The launchers without those whose id is `id`, in their order.
pub open spec fn dock_without(items: Seq<DockItem>, id: Seq<char>) -> Seq<DockItem>
    decreases items.len(),
{
    if items.len() == 0 {
        items
    } else if items.last().id@ == id {
        dock_without(items.drop_last(), id)
    } else {
        dock_without(items.drop_last(), id).push(items.last())
    }
}

proof fn lemma_dock_without_len(items: Seq<DockItem>, id: Seq<char>)
    ensures
        dock_without(items, id).len() <= items.len(),
        dock_without(items, id).len() == items.len() <==> !dock_ids(items).contains(id),
    decreases items.len(),
{
    if items.len() > 0 {
        let init = items.drop_last();
        lemma_dock_without_len(init, id);
        if dock_ids(init).contains(id) {
            let k = choose|k: int| 0 <= k < init.len() && (#[trigger] init[k]).id@ == id;
            assert(items[k].id@ == id);
        }
        if dock_ids(items).contains(id) && items.last().id@ != id {
            let k = choose|k: int| 0 <= k < items.len() && (#[trigger] items[k]).id@ == id;
            assert(k != items.len() - 1);
            assert(init[k].id@ == id);
        }
        if items.last().id@ == id {
            assert(items[items.len() - 1].id@ == id);
        }
    }
}

/// Taking a launcher out keeps every other launcher, in order, and leaves
/// none with that id.
pub proof fn lemma_dock_removal_keeps_the_others(items: Seq<DockItem>, id: Seq<char>)
    ensures
        dock_without(items, id) == items.filter(|x: DockItem| x.id@ != id),
        !dock_ids(dock_without(items, id)).contains(id),
    decreases items.len(),
{
    reveal(Seq::filter);
    if items.len() > 0 {
        lemma_dock_removal_keeps_the_others(items.drop_last(), id);
    }
    let r = dock_without(items, id);
    if dock_ids(r).contains(id) {
        let k = choose|k: int| 0 <= k < r.len() && (#[trigger] r[k]).id@ == id;
        items.filter_lemma(|x: DockItem| x.id@ != id);
        assert(r.contains(r[k]));
    }
}

pub open spec fn missing_entry_message() -> Seq<char> {
    "Ese acceso ya no está en el Dock"@
}

pub open spec fn missing_element_message() -> Seq<char> {
    "Ese elemento ya no está en el Dock"@
}

pub open spec fn separator_message() -> Seq<char> {
    "Los separadores no ejecutan ninguna acción"@
}

/// Index of the first launcher with id `id`.
pub open spec fn first_with_id(items: Seq<DockItem>, id: Seq<char>) -> Option<int> {
    if dock_ids(items).contains(id) {
        Some(
            choose|i: int|
                0 <= i < items.len() && items[i].id@ == id && forall|j: int|
                    0 <= j < i ==> (#[trigger] items[j]).id@ != id,
        )
    } else {
        None
    }
}

/// Index of the first launcher with id `id`.
pub fn find_dock_item(items: &Vec<DockItem>, id: &str) -> (r: Option<usize>)
    ensures
        r matches Some(i) ==> first_with_id(items@, id@) == Some(i as int) && i < items@.len()
            && items@[i as int].id@ == id@,
        r is None <==> first_with_id(items@, id@) is None,
{
    let mut j: usize = 0;
    while j < items.len()
        invariant
            j <= items.len(),
            forall|k: int| 0 <= k < j ==> (#[trigger] items@[k]).id@ != id@,
        decreases items.len() - j,
    {
        if str_eq(items[j].id.as_str(), id) {
            proof {
                assert(dock_ids(items@).contains(id@));
                let c = choose|c: int|
                    0 <= c < items@.len() && items@[c].id@ == id@ && forall|k: int|
                        0 <= k < c ==> (#[trigger] items@[k]).id@ != id@;
                if c < j {
                    assert(items@[c].id@ != id@);
                }
                if j < c {
                    assert(items@[j as int].id@ != id@);
                }
            }
            return Some(j);
        }
        j = j + 1;
    }
    proof {
        if dock_ids(items@).contains(id@) {
            let k = choose|k: int| 0 <= k < items@.len() && (#[trigger] items@[k]).id@ == id@;
            assert(items@[k].id@ != id@);
        }
    }
    None
}

/// A copy of the launcher `item_id`.
pub fn dock_item(items: &Vec<DockItem>, item_id: &str) -> (r: Result<DockItem, String>)
    ensures
        r matches Ok(item) ==> (first_with_id(items@, item_id@) matches Some(i) && item == items@[i]),
        r is Err <==> first_with_id(items@, item_id@) is None,
        r matches Err(m) ==> m@ == missing_entry_message(),
{
    match find_dock_item(items, item_id) {
        Some(i) => Ok(items[i].duplicate()),
        None => {
            proof {
                reveal_strlit("Ese acceso ya no está en el Dock");
            }
            Err("Ese acceso ya no está en el Dock".to_owned())
        },
    }
}

/// Only launchers run or open something; separators refuse.
pub fn ensure_shortcut(item: &DockItem) -> (r: Result<(), String>)
    ensures
        r is Ok <==> item.kind != DockItemKind::Separator,
        r matches Err(m) ==> m@ == separator_message(),
{
    match item.kind {
        DockItemKind::Separator => {
            proof {
                reveal_strlit("Los separadores no ejecutan ninguna acción");
            }
            Err("Los separadores no ejecutan ninguna acción".to_owned())
        },
        DockItemKind::Shortcut => Ok(()),
    }
}

/// Takes the launcher `item_id` out of the Dock and renumbers the rest.
pub fn remove_dock_item(items: &mut Vec<DockItem>, item_id: &str) -> (r: Result<(), String>)
    ensures
        r is Ok <==> dock_ids(old(items)@).contains(item_id@),
        r matches Err(m) ==> m@ == missing_entry_message() && final(items)@ == old(items)@,
        r is Ok ==> final(items)@ == resequenced(dock_without(old(items)@, item_id@)),
{
    let mut kept: Vec<DockItem> = Vec::new();
    let mut i: usize = 0;
    while i < items.len()
        invariant
            i <= items.len(),
            kept@ == dock_without(items@.take(i as int), item_id@),
        decreases items.len() - i,
    {
        assert(items@.take(i + 1).drop_last() =~= items@.take(i as int));
        if !str_eq(items[i].id.as_str(), item_id) {
            kept.push(items[i].duplicate());
        }
        i = i + 1;
    }
    assert(items@.take(items.len() as int) =~= items@);
    proof {
        lemma_dock_without_len(items@, item_id@);
    }
    if kept.len() == items.len() {
        proof {
            reveal_strlit("Ese acceso ya no está en el Dock");
        }
        return Err("Ese acceso ya no está en el Dock".to_owned());
    }
    resequence(&mut kept);
    *items = kept;
    Ok(())
}

/// Gives the launcher `item_id` a new visible name, trimmed and of 1 to 80
/// characters.
pub fn rename_dock_item(items: &mut Vec<DockItem>, item_id: &str, name: &str) -> (r: Result<
    (),
    String,
>)
    ensures
        r is Ok <==> (trim_seq(name@).len() > 0 && trim_seq(name@).len() <= 80
            && first_with_id(old(items)@, item_id@) is Some),
        r matches Err(m) ==> final(items)@ == old(items)@ && (if trim_seq(name@).len() == 0
            || trim_seq(name@).len() > 80 {
            m@ == dock_name_message()
        } else {
            m@ == missing_element_message()
        }),
        r is Ok ==> (first_with_id(old(items)@, item_id@) matches Some(i) && final(items)@
            == old(items)@.update(
            i,
            DockItem { display_name: final(items)@[i].display_name, ..old(items)@[i] },
        ) && final(items)@[i].display_name@ == trim_seq(name@)),
{
    let value = match validate_dock_item_name(name) {
        Ok(v) => v,
        Err(m) => {
            return Err(m);
        },
    };
    match find_dock_item(items, item_id) {
        Some(i) => {
            let mut item = items[i].duplicate();
            item.display_name = value;
            items.set(i, item);
            Ok(())
        },
        None => {
            proof {
                reveal_strlit("Ese elemento ya no está en el Dock");
            }
            Err("Ese elemento ya no está en el Dock".to_owned())
        },
    }
}

/// The separator that `add_dock_separator` appends.
pub open spec fn is_new_separator(item: DockItem, order: u32, now: u64, random: u128) -> bool {
    &&& item.id@ == uuid_text(random)
    &&& item.kind == DockItemKind::Separator
    &&& item.item_type == DrawerItemType::File
    &&& item.display_name@ == "Separador"@
    &&& item.path@ == Seq::<char>::empty()
    &&& item.icon_key@ == Seq::<char>::empty()
    &&& item.order == order
    &&& item.available
    &&& item.created_at == now
}

/// Appends a separator after every launcher; its id is made from `random`.
pub fn add_dock_separator(items: &mut Vec<DockItem>, now: u64, random: u128)
    ensures
        final(items)@.len() == old(items)@.len() + 1,
        final(items)@.drop_last() == old(items)@,
        is_new_separator(
            final(items)@.last(),
            next_order_after(dock_orders(old(items)@)) as u32,
            now,
            random,
        ),
{
    let order = next_order(items);
    let separator = DockItem {
        id: new_id(random),
        kind: DockItemKind::Separator,
        item_type: DrawerItemType::File,
        display_name: "Separador".to_owned(),
        path: String::new(),
        icon_key: String::new(),
        order,
        available: true,
        created_at: now,
    };
    items.push(separator);
    assert(items@.drop_last() =~= old(items)@);
}

/// Records whether the launcher `item_id` still finds what it points at.
/// Unknown ids change nothing.
pub fn set_dock_availability(items: &mut Vec<DockItem>, item_id: &str, available: bool)
    ensures
        first_with_id(old(items)@, item_id@) matches Some(i) ==> final(items)@ == old(
            items,
        )@.update(i, DockItem { available: available, ..old(items)@[i] }),
        first_with_id(old(items)@, item_id@) is None ==> final(items)@ == old(items)@,
{
    if let Some(i) = find_dock_item(items, item_id) {
        let mut item = items[i].duplicate();
        item.available = available;
        items.set(i, item);
    }
}

/// The ids of the launchers, in order.
pub open spec fn id_sequence(items: Seq<DockItem>) -> Seq<Seq<char>> {
    items.map_values(|i: DockItem| i.id@)
}

pub open spec fn string_seq(ordered: Seq<String>) -> Seq<Seq<char>> {
    ordered.map_values(|s: String| s@)
}

proof fn lemma_first_position_is(ordered: Seq<String>, id: Seq<char>, j: int)
    requires
        string_seq(ordered).no_duplicates(),
        0 <= j < ordered.len(),
        ordered[j]@ == id,
        ordered.len() <= usize::MAX,
    ensures
        first_position(ordered, id) == j,
{
    assert forall|k: int| 0 <= k < j implies (#[trigger] ordered[k])@ != id by {
        assert(string_seq(ordered)[k] == ordered[k]@);
        assert(string_seq(ordered)[j] == ordered[j]@);
    }
    assert(exists|i: int| 0 <= i < ordered.len() && (#[trigger] ordered[i])@ == id);
    let c = choose|i: int|
        0 <= i < ordered.len() && ordered[i]@ == id && forall|j: int|
            0 <= j < i ==> (#[trigger] ordered[j])@ != id;
    assert(0 <= c < ordered.len() && ordered[c]@ == id);
    if c != j {
        assert(string_seq(ordered)[c] == ordered[c]@);
        assert(string_seq(ordered)[j] == ordered[j]@);
    }
}

proof fn lemma_index_from_range(v: Seq<KeyedView<DockItem>>, k: int)
    requires
        forall|i: int, j: int| 0 <= i < j < v.len() ==> (#[trigger] v[i]).0 < (#[trigger] v[j]).0,
        forall|i: int| 0 <= i < v.len() ==> (#[trigger] v[i]).0 < v.len(),
        0 <= k < v.len(),
    ensures
        v[k].0 == k,
{
    lemma_rank_at_least(v, k);
    lemma_rank_at_most(v, k);
}

proof fn lemma_rank_at_least(v: Seq<KeyedView<DockItem>>, k: int)
    requires
        forall|i: int, j: int| 0 <= i < j < v.len() ==> (#[trigger] v[i]).0 < (#[trigger] v[j]).0,
        0 <= k < v.len(),
    ensures
        v[k].0 >= k,
    decreases k,
{
    if k > 0 {
        lemma_rank_at_least(v, k - 1);
        assert(v[k - 1].0 < v[k].0);
    }
}

proof fn lemma_rank_at_most(v: Seq<KeyedView<DockItem>>, k: int)
    requires
        forall|i: int, j: int| 0 <= i < j < v.len() ==> (#[trigger] v[i]).0 < (#[trigger] v[j]).0,
        forall|i: int| 0 <= i < v.len() ==> (#[trigger] v[i]).0 < v.len(),
        0 <= k < v.len(),
    ensures
        v[k].0 <= k,
    decreases v.len() - k,
{
    if k < v.len() - 1 {
        lemma_rank_at_most(v, k + 1);
        assert(v[k].0 < v[k + 1].0);
    }
}

/// Each launcher is ranked by the place of its id in the request, and no
/// two launchers share a rank.
proof fn lemma_ranks(items: Seq<DockItem>, ordered: Seq<String>)
    requires
        id_sequence(items).no_duplicates(),
        string_seq(ordered).no_duplicates(),
        ordered.len() == items.len(),
        items.len() <= usize::MAX,
        dock_ids(items) == listed_ids(ordered),
    ensures
        forall|i: int|
            0 <= i < items.len() ==> (#[trigger] ranked_by(items, ordered)[i]).0 < items.len()
                && ordered[ranked_by(items, ordered)[i].0 as int]@ == items[i].id@,
        forall|a: int, b: int|
            0 <= a < items.len() && 0 <= b < items.len() && a != b ==> (#[trigger] ranked_by(
                items,
                ordered,
            )[a]).0 != (#[trigger] ranked_by(items, ordered)[b]).0,
{
    let s = ranked_by(items, ordered);
    assert forall|i: int| 0 <= i < items.len() implies (#[trigger] s[i]).0 < items.len()
        && ordered[s[i].0 as int]@ == items[i].id@ by {
        assert(dock_ids(items).contains(items[i].id@));
        assert(listed_ids(ordered).contains(items[i].id@));
        let j = choose|j: int| 0 <= j < ordered.len() && (#[trigger] ordered[j])@ == items[i].id@;
        lemma_first_position_is(ordered, items[i].id@, j);
    }
    assert forall|a: int, b: int| 0 <= a < items.len() && 0 <= b < items.len() && a != b implies (
    #[trigger] s[a]).0 != (#[trigger] s[b]).0 by {
        if s[a].0 == s[b].0 {
            assert(id_sequence(items)[a] == items[a].id@);
            assert(id_sequence(items)[b] == items[b].id@);
        }
    }
}

/// The elements of a stable sort are elements of its input; with
/// distinct ranks, ranks strictly increase along it.
proof fn lemma_sorted_distinct_ranks(s: Seq<KeyedView<DockItem>>)
    requires
        forall|a: int, b: int|
            0 <= a < s.len() && 0 <= b < s.len() && a != b ==> (#[trigger] s[a]).0 != (
            #[trigger] s[b]).0,
        forall|a: int| 0 <= a < s.len() ==> (#[trigger] s[a]).1 == Seq::<char>::empty(),
    ensures
        stable_sorted(s, false).len() == s.len(),
        forall|k: int|
            0 <= k < s.len() ==> exists|a: int|
                0 <= a < s.len() && #[trigger] stable_sorted(s, false)[k] == s[a],
        forall|i: int, j: int|
            0 <= i < j < s.len() ==> (#[trigger] stable_sorted(s, false)[i]).0 < (
            #[trigger] stable_sorted(s, false)[j]).0,
{
    broadcast use vstd::seq_lib::group_to_multiset_ensures;

    let out = stable_sorted(s, false);
    lemma_stable_sorted_len(s, false);
    lemma_stable_sorted_in_order(s, false);
    lemma_stable_sorted_permutes(s, false);
    assert forall|k: int| 0 <= k < s.len() implies exists|a: int|
        0 <= a < s.len() && #[trigger] out[k] == s[a] by {
        assert(out.contains(out[k]));
        assert(out.to_multiset().count(out[k]) > 0);
        assert(s.contains(out[k]));
    }
    assert(s.no_duplicates());
    s.lemma_multiset_has_no_duplicates();
    out.lemma_multiset_has_no_duplicates_conv();
    assert forall|i: int, j: int| 0 <= i < j < s.len() implies (#[trigger] out[i]).0 < (
    #[trigger] out[j]).0 by {
        assert(!key_before(out[j], out[i], false));
        let a = choose|a: int| 0 <= a < s.len() && out[i] == s[a];
        let b = choose|b: int| 0 <= b < s.len() && out[j] == s[b];
        lemma_lex_irreflexive(Seq::<char>::empty());
        assert(out[i] != out[j]);
    }
}

/// Reordering follows the request: when the requested order names every
/// launcher exactly once, the launchers come out in exactly that order.
pub proof fn lemma_reorder_follows_request(items: Seq<DockItem>, ordered: Seq<String>)
    requires
        id_sequence(items).no_duplicates(),
        string_seq(ordered).no_duplicates(),
        ordered.len() == items.len(),
        items.len() <= usize::MAX,
        dock_ids(items) == listed_ids(ordered),
    ensures
        id_sequence(resequenced(values_of(stable_sorted(ranked_by(items, ordered), false))))
            == string_seq(ordered),
{
    let n = items.len() as int;
    let s = ranked_by(items, ordered);
    let out = stable_sorted(s, false);
    lemma_ranks(items, ordered);
    lemma_sorted_distinct_ranks(s);
    assert forall|k: int| 0 <= k < n implies (#[trigger] out[k]).0 < n by {
        let a = choose|a: int| 0 <= a < n && out[k] == s[a];
    }
    let result = resequenced(values_of(out));
    assert forall|k: int| 0 <= k < n implies #[trigger] id_sequence(result)[k] == string_seq(
        ordered,
    )[k] by {
        lemma_index_from_range(out, k);
        let a = choose|a: int| 0 <= a < n && out[k] == s[a];
        assert(ordered[s[a].0 as int]@ == items[a].id@);
    }
    assert(id_sequence(result) =~= string_seq(ordered));
}

} // verus!

verus! {

/// The key under which a path added to the Dock is recognised as already
/// added in the same batch: `/` read as `\`, lower-cased.
pub open spec fn source_key_of(path: Seq<char>) -> Seq<char> {
    crate::text::unicode_lowercase(crate::text::replace_char_seq(path, '/', '\\'))
}

/// A batch of paths being added to the Dock.
pub struct DockAddBatch {
    pub known: Vec<String>,
    pub order: u32,
    pub added: Vec<DockItem>,
    pub duplicates: usize,
    pub failures: Vec<crate::drawer_items::AddItemFailure>,
}

pub open spec fn batch_keys(known: Seq<String>) -> Seq<Seq<char>> {
    known.map_values(|s: String| s@)
}

impl DockAddBatch {
    /// Starts a batch for a Dock holding `items`: new launchers go after
    /// all of them.
    pub fn new(items: &Vec<DockItem>) -> (r: DockAddBatch)
        ensures
            r.known@.len() == 0,
            r.order as int == next_order_after(dock_orders(items@)),
            r.added@.len() == 0,
            r.duplicates == 0,
            r.failures@.len() == 0,
    {
        DockAddBatch {
            known: Vec::new(),
            order: next_order(items),
            added: Vec::new(),
            duplicates: 0,
            failures: Vec::new(),
        }
    }

    /// The trimmed path to add, or `None` for a blank one (skipped).
    pub fn trimmed_source(raw: &str) -> (r: Option<String>)
        ensures
            trim_seq(raw@).len() == 0 ==> r is None,
            trim_seq(raw@).len() > 0 ==> (r matches Some(p) && p@ == trim_seq(raw@)),
    {
        let t = crate::text::trim(raw);
        if chars_of(t.as_str()).len() == 0 {
            None
        } else {
            Some(t)
        }
    }

    /// Whether `path` was already added in this batch; if not, it is now
    /// remembered. A repeat counts as a duplicate.
    pub fn repeat(&mut self, path: &str) -> (r: bool)
        ensures
            r == batch_keys(old(self).known@).contains(source_key_of(path@)),
            r ==> final(self).known == old(self).known && final(self).duplicates == (if old(
                self,
            ).duplicates == usize::MAX {
                usize::MAX
            } else {
                (old(self).duplicates + 1) as usize
            }),
            !r ==> batch_keys(final(self).known@) == batch_keys(old(self).known@).push(
                source_key_of(path@),
            ) && final(self).duplicates == old(self).duplicates,
            final(self).order == old(self).order,
            final(self).added == old(self).added,
            final(self).failures == old(self).failures,
    {
        let replaced = crate::text::string_of(&crate::text::replace_char(&chars_of(path), '/', '\\'));
        let key = crate::text::to_lowercase(replaced.as_str());
        let mut i: usize = 0;
        while i < self.known.len()
            invariant
                i <= self.known@.len(),
                *self == *old(self),
                key@ == source_key_of(path@),
                forall|j: int| 0 <= j < i ==> batch_keys(self.known@)[j] != key@,
            decreases self.known@.len() - i,
        {
            if str_eq(self.known[i].as_str(), key.as_str()) {
                assert(batch_keys(self.known@)[i as int] == key@);
                self.duplicates = if self.duplicates == usize::MAX {
                    usize::MAX
                } else {
                    self.duplicates + 1
                };
                return true;
            }
            i = i + 1;
        }
        let ghost before = batch_keys(self.known@);
        self.known.push(key);
        assert(batch_keys(self.known@) =~= before.push(source_key_of(path@)));
        false
    }

    /// Records a path that could not be added.
    pub fn fail(&mut self, path: String, message: String)
        ensures
            final(self).failures@ == old(self).failures@.push(
                crate::drawer_items::AddItemFailure { path, message },
            ),
            final(self).known == old(self).known,
            final(self).order == old(self).order,
            final(self).added == old(self).added,
            final(self).duplicates == old(self).duplicates,
    {
        self.failures.push(crate::drawer_items::AddItemFailure { path, message });
    }

    /// Records a launcher now stored at `destination` (a folder when
    /// `is_dir`), shown as `display_name`, added `now`, with an id made
    /// from `random`.
    pub fn add(
        &mut self,
        display_name: String,
        destination: &str,
        is_dir: bool,
        now: u64,
        random: u128,
    )
        ensures
            final(self).added@.drop_last() == old(self).added@,
            ({
                let item = final(self).added@.last();
                &&& item.id@ == uuid_text(random)
                &&& item.kind == DockItemKind::Shortcut
                &&& item.item_type == crate::items::item_type_of(is_dir, destination@)
                &&& item.display_name@ == display_name@
                &&& item.path@ == destination@
                &&& item.icon_key@ == crate::icons::icon_key_of(destination@)
                &&& item.order == old(self).order
                &&& item.available
                &&& item.created_at == now
            }),
            final(self).order == (if old(self).order == u32::MAX {
                u32::MAX
            } else {
                (old(self).order + 1) as u32
            }),
            final(self).known == old(self).known,
            final(self).failures == old(self).failures,
            final(self).duplicates == old(self).duplicates,
    {
        let item = DockItem {
            id: new_id(random),
            kind: DockItemKind::Shortcut,
            item_type: crate::items::classify(destination, is_dir),
            display_name,
            path: crate::text::string_of(&chars_of(destination)),
            icon_key: crate::icons::IconService::key_for(destination),
            order: self.order,
            available: true,
            created_at: now,
        };
        let ghost before = self.added@;
        self.added.push(item);
        assert(self.added@.drop_last() =~= before);
        self.order = if self.order == u32::MAX {
            u32::MAX
        } else {
            self.order + 1
        };
    }

    /// Appends the launchers of the batch to the Dock.
    pub fn finish(self, items: &mut Vec<DockItem>) -> (r: usize)
        ensures
            final(items)@ == old(items)@ + self.added@,
            r == self.added@.len(),
    {
        let count = self.added.len();
        let mut i: usize = 0;
        while i < self.added.len()
            invariant
                i <= self.added@.len(),
                items@ == old(items)@ + self.added@.take(i as int),
            decreases self.added@.len() - i,
        {
            items.push(self.added[i].duplicate());
            assert(items@ =~= old(items)@ + self.added@.take(i + 1));
            i = i + 1;
        }
        assert(self.added@.take(self.added@.len() as int) =~= self.added@);
        count
    }
}

} // verus!
