//! The state of a drawer's levels: which references (links) sit on which
//! level, and the manual order of each level. Subdrawers are real folders;
//! converting, renaming, moving or restoring one carries its links and
//! orders along and never touches other levels.
use vstd::prelude::*;

use crate::model::{DrawerItem, DrawerItemType, StorageMode};
use crate::icons::{icon_key_of, IconService};
use crate::storage::{folder_name_message, folder_name_problem, join_path, joined_path, StorageService};
use crate::order_map::{
    lex_lt, apply_moved, ids_view, moved_entries, order_or_empty, outside_set, without, LevelOrders,
};
use crate::paths::{
    invalid_relative_message, is_same_or_descendant, normalized_relative,
    normalized_relative_string, relative_key, relative_key_of, relative_matches,
    relative_matches_spec, relative_path_valid, replace_prefix, replaced_prefix,
    same_or_descendant,
};
use crate::sorting::{keyed_views, stable_sort, stable_sorted, Keyed, KeyedView};
use crate::text::{
    chars_eq, chars_of, has_prefix, push_str, slice_chars, str_eq, string_of, trim, trim_seq,
};

verus! {

/// What the level rules read of a drawer.
pub struct DrawerContents {
    pub id: String,
    pub name: String,
    pub folder_path: String,
    pub items: Vec<DrawerItem>,
    pub level_orders: LevelOrders,
    pub updated_at: u64,
}

impl DrawerContents {
    pub open spec fn wf(&self) -> bool {
        self.level_orders.wf()
    }
}

/// `items` without those whose id is `id`.
pub open spec fn items_without_id(items: Seq<DrawerItem>, id: Seq<char>) -> Seq<DrawerItem>
    decreases items.len(),
{
    if items.len() == 0 {
        items
    } else if items.last().id@ == id {
        items_without_id(items.drop_last(), id)
    } else {
        items_without_id(items.drop_last(), id).push(items.last())
    }
}

/// The item `id` on level `container` (given in canonical spelling).
pub open spec fn on_level(item: DrawerItem, id: Seq<char>, container: Seq<char>) -> bool {
    item.id@ == id && relative_matches_spec(item.container_path@, container)
}

/// Index of the first item `id` on level `container`.
pub open spec fn first_on_level(items: Seq<DrawerItem>, id: Seq<char>, container: Seq<char>) -> Option<
    int,
>
    decreases items.len(),
{
    if items.len() == 0 {
        None
    } else {
        match first_on_level(items.drop_last(), id, container) {
            Some(i) => Some(i),
            None => if on_level(items.last(), id, container) {
                Some(items.len() - 1)
            } else {
                None
            },
        }
    }
}

pub open spec fn missing_item_message() -> Seq<char> {
    "El elemento solicitado ya no existe en este cajón"@
}

pub open spec fn managed_item_message() -> Seq<char> {
    "Este elemento está guardado físicamente. Usá Restaurar o Mover a otra ubicación."@
}

/// Why removing link `id` from level `relative` is refused, if it is.
pub open spec fn remove_link_refusal(
    items: Seq<DrawerItem>,
    relative: Seq<char>,
    id: Seq<char>,
) -> Option<Seq<char>> {
    if !relative_path_valid(relative) {
        Some(invalid_relative_message())
    } else {
        match first_on_level(items, id, normalized_relative(relative)) {
            None => Some(missing_item_message()),
            Some(i) => if items[i].storage_mode == StorageMode::Managed {
                Some(managed_item_message())
            } else {
                None
            },
        }
    }
}

/// Index of the first item `id` on level `container`.
pub fn find_on_level(items: &Vec<DrawerItem>, id: &str, container: &str) -> (r: Option<usize>)
    ensures
        r matches Some(i) ==> i < items@.len() && first_on_level(items@, id@, container@) == Some(
            i as int,
        ),
        r is None ==> first_on_level(items@, id@, container@) is None,
{
    let mut i: usize = 0;
    while i < items.len()
        invariant
            i <= items.len(),
            first_on_level(items@.take(i as int), id@, container@) is None,
        decreases items.len() - i,
    {
        assert(items@.take(i + 1).drop_last() =~= items@.take(i as int));
        if str_eq(items[i].id.as_str(), id) && relative_matches(
            items[i].container_path.as_str(),
            container,
        ) {
            proof {
                lemma_first_on_level_prefix(items@, id@, container@, i + 1);
            }
            return Some(i);
        }
        i = i + 1;
    }
    assert(items@.take(items.len() as int) =~= items@);
    None
}

proof fn lemma_first_on_level_prefix(
    items: Seq<DrawerItem>,
    id: Seq<char>,
    container: Seq<char>,
    n: int,
)
    requires
        0 < n <= items.len(),
        first_on_level(items.take(n), id, container) == Some(n - 1),
    ensures
        first_on_level(items, id, container) == Some(n - 1),
    decreases items.len(),
{
    if n < items.len() {
        assert(items.drop_last().take(n) =~= items.take(n));
        lemma_first_on_level_prefix(items.drop_last(), id, container, n);
    } else {
        assert(items.take(n) =~= items);
    }
}

/// A copy of `items` without those whose id is `id`.
pub fn remove_items_with_id(items: &mut Vec<DrawerItem>, id: &str)
    ensures
        final(items)@ == items_without_id(old(items)@, id@),
{
    let mut kept: Vec<DrawerItem> = Vec::new();
    let mut i: usize = 0;
    while i < items.len()
        invariant
            i <= items.len(),
            items@ == old(items)@,
            kept@ == items_without_id(items@.take(i as int), id@),
        decreases items.len() - i,
    {
        assert(items@.take(i + 1).drop_last() =~= items@.take(i as int));
        if !str_eq(items[i].id.as_str(), id) {
            kept.push(items[i].duplicate());
        }
        i = i + 1;
    }
    assert(items@.take(items.len() as int) =~= items@);
    *items = kept;
}

} // verus!

verus! {

impl DrawerContents {
    /// Removes link `item_id` from level `relative_path`. An element kept
    /// physically in the drawer is never removed this way: it must be
    /// restored or moved. The level's manual order forgets the id.
    pub fn remove_link_at_level(&mut self, relative_path: &str, item_id: &str, now: u64) -> (r:
        Result<(), String>)
        requires
            old(self).wf(),
        ensures
            final(self).wf(),
            r is Ok <==> remove_link_refusal(old(self).items@, relative_path@, item_id@) is None,
            r matches Err(m) ==> m@ == remove_link_refusal(
                old(self).items@,
                relative_path@,
                item_id@,
            )->0 && *final(self) == *old(self),
            r is Ok ==> {
                &&& final(self).items@ == items_without_id(old(self).items@, item_id@)
                &&& final(self).level_orders.view() == (if old(self).level_orders.view().contains_key(
                    relative_key_of(normalized_relative(relative_path@)),
                ) {
                    old(self).level_orders.view().insert(
                        relative_key_of(normalized_relative(relative_path@)),
                        without(
                            old(self).level_orders.view()[relative_key_of(
                                normalized_relative(relative_path@),
                            )],
                            item_id@,
                        ),
                    )
                } else {
                    old(self).level_orders.view()
                })
                &&& final(self).updated_at == now
                &&& final(self).id == old(self).id
                &&& final(self).name == old(self).name
                &&& final(self).folder_path == old(self).folder_path
            },
    {
        let container = match normalized_relative_string(relative_path) {
            Ok(c) => c,
            Err(m) => return Err(m),
        };
        let found = find_on_level(&self.items, item_id, container.as_str());
        let index = match found {
            Some(i) => i,
            None => return Err("El elemento solicitado ya no existe en este cajón".to_owned()),
        };
        if self.items[index].storage_mode == StorageMode::Managed {
            return Err(
                "Este elemento está guardado físicamente. Usá Restaurar o Mover a otra ubicación.".to_owned(),
            );
        }
        remove_items_with_id(&mut self.items, item_id);
        let key = relative_key(container.as_str());
        self.level_orders.remove_id(key.as_str(), item_id);
        self.updated_at = now;
        Ok(())
    }

    /// Removes link `item_id` from the drawer's root level.
    pub fn remove_link(&mut self, item_id: &str, now: u64) -> (r: Result<(), String>)
        requires
            old(self).wf(),
        ensures
            final(self).wf(),
            r is Ok <==> remove_link_refusal(old(self).items@, ""@, item_id@) is None,
            r matches Err(m) ==> m@ == remove_link_refusal(old(self).items@, ""@, item_id@)->0
                && *final(self) == *old(self),
            r is Ok ==> final(self).items@ == items_without_id(old(self).items@, item_id@)
                && final(self).updated_at == now,
    {
        self.remove_link_at_level("", item_id, now)
    }

    /// Forgets `item_id` in the manual order of level `relative_path`.
    pub fn remove_order_id(&mut self, relative_path: &str, item_id: &str)
        requires
            old(self).wf(),
        ensures
            final(self).wf(),
            final(self).items == old(self).items,
            final(self).id == old(self).id,
            final(self).name == old(self).name,
            final(self).folder_path == old(self).folder_path,
            final(self).updated_at == old(self).updated_at,
            final(self).level_orders.view() == (if old(self).level_orders.view().contains_key(
                relative_key_of(relative_path@),
            ) {
                old(self).level_orders.view().insert(
                    relative_key_of(relative_path@),
                    without(old(self).level_orders.view()[relative_key_of(relative_path@)], item_id@),
                )
            } else {
                old(self).level_orders.view()
            }),
    {
        let key = relative_key(relative_path);
        self.level_orders.remove_id(key.as_str(), item_id);
    }

    /// Places `item_id` last in the manual order of level `relative_path`.
    pub fn append_order_id(&mut self, relative_path: &str, item_id: String)
        requires
            old(self).wf(),
        ensures
            final(self).wf(),
            final(self).items == old(self).items,
            final(self).id == old(self).id,
            final(self).name == old(self).name,
            final(self).folder_path == old(self).folder_path,
            final(self).updated_at == old(self).updated_at,
            final(self).level_orders.view() == old(self).level_orders.view().insert(
                relative_key_of(relative_path@),
                without(
                    order_or_empty(old(self).level_orders.view(), relative_key_of(relative_path@)),
                    item_id@,
                ).push(item_id@),
            ),
    {
        let key = relative_key(relative_path);
        self.level_orders.append_id(key.as_str(), item_id);
    }
}

/// A link that travels with the subtree `prefix`.
pub open spec fn moves_with(item: DrawerItem, prefix: Seq<char>) -> bool {
    item.storage_mode == StorageMode::Linked && same_or_descendant(item.container_path@, prefix)
}

/// The items that stay when the subtree `prefix` leaves.
pub open spec fn staying_items(items: Seq<DrawerItem>, prefix: Seq<char>) -> Seq<DrawerItem>
    decreases items.len(),
{
    if items.len() == 0 {
        items
    } else if moves_with(items.last(), prefix) {
        staying_items(items.drop_last(), prefix)
    } else {
        staying_items(items.drop_last(), prefix).push(items.last())
    }
}

/// The links that travel with the subtree `prefix`, as they were.
pub open spec fn moving_items(items: Seq<DrawerItem>, prefix: Seq<char>) -> Seq<DrawerItem>
    decreases items.len(),
{
    if items.len() == 0 {
        items
    } else if moves_with(items.last(), prefix) {
        moving_items(items.drop_last(), prefix).push(items.last())
    } else {
        moving_items(items.drop_last(), prefix)
    }
}

/// `moved` is `item` re-homed into drawer `drawer_id` with its level renamed
/// from under `old_prefix` to under `new_prefix`.
pub open spec fn relinked(
    moved: DrawerItem,
    item: DrawerItem,
    drawer_id: Seq<char>,
    old_prefix: Seq<char>,
    new_prefix: Seq<char>,
) -> bool {
    &&& moved.drawer_id@ == drawer_id
    &&& moved.container_path@ == replaced_prefix(item.container_path@, old_prefix, new_prefix)
    &&& moved.id == item.id
    &&& moved.item_type == item.item_type
    &&& moved.storage_mode == item.storage_mode
    &&& moved.display_name == item.display_name
    &&& moved.physical_name == item.physical_name
    &&& moved.path == item.path
    &&& moved.icon_key == item.icon_key
    &&& moved.created_at == item.created_at
    &&& moved.order == item.order
    &&& moved.available == item.available
    &&& moved.is_subdrawer == item.is_subdrawer
}

/// Splits `items` into those that stay and the links of subtree `old_prefix`,
/// the latter re-homed into `drawer_id` under `new_prefix`.
pub fn split_links(
    items: &mut Vec<DrawerItem>,
    old_prefix: &str,
    new_prefix: &str,
    drawer_id: &str,
) -> (moved: Vec<DrawerItem>)
    ensures
        final(items)@ == staying_items(old(items)@, old_prefix@),
        moved@.len() == moving_items(old(items)@, old_prefix@).len(),
        forall|k: int|
            0 <= k < moved@.len() ==> relinked(
                #[trigger] moved@[k],
                moving_items(old(items)@, old_prefix@)[k],
                drawer_id@,
                old_prefix@,
                new_prefix@,
            ),
{
    let mut kept: Vec<DrawerItem> = Vec::new();
    let mut moved: Vec<DrawerItem> = Vec::new();
    let mut i: usize = 0;
    while i < items.len()
        invariant
            i <= items.len(),
            items@ == old(items)@,
            kept@ == staying_items(items@.take(i as int), old_prefix@),
            moved@.len() == moving_items(items@.take(i as int), old_prefix@).len(),
            forall|k: int|
                0 <= k < moved@.len() ==> relinked(
                    #[trigger] moved@[k],
                    moving_items(items@.take(i as int), old_prefix@)[k],
                    drawer_id@,
                    old_prefix@,
                    new_prefix@,
                ),
        decreases items.len() - i,
    {
        assert(items@.take(i + 1).drop_last() =~= items@.take(i as int));
        let item = &items[i];
        if item.storage_mode == StorageMode::Linked && is_same_or_descendant(
            item.container_path.as_str(),
            old_prefix,
        ) {
            let mut m = item.duplicate();
            m.drawer_id = drawer_id.to_owned();
            m.container_path = replace_prefix(item.container_path.as_str(), old_prefix, new_prefix);
            moved.push(m);
        } else {
            kept.push(item.duplicate());
        }
        i = i + 1;
    }
    assert(items@.take(items.len() as int) =~= items@);
    *items = kept;
    moved
}

impl DrawerContents {
    /// Forgets the links and orders of level `prefix` and of every level below
    /// it; elements kept physically stay, as they live in the folders.
    pub fn remove_subtree_state(&mut self, prefix: &str)
        requires
            old(self).wf(),
        ensures
            final(self).wf(),
            final(self).items@ == staying_items(old(self).items@, prefix@),
            final(self).level_orders.view() == old(self).level_orders.view().restrict(
                outside_set(prefix@),
            ),
            final(self).id == old(self).id,
            final(self).updated_at == old(self).updated_at,
    {
        let id = self.id.clone();
        let _ = split_links(&mut self.items, prefix, "", id.as_str());
        self.level_orders.retain_outside(prefix);
    }

    /// Moves the links and orders of subtree `old_prefix` of this drawer to
    /// subtree `new_prefix` of `target`.
    pub fn move_subtree_state(
        &mut self,
        target: &mut DrawerContents,
        old_prefix: &str,
        new_prefix: &str,
    )
        requires
            old(self).wf(),
            old(target).wf(),
        ensures
            final(self).wf(),
            final(target).wf(),
            final(self).items@ == staying_items(old(self).items@, old_prefix@),
            final(self).level_orders.view() == old(self).level_orders.view().restrict(
                outside_set(old_prefix@),
            ),
            final(target).items@.len() == old(target).items@.len() + moving_items(
                old(self).items@,
                old_prefix@,
            ).len(),
            final(target).items@.take(old(target).items@.len() as int) == old(target).items@,
            forall|k: int|
                0 <= k < moving_items(old(self).items@, old_prefix@).len() ==> relinked(
                    #[trigger] final(target).items@[old(target).items@.len() + k],
                    moving_items(old(self).items@, old_prefix@)[k],
                    old(target).id@,
                    old_prefix@,
                    new_prefix@,
                ),
            final(target).level_orders.view() == apply_moved(
                old(target).level_orders.view(),
                moved_entries(old(self).level_orders.entries(), old_prefix@, new_prefix@),
            ),
            final(target).id == old(target).id,
            final(self).id == old(self).id,
    {
        let moved = split_links(&mut self.items, old_prefix, new_prefix, target.id.as_str());
        let ghost base = target.items@;
        let ghost moving = moving_items(old(self).items@, old_prefix@);
        let mut i: usize = 0;
        while i < moved.len()
            invariant
                i <= moved.len(),
                base == old(target).items@,
                target.id == old(target).id,
                target.level_orders == old(target).level_orders,
                old(target).level_orders.wf(),
                moved@.len() == moving.len(),
                forall|k: int|
                    0 <= k < moved@.len() ==> relinked(
                        #[trigger] moved@[k],
                        moving[k],
                        old(target).id@,
                        old_prefix@,
                        new_prefix@,
                    ),
                target.items@.len() == base.len() + i,
                target.items@.take(base.len() as int) == base,
                forall|k: int| 0 <= k < i ==> target.items@[base.len() + k] == moved@[k],
            decreases moved.len() - i,
        {
            target.items.push(moved[i].duplicate());
            assert(target.items@.take(base.len() as int) =~= base);
            i = i + 1;
        }
        assert forall|k: int| 0 <= k < moving.len() implies relinked(
            #[trigger] target.items@[base.len() + k],
            moving[k],
            old(target).id@,
            old_prefix@,
            new_prefix@,
        ) by {
            assert(target.items@[base.len() + k] == moved@[k]);
        }
        let orders = self.level_orders.split_subtree(old_prefix, new_prefix);
        target.level_orders.absorb(orders);
    }

    /// Renames subtree `old_prefix` to `new_prefix` inside this drawer: its
    /// links move after the others and its orders are stored under the new
    /// level keys.
    pub fn move_subtree_within(&mut self, old_prefix: &str, new_prefix: &str)
        requires
            old(self).wf(),
        ensures
            final(self).wf(),
            final(self).items@.len() == old(self).items@.len(),
            final(self).items@.take(staying_items(old(self).items@, old_prefix@).len() as int)
                == staying_items(old(self).items@, old_prefix@),
            forall|k: int|
                0 <= k < moving_items(old(self).items@, old_prefix@).len() ==> relinked(
                    #[trigger] final(self).items@[staying_items(old(self).items@, old_prefix@).len()
                        + k],
                    moving_items(old(self).items@, old_prefix@)[k],
                    old(self).id@,
                    old_prefix@,
                    new_prefix@,
                ),
            final(self).level_orders.view() == apply_moved(
                old(self).level_orders.view().restrict(outside_set(old_prefix@)),
                moved_entries(old(self).level_orders.entries(), old_prefix@, new_prefix@),
            ),
            final(self).id == old(self).id,
    {
        proof {
            lemma_split_len(self.items@, old_prefix@);
        }
        let id = self.id.clone();
        let moved = split_links(&mut self.items, old_prefix, new_prefix, id.as_str());
        let ghost base = self.items@;
        let ghost moving = moving_items(old(self).items@, old_prefix@);
        let mut i: usize = 0;
        while i < moved.len()
            invariant
                i <= moved.len(),
                base == staying_items(old(self).items@, old_prefix@),
                self.id == old(self).id,
                id@ == old(self).id@,
                self.level_orders == old(self).level_orders,
                old(self).level_orders.wf(),
                moved@.len() == moving.len(),
                forall|k: int|
                    0 <= k < moved@.len() ==> relinked(
                        #[trigger] moved@[k],
                        moving[k],
                        old(self).id@,
                        old_prefix@,
                        new_prefix@,
                    ),
                self.items@.len() == base.len() + i,
                self.items@.take(base.len() as int) == base,
                forall|k: int| 0 <= k < i ==> self.items@[base.len() + k] == moved@[k],
            decreases moved.len() - i,
        {
            self.items.push(moved[i].duplicate());
            assert(self.items@.take(base.len() as int) =~= base);
            i = i + 1;
        }
        assert forall|k: int| 0 <= k < moving.len() implies relinked(
            #[trigger] self.items@[base.len() + k],
            moving[k],
            old(self).id@,
            old_prefix@,
            new_prefix@,
        ) by {
            assert(self.items@[base.len() + k] == moved@[k]);
        }
        let orders = self.level_orders.split_subtree(old_prefix, new_prefix);
        self.level_orders.absorb(orders);
    }
}

pub proof fn lemma_split_len(items: Seq<DrawerItem>, prefix: Seq<char>)
    ensures
        staying_items(items, prefix).len() + moving_items(items, prefix).len() == items.len(),
    decreases items.len(),
{
    if items.len() > 0 {
        lemma_split_len(items.drop_last(), prefix);
    }
}

/// When a subtree leaves, its links (those on its level or below) travel,
/// in order, and everything else stays, in order: kept elements and links
/// of other levels never move.
pub proof fn lemma_subtree_split_is_partition(items: Seq<DrawerItem>, prefix: Seq<char>)
    ensures
        staying_items(items, prefix) == items.filter(|x: DrawerItem| !moves_with(x, prefix)),
        moving_items(items, prefix) == items.filter(|x: DrawerItem| moves_with(x, prefix)),
    decreases items.len(),
{
    reveal(Seq::filter);
    if items.len() > 0 {
        lemma_subtree_split_is_partition(items.drop_last(), prefix);
    }
}

/// Removing the elements with id `id` keeps every other element, in order,
/// and leaves none with that id.
pub proof fn lemma_removal_keeps_the_others(items: Seq<DrawerItem>, id: Seq<char>)
    ensures
        items_without_id(items, id) == items.filter(|x: DrawerItem| x.id@ != id),
        forall|k: int|
            0 <= k < items_without_id(items, id).len() ==> (#[trigger] items_without_id(
                items,
                id,
            )[k]).id@ != id,
    decreases items.len(),
{
    reveal(Seq::filter);
    if items.len() > 0 {
        lemma_removal_keeps_the_others(items.drop_last(), id);
    }
    let r = items_without_id(items, id);
    assert forall|k: int| 0 <= k < r.len() implies (#[trigger] r[k]).id@ != id by {
        let f = items.filter(|x: DrawerItem| x.id@ != id);
        items.filter_lemma(|x: DrawerItem| x.id@ != id);
        assert(f.contains(f[k]));
    }
}

/// Index of the first stored element with id `id`, on any level.
pub open spec fn first_stored(items: Seq<DrawerItem>, id: Seq<char>) -> Option<int>
    decreases items.len(),
{
    if items.len() == 0 {
        None
    } else {
        match first_stored(items.drop_last(), id) {
            Some(i) => Some(i),
            None => if items.last().id@ == id {
                Some(items.len() - 1)
            } else {
                None
            },
        }
    }
}

proof fn lemma_first_stored_prefix(items: Seq<DrawerItem>, id: Seq<char>, n: int)
    requires
        0 < n <= items.len(),
        first_stored(items.take(n), id) == Some(n - 1),
    ensures
        first_stored(items, id) == Some(n - 1),
    decreases items.len(),
{
    if n < items.len() {
        assert(items.drop_last().take(n) =~= items.take(n));
        lemma_first_stored_prefix(items.drop_last(), id, n);
    } else {
        assert(items.take(n) =~= items);
    }
}

pub fn find_stored(items: &Vec<DrawerItem>, id: &str) -> (r: Option<usize>)
    ensures
        r matches Some(i) ==> i < items@.len() && first_stored(items@, id@) == Some(i as int)
            && items@[i as int].id@ == id@,
        r is None ==> first_stored(items@, id@) is None,
{
    let mut i: usize = 0;
    while i < items.len()
        invariant
            i <= items.len(),
            first_stored(items@.take(i as int), id@) is None,
        decreases items.len() - i,
    {
        assert(items@.take(i + 1).drop_last() =~= items@.take(i as int));
        if str_eq(items[i].id.as_str(), id) {
            proof {
                lemma_first_stored_prefix(items@, id@, i + 1);
            }
            return Some(i);
        }
        i = i + 1;
    }
    assert(items@.take(items.len() as int) =~= items@);
    None
}

pub open spec fn missing_link_message() -> Seq<char> {
    "La referencia vinculada ya no está guardada"@
}

/// The level order of `relative` after `id` leaves it.
pub open spec fn order_without(
    orders: Map<Seq<char>, Seq<Seq<char>>>,
    relative: Seq<char>,
    id: Seq<char>,
) -> Map<Seq<char>, Seq<Seq<char>>> {
    if orders.contains_key(relative_key_of(relative)) {
        orders.insert(relative_key_of(relative), without(orders[relative_key_of(relative)], id))
    } else {
        orders
    }
}

/// The level order of `relative` after `id` joins it at the end.
pub open spec fn order_with(
    orders: Map<Seq<char>, Seq<Seq<char>>>,
    relative: Seq<char>,
    id: Seq<char>,
) -> Map<Seq<char>, Seq<Seq<char>>> {
    orders.insert(
        relative_key_of(relative),
        without(order_or_empty(orders, relative_key_of(relative)), id).push(id),
    )
}

impl DrawerContents {
    /// Moves the link `item_id`, stored in this drawer and listed on level
    /// `source_relative`, to level `target_relative` of another drawer.
    /// Nothing moves on disk: the link changes drawer and level, and each
    /// level's manual order follows.
    pub fn move_link_to(
        &mut self,
        target: &mut DrawerContents,
        source_relative: &str,
        item_id: &str,
        target_relative: &str,
    ) -> (r: Result<(), String>)
        requires
            old(self).wf(),
            old(target).wf(),
        ensures
            final(self).wf(),
            final(target).wf(),
            r is Ok <==> (relative_path_valid(target_relative@) && first_stored(
                old(self).items@,
                item_id@,
            ) is Some),
            r matches Err(m) ==> *final(self) == *old(self) && *final(target) == *old(target) && (
            if !relative_path_valid(target_relative@) {
                m@ == invalid_relative_message()
            } else {
                m@ == missing_link_message()
            }),
            r is Ok ==> final(self).items@ == items_without_id(old(self).items@, item_id@),
            r is Ok ==> final(self).level_orders.view() == order_without(
                old(self).level_orders.view(),
                source_relative@,
                item_id@,
            ),
            r is Ok ==> final(target).items@.drop_last() == old(target).items@,
            r is Ok ==> final(target).items@.last() == (DrawerItem {
                drawer_id: final(target).items@.last().drawer_id,
                container_path: final(target).items@.last().container_path,
                ..old(self).items@[first_stored(old(self).items@, item_id@)->0]
            }),
            r is Ok ==> final(target).items@.last().drawer_id@ == old(target).id@,
            r is Ok ==> final(target).items@.last().container_path@ == normalized_relative(
                target_relative@,
            ),
            r is Ok ==> final(target).level_orders.view() == order_with(
                old(target).level_orders.view(),
                target_relative@,
                item_id@,
            ),
            r is Ok ==> final(self).id == old(self).id && final(target).id == old(target).id,
    {
        let container = match normalized_relative_string(target_relative) {
            Ok(c) => c,
            Err(m) => {
                return Err(m);
            },
        };
        let index = match find_stored(&self.items, item_id) {
            Some(i) => i,
            None => {
                proof {
                    reveal_strlit("La referencia vinculada ya no está guardada");
                }
                return Err("La referencia vinculada ya no está guardada".to_owned());
            },
        };
        let mut moved = self.items[index].duplicate();
        remove_items_with_id(&mut self.items, item_id);
        self.remove_order_id(source_relative, item_id);
        moved.drawer_id = target.id.clone();
        moved.container_path = container;
        let id = moved.id.clone();
        target.items.push(moved);
        target.append_order_id(target_relative, id);
        Ok(())
    }

    /// Moves the link `item_id` between two levels of this drawer.
    pub fn move_link_within(&mut self, source_relative: &str, item_id: &str, target_relative: &str) -> (r:
        Result<(), String>)
        requires
            old(self).wf(),
        ensures
            final(self).wf(),
            r is Ok <==> (relative_path_valid(target_relative@) && first_stored(
                old(self).items@,
                item_id@,
            ) is Some),
            r matches Err(m) ==> *final(self) == *old(self) && (if !relative_path_valid(
                target_relative@,
            ) {
                m@ == invalid_relative_message()
            } else {
                m@ == missing_link_message()
            }),
            r is Ok ==> final(self).items@.drop_last() == items_without_id(
                old(self).items@,
                item_id@,
            ),
            r is Ok ==> final(self).items@.last() == (DrawerItem {
                drawer_id: final(self).items@.last().drawer_id,
                container_path: final(self).items@.last().container_path,
                ..old(self).items@[first_stored(old(self).items@, item_id@)->0]
            }),
            r is Ok ==> final(self).items@.last().drawer_id@ == old(self).id@,
            r is Ok ==> final(self).items@.last().container_path@ == normalized_relative(
                target_relative@,
            ),
            r is Ok ==> final(self).level_orders.view() == order_with(
                order_without(old(self).level_orders.view(), source_relative@, item_id@),
                target_relative@,
                item_id@,
            ),
            r is Ok ==> final(self).id == old(self).id,
    {
        let container = match normalized_relative_string(target_relative) {
            Ok(c) => c,
            Err(m) => {
                return Err(m);
            },
        };
        let index = match find_stored(&self.items, item_id) {
            Some(i) => i,
            None => {
                proof {
                    reveal_strlit("La referencia vinculada ya no está guardada");
                }
                return Err("La referencia vinculada ya no está guardada".to_owned());
            },
        };
        let mut moved = self.items[index].duplicate();
        remove_items_with_id(&mut self.items, item_id);
        self.remove_order_id(source_relative, item_id);
        moved.drawer_id = self.id.clone();
        moved.container_path = container;
        let id = moved.id.clone();
        self.items.push(moved);
        self.append_order_id(target_relative, id);
        Ok(())
    }
}

/// The ids in ascending order.
pub open spec fn sorted_ids(ids: Seq<Seq<char>>) -> Seq<Seq<char>> {
    stable_sorted(ids.map_values(|x: Seq<char>| (0u64, x, ())), false).map_values(
        |k: KeyedView<()>| k.1,
    )
}

/// Keying names with rank 0 counts each name as often as it occurs.
proof fn lemma_keyed_names_count(s: Seq<Seq<char>>, x: Seq<char>)
    ensures
        s.map_values(|y: Seq<char>| (0u64, y, ())).to_multiset().count((0u64, x, ()))
            == s.to_multiset().count(x),
    decreases s.len(),
{
    broadcast use vstd::seq_lib::group_to_multiset_ensures;

    if s.len() == 0 {
        assert(s.to_multiset() =~= vstd::multiset::Multiset::<Seq<char>>::empty());
        assert(s.map_values(|y: Seq<char>| (0u64, y, ())).to_multiset() =~= vstd::multiset::Multiset::<
            (u64, Seq<char>, ()),
        >::empty());
    } else {
        let p = s.drop_last();
        lemma_keyed_names_count(p, x);
        assert(s.map_values(|y: Seq<char>| (0u64, y, ())) =~= p.map_values(
            |y: Seq<char>| (0u64, y, ()),
        ).push((0u64, s.last(), ())));
        assert(s =~= p.push(s.last()));
    }
}

/// The ids in ascending order hold each id as often as the list does, and
/// no id comes before a smaller one.
proof fn lemma_sorted_ids_facts(ids: Seq<Seq<char>>)
    ensures
        sorted_ids(ids).to_multiset() == ids.to_multiset(),
        forall|i: int, j: int|
            0 <= i < j < sorted_ids(ids).len() ==> !lex_lt(
                #[trigger] sorted_ids(ids)[j],
                #[trigger] sorted_ids(ids)[i],
            ),
{
    broadcast use vstd::seq_lib::group_to_multiset_ensures;

    let keyed = ids.map_values(|x: Seq<char>| (0u64, x, ()));
    let sorted = stable_sorted(keyed, false);
    let out = sorted_ids(ids);
    crate::sorting::lemma_stable_sorted_len(keyed, false);
    crate::sorting::lemma_stable_sorted_permutes(keyed, false);
    crate::sorting::lemma_stable_sorted_in_order(keyed, false);
    assert forall|k: int| 0 <= k < sorted.len() implies #[trigger] sorted[k] == (
    0u64,
    out[k],
    (),
    ) by {
        assert(sorted.to_multiset().count(sorted[k]) > 0);
        let w = choose|w: int| 0 <= w < keyed.len() && keyed[w] == sorted[k];
    }
    assert(sorted =~= out.map_values(|y: Seq<char>| (0u64, y, ())));
    assert forall|x: Seq<char>| #[trigger] out.to_multiset().count(x) == ids.to_multiset().count(
        x,
    ) by {
        lemma_keyed_names_count(out, x);
        lemma_keyed_names_count(ids, x);
    }
    assert(out.to_multiset() =~= ids.to_multiset());
    assert forall|i: int, j: int| 0 <= i < j < out.len() implies !lex_lt(
        #[trigger] out[j],
        #[trigger] out[i],
    ) by {
        assert(!crate::sorting::key_before(sorted[j], sorted[i], false));
        assert(sorted[i] == (0u64, out[i], ()));
        assert(sorted[j] == (0u64, out[j], ()));
    }
}

/// Two lists of names in ascending order that hold the same names, as
/// often each, are the same list.
proof fn lemma_sorted_names_unique(s: Seq<Seq<char>>, t: Seq<Seq<char>>)
    requires
        s.to_multiset() == t.to_multiset(),
        forall|i: int, j: int| 0 <= i < j < s.len() ==> !lex_lt(#[trigger] s[j], #[trigger] s[i]),
        forall|i: int, j: int| 0 <= i < j < t.len() ==> !lex_lt(#[trigger] t[j], #[trigger] t[i]),
    ensures
        s == t,
    decreases s.len(),
{
    broadcast use vstd::seq_lib::group_to_multiset_ensures;

    vstd::seq_lib::to_multiset_len(s);
    vstd::seq_lib::to_multiset_len(t);
    assert(s.len() == t.len());
    if s.len() > 0 {
        assert(s.to_multiset().count(s[0]) > 0);
        assert(t.to_multiset().count(t[0]) > 0);
        let j = choose|j: int| 0 <= j < t.len() && t[j] == s[0];
        let i = choose|i: int| 0 <= i < s.len() && s[i] == t[0];
        if s[0] != t[0] {
            crate::order_map::lemma_lex_total(s[0], t[0]);
            if lex_lt(s[0], t[0]) {
                assert(j > 0);
                assert(!lex_lt(t[j], t[0]));
            } else {
                assert(i > 0);
                assert(!lex_lt(s[i], s[0]));
            }
        }
        let s1 = s.drop_first();
        let t1 = t.drop_first();
        assert(s.remove(0) =~= s1);
        assert(t.remove(0) =~= t1);
        assert(s1.to_multiset() == t1.to_multiset());
        assert forall|a: int, b: int| 0 <= a < b < s1.len() implies !lex_lt(
            #[trigger] s1[b],
            #[trigger] s1[a],
        ) by {
            assert(s1[b] == s[b + 1] && s1[a] == s[a + 1]);
        }
        assert forall|a: int, b: int| 0 <= a < b < t1.len() implies !lex_lt(
            #[trigger] t1[b],
            #[trigger] t1[a],
        ) by {
            assert(t1[b] == t[b + 1] && t1[a] == t[a + 1]);
        }
        lemma_sorted_names_unique(s1, t1);
        assert(s =~= t) by {
            assert forall|k: int| 0 <= k < s.len() implies s[k] == t[k] by {
                if k > 0 {
                    assert(s[k] == s1[k - 1] && t[k] == t1[k - 1]);
                }
            }
        }
    }
}

/// A level's new manual order is accepted exactly when it lists the ids
/// the level shows, each as many times as the level does.
pub proof fn lemma_reorder_accepts_same_ids(shown: Seq<Seq<char>>, requested: Seq<Seq<char>>)
    ensures
        sorted_ids(shown) == sorted_ids(requested) <==> shown.to_multiset()
            == requested.to_multiset(),
{
    lemma_sorted_ids_facts(shown);
    lemma_sorted_ids_facts(requested);
    if shown.to_multiset() == requested.to_multiset() {
        lemma_sorted_names_unique(sorted_ids(shown), sorted_ids(requested));
    }
}

fn sort_ids(ids: &Vec<String>) -> (r: Vec<Vec<char>>)
    ensures
        r@.map_values(|v: Vec<char>| v@) == sorted_ids(ids_view(ids@)),
{
    let ghost iv = ids_view(ids@);
    let mut keyed: Vec<Keyed<()>> = Vec::new();
    let mut i: usize = 0;
    while i < ids.len()
        invariant
            i <= ids@.len(),
            iv == ids_view(ids@),
            keyed_views(keyed@) == iv.map_values(|x: Seq<char>| (0u64, x, ())).take(i as int),
        decreases ids@.len() - i,
    {
        let k = Keyed { rank: 0, name: chars_of(ids[i].as_str()), value: () };
        let ghost before = keyed_views(keyed@);
        keyed.push(k);
        assert(keyed_views(keyed@) =~= iv.map_values(|x: Seq<char>| (0u64, x, ())).take(i + 1))
            by {
            assert(keyed_views(keyed@) =~= before.push(k.key_view()));
        }
        i = i + 1;
    }
    assert(iv.map_values(|x: Seq<char>| (0u64, x, ())).take(ids@.len() as int) =~= iv.map_values(
        |x: Seq<char>| (0u64, x, ()),
    ));
    let sorted = stable_sort(keyed, false);
    let ghost sv = keyed_views(sorted@);
    let mut r: Vec<Vec<char>> = Vec::new();
    let mut j: usize = 0;
    while j < sorted.len()
        invariant
            j <= sorted@.len(),
            sv == keyed_views(sorted@),
            r@.map_values(|v: Vec<char>| v@) == sv.map_values(|k: KeyedView<()>| k.1).take(
                j as int,
            ),
        decreases sorted@.len() - j,
    {
        let name = copy_chars(&sorted[j].name);
        assert(sv[j as int].1 == sorted@[j as int].name@);
        let ghost before = r@.map_values(|v: Vec<char>| v@);
        r.push(name);
        assert(r@.map_values(|v: Vec<char>| v@) =~= before.push(name@));
        assert(r@.map_values(|v: Vec<char>| v@) =~= sv.map_values(|k: KeyedView<()>| k.1).take(
            j + 1,
        ));
        j = j + 1;
    }
    assert(sv.map_values(|k: KeyedView<()>| k.1).take(sorted@.len() as int) =~= sv.map_values(
        |k: KeyedView<()>| k.1,
    ));
    r
}

fn copy_chars(v: &Vec<char>) -> (r: Vec<char>)
    ensures
        r@ == v@,
{
    let mut r: Vec<char> = Vec::new();
    let mut i: usize = 0;
    while i < v.len()
        invariant
            i <= v@.len(),
            r@ == v@.take(i as int),
        decreases v@.len() - i,
    {
        r.push(v[i]);
        assert(r@ =~= v@.take(i + 1));
        i = i + 1;
    }
    assert(v@.take(v@.len() as int) =~= v@);
    r
}

fn same_sorted(a: &Vec<Vec<char>>, b: &Vec<Vec<char>>) -> (r: bool)
    ensures
        r == (a@.map_values(|v: Vec<char>| v@) == b@.map_values(|v: Vec<char>| v@)),
{
    if a.len() != b.len() {
        assert(a@.map_values(|v: Vec<char>| v@).len() != b@.map_values(|v: Vec<char>| v@).len());
        return false;
    }
    let mut i: usize = 0;
    while i < a.len()
        invariant
            i <= a@.len(),
            a@.len() == b@.len(),
            forall|k: int| 0 <= k < i ==> (#[trigger] a@[k])@ == b@[k]@,
        decreases a@.len() - i,
    {
        if !chars_eq(&a[i], &b[i]) {
            assert(a@.map_values(|v: Vec<char>| v@)[i as int] != b@.map_values(|v: Vec<char>| v@)[i as int]);
            return false;
        }
        i = i + 1;
    }
    assert(a@.map_values(|v: Vec<char>| v@) =~= b@.map_values(|v: Vec<char>| v@));
    true
}

pub open spec fn level_changed_message() -> Seq<char> {
    "El contenido cambió mientras se ordenaba. Se actualizó sin perder datos."@
}

impl DrawerContents {
    /// Stores `ordered_item_ids` as the manual order of level
    /// `relative_path`, provided it lists exactly the ids the level shows
    /// (`level_ids`), as many times each.
    pub fn reorder_level(
        &mut self,
        relative_path: &str,
        level_ids: &Vec<String>,
        ordered_item_ids: Vec<String>,
        now: u64,
    ) -> (r: Result<(), String>)
        requires
            old(self).wf(),
        ensures
            final(self).wf(),
            r is Ok <==> sorted_ids(ids_view(level_ids@)) == sorted_ids(ids_view(ordered_item_ids@)),
            r matches Err(m) ==> m@ == level_changed_message() && *final(self) == *old(self),
            r is Ok ==> final(self).level_orders.view() == old(self).level_orders.view().insert(
                relative_key_of(relative_path@),
                ids_view(ordered_item_ids@),
            ),
            r is Ok ==> final(self).items == old(self).items && final(self).id == old(self).id
                && final(self).updated_at == now,
    {
        let actual = sort_ids(level_ids);
        let requested = sort_ids(&ordered_item_ids);
        if !same_sorted(&actual, &requested) {
            proof {
                reveal_strlit("El contenido cambió mientras se ordenaba. Se actualizó sin perder datos.");
            }
            return Err(
                "El contenido cambió mientras se ordenaba. Se actualizó sin perder datos.".to_owned(),
            );
        }
        let key = relative_key(relative_path);
        self.level_orders.set(key.as_str(), ordered_item_ids);
        self.updated_at = now;
        Ok(())
    }
}

pub open spec fn not_convertible_message() -> Seq<char> {
    "Sólo una carpeta física del cajón se puede convertir en subcajón"@
}

pub open spec fn not_subdrawer_message() -> Seq<char> {
    "El elemento no es un subcajón físico"@
}

pub open spec fn link_restore_message() -> Seq<char> {
    "Los vínculos externos no necesitan restaurarse"@
}

/// A folder kept in the drawer can become a subdrawer; the answer says
/// whether it already is one (and nothing is left to do).
pub fn check_convertible(item: &DrawerItem) -> (r: Result<bool, String>)
    ensures
        r is Ok <==> (item.storage_mode == StorageMode::Managed && item.item_type
            == DrawerItemType::Folder),
        r matches Ok(done) ==> done == item.is_subdrawer,
        r matches Err(m) ==> m@ == not_convertible_message(),
{
    if item.storage_mode != StorageMode::Managed || item.item_type != DrawerItemType::Folder {
        proof {
            reveal_strlit("Sólo una carpeta física del cajón se puede convertir en subcajón");
        }
        return Err("Sólo una carpeta física del cajón se puede convertir en subcajón".to_owned());
    }
    Ok(item.is_subdrawer)
}

/// Only a subdrawer kept in the drawer can be renamed as one or turned
/// back into a plain folder.
pub fn check_subdrawer(item: &DrawerItem) -> (r: Result<(), String>)
    ensures
        r is Ok <==> (item.storage_mode == StorageMode::Managed && item.is_subdrawer),
        r matches Err(m) ==> m@ == not_subdrawer_message(),
{
    if item.storage_mode != StorageMode::Managed || !item.is_subdrawer {
        proof {
            reveal_strlit("El elemento no es un subcajón físico");
        }
        return Err("El elemento no es un subcajón físico".to_owned());
    }
    Ok(())
}

/// Only elements kept in the drawer go back to the Desktop.
pub fn check_restorable(item: &DrawerItem) -> (r: Result<(), String>)
    ensures
        r is Ok <==> item.storage_mode == StorageMode::Managed,
        r matches Err(m) ==> m@ == link_restore_message(),
{
    if item.storage_mode != StorageMode::Managed {
        proof {
            reveal_strlit("Los vínculos externos no necesitan restaurarse");
        }
        return Err("Los vínculos externos no necesitan restaurarse".to_owned());
    }
    Ok(())
}

/// What the user is told after a restore: the move's warning, or where the
/// element went.
pub fn restored_message(warning: Option<String>, destination: &str) -> (r: String)
    ensures
        warning matches Some(w) ==> r@ == w@,
        warning is None ==> r@ == "Restaurado en "@ + destination@,
{
    match warning {
        Some(w) => w,
        None => {
            let mut m = "Restaurado en ".to_owned();
            push_str(&mut m, destination);
            proof {
                reveal_strlit("Restaurado en ");
            }
            m
        },
    }
}

/// The name of a new or renamed subdrawer: trimmed, and acceptable to
/// Windows as a folder name.
pub fn subdrawer_name(name: &str) -> (r: Result<String, String>)
    ensures
        r is Ok <==> folder_name_problem(trim_seq(name@)) is None,
        r matches Ok(n) ==> n@ == trim_seq(name@),
        r matches Err(m) ==> m@ == folder_name_message(
            folder_name_problem(trim_seq(name@))->0,
            trim_seq(name@),
        ),
{
    let trimmed = trim(name);
    match StorageService::validate_windows_folder_name(trimmed.as_str()) {
        Ok(()) => Ok(trimmed),
        Err(m) => Err(m),
    }
}

pub open spec fn missing_level_item_message() -> Seq<char> {
    "El elemento solicitado ya no existe en este nivel"@
}

/// The first element `item_id` among those a level shows.
pub fn item_at_level(level_items: &Vec<DrawerItem>, item_id: &str) -> (r: Result<DrawerItem, String>)
    ensures
        r matches Ok(item) ==> (first_stored(level_items@, item_id@) matches Some(i) && item
            == level_items@[i]),
        r is Err <==> first_stored(level_items@, item_id@) is None,
        r matches Err(m) ==> m@ == missing_level_item_message(),
{
    match find_stored(level_items, item_id) {
        Some(i) => Ok(level_items[i].duplicate()),
        None => {
            proof {
                reveal_strlit("El elemento solicitado ya no existe en este nivel");
            }
            Err("El elemento solicitado ya no existe en este nivel".to_owned())
        },
    }
}

pub open spec fn same_level_message() -> Seq<char> {
    "El elemento ya está en ese nivel"@
}

pub open spec fn into_itself_message() -> Seq<char> {
    "Un subcajón no se puede mover dentro de sí mismo"@
}

/// The checks before moving an element between levels: not onto its own
/// level, and a subdrawer not into itself. `target_inside_item` tells
/// whether the target folder lies within the element (as resolved paths).
pub fn check_level_move(
    same_drawer: bool,
    source_relative: &str,
    target_relative: &str,
    item: &DrawerItem,
    target_inside_item: bool,
) -> (r: Result<(), String>)
    ensures
        same_drawer && relative_key_of(source_relative@) == relative_key_of(target_relative@) ==> (
        r matches Err(m) && m@ == same_level_message()),
        !(same_drawer && relative_key_of(source_relative@) == relative_key_of(target_relative@)) ==> (
        if item.storage_mode == StorageMode::Managed && item.is_subdrawer && target_inside_item {
            r matches Err(m) && m@ == into_itself_message()
        } else {
            r is Ok
        }),
{
    if same_drawer && relative_matches(source_relative, target_relative) {
        proof {
            reveal_strlit("El elemento ya está en ese nivel");
        }
        return Err("El elemento ya está en ese nivel".to_owned());
    }
    if item.storage_mode == StorageMode::Managed && item.is_subdrawer && target_inside_item {
        proof {
            reveal_strlit("Un subcajón no se puede mover dentro de sí mismo");
        }
        return Err("Un subcajón no se puede mover dentro de sí mismo".to_owned());
    }
    Ok(())
}

} // verus!

verus! {

/// What follows `folder` in `path` when `path` is `folder` or lies inside
/// it, for paths spelled with single backslashes between their components:
/// the relative part (empty for the folder itself).
pub open spec fn path_below(path: Seq<char>, folder: Seq<char>) -> Option<Seq<char>> {
    if path == folder {
        Some(Seq::empty())
    } else if (folder + seq!['\\']).is_prefix_of(path) {
        Some(path.skip(folder.len() + 1int))
    } else {
        None
    }
}

/// `item` once its drawer's folder `from` became `to`: an element kept in
/// the folder follows it, and its icon key follows its path; links stay.
pub open spec fn relocated(item: DrawerItem, old: DrawerItem, from: Seq<char>, to: Seq<char>) -> bool {
    &&& item.id == old.id
    &&& item.drawer_id == old.drawer_id
    &&& item.item_type == old.item_type
    &&& item.storage_mode == old.storage_mode
    &&& item.display_name == old.display_name
    &&& item.physical_name == old.physical_name
    &&& item.created_at == old.created_at
    &&& item.order == old.order
    &&& item.available == old.available
    &&& item.container_path == old.container_path
    &&& item.is_subdrawer == old.is_subdrawer
    &&& if old.storage_mode == StorageMode::Managed && path_below(old.path@, from) is Some {
        &&& item.path@ == joined_path(to, path_below(old.path@, from)->Some_0)
        &&& item.icon_key@ == icon_key_of(item.path@)
    } else {
        item.path == old.path && item.icon_key == old.icon_key
    }
}

/// What follows `folder` in `path`, if `path` is `folder` or lies inside it.
pub fn relative_below(path: &str, folder: &str) -> (r: Option<String>)
    ensures
        match path_below(path@, folder@) {
            None => r is None,
            Some(rel) => r matches Some(s) && s@ == rel,
        },
{
    let p = chars_of(path);
    let f = chars_of(folder);
    if chars_eq(&p, &f) {
        return Some(String::new());
    }
    let mut fs = chars_of(folder);
    fs.push('\\');
    assert(fs@ =~= folder@ + seq!['\\']);
    if has_prefix(&p, &fs) {
        let rest = slice_chars(&p, fs.len(), p.len());
        assert(rest@ =~= path@.skip(folder@.len() + 1int));
        Some(string_of(&rest))
    } else {
        None
    }
}

impl DrawerContents {
    /// Renames the drawer whose folder moved to `next_folder`: the elements
    /// kept in the old folder follow it, with new icon keys, and the drawer
    /// takes the new name and folder. Links and orders are unchanged.
    pub fn relocate(&mut self, next_folder: &str, name: &str)
        ensures
            final(self).id == old(self).id,
            final(self).name@ == name@,
            final(self).folder_path@ == next_folder@,
            final(self).level_orders == old(self).level_orders,
            final(self).updated_at == old(self).updated_at,
            final(self).items@.len() == old(self).items@.len(),
            forall|i: int|
                0 <= i < old(self).items@.len() ==> relocated(
                    #[trigger] final(self).items@[i],
                    old(self).items@[i],
                    old(self).folder_path@,
                    next_folder@,
                ),
    {
        let from = string_of(&chars_of(self.folder_path.as_str()));
        let ghost before = self.items@;
        let mut i: usize = 0;
        while i < self.items.len()
            invariant
                from@ == old(self).folder_path@,
                before == old(self).items@,
                self.id == old(self).id,
                self.level_orders == old(self).level_orders,
                self.updated_at == old(self).updated_at,
                self.items@.len() == before.len(),
                i <= before.len(),
                forall|k: int|
                    0 <= k < i ==> relocated(
                        #[trigger] self.items@[k],
                        before[k],
                        from@,
                        next_folder@,
                    ),
                forall|k: int| i <= k < before.len() ==> #[trigger] self.items@[k] == before[k],
            decreases before.len() - i,
        {
            if self.items[i].storage_mode == StorageMode::Managed {
                match relative_below(self.items[i].path.as_str(), from.as_str()) {
                    Some(rel) => {
                        let mut item = self.items[i].duplicate();
                        item.path = join_path(next_folder, rel.as_str());
                        item.icon_key = IconService::key_for(item.path.as_str());
                        self.items.set(i, item);
                    },
                    None => {},
                }
            }
            i = i + 1;
        }
        self.folder_path = string_of(&chars_of(next_folder));
        self.name = string_of(&chars_of(name));
    }
}

} // verus!
