//! Elements of a drawer: how a new one is described, how added elements
//! join the drawer and its level order, how a level is ordered for
//! display, and when a rescan changed anything.
use vstd::prelude::*;

use crate::dock::index_order;
use crate::icons::{icon_key_of, IconService};
use crate::ids::{new_id, uuid_text};
use crate::items::{file_name, file_name_of};
use crate::levels::DrawerContents;
use crate::model::{DrawerItem, DrawerItemType, StorageMode};
use crate::order_map::{append_missing, ids_view, order_or_empty};
use crate::paths::{comparable_path, path_key, relative_key, relative_key_of};
use crate::sorting::{keyed_views, stable_sort, stable_sorted, values_of, Keyed, KeyedView};
use crate::paths::within_keys;
use crate::storage::{join_path, joined_path, DrawerMetadata, StorageService};
use crate::text::{chars_of, push_str, str_eq, string_of, to_lowercase, unicode_lowercase};

verus! {

/// An element that could not be added, and why.
#[derive(Clone, Debug)]
pub struct AddItemFailure {
    pub path: String,
    pub message: String,
}

/// What adding a batch of paths to a drawer did.
#[derive(Clone, Debug)]
pub struct AddItemsResult {
    pub added: Vec<DrawerItem>,
    pub duplicates: Vec<String>,
    pub failures: Vec<AddItemFailure>,
    pub warnings: Vec<String>,
}

/// The name kept for an element's file: its file name, or the whole path.
pub open spec fn physical_name_of(path: Seq<char>) -> Seq<char> {
    match file_name_of(path) {
        Some(n) => n,
        None => path,
    }
}

/// The description of a new element of drawer `drawer_id`. A managed
/// element's id is stable: the drawer id recorded in a subdrawer folder, or
/// `managed-` and its icon key; a link gets a fresh 36-character id. A
/// folder with drawer metadata is a subdrawer.
pub open spec fn new_item(
    item: DrawerItem,
    drawer_id: Seq<char>,
    path: Seq<char>,
    item_type: DrawerItemType,
    storage_mode: StorageMode,
    display_name: Seq<char>,
    container_path: Seq<char>,
    now: u64,
    order: u32,
    folder_metadata: Option<DrawerMetadata>,
    random: u128,
) -> bool {
    let meta = if item_type == DrawerItemType::Folder {
        folder_metadata
    } else {
        None
    };
    &&& item.drawer_id@ == drawer_id
    &&& item.item_type == item_type
    &&& item.storage_mode == storage_mode
    &&& item.display_name@ == display_name
    &&& item.physical_name@ == physical_name_of(path)
    &&& item.path@ == path
    &&& item.icon_key@ == icon_key_of(path)
    &&& item.created_at == now
    &&& item.order == order
    &&& item.available
    &&& item.container_path@ == container_path
    &&& item.is_subdrawer == meta is Some
    &&& if storage_mode == StorageMode::Managed {
        match meta {
            Some(m) => item.id@ == m.drawer_id@,
            None => item.id@ == "managed-"@ + icon_key_of(path),
        }
    } else {
        item.id@ == uuid_text(random)
    }
}

/// Describes a new element. `folder_metadata` is what the element's folder
/// holds, when it is a folder; a new link's id is made from `random`
/// (an element kept in the folder takes its id from its path or metadata).
pub fn create_item(
    drawer_id: &str,
    path: &str,
    item_type: DrawerItemType,
    storage_mode: StorageMode,
    display_name: String,
    container_path: String,
    now: u64,
    order: u32,
    folder_metadata: Option<DrawerMetadata>,
    random: u128,
) -> (r: DrawerItem)
    ensures
        new_item(
            r,
            drawer_id@,
            path@,
            item_type,
            storage_mode,
            display_name@,
            container_path@,
            now,
            order,
            folder_metadata,
            random,
        ),
{
    let physical_name = match file_name(path) {
        Some(n) => n,
        None => string_of(&chars_of(path)),
    };
    let meta = match item_type {
        DrawerItemType::Folder => folder_metadata,
        _ => None,
    };
    let is_subdrawer = meta.is_some();
    let icon_key = IconService::key_for(path);
    let id = match storage_mode {
        StorageMode::Managed => match meta {
            Some(m) => m.drawer_id,
            None => {
                let mut id = "managed-".to_owned();
                push_str(&mut id, icon_key.as_str());
                proof {
                    reveal_strlit("managed-");
                }
                id
            },
        },
        StorageMode::Linked => new_id(random),
    };
    DrawerItem {
        id,
        drawer_id: string_of(&chars_of(drawer_id)),
        item_type,
        storage_mode,
        display_name,
        physical_name,
        path: string_of(&chars_of(path)),
        icon_key,
        created_at: now,
        order,
        available: true,
        container_path,
        is_subdrawer,
    }
}

/// The highest stored order, or 0.
pub open spec fn max_order(items: Seq<DrawerItem>) -> u32
    decreases items.len(),
{
    if items.len() == 0 {
        0
    } else {
        let rest = max_order(items.drop_last());
        if items.last().order > rest {
            items.last().order
        } else {
            rest
        }
    }
}

/// The highest stored order is one of the elements' orders (0 for none),
/// and no element's order is above it.
pub proof fn lemma_max_order_is_highest(items: Seq<DrawerItem>)
    ensures
        forall|k: int| 0 <= k < items.len() ==> (#[trigger] items[k]).order <= max_order(items),
        items.len() == 0 ==> max_order(items) == 0,
        items.len() > 0 ==> exists|k: int| 0 <= k < items.len() && items[k].order == max_order(items),
    decreases items.len(),
{
    if items.len() > 0 {
        let p = items.drop_last();
        lemma_max_order_is_highest(p);
        assert forall|k: int| 0 <= k < items.len() implies (#[trigger] items[k]).order <= max_order(
            items,
        ) by {
            if k < p.len() {
                assert(items[k] == p[k]);
            }
        }
        if p.len() > 0 && max_order(p) >= items.last().order {
            let k = choose|k: int| 0 <= k < p.len() && p[k].order == max_order(p);
            assert(items[k] == p[k]);
        } else {
            assert(items[items.len() - 1] == items.last());
        }
    }
}

pub fn highest_order(items: &Vec<DrawerItem>) -> (r: u32)
    ensures
        r == max_order(items@),
{
    let mut r: u32 = 0;
    let mut i: usize = 0;
    while i < items.len()
        invariant
            i <= items@.len(),
            r == max_order(items@.take(i as int)),
        decreases items@.len() - i,
    {
        assert(items@.take(i + 1).drop_last() =~= items@.take(i as int));
        if items[i].order > r {
            r = items[i].order;
        }
        i = i + 1;
    }
    assert(items@.take(items@.len() as int) =~= items@);
    r
}

/// The added elements that the drawer's own list keeps: links, and
/// anything added at the root level (deeper managed elements are found by
/// scanning their folder).
pub open spec fn kept_added(added: Seq<DrawerItem>, at_root: bool) -> Seq<DrawerItem>
    decreases added.len(),
{
    if added.len() == 0 {
        added
    } else {
        let rest = kept_added(added.drop_last(), at_root);
        if added.last().storage_mode == StorageMode::Linked || at_root {
            rest.push(added.last())
        } else {
            rest
        }
    }
}

pub open spec fn added_ids(added: Seq<DrawerItem>) -> Seq<Seq<char>> {
    added.map_values(|i: DrawerItem| i.id@)
}

fn ids_of(added: &Vec<DrawerItem>) -> (r: Vec<String>)
    ensures
        ids_view(r@) == added_ids(added@),
{
    let mut r: Vec<String> = Vec::new();
    let mut i: usize = 0;
    while i < added.len()
        invariant
            i <= added@.len(),
            ids_view(r@) == added_ids(added@.take(i as int)),
        decreases added@.len() - i,
    {
        let id = added[i].id.clone();
        let ghost before = ids_view(r@);
        r.push(id);
        assert(ids_view(r@) =~= before.push(added@[i as int].id@));
        assert(added_ids(added@.take(i + 1)) =~= added_ids(added@.take(i as int)).push(
            added@[i as int].id@,
        ));
        i = i + 1;
    }
    assert(added@.take(added@.len() as int) =~= added@);
    r
}

impl DrawerContents {
    /// Makes the elements just added to level `container_path` (normalized)
    /// part of the drawer: links and root-level elements join its list, and
    /// every new id not yet in the level's order goes to its end.
    pub fn record_added_items(&mut self, added: &Vec<DrawerItem>, container_path: &str, now: u64)
        requires
            old(self).wf(),
        ensures
            final(self).wf(),
            final(self).id == old(self).id,
            final(self).name == old(self).name,
            final(self).folder_path == old(self).folder_path,
            final(self).items@ == old(self).items@ + kept_added(
                added@,
                container_path@.len() == 0,
            ),
            final(self).level_orders.view() == old(self).level_orders.view().insert(
                relative_key_of(container_path@),
                append_missing(
                    order_or_empty(old(self).level_orders.view(), relative_key_of(container_path@)),
                    added_ids(added@),
                ),
            ),
            final(self).updated_at == now,
    {
        let at_root = chars_of(container_path).len() == 0;
        let mut i: usize = 0;
        let ghost start = self.items@;
        let ghost orig = *self;
        while i < added.len()
            invariant
                i <= added@.len(),
                self.id == orig.id,
                self.name == orig.name,
                self.folder_path == orig.folder_path,
                self.level_orders == orig.level_orders,
                orig.level_orders.wf(),
                self.items@ == start + kept_added(added@.take(i as int), at_root),
            decreases added@.len() - i,
        {
            assert(added@.take(i + 1).drop_last() =~= added@.take(i as int));
            if added[i].storage_mode == StorageMode::Linked || at_root {
                let ghost before = self.items@;
                self.items.push(added[i].duplicate());
                assert(self.items@ =~= start + kept_added(added@.take(i + 1), at_root));
            }
            i = i + 1;
        }
        assert(added@.take(added@.len() as int) =~= added@);
        let key = relative_key(container_path);
        let ids = ids_of(added);
        self.level_orders.add_missing(key.as_str(), &ids);
        self.updated_at = now;
    }
}

/// The last position of `id` in a level order, or `u64::MAX` when the
/// order does not mention it.
pub open spec fn last_position(order: Seq<Seq<char>>, id: Seq<char>, end: int) -> u64
    decreases end,
{
    if end <= 0 {
        u64::MAX
    } else if order[end - 1] == id {
        (end - 1) as u64
    } else {
        last_position(order, id, end - 1)
    }
}

/// Each element keyed by its place in the level order (the last mention
/// counts; unmentioned elements go last) and then by its lower-cased name.
pub open spec fn level_keys(items: Seq<DrawerItem>, order: Seq<Seq<char>>) -> Seq<
    KeyedView<DrawerItem>,
> {
    items.map_values(
        |i: DrawerItem|
            (
                last_position(order, i.id@, order.len() as int),
                unicode_lowercase(i.display_name@),
                i,
            ),
    )
}

/// `items` numbered `0, 1, 2, ...` in their current order.
pub open spec fn renumbered(items: Seq<DrawerItem>) -> Seq<DrawerItem> {
    Seq::new(items.len(), |i: int| DrawerItem { order: index_order(i), ..items[i] })
}

fn position_in(order: &Vec<String>, id: &str) -> (r: u64)
    ensures
        r == last_position(ids_view(order@), id@, order@.len() as int),
{
    let mut end = order.len();
    while end > 0
        invariant
            end <= order@.len(),
            last_position(ids_view(order@), id@, order@.len() as int) == last_position(
                ids_view(order@),
                id@,
                end as int,
            ),
        decreases end,
    {
        if str_eq(order[end - 1].as_str(), id) {
            return (end - 1) as u64;
        }
        end = end - 1;
    }
    u64::MAX
}

proof fn lemma_last_position(order: Seq<Seq<char>>, id: Seq<char>, end: int)
    requires
        0 <= end <= order.len(),
        order.len() < u64::MAX,
    ensures
        last_position(order, id, end) == u64::MAX <==> !order.take(end).contains(id),
        last_position(order, id, end) != u64::MAX ==> {
            let p = last_position(order, id, end) as int;
            &&& 0 <= p < end
            &&& order[p] == id
            &&& forall|q: int| p < q < end ==> order[q] != id
        },
    decreases end,
{
    if end > 0 {
        lemma_last_position(order, id, end - 1);
        assert(order.take(end).drop_last() =~= order.take(end - 1));
        if order[end - 1] != id {
            if order.take(end).contains(id) {
                let w = choose|w: int| 0 <= w < end && order.take(end)[w] == id;
                assert(order.take(end - 1)[w] == id);
            }
        } else {
            assert(order.take(end)[end - 1] == id);
        }
    }
}

/// A level shows first the elements its manual order mentions, in that
/// order (by the last mention), and then the others, by lower-cased name;
/// every element is shown, as many times as it is there.
pub proof fn lemma_level_order_respected(items: Seq<DrawerItem>, order: Seq<Seq<char>>)
    requires
        order.len() < u64::MAX,
    ensures
        ({
            let sorted = stable_sorted(level_keys(items, order), false);
            let r = renumbered(values_of(sorted));
            &&& r.len() == items.len()
            &&& sorted.to_multiset() == level_keys(items, order).to_multiset()
            &&& forall|i: int, j: int|
                0 <= i < j < r.len() && order.contains((#[trigger] r[j]).id@) ==> order.contains(
                    (#[trigger] r[i]).id@,
                )
            &&& forall|i: int, j: int|
                0 <= i < j < r.len() && order.contains((#[trigger] r[i]).id@) && order.contains(
                    (#[trigger] r[j]).id@,
                ) ==> exists|p: int|
                    0 <= p < order.len() && order[p] == r[j].id@ && forall|q: int|
                        0 <= q < order.len() && order[q] == r[i].id@ ==> q <= p
            &&& forall|i: int, j: int|
                0 <= i < j < r.len() && !order.contains((#[trigger] r[i]).id@) && !order.contains(
                    (#[trigger] r[j]).id@,
                ) ==> !crate::order_map::lex_lt(
                    unicode_lowercase(r[j].display_name@),
                    unicode_lowercase(r[i].display_name@),
                )
        }),
{
    let keyed = level_keys(items, order);
    let sorted = stable_sorted(keyed, false);
    let r = renumbered(values_of(sorted));
    crate::sorting::lemma_stable_sorted_len(keyed, false);
    crate::sorting::lemma_stable_sorted_in_order(keyed, false);
    crate::sorting::lemma_stable_sorted_permutes(keyed, false);
    assert(order.take(order.len() as int) =~= order);
    assert forall|k: int| 0 <= k < sorted.len() implies (#[trigger] sorted[k]).0 == last_position(
        order,
        sorted[k].2.id@,
        order.len() as int,
    ) && sorted[k].1 == unicode_lowercase(sorted[k].2.display_name@) && r[k].id == sorted[k].2.id
        && r[k].display_name == sorted[k].2.display_name by {
        vstd::seq_lib::to_multiset_contains(sorted, sorted[k]);
        vstd::seq_lib::to_multiset_contains(keyed, sorted[k]);
        assert(sorted.contains(sorted[k]));
        let w = choose|w: int| 0 <= w < keyed.len() && keyed[w] == sorted[k];
        assert(keyed[w].2 == items[w]);
    }
    assert forall|i: int, j: int| 0 <= i < j < r.len() implies {
        &&& (order.contains((#[trigger] r[j]).id@) ==> order.contains((#[trigger] r[i]).id@))
        &&& (order.contains(r[i].id@) && order.contains(r[j].id@) ==> exists|p: int|
            0 <= p < order.len() && order[p] == r[j].id@ && forall|q: int|
                0 <= q < order.len() && order[q] == r[i].id@ ==> q <= p)
        &&& (!order.contains(r[i].id@) && !order.contains(r[j].id@) ==> !crate::order_map::lex_lt(
            unicode_lowercase(r[j].display_name@),
            unicode_lowercase(r[i].display_name@),
        ))
    } by {
        assert(!crate::sorting::key_before(sorted[j], sorted[i], false));
        lemma_last_position(order, r[i].id@, order.len() as int);
        lemma_last_position(order, r[j].id@, order.len() as int);
        if !order.contains(r[i].id@) && !order.contains(r[j].id@) {
            assert(sorted[i].0 == u64::MAX && sorted[j].0 == u64::MAX);
        }
        if order.contains(r[i].id@) && order.contains(r[j].id@) {
            let p = last_position(order, r[j].id@, order.len() as int) as int;
            let pi = last_position(order, r[i].id@, order.len() as int) as int;
            assert(pi <= p);
            assert forall|q: int| 0 <= q < order.len() && order[q] == r[i].id@ implies q <= p by {
                if q > pi {
                    assert(order[q] != r[i].id@);
                }
            }
        }
    }
}

/// The elements of a level in display order, renumbered.
pub fn order_level_items(items: Vec<DrawerItem>, order: &Vec<String>) -> (r: Vec<DrawerItem>)
    ensures
        r@ == renumbered(values_of(stable_sorted(level_keys(items@, ids_view(order@)), false))),
{
    let ghost ov = ids_view(order@);
    let mut keyed: Vec<Keyed<DrawerItem>> = Vec::new();
    let mut i: usize = 0;
    while i < items.len()
        invariant
            i <= items@.len(),
            ov == ids_view(order@),
            keyed_views(keyed@) == level_keys(items@, ov).take(i as int),
        decreases items@.len() - i,
    {
        let rank = position_in(order, items[i].id.as_str());
        let lowered = to_lowercase(items[i].display_name.as_str());
        let k = Keyed { rank, name: chars_of(lowered.as_str()), value: items[i].duplicate() };
        let ghost before = keyed_views(keyed@);
        keyed.push(k);
        assert(keyed_views(keyed@) =~= level_keys(items@, ov).take(i + 1)) by {
            assert(keyed_views(keyed@) =~= before.push(k.key_view()));
        }
        i = i + 1;
    }
    assert(level_keys(items@, ov).take(items@.len() as int) =~= level_keys(items@, ov));
    let sorted = stable_sort(keyed, false);
    let ghost sv = keyed_views(sorted@);
    let mut r: Vec<DrawerItem> = Vec::new();
    let mut j: usize = 0;
    while j < sorted.len()
        invariant
            j <= sorted@.len(),
            sv == keyed_views(sorted@),
            r@ == renumbered(values_of(sv).take(j as int)),
        decreases sorted@.len() - j,
    {
        let mut item = sorted[j].value.duplicate();
        item.order = if j <= u32::MAX as usize {
            j as u32
        } else {
            u32::MAX
        };
        r.push(item);
        assert(r@ =~= renumbered(values_of(sv).take(j + 1)));
        j = j + 1;
    }
    assert(values_of(sv).take(sorted@.len() as int) =~= values_of(sv));
    r
}

/// Two elements differ in what a rescan reports.
pub open spec fn item_differs(a: DrawerItem, b: DrawerItem) -> bool {
    ||| a.id@ != b.id@
    ||| a.storage_mode != b.storage_mode
    ||| path_key(a.path@) != path_key(b.path@)
    ||| a.available != b.available
    ||| a.order != b.order
    ||| a.physical_name@ != b.physical_name@
    ||| a.container_path@ != b.container_path@
    ||| a.is_subdrawer != b.is_subdrawer
}

pub open spec fn lists_differ(a: Seq<DrawerItem>, b: Seq<DrawerItem>) -> bool {
    a.len() != b.len() || exists|i: int| 0 <= i < a.len() && #[trigger] item_differs(a[i], b[i])
}

/// Whether a rescan changed the drawer's list.
pub fn items_changed(left: &Vec<DrawerItem>, right: &Vec<DrawerItem>) -> (r: bool)
    ensures
        r == lists_differ(left@, right@),
{
    if left.len() != right.len() {
        return true;
    }
    let mut i: usize = 0;
    while i < left.len()
        invariant
            i <= left@.len(),
            left@.len() == right@.len(),
            forall|k: int| 0 <= k < i ==> !#[trigger] item_differs(left@[k], right@[k]),
        decreases left@.len() - i,
    {
        let a = &left[i];
        let b = &right[i];
        let differs = !str_eq(a.id.as_str(), b.id.as_str()) || a.storage_mode != b.storage_mode
            || !str_eq(comparable_path(a.path.as_str()).as_str(), comparable_path(b.path.as_str()).as_str())
            || a.available != b.available || a.order != b.order || !str_eq(
            a.physical_name.as_str(),
            b.physical_name.as_str(),
        ) || !str_eq(a.container_path.as_str(), b.container_path.as_str()) || a.is_subdrawer
            != b.is_subdrawer;
        if differs {
            assert(item_differs(left@[i as int], right@[i as int]));
            return true;
        }
        i = i + 1;
    }
    false
}

} // verus!

verus! {

/// What to do with one path of a batch added to a drawer level.
pub enum AddDecision {
    /// Already on the level.
    Duplicate,
    /// Cannot be added, and why.
    Fail(String),
    /// Referenced where it is.
    Link,
    /// A Desktop element: moved into the level's folder, to this path.
    Move(String),
}

pub open spec fn no_name_message() -> Seq<char> {
    "Windows no informó un nombre válido para el elemento"@
}

pub open spec fn desktop_name_message() -> Seq<char> {
    "El elemento del Escritorio no tiene un nombre válido"@
}

/// A batch of paths being added to one level of a drawer: the path keys
/// already on the level, the last order handed out, and the outcome so far.
pub struct AddBatch {
    pub known: Vec<String>,
    pub next_order: u32,
    pub result: AddItemsResult,
}

impl AddBatch {
    /// How many paths the batch has accounted for: each ends added, as a
    /// duplicate or as a failure, and in exactly one of them.
    pub open spec fn accounted(&self) -> nat {
        self.result.added@.len() + self.result.duplicates@.len() + self.result.failures@.len()
    }
}

pub open spec fn key_list(known: Seq<String>) -> Seq<Seq<char>> {
    known.map_values(|s: String| s@)
}

/// The path keys of the elements listed on level `container`.
pub open spec fn level_path_keys(items: Seq<DrawerItem>, container: Seq<char>) -> Seq<Seq<char>>
    decreases items.len(),
{
    if items.len() == 0 {
        Seq::empty()
    } else {
        let rest = level_path_keys(items.drop_last(), container);
        if crate::paths::relative_matches_spec(items.last().container_path@, container) {
            rest.push(path_key(items.last().path@))
        } else {
            rest
        }
    }
}

impl AddBatch {
    /// Starts a batch for level `container` (normalized) of a drawer
    /// holding `items`.
    pub fn new(items: &Vec<DrawerItem>, container: &str) -> (r: AddBatch)
        ensures
            key_list(r.known@) == level_path_keys(items@, container@),
            r.next_order == max_order(items@),
            r.result.added@.len() == 0,
            r.result.duplicates@.len() == 0,
            r.result.failures@.len() == 0,
            r.result.warnings@.len() == 0,
    {
        let mut known: Vec<String> = Vec::new();
        let mut i: usize = 0;
        while i < items.len()
            invariant
                i <= items@.len(),
                key_list(known@) == level_path_keys(items@.take(i as int), container@),
            decreases items@.len() - i,
        {
            assert(items@.take(i + 1).drop_last() =~= items@.take(i as int));
            if crate::paths::relative_matches(items[i].container_path.as_str(), container) {
                let key = comparable_path(items[i].path.as_str());
                let ghost before = key_list(known@);
                known.push(key);
                assert(key_list(known@) =~= before.push(path_key(items@[i as int].path@)));
            }
            i = i + 1;
        }
        assert(items@.take(items@.len() as int) =~= items@);
        AddBatch {
            known,
            next_order: highest_order(items),
            result: AddItemsResult {
                added: Vec::new(),
                duplicates: Vec::new(),
                failures: Vec::new(),
                warnings: Vec::new(),
            },
        }
    }

    /// What to do with `source` (a resolved path whose type and display
    /// name are given): a duplicate when its key is already on the level,
    /// a failure when it has no name, a move when it lies on the Desktop,
    /// and a link otherwise.
    pub fn decide(&self, source: &str, display_name: &str, desktop: &str, level_folder: &str) -> (r:
        AddDecision)
        ensures
            key_list(self.known@).contains(path_key(source@)) ==> r is Duplicate,
            !key_list(self.known@).contains(path_key(source@)) ==> {
                let desk = path_key(source@) != path_key(desktop@) && within_keys(
                    path_key(source@),
                    path_key(desktop@),
                );
                if display_name@.len() == 0 {
                    r matches AddDecision::Fail(m) && m@ == no_name_message()
                } else if !desk {
                    r is Link
                } else {
                    match file_name_of(source@) {
                        None => r matches AddDecision::Fail(m) && m@ == desktop_name_message(),
                        Some(n) => r matches AddDecision::Move(d) && d@ == joined_path(
                            level_folder@,
                            n,
                        ),
                    }
                }
            },
    {
        let key = comparable_path(source);
        let mut i: usize = 0;
        while i < self.known.len()
            invariant
                i <= self.known@.len(),
                key@ == path_key(source@),
                forall|j: int| 0 <= j < i ==> key_list(self.known@)[j] != key@,
            decreases self.known@.len() - i,
        {
            if str_eq(self.known[i].as_str(), key.as_str()) {
                assert(key_list(self.known@)[i as int] == key@);
                return AddDecision::Duplicate;
            }
            i = i + 1;
        }
        if chars_of(display_name).len() == 0 {
            proof {
                reveal_strlit("Windows no informó un nombre válido para el elemento");
            }
            return AddDecision::Fail(
                "Windows no informó un nombre válido para el elemento".to_owned(),
            );
        }
        if !StorageService::is_desktop_item(source, desktop) {
            return AddDecision::Link;
        }
        match file_name(source) {
            Some(n) => AddDecision::Move(join_path(level_folder, n.as_str())),
            None => {
                proof {
                    reveal_strlit("El elemento del Escritorio no tiene un nombre válido");
                }
                AddDecision::Fail("El elemento del Escritorio no tiene un nombre válido".to_owned())
            },
        }
    }

    /// Records a path that could not be added.
    pub fn fail(&mut self, path: String, message: String)
        ensures
            final(self).result.failures@ == old(self).result.failures@.push(
                AddItemFailure { path, message },
            ),
            final(self).result.added == old(self).result.added,
            final(self).result.duplicates == old(self).result.duplicates,
            final(self).result.warnings == old(self).result.warnings,
            final(self).known == old(self).known,
            final(self).next_order == old(self).next_order,
            final(self).accounted() == old(self).accounted() + 1,
    {
        self.result.failures.push(AddItemFailure { path, message });
    }

    /// Records a path already on the level.
    pub fn duplicate(&mut self, path: String)
        ensures
            final(self).result.duplicates@ == old(self).result.duplicates@.push(path),
            final(self).result.added == old(self).result.added,
            final(self).result.failures == old(self).result.failures,
            final(self).result.warnings == old(self).result.warnings,
            final(self).known == old(self).known,
            final(self).next_order == old(self).next_order,
            final(self).accounted() == old(self).accounted() + 1,
    {
        self.result.duplicates.push(path);
    }

    /// Records an element added at `path` (where it now is): its key joins
    /// the level and it takes the next order.
    pub fn add(
        &mut self,
        drawer_id: &str,
        path: &str,
        item_type: DrawerItemType,
        storage_mode: StorageMode,
        display_name: String,
        container_path: String,
        now: u64,
        folder_metadata: Option<DrawerMetadata>,
        warning: Option<String>,
        random: u128,
    )
        ensures
            key_list(final(self).known@) == key_list(old(self).known@).push(path_key(path@)),
            final(self).next_order == (if old(self).next_order == u32::MAX {
                u32::MAX
            } else {
                (old(self).next_order + 1) as u32
            }),
            final(self).result.added@.drop_last() == old(self).result.added@,
            new_item(
                final(self).result.added@.last(),
                drawer_id@,
                path@,
                item_type,
                storage_mode,
                display_name@,
                container_path@,
                now,
                final(self).next_order,
                folder_metadata,
                random,
            ),
            final(self).result.warnings@ == (match warning {
                Some(w) => old(self).result.warnings@.push(w),
                None => old(self).result.warnings@,
            }),
            final(self).result.failures == old(self).result.failures,
            final(self).result.duplicates == old(self).result.duplicates,
            final(self).accounted() == old(self).accounted() + 1,
    {
        if let Some(w) = warning {
            self.result.warnings.push(w);
        }
        let key = comparable_path(path);
        let ghost before = key_list(self.known@);
        self.known.push(key);
        assert(key_list(self.known@) =~= before.push(path_key(path@)));
        self.next_order = if self.next_order == u32::MAX {
            u32::MAX
        } else {
            self.next_order + 1
        };
        let item = create_item(
            drawer_id,
            path,
            item_type,
            storage_mode,
            display_name,
            container_path,
            now,
            self.next_order,
            folder_metadata,
            random,
        );
        let ghost added = self.result.added@;
        self.result.added.push(item);
        assert(self.result.added@.drop_last() =~= added);
    }
}

} // verus!
