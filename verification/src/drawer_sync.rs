//! Rescanning a drawer's folder: the links it references stay, and the
//! elements kept in its folder are rebuilt from what the folder holds,
//! keeping the identity and order of those already known.
use vstd::prelude::*;

use crate::drawer_items::{
    create_item, highest_order, item_differs, items_changed, level_keys, lists_differ, max_order,
    new_item, order_level_items, physical_name_of, renumbered,
};
use crate::order_map::{lex_lt, order_or_empty};
use crate::items::{classify, display_name, display_name_of, file_name, file_name_of, item_type_of};
use crate::levels::DrawerContents;
use crate::model::{DrawerBreadcrumb, DrawerItem, DrawerItemType, StorageMode};
use crate::paths::{
    comparable_path, join_backslash, path_key, relative_key, relative_key_of, relative_matches,
    relative_matches_spec, texts,
};
use crate::sorting::{keyed_views, stable_sort, stable_sorted, values_of, Keyed, KeyedView};
use crate::storage::{internal_file_name, DrawerMetadata, StorageService};
use crate::text::{chars_of, concat_chars, eq_ignore_ascii_case, str_eq, string_of};

verus! {

/// An entry found directly in a drawer's folder: its resolved path,
/// whether it is a folder, and the drawer metadata it holds when it is a
/// folder whose `.drawer.json` could be read.
#[derive(Clone, Debug)]
pub struct FolderEntry {
    pub path: String,
    pub is_dir: bool,
    pub metadata: Option<DrawerMetadata>,
}

/// Whether a folder entry at `path` is shown: the organizer's own
/// bookkeeping files (`.drawer.json`, its temporary and archived siblings,
/// half-finished transfers) never are.
pub open spec fn entry_shown(path: Seq<char>) -> bool {
    !(file_name_of(path) matches Some(n) && internal_file_name(n))
}

/// The folder entries that a rescan shows, in the order given.
pub open spec fn shown_folder_entries(entries: Seq<FolderEntry>) -> Seq<FolderEntry>
    decreases entries.len(),
{
    if entries.len() == 0 {
        Seq::empty()
    } else if entry_shown(entries.last().path@) {
        shown_folder_entries(entries.drop_last()).push(entries.last())
    } else {
        shown_folder_entries(entries.drop_last())
    }
}

/// Whether a folder entry at `path` is shown.
pub fn is_entry_shown(path: &str) -> (r: bool)
    ensures
        r == entry_shown(path@),
{
    match file_name(path) {
        Some(n) => !StorageService::is_internal_file_name(n.as_str()),
        None => true,
    }
}

impl FolderEntry {
    /// A field-by-field copy.
    pub fn duplicate(&self) -> (r: Self)
        ensures
            r == *self,
    {
        FolderEntry {
            path: self.path.clone(),
            is_dir: self.is_dir,
            metadata: match &self.metadata {
                Some(m) => Some(m.duplicate()),
                None => None,
            },
        }
    }
}

/// The entries a rescan shows: all but the organizer's bookkeeping files.
pub fn shown_entries(entries: &Vec<FolderEntry>) -> (r: Vec<FolderEntry>)
    ensures
        r@ == shown_folder_entries(entries@),
{
    let mut r: Vec<FolderEntry> = Vec::new();
    let mut i: usize = 0;
    while i < entries.len()
        invariant
            i <= entries@.len(),
            r@ == shown_folder_entries(entries@.take(i as int)),
        decreases entries@.len() - i,
    {
        assert(entries@.take(i + 1).drop_last() =~= entries@.take(i as int));
        if is_entry_shown(entries[i].path.as_str()) {
            r.push(entries[i].duplicate());
        }
        i = i + 1;
    }
    assert(entries@.take(entries@.len() as int) =~= entries@);
    r
}

/// The links of the drawer, each marked available when its target exists.
pub open spec fn refreshed_links(items: Seq<DrawerItem>, exists: Seq<bool>) -> Seq<DrawerItem>
    decreases items.len(),
{
    if items.len() == 0 {
        Seq::empty()
    } else {
        let rest = refreshed_links(items.drop_last(), exists);
        let last = items.last();
        if last.storage_mode == StorageMode::Linked {
            rest.push(DrawerItem { available: exists[items.len() - 1], ..last })
        } else {
            rest
        }
    }
}

/// The last known element kept at the drawer's root whose path has key
/// `key`: the one a map keyed by path keeps.
pub open spec fn last_root_managed(items: Seq<DrawerItem>, key: Seq<char>, end: int) -> Option<int>
    decreases end,
{
    if end <= 0 {
        None
    } else if items[end - 1].storage_mode == StorageMode::Managed
        && items[end - 1].container_path@.len() == 0 && path_key(items[end - 1].path@) == key {
        Some(end - 1)
    } else {
        last_root_managed(items, key, end - 1)
    }
}

pub open spec fn entry_keys(entries: Seq<FolderEntry>) -> Seq<KeyedView<usize>> {
    Seq::new(entries.len(), |i: int| (0u64, path_key(entries[i].path@), i as usize))
}

/// The entries sorted by path key.
pub open spec fn entries_in_order(entries: Seq<FolderEntry>) -> Seq<usize> {
    values_of(stable_sorted(entry_keys(entries), false))
}

/// A known element found again in the folder: available, at `entry`'s
/// path, named after it, at the root, and a subdrawer exactly when the
/// entry is a folder with drawer metadata.
pub open spec fn found_again(item: DrawerItem, known: DrawerItem, entry: FolderEntry) -> bool {
    &&& item == DrawerItem {
        path: item.path,
        physical_name: item.physical_name,
        container_path: item.container_path,
        available: true,
        is_subdrawer: entry.is_dir && entry.metadata is Some,
        ..known
    }
    &&& item.path@ == entry.path@
    &&& item.physical_name@ == physical_name_of(entry.path@)
    &&& item.container_path@ == Seq::<char>::empty()
}

/// How many of the first `n` ordered entries are new to the drawer.
pub open spec fn new_before(
    previous: Seq<DrawerItem>,
    entries: Seq<FolderEntry>,
    order: Seq<usize>,
    n: int,
) -> nat
    decreases n,
{
    if n <= 0 {
        0
    } else {
        new_before(previous, entries, order, n - 1) + if last_root_managed(
            previous,
            path_key(entries[order[n - 1] as int].path@),
            previous.len() as int,
        ) is Some {
            0nat
        } else {
            1nat
        }
    }
}

/// `start + k`, saturating at `u32::MAX`.
pub open spec fn saturating_from(start: u32, k: int) -> u32 {
    if start + k >= u32::MAX {
        u32::MAX
    } else {
        (start + k) as u32
    }
}

/// Element `item` rebuilt for the `n`-th entry in path order.
pub open spec fn rebuilt_entry(
    item: DrawerItem,
    n: int,
    drawer_id: Seq<char>,
    previous: Seq<DrawerItem>,
    entries: Seq<FolderEntry>,
    order: Seq<usize>,
    start: u32,
    now: u64,
) -> bool {
    let e = entries[order[n] as int];
    match last_root_managed(previous, path_key(e.path@), previous.len() as int) {
        Some(i) => found_again(item, previous[i], e),
        None => {
            let t = item_type_of(e.is_dir, e.path@);
            new_item(
                item,
                drawer_id,
                e.path@,
                t,
                StorageMode::Managed,
                display_name_of(e.path@, t),
                Seq::<char>::empty(),
                now,
                saturating_from(start, new_before(previous, entries, order, n + 1) as int),
                e.metadata,
                0,
            )
        },
    }
}

/// The drawer's list before the final ordering: its links (refreshed),
/// then one element per folder entry in path order.
pub open spec fn unsorted_sync(
    pre: Seq<DrawerItem>,
    drawer_id: Seq<char>,
    previous: Seq<DrawerItem>,
    exists: Seq<bool>,
    entries: Seq<FolderEntry>,
    now: u64,
) -> bool {
    let links = refreshed_links(previous, exists);
    let order = entries_in_order(entries);
    let n = links.len();
    &&& pre.len() == n + order.len()
    &&& pre.take(n as int) == links
    &&& forall|k: int|
        0 <= k < order.len() ==> rebuilt_entry(
            #[trigger] pre[n + k],
            k,
            drawer_id,
            previous,
            entries,
            order,
            max_order(links),
            now,
        )
}

pub open spec fn drawer_by_order(items: Seq<DrawerItem>) -> Seq<KeyedView<DrawerItem>> {
    items.map_values(|i: DrawerItem| (i.order as u64, Seq::<char>::empty(), i))
}

fn links_of(previous: &Vec<DrawerItem>, exists: &Vec<bool>) -> (r: Vec<DrawerItem>)
    requires
        exists@.len() == previous@.len(),
    ensures
        r@ == refreshed_links(previous@, exists@),
{
    let mut r: Vec<DrawerItem> = Vec::new();
    let mut i: usize = 0;
    while i < previous.len()
        invariant
            i <= previous@.len(),
            exists@.len() == previous@.len(),
            r@ == refreshed_links(previous@.take(i as int), exists@),
        decreases previous@.len() - i,
    {
        assert(previous@.take(i + 1).drop_last() =~= previous@.take(i as int));
        if previous[i].storage_mode == StorageMode::Linked {
            let mut item = previous[i].duplicate();
            item.available = exists[i];
            r.push(item);
        }
        i = i + 1;
    }
    assert(previous@.take(previous@.len() as int) =~= previous@);
    r
}

fn find_root_managed(previous: &Vec<DrawerItem>, key: &str) -> (r: Option<usize>)
    ensures
        r matches Some(i) ==> i < previous@.len() && last_root_managed(
            previous@,
            key@,
            previous@.len() as int,
        ) == Some(i as int),
        r is None ==> last_root_managed(previous@, key@, previous@.len() as int) is None,
{
    let mut end = previous.len();
    while end > 0
        invariant
            end <= previous@.len(),
            last_root_managed(previous@, key@, previous@.len() as int) == last_root_managed(
                previous@,
                key@,
                end as int,
            ),
        decreases end,
    {
        let item = &previous[end - 1];
        if item.storage_mode == StorageMode::Managed && chars_of(item.container_path.as_str()).len()
            == 0 && str_eq(comparable_path(item.path.as_str()).as_str(), key) {
            return Some(end - 1);
        }
        end = end - 1;
    }
    None
}

fn sort_entries(entries: &Vec<FolderEntry>) -> (r: Vec<usize>)
    ensures
        r@ == entries_in_order(entries@),
{
    let mut keyed: Vec<Keyed<usize>> = Vec::new();
    let mut i: usize = 0;
    while i < entries.len()
        invariant
            i <= entries@.len(),
            keyed_views(keyed@) == entry_keys(entries@).take(i as int),
        decreases entries@.len() - i,
    {
        let key = comparable_path(entries[i].path.as_str());
        let k = Keyed { rank: 0, name: chars_of(key.as_str()), value: i };
        let ghost before = keyed_views(keyed@);
        keyed.push(k);
        assert(keyed_views(keyed@) =~= entry_keys(entries@).take(i + 1)) by {
            assert(keyed_views(keyed@) =~= before.push(k.key_view()));
        }
        i = i + 1;
    }
    assert(entry_keys(entries@).take(entries@.len() as int) =~= entry_keys(entries@));
    let sorted = stable_sort(keyed, false);
    let ghost sv = keyed_views(sorted@);
    let mut r: Vec<usize> = Vec::new();
    let mut j: usize = 0;
    while j < sorted.len()
        invariant
            j <= sorted@.len(),
            sv == keyed_views(sorted@),
            r@ == values_of(sv).take(j as int),
        decreases sorted@.len() - j,
    {
        r.push(sorted[j].value);
        assert(r@ =~= values_of(sv).take(j + 1));
        j = j + 1;
    }
    assert(values_of(sv).take(sorted@.len() as int) =~= values_of(sv));
    r
}

proof fn lemma_entry_order_range(entries: Seq<FolderEntry>)
    requires
        entries.len() <= usize::MAX,
    ensures
        forall|j: int|
            0 <= j < entries_in_order(entries).len() ==> (#[trigger] entries_in_order(entries)[j])
                < entries.len(),
{
    let s = entry_keys(entries);
    lemma_sorted_members(s);
    assert forall|j: int| 0 <= j < entries_in_order(entries).len() implies (
    #[trigger] entries_in_order(entries)[j]) < entries.len() by {
        assert(stable_sorted(s, false)[j].2 == entries_in_order(entries)[j]);
        let i = choose|i: int| 0 <= i < s.len() && s[i] == stable_sorted(s, false)[j];
        assert(s[i].2 == i as usize);
    }
}

proof fn lemma_sorted_members(s: Seq<KeyedView<usize>>)
    ensures
        stable_sorted(s, false).len() == s.len(),
        forall|j: int|
            0 <= j < stable_sorted(s, false).len() ==> exists|i: int|
                0 <= i < s.len() && s[i] == #[trigger] stable_sorted(s, false)[j],
{
    broadcast use vstd::seq_lib::group_to_multiset_ensures;

    crate::sorting::lemma_stable_sorted_len(s, false);
    crate::sorting::lemma_stable_sorted_permutes(s, false);
    let out = stable_sorted(s, false);
    assert forall|j: int| 0 <= j < out.len() implies exists|i: int|
        0 <= i < s.len() && s[i] == #[trigger] out[j] by {
        assert(out.contains(out[j]));
        assert(out.to_multiset().count(out[j]) > 0);
        assert(s.contains(out[j]));
    }
}

/// The drawer's list after a rescan of its folder: its links, marked
/// available when their target exists (`exists` answers for each current
/// element); then one element per shown folder entry (the organizer's bookkeeping
/// files are skipped), in path order, reusing
/// the known element kept at that path or describing a new one numbered
/// after the links; all of it ordered by stored order.
pub fn synced_items(
    drawer_id: &str,
    previous: &Vec<DrawerItem>,
    exists: &Vec<bool>,
    entries: &Vec<FolderEntry>,
    now: u64,
) -> (r: Vec<DrawerItem>)
    requires
        exists@.len() == previous@.len(),
    ensures
        exists|pre: Seq<DrawerItem>|
            unsorted_sync(pre, drawer_id@, previous@, exists@, shown_folder_entries(entries@), now)
                && r@ == values_of(stable_sorted(drawer_by_order(pre), false)),
{
    let shown = shown_entries(entries);
    synced_from_shown(drawer_id, previous, exists, &shown, now)
}

/// `synced_items` over entries already known to be shown.
fn synced_from_shown(
    drawer_id: &str,
    previous: &Vec<DrawerItem>,
    exists: &Vec<bool>,
    entries: &Vec<FolderEntry>,
    now: u64,
) -> (r: Vec<DrawerItem>)
    requires
        exists@.len() == previous@.len(),
    ensures
        exists|pre: Seq<DrawerItem>|
            unsorted_sync(pre, drawer_id@, previous@, exists@, entries@, now) && r@ == values_of(
                stable_sorted(drawer_by_order(pre), false),
            ),
{
    let links = links_of(previous, exists);
    let start = highest_order(&links);
    let order = sort_entries(entries);
    let entry_count = entries.len();
    assert(entries@.len() == entry_count);
    proof {
        lemma_entry_order_range(entries@);
    }
    let mut pre = links;
    let n = pre.len();
    let ghost linked = pre@;
    assert(linked.take(n as int) =~= linked);
    let mut next: u32 = start;
    let mut k: usize = 0;
    while k < order.len()
        invariant
            k <= order@.len(),
            order@ == entries_in_order(entries@),
            forall|j: int| 0 <= j < order@.len() ==> (#[trigger] order@[j]) < entries@.len(),
            n == linked.len(),
            linked == refreshed_links(previous@, exists@),
            start == max_order(linked),
            pre@.len() == n + k,
            pre@.take(n as int) == linked,
            next == saturating_from(start, new_before(previous@, entries@, order@, k as int) as int),
            forall|j: int|
                0 <= j < k ==> rebuilt_entry(
                    #[trigger] pre@[n + j],
                    j,
                    drawer_id@,
                    previous@,
                    entries@,
                    order@,
                    start,
                    now,
                ),
        decreases order@.len() - k,
    {
        let e = &entries[order[k]];
        let key = comparable_path(e.path.as_str());
        let ghost before = pre@;
        match find_root_managed(previous, key.as_str()) {
            Some(i) => {
                let mut item = previous[i].duplicate();
                item.available = true;
                item.path = e.path.clone();
                item.physical_name = match file_name(e.path.as_str()) {
                    Some(name) => name,
                    None => string_of(&chars_of(e.path.as_str())),
                };
                item.container_path = String::new();
                item.is_subdrawer = e.is_dir && e.metadata.is_some();
                pre.push(item);
            },
            None => {
                next = if next == u32::MAX {
                    u32::MAX
                } else {
                    next + 1
                };
                let item_type = classify(e.path.as_str(), e.is_dir);
                let name = display_name(e.path.as_str(), item_type);
                let item = create_item(
                    drawer_id,
                    e.path.as_str(),
                    item_type,
                    StorageMode::Managed,
                    name,
                    String::new(),
                    now,
                    next,
                    match &e.metadata {
                        Some(m) => Some(m.duplicate()),
                        None => None,
                    },
                    0,
                );
                pre.push(item);
            },
        }
        assert(pre@.take(n as int) =~= before.take(n as int));
        assert forall|j: int| 0 <= j < k + 1 implies rebuilt_entry(
            #[trigger] pre@[n + j],
            j,
            drawer_id@,
            previous@,
            entries@,
            order@,
            start,
            now,
        ) by {
            if j < k {
                assert(pre@[n + j] == before[n + j]);
            }
        }
        k = k + 1;
    }
    assert(unsorted_sync(pre@, drawer_id@, previous@, exists@, entries@, now));
    sorted_by_stored_order(pre)
}

fn sorted_by_stored_order(items: Vec<DrawerItem>) -> (r: Vec<DrawerItem>)
    ensures
        r@ == values_of(stable_sorted(drawer_by_order(items@), false)),
{
    let mut keyed: Vec<Keyed<DrawerItem>> = Vec::new();
    let mut i: usize = 0;
    while i < items.len()
        invariant
            i <= items@.len(),
            keyed_views(keyed@) == drawer_by_order(items@).take(i as int),
        decreases items@.len() - i,
    {
        let k = Keyed { rank: items[i].order as u64, name: Vec::new(), value: items[i].duplicate() };
        let ghost before = keyed_views(keyed@);
        keyed.push(k);
        assert(keyed_views(keyed@) =~= drawer_by_order(items@).take(i + 1)) by {
            assert(k.name@ =~= Seq::<char>::empty());
            assert(keyed_views(keyed@) =~= before.push(k.key_view()));
        }
        i = i + 1;
    }
    assert(drawer_by_order(items@).take(items@.len() as int) =~= drawer_by_order(items@));
    let sorted = stable_sort(keyed, false);
    let ghost sv = keyed_views(sorted@);
    let mut r: Vec<DrawerItem> = Vec::new();
    let mut j: usize = 0;
    while j < sorted.len()
        invariant
            j <= sorted@.len(),
            sv == keyed_views(sorted@),
            r@ == values_of(sv).take(j as int),
        decreases sorted@.len() - j,
    {
        r.push(sorted[j].value.duplicate());
        assert(r@ =~= values_of(sv).take(j + 1));
        j = j + 1;
    }
    assert(values_of(sv).take(sorted@.len() as int) =~= values_of(sv));
    r
}

impl DrawerContents {
    /// Rescans the drawer's folder (see `synced_items`). The list and the
    /// change time are replaced only when something shown changed; the
    /// answer says whether it did.
    pub fn sync(&mut self, exists: &Vec<bool>, entries: &Vec<FolderEntry>, now: u64) -> (r: bool)
        requires
            old(self).wf(),
            exists@.len() == old(self).items@.len(),
        ensures
            final(self).wf(),
            final(self).id == old(self).id,
            final(self).level_orders == old(self).level_orders,
            exists|next: Seq<DrawerItem>|
                {
                    &&& exists|pre: Seq<DrawerItem>|
                        unsorted_sync(
                            pre,
                            old(self).id@,
                            old(self).items@,
                            exists@,
                            shown_folder_entries(entries@),
                            now,
                        ) && next == values_of(stable_sorted(drawer_by_order(pre), false))
                    &&& r == lists_differ(old(self).items@, next)
                    &&& if r {
                        final(self).items@ == next && final(self).updated_at == now
                    } else {
                        final(self).items == old(self).items && final(self).updated_at == old(
                            self,
                        ).updated_at
                    }
                },
    {
        let next = synced_items(self.id.as_str(), &self.items, exists, entries, now);
        let changed = items_changed(&self.items, &next);
        if changed {
            self.items = next;
            self.updated_at = now;
        }
        changed
    }
}

} // verus!

verus! {

/// An entry of a level's folder, with what reading its drawer metadata
/// gave: nothing for a plain folder or a file, or why it failed.
pub struct LevelEntry {
    pub path: String,
    pub is_dir: bool,
    pub metadata: Result<Option<DrawerMetadata>, String>,
}

pub open spec fn level_entry_keys(entries: Seq<LevelEntry>) -> Seq<KeyedView<usize>> {
    Seq::new(entries.len(), |i: int| (0u64, path_key(entries[i].path@), i as usize))
}

/// The entries of a level sorted by path key.
pub open spec fn level_entries_in_order(entries: Seq<LevelEntry>) -> Seq<usize> {
    values_of(stable_sorted(level_entry_keys(entries), false))
}

/// The last known element kept in the drawer whose path has key `key`.
pub open spec fn last_managed(items: Seq<DrawerItem>, key: Seq<char>, end: int) -> Option<int>
    decreases end,
{
    if end <= 0 {
        None
    } else if items[end - 1].storage_mode == StorageMode::Managed && path_key(items[end - 1].path@)
        == key {
        Some(end - 1)
    } else {
        last_managed(items, key, end - 1)
    }
}

/// A folder entry whose drawer metadata could not be read.
pub open spec fn unreadable(e: LevelEntry) -> bool {
    e.is_dir && e.metadata is Err
}

/// The metadata a readable entry holds (none for files).
pub open spec fn entry_metadata(e: LevelEntry) -> Option<DrawerMetadata> {
    if e.is_dir {
        match e.metadata {
            Ok(m) => m,
            Err(_) => None,
        }
    } else {
        None
    }
}

/// Element `item` made for the `k`-th entry of a level in path order.
pub open spec fn scanned_entry(
    item: DrawerItem,
    k: int,
    drawer_id: Seq<char>,
    known: Seq<DrawerItem>,
    entries: Seq<LevelEntry>,
    order: Seq<usize>,
    container: Seq<char>,
    now: u64,
) -> bool {
    let e = entries[order[k] as int];
    let meta = entry_metadata(e);
    let found = if container.len() == 0 {
        last_managed(known, path_key(e.path@), known.len() as int)
    } else {
        None
    };
    match found {
        Some(i) => {
            &&& item == DrawerItem {
                physical_name: item.physical_name,
                container_path: item.container_path,
                available: true,
                is_subdrawer: meta is Some,
                ..known[i]
            }
            &&& item.physical_name@ == physical_name_of(e.path@)
            &&& item.container_path@ == container
        },
        None => {
            let t = item_type_of(e.is_dir, e.path@);
            new_item(
                item,
                drawer_id,
                e.path@,
                t,
                StorageMode::Managed,
                match meta {
                    Some(m) => m.name@,
                    None => display_name_of(e.path@, t),
                },
                container,
                now,
                crate::dock::index_order(k),
                meta,
                0,
            )
        },
    }
}

fn sort_level_entries(entries: &Vec<LevelEntry>) -> (r: Vec<usize>)
    ensures
        r@ == level_entries_in_order(entries@),
        forall|j: int| 0 <= j < r@.len() ==> (#[trigger] r@[j]) < entries@.len(),
{
    let count = entries.len();
    let mut keyed: Vec<Keyed<usize>> = Vec::new();
    let mut i: usize = 0;
    while i < entries.len()
        invariant
            i <= entries@.len(),
            keyed_views(keyed@) == level_entry_keys(entries@).take(i as int),
        decreases entries@.len() - i,
    {
        let key = comparable_path(entries[i].path.as_str());
        let k = Keyed { rank: 0, name: chars_of(key.as_str()), value: i };
        let ghost before = keyed_views(keyed@);
        keyed.push(k);
        assert(keyed_views(keyed@) =~= level_entry_keys(entries@).take(i + 1)) by {
            assert(keyed_views(keyed@) =~= before.push(k.key_view()));
        }
        i = i + 1;
    }
    assert(level_entry_keys(entries@).take(entries@.len() as int) =~= level_entry_keys(entries@));
    let sorted = stable_sort(keyed, false);
    let ghost sv = keyed_views(sorted@);
    proof {
        let s = level_entry_keys(entries@);
        lemma_sorted_members(s);
        assert forall|j: int| 0 <= j < sv.len() implies (#[trigger] sv[j]).2 < entries@.len() by {
            let i = choose|i: int| 0 <= i < s.len() && s[i] == sv[j];
            assert(s[i].2 == i as usize);
        }
    }
    let mut r: Vec<usize> = Vec::new();
    let mut j: usize = 0;
    while j < sorted.len()
        invariant
            j <= sorted@.len(),
            sv == keyed_views(sorted@),
            count == entries@.len(),
            forall|t: int| 0 <= t < sv.len() ==> (#[trigger] sv[t]).2 < entries@.len(),
            r@ == values_of(sv).take(j as int),
        decreases sorted@.len() - j,
    {
        r.push(sorted[j].value);
        assert(r@ =~= values_of(sv).take(j + 1));
        j = j + 1;
    }
    assert(values_of(sv).take(sorted@.len() as int) =~= values_of(sv));
    r
}

fn find_managed(items: &Vec<DrawerItem>, key: &str) -> (r: Option<usize>)
    ensures
        r matches Some(i) ==> i < items@.len() && last_managed(items@, key@, items@.len() as int)
            == Some(i as int),
        r is None ==> last_managed(items@, key@, items@.len() as int) is None,
{
    let mut end = items.len();
    while end > 0
        invariant
            end <= items@.len(),
            last_managed(items@, key@, items@.len() as int) == last_managed(
                items@,
                key@,
                end as int,
            ),
        decreases end,
    {
        if items[end - 1].storage_mode == StorageMode::Managed && str_eq(
            comparable_path(items[end - 1].path.as_str()).as_str(),
            key,
        ) {
            return Some(end - 1);
        }
        end = end - 1;
    }
    None
}

/// The level entries a scan shows: all but the organizer's bookkeeping files.
pub open spec fn shown_level_entries(entries: Seq<LevelEntry>) -> Seq<LevelEntry>
    decreases entries.len(),
{
    if entries.len() == 0 {
        Seq::empty()
    } else if entry_shown(entries.last().path@) {
        shown_level_entries(entries.drop_last()).push(entries.last())
    } else {
        shown_level_entries(entries.drop_last())
    }
}

impl LevelEntry {
    /// A field-by-field copy.
    pub fn duplicate(&self) -> (r: Self)
        ensures
            r == *self,
    {
        LevelEntry {
            path: self.path.clone(),
            is_dir: self.is_dir,
            metadata: match &self.metadata {
                Ok(Some(m)) => Ok(Some(m.duplicate())),
                Ok(None) => Ok(None),
                Err(e) => Err(e.clone()),
            },
        }
    }
}

fn shown_level(entries: &Vec<LevelEntry>) -> (r: Vec<LevelEntry>)
    ensures
        r@ == shown_level_entries(entries@),
{
    let mut r: Vec<LevelEntry> = Vec::new();
    let mut i: usize = 0;
    while i < entries.len()
        invariant
            i <= entries@.len(),
            r@ == shown_level_entries(entries@.take(i as int)),
        decreases entries@.len() - i,
    {
        assert(entries@.take(i + 1).drop_last() =~= entries@.take(i as int));
        if is_entry_shown(entries[i].path.as_str()) {
            r.push(entries[i].duplicate());
        }
        i = i + 1;
    }
    assert(entries@.take(entries@.len() as int) =~= entries@);
    r
}

/// The elements kept in a level's folder (`container`, normalized), one
/// per shown entry (the organizer's bookkeeping files are skipped) in path
/// order and numbered in that order. At the root, an element already known
/// at that path keeps its identity. The scan fails with the message of the
/// first folder, in path order, whose drawer metadata could not be read.
pub fn scan_level(
    drawer_id: &str,
    known: &Vec<DrawerItem>,
    entries: &Vec<LevelEntry>,
    container: &str,
    now: u64,
) -> (r: Result<Vec<DrawerItem>, String>)
    ensures
        ({
            let es = shown_level_entries(entries@);
            let order = level_entries_in_order(es);
            &&& r is Ok <==> forall|k: int|
                0 <= k < order.len() ==> !unreadable(#[trigger] es[order[k] as int])
            &&& r matches Err(m) ==> exists|k: int|
                0 <= k < order.len() && unreadable(#[trigger] es[order[k] as int])
                    && es[order[k] as int].metadata == Err::<Option<DrawerMetadata>, String>(m)
                    && forall|j: int| 0 <= j < k ==> !unreadable(#[trigger] es[order[j] as int])
            &&& r matches Ok(items) ==> items@.len() == order.len() && forall|k: int|
                0 <= k < order.len() ==> scanned_entry(
                    #[trigger] items@[k],
                    k,
                    drawer_id@,
                    known@,
                    es,
                    order,
                    container@,
                    now,
                )
        }),
{
    let shown = shown_level(entries);
    scan_shown_level(drawer_id, known, &shown, container, now)
}

/// `scan_level` over entries already known to be shown.
fn scan_shown_level(
    drawer_id: &str,
    known: &Vec<DrawerItem>,
    entries: &Vec<LevelEntry>,
    container: &str,
    now: u64,
) -> (r: Result<Vec<DrawerItem>, String>)
    ensures
        ({
            let order = level_entries_in_order(entries@);
            &&& r is Ok <==> forall|k: int|
                0 <= k < order.len() ==> !unreadable(#[trigger] entries@[order[k] as int])
            &&& r matches Err(m) ==> exists|k: int|
                0 <= k < order.len() && unreadable(#[trigger] entries@[order[k] as int])
                    && entries@[order[k] as int].metadata == Err::<Option<DrawerMetadata>, String>(m)
                    && forall|j: int| 0 <= j < k ==> !unreadable(#[trigger] entries@[order[j] as int])
            &&& r matches Ok(items) ==> items@.len() == order.len() && forall|k: int|
                0 <= k < order.len() ==> scanned_entry(
                    #[trigger] items@[k],
                    k,
                    drawer_id@,
                    known@,
                    entries@,
                    order,
                    container@,
                    now,
                )
        }),
{
    let order = sort_level_entries(entries);
    let at_root = chars_of(container).len() == 0;
    let mut items: Vec<DrawerItem> = Vec::new();
    let mut k: usize = 0;
    while k < order.len()
        invariant
            k <= order@.len(),
            order@ == level_entries_in_order(entries@),
            forall|j: int| 0 <= j < order@.len() ==> (#[trigger] order@[j]) < entries@.len(),
            at_root == (container@.len() == 0),
            items@.len() == k,
            forall|j: int| 0 <= j < k ==> !unreadable(#[trigger] entries@[order@[j] as int]),
            forall|j: int|
                0 <= j < k ==> scanned_entry(
                    #[trigger] items@[j],
                    j,
                    drawer_id@,
                    known@,
                    entries@,
                    order@,
                    container@,
                    now,
                ),
        decreases order@.len() - k,
    {
        let e = &entries[order[k]];
        let meta: Option<DrawerMetadata> = if e.is_dir {
            match &e.metadata {
                Ok(Some(m)) => Some(m.duplicate()),
                Ok(None) => None,
                Err(message) => {
                    return Err(message.clone());
                },
            }
        } else {
            None
        };
        let key = comparable_path(e.path.as_str());
        let found = if at_root {
            find_managed(known, key.as_str())
        } else {
            None
        };
        let ghost before = items@;
        match found {
            Some(i) => {
                let mut item = known[i].duplicate();
                item.available = true;
                item.container_path = string_of(&chars_of(container));
                item.physical_name = match file_name(e.path.as_str()) {
                    Some(name) => name,
                    None => string_of(&chars_of(e.path.as_str())),
                };
                item.is_subdrawer = meta.is_some();
                items.push(item);
            },
            None => {
                let item_type = classify(e.path.as_str(), e.is_dir);
                let name = match &meta {
                    Some(m) => m.name.clone(),
                    None => display_name(e.path.as_str(), item_type),
                };
                let order_value: u32 = if k <= u32::MAX as usize {
                    k as u32
                } else {
                    u32::MAX
                };
                let item = create_item(
                    drawer_id,
                    e.path.as_str(),
                    item_type,
                    StorageMode::Managed,
                    name,
                    string_of(&chars_of(container)),
                    now,
                    order_value,
                    meta,
                    0,
                );
                items.push(item);
            },
        }
        assert forall|j: int| 0 <= j < k + 1 implies scanned_entry(
            #[trigger] items@[j],
            j,
            drawer_id@,
            known@,
            entries@,
            order@,
            container@,
            now,
        ) by {
            if j < k {
                assert(items@[j] == before[j]);
            }
        }
        k = k + 1;
    }
    Ok(items)
}

} // verus!

verus! {

/// The links shown on level `container` (normalized): marked available
/// when their target exists, with their file name filled in when missing,
/// and placed on that level.
pub open spec fn level_links(items: Seq<DrawerItem>, exists: Seq<bool>, container: Seq<char>) -> Seq<
    DrawerItem,
>
    decreases items.len(),
{
    if items.len() == 0 {
        Seq::empty()
    } else {
        let rest = level_links(items.drop_last(), exists, container);
        let last = items.last();
        if last.storage_mode == StorageMode::Linked && relative_matches_spec(
            last.container_path@,
            container,
        ) {
            rest.push(
                DrawerItem {
                    available: exists[items.len() - 1],
                    physical_name: last.physical_name,
                    container_path: last.container_path,
                    ..last
                },
            )
        } else {
            rest
        }
    }
}

pub open spec fn link_shown(item: DrawerItem, stored: DrawerItem, available: bool, container: Seq<char>) -> bool {
    &&& item == DrawerItem {
        available: available,
        physical_name: item.physical_name,
        container_path: item.container_path,
        ..stored
    }
    &&& item.physical_name@ == (if stored.physical_name@.len() == 0 {
        physical_name_of(stored.path@)
    } else {
        stored.physical_name@
    })
    &&& item.container_path@ == container
}

/// The links of level `container`, as `load_level` shows them.
pub fn shown_links(items: &Vec<DrawerItem>, exists: &Vec<bool>, container: &str) -> (r: Vec<
    DrawerItem,
>)
    requires
        exists@.len() == items@.len(),
    ensures
        r@.len() == level_links(items@, exists@, container@).len(),
        forall|k: int|
            0 <= k < r@.len() ==> {
                let stored = level_links(items@, exists@, container@)[k];
                link_shown(#[trigger] r@[k], stored, stored.available, container@)
            },
{
    let mut r: Vec<DrawerItem> = Vec::new();
    let mut i: usize = 0;
    while i < items.len()
        invariant
            i <= items@.len(),
            exists@.len() == items@.len(),
            r@.len() == level_links(items@.take(i as int), exists@, container@).len(),
            forall|k: int|
                0 <= k < r@.len() ==> {
                    let stored = level_links(items@.take(i as int), exists@, container@)[k];
                    link_shown(#[trigger] r@[k], stored, stored.available, container@)
                },
        decreases items@.len() - i,
    {
        assert(items@.take(i + 1).drop_last() =~= items@.take(i as int));
        let ghost before = r@;
        if items[i].storage_mode == StorageMode::Linked && relative_matches(
            items[i].container_path.as_str(),
            container,
        ) {
            let mut item = items[i].duplicate();
            item.available = exists[i];
            if chars_of(item.physical_name.as_str()).len() == 0 {
                item.physical_name = match file_name(item.path.as_str()) {
                    Some(name) => name,
                    None => string_of(&chars_of(item.path.as_str())),
                };
            }
            item.container_path = string_of(&chars_of(container));
            r.push(item);
            assert forall|k: int| 0 <= k < r@.len() implies {
                let stored = level_links(items@.take(i + 1), exists@, container@)[k];
                link_shown(#[trigger] r@[k], stored, stored.available, container@)
            } by {
                if k < before.len() {
                    assert(r@[k] == before[k]);
                }
            }
        }
        i = i + 1;
    }
    assert(items@.take(items@.len() as int) =~= items@);
    r
}

} // verus!

verus! {

impl DrawerContents {
    /// What level `container` (normalized) shows: the elements scanned in
    /// its folder and the links placed on it, in the level's manual order
    /// and then by lower-cased name, renumbered.
    pub fn level_items(&self, scanned: Vec<DrawerItem>, exists: &Vec<bool>, container: &str) -> (r:
        Vec<DrawerItem>)
        requires
            self.wf(),
            exists@.len() == self.items@.len(),
        ensures
            exists|links: Seq<DrawerItem>|
                {
                    &&& links.len() == level_links(self.items@, exists@, container@).len()
                    &&& forall|k: int|
                        0 <= k < links.len() ==> {
                            let stored = level_links(self.items@, exists@, container@)[k];
                            link_shown(#[trigger] links[k], stored, stored.available, container@)
                        }
                    &&& r@ == renumbered(
                        values_of(
                            stable_sorted(
                                level_keys(
                                    scanned@ + links,
                                    order_or_empty(
                                        self.level_orders.view(),
                                        relative_key_of(container@),
                                    ),
                                ),
                                false,
                            ),
                        ),
                    )
                },
    {
        let links = shown_links(&self.items, exists, container);
        let ghost lv = links@;
        let mut all = scanned;
        let ghost sv = all@;
        let mut i: usize = 0;
        while i < links.len()
            invariant
                i <= links@.len(),
                links@ == lv,
                all@ == sv + lv.take(i as int),
            decreases links@.len() - i,
        {
            all.push(links[i].duplicate());
            assert(all@ =~= sv + lv.take(i + 1));
            i = i + 1;
        }
        assert(lv.take(lv.len() as int) =~= lv);
        let key = relative_key(container);
        let order = self.level_orders.ids_or_empty(key.as_str());
        order_level_items(all, &order)
    }
}

} // verus!

verus! {

/// How a folder on the way down to a level is named: by its drawer metadata
/// when it has one, else by the folder's own name.
pub open spec fn crumb_name(part: Seq<char>, found: Option<String>) -> Seq<char> {
    match found {
        Some(n) => n@,
        None => part,
    }
}

/// The trail shown above a level: the drawer itself, then each folder on
/// the way down. `parts` are the components of the level's path and
/// `names[k]` is the name kept in the metadata of the folder reached after
/// `k + 1` components, when it has metadata.
pub fn breadcrumbs(drawer_name: &str, parts: &Vec<String>, names: &Vec<Option<String>>) -> (r: Vec<
    DrawerBreadcrumb,
>)
    requires
        names.len() == parts.len(),
    ensures
        r.len() == parts.len() + 1,
        r[0].name@ == drawer_name@,
        r[0].relative_path@ == Seq::<char>::empty(),
        forall|k: int|
            0 <= k < parts.len() ==> {
                &&& (#[trigger] r[k + 1]).name@ == crumb_name(parts[k]@, names[k])
                &&& r[k + 1].relative_path@ == join_backslash(texts(parts@).take(k + 1))
            },
{
    let mut r: Vec<DrawerBreadcrumb> = Vec::new();
    r.push(DrawerBreadcrumb { name: drawer_name.to_string(), relative_path: String::new() });
    let mut acc: Vec<char> = Vec::new();
    let mut k: usize = 0;
    assert(texts(parts@).take(0) =~= Seq::<Seq<char>>::empty());
    while k < parts.len()
        invariant
            k <= parts.len(),
            names.len() == parts.len(),
            r.len() == k + 1,
            r[0].name@ == drawer_name@,
            r[0].relative_path@ == Seq::<char>::empty(),
            acc@ == join_backslash(texts(parts@).take(k as int)),
            forall|j: int|
                0 <= j < k ==> {
                    &&& (#[trigger] r[j + 1]).name@ == crumb_name(parts[j]@, names[j])
                    &&& r[j + 1].relative_path@ == join_backslash(texts(parts@).take(j + 1))
                },
        decreases parts.len() - k,
    {
        let part = chars_of(parts[k].as_str());
        let ghost t = texts(parts@);
        proof {
            assert(t[k as int] == parts[k as int]@);
            assert(t.take(k + 1).drop_last() =~= t.take(k as int));
            assert(t.take(k + 1).last() == t[k as int]);
        }
        if k == 0 {
            acc = part;
        } else {
            acc.push('\\');
            acc = concat_chars(&acc, &part);
        }
        assert(acc@ == join_backslash(t.take(k + 1)));
        let name = match &names[k] {
            Some(n) => n.clone(),
            None => parts[k].clone(),
        };
        r.push(DrawerBreadcrumb { name, relative_path: string_of(&acc) });
        k = k + 1;
    }
    r
}

} // verus!

verus! {

proof fn lemma_shown_folder_entries(entries: Seq<FolderEntry>)
    ensures
        shown_folder_entries(entries).len() <= entries.len(),
        forall|k: int|
            0 <= k < shown_folder_entries(entries).len() ==> entry_shown(
                (#[trigger] shown_folder_entries(entries)[k]).path@,
            ) && entries.contains(shown_folder_entries(entries)[k]),
        forall|j: int|
            0 <= j < entries.len() && entry_shown((#[trigger] entries[j]).path@)
                ==> shown_folder_entries(entries).contains(entries[j]),
    decreases entries.len(),
{
    if entries.len() > 0 {
        let rest = entries.drop_last();
        lemma_shown_folder_entries(rest);
        let s = shown_folder_entries(entries);
        let sr = shown_folder_entries(rest);
        assert forall|k: int| 0 <= k < s.len() implies entry_shown((#[trigger] s[k]).path@)
            && entries.contains(s[k]) by {
            if k < sr.len() {
                assert(s[k] == sr[k]);
                let w = choose|w: int| 0 <= w < rest.len() && rest[w] == sr[k];
                assert(entries[w] == rest[w]);
            } else {
                assert(entry_shown(entries.last().path@));
                assert(s[k] == entries.last());
                assert(entries[entries.len() - 1] == entries.last());
            }
        }
        assert forall|j: int| 0 <= j < entries.len() && entry_shown((#[trigger] entries[j]).path@)
            implies s.contains(entries[j]) by {
            if j < entries.len() - 1 {
                assert(rest[j] == entries[j]);
                let w = choose|w: int| 0 <= w < sr.len() && sr[w] == entries[j];
                assert(s[w] == sr[w]);
            } else {
                assert(s[s.len() - 1] == entries[j]);
            }
        }
    }
}

proof fn lemma_refreshed_links(items: Seq<DrawerItem>, exists: Seq<bool>)
    ensures
        forall|k: int|
            0 <= k < refreshed_links(items, exists).len() ==> exists|i: int|
                0 <= i < items.len() && items[i].storage_mode == StorageMode::Linked && (
                #[trigger] refreshed_links(items, exists)[k]) == (DrawerItem {
                    available: exists[i],
                    ..items[i]
                }),
        forall|i: int|
            0 <= i < items.len() && (#[trigger] items[i]).storage_mode == StorageMode::Linked
                ==> refreshed_links(items, exists).contains((DrawerItem { available: exists[i], ..items[i] })),
    decreases items.len(),
{
    if items.len() > 0 {
        let rest = items.drop_last();
        lemma_refreshed_links(rest, exists);
        let s = refreshed_links(items, exists);
        let sr = refreshed_links(rest, exists);
        let last = items.len() - 1;
        assert forall|k: int| 0 <= k < s.len() implies exists|i: int|
            0 <= i < items.len() && items[i].storage_mode == StorageMode::Linked && (
            #[trigger] s[k]) == (DrawerItem { available: exists[i], ..items[i] }) by {
            if k < sr.len() {
                assert(s[k] == sr[k]);
                let w = choose|w: int|
                    0 <= w < rest.len() && rest[w].storage_mode == StorageMode::Linked && sr[k] == (
                    DrawerItem { available: exists[w], ..rest[w] });
                assert(items[w] == rest[w]);
            } else {
                assert(items[last] == items.last());
                assert(s[k] == (DrawerItem { available: exists[last], ..items[last] }));
            }
        }
        assert forall|i: int|
            0 <= i < items.len() && (#[trigger] items[i]).storage_mode == StorageMode::Linked
                implies s.contains((DrawerItem { available: exists[i], ..items[i] })) by {
            if i < last {
                assert(rest[i] == items[i]);
                let w = choose|w: int|
                    0 <= w < sr.len() && sr[w] == (DrawerItem { available: exists[i], ..rest[i] });
                assert(s[w] == sr[w]);
            } else {
                assert(items[last] == items.last());
                assert(s[s.len() - 1] == (DrawerItem { available: exists[i], ..items[i] }));
            }
        }
    }
}

proof fn lemma_last_root_managed(items: Seq<DrawerItem>, key: Seq<char>, end: int)
    requires
        end <= items.len(),
    ensures
        last_root_managed(items, key, end) matches Some(i) ==> 0 <= i < end
            && items[i].storage_mode == StorageMode::Managed,
    decreases end,
{
    if end > 0 {
        lemma_last_root_managed(items, key, end - 1);
    }
}

proof fn lemma_rebuilt_entry_facts(
    item: DrawerItem,
    n: int,
    drawer_id: Seq<char>,
    previous: Seq<DrawerItem>,
    entries: Seq<FolderEntry>,
    order: Seq<usize>,
    start: u32,
    now: u64,
)
    requires
        rebuilt_entry(item, n, drawer_id, previous, entries, order, start, now),
    ensures
        item.storage_mode == StorageMode::Managed,
        item.available,
        item.container_path@.len() == 0,
        item.path@ == entries[order[n] as int].path@,
{
    let e = entries[order[n] as int];
    lemma_last_root_managed(previous, path_key(e.path@), previous.len() as int);
}

/// Every position of a list of entries appears in their path order.
proof fn lemma_entry_order_covers(entries: Seq<FolderEntry>)
    ensures
        entries_in_order(entries).len() == entries.len(),
        forall|m: usize|
            m < entries.len() ==> #[trigger] entries_in_order(entries).contains(m),
{
    let s = entry_keys(entries);
    let sorted = stable_sorted(s, false);
    crate::sorting::lemma_stable_sorted_len(s, false);
    crate::sorting::lemma_stable_sorted_permutes(s, false);
    assert forall|m: usize| m < entries.len() implies #[trigger] entries_in_order(entries).contains(
        m,
    ) by {
        let mi = m as int;
        vstd::seq_lib::to_multiset_contains(s, s[mi]);
        vstd::seq_lib::to_multiset_contains(sorted, s[mi]);
        assert(s.contains(s[mi]));
        let k = choose|k: int| 0 <= k < sorted.len() && sorted[k] == s[mi];
        assert(entries_in_order(entries)[k] == sorted[k].2);
    }
}

/// Sorting by stored order only rearranges, and puts lower numbers first.
proof fn lemma_by_order_rearranges(pre: Seq<DrawerItem>)
    ensures
        ({
            let r = values_of(stable_sorted(drawer_by_order(pre), false));
            &&& r.len() == pre.len()
            &&& forall|k: int| 0 <= k < r.len() ==> exists|w: int| 0 <= w < pre.len() && #[trigger] r[k] == pre[w]
            &&& forall|i: int, j: int| 0 <= i < j < r.len() ==> (#[trigger] r[i]).order <= (#[trigger] r[j]).order
        }),
{
    let keyed = drawer_by_order(pre);
    let sorted = stable_sorted(keyed, false);
    let r = values_of(sorted);
    crate::sorting::lemma_stable_sorted_len(keyed, false);
    crate::sorting::lemma_stable_sorted_in_order(keyed, false);
    crate::sorting::lemma_stable_sorted_permutes(keyed, false);
    assert forall|k: int| 0 <= k < r.len() implies exists|w: int|
        0 <= w < pre.len() && #[trigger] r[k] == pre[w] && sorted[k] == keyed[w] by {
        vstd::seq_lib::to_multiset_contains(sorted, sorted[k]);
        vstd::seq_lib::to_multiset_contains(keyed, sorted[k]);
        assert(sorted.contains(sorted[k]));
        let w = choose|w: int| 0 <= w < keyed.len() && keyed[w] == sorted[k];
        assert(keyed[w].2 == pre[w]);
    }
    assert forall|i: int, j: int| 0 <= i < j < r.len() implies (#[trigger] r[i]).order
        <= (#[trigger] r[j]).order by {
        assert(!crate::sorting::key_before(sorted[j], sorted[i], false));
        let wi = choose|w: int| 0 <= w < pre.len() && r[i] == pre[w] && sorted[i] == keyed[w];
        let wj = choose|w: int| 0 <= w < pre.len() && r[j] == pre[w] && sorted[j] == keyed[w];
    }
}

/// Sorting by stored order keeps each element.
proof fn lemma_by_order_keeps(pre: Seq<DrawerItem>, w: int)
    requires
        0 <= w < pre.len(),
    ensures
        values_of(stable_sorted(drawer_by_order(pre), false)).contains(pre[w]),
{
    let keyed = drawer_by_order(pre);
    let sorted = stable_sorted(keyed, false);
    crate::sorting::lemma_stable_sorted_len(keyed, false);
    crate::sorting::lemma_stable_sorted_permutes(keyed, false);
    vstd::seq_lib::to_multiset_contains(sorted, keyed[w]);
    vstd::seq_lib::to_multiset_contains(keyed, keyed[w]);
    assert(keyed.contains(keyed[w]));
    let k = choose|k: int| 0 <= k < sorted.len() && sorted[k] == keyed[w];
    assert(values_of(sorted)[k] == sorted[k].2);
}

proof fn lemma_unsorted_sync_facts(
    pre: Seq<DrawerItem>,
    drawer_id: Seq<char>,
    previous: Seq<DrawerItem>,
    exists: Seq<bool>,
    shown: Seq<FolderEntry>,
    now: u64,
)
    requires
        shown.len() <= usize::MAX,
        unsorted_sync(pre, drawer_id, previous, exists, shown, now),
    ensures
        ({
            let links = refreshed_links(previous, exists);
            let order = entries_in_order(shown);
            let n = links.len();
            &&& pre.len() == n + shown.len()
            &&& order.len() == shown.len()
            &&& forall|w: int| 0 <= w < n ==> #[trigger] pre[w] == links[w]
            &&& forall|kk: int|
                0 <= kk < order.len() ==> {
                    &&& order[kk] < shown.len()
                    &&& (#[trigger] pre[n + kk]).storage_mode == StorageMode::Managed
                    &&& pre[n + kk].available
                    &&& pre[n + kk].container_path@.len() == 0
                    &&& pre[n + kk].path@ == shown[order[kk] as int].path@
                }
        }),
{
    let links = refreshed_links(previous, exists);
    let order = entries_in_order(shown);
    let n = links.len();
    lemma_entry_order_range(shown);
    lemma_entry_order_covers(shown);
    assert forall|w: int| 0 <= w < n implies #[trigger] pre[w] == links[w] by {
        assert(pre.take(n as int)[w] == pre[w]);
    }
    assert forall|kk: int| 0 <= kk < order.len() implies {
        &&& (#[trigger] pre[n + kk]).storage_mode == StorageMode::Managed
        &&& pre[n + kk].available
        &&& pre[n + kk].container_path@.len() == 0
        &&& pre[n + kk].path@ == shown[order[kk] as int].path@
    } by {
        lemma_rebuilt_entry_facts(
            pre[n + kk],
            kk,
            drawer_id,
            previous,
            shown,
            order,
            max_order(links),
            now,
        );
    }
}

/// What a rescan lists. Every link of the drawer stays, marked available
/// exactly when its target exists, and no other link appears. Every other
/// element is kept at the root of the drawer's folder, available, at the
/// path of a folder entry, and never at one of the organizer's bookkeeping
/// files (`.drawer.json`, its archived siblings, half-finished transfers);
/// each folder entry that is not such a file is listed. The list holds one
/// element per link and per shown entry, in stored order.
proof fn lemma_sync_lists_core(
    previous: Seq<DrawerItem>,
    exists: Seq<bool>,
    entries: Seq<FolderEntry>,
    pre: Seq<DrawerItem>,
    r: Seq<DrawerItem>,
)
    requires
        entries.len() <= usize::MAX,
        ({
            let shown = shown_folder_entries(entries);
            let links = refreshed_links(previous, exists);
            let order = entries_in_order(shown);
            let n = links.len();
            &&& pre.len() == n + shown.len()
            &&& order.len() == shown.len()
            &&& forall|w: int| 0 <= w < n ==> #[trigger] pre[w] == links[w]
            &&& forall|kk: int|
                0 <= kk < order.len() ==> {
                    &&& order[kk] < shown.len()
                    &&& (#[trigger] pre[n + kk]).storage_mode == StorageMode::Managed
                    &&& pre[n + kk].available
                    &&& pre[n + kk].container_path@.len() == 0
                    &&& pre[n + kk].path@ == shown[order[kk] as int].path@
                }
        }),
        r.len() == pre.len(),
        forall|k: int| 0 <= k < r.len() ==> exists|w: int| 0 <= w < pre.len() && #[trigger] r[k] == pre[w],
        r == values_of(stable_sorted(drawer_by_order(pre), false)),
        forall|i: int, j: int| 0 <= i < j < r.len() ==> (#[trigger] r[i]).order <= (#[trigger] r[j]).order,
    ensures
        r.len() == refreshed_links(previous, exists).len() + shown_folder_entries(entries).len(),
        forall|i: int|
            0 <= i < previous.len() && (#[trigger] previous[i]).storage_mode == StorageMode::Linked
                ==> r.contains((DrawerItem { available: exists[i], ..previous[i] })),
        forall|k: int|
            0 <= k < r.len() && (#[trigger] r[k]).storage_mode == StorageMode::Linked ==> exists|
                i: int,
            |
                0 <= i < previous.len() && previous[i].storage_mode == StorageMode::Linked && r[k]
                    == (DrawerItem { available: exists[i], ..previous[i] }),
        forall|k: int|
            0 <= k < r.len() && (#[trigger] r[k]).storage_mode == StorageMode::Managed ==> {
                &&& r[k].available
                &&& r[k].container_path@.len() == 0
                &&& exists|j: int| 0 <= j < entries.len() && entries[j].path@ == r[k].path@
                &&& file_name_of(r[k].path@) matches Some(f) ==> {
                    &&& !eq_ignore_ascii_case(f, ".drawer.json"@)
                    &&& !".drawer.json."@.is_prefix_of(f)
                    &&& !".desktop-organizer-transfer-"@.is_prefix_of(f)
                }
            },
        forall|j: int|
            0 <= j < entries.len() && !(file_name_of((#[trigger] entries[j]).path@) matches Some(f)
                && internal_file_name(f)) ==> exists|k: int|
                0 <= k < r.len() && r[k].storage_mode == StorageMode::Managed && r[k].path@
                    == entries[j].path@,
        forall|i: int, j: int| 0 <= i < j < r.len() ==> (#[trigger] r[i]).order <= (#[trigger] r[j]).order,
{
    let shown = shown_folder_entries(entries);
    let links = refreshed_links(previous, exists);
    let order = entries_in_order(shown);
    let n = links.len();
    assert forall|i: int|
        0 <= i < previous.len() && (#[trigger] previous[i]).storage_mode == StorageMode::Linked
            implies r.contains((DrawerItem { available: exists[i], ..previous[i] })) by {
        lemma_refreshed_links(previous, exists);
        let x = DrawerItem { available: exists[i], ..previous[i] };
        assert(links.contains(x));
        let m = choose|m: int| 0 <= m < links.len() && links[m] == x;
        assert(pre[m] == links[m]);
        lemma_by_order_keeps(pre, m);
    }
    assert forall|k: int| 0 <= k < r.len() implies {
        &&& ((#[trigger] r[k]).storage_mode == StorageMode::Linked ==> exists|i: int|
            0 <= i < previous.len() && previous[i].storage_mode == StorageMode::Linked && r[k]
                == (DrawerItem { available: exists[i], ..previous[i] }))
        &&& (r[k].storage_mode == StorageMode::Managed ==> {
            &&& r[k].available
            &&& r[k].container_path@.len() == 0
            &&& exists|j: int| 0 <= j < entries.len() && entries[j].path@ == r[k].path@
            &&& entry_shown(r[k].path@)
        })
    } by {
        let w = choose|w: int| 0 <= w < pre.len() && r[k] == pre[w];
        if w < n {
            lemma_refreshed_links(previous, exists);
            assert(pre[w] == links[w]);
            let i = choose|i: int|
                0 <= i < previous.len() && previous[i].storage_mode == StorageMode::Linked && (
                links[w]) == (DrawerItem { available: exists[i], ..previous[i] });
        } else {
            lemma_shown_folder_entries(entries);
            let kk = w - n;
            assert(pre[n + kk].storage_mode == StorageMode::Managed);
            let e = shown[order[kk] as int];
            assert(entry_shown(e.path@) && entries.contains(e));
            let j = choose|j: int| 0 <= j < entries.len() && entries[j] == e;
        }
    }
    assert forall|j: int|
        0 <= j < entries.len() && !(file_name_of((#[trigger] entries[j]).path@) matches Some(f)
            && internal_file_name(f)) implies exists|k: int|
        0 <= k < r.len() && r[k].storage_mode == StorageMode::Managed && r[k].path@
            == entries[j].path@ by {
        lemma_shown_folder_entries(entries);
        lemma_entry_order_covers(shown);
        assert(entry_shown(entries[j].path@));
        assert(shown.contains(entries[j]));
        let m = choose|m: int| 0 <= m < shown.len() && shown[m] == entries[j];
        assert(order.contains(m as usize));
        let kk = choose|kk: int| 0 <= kk < order.len() && order[kk] == m as usize;
        assert(pre[n + kk].path@ == shown[order[kk] as int].path@);
        assert(pre[n + kk].path@ == entries[j].path@);
        lemma_by_order_keeps(pre, n + kk);
    }
}

pub proof fn lemma_sync_lists_links_and_entries(
    drawer_id: Seq<char>,
    previous: Seq<DrawerItem>,
    exists: Seq<bool>,
    entries: Seq<FolderEntry>,
    now: u64,
    r: Seq<DrawerItem>,
)
    requires
        exists.len() == previous.len(),
        entries.len() <= usize::MAX,
        exists|pre: Seq<DrawerItem>|
            unsorted_sync(pre, drawer_id, previous, exists, shown_folder_entries(entries), now)
                && r == values_of(stable_sorted(drawer_by_order(pre), false)),
    ensures
        r.len() == refreshed_links(previous, exists).len() + shown_folder_entries(entries).len(),
        forall|i: int|
            0 <= i < previous.len() && (#[trigger] previous[i]).storage_mode == StorageMode::Linked
                ==> r.contains((DrawerItem { available: exists[i], ..previous[i] })),
        forall|k: int|
            0 <= k < r.len() && (#[trigger] r[k]).storage_mode == StorageMode::Linked ==> exists|
                i: int,
            |
                0 <= i < previous.len() && previous[i].storage_mode == StorageMode::Linked && r[k]
                    == (DrawerItem { available: exists[i], ..previous[i] }),
        forall|k: int|
            0 <= k < r.len() && (#[trigger] r[k]).storage_mode == StorageMode::Managed ==> {
                &&& r[k].available
                &&& r[k].container_path@.len() == 0
                &&& exists|j: int| 0 <= j < entries.len() && entries[j].path@ == r[k].path@
                &&& file_name_of(r[k].path@) matches Some(f) ==> {
                    &&& !eq_ignore_ascii_case(f, ".drawer.json"@)
                    &&& !".drawer.json."@.is_prefix_of(f)
                    &&& !".desktop-organizer-transfer-"@.is_prefix_of(f)
                }
            },
        forall|j: int|
            0 <= j < entries.len() && !(file_name_of((#[trigger] entries[j]).path@) matches Some(f)
                && internal_file_name(f)) ==> exists|k: int|
                0 <= k < r.len() && r[k].storage_mode == StorageMode::Managed && r[k].path@
                    == entries[j].path@,
        forall|i: int, j: int| 0 <= i < j < r.len() ==> (#[trigger] r[i]).order <= (#[trigger] r[j]).order,
{
    let pre = choose|pre: Seq<DrawerItem>|
        unsorted_sync(pre, drawer_id, previous, exists, shown_folder_entries(entries), now) && r
            == values_of(stable_sorted(drawer_by_order(pre), false));
    assert(shown_folder_entries(entries).len() <= usize::MAX) by {
        lemma_shown_folder_entries(entries);
    }
    lemma_unsorted_sync_facts(pre, drawer_id, previous, exists, shown_folder_entries(entries), now);
    lemma_by_order_rearranges(pre);
    lemma_sync_lists_core(previous, exists, entries, pre, r);
}

} // verus!

verus! {

proof fn lemma_shown_level_entries(entries: Seq<LevelEntry>)
    ensures
        shown_level_entries(entries).len() <= entries.len(),
        forall|k: int|
            0 <= k < shown_level_entries(entries).len() ==> entry_shown(
                (#[trigger] shown_level_entries(entries)[k]).path@,
            ) && entries.contains(shown_level_entries(entries)[k]),
        forall|j: int|
            0 <= j < entries.len() && entry_shown((#[trigger] entries[j]).path@)
                ==> shown_level_entries(entries).contains(entries[j]),
    decreases entries.len(),
{
    if entries.len() > 0 {
        let rest = entries.drop_last();
        lemma_shown_level_entries(rest);
        let s = shown_level_entries(entries);
        let sr = shown_level_entries(rest);
        assert forall|k: int| 0 <= k < s.len() implies entry_shown((#[trigger] s[k]).path@)
            && entries.contains(s[k]) by {
            if k < sr.len() {
                assert(s[k] == sr[k]);
                let w = choose|w: int| 0 <= w < rest.len() && rest[w] == sr[k];
                assert(entries[w] == rest[w]);
            } else {
                assert(entry_shown(entries.last().path@));
                assert(s[k] == entries.last());
                assert(entries[entries.len() - 1] == entries.last());
            }
        }
        assert forall|j: int| 0 <= j < entries.len() && entry_shown((#[trigger] entries[j]).path@)
            implies s.contains(entries[j]) by {
            if j < entries.len() - 1 {
                assert(rest[j] == entries[j]);
                let w = choose|w: int| 0 <= w < sr.len() && sr[w] == entries[j];
                assert(s[w] == sr[w]);
            } else {
                assert(s[s.len() - 1] == entries[j]);
            }
        }
    }
}

proof fn lemma_level_order_facts(es: Seq<LevelEntry>)
    requires
        es.len() <= usize::MAX,
    ensures
        level_entries_in_order(es).len() == es.len(),
        forall|k: int|
            0 <= k < es.len() ==> (#[trigger] level_entries_in_order(es)[k]) < es.len(),
        forall|m: usize| m < es.len() ==> #[trigger] level_entries_in_order(es).contains(m),
        forall|i: int, j: int|
            0 <= i < j < es.len() ==> !lex_lt(
                path_key(es[(#[trigger] level_entries_in_order(es)[j]) as int].path@),
                path_key(es[(#[trigger] level_entries_in_order(es)[i]) as int].path@),
            ),
{
    let s = level_entry_keys(es);
    let sorted = stable_sorted(s, false);
    let order = level_entries_in_order(es);
    crate::sorting::lemma_stable_sorted_len(s, false);
    crate::sorting::lemma_stable_sorted_permutes(s, false);
    crate::sorting::lemma_stable_sorted_in_order(s, false);
    assert forall|k: int| 0 <= k < sorted.len() implies (#[trigger] sorted[k]).2 < es.len()
        && sorted[k].0 == 0 && sorted[k].1 == path_key(es[sorted[k].2 as int].path@) by {
        vstd::seq_lib::to_multiset_contains(sorted, sorted[k]);
        vstd::seq_lib::to_multiset_contains(s, sorted[k]);
        assert(sorted.contains(sorted[k]));
        let w = choose|w: int| 0 <= w < s.len() && s[w] == sorted[k];
    }
    assert forall|k: int| 0 <= k < es.len() implies (#[trigger] order[k]) < es.len() by {
        assert(order[k] == sorted[k].2);
    }
    assert forall|m: usize| m < es.len() implies #[trigger] order.contains(m) by {
        let mi = m as int;
        vstd::seq_lib::to_multiset_contains(s, s[mi]);
        vstd::seq_lib::to_multiset_contains(sorted, s[mi]);
        assert(s.contains(s[mi]));
        let k = choose|k: int| 0 <= k < sorted.len() && sorted[k] == s[mi];
        assert(order[k] == sorted[k].2);
    }
    assert forall|i: int, j: int| 0 <= i < j < es.len() implies !lex_lt(
        path_key(es[(#[trigger] order[j]) as int].path@),
        path_key(es[(#[trigger] order[i]) as int].path@),
    ) by {
        assert(!crate::sorting::key_before(sorted[j], sorted[i], false));
        assert(order[i] == sorted[i].2 && order[j] == sorted[j].2);
    }
}

proof fn lemma_last_managed(items: Seq<DrawerItem>, key: Seq<char>, end: int)
    requires
        end <= items.len(),
    ensures
        last_managed(items, key, end) matches Some(i) ==> 0 <= i < end
            && items[i].storage_mode == StorageMode::Managed && path_key(items[i].path@) == key,
    decreases end,
{
    if end > 0 {
        lemma_last_managed(items, key, end - 1);
    }
}

proof fn lemma_scanned_entry_facts(
    item: DrawerItem,
    k: int,
    drawer_id: Seq<char>,
    known: Seq<DrawerItem>,
    es: Seq<LevelEntry>,
    order: Seq<usize>,
    container: Seq<char>,
    now: u64,
)
    requires
        scanned_entry(item, k, drawer_id, known, es, order, container, now),
    ensures
        item.storage_mode == StorageMode::Managed,
        item.available,
        item.container_path@ == container,
        path_key(item.path@) == path_key(es[order[k] as int].path@),
{
    let e = es[order[k] as int];
    lemma_last_managed(known, path_key(e.path@), known.len() as int);
}

/// What scanning a level lists: one element kept in the level's folder
/// per entry that is not one of the organizer's bookkeeping files, each
/// available, on that level and at that entry's path (by key), in path
/// order.
pub proof fn lemma_scan_lists_shown_entries(
    drawer_id: Seq<char>,
    known: Seq<DrawerItem>,
    entries: Seq<LevelEntry>,
    container: Seq<char>,
    now: u64,
    items: Seq<DrawerItem>,
)
    requires
        entries.len() <= usize::MAX,
        ({
            let es = shown_level_entries(entries);
            let order = level_entries_in_order(es);
            &&& items.len() == order.len()
            &&& forall|k: int|
                0 <= k < order.len() ==> scanned_entry(
                    #[trigger] items[k],
                    k,
                    drawer_id,
                    known,
                    es,
                    order,
                    container,
                    now,
                )
        }),
    ensures
        items.len() == shown_level_entries(entries).len(),
        forall|k: int|
            0 <= k < items.len() ==> {
                &&& (#[trigger] items[k]).storage_mode == StorageMode::Managed
                &&& items[k].available
                &&& items[k].container_path@ == container
                &&& exists|j: int|
                    0 <= j < entries.len() && !(file_name_of(entries[j].path@) matches Some(f)
                        && internal_file_name(f)) && path_key(items[k].path@) == path_key(
                        entries[j].path@,
                    )
            },
        forall|j: int|
            0 <= j < entries.len() && !(file_name_of((#[trigger] entries[j]).path@) matches Some(f)
                && internal_file_name(f)) ==> exists|k: int|
                0 <= k < items.len() && path_key(items[k].path@) == path_key(entries[j].path@),
        forall|i: int, j: int|
            0 <= i < j < items.len() ==> !lex_lt(
                path_key((#[trigger] items[j]).path@),
                path_key((#[trigger] items[i]).path@),
            ),
{
    let es = shown_level_entries(entries);
    let order = level_entries_in_order(es);
    assert(es.len() <= usize::MAX) by {
        lemma_shown_level_entries(entries);
    }
    lemma_level_order_facts(es);
    assert forall|k: int| 0 <= k < items.len() implies {
        &&& (#[trigger] items[k]).storage_mode == StorageMode::Managed
        &&& items[k].available
        &&& items[k].container_path@ == container
        &&& path_key(items[k].path@) == path_key(es[order[k] as int].path@)
    } by {
        lemma_scanned_entry_facts(items[k], k, drawer_id, known, es, order, container, now);
    }
    assert forall|k: int| 0 <= k < items.len() implies exists|j: int|
        0 <= j < entries.len() && !(file_name_of(entries[j].path@) matches Some(f)
            && internal_file_name(f)) && path_key((#[trigger] items[k]).path@) == path_key(
            entries[j].path@,
        ) by {
        lemma_shown_level_entries(entries);
        let e = es[order[k] as int];
        assert(entry_shown(e.path@) && entries.contains(e));
        let j = choose|j: int| 0 <= j < entries.len() && entries[j] == e;
    }
    assert forall|j: int|
        0 <= j < entries.len() && !(file_name_of((#[trigger] entries[j]).path@) matches Some(f)
            && internal_file_name(f)) implies exists|k: int|
        0 <= k < items.len() && path_key(items[k].path@) == path_key(entries[j].path@) by {
        lemma_shown_level_entries(entries);
        assert(entry_shown(entries[j].path@));
        assert(es.contains(entries[j]));
        let m = choose|m: int| 0 <= m < es.len() && es[m] == entries[j];
        assert(order.contains(m as usize));
        let k = choose|k: int| 0 <= k < order.len() && order[k] == m as usize;
        assert(path_key(items[k].path@) == path_key(es[order[k] as int].path@));
    }
    assert forall|i: int, j: int| 0 <= i < j < items.len() implies !lex_lt(
        path_key((#[trigger] items[j]).path@),
        path_key((#[trigger] items[i]).path@),
    ) by {
        assert(path_key(items[i].path@) == path_key(es[order[i] as int].path@));
        assert(path_key(items[j].path@) == path_key(es[order[j] as int].path@));
    }
}

} // verus!
