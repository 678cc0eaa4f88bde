//! The Dock's own folder: which launchers live directly in it, what its
//! hidden metadata records, how the list of launchers is rebuilt from the
//! folder's contents, and where an added or removed element goes.
use vstd::prelude::*;

use crate::dock::{index_order, next_order_after, resequence, resequenced};
use crate::icons::{icon_key_of, IconService};
use crate::ids::{new_id, uuid_text};
use crate::items::{
    classify, display_name, display_name_of, extension_is, file_name, file_name_of,
    has_extension, item_type_of, lemma_file_name_after, segment_start, trimmed_end,
};
use crate::model::{DockItem, DockItemKind, DrawerItemType};
use crate::paths::{comparable_path, keys_within, path_key, within_keys};
use crate::order_map::lemma_lex_irreflexive;
use crate::sorting::{
    key_before, keyed_views, lemma_stable_sorted_of_sorted, stable_sort, stable_sorted, values_of,
    Keyed, KeyedView,
};
use crate::storage::{
    join_path, joined_path, strip_spaces_and_dots, underscore_forbidden, underscored,
    StorageService,
};
use crate::text::{
    chars_eq_ignore_ascii_case, chars_of, contains_text, first_occurrence, eq_ignore_ascii_case, has_prefix, push_str, str_eq,
    string_of, strip_both, take_chars, to_lowercase, trim_seq, trimmed_chars, unicode_lowercase,
};

verus! {

/// One entry of the Dock folder's `.dock.json`: a launcher's identity,
/// visible name and place, and the file it stands for.
#[derive(Clone, Debug)]
pub struct DockRecord {
    pub id: String,
    pub kind: DockItemKind,
    pub physical_name: Option<String>,
    pub display_name: String,
    pub order: u32,
    pub created_at: u64,
}

/// A file or folder found directly in the Dock folder.
#[derive(Clone, Debug)]
pub struct DockDiskEntry {
    pub name: String,
    pub path: String,
    pub is_dir: bool,
}

/// Where an element of a rebuilt Dock comes from.
pub enum DockSource {
    /// A separator recorded in the metadata (record index).
    Separator(usize),
    /// A launcher of the current list that lives outside the folder.
    Legacy(usize),
    /// A recorded launcher whose file is in the folder (record, entry).
    Disk(usize, usize),
    /// A file of the folder no record mentions (entry).
    Fresh(usize),
}

/// The text of `path` up to its last component: its parent.
pub open spec fn parent_text(p: Seq<char>) -> Seq<char> {
    p.take(segment_start(p, trimmed_end(p, p.len() as int)))
}

/// A launcher kept directly in the Dock folder, not below it.
pub open spec fn direct_entry(path: Seq<char>, dock: Seq<char>) -> bool {
    within_keys(path_key(path), path_key(dock)) && path_key(parent_text(path)) == path_key(dock)
}

pub fn is_direct_dock_entry(path: &str, dock: &str) -> (r: bool)
    ensures
        r == direct_entry(path@, dock@),
{
    let a = comparable_path(path);
    let b = comparable_path(dock);
    let va = chars_of(a.as_str());
    let vb = chars_of(b.as_str());
    if !keys_within(&va, &vb) {
        return false;
    }
    let p = chars_of(path);
    let end = trimmed_end_index(&p);
    let start = segment_start_index(&p, end);
    let parent = string_of(&take_prefix(&p, start));
    let c = comparable_path(parent.as_str());
    str_eq(c.as_str(), b.as_str())
}

fn trimmed_end_index(p: &Vec<char>) -> (r: usize)
    ensures
        r == trimmed_end(p@, p@.len() as int),
        r <= p@.len(),
{
    let mut end = p.len();
    while end > 0 && (p[end - 1] == '\\' || p[end - 1] == '/')
        invariant
            end <= p@.len(),
            trimmed_end(p@, p@.len() as int) == trimmed_end(p@, end as int),
        decreases end,
    {
        end = end - 1;
    }
    end
}

fn segment_start_index(p: &Vec<char>, end: usize) -> (r: usize)
    requires
        end <= p@.len(),
    ensures
        r == segment_start(p@, end as int),
        r <= end,
{
    let mut start = end;
    while start > 0 && !(p[start - 1] == '\\' || p[start - 1] == '/')
        invariant
            start <= end <= p@.len(),
            segment_start(p@, end as int) == segment_start(p@, start as int),
        decreases start,
    {
        start = start - 1;
    }
    start
}

fn take_prefix(p: &Vec<char>, n: usize) -> (r: Vec<char>)
    requires
        n <= p@.len(),
    ensures
        r@ == p@.take(n as int),
{
    let mut r: Vec<char> = Vec::new();
    let mut i: usize = 0;
    while i < n
        invariant
            i <= n <= p@.len(),
            r@ == p@.take(i as int),
        decreases n - i,
    {
        r.push(p[i]);
        assert(p@.take(i as int).push(p@[i as int]) =~= p@.take(i + 1));
        i = i + 1;
    }
    r
}

/// The metadata entry of a launcher: its file name when it lives directly
/// in the Dock folder; separators and launchers elsewhere record none.
pub open spec fn record_matches(rec: DockRecord, item: DockItem, dock: Seq<char>) -> bool {
    &&& rec.id@ == item.id@
    &&& rec.kind == item.kind
    &&& rec.display_name@ == item.display_name@
    &&& rec.order == item.order
    &&& rec.created_at == item.created_at
    &&& if item.kind == DockItemKind::Separator || !direct_entry(item.path@, dock) {
        rec.physical_name is None
    } else {
        match file_name_of(item.path@) {
            Some(n) => rec.physical_name matches Some(p) && p@ == n,
            None => rec.physical_name is None,
        }
    }
}

/// What `.dock.json` records for the launchers `items`.
pub fn metadata_from_state(items: &Vec<DockItem>, dock: &str) -> (r: Vec<DockRecord>)
    ensures
        r@.len() == items@.len(),
        forall|k: int| 0 <= k < items@.len() ==> record_matches(#[trigger] r@[k], items@[k], dock@),
{
    let mut r: Vec<DockRecord> = Vec::new();
    let mut i: usize = 0;
    while i < items.len()
        invariant
            i <= items@.len(),
            r@.len() == i,
            forall|k: int| 0 <= k < i ==> record_matches(#[trigger] r@[k], items@[k], dock@),
        decreases items@.len() - i,
    {
        let item = &items[i];
        let physical_name = match item.kind {
            DockItemKind::Separator => None,
            DockItemKind::Shortcut => {
                if is_direct_dock_entry(item.path.as_str(), dock) {
                    file_name(item.path.as_str())
                } else {
                    None
                }
            },
        };
        r.push(
            DockRecord {
                id: item.id.clone(),
                kind: item.kind,
                physical_name,
                display_name: item.display_name.clone(),
                order: item.order,
                created_at: item.created_at,
            },
        );
        i = i + 1;
    }
    r
}

pub const DOCK_METADATA_VERSION: u32 = 1;

pub open spec fn newer_metadata_message() -> Seq<char> {
    "La metadata del Dock usa una versión más nueva"@
}

/// Metadata written by a newer version of the organizer is refused.
pub fn check_metadata_version(format_version: u32) -> (r: Result<(), String>)
    ensures
        r is Ok <==> format_version <= DOCK_METADATA_VERSION,
        r matches Err(m) ==> m@ == newer_metadata_message(),
{
    if format_version > DOCK_METADATA_VERSION {
        proof {
            reveal_strlit("La metadata del Dock usa una versión más nueva");
        }
        Err("La metadata del Dock usa una versión más nueva".to_owned())
    } else {
        Ok(())
    }
}

/// Where the Dock's rebuild takes its recorded launchers from, given how
/// reading `.dock.json` went.
#[derive(Debug)]
pub enum RecordSource {
    /// The records read from `.dock.json`.
    Recorded,
    /// No `.dock.json`: the records are derived from the current launchers.
    Derived,
    /// `.dock.json` could not be used (this error): it is set aside, then the
    /// records are derived from the current launchers.
    ArchiveThenDerive(String),
    /// `.dock.json` comes from a newer version: the rebuild stops with this error.
    Refuse(String),
}

/// Whether a read error of `.dock.json` says it comes from a newer version.
pub open spec fn mentions_newer_version(e: Seq<char>) -> bool {
    first_occurrence(e, "usa una versión más nueva"@, 0) >= 0
}

/// Decides where the rebuild's records come from: damaged metadata is kept
/// aside and replaced, metadata of a newer version is never touched.
pub fn record_source(read: &Result<Option<Vec<DockRecord>>, String>) -> (r: RecordSource)
    ensures
        match read {
            Ok(Some(_)) => r is Recorded,
            Ok(None) => r is Derived,
            Err(e) => if mentions_newer_version(e@) {
                r matches RecordSource::Refuse(m) && m@ == e@
            } else {
                r matches RecordSource::ArchiveThenDerive(m) && m@ == e@
            },
        },
{
    match read {
        Ok(Some(_)) => RecordSource::Recorded,
        Ok(None) => RecordSource::Derived,
        Err(e) => {
            if contains_text(e.as_str(), "usa una versión más nueva") {
                RecordSource::Refuse(e.clone())
            } else {
                RecordSource::ArchiveThenDerive(e.clone())
            }
        },
    }
}

// ---------------------------------------------------------------------------
// Rebuilding the list from the folder.

/// The key under which an entry of the folder is found: its name,
/// lower-cased.
pub open spec fn entry_key(e: DockDiskEntry) -> Seq<char> {
    unicode_lowercase(e.name@)
}

/// The last of `entries[..end]` with key `k`: the one a map keyed by name
/// keeps.
pub open spec fn last_entry(entries: Seq<DockDiskEntry>, k: Seq<char>, end: int) -> Option<int>
    decreases end,
{
    if end <= 0 {
        None
    } else if entry_key(entries[end - 1]) == k {
        Some(end - 1)
    } else {
        last_entry(entries, k, end - 1)
    }
}

/// The last of `items[..end]` with id `id`.
pub open spec fn last_with_id(items: Seq<DockItem>, id: Seq<char>, end: int) -> Option<int>
    decreases end,
{
    if end <= 0 {
        None
    } else if items[end - 1].id@ == id {
        Some(end - 1)
    } else {
        last_with_id(items, id, end - 1)
    }
}

pub open spec fn record_order_keys(records: Seq<DockRecord>) -> Seq<KeyedView<usize>> {
    Seq::new(records.len(), |i: int| (records[i].order as u64, Seq::<char>::empty(), i as usize))
}

/// The record indices sorted by recorded order, ties in file order.
pub open spec fn records_in_order(records: Seq<DockRecord>) -> Seq<usize> {
    values_of(stable_sorted(record_order_keys(records), false))
}

/// The sources given by the first `n` records taken in order, and the
/// folder keys they claimed.
pub open spec fn claimed_sources(
    records: Seq<DockRecord>,
    order: Seq<usize>,
    n: int,
    entries: Seq<DockDiskEntry>,
    current: Seq<DockItem>,
    dock: Seq<char>,
) -> (Seq<DockSource>, Seq<Seq<char>>)
    decreases n,
{
    if n <= 0 {
        (Seq::empty(), Seq::empty())
    } else {
        let prev = claimed_sources(records, order, n - 1, entries, current, dock);
        let ri = order[n - 1];
        let r = records[ri as int];
        if r.kind == DockItemKind::Separator {
            (prev.0.push(DockSource::Separator(ri)), prev.1)
        } else {
            match r.physical_name {
                None => match last_with_id(current, r.id@, current.len() as int) {
                    Some(c) => if !direct_entry(current[c].path@, dock) {
                        (prev.0.push(DockSource::Legacy(c as usize)), prev.1)
                    } else {
                        prev
                    },
                    None => prev,
                },
                Some(pn) => {
                    let k = unicode_lowercase(pn@);
                    match last_entry(entries, k, entries.len() as int) {
                        Some(e) => if !prev.1.contains(k) {
                            (prev.0.push(DockSource::Disk(ri, e as usize)), prev.1.push(k))
                        } else {
                            prev
                        },
                        None => prev,
                    }
                },
            }
        }
    }
}

/// Entries of the folder not claimed by a record, keyed by name, in
/// folder order; only the last entry of each key counts.
pub open spec fn fresh_candidates(
    entries: Seq<DockDiskEntry>,
    claimed: Seq<Seq<char>>,
    n: int,
) -> Seq<KeyedView<usize>>
    decreases n,
{
    if n <= 0 {
        Seq::empty()
    } else {
        let rest = fresh_candidates(entries, claimed, n - 1);
        let e = n - 1;
        let k = entry_key(entries[e]);
        if last_entry(entries, k, entries.len() as int) == Some(e) && !claimed.contains(k) {
            rest.push((0u64, k, e as usize))
        } else {
            rest
        }
    }
}

/// The unclaimed entries, by name.
pub open spec fn fresh_in_order(entries: Seq<DockDiskEntry>, claimed: Seq<Seq<char>>) -> Seq<usize> {
    values_of(stable_sorted(fresh_candidates(entries, claimed, entries.len() as int), false))
}

/// A launcher made for a folder entry.
pub open spec fn from_entry(item: DockItem, e: DockDiskEntry) -> bool {
    &&& item.kind == DockItemKind::Shortcut
    &&& item.item_type == item_type_of(e.is_dir, e.path@)
    &&& item.path@ == e.path@
    &&& item.icon_key@ == icon_key_of(e.path@)
    &&& item.available
}

/// Element `item` as rebuilt from `source`, before renumbering.
pub open spec fn source_item(
    item: DockItem,
    source: DockSource,
    records: Seq<DockRecord>,
    entries: Seq<DockDiskEntry>,
    current: Seq<DockItem>,
) -> bool {
    match source {
        DockSource::Separator(ri) => {
            let r = records[ri as int];
            &&& item.id@ == r.id@
            &&& item.kind == DockItemKind::Separator
            &&& item.item_type == DrawerItemType::File
            &&& item.display_name@ == r.display_name@
            &&& item.path@ == Seq::<char>::empty()
            &&& item.icon_key@ == Seq::<char>::empty()
            &&& item.order == r.order
            &&& item.available
            &&& item.created_at == r.created_at
        },
        DockSource::Legacy(c) => item == current[c as int],
        DockSource::Disk(ri, e) => {
            let r = records[ri as int];
            &&& from_entry(item, entries[e as int])
            &&& item.id@ == r.id@
            &&& item.display_name@ == r.display_name@
            &&& item.order == r.order
            &&& item.created_at == r.created_at
        },
        DockSource::Fresh(e) => from_entry(item, entries[e as int]),
    }
}

/// `start + k`, saturating at `u32::MAX`.
pub open spec fn saturating_order(start: int, k: int) -> u32 {
    if start + k >= u32::MAX {
        u32::MAX
    } else {
        (start + k) as u32
    }
}

/// The list before the final sort: the recorded elements, then one new
/// launcher per unclaimed entry, numbered after every recorded one and
/// created `now`, its id made from the random value drawn for its entry.
pub open spec fn unsorted_rebuild(
    pre: Seq<DockItem>,
    records: Seq<DockRecord>,
    entries: Seq<DockDiskEntry>,
    current: Seq<DockItem>,
    dock: Seq<char>,
    now: u64,
    random: Seq<u128>,
) -> bool {
    let order = records_in_order(records);
    let (sources, claimed) = claimed_sources(
        records,
        order,
        order.len() as int,
        entries,
        current,
        dock,
    );
    let fresh = fresh_in_order(entries, claimed);
    let n = sources.len();
    let next = next_order_after(pre.take(n as int).map_values(|i: DockItem| i.order));
    &&& pre.len() == n + fresh.len()
    &&& forall|k: int|
        0 <= k < n ==> source_item(#[trigger] pre[k], sources[k], records, entries, current)
    &&& forall|k: int|
        0 <= k < fresh.len() ==> {
            let item = #[trigger] pre[n + k];
            let e = entries[fresh[k] as int];
            &&& from_entry(item, e)
            &&& item.id@ == uuid_text(random[fresh[k] as int])
            &&& item.display_name@ == display_name_of(e.path@, item.item_type)
            &&& item.order == saturating_order(next, k)
            &&& item.created_at == now
        }
}

pub open spec fn dock_by_order(items: Seq<DockItem>) -> Seq<KeyedView<DockItem>> {
    items.map_values(|i: DockItem| (i.order as u64, Seq::<char>::empty(), i))
}

}

verus! {

fn lowercase_keys(entries: &Vec<DockDiskEntry>) -> (r: Vec<String>)
    ensures
        r@.len() == entries@.len(),
        forall|k: int| 0 <= k < entries@.len() ==> (#[trigger] r@[k])@ == entry_key(entries@[k]),
{
    let mut r: Vec<String> = Vec::new();
    let mut i: usize = 0;
    while i < entries.len()
        invariant
            i <= entries@.len(),
            r@.len() == i,
            forall|k: int| 0 <= k < i ==> (#[trigger] r@[k])@ == entry_key(entries@[k]),
        decreases entries@.len() - i,
    {
        r.push(to_lowercase(entries[i].name.as_str()));
        i = i + 1;
    }
    r
}

fn find_last_entry(entries: &Vec<DockDiskEntry>, keys: &Vec<String>, k: &str) -> (r: Option<usize>)
    requires
        keys@.len() == entries@.len(),
        forall|j: int| 0 <= j < entries@.len() ==> (#[trigger] keys@[j])@ == entry_key(entries@[j]),
    ensures
        r matches Some(e) ==> last_entry(entries@, k@, entries@.len() as int) == Some(e as int)
            && e < entries@.len(),
        r is None ==> last_entry(entries@, k@, entries@.len() as int) is None,
{
    let mut end = keys.len();
    while end > 0
        invariant
            end <= entries@.len(),
            keys@.len() == entries@.len(),
            forall|j: int| 0 <= j < entries@.len() ==> (#[trigger] keys@[j])@ == entry_key(entries@[j]),
            last_entry(entries@, k@, entries@.len() as int) == last_entry(entries@, k@, end as int),
        decreases end,
    {
        if str_eq(keys[end - 1].as_str(), k) {
            return Some(end - 1);
        }
        end = end - 1;
    }
    None
}

fn find_last_id(items: &Vec<DockItem>, id: &str) -> (r: Option<usize>)
    ensures
        r matches Some(c) ==> last_with_id(items@, id@, items@.len() as int) == Some(c as int)
            && c < items@.len(),
        r is None ==> last_with_id(items@, id@, items@.len() as int) is None,
{
    let mut end = items.len();
    while end > 0
        invariant
            end <= items@.len(),
            last_with_id(items@, id@, items@.len() as int) == last_with_id(items@, id@, end as int),
        decreases end,
    {
        if str_eq(items[end - 1].id.as_str(), id) {
            return Some(end - 1);
        }
        end = end - 1;
    }
    None
}

fn contains_key(keys: &Vec<String>, k: &str) -> (r: bool)
    ensures
        r == keys@.map_values(|s: String| s@).contains(k@),
{
    let ghost view = keys@.map_values(|s: String| s@);
    let mut i: usize = 0;
    while i < keys.len()
        invariant
            i <= keys@.len(),
            view == keys@.map_values(|s: String| s@),
            forall|j: int| 0 <= j < i ==> view[j] != k@,
        decreases keys@.len() - i,
    {
        if str_eq(keys[i].as_str(), k) {
            assert(view[i as int] == k@);
            return true;
        }
        i = i + 1;
    }
    false
}

/// The record indices sorted by recorded order.
fn sort_records(records: &Vec<DockRecord>) -> (r: Vec<usize>)
    ensures
        r@ == records_in_order(records@),
{
    let mut keyed: Vec<Keyed<usize>> = Vec::new();
    let mut i: usize = 0;
    while i < records.len()
        invariant
            i <= records@.len(),
            keyed_views(keyed@) == record_order_keys(records@).take(i as int),
        decreases records@.len() - i,
    {
        let k = Keyed { rank: records[i].order as u64, name: Vec::new(), value: i };
        let ghost before = keyed_views(keyed@);
        keyed.push(k);
        assert(keyed_views(keyed@) =~= record_order_keys(records@).take(i + 1)) by {
            assert(k.name@ =~= Seq::<char>::empty());
            assert(keyed_views(keyed@) =~= before.push(k.key_view()));
        }
        i = i + 1;
    }
    assert(record_order_keys(records@).take(records@.len() as int) =~= record_order_keys(records@));
    let sorted = stable_sort(keyed, false);
    let ghost sv = keyed_views(sorted@);
    let mut r: Vec<usize> = Vec::new();
    let mut j: usize = 0;
    while j < sorted.len()
        invariant
            j <= sorted@.len(),
            sv == keyed_views(sorted@),
            r@ == values_of(sv).take(j as int),
        decreases sorted@.len() - j,
    {
        r.push(sorted[j].value);
        assert(r@ =~= values_of(sv).take(j + 1));
        j = j + 1;
    }
    assert(values_of(sv).take(sorted@.len() as int) =~= values_of(sv));
    r
}

/// The launcher made for folder entry `e`.
fn item_for_entry(e: &DockDiskEntry, id: String, display: String, order: u32, created_at: u64) -> (r:
    DockItem)
    ensures
        from_entry(r, *e),
        r.id == id,
        r.display_name == display,
        r.order == order,
        r.created_at == created_at,
{
    DockItem {
        id,
        kind: DockItemKind::Shortcut,
        item_type: classify(e.path.as_str(), e.is_dir),
        display_name: display,
        path: e.path.clone(),
        icon_key: IconService::key_for(e.path.as_str()),
        order,
        available: true,
        created_at,
    }
}

pub open spec fn key_views(keys: Seq<String>) -> Seq<Seq<char>> {
    keys.map_values(|s: String| s@)
}

/// The launchers stably sorted by their stored order.
fn sorted_by_order(items: Vec<DockItem>) -> (r: Vec<DockItem>)
    ensures
        r@ == values_of(stable_sorted(dock_by_order(items@), false)),
{
    let mut keyed: Vec<Keyed<DockItem>> = Vec::new();
    let mut i: usize = 0;
    while i < items.len()
        invariant
            i <= items@.len(),
            keyed_views(keyed@) == dock_by_order(items@).take(i as int),
        decreases items@.len() - i,
    {
        let k = Keyed { rank: items[i].order as u64, name: Vec::new(), value: items[i].duplicate() };
        let ghost before = keyed_views(keyed@);
        keyed.push(k);
        assert(keyed_views(keyed@) =~= dock_by_order(items@).take(i + 1)) by {
            assert(k.name@ =~= Seq::<char>::empty());
            assert(keyed_views(keyed@) =~= before.push(k.key_view()));
        }
        i = i + 1;
    }
    assert(dock_by_order(items@).take(items@.len() as int) =~= dock_by_order(items@));
    let sorted = stable_sort(keyed, false);
    let ghost sv = keyed_views(sorted@);
    let mut r: Vec<DockItem> = Vec::new();
    let mut j: usize = 0;
    while j < sorted.len()
        invariant
            j <= sorted@.len(),
            sv == keyed_views(sorted@),
            r@ == values_of(sv).take(j as int),
        decreases sorted@.len() - j,
    {
        r.push(sorted[j].value.duplicate());
        assert(r@ =~= values_of(sv).take(j + 1));
        j = j + 1;
    }
    assert(values_of(sv).take(sorted@.len() as int) =~= values_of(sv));
    r
}

/// The recorded elements that can still be rebuilt, in recorded order,
/// with the folder keys they claimed.
fn rebuild_recorded(
    records: &Vec<DockRecord>,
    order: &Vec<usize>,
    current: &Vec<DockItem>,
    entries: &Vec<DockDiskEntry>,
    keys: &Vec<String>,
    dock: &str,
) -> (r: (Vec<DockItem>, Vec<String>, Ghost<Seq<DockSource>>))
    requires
        order@ == records_in_order(records@),
        keys@.len() == entries@.len(),
        forall|j: int| 0 <= j < entries@.len() ==> (#[trigger] keys@[j])@ == entry_key(entries@[j]),
    ensures
        (r.2@, key_views(r.1@)) == claimed_sources(
            records@,
            order@,
            order@.len() as int,
            entries@,
            current@,
            dock@,
        ),
        r.0@.len() == r.2@.len(),
        forall|k: int|
            0 <= k < r.0@.len() ==> source_item(
                #[trigger] r.0@[k],
                r.2@[k],
                records@,
                entries@,
                current@,
            ),
{
    proof {
        lemma_records_in_order_range(records@);
    }
    let mut pre: Vec<DockItem> = Vec::new();
    let mut claimed: Vec<String> = Vec::new();
    let ghost mut sources: Seq<DockSource> = Seq::empty();
    let mut n: usize = 0;
    while n < order.len()
        invariant
            n <= order@.len(),
            order@ == records_in_order(records@),
            forall|j: int| 0 <= j < order@.len() ==> (#[trigger] order@[j]) < records@.len(),
            keys@.len() == entries@.len(),
            forall|j: int|
                0 <= j < entries@.len() ==> (#[trigger] keys@[j])@ == entry_key(entries@[j]),
            (sources, key_views(claimed@)) == claimed_sources(
                records@,
                order@,
                n as int,
                entries@,
                current@,
                dock@,
            ),
            pre@.len() == sources.len(),
            forall|k: int|
                0 <= k < pre@.len() ==> source_item(
                    #[trigger] pre@[k],
                    sources[k],
                    records@,
                    entries@,
                    current@,
                ),
        decreases order@.len() - n,
    {
        let ri = order[n];
        let r = &records[ri];
        let ghost prev_pre = pre@;
        match r.kind {
            DockItemKind::Separator => {
                pre.push(
                    DockItem {
                        id: r.id.clone(),
                        kind: DockItemKind::Separator,
                        item_type: DrawerItemType::File,
                        display_name: r.display_name.clone(),
                        path: String::new(),
                        icon_key: String::new(),
                        order: r.order,
                        available: true,
                        created_at: r.created_at,
                    },
                );
                proof {
                    sources = sources.push(DockSource::Separator(ri));
                }
            },
            DockItemKind::Shortcut => {
                match &r.physical_name {
                    None => {
                        match find_last_id(current, r.id.as_str()) {
                            Some(c) => {
                                if !is_direct_dock_entry(current[c].path.as_str(), dock) {
                                    pre.push(current[c].duplicate());
                                    proof {
                                        sources = sources.push(DockSource::Legacy(c));
                                    }
                                }
                            },
                            None => {},
                        }
                    },
                    Some(pn) => {
                        let k = to_lowercase(pn.as_str());
                        match find_last_entry(entries, keys, k.as_str()) {
                            Some(e) => {
                                if !contains_key(&claimed, k.as_str()) {
                                    let item = item_for_entry(
                                        &entries[e],
                                        r.id.clone(),
                                        r.display_name.clone(),
                                        r.order,
                                        r.created_at,
                                    );
                                    pre.push(item);
                                    let ghost old_claimed = key_views(claimed@);
                                    claimed.push(k);
                                    proof {
                                        sources = sources.push(DockSource::Disk(ri, e));
                                        assert(key_views(claimed@) =~= old_claimed.push(
                                            unicode_lowercase(pn@),
                                        ));
                                    }
                                }
                            },
                            None => {},
                        }
                    },
                }
            },
        }
        assert forall|k: int| 0 <= k < pre@.len() implies source_item(
            #[trigger] pre@[k],
            sources[k],
            records@,
            entries@,
            current@,
        ) by {
            if k < prev_pre.len() {
                assert(pre@[k] == prev_pre[k]);
            }
        }
        n = n + 1;
    }
    (pre, claimed, Ghost(sources))
}

proof fn lemma_records_in_order_range(records: Seq<DockRecord>)
    ensures
        forall|j: int|
            0 <= j < records_in_order(records).len() ==> (#[trigger] records_in_order(records)[j])
                < records.len(),
{
    let s = record_order_keys(records);
    lemma_sorted_values_from(s);
    assert forall|j: int| 0 <= j < records_in_order(records).len() implies (
    #[trigger] records_in_order(records)[j]) < records.len() by {
        let v = records_in_order(records)[j];
        assert(stable_sorted(s, false)[j].2 == v);
        let i = choose|i: int| 0 <= i < s.len() && s[i] == stable_sorted(s, false)[j];
        assert(s[i].2 == i as usize);
    }
}

/// Every element of a stable sort is an element of its input.
proof fn lemma_sorted_values_from<T>(s: Seq<KeyedView<T>>)
    ensures
        stable_sorted(s, false).len() == s.len(),
        forall|j: int|
            0 <= j < stable_sorted(s, false).len() ==> exists|i: int|
                0 <= i < s.len() && s[i] == #[trigger] stable_sorted(s, false)[j],
    decreases s.len(),
{
    crate::sorting::lemma_stable_sorted_len(s, false);
    if s.len() > 0 {
        let init = s.drop_last();
        lemma_sorted_values_from(init);
        let p = stable_sorted(init, false);
        let pos = crate::sorting::insert_pos(p, s.last(), false);
        crate::sorting::lemma_insert_pos_in_range(p, s.last(), false);
        assert forall|j: int| 0 <= j < stable_sorted(s, false).len() implies exists|i: int|
            0 <= i < s.len() && s[i] == #[trigger] stable_sorted(s, false)[j] by {
            let q = stable_sorted(s, false);
            assert(q == p.insert(pos, s.last()));
            if j < pos {
                assert(q[j] == p[j]);
                let i = choose|i: int| 0 <= i < init.len() && init[i] == p[j];
                assert(s[i] == init[i]);
            } else if j == pos {
                assert(s[s.len() - 1] == q[j]);
            } else {
                assert(q[j] == p[j - 1]);
                let i = choose|i: int| 0 <= i < init.len() && init[i] == p[j - 1];
                assert(s[i] == init[i]);
            }
        }
    }
}

/// The unclaimed entries of the folder, by name.
fn fresh_entries(entries: &Vec<DockDiskEntry>, keys: &Vec<String>, claimed: &Vec<String>) -> (r:
    Vec<usize>)
    requires
        keys@.len() == entries@.len(),
        forall|j: int| 0 <= j < entries@.len() ==> (#[trigger] keys@[j])@ == entry_key(entries@[j]),
    ensures
        r@ == fresh_in_order(entries@, key_views(claimed@)),
        forall|j: int| 0 <= j < r@.len() ==> (#[trigger] r@[j]) < entries@.len(),
{
    let ghost cl = key_views(claimed@);
    let mut cands: Vec<Keyed<usize>> = Vec::new();
    let mut e: usize = 0;
    while e < entries.len()
        invariant
            e <= entries@.len(),
            cl == key_views(claimed@),
            keys@.len() == entries@.len(),
            forall|j: int|
                0 <= j < entries@.len() ==> (#[trigger] keys@[j])@ == entry_key(entries@[j]),
            keyed_views(cands@) == fresh_candidates(entries@, cl, e as int),
        decreases entries@.len() - e,
    {
        let last = find_last_entry(entries, keys, keys[e].as_str());
        let live = match last {
            Some(x) => x == e,
            None => false,
        };
        if live && !contains_key(claimed, keys[e].as_str()) {
            let k = Keyed { rank: 0, name: chars_of(keys[e].as_str()), value: e };
            let ghost before = keyed_views(cands@);
            cands.push(k);
            assert(keyed_views(cands@) =~= before.push(k.key_view()));
        }
        e = e + 1;
    }
    proof {
        lemma_sorted_values_from(fresh_candidates(entries@, cl, entries@.len() as int));
        lemma_fresh_candidates_range(entries@, cl, entries@.len() as int);
    }
    let sorted = stable_sort(cands, false);
    let ghost sv = keyed_views(sorted@);
    let mut r: Vec<usize> = Vec::new();
    let mut j: usize = 0;
    while j < sorted.len()
        invariant
            j <= sorted@.len(),
            sv == keyed_views(sorted@),
            sv == stable_sorted(fresh_candidates(entries@, cl, entries@.len() as int), false),
            forall|t: int|
                0 <= t < sv.len() ==> exists|i: int|
                    0 <= i < fresh_candidates(entries@, cl, entries@.len() as int).len()
                        && fresh_candidates(entries@, cl, entries@.len() as int)[i]
                        == #[trigger] sv[t],
            forall|i: int|
                0 <= i < fresh_candidates(entries@, cl, entries@.len() as int).len() ==> (
                #[trigger] fresh_candidates(entries@, cl, entries@.len() as int)[i]).2
                    < entries@.len(),
            r@ == values_of(sv).take(j as int),
        decreases sorted@.len() - j,
    {
        r.push(sorted[j].value);
        assert(r@ =~= values_of(sv).take(j + 1));
        j = j + 1;
    }
    assert(values_of(sv).take(sorted@.len() as int) =~= values_of(sv));
    assert forall|t: int| 0 <= t < r@.len() implies (#[trigger] r@[t]) < entries@.len() by {
        assert(r@[t] == sv[t].2);
        let i = choose|i: int|
            0 <= i < fresh_candidates(entries@, cl, entries@.len() as int).len()
                && fresh_candidates(entries@, cl, entries@.len() as int)[i] == sv[t];
        assert(fresh_candidates(entries@, cl, entries@.len() as int)[i].2 < entries@.len());
    }
    r
}

proof fn lemma_fresh_candidates_range(entries: Seq<DockDiskEntry>, claimed: Seq<Seq<char>>, n: int)
    requires
        n <= entries.len() <= usize::MAX,
    ensures
        forall|i: int|
            0 <= i < fresh_candidates(entries, claimed, n).len() ==> (
            #[trigger] fresh_candidates(entries, claimed, n)[i]).2 < entries.len(),
    decreases n,
{
    if n > 0 {
        lemma_fresh_candidates_range(entries, claimed, n - 1);
        let rest = fresh_candidates(entries, claimed, n - 1);
        let k = entry_key(entries[n - 1]);
        if last_entry(entries, k, entries.len() as int) == Some(n - 1) && !claimed.contains(k) {
            assert(fresh_candidates(entries, claimed, n) == rest.push((0u64, k, (n - 1) as usize)));
            assert(((n - 1) as usize) as int == n - 1);
        }
    }
}

/// Rebuilds the Dock's list from its folder. Recorded elements come first
/// in recorded order: separators as recorded, launchers whose file is in
/// the folder (found by name, case ignored, each file claimed once), and
/// older launchers living outside the folder as they are. Files no record
/// mentions follow, by name, as new launchers created `now`. Recorded
/// launchers whose file is gone drop out. The whole list is then ordered
/// by stored order and renumbered.
pub fn rebuild_dock(
    records: &Vec<DockRecord>,
    current: &Vec<DockItem>,
    entries: &Vec<DockDiskEntry>,
    dock: &str,
    now: u64,
    random: &Vec<u128>,
) -> (r: Vec<DockItem>)
    requires
        random@.len() == entries@.len(),
    ensures
        exists|pre: Seq<DockItem>|
            unsorted_rebuild(pre, records@, entries@, current@, dock@, now, random@) && r@ == resequenced(
                values_of(stable_sorted(dock_by_order(pre), false)),
            ),
{
    let keys = lowercase_keys(entries);
    let order = sort_records(records);
    let (mut pre, claimed, Ghost(sources)) = rebuild_recorded(
        records,
        &order,
        current,
        entries,
        &keys,
        dock,
    );
    let fresh = fresh_entries(entries, &keys, &claimed);
    let n = pre.len();
    let next = crate::dock::next_order(&pre);
    let ghost recorded = pre@;
    assert(recorded.take(n as int) =~= recorded);
    let mut k: usize = 0;
    while k < fresh.len()
        invariant
            k <= fresh@.len(),
            n == recorded.len(),
            pre@.len() == n + k,
            pre@.take(n as int) == recorded,
            random@.len() == entries@.len(),
            next as int == next_order_after(recorded.map_values(|i: DockItem| i.order)),
            forall|j: int| 0 <= j < fresh@.len() ==> (#[trigger] fresh@[j]) < entries@.len(),
            forall|j: int|
                0 <= j < k ==> {
                    let item = #[trigger] pre@[n + j];
                    let e = entries@[fresh@[j] as int];
                    &&& from_entry(item, e)
                    &&& item.id@ == uuid_text(random@[fresh@[j] as int])
                    &&& item.display_name@ == display_name_of(e.path@, item.item_type)
                    &&& item.order == saturating_order(next as int, j)
                    &&& item.created_at == now
                },
        decreases fresh@.len() - k,
    {
        let e = &entries[fresh[k]];
        let ty = classify(e.path.as_str(), e.is_dir);
        let display = display_name(e.path.as_str(), ty);
        let order: u32 = if (k as u64) >= (u32::MAX as u64) - (next as u64) {
            u32::MAX
        } else {
            ((next as u64) + (k as u64)) as u32
        };
        let item = item_for_entry(e, new_id(random[fresh[k]]), display, order, now);
        let ghost before = pre@;
        pre.push(item);
        assert(pre@.take(n as int) =~= before.take(n as int));
        assert(pre@[n + k] == item);
        k = k + 1;
    }
    proof {
        assert(crate::dock::dock_orders(recorded) =~= recorded.map_values(|i: DockItem| i.order));
        assert(unsorted_rebuild(pre@, records@, entries@, current@, dock@, now, random@)) by {
            assert(pre@.take(n as int) == recorded);
            assert forall|j: int| 0 <= j < n implies source_item(
                #[trigger] pre@[j],
                sources[j],
                records@,
                entries@,
                current@,
            ) by {
                assert(pre@[j] == recorded[j]);
            }
        }
    }
    let ghost unsorted = pre@;
    let mut sorted = sorted_by_order(pre);
    resequence(&mut sorted);
    sorted
}

/// A launcher's file name as the Dock stores it: trimmed, forbidden
/// characters as `_`, at most 80 characters, no leading or trailing spaces
/// and dots, `Acceso` when nothing is left.
pub open spec fn sanitized_shortcut_name(name: Seq<char>) -> Seq<char> {
    let mapped = underscored(trim_seq(name));
    let cut = if mapped.len() > 80 {
        mapped.take(80)
    } else {
        mapped
    };
    let s = strip_both(cut, ' ', '.');
    if s.len() == 0 {
        "Acceso"@
    } else {
        s
    }
}

/// A launcher's stored file name is never empty, holds at most 80
/// characters, none of them refused by Windows, and neither starts nor
/// ends with a space or a dot.
pub proof fn lemma_shortcut_name_is_clean(name: Seq<char>)
    ensures
        ({
            let s = sanitized_shortcut_name(name);
            &&& 0 < s.len() <= 80
            &&& forall|i: int| 0 <= i < s.len() ==> !crate::storage::refused_by_windows(#[trigger] s[i])
            &&& s[0] != ' ' && s[0] != '.'
            &&& s.last() != ' ' && s.last() != '.'
        }),
{
    let u = underscored(trim_seq(name));
    let cut = if u.len() > 80 {
        u.take(80)
    } else {
        u
    };
    let st = crate::text::strip_start(cut, ' ', '.');
    let s0 = strip_both(cut, ' ', '.');
    crate::storage::lemma_strip_start_suffix(cut, ' ', '.');
    crate::storage::lemma_strip_end_prefix(st, ' ', '.');
    reveal_strlit("Acceso");
    assert forall|i: int| 0 <= i < cut.len() implies !crate::storage::refused_by_windows(
        #[trigger] cut[i],
    ) by {
        assert(cut[i] == u[i]);
        if !crate::storage::spec_is_forbidden_in_name(trim_seq(name)[i]) {
            assert(!crate::storage::refused_by_windows(trim_seq(name)[i]));
        }
    }
    assert forall|i: int| 0 <= i < s0.len() implies !crate::storage::refused_by_windows(
        #[trigger] s0[i],
    ) by {
        assert(s0[i] == st[i]);
        assert(st[i] == cut[cut.len() - st.len() + i]);
    }
    if s0.len() > 0 {
        assert(s0[0] == st[0]);
    }
}

pub fn sanitize_shortcut_name(name: &str) -> (r: String)
    ensures
        r@ == sanitized_shortcut_name(name@),
{
    let trimmed = trimmed_chars(name);
    let mapped = underscore_forbidden(&trimmed);
    let cut = take_chars(&mapped, 80);
    assert(mapped@.len() <= 80 ==> cut@ =~= mapped@);
    let stripped = strip_spaces_and_dots(&cut);
    if stripped.len() == 0 {
        proof {
            reveal_strlit("Acceso");
        }
        "Acceso".to_owned()
    } else {
        string_of(&stripped)
    }
}

pub const DOCK_METADATA_NAME: &'static str = ".dock.json";

/// Entries of the Dock folder that are the organizer's bookkeeping:
/// `.dock.json` (in any ASCII case), its temporary and archived siblings
/// `.dock.json.*`, and half-finished transfers.
pub open spec fn dock_internal_name(name: Seq<char>) -> bool {
    ||| eq_ignore_ascii_case(name, ".dock.json"@)
    ||| ".dock.json."@.is_prefix_of(name)
    ||| ".desktop-organizer-transfer-"@.is_prefix_of(name)
}

pub fn is_dock_internal_file_name(name: &str) -> (r: bool)
    ensures
        r == dock_internal_name(name@),
{
    let v = chars_of(name);
    let meta = chars_of(".dock.json");
    let meta_dot = chars_of(".dock.json.");
    let transfer = chars_of(".desktop-organizer-transfer-");
    proof {
        reveal_strlit(".dock.json");
        reveal_strlit(".dock.json.");
        reveal_strlit(".desktop-organizer-transfer-");
    }
    chars_eq_ignore_ascii_case(&v, &meta) || has_prefix(&v, &meta_dot) || has_prefix(&v, &transfer)
}

/// How an element added to the Dock gets into its folder.
pub enum Placement {
    /// It already lives directly in the folder.
    Keep,
    /// A Desktop element moves into the folder, to this path.
    Move(String),
    /// An existing shortcut (`.lnk`, `.url`) is copied to this path.
    Copy(String),
    /// Anything else gets a new Windows shortcut at this path.
    Shortcut(String),
}

pub open spec fn no_file_name_message() -> Seq<char> {
    "El elemento no tiene un nombre de archivo válido"@
}

/// Where `source` goes when it is added to the Dock under `display_name`.
/// `dock` and `desktop` are the resolved folders, `source` a resolved path.
pub fn materialize_plan(source: &str, display_name: &str, dock: &str, desktop: &str) -> (r: Result<
    Placement,
    String,
>)
    ensures
        direct_entry(source@, dock@) ==> r matches Ok(Placement::Keep),
        !direct_entry(source@, dock@) && file_name_of(source@) is None ==> (r matches Err(m)
            && m@ == no_file_name_message()),
        !direct_entry(source@, dock@) && file_name_of(source@) is Some ==> {
            let n = file_name_of(source@)->0;
            let desk = path_key(source@) != path_key(desktop@) && within_keys(
                path_key(source@),
                path_key(desktop@),
            );
            let shortcut = has_extension(source@, "lnk"@) || has_extension(source@, "url"@);
            if desk {
                r matches Ok(Placement::Move(d)) && d@ == joined_path(dock@, n)
            } else if shortcut {
                r matches Ok(Placement::Copy(d)) && d@ == joined_path(dock@, n)
            } else {
                r matches Ok(Placement::Shortcut(d)) && d@ == joined_path(
                    dock@,
                    sanitized_shortcut_name(display_name@) + ".lnk"@,
                )
            }
        },
{
    if is_direct_dock_entry(source, dock) {
        return Ok(Placement::Keep);
    }
    let name = match file_name(source) {
        Some(n) => n,
        None => {
            proof {
                reveal_strlit("El elemento no tiene un nombre de archivo válido");
            }
            return Err("El elemento no tiene un nombre de archivo válido".to_owned());
        },
    };
    if StorageService::is_desktop_item(source, desktop) {
        return Ok(Placement::Move(join_path(dock, name.as_str())));
    }
    proof {
        reveal_strlit("lnk");
        reveal_strlit("url");
        reveal_strlit(".lnk");
    }
    if extension_is(source, "lnk") || extension_is(source, "url") {
        return Ok(Placement::Copy(join_path(dock, name.as_str())));
    }
    let mut file = sanitize_shortcut_name(display_name);
    push_str(&mut file, ".lnk");
    Ok(Placement::Shortcut(join_path(dock, file.as_str())))
}

pub open spec fn not_in_folder_message() -> Seq<char> {
    "El acceso todavía no fue guardado dentro de la carpeta del Dock"@
}

pub open spec fn no_physical_name_message() -> Seq<char> {
    "El acceso no tiene un nombre físico válido"@
}

/// Where a launcher's file goes back to when it leaves the Dock: the
/// Desktop, under its own name. Separators and launchers whose file is
/// gone (`exists` false) need nothing; launchers not kept in the folder
/// cannot be restored.
pub fn restore_to_desktop(item: &DockItem, exists: bool, dock: &str, desktop: &str) -> (r: Result<
    Option<String>,
    String,
>)
    ensures
        item.kind == DockItemKind::Separator || !exists ==> r == Ok::<Option<String>, String>(None),
        item.kind != DockItemKind::Separator && exists ==> {
            if !direct_entry(item.path@, dock@) {
                r matches Err(m) && m@ == not_in_folder_message()
            } else {
                match file_name_of(item.path@) {
                    None => r matches Err(m) && m@ == no_physical_name_message(),
                    Some(n) => r matches Ok(Some(d)) && d@ == joined_path(desktop@, n),
                }
            }
        },
{
    if item.kind == DockItemKind::Separator || !exists {
        return Ok(None);
    }
    if !is_direct_dock_entry(item.path.as_str(), dock) {
        proof {
            reveal_strlit("El acceso todavía no fue guardado dentro de la carpeta del Dock");
        }
        return Err("El acceso todavía no fue guardado dentro de la carpeta del Dock".to_owned());
    }
    match file_name(item.path.as_str()) {
        Some(n) => Ok(Some(join_path(desktop, n.as_str()))),
        None => {
            proof {
                reveal_strlit("El acceso no tiene un nombre físico válido");
            }
            Err("El acceso no tiene un nombre físico válido".to_owned())
        },
    }
}

/// A launcher moved in from the Desktop goes back where it came from. For
/// an element directly on the Desktop (`desktop\name`), the move into the
/// Dock's folder (`materialize_plan`) places it at `dock\name`; restoring a
/// launcher found there (`restore_to_desktop`) sends it to the Desktop under
/// its file name, which is the path it came from.
pub proof fn lemma_restore_returns_desktop_item(
    source: Seq<char>,
    dock: Seq<char>,
    desktop: Seq<char>,
)
    requires
        file_name_of(source) is Some,
        source == joined_path(desktop, file_name_of(source)->0),
    ensures
        file_name_of(joined_path(dock, file_name_of(source)->0)) == Some(file_name_of(source)->0),
        joined_path(desktop, file_name_of(joined_path(dock, file_name_of(source)->0))->0)
            == source,
{
    let n = file_name_of(source)->0;
    if dock.len() == 0 {
        assert(Seq::<char>::empty() + n =~= n);
        lemma_file_name_after(source, n, Seq::<char>::empty());
    } else if dock.last() == '\\' || dock.last() == '/' {
        lemma_file_name_after(source, n, dock);
    } else {
        let base = dock + seq!['\\'];
        assert(base.last() == '\\');
        assert(dock + seq!['\\'] + n =~= base + n);
        lemma_file_name_after(source, n, base);
    }
}

/// The record a rebuilt element came from, or -1.
pub open spec fn source_index(s: DockSource) -> int {
    match s {
        DockSource::Separator(ri) => ri as int,
        DockSource::Disk(ri, _) => ri as int,
        _ => -1,
    }
}

/// Records listed in order of their numbers, every launcher with its file
/// name: the form `.dock.json` takes for a Dock whose launchers all live in
/// its folder.
pub open spec fn records_in_dock_order(records: Seq<DockRecord>) -> bool {
    &&& forall|i: int, j: int|
        0 <= i < j < records.len() ==> (#[trigger] records[i]).order <= (#[trigger] records[j]).order
    &&& forall|i: int|
        0 <= i < records.len() && (#[trigger] records[i]).kind == DockItemKind::Shortcut
            ==> records[i].physical_name is Some
}

proof fn lemma_records_taken_in_file_order(records: Seq<DockRecord>)
    requires
        records_in_dock_order(records),
    ensures
        records_in_order(records) == Seq::new(records.len(), |i: int| i as usize),
{
    let keys = record_order_keys(records);
    assert forall|i: int, j: int| 0 <= i < j < keys.len() implies !key_before(
        #[trigger] keys[j],
        #[trigger] keys[i],
        false,
    ) by {
        assert(records[i].order <= records[j].order);
        lemma_lex_irreflexive(Seq::<char>::empty());
    }
    lemma_stable_sorted_of_sorted(keys, false);
    assert(values_of(keys) =~= Seq::new(records.len(), |i: int| i as usize));
}

proof fn lemma_claimed_in_record_order(
    records: Seq<DockRecord>,
    order: Seq<usize>,
    n: int,
    entries: Seq<DockDiskEntry>,
    current: Seq<DockItem>,
    dock: Seq<char>,
)
    requires
        records_in_dock_order(records),
        order == Seq::new(records.len(), |i: int| i as usize),
        records.len() <= usize::MAX,
        0 <= n <= order.len(),
    ensures
        ({
            let s = claimed_sources(records, order, n, entries, current, dock).0;
            &&& forall|k: int| 0 <= k < s.len() ==> 0 <= source_index(#[trigger] s[k]) < n
            &&& forall|k1: int, k2: int|
                0 <= k1 < k2 < s.len() ==> source_index(#[trigger] s[k1]) < source_index(
                    #[trigger] s[k2],
                )
        }),
    decreases n,
{
    if n > 0 {
        lemma_claimed_in_record_order(records, order, n - 1, entries, current, dock);
        let ri = order[n - 1];
        assert(ri == n - 1);
        let r = records[ri as int];
        let prev = claimed_sources(records, order, n - 1, entries, current, dock);
        let cur = claimed_sources(records, order, n, entries, current, dock);
        if r.kind == DockItemKind::Shortcut {
            assert(r.physical_name is Some);
        }
        assert(cur.0 == prev.0 || (cur.0 == prev.0.push(cur.0.last()) && source_index(cur.0.last())
            == n - 1));
        let s = cur.0;
        if s != prev.0 {
            assert forall|k: int| 0 <= k < s.len() implies 0 <= source_index(#[trigger] s[k]) < n by {
                if k < prev.0.len() {
                    assert(s[k] == prev.0[k]);
                }
            }
            assert forall|k1: int, k2: int| 0 <= k1 < k2 < s.len() implies source_index(
                #[trigger] s[k1],
            ) < source_index(#[trigger] s[k2]) by {
                assert(s[k1] == prev.0[k1]);
                if k2 < prev.0.len() {
                    assert(s[k2] == prev.0[k2]);
                }
            }
        }
    }
}

/// A Dock rebuilt from `.dock.json` keeps the order recorded there: when
/// the records are in order of their numbers and every launcher has its
/// file name (as `metadata_from_state` writes them for a Dock whose
/// launchers live in its folder), the final sort of the rebuild leaves the
/// list as built, and that list holds the recorded launchers found in the
/// folder, in the records' order, followed by the new ones.
pub proof fn lemma_rebuild_keeps_recorded_order(
    pre: Seq<DockItem>,
    records: Seq<DockRecord>,
    entries: Seq<DockDiskEntry>,
    current: Seq<DockItem>,
    dock: Seq<char>,
    now: u64,
    random: Seq<u128>,
)
    requires
        unsorted_rebuild(pre, records, entries, current, dock, now, random),
        records_in_dock_order(records),
        records.len() <= usize::MAX,
    ensures
        values_of(stable_sorted(dock_by_order(pre), false)) == pre,
        exists|idx: Seq<int>|
            {
                &&& idx.len() <= pre.len()
                &&& forall|k: int| 0 <= k < idx.len() ==> 0 <= #[trigger] idx[k] < records.len()
                &&& forall|k1: int, k2: int|
                    0 <= k1 < k2 < idx.len() ==> #[trigger] idx[k1] < #[trigger] idx[k2]
                &&& forall|k: int|
                    0 <= k < idx.len() ==> (#[trigger] pre[k]).id@ == records[idx[k]].id@
                        && pre[k].order == records[idx[k]].order
                &&& forall|k: int| idx.len() <= k < pre.len() ==> (#[trigger] pre[k]).created_at
                    == now
            },
{
    let order = records_in_order(records);
    lemma_records_taken_in_file_order(records);
    let (sources, claimed) = claimed_sources(
        records,
        order,
        order.len() as int,
        entries,
        current,
        dock,
    );
    lemma_claimed_in_record_order(records, order, order.len() as int, entries, current, dock);
    let fresh = fresh_in_order(entries, claimed);
    let n = sources.len() as int;
    let orders = pre.take(n).map_values(|i: DockItem| i.order);
    let next = next_order_after(orders);
    let idx = Seq::new(sources.len(), |k: int| source_index(sources[k]));
    assert forall|k: int| 0 <= k < n implies (#[trigger] pre[k]).id@ == records[idx[k]].id@
        && pre[k].order == records[idx[k]].order by {
        assert(source_item(pre[k], sources[k], records, entries, current));
    }
    lemma_next_order_bounds(orders);
    assert forall|k: int| 0 <= k < n implies pre[k].order <= next by {
        assert(orders[k] == pre[k].order);
    }
    assert forall|i: int, j: int| 0 <= i < j < pre.len() implies pre[i].order <= pre[j].order by {
        if j < n {
            assert(pre[i].order == records[idx[i]].order);
            assert(pre[j].order == records[idx[j]].order);
            assert(idx[i] < idx[j]);
        } else if i < n {
            assert(pre[n + (j - n)].order == saturating_order(next, j - n));
        } else {
            assert(pre[n + (i - n)].order == saturating_order(next, i - n));
            assert(pre[n + (j - n)].order == saturating_order(next, j - n));
        }
    }
    let v = dock_by_order(pre);
    assert forall|i: int, j: int| 0 <= i < j < v.len() implies !key_before(
        #[trigger] v[j],
        #[trigger] v[i],
        false,
    ) by {
        lemma_lex_irreflexive(Seq::<char>::empty());
    }
    lemma_stable_sorted_of_sorted(v, false);
    assert(values_of(v) =~= pre);
    assert forall|k: int| n <= k < pre.len() implies (#[trigger] pre[k]).created_at == now by {
        assert(pre[n + (k - n)].created_at == now);
    }
    assert forall|k: int| 0 <= k < idx.len() implies 0 <= #[trigger] idx[k] < records.len() by {
        assert(0 <= source_index(sources[k]) < order.len());
    }
    assert forall|k1: int, k2: int| 0 <= k1 < k2 < idx.len() implies #[trigger] idx[k1]
        < #[trigger] idx[k2] by {
        assert(source_index(sources[k1]) < source_index(sources[k2]));
    }
    assert(idx.len() <= pre.len());
}

proof fn lemma_next_order_bounds(orders: Seq<u32>)
    ensures
        next_order_after(orders) <= u32::MAX,
        forall|i: int| 0 <= i < orders.len() ==> orders[i] <= next_order_after(orders),
    decreases orders.len(),
{
    if orders.len() > 0 {
        lemma_next_order_bounds(orders.drop_last());
        assert forall|i: int| 0 <= i < orders.len() implies orders[i] <= next_order_after(orders) by {
            if i < orders.len() - 1 {
                assert(orders.drop_last()[i] == orders[i]);
            }
        }
    }
}

/// What `metadata_from_state` writes for a Dock whose launchers are in
/// order of their numbers and all live in its folder under a file name is
/// in the form `lemma_rebuild_keeps_recorded_order` needs.
pub proof fn lemma_written_records_in_dock_order(
    records: Seq<DockRecord>,
    items: Seq<DockItem>,
    dock: Seq<char>,
)
    requires
        records.len() == items.len(),
        forall|k: int| 0 <= k < items.len() ==> record_matches(#[trigger] records[k], items[k], dock),
        forall|i: int, j: int|
            0 <= i < j < items.len() ==> (#[trigger] items[i]).order <= (#[trigger] items[j]).order,
        forall|k: int|
            0 <= k < items.len() && (#[trigger] items[k]).kind == DockItemKind::Shortcut ==> direct_entry(
                items[k].path@,
                dock,
            ) && file_name_of(items[k].path@) is Some,
    ensures
        records_in_dock_order(records),
{
    assert forall|i: int, j: int| 0 <= i < j < records.len() implies (#[trigger] records[i]).order
        <= (#[trigger] records[j]).order by {
        assert(record_matches(records[i], items[i], dock));
        assert(record_matches(records[j], items[j], dock));
    }
    assert forall|i: int|
        0 <= i < records.len() && (#[trigger] records[i]).kind == DockItemKind::Shortcut implies records[i].physical_name is Some by {
        assert(record_matches(records[i], items[i], dock));
    }
}

} // verus!
