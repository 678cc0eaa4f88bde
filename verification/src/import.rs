//! Importing a configuration: which imported drawers are acceptable, and
//! how their links join the drawers already configured without deleting
//! anything.
use vstd::prelude::*;

use crate::levels::DrawerContents;
use crate::model::{DrawerItem, StorageMode};
use crate::order_map::LevelOrders;
use crate::paths::{comparable_path, is_within, path_key, within_keys};
use crate::persistence::{is_windows_absolute, windows_absolute};
use crate::storage::{folder_name_message, folder_name_problem};
use crate::text::{chars_of, push_str, str_eq, trim, trim_seq, trimmed_chars};
use crate::validation::{color_message, is_hex_color, validate_color, validate_name};

verus! {

/// An imported drawer as the import rules read it. `opacity_valid` says
/// whether its opacity is a finite number within the accepted range; that
/// float comparison is made by the caller that reads the number.
pub struct ImportedDrawer {
    pub id: String,
    pub name: String,
    pub color: String,
    pub opacity_valid: bool,
    pub items: Vec<DrawerItem>,
    pub level_orders: LevelOrders,
    pub folder_path: String,
    /// Whether `folder_path` is a folder on this machine.
    pub folder_is_dir: bool,
}

pub open spec fn ids_message() -> Seq<char> {
    "La configuración importada contiene identificadores de cajón vacíos o repetidos"@
}

/// The first link whose path is not absolute.
pub open spec fn first_bad_link(items: Seq<DrawerItem>, end: int) -> Option<int>
    decreases end,
{
    if end <= 0 {
        None
    } else {
        match first_bad_link(items, end - 1) {
            Some(i) => Some(i),
            None => if items[end - 1].storage_mode == StorageMode::Linked && !windows_absolute(
                items[end - 1].path@,
            ) {
                Some(end - 1)
            } else {
                None
            },
        }
    }
}

/// Why an imported drawer is refused, given the ids of the drawers
/// imported before it and whether a drawer with its id is configured.
pub open spec fn drawer_refusal(d: ImportedDrawer, seen: Seq<Seq<char>>, configured: bool) -> Option<
    Seq<char>,
> {
    if trim_seq(d.id@).len() == 0 || seen.contains(d.id@) {
        Some(ids_message())
    } else {
        match first_bad_link(d.items@, d.items@.len() as int) {
            Some(i) => Some(
                "El vínculo “"@ + d.items@[i].display_name@ + "” no tiene una ruta absoluta válida"@,
            ),
            None => if folder_name_problem(trim_seq(d.name@)) is Some {
                Some(
                    folder_name_message(
                        folder_name_problem(trim_seq(d.name@))->0,
                        trim_seq(d.name@),
                    ),
                )
            } else if !is_hex_color(d.color@) {
                Some(color_message())
            } else if !d.opacity_valid {
                Some(
                    "El cajón “"@ + (if configured {
                        d.name@
                    } else {
                        trim_seq(d.name@)
                    }) + "” tiene una opacidad inválida"@,
                )
            } else {
                None
            },
        }
    }
}

pub open spec fn id_views(ds: Seq<ImportedDrawer>) -> Seq<Seq<char>> {
    ds.map_values(|d: ImportedDrawer| d.id@)
}

pub open spec fn string_views(s: Seq<String>) -> Seq<Seq<char>> {
    s.map_values(|x: String| x@)
}

/// The first refused drawer of the import, and why.
pub open spec fn import_refusal(ds: Seq<ImportedDrawer>, configured: Seq<Seq<char>>, end: int) -> Option<
    Seq<char>,
>
    decreases end,
{
    if end <= 0 {
        None
    } else {
        match import_refusal(ds, configured, end - 1) {
            Some(m) => Some(m),
            None => drawer_refusal(
                ds[end - 1],
                id_views(ds.take(end - 1)),
                configured.contains(ds[end - 1].id@),
            ),
        }
    }
}

fn bad_link(items: &Vec<DrawerItem>) -> (r: Option<usize>)
    ensures
        r matches Some(i) ==> i < items@.len() && first_bad_link(items@, items@.len() as int) == Some(
            i as int,
        ),
        r is None ==> first_bad_link(items@, items@.len() as int) is None,
{
    let mut i: usize = 0;
    while i < items.len()
        invariant
            i <= items@.len(),
            first_bad_link(items@, i as int) is None,
        decreases items@.len() - i,
    {
        if items[i].storage_mode == StorageMode::Linked && !is_windows_absolute(
            items[i].path.as_str(),
        ) {
            proof {
                lemma_first_bad_link_stable(items@, i as int + 1, items@.len() as int);
            }
            return Some(i);
        }
        i = i + 1;
    }
    None
}

proof fn lemma_first_bad_link_stable(items: Seq<DrawerItem>, a: int, b: int)
    requires
        0 <= a <= b,
        first_bad_link(items, a) is Some,
    ensures
        first_bad_link(items, b) == first_bad_link(items, a),
    decreases b - a,
{
    if b > a {
        lemma_first_bad_link_stable(items, a, b - 1);
    }
}

fn contains_id(list: &Vec<String>, id: &str) -> (r: bool)
    ensures
        r == string_views(list@).contains(id@),
{
    let mut i: usize = 0;
    while i < list.len()
        invariant
            i <= list@.len(),
            forall|k: int| 0 <= k < i ==> string_views(list@)[k] != id@,
        decreases list@.len() - i,
    {
        if str_eq(list[i].as_str(), id) {
            assert(string_views(list@)[i as int] == id@);
            return true;
        }
        i = i + 1;
    }
    false
}

fn seen_before(ds: &Vec<ImportedDrawer>, n: usize) -> (r: bool)
    requires
        n < ds@.len(),
    ensures
        r == id_views(ds@.take(n as int)).contains(ds@[n as int].id@),
{
    let mut i: usize = 0;
    while i < n
        invariant
            i <= n < ds@.len(),
            forall|k: int| 0 <= k < i ==> id_views(ds@.take(n as int))[k] != ds@[n as int].id@,
        decreases n - i,
    {
        if str_eq(ds[i].id.as_str(), ds[n].id.as_str()) {
            assert(id_views(ds@.take(n as int))[i as int] == ds@[n as int].id@);
            return true;
        }
        i = i + 1;
    }
    false
}

/// Accepts the import when every drawer passes, checked in order: a
/// non-blank id not repeated in the import, links with absolute paths, a
/// valid name, a valid color and a valid opacity. Otherwise refuses it
/// with the reason of the first drawer that fails.
pub fn check_import(ds: &Vec<ImportedDrawer>, configured_ids: &Vec<String>) -> (r: Result<(), String>)
    ensures
        r is Ok <==> import_refusal(ds@, string_views(configured_ids@), ds@.len() as int) is None,
        r matches Err(m) ==> import_refusal(ds@, string_views(configured_ids@), ds@.len() as int)
            == Some(m@),
{
    let ghost cv = string_views(configured_ids@);
    let mut n: usize = 0;
    while n < ds.len()
        invariant
            n <= ds@.len(),
            cv == string_views(configured_ids@),
            import_refusal(ds@, cv, n as int) is None,
        decreases ds@.len() - n,
    {
        let d = &ds[n];
        assert(ds@.take(n as int + 1).take(n as int) =~= ds@.take(n as int));
        let seen = seen_before(ds, n);
        let configured = contains_id(configured_ids, d.id.as_str());
        let message: Option<String> = if trimmed_chars(d.id.as_str()).len() == 0 || seen {
            proof {
                reveal_strlit(
                    "La configuración importada contiene identificadores de cajón vacíos o repetidos",
                );
            }
            Some(
                "La configuración importada contiene identificadores de cajón vacíos o repetidos".to_owned(),
            )
        } else {
            match bad_link(&d.items) {
                Some(i) => {
                    let mut m = "El vínculo “".to_owned();
                    push_str(&mut m, d.items[i].display_name.as_str());
                    push_str(&mut m, "” no tiene una ruta absoluta válida");
                    proof {
                        reveal_strlit("El vínculo “");
                        reveal_strlit("” no tiene una ruta absoluta válida");
                    }
                    Some(m)
                },
                None => match validate_name(d.name.as_str()) {
                    Err(m) => Some(m),
                    Ok(valid_name) => match validate_color(d.color.as_str()) {
                        Err(m) => Some(m),
                        Ok(_) => {
                            if !d.opacity_valid {
                                let mut m = "El cajón “".to_owned();
                                if configured {
                                    push_str(&mut m, d.name.as_str());
                                } else {
                                    push_str(&mut m, valid_name.as_str());
                                }
                                push_str(&mut m, "” tiene una opacidad inválida");
                                proof {
                                    reveal_strlit("El cajón “");
                                    reveal_strlit("” tiene una opacidad inválida");
                                }
                                Some(m)
                            } else {
                                None
                            }
                        },
                    },
                },
            }
        };
        assert(message matches Some(m) ==> drawer_refusal(
            ds@[n as int],
            id_views(ds@.take(n as int)),
            cv.contains(ds@[n as int].id@),
        ) == Some(m@));
        assert(message is None ==> drawer_refusal(
            ds@[n as int],
            id_views(ds@.take(n as int)),
            cv.contains(ds@[n as int].id@),
        ) is None);
        if let Some(m) = message {
            proof {
                lemma_refusal_stable(ds@, cv, n as int + 1, ds@.len() as int);
            }
            return Err(m);
        }
        n = n + 1;
    }
    Ok(())
}

proof fn lemma_refusal_stable(ds: Seq<ImportedDrawer>, configured: Seq<Seq<char>>, a: int, b: int)
    requires
        0 <= a <= b,
        import_refusal(ds, configured, a) is Some,
    ensures
        import_refusal(ds, configured, b) == import_refusal(ds, configured, a),
    decreases b - a,
{
    if b > a {
        lemma_refusal_stable(ds, configured, a, b - 1);
    }
}

/// The links of an imported drawer that join the configured drawer of the
/// same id: those whose path the drawer does not reference yet.
pub open spec fn new_links(incoming: Seq<DrawerItem>, known: Seq<Seq<char>>) -> Seq<DrawerItem>
    decreases incoming.len(),
{
    if incoming.len() == 0 {
        Seq::empty()
    } else {
        let rest = new_links(incoming.drop_last(), known);
        let last = incoming.last();
        if last.storage_mode == StorageMode::Linked && !known.contains(path_key(last.path@)) {
            rest.push(last)
        } else {
            rest
        }
    }
}

/// Merging imported links adds, in the order they came, exactly the
/// imported links whose path the drawer does not reference yet; elements
/// kept in the imported drawer's folder are never added this way.
pub proof fn lemma_merge_adds_unknown_links(incoming: Seq<DrawerItem>, known: Seq<Seq<char>>)
    ensures
        new_links(incoming, known) == incoming.filter(
            |x: DrawerItem| x.storage_mode == StorageMode::Linked && !known.contains(path_key(x.path@)),
        ),
        forall|k: int|
            0 <= k < new_links(incoming, known).len() ==> (#[trigger] new_links(incoming, known)[k]).storage_mode
                == StorageMode::Linked && !known.contains(path_key(new_links(incoming, known)[k].path@)),
    decreases incoming.len(),
{
    reveal(Seq::filter);
    if incoming.len() > 0 {
        lemma_merge_adds_unknown_links(incoming.drop_last(), known);
    }
    let f = incoming.filter(
        |x: DrawerItem| x.storage_mode == StorageMode::Linked && !known.contains(path_key(x.path@)),
    );
    incoming.filter_lemma(
        |x: DrawerItem| x.storage_mode == StorageMode::Linked && !known.contains(path_key(x.path@)),
    );
    assert forall|k: int| 0 <= k < f.len() implies (#[trigger] f[k]).storage_mode
        == StorageMode::Linked && !known.contains(path_key(f[k].path@)) by {
        assert(f.contains(f[k]));
    }
}

pub open spec fn path_keys(items: Seq<DrawerItem>) -> Seq<Seq<char>> {
    items.map_values(|i: DrawerItem| path_key(i.path@))
}

fn key_known(existing: &Vec<DrawerItem>, key: &str) -> (r: bool)
    ensures
        r == path_keys(existing@).contains(key@),
{
    let mut i: usize = 0;
    while i < existing.len()
        invariant
            i <= existing@.len(),
            forall|k: int| 0 <= k < i ==> path_keys(existing@)[k] != key@,
        decreases existing@.len() - i,
    {
        if str_eq(comparable_path(existing[i].path.as_str()).as_str(), key) {
            assert(path_keys(existing@)[i as int] == key@);
            return true;
        }
        i = i + 1;
    }
    false
}

/// Adds to a configured drawer's elements the imported links it does not
/// reference yet; nothing is removed.
pub fn merge_links(existing: &mut Vec<DrawerItem>, incoming: &Vec<DrawerItem>)
    ensures
        final(existing)@ == old(existing)@ + new_links(incoming@, path_keys(old(existing)@)),
{
    let ghost start = existing@;
    let mut known: Vec<DrawerItem> = Vec::new();
    let mut j: usize = 0;
    while j < existing.len()
        invariant
            j <= existing@.len(),
            existing@ == start,
            known@ == start.take(j as int),
        decreases existing@.len() - j,
    {
        known.push(existing[j].duplicate());
        assert(known@ =~= start.take(j + 1));
        j = j + 1;
    }
    assert(start.take(start.len() as int) =~= start);
    let mut i: usize = 0;
    while i < incoming.len()
        invariant
            i <= incoming@.len(),
            known@ == start,
            existing@ == start + new_links(incoming@.take(i as int), path_keys(start)),
        decreases incoming@.len() - i,
    {
        assert(incoming@.take(i + 1).drop_last() =~= incoming@.take(i as int));
        let key = comparable_path(incoming[i].path.as_str());
        if incoming[i].storage_mode == StorageMode::Linked && !key_known(&known, key.as_str()) {
            existing.push(incoming[i].duplicate());
            assert(existing@ =~= start + new_links(incoming@.take(i + 1), path_keys(start)));
        }
        i = i + 1;
    }
    assert(incoming@.take(incoming@.len() as int) =~= incoming@);
}

/// The links a newly imported drawer keeps, now belonging to it.
pub open spec fn imported_links_of(items: Seq<DrawerItem>) -> Seq<DrawerItem>
    decreases items.len(),
{
    if items.len() == 0 {
        Seq::empty()
    } else {
        let rest = imported_links_of(items.drop_last());
        if items.last().storage_mode == StorageMode::Linked {
            rest.push(items.last())
        } else {
            rest
        }
    }
}

/// Keeps only the links of an imported drawer, each moved to drawer
/// `drawer_id`; elements kept in another computer's folders stay behind.
pub fn imported_links(items: &Vec<DrawerItem>, drawer_id: &str) -> (r: Vec<DrawerItem>)
    ensures
        r@.len() == imported_links_of(items@).len(),
        forall|k: int|
            0 <= k < r@.len() ==> #[trigger] r@[k] == (DrawerItem {
                drawer_id: r@[k].drawer_id,
                ..imported_links_of(items@)[k]
            }) && r@[k].drawer_id@ == drawer_id@,
{
    let mut r: Vec<DrawerItem> = Vec::new();
    let mut i: usize = 0;
    while i < items.len()
        invariant
            i <= items@.len(),
            r@.len() == imported_links_of(items@.take(i as int)).len(),
            forall|k: int|
                0 <= k < r@.len() ==> #[trigger] r@[k] == (DrawerItem {
                    drawer_id: r@[k].drawer_id,
                    ..imported_links_of(items@.take(i as int))[k]
                }) && r@[k].drawer_id@ == drawer_id@,
        decreases items@.len() - i,
    {
        assert(items@.take(i + 1).drop_last() =~= items@.take(i as int));
        let ghost before = r@;
        if items[i].storage_mode == StorageMode::Linked {
            let mut item = items[i].duplicate();
            item.drawer_id = crate::text::string_of(&chars_of(drawer_id));
            r.push(item);
            assert forall|k: int| 0 <= k < r@.len() implies #[trigger] r@[k] == (DrawerItem {
                drawer_id: r@[k].drawer_id,
                ..imported_links_of(items@.take(i + 1))[k]
            }) && r@[k].drawer_id@ == drawer_id@ by {
                if k < before.len() {
                    assert(r@[k] == before[k]);
                }
            }
        }
        i = i + 1;
    }
    assert(items@.take(items@.len() as int) =~= items@);
    r
}

/// The folder a newly imported drawer keeps: its own when it lies within
/// the drawers folder and exists as a folder (`is_dir`), none otherwise.
pub fn imported_folder(folder_path: &str, drawers_root: &str, is_dir: bool) -> (r: String)
    ensures
        r@ == (if within_keys(path_key(folder_path@), path_key(drawers_root@)) && is_dir {
            folder_path@
        } else {
            Seq::<char>::empty()
        }),
{
    if is_within(folder_path, drawers_root) && is_dir {
        crate::text::string_of(&chars_of(folder_path))
    } else {
        String::new()
    }
}

/// The ids of the drawers after an import: the configured ones, in their
/// order, then each imported id not yet among them, in import order. An
/// imported drawer whose id is configured updates that drawer in place.
pub open spec fn merged_ids(configured: Seq<Seq<char>>, incoming: Seq<Seq<char>>) -> Seq<
    Seq<char>,
>
    decreases incoming.len(),
{
    if incoming.len() == 0 {
        configured
    } else {
        let m = merged_ids(configured, incoming.drop_last());
        if m.contains(incoming.last()) {
            m
        } else {
            m.push(incoming.last())
        }
    }
}

/// An import never removes a configured drawer: the configured ids stay
/// first and in their order, every imported id is in the result, and
/// nothing else is.
pub proof fn lemma_import_keeps_configured_drawers(
    configured: Seq<Seq<char>>,
    incoming: Seq<Seq<char>>,
)
    ensures
        configured.is_prefix_of(merged_ids(configured, incoming)),
        forall|k: int| 0 <= k < incoming.len() ==> merged_ids(configured, incoming).contains(
            #[trigger] incoming[k],
        ),
        forall|k: int|
            0 <= k < merged_ids(configured, incoming).len() ==> configured.contains(
                #[trigger] merged_ids(configured, incoming)[k],
            ) || incoming.contains(merged_ids(configured, incoming)[k]),
    decreases incoming.len(),
{
    if incoming.len() > 0 {
        let p = incoming.drop_last();
        lemma_import_keeps_configured_drawers(configured, p);
        let m = merged_ids(configured, p);
        let r = merged_ids(configured, incoming);
        assert forall|k: int| 0 <= k < incoming.len() implies r.contains(#[trigger] incoming[k]) by {
            if k < incoming.len() - 1 {
                assert(p[k] == incoming[k]);
                assert(m.contains(p[k]));
                let w = choose|w: int| 0 <= w < m.len() && m[w] == p[k];
                assert(r[w] == m[w]);
            } else if !m.contains(incoming.last()) {
                assert(r[m.len() as int] == incoming.last());
            }
        }
        assert forall|k: int| 0 <= k < r.len() implies configured.contains(#[trigger] r[k])
            || incoming.contains(r[k]) by {
            if k < m.len() {
                assert(r[k] == m[k]);
                if incoming.drop_last().contains(m[k]) {
                    let w = choose|w: int| 0 <= w < p.len() && p[w] == m[k];
                    assert(incoming[w] == m[k]);
                }
            } else {
                assert(r[k] == incoming[incoming.len() - 1]);
            }
        }
    }
}

pub open spec fn drawer_ids(s: Seq<DrawerContents>) -> Seq<Seq<char>> {
    s.map_values(|d: DrawerContents| d.id@)
}

/// The first index of `x` in `ids`.
pub open spec fn first_with(ids: Seq<Seq<char>>, x: Seq<char>) -> Option<int>
    decreases ids.len(),
{
    if ids.len() == 0 {
        None
    } else {
        match first_with(ids.drop_last(), x) {
            Some(i) => Some(i),
            None => if ids.last() == x {
                Some(ids.len() - 1)
            } else {
                None
            },
        }
    }
}

/// A configured drawer once an imported drawer with its id is merged into
/// it: the checked name and the imported level orders; its links gain the
/// imported links whose paths it does not hold yet; it changed `now`.
pub open spec fn merged_into(
    r: DrawerContents,
    old: DrawerContents,
    d: ImportedDrawer,
    now: u64,
) -> bool {
    &&& r.id == old.id
    &&& r.name@ == trim_seq(d.name@)
    &&& r.folder_path == old.folder_path
    &&& r.level_orders == d.level_orders
    &&& r.items@ == old.items@ + new_links(d.items@, path_keys(old.items@))
    &&& r.updated_at == now
}

/// A drawer added by an import: its id, checked name and level orders, only
/// its links (now belonging to it), its folder only when that folder lies
/// in the drawers' root and exists, and changed `now`.
pub open spec fn added_by_import(
    r: DrawerContents,
    d: ImportedDrawer,
    drawers_root: Seq<char>,
    now: u64,
) -> bool {
    &&& r.id@ == d.id@
    &&& r.name@ == trim_seq(d.name@)
    &&& r.folder_path@ == (if within_keys(path_key(d.folder_path@), path_key(drawers_root))
        && d.folder_is_dir {
        d.folder_path@
    } else {
        Seq::<char>::empty()
    })
    &&& r.level_orders == d.level_orders
    &&& r.items@.len() == imported_links_of(d.items@).len()
    &&& forall|k: int|
        0 <= k < r.items@.len() ==> #[trigger] r.items@[k] == (DrawerItem {
            drawer_id: r.items@[k].drawer_id,
            ..imported_links_of(d.items@)[k]
        }) && r.items@[k].drawer_id@ == d.id@
    &&& r.updated_at == now
}

fn merged_drawer(old: DrawerContents, d: ImportedDrawer, now: u64) -> (r: DrawerContents)
    ensures
        merged_into(r, old, d, now),
{
    let DrawerContents { id, name: _, folder_path, items, level_orders: _, updated_at: _ } = old;
    let mut items = items;
    merge_links(&mut items, &d.items);
    DrawerContents {
        id,
        name: trim(d.name.as_str()),
        folder_path,
        items,
        level_orders: d.level_orders,
        updated_at: now,
    }
}

fn added_drawer(d: ImportedDrawer, drawers_root: &str, now: u64) -> (r: DrawerContents)
    ensures
        added_by_import(r, d, drawers_root@, now),
{
    let items = imported_links(&d.items, d.id.as_str());
    let folder_path = imported_folder(d.folder_path.as_str(), drawers_root, d.folder_is_dir);
    let name = trim(d.name.as_str());
    DrawerContents { id: d.id, name, folder_path, items, level_orders: d.level_orders, updated_at: now }
}

fn find_configured(current: &Vec<DrawerContents>, n: usize, id: &str) -> (r: Option<usize>)
    requires
        n <= current@.len(),
    ensures
        r matches Some(e) ==> first_with(drawer_ids(current@).take(n as int), id@) == Some(e as int),
        r is None ==> first_with(drawer_ids(current@).take(n as int), id@) is None,
{
    let ghost t = drawer_ids(current@).take(n as int);
    let mut i: usize = 0;
    while i < n
        invariant
            n <= current@.len(),
            i <= n,
            t == drawer_ids(current@).take(n as int),
            first_with(t.take(i as int), id@) is None,
        decreases n - i,
    {
        assert(t.take(i + 1).drop_last() =~= t.take(i as int));
        if str_eq(current[i].id.as_str(), id) {
            assert(t.take(i + 1).last() == id@);
            assert(first_with(t.take(i + 1), id@) == Some(i as int));
            proof {
                lemma_first_with_prefix(t, i as int + 1);
            }
            return Some(i);
        }
        i = i + 1;
    }
    assert(t.take(n as int) =~= t);
    None
}

/// A hit within a prefix is the first hit of the whole sequence.
proof fn lemma_first_with_prefix(ids: Seq<Seq<char>>, a: int)
    requires
        0 <= a <= ids.len(),
    ensures
        forall|x: Seq<char>| (#[trigger] first_with(ids.take(a), x)) is Some ==> first_with(ids, x)
            == first_with(ids.take(a), x),
    decreases ids.len() - a,
{
    if a < ids.len() {
        lemma_first_with_prefix(ids, a + 1);
        assert forall|x: Seq<char>| (#[trigger] first_with(ids.take(a), x)) is Some implies first_with(
            ids,
            x,
        ) == first_with(ids.take(a), x) by {
            assert(ids.take(a + 1).drop_last() =~= ids.take(a));
            assert(first_with(ids.take(a + 1), x) == first_with(ids.take(a), x));
        }
    } else {
        assert(ids.take(a) =~= ids);
    }
}

proof fn lemma_first_with_found(ids: Seq<Seq<char>>, x: Seq<char>)
    ensures
        first_with(ids, x) matches Some(i) ==> 0 <= i < ids.len() && ids[i] == x && forall|j: int|
            0 <= j < i ==> ids[j] != x,
        first_with(ids, x) is None ==> !ids.contains(x),
    decreases ids.len(),
{
    if ids.len() > 0 {
        let p = ids.drop_last();
        lemma_first_with_found(p, x);
        match first_with(p, x) {
            Some(i) => {
                assert(p[i] == ids[i]);
                assert forall|j: int| 0 <= j < i implies ids[j] != x by {
                    assert(p[j] == ids[j]);
                }
            },
            None => {
                assert forall|j: int| 0 <= j < ids.len() - 1 implies ids[j] != x by {
                    assert(p[j] == ids[j]);
                    if ids[j] == x {
                        assert(p.contains(x));
                    }
                }
            },
        }
    }
}

/// The ids of an accepted import are all different.
proof fn lemma_accepted_ids_distinct(ds: Seq<ImportedDrawer>, configured: Seq<Seq<char>>, end: int)
    requires
        0 <= end <= ds.len(),
        import_refusal(ds, configured, end) is None,
    ensures
        forall|a: int, b: int| 0 <= a < b < end ==> (#[trigger] ds[a]).id@ != (#[trigger] ds[b]).id@,
    decreases end,
{
    if end > 0 {
        lemma_accepted_ids_distinct(ds, configured, end - 1);
        assert forall|a: int, b: int| 0 <= a < b < end implies (#[trigger] ds[a]).id@ != (
        #[trigger] ds[b]).id@ by {
            if b == end - 1 {
                assert(id_views(ds.take(end - 1))[a] == ds[a].id@);
                assert(!id_views(ds.take(end - 1)).contains(ds[b].id@));
            }
        }
    }
}

/// Merges an imported configuration's drawers into the configured ones.
/// Refused exactly as `check_import` refuses, and then nothing changes.
/// Otherwise the drawer list, by id, is `merged_ids`: a configured drawer
/// whose id is imported (its first occurrence) is merged with the imported
/// one, every other configured drawer stays as it was, and each imported
/// drawer with a new id is added at the end, in import order.
#[verifier::rlimit(40)]
pub fn merge_imported_drawers(
    current: &mut Vec<DrawerContents>,
    incoming: Vec<ImportedDrawer>,
    drawers_root: &str,
    now: u64,
) -> (r: Result<(), String>)
    ensures
        r is Ok <==> import_refusal(incoming@, drawer_ids(old(current)@), incoming@.len() as int)
            is None,
        r matches Err(m) ==> import_refusal(
            incoming@,
            drawer_ids(old(current)@),
            incoming@.len() as int,
        ) == Some(m@) && final(current)@ == old(current)@,
        r is Ok ==> {
            let o = old(current)@;
            let f = final(current)@;
            &&& drawer_ids(f) == merged_ids(drawer_ids(o), id_views(incoming@))
            &&& f.len() >= o.len()
            &&& forall|i: int|
                0 <= i < o.len() ==> if first_with(drawer_ids(o), o[i].id@) == Some(i)
                    && first_with(id_views(incoming@), o[i].id@) is Some {
                    merged_into(
                        #[trigger] f[i],
                        o[i],
                        incoming@[first_with(id_views(incoming@), o[i].id@)->0],
                        now,
                    )
                } else {
                    f[i] == o[i]
                }
            &&& forall|i: int|
                o.len() <= i < f.len() ==> exists|k: int|
                    0 <= k < incoming@.len() && incoming@[k].id@ == (#[trigger] f[i]).id@
                        && !drawer_ids(o).contains(incoming@[k].id@) && added_by_import(
                        f[i],
                        incoming@[k],
                        drawers_root@,
                        now,
                    )
        },
{
    let mut ids: Vec<String> = Vec::new();
    let mut j: usize = 0;
    while j < current.len()
        invariant
            j <= current@.len(),
            string_views(ids@) == drawer_ids(current@).take(j as int),
        decreases current@.len() - j,
    {
        let ghost before = ids@;
        ids.push(current[j].id.clone());
        assert(string_views(ids@) =~= string_views(before).push(current@[j as int].id@));
        assert(drawer_ids(current@).take(j + 1) =~= drawer_ids(current@).take(j as int).push(
            current@[j as int].id@,
        ));
        j = j + 1;
    }
    assert(drawer_ids(current@).take(current@.len() as int) =~= drawer_ids(current@));
    match check_import(&incoming, &ids) {
        Err(m) => {
            return Err(m);
        },
        Ok(()) => {},
    }
    let ghost o = current@;
    let ghost inc = incoming@;
    let ghost oids = drawer_ids(o);
    proof {
        lemma_accepted_ids_distinct(inc, oids, inc.len() as int);
    }
    let n0 = current.len();
    let total = incoming.len();
    assert(total == inc.len());
    let mut rest = incoming;
    let mut k: usize = 0;
    assert(inc.skip(0) =~= inc);
    assert(id_views(inc.take(0)) =~= Seq::<Seq<char>>::empty());
    while rest.len() > 0
        invariant
            n0 == o.len(),
            oids == drawer_ids(o),
            k <= inc.len(),
            inc.len() <= usize::MAX,
            rest@ == inc.skip(k as int),
            current@.len() >= n0,
            forall|a: int, b: int| 0 <= a < b < inc.len() ==> (#[trigger] inc[a]).id@ != (
            #[trigger] inc[b]).id@,
            drawer_ids(current@) == merged_ids(oids, id_views(inc.take(k as int))),
            forall|i: int|
                0 <= i < n0 ==> if first_with(oids, o[i].id@) == Some(i) && first_with(
                    id_views(inc.take(k as int)),
                    o[i].id@,
                ) is Some {
                    merged_into(
                        #[trigger] current@[i],
                        o[i],
                        inc[first_with(id_views(inc.take(k as int)), o[i].id@)->0],
                        now,
                    )
                } else {
                    current@[i] == o[i]
                },
            forall|i: int|
                n0 <= i < current@.len() ==> exists|kk: int|
                    0 <= kk < k && inc[kk].id@ == (#[trigger] current@[i]).id@ && !oids.contains(
                        inc[kk].id@,
                    ) && added_by_import(current@[i], inc[kk], drawers_root@, now),
        decreases rest@.len(),
    {
        let d = rest.remove(0);
        let ghost x = d.id@;
        let ghost before = current@;
        let ghost pk = id_views(inc.take(k as int));
        let ghost pk1 = id_views(inc.take(k + 1));
        proof {
            assert(inc.skip(k as int)[0] == inc[k as int]);
            assert(pk1.drop_last() =~= pk);
            assert(pk1.last() == x);
            lemma_first_with_found(pk, x);
            assert(!pk.contains(x)) by {
                if pk.contains(x) {
                    let a = choose|a: int| 0 <= a < pk.len() && pk[a] == x;
                    assert(inc[a].id@ == inc[k as int].id@);
                }
            }
            assert(drawer_ids(current@).take(n0 as int) =~= oids) by {
                assert forall|i: int| 0 <= i < n0 implies drawer_ids(current@)[i] == oids[i] by {
                    assert(current@[i].id == o[i].id);
                }
            }
        }
        match find_configured(current, n0, d.id.as_str()) {
            Some(e) => {
                proof {
                    lemma_first_with_found(oids, x);
                    assert(oids[e as int] == x);
                    assert(first_with(oids, o[e as int].id@) == Some(e as int));
                    assert(first_with(pk, o[e as int].id@) is None);
                    assert(current@[e as int] == o[e as int]);
                }
                let old_d = current.remove(e);
                let merged = merged_drawer(old_d, d, now);
                current.insert(e, merged);
                proof {
                    assert forall|i: int| 0 <= i < current@.len() && i != e implies current@[i]
                        == before[i] by {}
                    assert(drawer_ids(current@) =~= drawer_ids(before));
                    lemma_import_keeps_configured_drawers(oids, pk);
                    assert(merged_ids(oids, pk).contains(x)) by {
                        assert(merged_ids(oids, pk)[e as int] == oids[e as int]);
                    }
                    assert forall|i: int| 0 <= i < n0 implies if first_with(oids, o[i].id@) == Some(
                        i,
                    ) && first_with(pk1, o[i].id@) is Some {
                        merged_into(#[trigger] current@[i], o[i], inc[first_with(pk1, o[i].id@)->0], now)
                    } else {
                        current@[i] == o[i]
                    } by {
                        if o[i].id@ == x {
                            assert(first_with(pk1, x) == Some(k as int));
                            if i != e {
                                assert(first_with(oids, o[i].id@) != Some(i));
                            }
                        } else {
                            assert(first_with(pk1, o[i].id@) == first_with(pk, o[i].id@));
                        }
                    }
                    assert forall|i: int| n0 <= i < current@.len() implies exists|kk: int|
                        0 <= kk < k + 1 && inc[kk].id@ == (#[trigger] current@[i]).id@
                            && !oids.contains(inc[kk].id@) && added_by_import(
                            current@[i],
                            inc[kk],
                            drawers_root@,
                            now,
                        ) by {
                        assert(current@[i] == before[i]);
                    }
                }
            },
            None => {
                proof {
                    lemma_first_with_found(oids, x);
                    lemma_import_keeps_configured_drawers(oids, pk);
                    assert(!merged_ids(oids, pk).contains(x)) by {
                        if merged_ids(oids, pk).contains(x) {
                            let w = choose|w: int|
                                0 <= w < merged_ids(oids, pk).len() && merged_ids(oids, pk)[w] == x;
                            assert(oids.contains(merged_ids(oids, pk)[w]) || pk.contains(
                                merged_ids(oids, pk)[w],
                            ));
                        }
                    }
                }
                let added = added_drawer(d, drawers_root, now);
                current.push(added);
                proof {
                    assert(drawer_ids(current@) =~= drawer_ids(before).push(x));
                    assert forall|i: int| 0 <= i < n0 implies if first_with(oids, o[i].id@) == Some(
                        i,
                    ) && first_with(pk1, o[i].id@) is Some {
                        merged_into(#[trigger] current@[i], o[i], inc[first_with(pk1, o[i].id@)->0], now)
                    } else {
                        current@[i] == o[i]
                    } by {
                        assert(current@[i] == before[i]);
                        if o[i].id@ == x {
                            assert(oids[i] == x);
                        } else {
                            assert(first_with(pk1, o[i].id@) == first_with(pk, o[i].id@));
                        }
                    }
                    assert forall|i: int| n0 <= i < current@.len() implies exists|kk: int|
                        0 <= kk < k + 1 && inc[kk].id@ == (#[trigger] current@[i]).id@
                            && !oids.contains(inc[kk].id@) && added_by_import(
                            current@[i],
                            inc[kk],
                            drawers_root@,
                            now,
                        ) by {
                        if i == current@.len() - 1 {
                            assert(inc[k as int].id@ == current@[i].id@);
                        } else {
                            assert(current@[i] == before[i]);
                        }
                    }
                }
            },
        }
        proof {
            assert(rest@ =~= inc.skip(k + 1));
        }
        k = k + 1;
    }
    proof {
        assert(inc.take(k as int) =~= inc);
    }
    Ok(())
}

/// Every drawer of `ds` before `end` has a usable id, absolute links, a
/// valid name and color and a valid opacity, and no id repeats.
pub open spec fn clean_drawers(ds: Seq<ImportedDrawer>, end: int) -> bool {
    &&& forall|i: int| 0 <= i < end ==> trim_seq((#[trigger] ds[i]).id@).len() > 0
    &&& forall|i: int, j: int| 0 <= i < j < end ==> (#[trigger] ds[i]).id@ != (#[trigger] ds[j]).id@
    &&& forall|i: int, k: int|
        0 <= i < end && 0 <= k < ds[i].items@.len() && (#[trigger] ds[i].items@[k]).storage_mode
            == StorageMode::Linked ==> windows_absolute(ds[i].items@[k].path@)
    &&& forall|i: int|
        0 <= i < end ==> folder_name_problem(trim_seq((#[trigger] ds[i]).name@)) is None
            && is_hex_color(ds[i].color@) && ds[i].opacity_valid
}

proof fn lemma_first_bad_link_none(items: Seq<DrawerItem>, end: int)
    requires
        0 <= end <= items.len(),
    ensures
        first_bad_link(items, end) is None <==> forall|k: int|
            0 <= k < end && (#[trigger] items[k]).storage_mode == StorageMode::Linked
                ==> windows_absolute(items[k].path@),
    decreases end,
{
    if end > 0 {
        lemma_first_bad_link_none(items, end - 1);
    }
}

proof fn lemma_import_refusal_none(ds: Seq<ImportedDrawer>, configured: Seq<Seq<char>>, end: int)
    requires
        0 <= end <= ds.len(),
    ensures
        import_refusal(ds, configured, end) is None <==> clean_drawers(ds, end),
    decreases end,
{
    if end > 0 {
        lemma_import_refusal_none(ds, configured, end - 1);
        let d = ds[end - 1];
        let seen = id_views(ds.take(end - 1));
        lemma_first_bad_link_none(d.items@, d.items@.len() as int);
        assert(seen.contains(d.id@) <==> exists|i: int| 0 <= i < end - 1 && ds[i].id@ == d.id@) by {
            if seen.contains(d.id@) {
                let w = choose|w: int| 0 <= w < seen.len() && seen[w] == d.id@;
                assert(ds[w].id@ == d.id@);
            }
            if exists|i: int| 0 <= i < end - 1 && ds[i].id@ == d.id@ {
                let i = choose|i: int| 0 <= i < end - 1 && ds[i].id@ == d.id@;
                assert(seen[i] == d.id@);
            }
        }
        if clean_drawers(ds, end) {
            assert(clean_drawers(ds, end - 1));
            assert(trim_seq(ds[end - 1].id@).len() > 0);
            if seen.contains(d.id@) {
                let i = choose|i: int| 0 <= i < end - 1 && ds[i].id@ == d.id@;
                assert(ds[i].id@ != ds[end - 1].id@);
            }
            assert forall|k: int|
                0 <= k < d.items@.len() && (#[trigger] d.items@[k]).storage_mode
                    == StorageMode::Linked implies windows_absolute(d.items@[k].path@) by {
                assert(ds[end - 1].items@[k] == d.items@[k]);
            }
        }
        if import_refusal(ds, configured, end) is None {
            assert(import_refusal(ds, configured, end - 1) is None);
            assert(drawer_refusal(d, seen, configured.contains(d.id@)) is None);
            assert forall|i: int, j: int| 0 <= i < j < end implies (#[trigger] ds[i]).id@
                != (#[trigger] ds[j]).id@ by {
                if j == end - 1 {
                    assert(!seen.contains(d.id@));
                }
            }
        }
    }
}

/// An import is accepted exactly when every drawer has a usable id that no
/// other imported drawer repeats, links with absolute paths only, a name
/// Windows accepts as a folder name, a `#RRGGBB` color and a valid opacity.
pub proof fn lemma_accepted_imports(ds: Seq<ImportedDrawer>, configured: Seq<Seq<char>>)
    ensures
        import_refusal(ds, configured, ds.len() as int) is None <==> clean_drawers(
            ds,
            ds.len() as int,
        ),
{
    lemma_import_refusal_none(ds, configured, ds.len() as int);
}

} // verus!
