//! The saved configuration: which schema migrations a file needs, how
//! backups are named, listed and pruned, and how a loaded state is repaired
//! (duplicate or empty ids dropped, unusable paths marked unavailable).
use vstd::prelude::*;

use crate::model::{DockItem, DockItemKind, DrawerItem, SCHEMA_VERSION};
use crate::order_map::lex_lt;
use crate::sorting::{
    key_before, keyed_views, lemma_stable_sorted_in_order, lemma_stable_sorted_len,
    lemma_stable_sorted_permutes, stable_sort, stable_sorted, values_of, Keyed, KeyedView,
};
use crate::text::{
    chars_of, dec_digits, has_prefix, has_suffix, push_decimal, push_str, str_eq,
    trim_seq, trimmed_chars,
};

verus! {

pub struct PersistenceService;

/// One backup file as the backup center lists it.
#[derive(Clone, Debug)]
pub struct BackupInfo {
    pub file_name: String,
    pub created_at: u64,
    pub size: u64,
    pub schema_version: Option<u32>,
    pub valid: bool,
}

impl BackupInfo {
    /// A field-by-field copy.
    pub fn duplicate(&self) -> (r: Self)
        ensures
            r == *self,
    {
        BackupInfo {
            file_name: self.file_name.clone(),
            created_at: self.created_at,
            size: self.size,
            schema_version: self.schema_version,
            valid: self.valid,
        }
    }
}

pub const MAX_BACKUPS: usize = 8;

pub const MAX_CORRUPT_SAVES: usize = 3;

/// The empty value a migration puts under a missing key.
#[derive(Clone, Copy, Debug, PartialEq, Eq, Structural)]
pub enum SchemaDefault {
    EmptyObject,
    EmptyArray,
}

/// One migration: from schema `from` to `from + 1`, inserting `ensure`'s
/// key with its empty value when the key is missing.
pub struct MigrationStep {
    pub from: u32,
    pub ensure: Option<(String, SchemaDefault)>,
}

/// What the migration from `from` adds, or `None` where no migration
/// starts at `from`.
pub open spec fn step_edit(from: u32) -> Option<Option<(Seq<char>, SchemaDefault)>> {
    if 1 <= from <= 3 {
        Some(Some(("preferences"@, SchemaDefault::EmptyObject)))
    } else if from == 4 {
        Some(Some(("dock"@, SchemaDefault::EmptyObject)))
    } else if from == 6 {
        Some(Some(("panels"@, SchemaDefault::EmptyArray)))
    } else if from == 5 || from == 7 || from == 8 {
        Some(None)
    } else {
        None
    }
}

pub open spec fn step_matches(step: MigrationStep, from: u32) -> bool {
    &&& step.from == from
    &&& step_edit(from) matches Some(edit)
    &&& match (step.ensure, edit) {
        (None, None) => true,
        (Some((k, d)), Some((ek, ed))) => k@ == ek && d == ed,
        _ => false,
    }
}

pub open spec fn no_migration_message(from: u32) -> Seq<char> {
    "No existe una migración desde el esquema "@ + dec_digits(from as nat)
}

impl PersistenceService {
    /// The migration that starts at schema `from`.
    pub fn migration_step(from: u32) -> (r: Result<MigrationStep, String>)
        ensures
            r is Ok <==> step_edit(from) is Some,
            r matches Ok(step) ==> step_matches(step, from),
            r matches Err(m) ==> m@ == no_migration_message(from),
    {
        proof {
            reveal_strlit("preferences");
            reveal_strlit("dock");
            reveal_strlit("panels");
        }
        if 1 <= from && from <= 3 {
            Ok(
                MigrationStep {
                    from,
                    ensure: Some(("preferences".to_owned(), SchemaDefault::EmptyObject)),
                },
            )
        } else if from == 4 {
            Ok(MigrationStep { from, ensure: Some(("dock".to_owned(), SchemaDefault::EmptyObject)) })
        } else if from == 6 {
            Ok(MigrationStep { from, ensure: Some(("panels".to_owned(), SchemaDefault::EmptyArray)) })
        } else if from == 5 || from == 7 || from == 8 {
            Ok(MigrationStep { from, ensure: None })
        } else {
            let mut m = "No existe una migración desde el esquema ".to_owned();
            push_decimal(&mut m, from as u64);
            proof {
                reveal_strlit("No existe una migración desde el esquema ");
            }
            Err(m)
        }
    }
}

/// The schema a file declares; a file without one is a first-schema file.
pub open spec fn declared_schema(raw: Option<u64>) -> u64 {
    match raw {
        Some(v) => v,
        None => 1,
    }
}

/// The schema migrations start from: the declared one, at least 1.
pub open spec fn first_schema(raw: Option<u64>) -> u32 {
    if declared_schema(raw) == 0 {
        1
    } else {
        declared_schema(raw) as u32
    }
}

pub open spec fn newer_schema_message(v: u64) -> Seq<char> {
    "El estado usa el esquema "@ + dec_digits(v as nat)
        + ", pero esta versión admite hasta el esquema "@ + dec_digits(SCHEMA_VERSION as nat)
}

impl PersistenceService {
    /// The migrations a file with schema field `raw` goes through, in order,
    /// up to the current schema. A file from a newer schema is refused.
    pub fn migration_plan(raw: Option<u64>) -> (r: Result<Vec<MigrationStep>, String>)
        ensures
            r is Err <==> declared_schema(raw) > SCHEMA_VERSION,
            r matches Err(m) ==> m@ == newer_schema_message(declared_schema(raw)),
            r matches Ok(steps) ==> steps@.len() == SCHEMA_VERSION - first_schema(raw) && forall|
                k: int,
            |
                0 <= k < steps@.len() ==> step_matches(
                    #[trigger] steps@[k],
                    (first_schema(raw) + k) as u32,
                ),
    {
        let version: u64 = match raw {
            Some(v) => v,
            None => 1,
        };
        if version > SCHEMA_VERSION as u64 {
            let mut m = "El estado usa el esquema ".to_owned();
            push_decimal(&mut m, version);
            push_str(&mut m, ", pero esta versión admite hasta el esquema ");
            push_decimal(&mut m, SCHEMA_VERSION as u64);
            proof {
                reveal_strlit("El estado usa el esquema ");
                reveal_strlit(", pero esta versión admite hasta el esquema ");
            }
            return Err(m);
        }
        let start: u32 = if version == 0 {
            1
        } else {
            version as u32
        };
        let mut steps: Vec<MigrationStep> = Vec::new();
        let mut current = start;
        while current < SCHEMA_VERSION
            invariant
                start == first_schema(raw),
                1 <= start <= current <= SCHEMA_VERSION,
                steps@.len() == current - start,
                forall|k: int|
                    0 <= k < steps@.len() ==> step_matches(#[trigger] steps@[k], (start + k) as u32),
            decreases SCHEMA_VERSION - current,
        {
            match Self::migration_step(current) {
                Ok(step) => {
                    steps.push(step);
                },
                Err(_) => {
                    assert(false);
                },
            }
            current = current + 1;
        }
        Ok(steps)
    }
}

/// Every earlier schema migrates straight to the current one, one step per
/// schema, and a newer schema is refused.
pub proof fn lemma_every_previous_schema_migrates(v: u64)
    requires
        1 <= v <= SCHEMA_VERSION,
    ensures
        first_schema(Some(v)) == v,
        forall|k: int| v <= k < SCHEMA_VERSION ==> (#[trigger] step_edit(k as u32)) is Some,
{
}

/// Names of the backups the organizer writes: `desktop-organizer-save-v…`
/// with the `.json` extension.
pub open spec fn backup_file_name_ok(name: Seq<char>) -> bool {
    "desktop-organizer-save-v"@.is_prefix_of(name) && ".json"@.is_suffix_of(name)
}

pub fn is_backup_file_name(name: &str) -> (r: bool)
    ensures
        r == backup_file_name_ok(name@),
{
    let v = chars_of(name);
    let p = chars_of("desktop-organizer-save-v");
    let s = chars_of(".json");
    proof {
        reveal_strlit("desktop-organizer-save-v");
        reveal_strlit(".json");
    }
    has_prefix(&v, &p) && has_suffix(&v, &s)
}

/// A name the user may ask to load, restore or delete: a backup name with
/// no directory separator in it.
pub open spec fn safe_backup_name(name: Seq<char>) -> bool {
    &&& name.len() > 0
    &&& forall|i: int| 0 <= i < name.len() ==> #[trigger] name[i] != '/' && name[i] != '\\'
    &&& backup_file_name_ok(name)
}

pub open spec fn invalid_backup_message() -> Seq<char> {
    "El nombre del backup no es válido"@
}

pub fn check_backup_name(file_name: &str) -> (r: Result<(), String>)
    ensures
        r is Ok <==> safe_backup_name(file_name@),
        r matches Err(m) ==> m@ == invalid_backup_message(),
{
    let v = chars_of(file_name);
    let mut clean = true;
    let mut i: usize = 0;
    while i < v.len()
        invariant
            i <= v.len(),
            v@ == file_name@,
            clean == forall|k: int| 0 <= k < i ==> #[trigger] v@[k] != '/' && v@[k] != '\\',
        decreases v.len() - i,
    {
        if v[i] == '/' || v[i] == '\\' {
            clean = false;
        }
        i = i + 1;
    }
    if v.len() == 0 || !clean || !is_backup_file_name(file_name) {
        proof {
            reveal_strlit("El nombre del backup no es válido");
        }
        return Err("El nombre del backup no es válido".to_owned());
    }
    Ok(())
}

/// `desktop-organizer-save-v<version>-<millis>-<id>.json`.
pub open spec fn backup_name(version: Seq<char>, millis: u64, id: Seq<char>) -> Seq<char> {
    "desktop-organizer-save-v"@ + version + "-"@ + dec_digits(millis as nat) + "-"@ + id
        + ".json"@
}

pub fn backup_file_name(version: &str, millis: u64, id: &str) -> (r: String)
    ensures
        r@ == backup_name(version@, millis, id@),
{
    let mut r = "desktop-organizer-save-v".to_owned();
    push_str(&mut r, version);
    push_str(&mut r, "-");
    push_decimal(&mut r, millis);
    push_str(&mut r, "-");
    push_str(&mut r, id);
    push_str(&mut r, ".json");
    proof {
        reveal_strlit("desktop-organizer-save-v");
        reveal_strlit("-");
        reveal_strlit(".json");
    }
    r
}

/// Every backup the organizer writes is recognised as one, and, when its
/// version and id hold no directory separator, is a name the user may ask
/// to load, restore or delete; a damaged save set aside is never taken for
/// a backup.
pub proof fn lemma_written_backups_are_recognised(
    version: Seq<char>,
    millis: u64,
    id: Seq<char>,
    other_id: Seq<char>,
)
    ensures
        backup_file_name_ok(backup_name(version, millis, id)),
        (forall|i: int| 0 <= i < version.len() ==> #[trigger] version[i] != '/' && version[i] != '\\')
            && (forall|i: int| 0 <= i < id.len() ==> #[trigger] id[i] != '/' && id[i] != '\\')
            ==> safe_backup_name(backup_name(version, millis, id)),
        !backup_file_name_ok(corrupt_save_name(millis, other_id)),
{
    reveal_strlit("desktop-organizer-save-v");
    reveal_strlit("desktop-organizer-save-corrupt-");
    reveal_strlit("-");
    reveal_strlit(".json");
    crate::text::lemma_decimal_reads_back(millis as nat);
    let pre = "desktop-organizer-save-v"@;
    let d = dec_digits(millis as nat);
    let a = pre + version;
    let b = a + "-"@;
    let c = b + d;
    let e = c + "-"@;
    let f = e + id;
    let n = f + ".json"@;
    assert(n == backup_name(version, millis, id));
    assert(pre =~= n.subrange(0, pre.len() as int));
    assert(".json"@ =~= n.subrange(n.len() - 5, n.len() as int));
    if (forall|i: int| 0 <= i < version.len() ==> #[trigger] version[i] != '/' && version[i] != '\\')
        && (forall|i: int| 0 <= i < id.len() ==> #[trigger] id[i] != '/' && id[i] != '\\') {
        assert forall|i: int| 0 <= i < n.len() implies #[trigger] n[i] != '/' && n[i] != '\\' by {
            if i >= f.len() {
                assert(n[i] == ".json"@[i - f.len()]);
            } else if i >= e.len() {
                assert(n[i] == id[i - e.len()]);
            } else if i >= c.len() {
                assert(n[i] == "-"@[i - c.len()]);
            } else if i >= b.len() {
                assert(n[i] == d[i - b.len()]);
            } else if i >= a.len() {
                assert(n[i] == "-"@[i - a.len()]);
            } else if i >= pre.len() {
                assert(n[i] == version[i - pre.len()]);
            } else {
                assert(n[i] == pre[i]);
            }
        }
    }
    let m = corrupt_save_name(millis, other_id);
    let cp = "desktop-organizer-save-corrupt-"@;
    assert(m == cp + d + "-"@ + other_id + ".json"@);
    assert(m[23] == cp[23]);
    if backup_file_name_ok(m) {
        assert(m.subrange(0, pre.len() as int)[23] == pre[23]);
    }
}

/// `desktop-organizer-save-corrupt-<millis>-<id>.json`.
pub open spec fn corrupt_save_name(millis: u64, id: Seq<char>) -> Seq<char> {
    "desktop-organizer-save-corrupt-"@ + dec_digits(millis as nat) + "-"@ + id + ".json"@
}

pub fn corrupt_save_file_name(millis: u64, id: &str) -> (r: String)
    ensures
        r@ == corrupt_save_name(millis, id@),
{
    let mut r = "desktop-organizer-save-corrupt-".to_owned();
    push_decimal(&mut r, millis);
    push_str(&mut r, "-");
    push_str(&mut r, id);
    push_str(&mut r, ".json");
    proof {
        reveal_strlit("desktop-organizer-save-corrupt-");
        reveal_strlit("-");
        reveal_strlit(".json");
    }
    r
}

pub fn is_corrupt_save_name(name: &str) -> (r: bool)
    ensures
        r == "desktop-organizer-save-corrupt-"@.is_prefix_of(name@),
{
    let v = chars_of(name);
    let p = chars_of("desktop-organizer-save-corrupt-");
    proof {
        reveal_strlit("desktop-organizer-save-corrupt-");
    }
    has_prefix(&v, &p)
}

pub open spec fn backups_by_age(infos: Seq<BackupInfo>) -> Seq<KeyedView<BackupInfo>> {
    infos.map_values(|b: BackupInfo| (b.created_at, Seq::<char>::empty(), b))
}

impl PersistenceService {
    /// The backups, newest first; backups of the same age keep their order.
    pub fn list_backups(infos: Vec<BackupInfo>) -> (r: Vec<BackupInfo>)
        ensures
            r@ == values_of(stable_sorted(backups_by_age(infos@), true)),
    {
        let mut keyed: Vec<Keyed<BackupInfo>> = Vec::new();
        let mut i: usize = 0;
        while i < infos.len()
            invariant
                i <= infos@.len(),
                keyed_views(keyed@) == backups_by_age(infos@).take(i as int),
            decreases infos@.len() - i,
        {
            let b = infos[i].duplicate();
            let k = Keyed { rank: b.created_at, name: Vec::new(), value: b };
            let ghost before = keyed_views(keyed@);
            keyed.push(k);
            assert(keyed_views(keyed@) =~= backups_by_age(infos@).take(i + 1)) by {
                assert(k.name@ =~= Seq::<char>::empty());
                assert(keyed_views(keyed@) =~= before.push(k.key_view()));
            }
            i = i + 1;
        }
        assert(backups_by_age(infos@).take(infos@.len() as int) =~= backups_by_age(infos@));
        let sorted = stable_sort(keyed, true);
        let ghost sv = keyed_views(sorted@);
        let mut result: Vec<BackupInfo> = Vec::new();
        let mut j: usize = 0;
        while j < sorted.len()
            invariant
                j <= sorted@.len(),
                sv == keyed_views(sorted@),
                result@ == values_of(sv).take(j as int),
            decreases sorted@.len() - j,
        {
            let b = sorted[j].value.duplicate();
            result.push(b);
            assert(result@ =~= values_of(sv).take(j + 1));
            j = j + 1;
        }
        assert(values_of(sv).take(sorted@.len() as int) =~= values_of(sv));
        result
    }

    /// Whether the master save may be copied to the backups: it must exist
    /// and load (`load_error` is why it did not). A master that cannot be
    /// read is refused, so that no invalid backup is ever made.
    pub fn check_master_for_backup(master_exists: bool, load_error: &Option<String>) -> (r: Result<
        (),
        String,
    >)
        ensures
            !master_exists ==> (r matches Err(m) && m@ == no_master_message()),
            master_exists ==> match load_error {
                None => r is Ok,
                Some(e) => r matches Err(m) && m@ == invalid_master_message(e@),
            },
    {
        if !master_exists {
            return Err("Todavía no existe una configuración guardada para respaldar".to_owned());
        }
        match load_error {
            None => Ok(()),
            Some(e) => {
                let mut m = "El guardado maestro actual no es válido y no se reemplazó: ".to_owned();
                push_str(&mut m, e.as_str());
                Err(m)
            },
        }
    }

    /// A manual backup of the master save. `master_exists` and `load_error`
    /// describe the master save (see `check_master_for_backup`); `created`
    /// is the backup copied once that check passed. A missing or invalid
    /// master gives its error, whatever was copied.
    pub fn create_backup_now(
        master_exists: bool,
        load_error: &Option<String>,
        created: Option<BackupInfo>,
    ) -> (r: Result<BackupInfo, String>)
        ensures
            !master_exists ==> (r matches Err(m) && m@ == no_master_message()),
            master_exists && load_error is Some ==> (r matches Err(m) && m@
                == invalid_master_message(load_error->Some_0@)),
            master_exists && load_error is None ==> match created {
                Some(b) => r == Ok::<BackupInfo, String>(b),
                None => r matches Err(m) && m@ == no_master_message(),
            },
    {
        match Self::check_master_for_backup(master_exists, load_error) {
            Err(m) => Err(m),
            Ok(()) => match created {
                Some(b) => Ok(b),
                None => Err("Todavía no existe una configuración guardada para respaldar".to_owned()),
            },
        }
    }
}

pub open spec fn no_master_message() -> Seq<char> {
    "Todavía no existe una configuración guardada para respaldar"@
}

pub open spec fn invalid_master_message(e: Seq<char>) -> Seq<char> {
    "El guardado maestro actual no es válido y no se reemplazó: "@ + e
}

/// A Windows path that `Path::is_absolute` accepts: a drive letter, a
/// colon and a separator, or a path opening with two separators (network
/// shares and device paths).
pub open spec fn windows_absolute(p: Seq<char>) -> bool {
    ||| (p.len() >= 3 && (('a' <= p[0] <= 'z') || ('A' <= p[0] <= 'Z')) && p[1] == ':' && (p[2]
        == '\\' || p[2] == '/'))
    ||| (p.len() >= 2 && (p[0] == '\\' || p[0] == '/') && (p[1] == '\\' || p[1] == '/'))
}

pub fn is_windows_absolute(path: &str) -> (r: bool)
    ensures
        r == windows_absolute(path@),
{
    let p = chars_of(path);
    (p.len() >= 3 && (('a' <= p[0] && p[0] <= 'z') || ('A' <= p[0] && p[0] <= 'Z')) && p[1] == ':'
        && (p[2] == '\\' || p[2] == '/')) || (p.len() >= 2 && (p[0] == '\\' || p[0] == '/') && (p[1]
        == '\\' || p[1] == '/'))
}

/// Whether the id `id` already occurs among `ids`.
pub open spec fn id_seen(ids: Seq<Seq<char>>, id: Seq<char>) -> bool {
    exists|j: int| 0 <= j < ids.len() && ids[j] == id
}

pub open spec fn dock_item_ids(s: Seq<DockItem>) -> Seq<Seq<char>> {
    s.map_values(|i: DockItem| i.id@)
}

pub open spec fn drawer_item_ids(s: Seq<DrawerItem>) -> Seq<Seq<char>> {
    s.map_values(|i: DrawerItem| i.id@)
}

/// A launcher after repair: one whose path is not absolute cannot be found
/// and is marked unavailable; separators have no path.
pub open spec fn repaired_dock_item(item: DockItem) -> DockItem {
    if item.kind != DockItemKind::Separator && !windows_absolute(item.path@) {
        DockItem { available: false, ..item }
    } else {
        item
    }
}

/// The launchers kept by a repair, in order: the first of each id, none
/// with a blank id, each repaired.
pub open spec fn repaired_dock(s: Seq<DockItem>) -> Seq<DockItem>
    decreases s.len(),
{
    if s.len() == 0 {
        s
    } else {
        let rest = repaired_dock(s.drop_last());
        let last = s.last();
        if trim_seq(last.id@).len() > 0 && !id_seen(dock_item_ids(s.drop_last()), last.id@) {
            rest.push(repaired_dock_item(last))
        } else {
            rest
        }
    }
}

/// A drawer element after repair: one whose path is not absolute is
/// marked unavailable.
pub open spec fn repaired_drawer_item(item: DrawerItem) -> DrawerItem {
    if !windows_absolute(item.path@) {
        DrawerItem { available: false, ..item }
    } else {
        item
    }
}

pub open spec fn repaired_drawer(s: Seq<DrawerItem>) -> Seq<DrawerItem>
    decreases s.len(),
{
    if s.len() == 0 {
        s
    } else {
        let rest = repaired_drawer(s.drop_last());
        let last = s.last();
        if trim_seq(last.id@).len() > 0 && !id_seen(drawer_item_ids(s.drop_last()), last.id@) {
            rest.push(repaired_drawer_item(last))
        } else {
            rest
        }
    }
}

fn dock_id_seen(items: &Vec<DockItem>, upto: usize) -> (r: bool)
    requires
        upto < items@.len(),
    ensures
        r == id_seen(dock_item_ids(items@.take(upto as int)), items@[upto as int].id@),
{
    let ghost ids = dock_item_ids(items@.take(upto as int));
    let mut j: usize = 0;
    while j < upto
        invariant
            j <= upto < items@.len(),
            ids == dock_item_ids(items@.take(upto as int)),
            forall|k: int| 0 <= k < j ==> ids[k] != items@[upto as int].id@,
        decreases upto - j,
    {
        if str_eq(items[j].id.as_str(), items[upto].id.as_str()) {
            assert(ids[j as int] == items@[upto as int].id@);
            return true;
        }
        j = j + 1;
    }
    false
}

fn drawer_id_seen(items: &Vec<DrawerItem>, upto: usize) -> (r: bool)
    requires
        upto < items@.len(),
    ensures
        r == id_seen(drawer_item_ids(items@.take(upto as int)), items@[upto as int].id@),
{
    let ghost ids = drawer_item_ids(items@.take(upto as int));
    let mut j: usize = 0;
    while j < upto
        invariant
            j <= upto < items@.len(),
            ids == drawer_item_ids(items@.take(upto as int)),
            forall|k: int| 0 <= k < j ==> ids[k] != items@[upto as int].id@,
        decreases upto - j,
    {
        if str_eq(items[j].id.as_str(), items[upto].id.as_str()) {
            assert(ids[j as int] == items@[upto as int].id@);
            return true;
        }
        j = j + 1;
    }
    false
}

/// Drops launchers with blank or repeated ids and marks those whose path
/// cannot be found as unavailable.
pub fn repair_dock_items(items: &mut Vec<DockItem>)
    ensures
        final(items)@ == repaired_dock(old(items)@),
{
    let mut kept: Vec<DockItem> = Vec::new();
    let mut i: usize = 0;
    while i < items.len()
        invariant
            i <= items@.len(),
            kept@ == repaired_dock(items@.take(i as int)),
        decreases items@.len() - i,
    {
        assert(items@.take(i + 1).drop_last() =~= items@.take(i as int));
        let blank = trimmed_chars(items[i].id.as_str()).len() == 0;
        if !blank && !dock_id_seen(items, i) {
            let mut item = items[i].duplicate();
            if item.kind != DockItemKind::Separator && !is_windows_absolute(item.path.as_str()) {
                item.available = false;
            }
            kept.push(item);
        }
        i = i + 1;
    }
    assert(items@.take(items@.len() as int) =~= items@);
    *items = kept;
}

/// Drops drawer elements with blank or repeated ids and marks those whose
/// path cannot be found as unavailable.
pub fn repair_drawer_items(items: &mut Vec<DrawerItem>)
    ensures
        final(items)@ == repaired_drawer(old(items)@),
{
    let mut kept: Vec<DrawerItem> = Vec::new();
    let mut i: usize = 0;
    while i < items.len()
        invariant
            i <= items@.len(),
            kept@ == repaired_drawer(items@.take(i as int)),
        decreases items@.len() - i,
    {
        assert(items@.take(i + 1).drop_last() =~= items@.take(i as int));
        let blank = trimmed_chars(items[i].id.as_str()).len() == 0;
        if !blank && !drawer_id_seen(items, i) {
            let mut item = items[i].duplicate();
            if !is_windows_absolute(item.path.as_str()) {
                item.available = false;
            }
            kept.push(item);
        }
        i = i + 1;
    }
    assert(items@.take(items@.len() as int) =~= items@);
    *items = kept;
}

/// The texts of a list of ids.
pub open spec fn id_texts(ids: Seq<String>) -> Seq<Seq<char>> {
    ids.map_values(|s: String| s@)
}

/// Whether a repaired configuration keeps the drawer (or panel) at index
/// `i`: its id is not blank and no earlier one has the same id.
pub open spec fn keeps_id(ids: Seq<Seq<char>>, i: int) -> bool {
    trim_seq(ids[i]).len() > 0 && !id_seen(ids.take(i), ids[i])
}

fn text_seen(ids: &Vec<String>, upto: usize) -> (r: bool)
    requires
        upto < ids@.len(),
    ensures
        r == id_seen(id_texts(ids@).take(upto as int), ids@[upto as int]@),
{
    let ghost t = id_texts(ids@).take(upto as int);
    let mut j: usize = 0;
    while j < upto
        invariant
            j <= upto < ids@.len(),
            t == id_texts(ids@).take(upto as int),
            forall|k: int| 0 <= k < j ==> t[k] != ids@[upto as int]@,
        decreases upto - j,
    {
        if str_eq(ids[j].as_str(), ids[upto].as_str()) {
            assert(t[j as int] == ids@[upto as int]@);
            return true;
        }
        j = j + 1;
    }
    false
}

/// Which drawers (or panels), given by their ids in order, a repaired
/// configuration keeps: those with a non-blank id not used by an earlier
/// one. The kept ones stay in their order; the others are dropped.
pub fn kept_ids(ids: &Vec<String>) -> (r: Vec<bool>)
    ensures
        r@.len() == ids@.len(),
        forall|i: int| 0 <= i < ids@.len() ==> #[trigger] r@[i] == keeps_id(id_texts(ids@), i),
{
    let mut r: Vec<bool> = Vec::new();
    let mut i: usize = 0;
    while i < ids.len()
        invariant
            i <= ids@.len(),
            r@.len() == i,
            forall|k: int| 0 <= k < i ==> #[trigger] r@[k] == keeps_id(id_texts(ids@), k),
        decreases ids@.len() - i,
    {
        let blank = trimmed_chars(ids[i].as_str()).len() == 0;
        let seen = text_seen(ids, i);
        proof {
            assert(id_texts(ids@)[i as int] == ids@[i as int]@);
        }
        r.push(!blank && !seen);
        i = i + 1;
    }
    r
}

/// After a repair no two kept drawers share an id, and none is blank.
pub proof fn lemma_kept_ids_unique(ids: Seq<Seq<char>>)
    ensures
        forall|i: int, j: int|
            0 <= i < j < ids.len() && keeps_id(ids, i) && keeps_id(ids, j) ==> #[trigger] ids[i]
                != #[trigger] ids[j],
        forall|i: int| 0 <= i < ids.len() && keeps_id(ids, i) ==> trim_seq(#[trigger] ids[i]).len()
            > 0,
{
    assert forall|i: int, j: int|
        0 <= i < j < ids.len() && keeps_id(ids, i) && keeps_id(ids, j) implies #[trigger] ids[i]
        != #[trigger] ids[j] by {
        if ids[i] == ids[j] {
            assert(ids.take(j)[i] == ids[i]);
        }
    }
}

/// The name a drawer recovered with a blank name gets.
pub fn repaired_drawer_name(name: &str) -> (r: String)
    ensures
        r@ == (if trim_seq(name@).len() == 0 {
            "Cajón recuperado"@
        } else {
            name@
        }),
{
    if trimmed_chars(name).len() == 0 {
        proof {
            reveal_strlit("Cajón recuperado");
        }
        "Cajón recuperado".to_owned()
    } else {
        chars_string(name)
    }
}

fn chars_string(s: &str) -> (r: String)
    ensures
        r@ == s@,
{
    crate::text::string_of(&chars_of(s))
}

proof fn lemma_repaired_dock_from(s: Seq<DockItem>)
    ensures
        forall|k: int|
            0 <= k < repaired_dock(s).len() ==> id_seen(
                dock_item_ids(s),
                (#[trigger] repaired_dock(s)[k]).id@,
            ),
    decreases s.len(),
{
    if s.len() > 0 {
        let init = s.drop_last();
        lemma_repaired_dock_from(init);
        assert forall|k: int| 0 <= k < repaired_dock(s).len() implies id_seen(
            dock_item_ids(s),
            (#[trigger] repaired_dock(s)[k]).id@,
        ) by {
            if k < repaired_dock(init).len() {
                let j = choose|j: int|
                    0 <= j < dock_item_ids(init).len() && dock_item_ids(init)[j]
                        == repaired_dock(init)[k].id@;
                assert(dock_item_ids(s)[j] == dock_item_ids(init)[j]);
            } else {
                assert(dock_item_ids(s)[s.len() - 1] == s.last().id@);
            }
        }
    }
}

/// After a repair every launcher has a non-blank id and no two launchers
/// share one.
pub proof fn lemma_repaired_dock_ids_unique(s: Seq<DockItem>)
    ensures
        forall|k: int|
            0 <= k < repaired_dock(s).len() ==> trim_seq(
                (#[trigger] repaired_dock(s)[k]).id@,
            ).len() > 0,
        forall|a: int, b: int|
            0 <= a < b < repaired_dock(s).len() ==> (#[trigger] repaired_dock(s)[a]).id@ != (
            #[trigger] repaired_dock(s)[b]).id@,
    decreases s.len(),
{
    if s.len() > 0 {
        let init = s.drop_last();
        lemma_repaired_dock_ids_unique(init);
        lemma_repaired_dock_from(init);
        let r = repaired_dock(s);
        let ri = repaired_dock(init);
        if r.len() > ri.len() {
            assert forall|a: int, b: int| 0 <= a < b < r.len() implies (#[trigger] r[a]).id@ != (
            #[trigger] r[b]).id@ by {
                if b == r.len() - 1 {
                    assert(r[a] == ri[a]);
                    assert(id_seen(dock_item_ids(init), ri[a].id@));
                    if r[a].id@ == r[b].id@ {
                        assert(id_seen(dock_item_ids(init), s.last().id@));
                    }
                } else {
                    assert(r[a] == ri[a] && r[b] == ri[b]);
                }
            }
        }
    }
}

} // verus!

verus! {

/// The backup files sorted by name, as keys.
pub open spec fn names_keyed(names: Seq<String>) -> Seq<KeyedView<String>> {
    names.map_values(|n: String| (0u64, n@, n))
}

/// The order in which backups are tried when the master save is damaged:
/// by file name, highest first (the names start with the time they were
/// taken, so the newest comes first).
pub fn backup_search_order(names: &Vec<String>) -> (r: Vec<String>)
    ensures
        r@ == values_of(stable_sorted(names_keyed(names@), true)),
{
    let mut keyed: Vec<Keyed<String>> = Vec::new();
    let mut i: usize = 0;
    while i < names.len()
        invariant
            i <= names@.len(),
            keyed_views(keyed@) == names_keyed(names@).take(i as int),
        decreases names@.len() - i,
    {
        let n = names[i].clone();
        let k = Keyed { rank: 0, name: chars_of(n.as_str()), value: n };
        let ghost before = keyed_views(keyed@);
        keyed.push(k);
        assert(keyed_views(keyed@) =~= names_keyed(names@).take(i + 1)) by {
            assert(keyed_views(keyed@) =~= before.push(k.key_view()));
        }
        i = i + 1;
    }
    assert(names_keyed(names@).take(names@.len() as int) =~= names_keyed(names@));
    let sorted = stable_sort(keyed, true);
    let ghost sv = keyed_views(sorted@);
    let mut result: Vec<String> = Vec::new();
    let mut j: usize = 0;
    while j < sorted.len()
        invariant
            j <= sorted@.len(),
            sv == keyed_views(sorted@),
            result@ == values_of(sv).take(j as int),
        decreases sorted@.len() - j,
    {
        result.push(sorted[j].value.clone());
        assert(result@ =~= values_of(sv).take(j + 1));
        j = j + 1;
    }
    assert(values_of(sv).take(sorted@.len() as int) =~= values_of(sv));
    result
}

/// The backup list holds every backup found, once each, newest first.
pub proof fn lemma_backups_newest_first(infos: Seq<BackupInfo>)
    ensures
        ({
            let r = values_of(stable_sorted(backups_by_age(infos), true));
            &&& r.to_multiset() == infos.to_multiset()
            &&& forall|i: int, j: int|
                0 <= i < j < r.len() ==> (#[trigger] r[i]).created_at >= (#[trigger] r[j]).created_at
        }),
{
    let keyed = backups_by_age(infos);
    let sorted = stable_sorted(keyed, true);
    let r = values_of(sorted);
    crate::sorting::lemma_stable_sorted_values_permute(keyed, true);
    lemma_stable_sorted_permutes(keyed, true);
    lemma_stable_sorted_len(keyed, true);
    lemma_stable_sorted_in_order(keyed, true);
    assert(values_of(keyed) =~= infos);
    assert forall|k: int| 0 <= k < sorted.len() implies (#[trigger] sorted[k]).0
        == sorted[k].2.created_at by {
        vstd::seq_lib::to_multiset_contains(sorted, sorted[k]);
        vstd::seq_lib::to_multiset_contains(keyed, sorted[k]);
        assert(sorted.contains(sorted[k]));
        let w = choose|w: int| 0 <= w < keyed.len() && keyed[w] == sorted[k];
    }
    assert forall|i: int, j: int| 0 <= i < j < r.len() implies (#[trigger] r[i]).created_at >= (
    #[trigger] r[j]).created_at by {
        assert(!key_before(sorted[j], sorted[i], true));
        assert(sorted[i].0 == sorted[i].2.created_at);
        assert(sorted[j].0 == sorted[j].2.created_at);
    }
}

/// Backups are tried in turn, each file once, the highest name first.
pub proof fn lemma_search_highest_name_first(names: Seq<String>)
    ensures
        ({
            let r = values_of(stable_sorted(names_keyed(names), true));
            &&& r.to_multiset() == names.to_multiset()
            &&& forall|i: int, j: int|
                0 <= i < j < r.len() ==> !lex_lt((#[trigger] r[i])@, (#[trigger] r[j])@)
        }),
{
    let keyed = names_keyed(names);
    let sorted = stable_sorted(keyed, true);
    let r = values_of(sorted);
    crate::sorting::lemma_stable_sorted_values_permute(keyed, true);
    lemma_stable_sorted_permutes(keyed, true);
    lemma_stable_sorted_len(keyed, true);
    lemma_stable_sorted_in_order(keyed, true);
    assert(values_of(keyed) =~= names);
    assert forall|k: int| 0 <= k < sorted.len() implies (#[trigger] sorted[k]).0 == 0 && sorted[k].1
        == sorted[k].2@ by {
        vstd::seq_lib::to_multiset_contains(sorted, sorted[k]);
        vstd::seq_lib::to_multiset_contains(keyed, sorted[k]);
        assert(sorted.contains(sorted[k]));
        let w = choose|w: int| 0 <= w < keyed.len() && keyed[w] == sorted[k];
    }
    assert forall|i: int, j: int| 0 <= i < j < r.len() implies !lex_lt(
        (#[trigger] r[i])@,
        (#[trigger] r[j])@,
    ) by {
        assert(!key_before(sorted[j], sorted[i], true));
        assert(sorted[i].0 == 0 && sorted[i].1 == sorted[i].2@);
        assert(sorted[j].0 == 0 && sorted[j].1 == sorted[j].2@);
    }
}

/// The backup names highest first, keyed; equal names keep their order.
pub open spec fn names_desc(names: Seq<String>) -> Seq<KeyedView<String>> {
    stable_sorted(names_keyed(names), true)
}

/// How many backups pruning keeps out of `n`.
pub open spec fn kept_count(n: nat, keep: nat) -> nat {
    if keep < n {
        keep
    } else {
        n
    }
}

/// The backups that pruning removes, in the order it removes them: all but
/// the `keep` highest names.
pub fn backups_to_prune(names: &Vec<String>, keep: usize) -> (r: Vec<String>)
    ensures
        r@ == values_of(names_desc(names@)).skip(kept_count(names@.len(), keep as nat) as int),
{
    let ordered = backup_search_order(names);
    proof {
        lemma_stable_sorted_len(names_keyed(names@), true);
    }
    let mut r: Vec<String> = Vec::new();
    let mut i: usize = if keep < ordered.len() {
        keep
    } else {
        ordered.len()
    };
    let start = i;
    assert(start == kept_count(names@.len(), keep as nat));
    while i < ordered.len()
        invariant
            start <= i <= ordered@.len(),
            r@ == ordered@.subrange(start as int, i as int),
        decreases ordered@.len() - i,
    {
        r.push(ordered[i].clone());
        assert(r@ =~= ordered@.subrange(start as int, i + 1));
        i = i + 1;
    }
    assert(r@ =~= ordered@.skip(start as int));
    r
}

/// Pruning keeps the `keep` highest backup names (all of them when there are
/// fewer) and removes the rest: no removed name is above a kept one, and
/// kept and removed names together are exactly the names found, each as
/// many times as it was found.
pub proof fn lemma_pruning_keeps_the_newest(names: Seq<String>, keep: nat)
    ensures
        names_desc(names).len() == names.len(),
        names_desc(names).to_multiset() == names_keyed(names).to_multiset(),
        forall|i: int, j: int|
            0 <= i < kept_count(names.len(), keep) <= j < names.len() ==> !lex_lt(
                (#[trigger] values_of(names_desc(names))[i])@,
                (#[trigger] values_of(names_desc(names))[j])@,
            ),
{
    let nk = names_keyed(names);
    let sorted = names_desc(names);
    lemma_stable_sorted_len(nk, true);
    lemma_stable_sorted_in_order(nk, true);
    lemma_stable_sorted_permutes(nk, true);
    assert forall|k: int| 0 <= k < sorted.len() implies (#[trigger] sorted[k]).1 == sorted[k].2@
        && sorted[k].0 == 0 by {
        vstd::seq_lib::to_multiset_contains(sorted, sorted[k]);
        vstd::seq_lib::to_multiset_contains(nk, sorted[k]);
        assert(sorted.contains(sorted[k]));
        let w = choose|w: int| 0 <= w < nk.len() && nk[w] == sorted[k];
        assert(nk[w] == (0u64, names[w]@, names[w]));
    }
    assert forall|i: int, j: int|
        0 <= i < kept_count(names.len(), keep) <= j < names.len() implies !lex_lt(
        (#[trigger] values_of(sorted)[i])@,
        (#[trigger] values_of(sorted)[j])@,
    ) by {
        assert(!key_before(sorted[j], sorted[i], true));
        assert(sorted[i].1 == sorted[i].2@ && sorted[j].1 == sorted[j].2@);
        assert(sorted[i].0 == 0 && sorted[j].0 == 0);
    }
}

/// Where a loaded configuration came from.
#[derive(Clone, Copy, Debug, PartialEq, Eq, Structural)]
pub enum LoadSource {
    /// The master save.
    Master,
    /// The newest backup that could be read, once the master save was set aside.
    LatestBackup,
    /// A configuration file of an earlier release.
    Legacy,
    /// Nothing was found: a fresh configuration.
    Fresh,
}

/// What loading the configuration has just learned.
#[derive(Debug)]
pub enum LoadEvent {
    /// Whether the master save exists and which schema it declares, if it
    /// could be read.
    Started { master_exists: bool, master_schema: Option<u32> },
    /// The master save of an older schema was copied to the backups.
    MasterBackedUp { error: Option<String> },
    /// The master save was read.
    MasterLoaded { error: Option<String> },
    /// The backups were tried newest first, after the master save failed
    /// with `master_error`; `error` is the last backup's error, or `None`
    /// when one could be read.
    BackupsSearched { master_error: String, error: Option<String> },
    /// The damaged master save was set aside (where it was kept) and the
    /// backup saved in its place.
    MasterRestored { result: Result<String, String> },
    /// The first configuration file of an earlier release that exists, if any.
    LegacyFound { path: Option<String> },
    /// That earlier file was read.
    LegacyLoaded { path: String, error: Option<String> },
}

/// What loading the configuration does next.
#[derive(Debug)]
pub enum LoadAction {
    /// Copy the master save to the backups before it is migrated.
    BackUpMaster,
    /// Read the master save.
    LoadMaster,
    /// Try the backups newest first; the master save failed with this error.
    SearchBackups(String),
    /// Set the damaged master save aside and save the backup in its place.
    RestoreMaster,
    /// Look for a configuration file of an earlier release.
    FindLegacy,
    /// Read this earlier configuration file.
    LoadLegacy(String),
    /// Stop with this error; nothing was overwritten.
    Fail(String),
    /// Use the configuration from `source`, telling the user `notice`.
    Finish(LoadSource, Option<String>),
}

pub open spec fn no_backup_message() -> Seq<char> {
    "no hay copias"@
}

pub open spec fn unrecoverable_message(master_error: Seq<char>, backup_error: Seq<char>) -> Seq<
    char,
> {
    "El guardado maestro no es válido ("@ + master_error
        + ") y no se encontró una copia reciente utilizable ("@ + backup_error
        + "). No se sobrescribió ningún archivo."@
}

pub open spec fn recovered_notice(archived: Seq<char>) -> Seq<char> {
    "Se recuperó la configuración desde el backup más reciente. El save dañado se conservó en "@
        + archived + "."@
}

pub open spec fn legacy_notice(path: Seq<char>) -> Seq<char> {
    "Se recuperó una configuración anterior desde "@ + path + "."@
}

pub open spec fn legacy_failed_message(path: Seq<char>, e: Seq<char>) -> Seq<char> {
    "No se pudo migrar la configuración anterior "@ + path + ": "@ + e
        + ". El archivo se conservó intacto."@
}

/// The next step of loading the configuration: the master save, backed up
/// first when it declares an older schema; when it cannot be read, the
/// newest readable backup, with the damaged save kept aside; without a
/// master save, a file of an earlier release; and otherwise a fresh start.
/// The step loading answers to `event`.
pub open spec fn load_answer(event: LoadEvent, r: LoadAction) -> bool {
    match event {
        LoadEvent::Started { master_exists, master_schema } => if !master_exists {
            r is FindLegacy
        } else if master_schema matches Some(v) && v < SCHEMA_VERSION {
            r is BackUpMaster
        } else {
            r is LoadMaster
        },
        LoadEvent::MasterBackedUp { error } => match error {
            None => r is LoadMaster,
            Some(e) => r matches LoadAction::Fail(m) && m@ == e@,
        },
        LoadEvent::MasterLoaded { error } => match error {
            None => r matches LoadAction::Finish(s, n) && s == LoadSource::Master && n is None,
            Some(e) => r matches LoadAction::SearchBackups(m) && m@ == e@,
        },
        LoadEvent::BackupsSearched { master_error, error } => match error {
            None => r is RestoreMaster,
            Some(e) => r matches LoadAction::Fail(m) && m@ == unrecoverable_message(
                master_error@,
                e@,
            ),
        },
        LoadEvent::MasterRestored { result } => match result {
            Ok(a) => r matches LoadAction::Finish(s, Some(t)) && s == LoadSource::LatestBackup
                && t@ == recovered_notice(a@),
            Err(e) => r matches LoadAction::Fail(m) && m@ == e@,
        },
        LoadEvent::LegacyFound { path } => match path {
            None => r matches LoadAction::Finish(s, n) && s == LoadSource::Fresh && n is None,
            Some(p) => r matches LoadAction::LoadLegacy(q) && q@ == p@,
        },
        LoadEvent::LegacyLoaded { path, error } => match error {
            None => r matches LoadAction::Finish(s, Some(t)) && s == LoadSource::Legacy
                && t@ == legacy_notice(path@),
            Some(e) => r matches LoadAction::Fail(m) && m@ == legacy_failed_message(
                path@,
                e@,
            ),
        },
    }
}

/// Loading never overwrites what it cannot replace: the damaged master
/// save is replaced only once a backup has been read; a master save of an
/// older schema is copied to the backups before it is read; and a load
/// ends with the master save only when it was read without error.
pub proof fn lemma_load_restores_only_from_a_backup(event: LoadEvent, r: LoadAction)
    requires
        load_answer(event, r),
    ensures
        r is RestoreMaster ==> (event matches LoadEvent::BackupsSearched { error, .. } && error is None),
        r is BackUpMaster ==> (event matches LoadEvent::Started { master_exists, master_schema }
            && master_exists && (master_schema matches Some(v) && v < SCHEMA_VERSION)),
        (r matches LoadAction::Finish(s, _) && s == LoadSource::Master) ==> (
        event matches LoadEvent::MasterLoaded { error } && error is None),
        event matches LoadEvent::Started { master_exists, master_schema } && master_exists && (
        master_schema matches Some(v) && v < SCHEMA_VERSION) ==> r is BackUpMaster,
{
}

pub fn load_step(event: &LoadEvent) -> (r: LoadAction)
    ensures
        load_answer(*event, r),
{
    match event {
        LoadEvent::Started { master_exists, master_schema } => {
            if !*master_exists {
                LoadAction::FindLegacy
            } else {
                match master_schema {
                    Some(v) => {
                        if *v < SCHEMA_VERSION {
                            LoadAction::BackUpMaster
                        } else {
                            LoadAction::LoadMaster
                        }
                    },
                    None => LoadAction::LoadMaster,
                }
            }
        },
        LoadEvent::MasterBackedUp { error } => match error {
            None => LoadAction::LoadMaster,
            Some(e) => LoadAction::Fail(e.clone()),
        },
        LoadEvent::MasterLoaded { error } => match error {
            None => LoadAction::Finish(LoadSource::Master, None),
            Some(e) => LoadAction::SearchBackups(e.clone()),
        },
        LoadEvent::BackupsSearched { master_error, error } => match error {
            None => LoadAction::RestoreMaster,
            Some(e) => {
                let mut m = "El guardado maestro no es válido (".to_string();
                push_str(&mut m, master_error.as_str());
                push_str(&mut m, ") y no se encontró una copia reciente utilizable (");
                push_str(&mut m, e.as_str());
                push_str(&mut m, "). No se sobrescribió ningún archivo.");
                LoadAction::Fail(m)
            },
        },
        LoadEvent::MasterRestored { result } => match result {
            Ok(a) => {
                let mut t =
                    "Se recuperó la configuración desde el backup más reciente. El save dañado se conservó en ".to_string();
                push_str(&mut t, a.as_str());
                push_str(&mut t, ".");
                LoadAction::Finish(LoadSource::LatestBackup, Some(t))
            },
            Err(e) => LoadAction::Fail(e.clone()),
        },
        LoadEvent::LegacyFound { path } => match path {
            None => LoadAction::Finish(LoadSource::Fresh, None),
            Some(p) => LoadAction::LoadLegacy(p.clone()),
        },
        LoadEvent::LegacyLoaded { path, error } => match error {
            None => {
                let mut t = "Se recuperó una configuración anterior desde ".to_string();
                push_str(&mut t, path.as_str());
                push_str(&mut t, ".");
                LoadAction::Finish(LoadSource::Legacy, Some(t))
            },
            Some(e) => {
                let mut m = "No se pudo migrar la configuración anterior ".to_string();
                push_str(&mut m, path.as_str());
                push_str(&mut m, ": ");
                push_str(&mut m, e.as_str());
                push_str(&mut m, ". El archivo se conservó intacto.");
                LoadAction::Fail(m)
            },
        },
    }
}

/// What trying the backups newest first came to, given the error of each
/// attempt in order (`None` where a backup could be read): `None` once one
/// was read, else the last error, or `no hay copias` when there were none.
pub open spec fn search_outcome(errors: Seq<Option<String>>) -> Option<Seq<char>> {
    if exists|i: int| 0 <= i < errors.len() && errors[i] is None {
        None
    } else if errors.len() == 0 {
        Some(no_backup_message())
    } else {
        Some(errors.last()->Some_0@)
    }
}

/// The error that trying the backups ended with, if none could be read.
pub fn backup_search_outcome(errors: &Vec<Option<String>>) -> (r: Option<String>)
    ensures
        match search_outcome(errors@) {
            None => r is None,
            Some(m) => r matches Some(t) && t@ == m,
        },
{
    let mut i: usize = 0;
    while i < errors.len()
        invariant
            i <= errors.len(),
            forall|j: int| 0 <= j < i ==> errors@[j] is Some,
        decreases errors.len() - i,
    {
        if errors[i].is_none() {
            return None;
        }
        i = i + 1;
    }
    if errors.len() == 0 {
        return Some("no hay copias".to_string());
    }
    match &errors[errors.len() - 1] {
        Some(e) => Some(e.clone()),
        None => None,
    }
}

} // verus!
