//! The backup center, the health report and the recovery of drawers found
//! on disk: what is reported and which drawers are brought back.
use vstd::prelude::*;

use crate::paths::{comparable_path, path_key};
use crate::persistence::BackupInfo;
use crate::storage::{RecoveredDrawerSeed, StoragePathsInfo};
use crate::text::{
    chars_of, dec_digits, push_decimal, push_str, replace_first, replaced_first, str_eq,
    string_of, take_chars, trim_seq, trimmed_chars,
};

verus! {

/// What the backup center shows.
pub struct BackupCenter {
    pub save_valid: bool,
    pub backups: Vec<BackupInfo>,
    pub storage: StoragePathsInfo,
}

/// One line of the health report.
pub struct HealthItem {
    pub label: String,
    pub ok: bool,
    pub detail: String,
}

/// What the recovery screen shows.
pub struct RecoveryStatus {
    pub master_save_exists: bool,
    pub recoverable_drawers: usize,
    pub storage: StoragePathsInfo,
    pub notice: Option<String>,
}

/// How many backups are not usable.
pub open spec fn invalid_count(backups: Seq<BackupInfo>) -> nat
    decreases backups.len(),
{
    if backups.len() == 0 {
        0
    } else {
        invalid_count(backups.drop_last()) + if backups.last().valid {
            0nat
        } else {
            1nat
        }
    }
}

/// The count of unusable backups is the number of backups not marked
/// valid: each is counted once, and never more than there are backups.
pub proof fn lemma_invalid_count_counts_unusable(backups: Seq<BackupInfo>)
    ensures
        invalid_count(backups) == backups.filter(|b: BackupInfo| !b.valid).len(),
        invalid_count(backups) <= backups.len(),
        invalid_count(backups) == 0 <==> forall|i: int| 0 <= i < backups.len() ==> (#[trigger] backups[i]).valid,
    decreases backups.len(),
{
    reveal(Seq::filter);
    if backups.len() > 0 {
        let p = backups.drop_last();
        lemma_invalid_count_counts_unusable(p);
        if invalid_count(backups) == 0 {
            assert forall|i: int| 0 <= i < backups.len() implies (#[trigger] backups[i]).valid by {
                if i < p.len() {
                    assert(p[i] == backups[i]);
                }
            }
        }
        if forall|i: int| 0 <= i < backups.len() ==> (#[trigger] backups[i]).valid {
            assert forall|i: int| 0 <= i < p.len() implies (#[trigger] p[i]).valid by {
                assert(p[i] == backups[i]);
            }
            assert(backups[backups.len() - 1].valid);
        }
    }
}

pub fn count_invalid(backups: &Vec<BackupInfo>) -> (r: usize)
    ensures
        r == invalid_count(backups@),
{
    let mut r: usize = 0;
    let mut i: usize = 0;
    while i < backups.len()
        invariant
            i <= backups@.len(),
            r == invalid_count(backups@.take(i as int)),
            r <= i,
        decreases backups@.len() - i,
    {
        assert(backups@.take(i + 1).drop_last() =~= backups@.take(i as int));
        if !backups[i].valid {
            r = r + 1;
        }
        i = i + 1;
    }
    assert(backups@.take(backups@.len() as int) =~= backups@);
    r
}

pub open spec fn health_line(item: HealthItem, label: Seq<char>, ok: bool, detail: Seq<char>) -> bool {
    item.label@ == label && item.ok == ok && item.detail@ == detail
}

fn line(label: &str, ok: bool, detail: String) -> (r: HealthItem)
    ensures
        health_line(r, label@, ok, detail@),
{
    HealthItem { label: string_of(&chars_of(label)), ok, detail }
}

/// The health report: the saved configuration, the drawers folder, the
/// backups, the internal folders and the updater, each with whether it is
/// fine and a detail. The arguments are what checking each one gave.
pub fn health_items(
    save: Result<(), String>,
    drawers_folder_ok: bool,
    drawer_count: usize,
    backups: Result<Vec<BackupInfo>, String>,
    layout: Result<(), String>,
) -> (r: Vec<HealthItem>)
    ensures
        r@.len() == 5,
        health_line(
            r@[0],
            "Configuración"@,
            save is Ok,
            match save {
                Ok(_) => "Save válido"@,
                Err(e) => e@,
            },
        ),
        health_line(
            r@[1],
            "Cajones"@,
            drawers_folder_ok,
            dec_digits(drawer_count as nat) + " cajones configurados"@,
        ),
        health_line(
            r@[2],
            "Backups"@,
            backups matches Ok(b) && invalid_count(b@) == 0,
            match backups {
                Ok(b) => dec_digits(b@.len()) + " copias; "@ + dec_digits(invalid_count(b@))
                    + " inválidas"@,
                Err(e) => e@,
            },
        ),
        health_line(
            r@[3],
            "Carpetas internas"@,
            layout is Ok,
            match layout {
                Ok(_) => "Estructura disponible"@,
                Err(e) => e@,
            },
        ),
        health_line(
            r@[4],
            "Actualizador"@,
            true,
            "GitHub Releases con verificación de firma configurada"@,
        ),
{
    proof {
        reveal_strlit("Save válido");
        reveal_strlit(" cajones configurados");
        reveal_strlit(" copias; ");
        reveal_strlit(" inválidas");
        reveal_strlit("Estructura disponible");
    }
    let save_ok = save.is_ok();
    let save_detail = match save {
        Ok(_) => "Save válido".to_owned(),
        Err(e) => e,
    };
    let mut drawers_detail = String::new();
    push_decimal(&mut drawers_detail, drawer_count as u64);
    push_str(&mut drawers_detail, " cajones configurados");
    let (backups_ok, backups_detail) = match backups {
        Ok(b) => {
            let invalid = count_invalid(&b);
            let mut d = String::new();
            push_decimal(&mut d, b.len() as u64);
            push_str(&mut d, " copias; ");
            push_decimal(&mut d, invalid as u64);
            push_str(&mut d, " inválidas");
            (invalid == 0, d)
        },
        Err(e) => (false, e),
    };
    let layout_ok = layout.is_ok();
    let layout_detail = match layout {
        Ok(_) => "Estructura disponible".to_owned(),
        Err(e) => e,
    };
    let mut r: Vec<HealthItem> = Vec::new();
    r.push(line("Configuración", save_ok, save_detail));
    r.push(line("Cajones", drawers_folder_ok, drawers_detail));
    r.push(line("Backups", backups_ok, backups_detail));
    r.push(line("Carpetas internas", layout_ok, layout_detail));
    r.push(
        line(
            "Actualizador",
            true,
            "GitHub Releases con verificación de firma configurada".to_owned(),
        ),
    );
    proof {
        reveal_strlit("Configuración");
        reveal_strlit("Cajones");
        reveal_strlit("Backups");
        reveal_strlit("Carpetas internas");
        reveal_strlit("Actualizador");
        reveal_strlit("GitHub Releases con verificación de firma configurada");
    }
    r
}

/// The name a recovered drawer gets: the found name trimmed and cut to 80
/// characters, or `Cajón recuperado` when nothing is left.
pub open spec fn recovered_drawer_name(name: Seq<char>) -> Seq<char> {
    let t = trim_seq(name);
    let cut = if t.len() > 80 {
        t.take(80)
    } else {
        t
    };
    if cut.len() == 0 {
        "Cajón recuperado"@
    } else {
        cut
    }
}

pub fn recovered_name(name: &str) -> (r: String)
    ensures
        r@ == recovered_drawer_name(name@),
{
    let t = trimmed_chars(name);
    let cut = take_chars(&t, 80);
    assert(t@.len() <= 80 ==> cut@ =~= t@);
    if cut.len() == 0 {
        proof {
            reveal_strlit("Cajón recuperado");
        }
        "Cajón recuperado".to_owned()
    } else {
        string_of(&cut)
    }
}

pub open spec fn views(s: Seq<String>) -> Seq<Seq<char>> {
    s.map_values(|x: String| x@)
}

/// A recovered drawer keeps the id its folder recorded, unless that id is
/// blank or already taken.
pub open spec fn kept_recovered_id(id: Option<String>, used: Seq<Seq<char>>) -> Option<Seq<char>> {
    match id {
        Some(x) => if trim_seq(x@).len() > 0 && !used.contains(x@) {
            Some(x@)
        } else {
            None
        },
        None => None,
    }
}

fn contains_str(list: &Vec<String>, x: &str) -> (r: bool)
    ensures
        r == views(list@).contains(x@),
{
    let mut i: usize = 0;
    while i < list.len()
        invariant
            i <= list@.len(),
            forall|k: int| 0 <= k < i ==> views(list@)[k] != x@,
        decreases list@.len() - i,
    {
        if str_eq(list[i].as_str(), x) {
            assert(views(list@)[i as int] == x@);
            return true;
        }
        i = i + 1;
    }
    false
}

pub fn recovered_id(id: Option<String>, used: &Vec<String>) -> (r: Option<String>)
    ensures
        r matches Some(x) ==> kept_recovered_id(id, views(used@)) == Some(x@),
        r is None <==> kept_recovered_id(id, views(used@)) is None,
{
    match id {
        Some(x) => {
            if trimmed_chars(x.as_str()).len() > 0 && !contains_str(used, x.as_str()) {
                Some(x)
            } else {
                None
            }
        },
        None => None,
    }
}

/// Whether a folder found on disk is not yet one of the configured
/// drawers' folders (compared as resolved paths).
pub fn is_unrepresented(folder: &str, represented: &Vec<String>) -> (r: bool)
    ensures
        r == !views(represented@).map_values(|p: Seq<char>| path_key(p)).contains(path_key(folder@)),
{
    let key = comparable_path(folder);
    let ghost keys = views(represented@).map_values(|p: Seq<char>| path_key(p));
    let mut i: usize = 0;
    while i < represented.len()
        invariant
            i <= represented@.len(),
            key@ == path_key(folder@),
            keys == views(represented@).map_values(|p: Seq<char>| path_key(p)),
            forall|k: int| 0 <= k < i ==> keys[k] != key@,
        decreases represented@.len() - i,
    {
        let other = comparable_path(represented[i].as_str());
        if str_eq(other.as_str(), key.as_str()) {
            assert(keys[i as int] == key@);
            return false;
        }
        i = i + 1;
    }
    true
}

/// A folder found on disk that no configured drawer uses.
pub open spec fn unrepresented(s: RecoveredDrawerSeed, represented: Seq<String>) -> bool {
    !views(represented).map_values(|p: Seq<char>| path_key(p)).contains(path_key(s.folder_path@))
}

/// How many of the folders found on disk no configured drawer uses.
pub fn recoverable_count(seeds: &Vec<RecoveredDrawerSeed>, represented: &Vec<String>) -> (r: usize)
    ensures
        r == seeds@.filter(|s: RecoveredDrawerSeed| unrepresented(s, represented@)).len(),
{
    let mut r: usize = 0;
    let mut i: usize = 0;
    while i < seeds.len()
        invariant
            i <= seeds@.len(),
            r == seeds@.take(i as int).filter(
                |s: RecoveredDrawerSeed| unrepresented(s, represented@),
            ).len(),
            r <= i,
        decreases seeds@.len() - i,
    {
        proof {
            seeds@.take(i as int).lemma_filter_push(
                seeds@[i as int],
                |s: RecoveredDrawerSeed| unrepresented(s, represented@),
            );
            assert(seeds@.take(i + 1) =~= seeds@.take(i as int).push(seeds@[i as int]));
        }
        let fresh = is_unrepresented(seeds[i].folder_path.as_str(), represented);
        if fresh {
            r = r + 1;
        }
        i = i + 1;
    }
    assert(seeds@.take(seeds@.len() as int) =~= seeds@);
    r
}

/// `path` as the diagnostic report shows it: the first occurrence of the
/// user's profile folder replaced by `%USERPROFILE%`. `profile` is the value
/// of `USERPROFILE`, when it is set; an empty one is ignored.
pub fn redact_user_profile(path: &str, profile: Option<&str>) -> (r: String)
    ensures
        r@ == (match profile {
            Some(p) => if p@.len() > 0 {
                replaced_first(path@, p@, "%USERPROFILE%"@)
            } else {
                path@
            },
            None => path@,
        }),
{
    match profile {
        Some(p) => {
            if chars_of(p).len() > 0 {
                replace_first(path, p, "%USERPROFILE%")
            } else {
                string_of(&chars_of(path))
            }
        },
        None => string_of(&chars_of(path)),
    }
}

} // verus!
