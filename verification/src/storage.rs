//! Naming rules of the physical storage: which folder names Windows accepts,
//! how a drawer name becomes a safe folder name, and which entries of a
//! drawer folder are the organizer's own bookkeeping.
use vstd::prelude::*;

use crate::paths::{comparable_path, is_within, path_key, within_keys};
use crate::order_map::lex_lt;
use crate::sorting::{
    key_before, keyed_views, lemma_stable_sorted_in_order, lemma_stable_sorted_len,
    lemma_stable_sorted_permutes, stable_sort, stable_sorted, values_of, Keyed, KeyedView,
};
use crate::text::{
    ascii_lower_chars, ascii_lower_seq, before_first, chars_eq_ignore_ascii_case, chars_of,
    dec_digits, eq_ignore_ascii_case, find_char, has_prefix, is_control, lowercase_chars,
    push_char, push_decimal, push_str, slice_chars, spec_is_control, spec_is_whitespace, str_eq,
    string_of, strip_both, strip_end_to, strip_start_from, take_chars, trim_bounds, trim_end_seq,
    trim_seq, trim_start_seq, trimmed_chars, unicode_lowercase,
};

verus! {

pub struct StorageService;

/// A character that Windows refuses in a folder name.
pub open spec fn spec_is_forbidden_in_name(c: char) -> bool {
    spec_is_control(c) || c == '<' || c == '>' || c == ':' || c == '"' || c == '/' || c == '\\'
        || c == '|' || c == '?' || c == '*'
}

pub fn is_forbidden_in_name(c: char) -> (r: bool)
    ensures
        r == spec_is_forbidden_in_name(c),
{
    is_control(c) || c == '<' || c == '>' || c == ':' || c == '"' || c == '/' || c == '\\' || c
        == '|' || c == '?' || c == '*'
}

/// The MS-DOS device names that Windows reserves, compared without ASCII case:
/// CON, PRN, AUX, NUL, COM1..COM9 and LPT1..LPT9.
pub open spec fn spec_is_reserved_device_name(name: Seq<char>) -> bool {
    let l = ascii_lower_seq(name);
    ||| l == seq!['c', 'o', 'n']
    ||| l == seq!['p', 'r', 'n']
    ||| l == seq!['a', 'u', 'x']
    ||| l == seq!['n', 'u', 'l']
    ||| (l.len() == 4 && (l.take(3) == seq!['c', 'o', 'm'] || l.take(3) == seq!['l', 'p', 't'])
        && '1' <= l[3] <= '9')
}

pub fn is_reserved_device_name(name: &Vec<char>) -> (r: bool)
    ensures
        r == spec_is_reserved_device_name(name@),
{
    let l = ascii_lower_chars(name);
    proof {
        assert(l@.len() == name@.len());
    }
    if l.len() == 3 {
        let r = (l[0] == 'c' && l[1] == 'o' && l[2] == 'n') || (l[0] == 'p' && l[1] == 'r' && l[2]
            == 'n') || (l[0] == 'a' && l[1] == 'u' && l[2] == 'x') || (l[0] == 'n' && l[1] == 'u'
            && l[2] == 'l');
        proof {
            if r {
            } else {
                assert(l@ != seq!['c', 'o', 'n']) by {
                    if l@ == seq!['c', 'o', 'n'] {
                        assert(l@[0] == 'c' && l@[1] == 'o' && l@[2] == 'n');
                    }
                }
                assert(l@ != seq!['p', 'r', 'n']) by {
                    if l@ == seq!['p', 'r', 'n'] {
                        assert(l@[0] == 'p');
                    }
                }
                assert(l@ != seq!['a', 'u', 'x']) by {
                    if l@ == seq!['a', 'u', 'x'] {
                        assert(l@[0] == 'a');
                    }
                }
                assert(l@ != seq!['n', 'u', 'l']) by {
                    if l@ == seq!['n', 'u', 'l'] {
                        assert(l@[0] == 'n' && l@[1] == 'u' && l@[2] == 'l');
                    }
                }
            }
            if l[0] == 'c' && l[1] == 'o' && l[2] == 'n' {
                assert(l@ =~= seq!['c', 'o', 'n']);
            }
            if l[0] == 'p' && l[1] == 'r' && l[2] == 'n' {
                assert(l@ =~= seq!['p', 'r', 'n']);
            }
            if l[0] == 'a' && l[1] == 'u' && l[2] == 'x' {
                assert(l@ =~= seq!['a', 'u', 'x']);
            }
            if l[0] == 'n' && l[1] == 'u' && l[2] == 'l' {
                assert(l@ =~= seq!['n', 'u', 'l']);
            }
        }
        r
    } else if l.len() == 4 {
        let r = ((l[0] == 'c' && l[1] == 'o' && l[2] == 'm') || (l[0] == 'l' && l[1] == 'p' && l[2]
            == 't')) && '1' <= l[3] && l[3] <= '9';
        proof {
            if l[0] == 'c' && l[1] == 'o' && l[2] == 'm' {
                assert(l@.take(3) =~= seq!['c', 'o', 'm']);
            }
            if l[0] == 'l' && l[1] == 'p' && l[2] == 't' {
                assert(l@.take(3) =~= seq!['l', 'p', 't']);
            }
            if l@.take(3) == seq!['c', 'o', 'm'] {
                assert(l@.take(3)[0] == 'c' && l@.take(3)[1] == 'o' && l@.take(3)[2] == 'm');
            }
            if l@.take(3) == seq!['l', 'p', 't'] {
                assert(l@.take(3)[0] == 'l' && l@.take(3)[1] == 'p' && l@.take(3)[2] == 't');
            }
        }
        r
    } else {
        false
    }
}

/// Why Windows would refuse `name` as a folder name, checked in this order.
pub enum FolderNameProblem {
    EmptyOrPadded,
    EndsWithDot,
    TooLong,
    ForbiddenCharacter,
    Reserved,
}

pub open spec fn folder_name_problem(name: Seq<char>) -> Option<FolderNameProblem> {
    if name.len() == 0 || trim_seq(name) != name {
        Some(FolderNameProblem::EmptyOrPadded)
    } else if name.last() == '.' {
        Some(FolderNameProblem::EndsWithDot)
    } else if name.len() > 80 {
        Some(FolderNameProblem::TooLong)
    } else if exists|i: int| 0 <= i < name.len() && spec_is_forbidden_in_name(#[trigger] name[i]) {
        Some(FolderNameProblem::ForbiddenCharacter)
    } else if spec_is_reserved_device_name(before_first(name, '.')) {
        Some(FolderNameProblem::Reserved)
    } else {
        None
    }
}

/// A character Windows refuses in a folder name: a control character or
/// one of `< > : " / \ | ? *`.
pub open spec fn refused_by_windows(c: char) -> bool {
    (c as u32) <= 0x1F || (0x7F <= (c as u32) && (c as u32) <= 0x9F) || c == '<' || c == '>'
        || c == ':' || c == '"' || c == '/' || c == '\\' || c == '|' || c == '?' || c == '*'
}

/// A name holding a character Windows refuses is never accepted, and once
/// it is non-empty, unpadded, not ending in a dot and at most 80
/// characters long, that character is the reason given. A name with no
/// such character is never refused for one.
pub proof fn lemma_forbidden_characters_refused(name: Seq<char>, i: int)
    requires
        0 <= i < name.len(),
    ensures
        refused_by_windows(name[i]) ==> folder_name_problem(name) is Some,
        refused_by_windows(name[i]) && trim_seq(name) == name && name.last() != '.' && name.len()
            <= 80 ==> folder_name_problem(name) == Some(FolderNameProblem::ForbiddenCharacter),
        (forall|j: int| 0 <= j < name.len() ==> !refused_by_windows(#[trigger] name[j]))
            ==> folder_name_problem(name) != Some(FolderNameProblem::ForbiddenCharacter),
{
    if refused_by_windows(name[i]) {
        assert(spec_is_forbidden_in_name(name[i]));
    }
    if forall|j: int| 0 <= j < name.len() ==> !refused_by_windows(#[trigger] name[j]) {
        assert forall|j: int| 0 <= j < name.len() implies !spec_is_forbidden_in_name(
            #[trigger] name[j],
        ) by {
            assert(!refused_by_windows(name[j]));
        }
    }
}

proof fn lemma_trim_lengths(s: Seq<char>)
    ensures
        trim_start_seq(s).len() <= s.len(),
        trim_end_seq(s).len() <= s.len(),
    decreases s.len(),
{
    if s.len() > 0 {
        lemma_trim_lengths(s.drop_first());
        lemma_trim_lengths(s.drop_last());
    }
}

/// A name is left as it is by trimming exactly when it is empty or starts
/// and ends with something other than white space.
proof fn lemma_trim_unchanged(s: Seq<char>)
    ensures
        trim_seq(s) == s <==> (s.len() == 0 || (!spec_is_whitespace(s[0]) && !spec_is_whitespace(
            s.last(),
        ))),
{
    if s.len() > 0 {
        if spec_is_whitespace(s[0]) {
            lemma_trim_lengths(s.drop_first());
            lemma_trim_lengths(trim_start_seq(s));
        } else {
            assert(trim_start_seq(s) == s);
            if spec_is_whitespace(s.last()) {
                lemma_trim_lengths(s.drop_last());
            }
        }
    }
}

/// Which folder names Windows refuses, and why, checked in this order: an
/// empty name or one starting or ending with white space; one ending with a
/// dot; one longer than 80 characters; one holding a refused character.
/// A name passing these is refused only as a reserved device name.
pub proof fn lemma_folder_name_rules(name: Seq<char>)
    ensures
        name.len() == 0 ==> folder_name_problem(name) == Some(FolderNameProblem::EmptyOrPadded),
        name.len() > 0 && (spec_is_whitespace(name[0]) || spec_is_whitespace(name.last()))
            ==> folder_name_problem(name) == Some(FolderNameProblem::EmptyOrPadded),
        name.len() > 0 && !spec_is_whitespace(name[0]) && !spec_is_whitespace(name.last())
            && name.last() == '.' ==> folder_name_problem(name) == Some(
            FolderNameProblem::EndsWithDot,
        ),
        name.len() > 80 && !spec_is_whitespace(name[0]) && !spec_is_whitespace(name.last())
            && name.last() != '.' ==> folder_name_problem(name) == Some(FolderNameProblem::TooLong),
        0 < name.len() <= 80 && !spec_is_whitespace(name[0]) && !spec_is_whitespace(name.last())
            && name.last() != '.' && (forall|j: int|
            0 <= j < name.len() ==> !refused_by_windows(#[trigger] name[j])) ==> (folder_name_problem(
            name,
        ) is None || folder_name_problem(name) == Some(FolderNameProblem::Reserved)),
{
    lemma_trim_unchanged(name);
    if name.len() > 0 {
        lemma_forbidden_characters_refused(name, 0);
    }
}

/// The MS-DOS device names CON, PRN, AUX, NUL, COM1 to COM9 and LPT1 to
/// LPT9, in any ASCII case and with any extension, are refused as reserved
/// once a name passes the other rules; every other such name is accepted.
pub proof fn lemma_device_names_reserved(name: Seq<char>)
    requires
        0 < name.len() <= 80,
        !spec_is_whitespace(name[0]),
        !spec_is_whitespace(name.last()),
        name.last() != '.',
        forall|j: int| 0 <= j < name.len() ==> !refused_by_windows(#[trigger] name[j]),
    ensures
        ({
            let d = ascii_lower_seq(before_first(name, '.'));
            let device = d == "con"@ || d == "prn"@ || d == "aux"@ || d == "nul"@ || (d.len() == 4
                && (d.take(3) == "com"@ || d.take(3) == "lpt"@) && '1' <= d[3] <= '9');
            &&& device ==> folder_name_problem(name) == Some(FolderNameProblem::Reserved)
            &&& !device ==> folder_name_problem(name) is None
        }),
{
    lemma_folder_name_rules(name);
    lemma_forbidden_characters_refused(name, 0);
    lemma_trim_unchanged(name);
    reveal_strlit("con");
    reveal_strlit("prn");
    reveal_strlit("aux");
    reveal_strlit("nul");
    reveal_strlit("com");
    reveal_strlit("lpt");
    assert("con"@ =~= seq!['c', 'o', 'n']);
    assert("prn"@ =~= seq!['p', 'r', 'n']);
    assert("aux"@ =~= seq!['a', 'u', 'x']);
    assert("nul"@ =~= seq!['n', 'u', 'l']);
    assert("com"@ =~= seq!['c', 'o', 'm']);
    assert("lpt"@ =~= seq!['l', 'p', 't']);
}

/// The message given to the user for each problem.
pub open spec fn folder_name_message(problem: FolderNameProblem, name: Seq<char>) -> Seq<char> {
    match problem {
        FolderNameProblem::EmptyOrPadded => "El nombre no puede estar vacío ni comenzar o terminar con espacios"@,
        FolderNameProblem::EndsWithDot => "Windows no permite nombres de carpeta terminados en punto"@,
        FolderNameProblem::TooLong => "El nombre no puede superar los 80 caracteres"@,
        FolderNameProblem::ForbiddenCharacter => "El nombre contiene caracteres no permitidos por Windows: < > : \" / \\ | ? *"@,
        FolderNameProblem::Reserved => "“"@ + name + "” es un nombre reservado por Windows. Elegí otro nombre."@,
    }
}

/// Whether some character of `v` is forbidden in a folder name.
pub fn has_forbidden_char(v: &Vec<char>) -> (r: bool)
    ensures
        r == exists|i: int| 0 <= i < v@.len() && spec_is_forbidden_in_name(#[trigger] v@[i]),
{
    let mut i: usize = 0;
    while i < v.len()
        invariant
            i <= v.len(),
            forall|k: int| 0 <= k < i ==> !spec_is_forbidden_in_name(#[trigger] v@[k]),
        decreases v.len() - i,
    {
        if is_forbidden_in_name(v[i]) {
            return true;
        }
        i = i + 1;
    }
    false
}

/// The problem of a folder name given as characters.
pub fn folder_name_check(v: &Vec<char>) -> (r: Option<FolderNameProblem>)
    ensures
        r == folder_name_problem(v@),
{
    let (a, b) = trim_bounds(v);
    if v.len() == 0 || a != 0 || b != v.len() {
        proof {
            if v.len() != 0 && (a != 0 || b != v.len()) {
                assert(trim_seq(v@).len() != v@.len());
            }
        }
        return Some(FolderNameProblem::EmptyOrPadded);
    }
    assert(trim_seq(v@) == v@) by {
        assert(v@.subrange(0, v.len() as int) =~= v@);
    }
    if v[v.len() - 1] == '.' {
        return Some(FolderNameProblem::EndsWithDot);
    }
    if v.len() > 80 {
        return Some(FolderNameProblem::TooLong);
    }
    if has_forbidden_char(v) {
        return Some(FolderNameProblem::ForbiddenCharacter);
    }
    let dot = find_char(v, '.');
    let mut device: Vec<char> = Vec::new();
    let mut i: usize = 0;
    while i < dot
        invariant
            dot <= v.len(),
            i <= dot,
            device@ == v@.take(i as int),
        decreases dot - i,
    {
        device.push(v[i]);
        assert(v@.take(i as int).push(v@[i as int]) =~= v@.take(i + 1));
        i = i + 1;
    }
    if is_reserved_device_name(&device) {
        return Some(FolderNameProblem::Reserved);
    }
    None
}

impl StorageService {
    /// Accepts `name` exactly when Windows would accept it as the name of a
    /// folder the organizer creates; otherwise says why.
    pub fn validate_windows_folder_name(name: &str) -> (r: Result<(), String>)
        ensures
            r is Ok <==> folder_name_problem(name@) is None,
            r matches Err(m) ==> m@ == folder_name_message(
                folder_name_problem(name@)->0,
                name@,
            ),
    {
        let v = chars_of(name);
        match folder_name_check(&v) {
            None => Ok(()),
            Some(FolderNameProblem::EmptyOrPadded) => Err(
                "El nombre no puede estar vacío ni comenzar o terminar con espacios".to_owned(),
            ),
            Some(FolderNameProblem::EndsWithDot) => Err(
                "Windows no permite nombres de carpeta terminados en punto".to_owned(),
            ),
            Some(FolderNameProblem::TooLong) => Err(
                "El nombre no puede superar los 80 caracteres".to_owned(),
            ),
            Some(FolderNameProblem::ForbiddenCharacter) => Err(
                "El nombre contiene caracteres no permitidos por Windows: < > : \" / \\ | ? *".to_owned(),
            ),
            Some(FolderNameProblem::Reserved) => {
                let mut m = "“".to_owned();
                push_str(&mut m, name);
                push_str(&mut m, "” es un nombre reservado por Windows. Elegí otro nombre.");
                Err(m)
            },
        }
    }
}

/// The folders and files the organizer keeps on disk, as resolved paths.
#[derive(Clone, Debug)]
pub struct StoragePaths {
    pub documents: String,
    pub desktop: String,
    pub root: String,
    pub drawers: String,
    pub dock: String,
    pub backups: String,
    pub logs: String,
    pub master_save: String,
}

/// The part of `StoragePaths` shown to the user.
#[derive(Clone, Debug)]
pub struct StoragePathsInfo {
    pub documents: String,
    pub desktop: String,
    pub root: String,
    pub drawers: String,
    pub master_save: String,
}

/// The hidden `.drawer.json` that names the drawer a folder belongs to.
#[derive(Clone, Debug)]
pub struct DrawerMetadata {
    pub drawer_id: String,
    pub format_version: u32,
    pub name: String,
    pub created_at: u64,
}

impl DrawerMetadata {
    /// A field-by-field copy.
    pub fn duplicate(&self) -> (r: Self)
        ensures
            r == *self,
    {
        DrawerMetadata {
            drawer_id: self.drawer_id.clone(),
            format_version: self.format_version,
            name: self.name.clone(),
            created_at: self.created_at,
        }
    }
}

/// A drawer folder found on disk, offered for recovery.
#[derive(Clone, Debug)]
pub struct RecoveredDrawerSeed {
    pub id: Option<String>,
    pub name: String,
    pub folder_path: String,
    pub created_at: Option<u64>,
}

/// How a move ended: a warning when the copy is safe but the source stayed.
#[derive(Clone, Debug)]
pub struct TransferOutcome {
    pub warning: Option<String>,
}

pub const APP_FOLDER_NAME: &'static str = "Desktop Organizer";

pub const DRAWERS_FOLDER_NAME: &'static str = "Cajones";

pub const DOCK_FOLDER_NAME: &'static str = "Dock - Accesos";

pub const BACKUPS_FOLDER_NAME: &'static str = "Backups";

pub const LOGS_FOLDER_NAME: &'static str = "Logs";

pub const MASTER_SAVE_NAME: &'static str = "desktop-organizer-save.json";

pub const DRAWER_METADATA_VERSION: u32 = 1;

/// `Path::join` of a relative `name` onto a Windows folder: a backslash in
/// between unless the folder is empty or already ends in a separator.
pub open spec fn joined_path(folder: Seq<char>, name: Seq<char>) -> Seq<char> {
    if folder.len() == 0 {
        name
    } else if folder.last() == '\\' || folder.last() == '/' {
        folder + name
    } else {
        folder + seq!['\\'] + name
    }
}

pub fn join_path(folder: &str, name: &str) -> (r: String)
    ensures
        r@ == joined_path(folder@, name@),
{
    let v = chars_of(folder);
    let mut r = string_of(&v);
    if v.len() > 0 && !(v[v.len() - 1] == '\\' || v[v.len() - 1] == '/') {
        push_char(&mut r, '\\');
    }
    push_str(&mut r, name);
    proof {
        if v@.len() > 0 && !(v@.last() == '\\' || v@.last() == '/') {
            assert(folder@.push('\\') + name@ =~= folder@ + seq!['\\'] + name@);
        }
    }
    r
}

impl StorageService {
    /// Where everything lives, given the user's Documents and Desktop folders.
    pub fn layout(documents: &str, desktop: &str) -> (r: StoragePaths)
        ensures
            r.documents@ == documents@,
            r.desktop@ == desktop@,
            r.root@ == joined_path(documents@, "Desktop Organizer"@),
            r.drawers@ == joined_path(r.root@, "Cajones"@),
            r.dock@ == joined_path(r.root@, "Dock - Accesos"@),
            r.backups@ == joined_path(r.root@, "Backups"@),
            r.logs@ == joined_path(r.root@, "Logs"@),
            r.master_save@ == joined_path(r.root@, "desktop-organizer-save.json"@),
    {
        let root = join_path(documents, APP_FOLDER_NAME);
        let drawers = join_path(root.as_str(), DRAWERS_FOLDER_NAME);
        let dock = join_path(root.as_str(), DOCK_FOLDER_NAME);
        let backups = join_path(root.as_str(), BACKUPS_FOLDER_NAME);
        let logs = join_path(root.as_str(), LOGS_FOLDER_NAME);
        let master_save = join_path(root.as_str(), MASTER_SAVE_NAME);
        proof {
            reveal_strlit("Desktop Organizer");
            reveal_strlit("Cajones");
            reveal_strlit("Dock - Accesos");
            reveal_strlit("Backups");
            reveal_strlit("Logs");
            reveal_strlit("desktop-organizer-save.json");
        }
        StoragePaths {
            documents: string_of(&chars_of(documents)),
            desktop: string_of(&chars_of(desktop)),
            root,
            drawers,
            dock,
            backups,
            logs,
            master_save,
        }
    }
}

impl StoragePaths {
    /// The folders shown to the user.
    pub fn info(&self) -> (r: StoragePathsInfo)
        ensures
            r.documents@ == self.documents@,
            r.desktop@ == self.desktop@,
            r.root@ == self.root@,
            r.drawers@ == self.drawers@,
            r.master_save@ == self.master_save@,
    {
        StoragePathsInfo {
            documents: self.documents.clone(),
            desktop: self.desktop.clone(),
            root: self.root.clone(),
            drawers: self.drawers.clone(),
            master_save: self.master_save.clone(),
        }
    }
}

/// Characters Windows refuses in a name become `_`.
pub open spec fn underscored(s: Seq<char>) -> Seq<char> {
    s.map_values(|c: char| if spec_is_forbidden_in_name(c) { '_' } else { c })
}

pub fn underscore_forbidden(v: &Vec<char>) -> (r: Vec<char>)
    ensures
        r@ == underscored(v@),
{
    let mut r: Vec<char> = Vec::new();
    let mut i: usize = 0;
    while i < v.len()
        invariant
            i <= v.len(),
            r@ == underscored(v@.take(i as int)),
        decreases v.len() - i,
    {
        let c = if is_forbidden_in_name(v[i]) {
            '_'
        } else {
            v[i]
        };
        r.push(c);
        assert(underscored(v@.take(i + 1)) =~= underscored(v@.take(i as int)).push(c));
        i = i + 1;
    }
    assert(v@.take(v.len() as int) =~= v@);
    r
}

/// `v` without leading and trailing spaces and dots.
pub fn strip_spaces_and_dots(v: &Vec<char>) -> (r: Vec<char>)
    ensures
        r@ == strip_both(v@, ' ', '.'),
{
    let a = strip_start_from(v, 0, v.len(), ' ', '.');
    assert(v@.subrange(0, v.len() as int) =~= v@);
    let b = strip_end_to(v, a, v.len(), ' ', '.');
    slice_chars(v, a, b)
}

/// The folder name a drawer called `name` gets: trimmed, forbidden
/// characters as `_`, no leading or trailing spaces and dots, `Cajón` when
/// nothing is left, and ` - Cajón` appended to a reserved device name.
pub open spec fn sanitized_folder_name(name: Seq<char>) -> Seq<char> {
    let s = strip_both(underscored(trim_seq(name)), ' ', '.');
    let s = if s.len() == 0 {
        "Cajón"@
    } else {
        s
    };
    if spec_is_reserved_device_name(before_first(s, '.')) {
        s + " - Cajón"@
    } else {
        s
    }
}

pub(crate) proof fn lemma_strip_start_suffix(s: Seq<char>, a: char, b: char)
    ensures
        crate::text::strip_start(s, a, b).len() <= s.len(),
        crate::text::strip_start(s, a, b) == s.skip(s.len() - crate::text::strip_start(s, a, b).len()),
        crate::text::strip_start(s, a, b).len() > 0 ==> crate::text::strip_start(s, a, b)[0] != a
            && crate::text::strip_start(s, a, b)[0] != b,
    decreases s.len(),
{
    if s.len() > 0 && (s[0] == a || s[0] == b) {
        lemma_strip_start_suffix(s.drop_first(), a, b);
        let t = crate::text::strip_start(s, a, b);
        assert(s.drop_first().skip(s.drop_first().len() - t.len()) =~= s.skip(s.len() - t.len()));
    } else {
        assert(s.skip(0) =~= s);
    }
}

pub(crate) proof fn lemma_strip_end_prefix(s: Seq<char>, a: char, b: char)
    ensures
        crate::text::strip_end(s, a, b).len() <= s.len(),
        crate::text::strip_end(s, a, b) == s.take(crate::text::strip_end(s, a, b).len() as int),
        crate::text::strip_end(s, a, b).len() > 0 ==> crate::text::strip_end(s, a, b).last() != a
            && crate::text::strip_end(s, a, b).last() != b,
    decreases s.len(),
{
    if s.len() > 0 && (s.last() == a || s.last() == b) {
        lemma_strip_end_prefix(s.drop_last(), a, b);
        let t = crate::text::strip_end(s, a, b);
        assert(s.drop_last().take(t.len() as int) =~= s.take(t.len() as int));
    } else {
        assert(s.take(s.len() as int) =~= s);
    }
}

/// A sanitized drawer folder name is never empty, holds no character that
/// Windows refuses, and neither starts nor ends with a space or a dot.
pub proof fn lemma_sanitized_name_is_clean(name: Seq<char>)
    ensures
        ({
            let s = sanitized_folder_name(name);
            &&& s.len() > 0
            &&& forall|i: int| 0 <= i < s.len() ==> !refused_by_windows(#[trigger] s[i])
            &&& s[0] != ' ' && s[0] != '.'
            &&& s.last() != ' ' && s.last() != '.'
        }),
{
    let u = underscored(trim_seq(name));
    let st = crate::text::strip_start(u, ' ', '.');
    let s0 = strip_both(u, ' ', '.');
    lemma_strip_start_suffix(u, ' ', '.');
    lemma_strip_end_prefix(st, ' ', '.');
    reveal_strlit("Cajón");
    reveal_strlit(" - Cajón");
    assert forall|i: int| 0 <= i < u.len() implies !refused_by_windows(#[trigger] u[i]) by {
        if !spec_is_forbidden_in_name(trim_seq(name)[i]) {
            assert(!refused_by_windows(trim_seq(name)[i]));
        }
    }
    assert forall|i: int| 0 <= i < s0.len() implies !refused_by_windows(#[trigger] s0[i]) by {
        assert(s0[i] == st[i]);
        assert(st[i] == u[u.len() - st.len() + i]);
    }
    let base = if s0.len() == 0 {
        "Cajón"@
    } else {
        s0
    };
    assert(forall|i: int| 0 <= i < base.len() ==> !refused_by_windows(#[trigger] base[i]));
    if s0.len() > 0 {
        assert(s0[0] == st[0]);
    }
    let tail = " - Cajón"@;
    assert forall|i: int| 0 <= i < (base + tail).len() implies !refused_by_windows(
        #[trigger] (base + tail)[i],
    ) by {
        if i >= base.len() {
            assert((base + tail)[i] == tail[i - base.len()]);
        }
    }
    assert((base + tail)[0] == base[0]);
}

pub fn sanitize_folder_name(name: &str) -> (r: String)
    ensures
        r@ == sanitized_folder_name(name@),
{
    let trimmed = trimmed_chars(name);
    let mapped = underscore_forbidden(&trimmed);
    let stripped = strip_spaces_and_dots(&mapped);
    let base: Vec<char> = if stripped.len() == 0 {
        proof {
            reveal_strlit("Cajón");
        }
        chars_of("Cajón")
    } else {
        stripped
    };
    let dot = find_char(&base, '.');
    let device = take_chars(&base, dot);
    let mut r = string_of(&base);
    if is_reserved_device_name(&device) {
        proof {
            reveal_strlit(" - Cajón");
        }
        push_str(&mut r, " - Cajón");
    }
    r
}

/// The `index`-th folder name tried for a new drawer: the sanitized name,
/// then `name (2)`, `name (3)`, ...
pub open spec fn folder_candidate(base: Seq<char>, index: nat) -> Seq<char> {
    if index == 1 {
        base
    } else {
        base + " ("@ + dec_digits(index) + ")"@
    }
}

pub fn drawer_folder_candidate(base: &str, index: u32) -> (r: String)
    ensures
        r@ == folder_candidate(base@, index as nat),
{
    let mut r = string_of(&chars_of(base));
    if index != 1 {
        push_str(&mut r, " (");
        push_decimal(&mut r, index as u64);
        push_str(&mut r, ")");
        proof {
            reveal_strlit(" (");
            reveal_strlit(")");
        }
    }
    r
}

pub const DRAWER_METADATA_NAME: &'static str = ".drawer.json";

pub const TRANSFER_PREFIX: &'static str = ".desktop-organizer-transfer-";

/// Entries of a drawer folder that are the organizer's own bookkeeping:
/// `.drawer.json` (in any ASCII case), its temporary siblings
/// `.drawer.json.*`, and half-finished transfers.
pub open spec fn internal_file_name(name: Seq<char>) -> bool {
    ||| eq_ignore_ascii_case(name, ".drawer.json"@)
    ||| ".drawer.json."@.is_prefix_of(name)
    ||| ".desktop-organizer-transfer-"@.is_prefix_of(name)
}

impl StorageService {
    pub fn is_internal_file_name(name: &str) -> (r: bool)
        ensures
            r == internal_file_name(name@),
    {
        let v = chars_of(name);
        let meta = chars_of(".drawer.json");
        let meta_dot = chars_of(".drawer.json.");
        let transfer = chars_of(".desktop-organizer-transfer-");
        proof {
            reveal_strlit(".drawer.json");
            reveal_strlit(".drawer.json.");
            reveal_strlit(".desktop-organizer-transfer-");
        }
        chars_eq_ignore_ascii_case(&v, &meta) || has_prefix(&v, &meta_dot) || has_prefix(
            &v,
            &transfer,
        )
    }

    /// Whether `path` lies on the Desktop, below it and not the Desktop
    /// itself. Both are resolved paths.
    pub fn is_desktop_item(path: &str, desktop: &str) -> (r: bool)
        ensures
            r == (path_key(path@) != path_key(desktop@) && within_keys(
                path_key(path@),
                path_key(desktop@),
            )),
    {
        let a = comparable_path(path);
        let b = comparable_path(desktop);
        !str_eq(a.as_str(), b.as_str()) && is_within(path, desktop)
    }

    /// The metadata written into a drawer's folder: its id, name and
    /// creation time, in the current format. Read back (see
    /// `read_folder_metadata`), it is accepted as it was written.
    pub fn folder_metadata(drawer_id: &str, name: &str, created_at: u64) -> (r: DrawerMetadata)
        ensures
            r.drawer_id@ == drawer_id@,
            r.name@ == name@,
            r.created_at == created_at,
            r.format_version == DRAWER_METADATA_VERSION,
    {
        DrawerMetadata {
            drawer_id: string_of(&chars_of(drawer_id)),
            format_version: DRAWER_METADATA_VERSION,
            name: string_of(&chars_of(name)),
            created_at,
        }
    }

    /// The metadata found in a drawer folder, refused when it comes from a
    /// newer version of the organizer. `found` is what the folder held.
    pub fn read_folder_metadata(folder: &str, found: Option<DrawerMetadata>) -> (r: Result<
        Option<DrawerMetadata>,
        String,
    >)
        ensures
            found is None ==> r == Ok::<Option<DrawerMetadata>, String>(None),
            found matches Some(m) ==> (if m.format_version > DRAWER_METADATA_VERSION {
                r matches Err(e) && e@ == "La metadata de "@ + folder@ + " usa una versión más nueva"@
            } else {
                r == Ok::<Option<DrawerMetadata>, String>(Some(m))
            }),
    {
        match found {
            None => Ok(None),
            Some(m) => {
                if m.format_version > DRAWER_METADATA_VERSION {
                    let mut e = "La metadata de ".to_owned();
                    push_str(&mut e, folder);
                    push_str(&mut e, " usa una versión más nueva");
                    proof {
                        reveal_strlit("La metadata de ");
                        reveal_strlit(" usa una versión más nueva");
                    }
                    Err(e)
                } else {
                    Ok(Some(m))
                }
            },
        }
    }

    /// The recovery offer for a drawer folder: the metadata's id, name and
    /// creation time, or the folder's own name when the metadata has none.
    pub fn recovered_seed(metadata: Option<DrawerMetadata>, folder_name: &str, folder_path: &str) -> (r:
        RecoveredDrawerSeed)
        ensures
            r.folder_path@ == folder_path@,
            metadata matches Some(m) ==> (r.id matches Some(id) && id@ == m.drawer_id@)
                && r.created_at == Some(m.created_at) && r.name@ == (if trim_seq(m.name@).len() == 0 {
                folder_name@
            } else {
                m.name@
            }),
            metadata is None ==> r.id is None && r.created_at is None && r.name@ == folder_name@,
    {
        let fallback = string_of(&chars_of(folder_name));
        let path = string_of(&chars_of(folder_path));
        match metadata {
            Some(m) => {
                let blank = trimmed_chars(m.name.as_str()).len() == 0;
                RecoveredDrawerSeed {
                    id: Some(m.drawer_id),
                    name: if blank {
                        fallback
                    } else {
                        m.name
                    },
                    folder_path: path,
                    created_at: Some(m.created_at),
                }
            },
            None => RecoveredDrawerSeed {
                id: None,
                name: fallback,
                folder_path: path,
                created_at: None,
            },
        }
    }
}

} // verus!

verus! {

/// What a safe move has just learned: the outcome of the step it asked for.
/// Errors are the text the file system reported.
#[derive(Debug)]
pub enum MoveEvent {
    /// Before anything is touched: whether the destination and the source exist.
    Checked { destination_exists: bool, source_exists: bool },
    /// The plain rename finished; on failure, whether both sides lie on one volume.
    Renamed { error: Option<String>, same_volume: bool },
    /// The destination's folder was looked up (it may have none) and created.
    Prepared { has_parent: bool, error: Option<String> },
    /// The verified copy into the staging entry finished.
    Copied { error: Option<String> },
    /// The staging entry was renamed onto the destination.
    Committed { error: Option<String> },
    /// The source was removed after the copy was committed.
    SourceRemoved { error: Option<String> },
}

/// What a safe move does next.
#[derive(Debug)]
pub enum MoveAction {
    /// Stop with this error; nothing was moved.
    Refuse(String),
    /// Rename the source onto the destination.
    Rename,
    /// Create the destination's folder, to copy across volumes.
    PrepareStaging,
    /// Copy the source, verified, into a staging entry beside the destination.
    CopyToStaging,
    /// Rename the staging entry onto the destination.
    CommitStaging,
    /// Remove the staging entry and stop with this error; the source is intact.
    Abandon(String),
    /// Remove the source, now that its copy is in place.
    RemoveSource,
    /// The move is complete, with a warning when the source could not go.
    Finish(Option<String>),
}

pub open spec fn destination_taken_message(name: Seq<char>) -> Seq<char> {
    "Ya existe “"@ + name + "” en el destino. No se sobrescribió ni fusionó nada."@
}

pub open spec fn source_gone_message() -> Seq<char> {
    "El elemento de origen ya no existe"@
}

pub open spec fn rename_failed_message(e: Seq<char>) -> Seq<char> {
    "Windows no pudo mover el elemento: "@ + e
}

pub open spec fn no_parent_message() -> Seq<char> {
    "El destino no tiene una carpeta válida"@
}

pub open spec fn prepare_failed_message(e: Seq<char>) -> Seq<char> {
    "No se pudo preparar el destino: "@ + e
}

pub open spec fn copy_failed_message(e: Seq<char>) -> Seq<char> {
    "La copia entre volúmenes no terminó correctamente; el origen permanece intacto. "@ + e
}

pub open spec fn commit_failed_message(e: Seq<char>) -> Seq<char> {
    "No se pudo confirmar el destino; el origen permanece intacto. "@ + e
}

pub open spec fn source_kept_warning(source: Seq<char>, e: Seq<char>) -> Seq<char> {
    "La copia fue verificada, pero Windows no pudo retirar el origen. Hay una copia segura en el cajón y el original continúa en "@
        + source + ": "@ + e
}

/// The next step of a move that never overwrites and never loses the source:
/// an existing destination refuses the move; a rename is tried first; across
/// volumes the source is copied, verified, into a staging entry that is then
/// renamed onto the destination, and only then is the source removed.
/// `destination_name` names the destination in messages and `source` is the
/// source's path.
/// The step a safe move answers to `event`.
pub open spec fn move_answer(
    event: MoveEvent,
    destination_name: Seq<char>,
    source: Seq<char>,
    r: MoveAction,
) -> bool {
    match event {
        MoveEvent::Checked { destination_exists, source_exists } => if destination_exists {
            r matches MoveAction::Refuse(m) && m@ == destination_taken_message(
                destination_name,
            )
        } else if !source_exists {
            r matches MoveAction::Refuse(m) && m@ == source_gone_message()
        } else {
            r is Rename
        },
        MoveEvent::Renamed { error, same_volume } => match error {
            None => r matches MoveAction::Finish(w) && w is None,
            Some(e) => if same_volume {
                r matches MoveAction::Refuse(m) && m@ == rename_failed_message(e@)
            } else {
                r is PrepareStaging
            },
        },
        MoveEvent::Prepared { has_parent, error } => if !has_parent {
            r matches MoveAction::Refuse(m) && m@ == no_parent_message()
        } else {
            match error {
                None => r is CopyToStaging,
                Some(e) => r matches MoveAction::Refuse(m) && m@ == prepare_failed_message(
                    e@,
                ),
            }
        },
        MoveEvent::Copied { error } => match error {
            None => r is CommitStaging,
            Some(e) => r matches MoveAction::Abandon(m) && m@ == copy_failed_message(e@),
        },
        MoveEvent::Committed { error } => match error {
            None => r is RemoveSource,
            Some(e) => r matches MoveAction::Abandon(m) && m@ == commit_failed_message(e@),
        },
        MoveEvent::SourceRemoved { error } => match error {
            None => r matches MoveAction::Finish(w) && w is None,
            Some(e) => r matches MoveAction::Finish(w) && w matches Some(t) && t@
                == source_kept_warning(source, e@),
        },
    }
}

/// A safe move never overwrites and never loses the source: an existing
/// destination refuses the move before anything is touched; the source is
/// removed only once its verified copy has been committed at the
/// destination; a failed copy or commit abandons the staging entry and
/// keeps the source.
pub proof fn lemma_move_keeps_the_source(
    event: MoveEvent,
    destination_name: Seq<char>,
    source: Seq<char>,
    r: MoveAction,
)
    requires
        move_answer(event, destination_name, source, r),
    ensures
        event matches MoveEvent::Checked { destination_exists, .. } && destination_exists
            ==> r is Refuse,
        r is RemoveSource ==> (event matches MoveEvent::Committed { error } && error is None),
        r is Rename ==> (event matches MoveEvent::Checked { destination_exists, source_exists }
            && !destination_exists && source_exists),
        r is CommitStaging ==> (event matches MoveEvent::Copied { error } && error is None),
        event matches MoveEvent::Copied { error } && error is Some ==> r is Abandon,
        event matches MoveEvent::Committed { error } && error is Some ==> r is Abandon,
{
}

pub fn safe_move_step(event: &MoveEvent, destination_name: &str, source: &str) -> (r: MoveAction)
    ensures
        move_answer(*event, destination_name@, source@, r),
{
    match event {
        MoveEvent::Checked { destination_exists, source_exists } => {
            if *destination_exists {
                let mut m = "Ya existe “".to_string();
                push_str(&mut m, destination_name);
                push_str(&mut m, "” en el destino. No se sobrescribió ni fusionó nada.");
                MoveAction::Refuse(m)
            } else if !*source_exists {
                MoveAction::Refuse("El elemento de origen ya no existe".to_string())
            } else {
                MoveAction::Rename
            }
        },
        MoveEvent::Renamed { error, same_volume } => match error {
            None => MoveAction::Finish(None),
            Some(e) => {
                if *same_volume {
                    let mut m = "Windows no pudo mover el elemento: ".to_string();
                    push_str(&mut m, e.as_str());
                    MoveAction::Refuse(m)
                } else {
                    MoveAction::PrepareStaging
                }
            },
        },
        MoveEvent::Prepared { has_parent, error } => {
            if !*has_parent {
                MoveAction::Refuse("El destino no tiene una carpeta válida".to_string())
            } else {
                match error {
                    None => MoveAction::CopyToStaging,
                    Some(e) => {
                        let mut m = "No se pudo preparar el destino: ".to_string();
                        push_str(&mut m, e.as_str());
                        MoveAction::Refuse(m)
                    },
                }
            }
        },
        MoveEvent::Copied { error } => match error {
            None => MoveAction::CommitStaging,
            Some(e) => {
                let mut m =
                    "La copia entre volúmenes no terminó correctamente; el origen permanece intacto. ".to_string();
                push_str(&mut m, e.as_str());
                MoveAction::Abandon(m)
            },
        },
        MoveEvent::Committed { error } => match error {
            None => MoveAction::RemoveSource,
            Some(e) => {
                let mut m = "No se pudo confirmar el destino; el origen permanece intacto. ".to_string();
                push_str(&mut m, e.as_str());
                MoveAction::Abandon(m)
            },
        },
        MoveEvent::SourceRemoved { error } => match error {
            None => MoveAction::Finish(None),
            Some(e) => {
                let mut m =
                    "La copia fue verificada, pero Windows no pudo retirar el origen. Hay una copia segura en el cajón y el original continúa en ".to_string();
                push_str(&mut m, source);
                push_str(&mut m, ": ");
                push_str(&mut m, e.as_str());
                MoveAction::Finish(Some(m))
            },
        },
    }
}

impl RecoveredDrawerSeed {
    /// A field-by-field copy.
    pub fn duplicate(&self) -> (r: Self)
        ensures
            r == *self,
    {
        RecoveredDrawerSeed {
            id: match &self.id {
                Some(id) => Some(id.clone()),
                None => None,
            },
            name: self.name.clone(),
            folder_path: self.folder_path.clone(),
            created_at: self.created_at,
        }
    }
}

/// The recovery offers keyed by their lower-cased names.
pub open spec fn seeds_by_name(seeds: Seq<RecoveredDrawerSeed>) -> Seq<
    KeyedView<RecoveredDrawerSeed>,
> {
    seeds.map_values(|d: RecoveredDrawerSeed| (0u64, unicode_lowercase(d.name@), d))
}

/// The drawers found on disk in the order they are offered: by lower-cased
/// name, equal names in the order they were found.
pub fn recovery_order(seeds: &Vec<RecoveredDrawerSeed>) -> (r: Vec<RecoveredDrawerSeed>)
    ensures
        r@ == values_of(stable_sorted(seeds_by_name(seeds@), false)),
{
    let mut keyed: Vec<Keyed<RecoveredDrawerSeed>> = Vec::new();
    let mut i: usize = 0;
    while i < seeds.len()
        invariant
            i <= seeds@.len(),
            keyed_views(keyed@) == seeds_by_name(seeds@).take(i as int),
        decreases seeds@.len() - i,
    {
        let d = seeds[i].duplicate();
        let key = lowercase_chars(&chars_of(d.name.as_str()));
        let k = Keyed { rank: 0, name: key, value: d };
        let ghost before = keyed_views(keyed@);
        keyed.push(k);
        assert(keyed_views(keyed@) =~= seeds_by_name(seeds@).take(i + 1)) by {
            assert(keyed_views(keyed@) =~= before.push(k.key_view()));
        }
        i = i + 1;
    }
    assert(seeds_by_name(seeds@).take(seeds@.len() as int) =~= seeds_by_name(seeds@));
    let sorted = stable_sort(keyed, false);
    let ghost sv = keyed_views(sorted@);
    let mut result: Vec<RecoveredDrawerSeed> = Vec::new();
    let mut j: usize = 0;
    while j < sorted.len()
        invariant
            j <= sorted@.len(),
            sv == keyed_views(sorted@),
            result@ == values_of(sv).take(j as int),
        decreases sorted@.len() - j,
    {
        result.push(sorted[j].value.duplicate());
        assert(result@ =~= values_of(sv).take(j + 1));
        j = j + 1;
    }
    assert(values_of(sv).take(sorted@.len() as int) =~= values_of(sv));
    result
}

/// The drawers found on disk are offered in order of their lower-cased
/// names (equal names keep the order they were found in), each exactly as
/// many times as it was found.
pub proof fn lemma_recovery_order_sorted(seeds: Seq<RecoveredDrawerSeed>)
    ensures
        values_of(stable_sorted(seeds_by_name(seeds), false)).len() == seeds.len(),
        stable_sorted(seeds_by_name(seeds), false).to_multiset() == seeds_by_name(
            seeds,
        ).to_multiset(),
        forall|i: int, j: int|
            0 <= i < j < seeds.len() ==> !lex_lt(
                unicode_lowercase(
                    (#[trigger] values_of(stable_sorted(seeds_by_name(seeds), false))[j]).name@,
                ),
                unicode_lowercase(
                    (#[trigger] values_of(stable_sorted(seeds_by_name(seeds), false))[i]).name@,
                ),
            ),
{
    let keyed = seeds_by_name(seeds);
    let sorted = stable_sorted(keyed, false);
    lemma_stable_sorted_len(keyed, false);
    lemma_stable_sorted_in_order(keyed, false);
    lemma_stable_sorted_permutes(keyed, false);
    assert forall|k: int| 0 <= k < sorted.len() implies (#[trigger] sorted[k]).1
        == unicode_lowercase(sorted[k].2.name@) && sorted[k].0 == 0 by {
        vstd::seq_lib::to_multiset_contains(sorted, sorted[k]);
        vstd::seq_lib::to_multiset_contains(keyed, sorted[k]);
        assert(sorted.contains(sorted[k]));
        let w = choose|w: int| 0 <= w < keyed.len() && keyed[w] == sorted[k];
        assert(keyed[w] == (0u64, unicode_lowercase(seeds[w].name@), seeds[w]));
    }
    assert forall|i: int, j: int| 0 <= i < j < seeds.len() implies !lex_lt(
        unicode_lowercase((#[trigger] values_of(sorted)[j]).name@),
        unicode_lowercase((#[trigger] values_of(sorted)[i]).name@),
    ) by {
        assert(!key_before(sorted[j], sorted[i], false));
        assert(sorted[i].1 == unicode_lowercase(sorted[i].2.name@));
        assert(sorted[j].1 == unicode_lowercase(sorted[j].2.name@));
    }
}

/// Where a damaged `.drawer.json` is set aside, in its own folder:
/// `.drawer.json.corrupt-<id>`, a name the folder's listing never shows.
pub fn corrupt_metadata_name(id: &str) -> (r: String)
    ensures
        r@ == ".drawer.json.corrupt-"@ + id@,
        internal_file_name(r@),
{
    let mut r = ".drawer.json.corrupt-".to_string();
    push_str(&mut r, id);
    proof {
        reveal_strlit(".drawer.json.corrupt-");
        reveal_strlit(".drawer.json.");
        assert(".drawer.json."@ =~= r@.subrange(0, 13));
    }
    r
}

} // verus!
