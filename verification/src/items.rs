//! What an element of a drawer or of the Dock is, read from its path: its
//! file name, stem and extension as Windows paths have them, its type and
//! the name shown for it.
use vstd::prelude::*;

use crate::model::DrawerItemType;
use crate::text::{
    ascii_lower_seq, chars_eq_ignore_ascii_case, chars_of, eq_ignore_ascii_case, slice_chars,
    string_of,
};

verus! {

pub open spec fn is_path_separator(c: char) -> bool {
    c == '\\' || c == '/'
}

/// Index just after the last separator of `p[..end]`, or 0.
pub open spec fn segment_start(p: Seq<char>, end: int) -> int
    decreases end,
{
    if end <= 0 {
        0
    } else if is_path_separator(p[end - 1]) {
        end
    } else {
        segment_start(p, end - 1)
    }
}

/// Length of `p` without trailing separators.
pub open spec fn trimmed_end(p: Seq<char>, end: int) -> int
    decreases end,
{
    if end <= 0 {
        0
    } else if is_path_separator(p[end - 1]) {
        trimmed_end(p, end - 1)
    } else {
        end
    }
}

/// The last component of a path, as `Path::file_name` gives it: trailing
/// separators ignored; none when that component is empty, `.`, `..` or a
/// drive such as `C:`.
pub open spec fn file_name_of(p: Seq<char>) -> Option<Seq<char>> {
    let end = trimmed_end(p, p.len() as int);
    let start = segment_start(p, end);
    let seg = p.subrange(start, end);
    if seg.len() == 0 || seg == seq!['.'] || seg == seq!['.', '.'] || seg.last() == ':' {
        None
    } else {
        Some(seg)
    }
}

/// The last component starts after a separator (or at the start) and holds
/// no separator.
pub proof fn lemma_segment_start(p: Seq<char>, end: int)
    requires
        0 <= end <= p.len(),
    ensures
        0 <= segment_start(p, end) <= end,
        segment_start(p, end) == 0 || is_path_separator(p[segment_start(p, end) - 1]),
        forall|i: int| segment_start(p, end) <= i < end ==> !is_path_separator(#[trigger] p[i]),
    decreases end,
{
    if end > 0 && !is_path_separator(p[end - 1]) {
        lemma_segment_start(p, end - 1);
    }
}

/// Where the last `m` characters hold no separator and follow a separator
/// (or the start), the last component is exactly those characters.
pub proof fn lemma_segment_start_of(q: Seq<char>, end: int, m: int)
    requires
        0 <= m <= end <= q.len(),
        forall|i: int| end - m <= i < end ==> !is_path_separator(#[trigger] q[i]),
        end - m == 0 || is_path_separator(q[end - m - 1]),
    ensures
        segment_start(q, end) == end - m,
    decreases m,
{
    if m > 0 {
        lemma_segment_start_of(q, end - 1, m - 1);
    }
}

/// A file name, put after a separator (or alone), is the file name again.
pub proof fn lemma_file_name_after(p: Seq<char>, n: Seq<char>, base: Seq<char>)
    requires
        file_name_of(p) == Some(n),
        base.len() == 0 || is_path_separator(base.last()),
    ensures
        file_name_of(base + n) == Some(n),
{
    let end = trimmed_end(p, p.len() as int);
    lemma_trimmed_end_bound(p, p.len() as int);
    lemma_segment_start(p, end);
    let start = segment_start(p, end);
    let q = base + n;
    let l = q.len() as int;
    assert(n.len() > 0);
    assert forall|i: int| 0 <= i < n.len() implies !is_path_separator(#[trigger] n[i]) by {
        assert(n[i] == p[start + i]);
    }
    assert(q[l - 1] == n[n.len() - 1]);
    assert(trimmed_end(q, l) == l);
    assert forall|i: int| l - n.len() <= i < l implies !is_path_separator(#[trigger] q[i]) by {
        assert(q[i] == n[i - base.len()]);
    }
    if base.len() > 0 {
        assert(q[l - n.len() - 1] == base.last());
    }
    lemma_segment_start_of(q, l, n.len() as int);
    assert(q.subrange(l - n.len(), l) =~= n);
}

proof fn lemma_trimmed_end_bound(p: Seq<char>, end: int)
    requires
        0 <= end <= p.len(),
    ensures
        0 <= trimmed_end(p, end) <= end,
    decreases end,
{
    if end > 0 && is_path_separator(p[end - 1]) {
        lemma_trimmed_end_bound(p, end - 1);
    }
}

/// Index of the last `.` of `name`, if any.
pub open spec fn last_dot(name: Seq<char>, end: int) -> int
    decreases end,
{
    if end <= 0 {
        -1
    } else if name[end - 1] == '.' {
        end - 1
    } else {
        last_dot(name, end - 1)
    }
}

/// `(stem, extension)` of a file name, as `Path::file_stem` and
/// `Path::extension` split it: at the last dot, unless the name is `..` or
/// its only dot is the first character.
pub open spec fn split_extension(name: Seq<char>) -> (Seq<char>, Option<Seq<char>>) {
    let d = last_dot(name, name.len() as int);
    if name == seq!['.', '.'] || d <= 0 {
        (name, None)
    } else {
        (name.take(d), Some(name.skip(d + 1)))
    }
}

fn segment_bounds(p: &Vec<char>) -> (r: (usize, usize))
    ensures
        r.1 == trimmed_end(p@, p@.len() as int),
        r.0 == segment_start(p@, r.1 as int),
        r.0 <= r.1 <= p@.len(),
{
    let mut end = p.len();
    while end > 0 && (p[end - 1] == '\\' || p[end - 1] == '/')
        invariant
            end <= p@.len(),
            trimmed_end(p@, p@.len() as int) == trimmed_end(p@, end as int),
        decreases end,
    {
        end = end - 1;
    }
    let mut start = end;
    while start > 0 && !(p[start - 1] == '\\' || p[start - 1] == '/')
        invariant
            start <= end <= p@.len(),
            segment_start(p@, end as int) == segment_start(p@, start as int),
        decreases start,
    {
        start = start - 1;
    }
    (start, end)
}

/// The file name of `path`.
pub fn file_name(path: &str) -> (r: Option<String>)
    ensures
        r matches Some(n) ==> file_name_of(path@) == Some(n@),
        r is None <==> file_name_of(path@) is None,
{
    let p = chars_of(path);
    let (start, end) = segment_bounds(&p);
    let seg = slice_chars(&p, start, end);
    let n = seg.len();
    if n == 0 || (n == 1 && seg[0] == '.') || (n == 2 && seg[0] == '.' && seg[1] == '.') || seg[n
        - 1] == ':' {
        proof {
            if n == 1 && seg@[0] == '.' {
                assert(seg@ =~= seq!['.']);
            }
            if n == 2 && seg@[0] == '.' && seg@[1] == '.' {
                assert(seg@ =~= seq!['.', '.']);
            }
        }
        None
    } else {
        proof {
            assert(seg@ != seq!['.']) by {
                if seg@ == seq!['.'] {
                    assert(seg@[0] == '.');
                }
            }
            assert(seg@ != seq!['.', '.']) by {
                if seg@ == seq!['.', '.'] {
                    assert(seg@[0] == '.' && seg@[1] == '.');
                }
            }
        }
        Some(string_of(&seg))
    }
}

proof fn lemma_last_dot_bound(name: Seq<char>, end: int)
    requires
        0 <= end <= name.len(),
    ensures
        -1 <= last_dot(name, end) < end,
    decreases end,
{
    if end > 0 && name[end - 1] != '.' {
        lemma_last_dot_bound(name, end - 1);
    }
}

fn last_dot_index(name: &Vec<char>) -> (r: usize)
    ensures
        r <= name@.len(),
        -1 <= last_dot(name@, name@.len() as int) < name@.len(),
        r == (if last_dot(name@, name@.len() as int) < 0 {
            name@.len() as int
        } else {
            last_dot(name@, name@.len() as int)
        }),
{
    let mut end = name.len();
    while end > 0 && name[end - 1] != '.'
        invariant
            end <= name@.len(),
            last_dot(name@, name@.len() as int) == last_dot(name@, end as int),
        decreases end,
    {
        end = end - 1;
    }
    proof {
        lemma_last_dot_bound(name@, name@.len() as int);
    }
    if end == 0 {
        name.len()
    } else {
        end - 1
    }
}

/// The stem and extension of a file name.
pub fn split_file_name(name: &str) -> (r: (String, Option<String>))
    ensures
        r.0@ == split_extension(name@).0,
        r.1 matches Some(e) ==> split_extension(name@).1 == Some(e@),
        r.1 is None <==> split_extension(name@).1 is None,
{
    let v = chars_of(name);
    let d = last_dot_index(&v);
    let dotdot = v.len() == 2 && v[0] == '.' && v[1] == '.';
    proof {
        if v@.len() == 2 && v@[0] == '.' && v@[1] == '.' {
            assert(v@ =~= seq!['.', '.']);
        }
        if v@ == seq!['.', '.'] {
            assert(v@[0] == '.' && v@[1] == '.');
        }
    }
    if dotdot || d == 0 || d == v.len() {
        (string_of(&v), None)
    } else {
        let stem = slice_chars(&v, 0, d);
        let ext = slice_chars(&v, d + 1, v.len());
        assert(stem@ =~= v@.take(d as int));
        assert(ext@ =~= v@.skip(d + 1));
        (string_of(&stem), Some(string_of(&ext)))
    }
}

/// The extension of `path`, ASCII case ignored, is `ext`.
pub open spec fn has_extension(path: Seq<char>, ext: Seq<char>) -> bool {
    file_name_of(path) matches Some(n) && split_extension(n).1 matches Some(e)
        && eq_ignore_ascii_case(e, ext)
}

/// A folder, a program (`.exe`), a Windows shortcut (`.lnk`) or any other
/// file.
pub open spec fn item_type_of(is_dir: bool, path: Seq<char>) -> DrawerItemType {
    if is_dir {
        DrawerItemType::Folder
    } else if has_extension(path, "exe"@) {
        DrawerItemType::Executable
    } else if has_extension(path, "lnk"@) {
        DrawerItemType::Shortcut
    } else {
        DrawerItemType::File
    }
}

/// Whether the extension of `path` is `ext`, ASCII case ignored.
pub fn extension_is(path: &str, ext: &str) -> (r: bool)
    ensures
        r == has_extension(path@, ext@),
{
    match file_name(path) {
        None => false,
        Some(n) => {
            let (_, e) = split_file_name(n.as_str());
            match e {
                None => false,
                Some(e) => chars_eq_ignore_ascii_case(&chars_of(e.as_str()), &chars_of(ext)),
            }
        },
    }
}

/// The type of the element at `path`; `is_dir` is what the file system
/// says of it.
pub fn classify(path: &str, is_dir: bool) -> (r: DrawerItemType)
    ensures
        r == item_type_of(is_dir, path@),
{
    proof {
        reveal_strlit("exe");
        reveal_strlit("lnk");
    }
    if is_dir {
        DrawerItemType::Folder
    } else if extension_is(path, "exe") {
        DrawerItemType::Executable
    } else if extension_is(path, "lnk") {
        DrawerItemType::Shortcut
    } else {
        DrawerItemType::File
    }
}

/// The name shown for an element: programs and shortcuts without their
/// extension, folders and files with it; the whole path when it has no
/// file name.
pub open spec fn display_name_of(path: Seq<char>, item_type: DrawerItemType) -> Seq<char> {
    match file_name_of(path) {
        None => path,
        Some(n) => match item_type {
            DrawerItemType::Executable | DrawerItemType::Shortcut => split_extension(n).0,
            _ => n,
        },
    }
}

proof fn lemma_last_dot_after(name: Seq<char>, d: int, end: int)
    requires
        0 <= d < end <= name.len(),
        name[d] == '.',
        forall|k: int| d < k < name.len() ==> name[k] != '.',
    ensures
        last_dot(name, end) == d,
    decreases end,
{
    if end - 1 > d {
        lemma_last_dot_after(name, d, end - 1);
    }
}

/// `stem.ext`, with no dot in `ext` and not `..`, splits into `stem` and `ext`.
proof fn lemma_split_at_last_dot(stem: Seq<char>, ext: Seq<char>)
    requires
        stem.len() > 0,
        forall|k: int| 0 <= k < ext.len() ==> ext[k] != '.',
        stem + seq!['.'] + ext != seq!['.', '.'],
    ensures
        split_extension(stem + seq!['.'] + ext) == (stem, Some(ext)),
{
    let n = stem + seq!['.'] + ext;
    let d = stem.len() as int;
    assert(n[d] == '.');
    assert forall|k: int| d < k < n.len() implies n[k] != '.' by {
        assert(n[k] == ext[k - d - 1]);
    }
    lemma_last_dot_after(n, d, n.len() as int);
    assert(n.take(d) =~= stem);
    assert(n.skip(d + 1) =~= ext);
}

/// What an element is: a folder when the file system says so; otherwise a
/// program when its extension is `exe`, a Windows shortcut when it is
/// `lnk` (ASCII case ignored either way), and any other file else.
pub proof fn lemma_item_types(path: Seq<char>, stem: Seq<char>, ext: Seq<char>)
    requires
        file_name_of(path) == Some(stem + seq!['.'] + ext),
        stem.len() > 0,
        forall|k: int| 0 <= k < ext.len() ==> ext[k] != '.',
        stem + seq!['.'] + ext != seq!['.', '.'],
    ensures
        item_type_of(true, path) == DrawerItemType::Folder,
        ascii_lower_seq(ext) == seq!['e', 'x', 'e'] ==> item_type_of(false, path)
            == DrawerItemType::Executable,
        ascii_lower_seq(ext) == seq!['l', 'n', 'k'] ==> item_type_of(false, path)
            == DrawerItemType::Shortcut,
        ascii_lower_seq(ext) != seq!['e', 'x', 'e'] && ascii_lower_seq(ext) != seq!['l', 'n', 'k']
            ==> item_type_of(false, path) == DrawerItemType::File,
{
    lemma_split_at_last_dot(stem, ext);
    reveal_strlit("exe");
    reveal_strlit("lnk");
    assert(ascii_lower_seq("exe"@) =~= seq!['e', 'x', 'e']);
    assert(ascii_lower_seq("lnk"@) =~= seq!['l', 'n', 'k']);
}

/// A file whose name has no dot is a plain file.
pub proof fn lemma_undotted_files(path: Seq<char>, n: Seq<char>)
    requires
        file_name_of(path) == Some(n),
        forall|k: int| 0 <= k < n.len() ==> n[k] != '.',
    ensures
        item_type_of(false, path) == DrawerItemType::File,
{
    lemma_last_dot_none(n, n.len() as int);
}

/// Programs and shortcuts are shown without their extension; folders and
/// other files with their whole file name. For an element whose file name
/// is `stem.ext` (no dot in `ext`, and not `..`), a program or shortcut is
/// shown as `stem`, a folder or file as `stem.ext`.
pub proof fn lemma_shown_names(path: Seq<char>, stem: Seq<char>, ext: Seq<char>, t: DrawerItemType)
    requires
        file_name_of(path) == Some(stem + seq!['.'] + ext),
        stem.len() > 0,
        forall|k: int| 0 <= k < ext.len() ==> ext[k] != '.',
        stem + seq!['.'] + ext != seq!['.', '.'],
    ensures
        t == DrawerItemType::Executable || t == DrawerItemType::Shortcut ==> display_name_of(path, t)
            == stem,
        t == DrawerItemType::Folder || t == DrawerItemType::File ==> display_name_of(path, t) == stem
            + seq!['.'] + ext,
{
    let n = stem + seq!['.'] + ext;
    let d = stem.len() as int;
    assert(n[d] == '.');
    assert forall|k: int| d < k < n.len() implies n[k] != '.' by {
        assert(n[k] == ext[k - d - 1]);
    }
    lemma_last_dot_after(n, d, n.len() as int);
    assert(n.take(d) =~= stem);
}

/// A file name with no dot in it is shown whole, whatever the element is.
pub proof fn lemma_names_without_dot_shown_whole(path: Seq<char>, n: Seq<char>, t: DrawerItemType)
    requires
        file_name_of(path) == Some(n),
        forall|k: int| 0 <= k < n.len() ==> n[k] != '.',
    ensures
        display_name_of(path, t) == n,
{
    lemma_last_dot_none(n, n.len() as int);
}

proof fn lemma_last_dot_none(name: Seq<char>, end: int)
    requires
        0 <= end <= name.len(),
        forall|k: int| 0 <= k < name.len() ==> name[k] != '.',
    ensures
        last_dot(name, end) == -1,
    decreases end,
{
    if end > 0 {
        lemma_last_dot_none(name, end - 1);
    }
}

pub fn display_name(path: &str, item_type: DrawerItemType) -> (r: String)
    ensures
        r@ == display_name_of(path@, item_type),
{
    match file_name(path) {
        None => string_of(&chars_of(path)),
        Some(n) => match item_type {
            DrawerItemType::Executable | DrawerItemType::Shortcut => split_file_name(n.as_str()).0,
            _ => n,
        },
    }
}

} // verus!
