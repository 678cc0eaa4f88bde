//! Path keys and relative paths inside a drawer.
//!
//! Paths are compared through keys: forward slashes become backslashes,
//! trailing backslashes go and the text is lower-cased, so that two spellings
//! of one Windows location compare equal. Relative paths address a level
//! (a subdrawer) inside a drawer's root folder; they never leave it.
use vstd::prelude::*;

use crate::text::{
    chars_eq, chars_of, concat_chars, has_prefix, lowercase_chars, push_char, replace_char,
    replace_char_seq, slice_chars, spec_ascii_lower, string_of, strip_both, strip_end,
    strip_end_to, strip_start, strip_start_from, unicode_lowercase,
};
use vstd::utf8::{encode_scalar, encode_utf8};

verus! {

/// The comparison key of a resolved path.
pub open spec fn path_key(resolved: Seq<char>) -> Seq<char> {
    unicode_lowercase(strip_end(replace_char_seq(resolved, '/', '\\'), '\\', '\\'))
}

/// `path` names `parent` itself or something below it.
pub open spec fn within_keys(path: Seq<char>, parent: Seq<char>) -> bool {
    path == parent || (parent.is_prefix_of(path) && path.len() > parent.len() && path[parent.len()
        as int] == '\\')
}

/// The comparison key of `resolved`, the text of a path as the file system
/// resolved it (or as given when it could not be resolved).
pub fn comparable_path(resolved: &str) -> (r: String)
    ensures
        r@ == path_key(resolved@),
{
    let v = chars_of(resolved);
    let replaced = replace_char(&v, '/', '\\');
    let end = strip_end_to(&replaced, 0, replaced.len(), '\\', '\\');
    proof {
        assert(replaced@.subrange(0, replaced@.len() as int) =~= replaced@);
    }
    let stripped = slice_chars(&replaced, 0, end);
    let lowered = lowercase_chars(&stripped);
    string_of(&lowered)
}

/// Whether key `path` lies within key `parent`.
pub fn keys_within(path: &Vec<char>, parent: &Vec<char>) -> (r: bool)
    ensures
        r == within_keys(path@, parent@),
{
    if chars_eq(path, parent) {
        return true;
    }
    has_prefix(path, parent) && path.len() > parent.len() && path[parent.len()] == '\\'
}

/// Whether the resolved path `path` is `parent` or lies below it.
pub fn is_within(path: &str, parent: &str) -> (r: bool)
    ensures
        r == within_keys(path_key(path@), path_key(parent@)),
{
    let a = comparable_path(path);
    let b = comparable_path(parent);
    let va = chars_of(a.as_str());
    let vb = chars_of(b.as_str());
    keys_within(&va, &vb)
}

/// Every key lies within itself.
pub proof fn lemma_within_reflexive(k: Seq<char>)
    ensures
        within_keys(k, k),
{
}

/// Lying within is transitive: below something that lies below `c` is below `c`.
pub proof fn lemma_within_transitive(a: Seq<char>, b: Seq<char>, c: Seq<char>)
    requires
        within_keys(a, b),
        within_keys(b, c),
    ensures
        within_keys(a, c),
{
    if a != b && b != c {
        assert(c.is_prefix_of(a)) by {
            assert forall|i: int| 0 <= i < c.len() implies c[i] == a[i] by {
                assert(c[i] == b[i]);
                assert(b[i] == a[i]);
            }
        }
        assert(a[c.len() as int] == b[c.len() as int]);
    }
}

/// Two keys that lie within each other are the same key.
pub proof fn lemma_within_antisymmetric(a: Seq<char>, b: Seq<char>)
    requires
        within_keys(a, b),
        within_keys(b, a),
    ensures
        a == b,
{
}

// ---------------------------------------------------------------------------
// Relative paths of levels.

/// The key of a relative level path: separators unified, outer backslashes
/// removed, lower-cased.
pub open spec fn relative_key_of(relative: Seq<char>) -> Seq<char> {
    unicode_lowercase(strip_both(replace_char_seq(relative, '/', '\\'), '\\', '\\'))
}

/// The key under which a level's order and links are stored.
pub fn relative_key(relative_path: &str) -> (r: String)
    ensures
        r@ == relative_key_of(relative_path@),
{
    let v = chars_of(relative_path);
    let replaced = replace_char(&v, '/', '\\');
    let start = strip_start_from(&replaced, 0, replaced.len(), '\\', '\\');
    let end = strip_end_to(&replaced, start, replaced.len(), '\\', '\\');
    proof {
        assert(replaced@.subrange(0, replaced@.len() as int) =~= replaced@);
    }
    let stripped = slice_chars(&replaced, start, end);
    let lowered = lowercase_chars(&stripped);
    string_of(&lowered)
}

/// Whether two relative paths address the same level.
pub open spec fn relative_matches_spec(left: Seq<char>, right: Seq<char>) -> bool {
    relative_key_of(left) == relative_key_of(right)
}

pub fn relative_matches(left: &str, right: &str) -> (r: bool)
    ensures
        r == relative_matches_spec(left@, right@),
{
    let a = relative_key(left);
    let b = relative_key(right);
    let va = chars_of(a.as_str());
    let vb = chars_of(b.as_str());
    chars_eq(&va, &vb)
}

pub open spec fn is_separator(c: char) -> bool {
    c == '/' || c == '\\'
}

pub open spec fn flush_piece(cur: Seq<char>) -> Seq<Seq<char>> {
    if cur.len() == 0 {
        Seq::empty()
    } else {
        seq![cur]
    }
}

/// The non-empty pieces between separators, read left to right with `cur`
/// the piece being read.
pub open spec fn pieces_from(cur: Seq<char>, rest: Seq<char>) -> Seq<Seq<char>>
    decreases rest.len(),
{
    if rest.len() == 0 {
        flush_piece(cur)
    } else if is_separator(rest[0]) {
        flush_piece(cur) + pieces_from(Seq::empty(), rest.drop_first())
    } else {
        pieces_from(cur.push(rest[0]), rest.drop_first())
    }
}

/// The components of a Windows path, without the empty ones.
pub open spec fn path_pieces(s: Seq<char>) -> Seq<Seq<char>> {
    pieces_from(Seq::empty(), s)
}

/// A path that starts at a root (`\x`, `/x`) or a drive (`C:`).
pub open spec fn has_root_or_prefix(s: Seq<char>) -> bool {
    (s.len() > 0 && is_separator(s[0])) || (s.len() >= 2 && s[1] == ':' && ('a' <= spec_ascii_lower(
        s[0],
    ) <= 'z'))
}

pub open spec fn is_dot_dot(p: Seq<char>) -> bool {
    p == seq!['.', '.']
}

/// A relative level path stays inside its drawer: no root, no drive and no `..`.
pub open spec fn relative_path_valid(s: Seq<char>) -> bool {
    !has_root_or_prefix(s) && forall|i: int|
        0 <= i < path_pieces(s).len() ==> !is_dot_dot(#[trigger] path_pieces(s)[i])
}

/// The pieces without the `.` ones.
pub open spec fn drop_cur_dirs(parts: Seq<Seq<char>>) -> Seq<Seq<char>>
    decreases parts.len(),
{
    if parts.len() == 0 {
        parts
    } else if parts.last() == seq!['.'] {
        drop_cur_dirs(parts.drop_last())
    } else {
        drop_cur_dirs(parts.drop_last()).push(parts.last())
    }
}

/// Pieces joined by backslashes.
pub open spec fn join_backslash(parts: Seq<Seq<char>>) -> Seq<char>
    decreases parts.len(),
{
    if parts.len() == 0 {
        Seq::empty()
    } else if parts.len() == 1 {
        parts[0]
    } else {
        join_backslash(parts.drop_last()) + seq!['\\'] + parts.last()
    }
}

/// The canonical spelling of a valid relative level path.
pub open spec fn normalized_relative(s: Seq<char>) -> Seq<char> {
    join_backslash(drop_cur_dirs(path_pieces(s)))
}

/// A non-empty piece without separators.
pub open spec fn clean_piece(p: Seq<char>) -> bool {
    p.len() > 0 && forall|i: int| 0 <= i < p.len() ==> !is_separator(#[trigger] p[i])
}

proof fn lemma_pieces_clean(cur: Seq<char>, rest: Seq<char>)
    requires
        forall|i: int| 0 <= i < cur.len() ==> !is_separator(#[trigger] cur[i]),
    ensures
        forall|k: int|
            0 <= k < pieces_from(cur, rest).len() ==> clean_piece(#[trigger] pieces_from(cur, rest)[k]),
    decreases rest.len(),
{
    if rest.len() == 0 {
        if cur.len() > 0 {
            assert(pieces_from(cur, rest) == seq![cur]);
            assert(clean_piece(cur));
        }
    } else if is_separator(rest[0]) {
        lemma_pieces_clean(Seq::empty(), rest.drop_first());
        let f = flush_piece(cur);
        let t = pieces_from(Seq::<char>::empty(), rest.drop_first());
        assert(pieces_from(cur, rest) == f + t);
        assert forall|k: int| 0 <= k < (f + t).len() implies clean_piece(#[trigger] (f + t)[k]) by {
            if k >= f.len() {
                assert((f + t)[k] == t[k - f.len()]);
            } else {
                assert(f[k] == cur);
                assert(clean_piece(cur));
            }
        }
    } else {
        let c2 = cur.push(rest[0]);
        assert forall|i: int| 0 <= i < c2.len() implies !is_separator(#[trigger] c2[i]) by {
            if i < cur.len() {
                assert(c2[i] == cur[i]);
            }
        }
        lemma_pieces_clean(c2, rest.drop_first());
        lemma_pieces_step(cur, rest);
        assert(pieces_from(cur, rest) == pieces_from(c2, rest.drop_first()));
    }
}

proof fn lemma_drop_cur_dirs_clean(parts: Seq<Seq<char>>)
    requires
        forall|k: int| 0 <= k < parts.len() ==> clean_piece(#[trigger] parts[k]),
    ensures
        forall|k: int|
            0 <= k < drop_cur_dirs(parts).len() ==> clean_piece(#[trigger] drop_cur_dirs(parts)[k])
                && drop_cur_dirs(parts)[k] != seq!['.'],
    decreases parts.len(),
{
    if parts.len() > 0 {
        let p = parts.drop_last();
        assert forall|k: int| 0 <= k < p.len() implies clean_piece(#[trigger] p[k]) by {
            assert(p[k] == parts[k]);
        }
        lemma_drop_cur_dirs_clean(p);
        assert(clean_piece(parts[parts.len() - 1]));
        let d = drop_cur_dirs(parts);
        let dp = drop_cur_dirs(p);
        if parts.last() != seq!['.'] {
            assert(d == dp.push(parts.last()));
            assert forall|k: int| 0 <= k < d.len() implies clean_piece(#[trigger] d[k]) && d[k]
                != seq!['.'] by {
                if k < dp.len() {
                    assert(d[k] == dp[k]);
                } else {
                    assert(d[k] == parts[parts.len() - 1]);
                }
            }
        }
    }
}

proof fn lemma_join_canonical(parts: Seq<Seq<char>>)
    requires
        forall|k: int| 0 <= k < parts.len() ==> clean_piece(#[trigger] parts[k]),
    ensures
        ({
            let n = join_backslash(parts);
            &&& forall|i: int| 0 <= i < n.len() ==> #[trigger] n[i] != '/'
            &&& n.len() > 0 ==> n[0] != '\\' && n.last() != '\\'
            &&& forall|i: int| 0 <= i < n.len() - 1 && #[trigger] n[i] == '\\' ==> n[i + 1] != '\\'
            &&& parts.len() > 0 ==> n.len() > 0
        }),
    decreases parts.len(),
{
    if parts.len() == 1 {
        assert(clean_piece(parts[0]));
    } else if parts.len() > 1 {
        let p = parts.drop_last();
        assert forall|k: int| 0 <= k < p.len() implies clean_piece(#[trigger] p[k]) by {
            assert(p[k] == parts[k]);
        }
        lemma_join_canonical(p);
        let a = join_backslash(p);
        let l = parts.last();
        assert(clean_piece(parts[parts.len() - 1]));
        let n = a + seq!['\\'] + l;
        assert(n == join_backslash(parts));
        assert forall|i: int| 0 <= i < n.len() implies #[trigger] n[i] != '/' by {
            if i > a.len() {
                assert(n[i] == l[i - a.len() - 1]);
            } else if i < a.len() {
                assert(n[i] == a[i]);
            }
        }
        assert(n[0] == a[0]);
        assert(n.last() == l.last());
        assert(l.last() == l[l.len() - 1]);
        assert forall|i: int| 0 <= i < n.len() - 1 && #[trigger] n[i] == '\\' implies n[i + 1]
            != '\\' by {
            if i > a.len() {
                assert(n[i] == l[i - a.len() - 1]);
            } else if i == a.len() {
                assert(n[i + 1] == l[0]);
            } else if i == a.len() - 1 {
                assert(n[i] == a.last());
            } else {
                assert(n[i] == a[i] && n[i + 1] == a[i + 1]);
            }
        }
    }
}

/// The canonical spelling of a level path uses backslashes only, never two
/// in a row, none at either end, and holds no `.` component.
pub proof fn lemma_normalized_is_canonical(s: Seq<char>)
    ensures
        ({
            let n = normalized_relative(s);
            &&& forall|i: int| 0 <= i < n.len() ==> #[trigger] n[i] != '/'
            &&& n.len() > 0 ==> n[0] != '\\' && n.last() != '\\'
            &&& forall|i: int| 0 <= i < n.len() - 1 && #[trigger] n[i] == '\\' ==> n[i + 1] != '\\'
            &&& forall|k: int|
                0 <= k < drop_cur_dirs(path_pieces(s)).len() ==> #[trigger] drop_cur_dirs(
                    path_pieces(s),
                )[k] != seq!['.']
        }),
{
    lemma_pieces_clean(Seq::empty(), s);
    lemma_drop_cur_dirs_clean(path_pieces(s));
    lemma_join_canonical(drop_cur_dirs(path_pieces(s)));
}

pub open spec fn invalid_relative_message() -> Seq<char> {
    "La ruta relativa del subcajón no es válida"@
}

proof fn lemma_pieces_step(cur: Seq<char>, rest: Seq<char>)
    requires
        rest.len() > 0,
    ensures
        is_separator(rest[0]) ==> pieces_from(cur, rest) == flush_piece(cur) + pieces_from(
            Seq::empty(),
            rest.drop_first(),
        ),
        !is_separator(rest[0]) ==> pieces_from(cur, rest) == pieces_from(
            cur.push(rest[0]),
            rest.drop_first(),
        ),
{
}

/// Appends one finished piece to the canonical spelling built so far.
fn push_piece(out: &mut Vec<char>, count: &mut usize, piece: &Vec<char>, Ghost(done): Ghost<
    Seq<Seq<char>>,
>)
    requires
        old(out)@ == join_backslash(drop_cur_dirs(done)),
        *old(count) == drop_cur_dirs(done).len(),
        piece@.len() > 0,
        *old(count) < usize::MAX,
    ensures
        final(out)@ == join_backslash(drop_cur_dirs(done.push(piece@))),
        *final(count) == drop_cur_dirs(done.push(piece@)).len(),
        *final(count) <= *old(count) + 1,
{
    assert(done.push(piece@).drop_last() =~= done);
    if piece.len() == 1 && piece[0] == '.' {
        assert(piece@ =~= seq!['.']);
        return ;
    }
    assert(piece@ != seq!['.']) by {
        if piece@ == seq!['.'] {
            assert(piece@.len() == 1 && piece@[0] == '.');
        }
    }
    let ghost prev = drop_cur_dirs(done);
    assert(drop_cur_dirs(done.push(piece@)) == prev.push(piece@));
    assert(prev.push(piece@).drop_last() =~= prev);
    if *count > 0 {
        out.push('\\');
    }
    let mut i: usize = 0;
    let ghost base = out@;
    while i < piece.len()
        invariant
            i <= piece.len(),
            out@ == base + piece@.take(i as int),
        decreases piece.len() - i,
    {
        out.push(piece[i]);
        assert(base + piece@.take(i as int).push(piece@[i as int]) =~= base + piece@.take(i + 1));
        i = i + 1;
    }
    assert(piece@.take(piece.len() as int) =~= piece@);
    if *count == 0 {
        assert(prev.len() == 0);
        assert(prev.push(piece@).len() == 1);
        assert(out@ =~= piece@);
    }
    *count = *count + 1;
}

/// The canonical spelling of a relative level path, or why it is refused.
pub fn normalized_relative_string(relative_path: &str) -> (r: Result<String, String>)
    ensures
        r is Ok <==> relative_path_valid(relative_path@),
        r matches Ok(s) ==> s@ == normalized_relative(relative_path@),
        r matches Err(m) ==> m@ == invalid_relative_message(),
{
    let v = chars_of(relative_path);
    let n = v.len();
    if n > 0 && (v[0] == '/' || v[0] == '\\') {
        return Err("La ruta relativa del subcajón no es válida".to_owned());
    }
    if n >= 2 && v[1] == ':' && ('a' <= crate::text::ascii_lower(v[0]) && crate::text::ascii_lower(
        v[0],
    ) <= 'z') {
        return Err("La ruta relativa del subcajón no es válida".to_owned());
    }
    let mut out: Vec<char> = Vec::new();
    let mut count: usize = 0;
    let mut cur: Vec<char> = Vec::new();
    let ghost mut done: Seq<Seq<char>> = Seq::empty();
    let mut i: usize = 0;
    assert(v@.skip(0) =~= v@);
    while i < n
        invariant
            n == v.len(),
            i <= n,
            v@ == relative_path@,
            path_pieces(v@) == done + pieces_from(cur@, v@.skip(i as int)),
            out@ == join_backslash(drop_cur_dirs(done)),
            count == drop_cur_dirs(done).len(),
            count + cur@.len() <= i,
            forall|k: int| 0 <= k < done.len() ==> !is_dot_dot(#[trigger] done[k]),
        decreases n - i,
    {
        proof {
            lemma_pieces_step(cur@, v@.skip(i as int));
            assert(v@.skip(i as int).drop_first() =~= v@.skip(i + 1));
            assert(v@.skip(i as int)[0] == v@[i as int]);
        }
        let ghost old_done = done;
        let ghost old_cur = cur@;
        let c = v[i];
        if c == '/' || c == '\\' {
            if cur.len() > 0 {
                if cur.len() == 2 && cur[0] == '.' && cur[1] == '.' {
                    proof {
                        assert(cur@ =~= seq!['.', '.']);
                        assert(path_pieces(v@)[done.len() as int] == cur@);
                    }
                    return Err("La ruta relativa del subcajón no es válida".to_owned());
                }
                proof {
                    assert(!is_dot_dot(cur@)) by {
                        if is_dot_dot(cur@) {
                            assert(cur@.len() == 2 && cur@[0] == '.' && cur@[1] == '.');
                        }
                    }
                    lemma_drop_cur_dirs_len(done.push(cur@));
                }
                push_piece(&mut out, &mut count, &cur, Ghost(done));
                proof {
                    assert(done + flush_piece(cur@) =~= done.push(cur@));
                    done = done.push(cur@);
                }
                cur = Vec::new();
            } else {
                proof {
                    assert(done + flush_piece(cur@) =~= done);
                }
            }
        } else {
            cur.push(c);
        }
        proof {
            if is_separator(c) {
                assert(cur@ =~= Seq::<char>::empty());
                assert(old_done + (flush_piece(old_cur) + pieces_from(cur@, v@.skip(i + 1)))
                    =~= (old_done + flush_piece(old_cur)) + pieces_from(cur@, v@.skip(i + 1)));
                assert(done =~= old_done + flush_piece(old_cur));
            } else {
                assert(cur@ =~= old_cur.push(c));
                assert(done == old_done);
            }
        }
        i = i + 1;
    }
    proof {
        assert(v@.skip(n as int) =~= Seq::<char>::empty());
    }
    if cur.len() > 0 {
        if cur.len() == 2 && cur[0] == '.' && cur[1] == '.' {
            proof {
                assert(cur@ =~= seq!['.', '.']);
                assert(path_pieces(v@)[done.len() as int] == cur@);
            }
            return Err("La ruta relativa del subcajón no es válida".to_owned());
        }
        proof {
            assert(!is_dot_dot(cur@)) by {
                if is_dot_dot(cur@) {
                    assert(cur@.len() == 2 && cur@[0] == '.' && cur@[1] == '.');
                }
            }
            lemma_drop_cur_dirs_len(done.push(cur@));
        }
        push_piece(&mut out, &mut count, &cur, Ghost(done));
        proof {
            assert(done + flush_piece(cur@) =~= done.push(cur@));
            done = done.push(cur@);
        }
    } else {
        proof {
            assert(done + flush_piece(cur@) =~= done);
        }
    }
    proof {
        assert(path_pieces(v@) == done);
    }
    Ok(string_of(&out))
}

proof fn lemma_drop_cur_dirs_len(parts: Seq<Seq<char>>)
    ensures
        drop_cur_dirs(parts).len() <= parts.len(),
    decreases parts.len(),
{
    if parts.len() > 0 {
        lemma_drop_cur_dirs_len(parts.drop_last());
    }
}

/// The texts of a list of strings.
pub open spec fn texts(v: Seq<String>) -> Seq<Seq<char>> {
    v.map_values(|x: String| x@)
}

/// The components of a valid relative level path, without the `.` ones.
pub open spec fn level_parts_of(s: Seq<char>) -> Seq<Seq<char>> {
    drop_cur_dirs(path_pieces(s))
}

/// Adds one finished component to the list built so far, unless it is `.`.
fn push_part(parts: &mut Vec<String>, piece: &Vec<char>, Ghost(done): Ghost<Seq<Seq<char>>>)
    requires
        texts(old(parts)@) == drop_cur_dirs(done),
        piece@.len() > 0,
    ensures
        texts(final(parts)@) == drop_cur_dirs(done.push(piece@)),
{
    assert(done.push(piece@).drop_last() =~= done);
    if piece.len() == 1 && piece[0] == '.' {
        assert(piece@ =~= seq!['.']);
        return ;
    }
    assert(piece@ != seq!['.']) by {
        if piece@ == seq!['.'] {
            assert(piece@.len() == 1 && piece@[0] == '.');
        }
    }
    let ghost before = parts@;
    parts.push(string_of(piece));
    assert(texts(parts@) =~= texts(before).push(piece@));
}

/// The components of a relative level path, in order and without `.`, or
/// why it is refused.
pub fn level_parts(relative_path: &str) -> (r: Result<Vec<String>, String>)
    ensures
        r is Ok <==> relative_path_valid(relative_path@),
        r matches Ok(v) ==> texts(v@) == level_parts_of(relative_path@),
        r matches Err(m) ==> m@ == invalid_relative_message(),
{
    let v = chars_of(relative_path);
    let n = v.len();
    if n > 0 && (v[0] == '/' || v[0] == '\\') {
        return Err("La ruta relativa del subcajón no es válida".to_owned());
    }
    if n >= 2 && v[1] == ':' && ('a' <= crate::text::ascii_lower(v[0]) && crate::text::ascii_lower(
        v[0],
    ) <= 'z') {
        return Err("La ruta relativa del subcajón no es válida".to_owned());
    }
    let mut parts: Vec<String> = Vec::new();
    let mut cur: Vec<char> = Vec::new();
    let ghost mut done: Seq<Seq<char>> = Seq::empty();
    let mut i: usize = 0;
    assert(v@.skip(0) =~= v@);
    assert(texts(parts@) =~= Seq::<Seq<char>>::empty());
    while i < n
        invariant
            n == v.len(),
            i <= n,
            v@ == relative_path@,
            path_pieces(v@) == done + pieces_from(cur@, v@.skip(i as int)),
            texts(parts@) == drop_cur_dirs(done),
            forall|k: int| 0 <= k < done.len() ==> !is_dot_dot(#[trigger] done[k]),
        decreases n - i,
    {
        proof {
            lemma_pieces_step(cur@, v@.skip(i as int));
            assert(v@.skip(i as int).drop_first() =~= v@.skip(i + 1));
            assert(v@.skip(i as int)[0] == v@[i as int]);
        }
        let ghost old_done = done;
        let ghost old_cur = cur@;
        let c = v[i];
        if c == '/' || c == '\\' {
            if cur.len() > 0 {
                if cur.len() == 2 && cur[0] == '.' && cur[1] == '.' {
                    proof {
                        assert(cur@ =~= seq!['.', '.']);
                        assert(path_pieces(v@)[done.len() as int] == cur@);
                    }
                    return Err("La ruta relativa del subcajón no es válida".to_owned());
                }
                proof {
                    assert(!is_dot_dot(cur@)) by {
                        if is_dot_dot(cur@) {
                            assert(cur@.len() == 2 && cur@[0] == '.' && cur@[1] == '.');
                        }
                    }
                }
                push_part(&mut parts, &cur, Ghost(done));
                proof {
                    assert(done + flush_piece(cur@) =~= done.push(cur@));
                    done = done.push(cur@);
                }
                cur = Vec::new();
            } else {
                proof {
                    assert(done + flush_piece(cur@) =~= done);
                }
            }
        } else {
            cur.push(c);
        }
        proof {
            if is_separator(c) {
                assert(cur@ =~= Seq::<char>::empty());
                assert(old_done + (flush_piece(old_cur) + pieces_from(cur@, v@.skip(i + 1)))
                    =~= (old_done + flush_piece(old_cur)) + pieces_from(cur@, v@.skip(i + 1)));
                assert(done =~= old_done + flush_piece(old_cur));
            } else {
                assert(cur@ =~= old_cur.push(c));
                assert(done == old_done);
            }
        }
        i = i + 1;
    }
    proof {
        assert(v@.skip(n as int) =~= Seq::<char>::empty());
    }
    if cur.len() > 0 {
        if cur.len() == 2 && cur[0] == '.' && cur[1] == '.' {
            proof {
                assert(cur@ =~= seq!['.', '.']);
                assert(path_pieces(v@)[done.len() as int] == cur@);
            }
            return Err("La ruta relativa del subcajón no es válida".to_owned());
        }
        proof {
            assert(!is_dot_dot(cur@)) by {
                if is_dot_dot(cur@) {
                    assert(cur@.len() == 2 && cur@[0] == '.' && cur@[1] == '.');
                }
            }
        }
        push_part(&mut parts, &cur, Ghost(done));
        proof {
            assert(done + flush_piece(cur@) =~= done.push(cur@));
            done = done.push(cur@);
        }
    } else {
        proof {
            assert(done + flush_piece(cur@) =~= done);
        }
    }
    proof {
        assert(path_pieces(v@) == done);
    }
    Ok(parts)
}

} // verus!

verus! {

/// The level path of entry `name` inside level `parent`.
pub open spec fn joined_relative(parent: Seq<char>, name: Seq<char>) -> Seq<char> {
    if parent.len() == 0 {
        name
    } else {
        parent + seq!['\\'] + name
    }
}

/// `parent` pushed with `name`, then normalized. A rooted or drive-relative
/// `name` replaces the parent and is therefore refused.
pub fn join_relative(parent: &str, name: &str) -> (r: Result<String, String>)
    ensures
        r is Ok <==> !has_root_or_prefix(name@) && relative_path_valid(
            joined_relative(parent@, name@),
        ),
        r matches Ok(s) ==> s@ == normalized_relative(joined_relative(parent@, name@)),
        r matches Err(m) ==> m@ == invalid_relative_message(),
{
    let nv = chars_of(name);
    if nv.len() > 0 && (nv[0] == '/' || nv[0] == '\\') {
        return Err("La ruta relativa del subcajón no es válida".to_owned());
    }
    if nv.len() >= 2 && nv[1] == ':' && ('a' <= crate::text::ascii_lower(nv[0])
        && crate::text::ascii_lower(nv[0]) <= 'z') {
        return Err("La ruta relativa del subcajón no es válida".to_owned());
    }
    let pv = chars_of(parent);
    let joined = if pv.len() == 0 {
        nv
    } else {
        let mut with_sep = pv;
        with_sep.push('\\');
        let all = concat_chars(&with_sep, &nv);
        assert(all@ =~= parent@ + seq!['\\'] + name@);
        all
    };
    let text = string_of(&joined);
    normalized_relative_string(text.as_str())
}

/// `candidate` is the level `parent` or one of its sublevels.
pub open spec fn same_or_descendant(candidate: Seq<char>, parent: Seq<char>) -> bool {
    within_keys(relative_key_of(candidate), relative_key_of(parent))
}

pub fn is_same_or_descendant(candidate: &str, parent: &str) -> (r: bool)
    ensures
        r == same_or_descendant(candidate@, parent@),
{
    let a = relative_key(candidate);
    let b = relative_key(parent);
    let va = chars_of(a.as_str());
    let vb = chars_of(b.as_str());
    keys_within(&va, &vb)
}

/// Bytes of the UTF-8 encoding of one character.
pub open spec fn utf8_width(c: char) -> nat {
    encode_scalar(c as u32).len()
}

/// The characters that follow the first `n` bytes of the UTF-8 encoding of
/// `s`; empty when `n` is past the end or inside a character. This is
/// `s.get(n..).unwrap_or_default()`.
pub open spec fn skip_bytes(s: Seq<char>, n: nat) -> Seq<char>
    decreases s.len(),
{
    if n == 0 {
        s
    } else if s.len() == 0 {
        Seq::empty()
    } else if utf8_width(s[0]) > n {
        Seq::empty()
    } else {
        skip_bytes(s.drop_first(), (n - utf8_width(s[0])) as nat)
    }
}

pub fn char_utf8_width(c: char) -> (r: usize)
    ensures
        r == utf8_width(c),
{
    broadcast use vstd::utf8::char_is_scalar;

    let v = c as u32;
    if v <= 0x7F {
        1
    } else if v <= 0x7FF {
        2
    } else if v <= 0xFFFF {
        3
    } else {
        4
    }
}

/// `s.get(n..).unwrap_or_default()` on characters, `n` counted in bytes.
pub fn skip_utf8_bytes(v: &Vec<char>, n: usize) -> (r: Vec<char>)
    ensures
        r@ == skip_bytes(v@, n as nat),
{
    let mut i: usize = 0;
    let mut left: usize = n;
    assert(v@.skip(0) =~= v@);
    while left > 0 && i < v.len()
        invariant
            i <= v.len(),
            skip_bytes(v@, n as nat) == skip_bytes(v@.skip(i as int), left as nat),
        decreases v.len() - i,
    {
        let w = char_utf8_width(v[i]);
        assert(v@.skip(i as int)[0] == v@[i as int]);
        assert(v@.skip(i as int).drop_first() =~= v@.skip(i + 1));
        if w > left {
            return Vec::new();
        }
        left = left - w;
        i = i + 1;
    }
    if left > 0 {
        assert(v@.skip(i as int) =~= Seq::<char>::empty());
        return Vec::new();
    }
    slice_chars(v, i, v.len())
}

/// The level path that `candidate` gets when the level `old_prefix` is
/// renamed or moved to `new_prefix`. The old prefix is skipped by its length
/// in bytes (`str::len`), as the stored paths are sliced.
pub open spec fn replaced_prefix(
    candidate: Seq<char>,
    old_prefix: Seq<char>,
    new_prefix: Seq<char>,
) -> Seq<char> {
    let suffix = strip_start(
        skip_bytes(candidate, (encode_utf8(old_prefix).len() as usize) as nat),
        '\\',
        '\\',
    );
    if suffix.len() == 0 {
        new_prefix
    } else if new_prefix.len() == 0 {
        suffix
    } else {
        new_prefix + seq!['\\'] + suffix
    }
}

pub fn replace_prefix(candidate: &str, old_prefix: &str, new_prefix: &str) -> (r: String)
    ensures
        r@ == replaced_prefix(candidate@, old_prefix@, new_prefix@),
{
    let old_len = old_prefix.len();
    let cv = chars_of(candidate);
    let rest = skip_utf8_bytes(&cv, old_len);
    let start = strip_start_from(&rest, 0, rest.len(), '\\', '\\');
    proof {
        assert(rest@.subrange(0, rest@.len() as int) =~= rest@);
    }
    let suffix = slice_chars(&rest, start, rest.len());
    let nv = chars_of(new_prefix);
    if suffix.len() == 0 {
        string_of(&nv)
    } else if nv.len() == 0 {
        string_of(&suffix)
    } else {
        let mut with_sep = nv;
        with_sep.push('\\');
        let all = concat_chars(&with_sep, &suffix);
        string_of(&all)
    }
}

} // verus!
