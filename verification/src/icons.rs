//! Icon cache keys, the pixel fix-up of shell bitmaps, PNG encoding and the
//! `data:` URLs that carry cached icons to the windows.
use vstd::prelude::*;
use vstd::utf8::encode_utf8;

use base64::Engine;

use crate::items::{extension_is, has_extension, split_extension, split_file_name};
use crate::sorting::{keyed_views, stable_sort, stable_sorted, values_of, Keyed};
use crate::text::{
    chars_eq, chars_of, has_prefix, has_suffix, is_ascii_alphanumeric, push_char, push_str,
    replace_char, replace_char_seq, spec_is_ascii_alphanumeric, str_eq, string_of, to_lowercase,
    unicode_lowercase,
};

verus! {

/// The icon cache.
pub struct IconService;

pub const FNV_OFFSET: u64 = 0xcbf29ce484222325;

pub const FNV_PRIME: u64 = 0x100000001b3;

/// 64-bit FNV-1a over `bytes`.
pub open spec fn fnv1a(bytes: Seq<u8>) -> u64
    decreases bytes.len(),
{
    if bytes.len() == 0 {
        FNV_OFFSET
    } else {
        (fnv1a(bytes.drop_last()) ^ (bytes.last() as u64)).wrapping_mul(FNV_PRIME)
    }
}

/// The lower-case hexadecimal digit of a value below sixteen.
pub open spec fn hex_char(d: nat) -> char {
    if d < 10 {
        ((48 + d) as u32) as char
    } else {
        ((87 + d) as u32) as char
    }
}

/// The last `n` hexadecimal digits of `v`, zero-padded.
pub open spec fn hex_digits(v: nat, n: nat) -> Seq<char>
    decreases n,
{
    if n == 0 {
        Seq::empty()
    } else {
        hex_digits(v / 16, (n - 1) as nat).push(hex_char(v % 16))
    }
}

/// The path spelling that names an icon: `/` read as `\`, then lower-cased.
pub open spec fn icon_path_key(path: Seq<char>) -> Seq<char> {
    unicode_lowercase(replace_char_seq(path, '/', '\\'))
}

/// `v1-` and the FNV-1a hash of the UTF-8 bytes, as sixteen hex digits.
pub open spec fn icon_key_of(path: Seq<char>) -> Seq<char> {
    "v1-"@ + hex_digits(fnv1a(encode_utf8(icon_path_key(path))) as nat, 16)
}

fn push_hex(s: &mut String, v: u64, n: usize)
    ensures
        final(s)@ == old(s)@ + hex_digits(v as nat, n as nat),
    decreases n,
{
    if n > 0 {
        push_hex(s, v / 16, n - 1);
        let d = (v % 16) as u32;
        let c: char = if d < 10 {
            (48u8 + d as u8) as char
        } else {
            (87u8 + d as u8) as char
        };
        push_char(s, c);
        assert(old(s)@ + hex_digits(v as nat, n as nat) =~= (old(s)@ + hex_digits(
            (v / 16) as nat,
            (n - 1) as nat,
        )).push(hex_char((v % 16) as nat)));
    }
}

/// FNV-1a over a byte slice.
pub fn fnv1a_hash(bytes: &[u8]) -> (r: u64)
    ensures
        r == fnv1a(bytes@),
{
    let mut hash: u64 = FNV_OFFSET;
    let mut i: usize = 0;
    while i < bytes.len()
        invariant
            i <= bytes@.len(),
            hash == fnv1a(bytes@.take(i as int)),
        decreases bytes@.len() - i,
    {
        assert(bytes@.take(i + 1).drop_last() =~= bytes@.take(i as int));
        hash = (hash ^ (bytes[i] as u64)).wrapping_mul(FNV_PRIME);
        i = i + 1;
    }
    assert(bytes@.take(bytes@.len() as int) =~= bytes@);
    hash
}

impl IconService {
    /// The cache key of the icon of `path`: the same for every spelling
    /// that differs only in case or in the kind of slash.
    pub fn key_for(path: &str) -> (r: String)
        ensures
            r@ == icon_key_of(path@),
    {
        let replaced = string_of(&replace_char(&chars_of(path), '/', '\\'));
        let normalized = to_lowercase(replaced.as_str());
        let hash = fnv1a_hash(normalized.as_str().as_bytes());
        let mut key = String::new();
        push_str(&mut key, "v1-");
        proof {
            reveal_strlit("v1-");
        }
        push_hex(&mut key, hash, 16);
        key
    }
}

/// A cache key is non-empty and made of ASCII letters, digits and `-`.
pub open spec fn valid_cache_key(key: Seq<char>) -> bool {
    key.len() > 0 && forall|i: int|
        0 <= i < key.len() ==> spec_is_ascii_alphanumeric(#[trigger] key[i]) || key[i] == '-'
}

pub open spec fn invalid_key_message() -> Seq<char> {
    "La clave del icono no es válida"@
}

/// The file name under which the icon `icon_key` is cached.
pub fn cache_file_name(icon_key: &str) -> (r: Result<String, String>)
    ensures
        r is Ok <==> valid_cache_key(icon_key@),
        r matches Ok(name) ==> name@ == icon_key@ + ".png"@,
        r matches Err(m) ==> m@ == invalid_key_message(),
{
    let v = chars_of(icon_key);
    let mut ok = v.len() > 0;
    let mut i: usize = 0;
    while i < v.len()
        invariant
            i <= v.len(),
            v@ == icon_key@,
            ok == (v@.len() > 0 && forall|k: int|
                0 <= k < i ==> spec_is_ascii_alphanumeric(#[trigger] v@[k]) || v@[k] == '-'),
        decreases v.len() - i,
    {
        if !(is_ascii_alphanumeric(v[i]) || v[i] == '-') {
            ok = false;
        }
        i = i + 1;
    }
    if !ok {
        proof {
            reveal_strlit("La clave del icono no es válida");
        }
        return Err("La clave del icono no es válida".to_owned());
    }
    let mut name = string_of(&v);
    push_str(&mut name, ".png");
    Ok(name)
}

/// Images get a thumbnail of their own, cached under `<key>-preview`.
pub fn cache_key(icon_key: &str, preview: bool) -> (r: String)
    ensures
        r@ == (if preview {
            icon_key@ + "-preview"@
        } else {
            icon_key@
        }),
{
    let mut key = string_of(&chars_of(icon_key));
    if preview {
        push_str(&mut key, "-preview");
    }
    key
}

/// The extensions whose files are shown by a thumbnail of the image rather
/// than by the shell's icon, ASCII case ignored.
pub open spec fn is_image_path(path: Seq<char>) -> bool {
    ||| has_extension(path, "png"@)
    ||| has_extension(path, "jpg"@)
    ||| has_extension(path, "jpeg"@)
    ||| has_extension(path, "gif"@)
    ||| has_extension(path, "bmp"@)
    ||| has_extension(path, "webp"@)
    ||| has_extension(path, "tif"@)
    ||| has_extension(path, "tiff"@)
    ||| has_extension(path, "heic"@)
    ||| has_extension(path, "heif"@)
    ||| has_extension(path, "avif"@)
}

/// Whether the file at `path` is an image, by its extension.
pub fn is_image_file(path: &str) -> (r: bool)
    ensures
        r == is_image_path(path@),
{
    extension_is(path, "png") || extension_is(path, "jpg") || extension_is(path, "jpeg")
        || extension_is(path, "gif") || extension_is(path, "bmp") || extension_is(path, "webp")
        || extension_is(path, "tif") || extension_is(path, "tiff") || extension_is(path, "heic")
        || extension_is(path, "heif") || extension_is(path, "avif")
}

/// Cached icons older than this (ninety days, in nanoseconds) go when they
/// are not kept.
pub const MAX_ICON_CACHE_AGE_NANOS: u64 = 7_776_000_000_000_000;

/// The icon cache holds at most this many files that nothing keeps.
pub const MAX_ICON_CACHE_FILES: usize = 2048;

/// A file of the icon cache, by its name.
#[derive(Debug)]
pub enum CacheFile {
    /// A `.tmp` file left behind by an interrupted write.
    Temporary,
    /// A cached `.png` icon, with its cache key (the file's stem).
    Icon(String),
    /// Anything else, left alone.
    Other,
}

/// What the cache file named `name` is: by its extension, compared exactly.
pub open spec fn is_cache_file(r: CacheFile, name: Seq<char>) -> bool {
    match r {
        CacheFile::Temporary => split_extension(name).1 == Some("tmp"@),
        CacheFile::Icon(k) => split_extension(name).1 == Some("png"@) && k@ == split_extension(
            name,
        ).0,
        CacheFile::Other => split_extension(name).1 != Some("tmp"@) && split_extension(name).1
            != Some("png"@),
    }
}

/// Sorts a file of the icon cache by its name.
pub fn cache_file(name: &str) -> (r: CacheFile)
    ensures
        is_cache_file(r, name@),
{
    let (stem, ext) = split_file_name(name);
    match ext {
        Some(e) => {
            if str_eq(e.as_str(), "tmp") {
                proof {
                    reveal_strlit("tmp");
                }
                CacheFile::Temporary
            } else if str_eq(e.as_str(), "png") {
                proof {
                    reveal_strlit("png");
                }
                CacheFile::Icon(stem)
            } else {
                CacheFile::Other
            }
        },
        None => CacheFile::Other,
    }
}

/// A cached icon: its key and when its file was last written, in
/// nanoseconds since the Unix epoch.
#[derive(Clone, Debug)]
pub struct CachedIcon {
    pub key: String,
    pub modified: u64,
}

/// The cached icons by their time: oldest first, equal times kept in the
/// order they came.
pub open spec fn by_age(icons: Seq<CachedIcon>) -> Seq<CachedIcon> {
    values_of(stable_sorted(aged(icons), false))
}

impl CachedIcon {
    /// A field-by-field copy.
    pub fn duplicate(&self) -> (r: Self)
        ensures
            r == *self,
    {
        CachedIcon { key: self.key.clone(), modified: self.modified }
    }
}

/// The cached icons with their times as sort keys.
pub open spec fn aged(icons: Seq<CachedIcon>) -> Seq<(u64, Seq<char>, CachedIcon)> {
    icons.map_values(|c: CachedIcon| (c.modified, Seq::<char>::empty(), c))
}

/// The order in which the cache is pruned: oldest first.
pub fn eviction_order(icons: &Vec<CachedIcon>) -> (r: Vec<CachedIcon>)
    ensures
        r@ == by_age(icons@),
{
    let mut keyed: Vec<Keyed<CachedIcon>> = Vec::new();
    let mut i: usize = 0;
    while i < icons.len()
        invariant
            i <= icons.len(),
            keyed_views(keyed@) == aged(icons@).take(i as int),
        decreases icons.len() - i,
    {
        let k = Keyed { rank: icons[i].modified, name: Vec::new(), value: icons[i].duplicate() };
        let ghost before = keyed_views(keyed@);
        keyed.push(k);
        assert(keyed_views(keyed@) =~= aged(icons@).take(i + 1)) by {
            assert(k.name@ =~= Seq::<char>::empty());
            assert(keyed_views(keyed@) =~= before.push(k.key_view()));
        }
        i = i + 1;
    }
    assert(aged(icons@).take(icons.len() as int) =~= aged(icons@));
    let sorted = stable_sort(keyed, false);
    let mut result: Vec<CachedIcon> = Vec::new();
    let mut j: usize = 0;
    let ghost sv = keyed_views(sorted@);
    while j < sorted.len()
        invariant
            j <= sorted.len(),
            sv == keyed_views(sorted@),
            result@ == values_of(sv).take(j as int),
        decreases sorted.len() - j,
    {
        result.push(sorted[j].value.duplicate());
        assert(result@ =~= values_of(sv).take(j + 1));
        j = j + 1;
    }
    assert(values_of(sv).take(sorted.len() as int) =~= values_of(sv));
    result
}

/// Pruning visits every cached icon exactly once, oldest first.
pub proof fn lemma_eviction_oldest_first(icons: Seq<CachedIcon>)
    ensures
        by_age(icons).to_multiset() == icons.to_multiset(),
        forall|i: int, j: int|
            0 <= i < j < by_age(icons).len() ==> (#[trigger] by_age(icons)[i]).modified <= (
            #[trigger] by_age(icons)[j]).modified,
{
    let keyed = aged(icons);
    let sorted = stable_sorted(keyed, false);
    let out = by_age(icons);
    crate::sorting::lemma_stable_sorted_values_permute(keyed, false);
    crate::sorting::lemma_stable_sorted_permutes(keyed, false);
    crate::sorting::lemma_stable_sorted_len(keyed, false);
    crate::sorting::lemma_stable_sorted_in_order(keyed, false);
    assert(values_of(keyed) =~= icons);
    assert forall|k: int| 0 <= k < sorted.len() implies (#[trigger] sorted[k]).0
        == sorted[k].2.modified by {
        vstd::seq_lib::to_multiset_contains(sorted, sorted[k]);
        vstd::seq_lib::to_multiset_contains(keyed, sorted[k]);
        assert(sorted.contains(sorted[k]));
        let w = choose|w: int| 0 <= w < keyed.len() && keyed[w] == sorted[k];
    }
    assert forall|i: int, j: int| 0 <= i < j < out.len() implies (#[trigger] out[i]).modified <= (
    #[trigger] out[j]).modified by {
        assert(!crate::sorting::key_before(sorted[j], sorted[i], false));
        assert(sorted[i].0 == sorted[i].2.modified);
        assert(sorted[j].0 == sorted[j].2.modified);
    }
}

/// Whether an icon with cache key `key` is still in use: its key, or for a
/// preview the key it was made for, is among `retained`.
pub open spec fn key_retained(key: Seq<char>, retained: Seq<String>) -> bool {
    (exists|i: int| 0 <= i < retained.len() && retained[i]@ == key) || (exists|i: int|
        0 <= i < retained.len() && key == retained[i]@ + "-preview"@)
}

/// Whether the icon with cache key `key` is still in use.
pub fn is_retained(key: &str, retained: &Vec<String>) -> (r: bool)
    ensures
        r == key_retained(key@, retained@),
{
    proof {
        reveal_strlit("-preview");
    }
    let kv = chars_of(key);
    let suffix = chars_of("-preview");
    let mut i: usize = 0;
    while i < retained.len()
        invariant
            i <= retained.len(),
            kv@ == key@,
            suffix@ == "-preview"@,
            suffix@.len() == 8,
            forall|j: int| 0 <= j < i ==> retained@[j]@ != key@ && key@ != retained@[j]@ + "-preview"@,
        decreases retained.len() - i,
    {
        let rv = chars_of(retained[i].as_str());
        if chars_eq(&rv, &kv) {
            return true;
        }
        if kv.len() >= 8 && kv.len() - 8 == rv.len() && has_prefix(&kv, &rv) && has_suffix(
            &kv,
            &suffix,
        ) {
            assert(key@ =~= retained@[i as int]@ + "-preview"@) by {
                assert(rv@ =~= kv@.subrange(0, rv@.len() as int));
                assert(suffix@ =~= kv@.subrange(rv@.len() as int, kv@.len() as int));
            }
            return true;
        }
        assert(key@ != retained@[i as int]@ + "-preview"@) by {
            let joined = retained@[i as int]@ + "-preview"@;
            if key@ == joined {
                assert(kv@.len() == rv@.len() + 8);
                assert(kv@.subrange(0, rv@.len() as int) =~= rv@);
                assert(kv@.subrange(rv@.len() as int, kv@.len() as int) =~= suffix@);
            }
        }
        i = i + 1;
    }
    false
}

/// Whether pruning removes a cached icon: one that is not in use goes when
/// more than `max_files` files remain or when it is older than the cache's
/// age limit. `age` is how long ago it was written, in nanoseconds; `None`
/// when its time lies in the future.
pub fn evicts(retained: bool, remaining: usize, max_files: usize, age: Option<u64>) -> (r: bool)
    ensures
        r == (!retained && (remaining > max_files || (age matches Some(a)
            && a > MAX_ICON_CACHE_AGE_NANOS))),
{
    if retained {
        return false;
    }
    let expired = match age {
        Some(a) => a > MAX_ICON_CACHE_AGE_NANOS,
        None => false,
    };
    remaining > max_files || expired
}

/// The value of a premultiplied channel once the alpha is taken out,
/// capped at 255.
pub open spec fn unpremultiplied(c: u8, alpha: u8) -> u8 {
    let v = (c as int) * 255 / (alpha as int);
    if v > 255 {
        255
    } else {
        v as u8
    }
}

/// Whether any whole pixel of a BGRA buffer has a non-zero alpha.
pub open spec fn any_alpha(p: Seq<u8>) -> bool {
    exists|g: int| 0 <= g < p.len() / 4 && #[trigger] p[4 * g + 3] != 0
}

/// Byte `i` of a BGRA buffer once turned into straight RGBA: blue and red
/// swap places; without any alpha the pixel becomes opaque; partly
/// transparent pixels are unpremultiplied. Trailing bytes of an incomplete
/// pixel stay as they were.
pub open spec fn rgba_byte(p: Seq<u8>, i: int, has_alpha: bool) -> u8 {
    let g = i / 4;
    let k = i % 4;
    if g >= p.len() / 4 {
        p[i]
    } else {
        let a = p[4 * g + 3];
        let raw = if k == 0 {
            p[4 * g + 2]
        } else if k == 2 {
            p[4 * g]
        } else {
            p[i]
        };
        if !has_alpha {
            if k == 3 {
                255
            } else {
                raw
            }
        } else if k < 3 && 0 < a < 255 {
            unpremultiplied(raw, a)
        } else {
            raw
        }
    }
}

fn unpremultiply(c: u8, alpha: u8) -> (r: u8)
    requires
        0 < alpha,
    ensures
        r == unpremultiplied(c, alpha),
{
    let v: u16 = (c as u16) * 255 / (alpha as u16);
    if v > 255 {
        255
    } else {
        v as u8
    }
}

fn has_any_alpha(p: &Vec<u8>) -> (r: bool)
    ensures
        r == any_alpha(p@),
{
    let len = p.len();
    let n = len / 4;
    let mut g: usize = 0;
    while g < n
        invariant
            g <= n,
            len == p@.len(),
            n == p@.len() / 4,
            forall|h: int| 0 <= h < g ==> #[trigger] p@[4 * h + 3] == 0,
        decreases n - g,
    {
        assert(4 * g + 3 < p@.len()) by (nonlinear_arith)
            requires
                g < n,
                n == p@.len() / 4,
        ;
        if p[4 * g + 3] != 0 {
            return true;
        }
        g = g + 1;
    }
    false
}

/// Turns the BGRA pixels a shell bitmap delivers into straight RGBA.
pub fn bgra_to_rgba(pixels: &mut Vec<u8>)
    ensures
        final(pixels)@.len() == old(pixels)@.len(),
        forall|i: int|
            0 <= i < old(pixels)@.len() ==> #[trigger] final(pixels)@[i] == rgba_byte(
                old(pixels)@,
                i,
                any_alpha(old(pixels)@),
            ),
{
    let has_alpha = has_any_alpha(pixels);
    let ghost orig = pixels@;
    let len = pixels.len();
    let n = len / 4;
    let mut g: usize = 0;
    while g < n
        invariant
            g <= n,
            len == orig.len(),
            n == orig.len() / 4,
            pixels@.len() == orig.len(),
            has_alpha == any_alpha(orig),
            forall|i: int| 0 <= i < 4 * g ==> #[trigger] pixels@[i] == rgba_byte(orig, i, has_alpha),
            forall|i: int| 4 * g <= i < orig.len() ==> #[trigger] pixels@[i] == orig[i],
        decreases n - g,
    {
        assert(4 * g + 3 < orig.len()) by (nonlinear_arith)
            requires
                g < n,
                n == orig.len() / 4,
        ;
        let base = 4 * g;
        let b = pixels[base];
        let gr = pixels[base + 1];
        let r = pixels[base + 2];
        let a = pixels[base + 3];
        let (c0, c1, c2, c3) = if !has_alpha {
            (r, gr, b, 255u8)
        } else if a > 0 && a < 255 {
            (unpremultiply(r, a), unpremultiply(gr, a), unpremultiply(b, a), a)
        } else {
            (r, gr, b, a)
        };
        pixels.set(base, c0);
        pixels.set(base + 1, c1);
        pixels.set(base + 2, c2);
        pixels.set(base + 3, c3);
        assert forall|i: int| 0 <= i < 4 * (g + 1) implies #[trigger] pixels@[i] == rgba_byte(
            orig,
            i,
            has_alpha,
        ) by {
            if i >= 4 * g {
                assert(i / 4 == g as int);
                assert(i % 4 == i - 4 * g);
            }
        }
        g = g + 1;
    }
    assert forall|i: int| 0 <= i < orig.len() implies #[trigger] pixels@[i] == rgba_byte(
        orig,
        i,
        has_alpha,
    ) by {
        if i >= 4 * n {
            assert(i / 4 >= n);
        }
    }
}

/// Each whole pixel of a BGRA buffer, turned into RGBA: red and blue trade
/// places and green stays. Without any alpha in the image every pixel
/// becomes opaque; otherwise the alpha stays, and a partly transparent
/// pixel's colors are divided by its alpha (`c * 255 / a`, at most 255).
pub proof fn lemma_pixel_becomes_rgba(p: Seq<u8>, g: int)
    requires
        0 <= g < p.len() / 4,
    ensures
        ({
            let alpha_seen = any_alpha(p);
            let a = p[4 * g + 3];
            let out = |i: int| rgba_byte(p, i, alpha_seen);
            &&& (!alpha_seen || a == 0 || a == 255) ==> out(4 * g) == p[4 * g + 2] && out(4 * g + 1)
                == p[4 * g + 1] && out(4 * g + 2) == p[4 * g]
            &&& !alpha_seen ==> out(4 * g + 3) == 255
            &&& alpha_seen ==> out(4 * g + 3) == a
            &&& alpha_seen && 0 < a < 255 ==> {
                &&& out(4 * g) as int == vstd::math::min(p[4 * g + 2] * 255 / (a as int), 255)
                &&& out(4 * g + 1) as int == vstd::math::min(p[4 * g + 1] * 255 / (a as int), 255)
                &&& out(4 * g + 2) as int == vstd::math::min(p[4 * g] * 255 / (a as int), 255)
            }
        }),
{
    assert((4 * g) / 4 == g && (4 * g) % 4 == 0) by (nonlinear_arith)
        requires
            0 <= g,
    ;
    assert((4 * g + 1) / 4 == g && (4 * g + 1) % 4 == 1) by (nonlinear_arith)
        requires
            0 <= g,
    ;
    assert((4 * g + 2) / 4 == g && (4 * g + 2) % 4 == 2) by (nonlinear_arith)
        requires
            0 <= g,
    ;
    assert((4 * g + 3) / 4 == g && (4 * g + 3) % 4 == 3) by (nonlinear_arith)
        requires
            0 <= g,
    ;
}

/// The standard base64 alphabet.
pub open spec fn b64_char(v: nat) -> char {
    if v < 26 {
        ((65 + v) as u32) as char
    } else if v < 52 {
        ((97 + v - 26) as u32) as char
    } else if v < 62 {
        ((48 + v - 52) as u32) as char
    } else if v == 62 {
        '+'
    } else {
        '/'
    }
}

/// Standard base64 with `=` padding: every three bytes become four
/// characters of six bits each; a last group of one or two bytes is padded.
pub open spec fn base64_of(b: Seq<u8>) -> Seq<char>
    decreases b.len(),
{
    if b.len() == 0 {
        Seq::empty()
    } else if b.len() == 1 {
        seq![b64_char((b[0] / 4) as nat), b64_char(((b[0] % 4) * 16) as nat), '=', '=']
    } else if b.len() == 2 {
        seq![
            b64_char((b[0] / 4) as nat),
            b64_char(((b[0] % 4) * 16 + b[1] / 16) as nat),
            b64_char(((b[1] % 16) * 4) as nat),
            '=',
        ]
    } else {
        seq![
            b64_char((b[0] / 4) as nat),
            b64_char(((b[0] % 4) * 16 + b[1] / 16) as nat),
            b64_char(((b[1] % 16) * 4 + b[2] / 64) as nat),
            b64_char((b[2] % 64) as nat),
        ] + base64_of(b.skip(3))
    }
}

/// `base64::engine::general_purpose::STANDARD.encode`: standard alphabet,
/// padded. It panics when the encoded length overflows `usize`, which the
/// `requires` rules out.
#[verifier::external_body]
fn encode_base64(bytes: &[u8]) -> (r: String)
    requires
        bytes@.len() / 3 * 4 + 4 <= usize::MAX,
    ensures
        r@ == base64_of(bytes@),
{
    base64::engine::general_purpose::STANDARD.encode(bytes)
}

/// The `data:` URL that hands a cached PNG to a window.
pub fn png_data_url(bytes: &[u8]) -> (r: String)
    requires
        bytes@.len() / 3 * 4 + 4 <= usize::MAX,
    ensures
        r@ == "data:image/png;base64,"@ + base64_of(bytes@),
{
    let mut url = String::new();
    push_str(&mut url, "data:image/png;base64,");
    let encoded = encode_base64(bytes);
    push_str(&mut url, encoded.as_str());
    url
}

/// The PNG file that `png`'s encoder writes for an 8-bit RGBA image of the
/// given size, or `None` where the encoder refuses it.
pub uninterp spec fn png_rgba8(width: u32, height: u32, pixels: Seq<u8>) -> Option<Seq<u8>>;

/// `png::Encoder` with `ColorType::Rgba` and `BitDepth::Eight`, writing
/// into memory: header, image data and end chunk. Errors of the encoder
/// become `None`; which inputs it refuses is left to `png_rgba8`.
#[verifier::external_body]
fn encode_png(width: u32, height: u32, pixels: &[u8]) -> (r: Option<Vec<u8>>)
    requires
        pixels@.len() == width as int * height as int * 4,
    ensures
        r is Some == png_rgba8(width, height, pixels@) is Some,
        r matches Some(b) ==> png_rgba8(width, height, pixels@) == Some(b@),
{
    let mut out: Vec<u8> = Vec::new();
    let mut encoder = png::Encoder::new(&mut out, width, height);
    encoder.set_color(png::ColorType::Rgba);
    encoder.set_depth(png::BitDepth::Eight);
    let mut writer = encoder.write_header().ok()?;
    writer.write_image_data(pixels).ok()?;
    writer.finish().ok()?;
    Some(out)
}

pub open spec fn png_message() -> Seq<char> {
    "No se pudo escribir el PNG"@
}

/// The PNG for a shell bitmap of `width` × `height` BGRA pixels.
pub fn icon_png(width: u32, height: u32, bgra: Vec<u8>) -> (r: Result<Vec<u8>, String>)
    requires
        bgra@.len() == width as int * height as int * 4,
    ensures
        ({
            let rgba = Seq::new(
                bgra@.len(),
                |i: int| rgba_byte(bgra@, i, any_alpha(bgra@)),
            );
            &&& r is Ok == png_rgba8(width, height, rgba) is Some
            &&& r matches Ok(b) ==> png_rgba8(width, height, rgba) == Some(b@)
            &&& r matches Err(m) ==> m@ == png_message()
        }),
{
    let mut pixels = bgra;
    bgra_to_rgba(&mut pixels);
    let ghost rgba = Seq::new(bgra@.len(), |i: int| rgba_byte(bgra@, i, any_alpha(bgra@)));
    assert(pixels@ =~= rgba);
    match encode_png(width, height, pixels.as_slice()) {
        Some(b) => Ok(b),
        None => {
            proof {
                reveal_strlit("No se pudo escribir el PNG");
            }
            Err("No se pudo escribir el PNG".to_owned())
        },
    }
}

} // verus!
