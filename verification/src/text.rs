//! Character-level building blocks shared by every naming and path rule of
//! the organizer: Unicode white space and control characters, ASCII case
//! folding, trimming, and conversions between `str`/`String` and `Vec<char>`.
use vstd::prelude::*;

verus! {

/// Unicode `White_Space`, the set that `str::trim` removes.
pub open spec fn spec_is_whitespace(c: char) -> bool {
    let v = c as u32;
    (0x09 <= v <= 0x0D) || v == 0x20 || v == 0x85 || v == 0xA0 || v == 0x1680 || (0x2000 <= v
        <= 0x200A) || v == 0x2028 || v == 0x2029 || v == 0x202F || v == 0x205F || v == 0x3000
}

pub fn is_whitespace(c: char) -> (r: bool)
    ensures
        r == spec_is_whitespace(c),
{
    let v = c as u32;
    (0x09 <= v && v <= 0x0D) || v == 0x20 || v == 0x85 || v == 0xA0 || v == 0x1680 || (0x2000
        <= v && v <= 0x200A) || v == 0x2028 || v == 0x2029 || v == 0x202F || v == 0x205F || v
        == 0x3000
}

/// Unicode general category `Cc`, what `char::is_control` accepts.
pub open spec fn spec_is_control(c: char) -> bool {
    let v = c as u32;
    v <= 0x1F || (0x7F <= v <= 0x9F)
}

pub fn is_control(c: char) -> (r: bool)
    ensures
        r == spec_is_control(c),
{
    let v = c as u32;
    v <= 0x1F || (0x7F <= v && v <= 0x9F)
}

pub open spec fn spec_is_ascii_hexdigit(c: char) -> bool {
    ('0' <= c <= '9') || ('a' <= c <= 'f') || ('A' <= c <= 'F')
}

pub fn is_ascii_hexdigit(c: char) -> (r: bool)
    ensures
        r == spec_is_ascii_hexdigit(c),
{
    ('0' <= c && c <= '9') || ('a' <= c && c <= 'f') || ('A' <= c && c <= 'F')
}

pub open spec fn spec_is_ascii_alphanumeric(c: char) -> bool {
    ('0' <= c <= '9') || ('a' <= c <= 'z') || ('A' <= c <= 'Z')
}

pub fn is_ascii_alphanumeric(c: char) -> (r: bool)
    ensures
        r == spec_is_ascii_alphanumeric(c),
{
    ('0' <= c && c <= '9') || ('a' <= c && c <= 'z') || ('A' <= c && c <= 'Z')
}

/// ASCII lower-casing of one character; every other character is unchanged.
pub open spec fn spec_ascii_lower(c: char) -> char {
    if 'A' <= c <= 'Z' {
        ((c as u32) + 32) as char
    } else {
        c
    }
}

/// ASCII upper-casing of one character; every other character is unchanged.
pub open spec fn spec_ascii_upper(c: char) -> char {
    if 'a' <= c <= 'z' {
        ((c as u32) - 32) as char
    } else {
        c
    }
}

pub fn ascii_lower(c: char) -> (r: char)
    ensures
        r == spec_ascii_lower(c),
{
    if 'A' <= c && c <= 'Z' {
        ((c as u8) + 32) as char
    } else {
        c
    }
}

pub fn ascii_upper(c: char) -> (r: char)
    ensures
        r == spec_ascii_upper(c),
{
    if 'a' <= c && c <= 'z' {
        ((c as u8) - 32) as char
    } else {
        c
    }
}

pub open spec fn ascii_lower_seq(s: Seq<char>) -> Seq<char> {
    s.map_values(|c: char| spec_ascii_lower(c))
}

pub open spec fn ascii_upper_seq(s: Seq<char>) -> Seq<char> {
    s.map_values(|c: char| spec_ascii_upper(c))
}

/// `a.eq_ignore_ascii_case(b)` over characters.
pub open spec fn eq_ignore_ascii_case(a: Seq<char>, b: Seq<char>) -> bool {
    ascii_lower_seq(a) == ascii_lower_seq(b)
}

/// The characters of a string slice, in order.
pub fn chars_of(s: &str) -> (r: Vec<char>)
    ensures
        r@ == s@,
{
    let mut r: Vec<char> = Vec::new();
    for c in it: s.chars()
        invariant
            r@ == it.seq().take(it.index() as int),
            it.seq() == s@,
    {
        r.push(c);
    }
    r
}

/// `String::push`: appends one character at the end.
#[verifier::external_body]
pub(crate) fn push_char(s: &mut String, c: char)
    ensures
        final(s)@ == old(s)@.push(c),
{
    s.push(c);
}

/// A `String` holding exactly the given characters.
pub fn string_of(v: &Vec<char>) -> (r: String)
    ensures
        r@ == v@,
{
    let mut r = String::new();
    let mut i: usize = 0;
    while i < v.len()
        invariant
            i <= v.len(),
            r@ == v@.take(i as int),
        decreases v.len() - i,
    {
        push_char(&mut r, v[i]);
        assert(v@.take(i as int).push(v@[i as int]) =~= v@.take(i + 1));
        i = i + 1;
    }
    assert(v@.take(v.len() as int) =~= v@);
    r
}

/// Appends a string slice to a `String`.
pub fn push_str(s: &mut String, t: &str)
    ensures
        final(s)@ == old(s)@ + t@,
{
    let v = chars_of(t);
    let mut i: usize = 0;
    while i < v.len()
        invariant
            i <= v.len(),
            v@ == t@,
            s@ == old(s)@ + v@.take(i as int),
        decreases v.len() - i,
    {
        push_char(s, v[i]);
        assert(old(s)@ + v@.take(i as int).push(v@[i as int]) =~= old(s)@ + v@.take(i + 1));
        i = i + 1;
    }
    assert(v@.take(v.len() as int) =~= v@);
}

/// Full Unicode lower-casing as `str::to_lowercase` computes it.
pub uninterp spec fn unicode_lowercase(s: Seq<char>) -> Seq<char>;

/// `str::to_lowercase`: the Unicode lower-case mapping of the whole string.
/// The mapping itself (Unicode's case tables) is named, not restated.
#[verifier::external_body]
pub(crate) fn to_lowercase(s: &str) -> (r: String)
    ensures
        r@ == unicode_lowercase(s@),
{
    s.to_lowercase()
}

pub open spec fn trim_start_seq(s: Seq<char>) -> Seq<char>
    decreases s.len(),
{
    if s.len() > 0 && spec_is_whitespace(s[0]) {
        trim_start_seq(s.drop_first())
    } else {
        s
    }
}

pub open spec fn trim_end_seq(s: Seq<char>) -> Seq<char>
    decreases s.len(),
{
    if s.len() > 0 && spec_is_whitespace(s.last()) {
        trim_end_seq(s.drop_last())
    } else {
        s
    }
}

/// `str::trim`: white space removed from both ends.
pub open spec fn trim_seq(s: Seq<char>) -> Seq<char> {
    trim_end_seq(trim_start_seq(s))
}

/// Index range `[start, end)` of `v` that `trim` keeps.
pub fn trim_bounds(v: &Vec<char>) -> (r: (usize, usize))
    ensures
        r.0 <= r.1 <= v.len(),
        v@.subrange(r.0 as int, r.1 as int) == trim_seq(v@),
{
    let n = v.len();
    let mut i: usize = 0;
    assert(v@.subrange(0, n as int) =~= v@);
    while i < n && is_whitespace(v[i])
        invariant
            i <= n == v.len(),
            trim_start_seq(v@) == trim_start_seq(v@.subrange(i as int, n as int)),
        decreases n - i,
    {
        assert(v@.subrange(i as int, n as int).drop_first() =~= v@.subrange(i + 1, n as int));
        i = i + 1;
    }
    assert(trim_start_seq(v@) == v@.subrange(i as int, n as int)) by {
        if i < n {
            assert(v@.subrange(i as int, n as int)[0] == v@[i as int]);
        }
    }
    let mut j: usize = n;
    while j > i && is_whitespace(v[j - 1])
        invariant
            i <= j <= n == v.len(),
            trim_end_seq(v@.subrange(i as int, n as int)) == trim_end_seq(
                v@.subrange(i as int, j as int),
            ),
        decreases j,
    {
        assert(v@.subrange(i as int, j as int).drop_last() =~= v@.subrange(i as int, j - 1));
        j = j - 1;
    }
    assert(trim_end_seq(v@.subrange(i as int, j as int)) == v@.subrange(i as int, j as int)) by {
        if j > i {
            assert(v@.subrange(i as int, j as int).last() == v@[j - 1]);
        }
    }
    (i, j)
}

/// The characters of `s` with surrounding white space removed.
pub fn trimmed_chars(s: &str) -> (r: Vec<char>)
    ensures
        r@ == trim_seq(s@),
{
    let v = chars_of(s);
    let (a, b) = trim_bounds(&v);
    let mut r: Vec<char> = Vec::new();
    let mut i = a;
    while i < b
        invariant
            a <= i <= b <= v.len(),
            r@ == v@.subrange(a as int, i as int),
        decreases b - i,
    {
        r.push(v[i]);
        assert(v@.subrange(a as int, i as int).push(v@[i as int]) =~= v@.subrange(
            a as int,
            i + 1,
        ));
        i = i + 1;
    }
    r
}

/// `str::trim` returning an owned `String`.
pub fn trim(s: &str) -> (r: String)
    ensures
        r@ == trim_seq(s@),
{
    let v = trimmed_chars(s);
    string_of(&v)
}

/// Whether the characters of `a` and `b` are the same.
pub fn chars_eq(a: &Vec<char>, b: &Vec<char>) -> (r: bool)
    ensures
        r == (a@ == b@),
{
    if a.len() != b.len() {
        return false;
    }
    let mut i: usize = 0;
    while i < a.len()
        invariant
            i <= a.len() == b.len(),
            forall|k: int| 0 <= k < i ==> a@[k] == b@[k],
        decreases a.len() - i,
    {
        if a[i] != b[i] {
            return false;
        }
        i = i + 1;
    }
    assert(a@ =~= b@);
    true
}

/// Whether two strings hold the same characters.
pub fn str_eq(a: &str, b: &str) -> (r: bool)
    ensures
        r == (a@ == b@),
{
    let va = chars_of(a);
    let vb = chars_of(b);
    chars_eq(&va, &vb)
}

} // verus!

verus! {

/// Characters of `s` before its first `c`, or all of `s` when `c` does not
/// occur: what `s.split(c).next()` yields.
pub open spec fn before_first(s: Seq<char>, c: char) -> Seq<char>
    decreases s.len(),
{
    if s.len() == 0 {
        s
    } else if s[0] == c {
        Seq::empty()
    } else {
        seq![s[0]] + before_first(s.drop_first(), c)
    }
}

pub proof fn lemma_before_first(s: Seq<char>, c: char, i: int)
    requires
        0 <= i <= s.len(),
        forall|k: int| 0 <= k < i ==> s[k] != c,
        i == s.len() || s[i] == c,
    ensures
        before_first(s, c) == s.take(i),
    decreases s.len(),
{
    if s.len() == 0 {
        assert(s.take(i) =~= s);
    } else if s[0] == c {
        assert(s.take(i) =~= Seq::<char>::empty());
    } else {
        lemma_before_first(s.drop_first(), c, i - 1);
        assert(seq![s[0]] + s.drop_first().take(i - 1) =~= s.take(i));
    }
}

/// Position of the first `c` in `v`, or `v.len()` when there is none.
pub fn find_char(v: &Vec<char>, c: char) -> (r: usize)
    ensures
        r <= v.len(),
        forall|k: int| 0 <= k < r ==> v@[k] != c,
        r == v.len() || v@[r as int] == c,
        before_first(v@, c) == v@.take(r as int),
{
    let mut i: usize = 0;
    while i < v.len() && v[i] != c
        invariant
            i <= v.len(),
            forall|k: int| 0 <= k < i ==> v@[k] != c,
        decreases v.len() - i,
    {
        i = i + 1;
    }
    proof {
        lemma_before_first(v@, c, i as int);
    }
    i
}

/// The first `n` characters of `v` (all of them when there are fewer).
pub fn take_chars(v: &Vec<char>, n: usize) -> (r: Vec<char>)
    ensures
        r@ == (if n <= v.len() { v@.take(n as int) } else { v@ }),
{
    let end = if n <= v.len() { n } else { v.len() };
    let mut r: Vec<char> = Vec::new();
    let mut i: usize = 0;
    while i < end
        invariant
            end <= v.len(),
            i <= end,
            r@ == v@.take(i as int),
        decreases end - i,
    {
        r.push(v[i]);
        assert(v@.take(i as int).push(v@[i as int]) =~= v@.take(i + 1));
        i = i + 1;
    }
    assert(v@.take(end as int) =~= (if n <= v.len() { v@.take(n as int) } else { v@ }));
    r
}

/// Whether `p` is a prefix of `v`.
pub fn has_prefix(v: &Vec<char>, p: &Vec<char>) -> (r: bool)
    ensures
        r == p@.is_prefix_of(v@),
{
    if p.len() > v.len() {
        return false;
    }
    let mut i: usize = 0;
    while i < p.len()
        invariant
            p.len() <= v.len(),
            i <= p.len(),
            forall|k: int| 0 <= k < i ==> p@[k] == v@[k],
        decreases p.len() - i,
    {
        if p[i] != v[i] {
            return false;
        }
        i = i + 1;
    }
    true
}

/// Whether `p` is a suffix of `v`.
pub fn has_suffix(v: &Vec<char>, p: &Vec<char>) -> (r: bool)
    ensures
        r == p@.is_suffix_of(v@),
{
    if p.len() > v.len() {
        return false;
    }
    let off = v.len() - p.len();
    let mut i: usize = 0;
    while i < p.len()
        invariant
            p.len() <= v.len(),
            off == v.len() - p.len(),
            i <= p.len(),
            forall|k: int| 0 <= k < i ==> p@[k] == v@[off + k],
        decreases p.len() - i,
    {
        if p[i] != v[off + i] {
            return false;
        }
        i = i + 1;
    }
    assert(p@ =~= v@.subrange(off as int, v.len() as int));
    true
}

/// ASCII lower-case copy of `v`.
pub fn ascii_lower_chars(v: &Vec<char>) -> (r: Vec<char>)
    ensures
        r@ == ascii_lower_seq(v@),
{
    let mut r: Vec<char> = Vec::new();
    let mut i: usize = 0;
    while i < v.len()
        invariant
            i <= v.len(),
            r@ == ascii_lower_seq(v@.take(i as int)),
        decreases v.len() - i,
    {
        r.push(ascii_lower(v[i]));
        assert(ascii_lower_seq(v@.take(i + 1)) =~= ascii_lower_seq(v@.take(i as int)).push(
            spec_ascii_lower(v@[i as int]),
        ));
        i = i + 1;
    }
    assert(v@.take(v.len() as int) =~= v@);
    r
}

/// ASCII upper-case copy of `v`.
pub fn ascii_upper_chars(v: &Vec<char>) -> (r: Vec<char>)
    ensures
        r@ == ascii_upper_seq(v@),
{
    let mut r: Vec<char> = Vec::new();
    let mut i: usize = 0;
    while i < v.len()
        invariant
            i <= v.len(),
            r@ == ascii_upper_seq(v@.take(i as int)),
        decreases v.len() - i,
    {
        r.push(ascii_upper(v[i]));
        assert(ascii_upper_seq(v@.take(i + 1)) =~= ascii_upper_seq(v@.take(i as int)).push(
            spec_ascii_upper(v@[i as int]),
        ));
        i = i + 1;
    }
    assert(v@.take(v.len() as int) =~= v@);
    r
}

/// `a.eq_ignore_ascii_case(b)` on character vectors.
pub fn chars_eq_ignore_ascii_case(a: &Vec<char>, b: &Vec<char>) -> (r: bool)
    ensures
        r == eq_ignore_ascii_case(a@, b@),
{
    let la = ascii_lower_chars(a);
    let lb = ascii_lower_chars(b);
    chars_eq(&la, &lb)
}

} // verus!

verus! {

/// The ASCII digit of a value below ten.
pub open spec fn digit_char(d: nat) -> char {
    ((48 + d) as u32) as char
}

/// Decimal notation of a natural number, without leading zeros.
pub open spec fn dec_digits(n: nat) -> Seq<char>
    decreases n,
{
    if n < 10 {
        seq![digit_char(n)]
    } else {
        dec_digits(n / 10).push(digit_char(n % 10))
    }
}

/// The number that a string of decimal digits spells.
pub open spec fn digits_value(s: Seq<char>) -> nat
    decreases s.len(),
{
    if s.len() == 0 {
        0
    } else {
        digits_value(s.drop_last()) * 10 + ((s.last() as u32) - 48) as nat
    }
}

/// The decimal notation of `n` is made of the digits `0` to `9`, starts
/// with no `0` unless `n` is zero, and reads back as `n`.
pub proof fn lemma_decimal_reads_back(n: nat)
    ensures
        dec_digits(n).len() > 0,
        forall|i: int| 0 <= i < dec_digits(n).len() ==> '0' <= #[trigger] dec_digits(n)[i] <= '9',
        n > 0 ==> dec_digits(n)[0] != '0',
        digits_value(dec_digits(n)) == n,
    decreases n,
{
    if n >= 10 {
        lemma_decimal_reads_back(n / 10);
        let d = dec_digits(n);
        let p = dec_digits(n / 10);
        assert(d.drop_last() == p);
        assert(d[0] == p[0]);
        assert forall|i: int| 0 <= i < d.len() implies '0' <= #[trigger] d[i] <= '9' by {
            if i < p.len() {
                assert(d[i] == p[i]);
            }
        }
        assert(digit_char((n % 10) as nat) as u32 == 48 + n % 10);
        assert(d.last() == digit_char((n % 10) as nat));
        assert(digits_value(d) == digits_value(p) * 10 + ((d.last() as u32) - 48) as nat);
        assert(n == (n / 10) * 10 + n % 10);
    } else {
        assert(digit_char(n) as u32 == 48 + n);
        assert(dec_digits(n).drop_last() =~= Seq::<char>::empty());
        assert(digits_value(dec_digits(n)) == digits_value(Seq::<char>::empty()) * 10 + ((dec_digits(n).last() as u32) - 48) as nat);
    }
}

/// Decimal notation of an integer, with a leading `-` when negative.
pub open spec fn dec_int(n: int) -> Seq<char> {
    if n < 0 {
        seq!['-'] + dec_digits((-n) as nat)
    } else {
        dec_digits(n as nat)
    }
}

/// Appends the decimal notation of `n`.
pub fn push_decimal(s: &mut String, n: u64)
    ensures
        final(s)@ == old(s)@ + dec_digits(n as nat),
    decreases n,
{
    if n >= 10 {
        push_decimal(s, n / 10);
    }
    let d = (n % 10) as u8;
    push_char(s, (48u8 + d) as char);
    assert(old(s)@ + dec_digits(n as nat) =~= (if n >= 10 {
        old(s)@ + dec_digits((n / 10) as nat)
    } else {
        old(s)@
    }).push(digit_char((n % 10) as nat)));
}

/// Appends the decimal notation of a signed `n`.
pub fn push_decimal_i64(s: &mut String, n: i64)
    ensures
        final(s)@ == old(s)@ + dec_int(n as int),
{
    if n < 0 {
        push_char(s, '-');
        let magnitude: u64 = if n == i64::MIN {
            9223372036854775808u64
        } else {
            (-n) as u64
        };
        push_decimal(s, magnitude);
        assert(old(s)@ + dec_int(n as int) =~= old(s)@.push('-') + dec_digits(magnitude as nat));
    } else {
        push_decimal(s, n as u64);
    }
}

} // verus!

verus! {

/// `s.trim_start_matches([a, b])`.
pub open spec fn strip_start(s: Seq<char>, a: char, b: char) -> Seq<char>
    decreases s.len(),
{
    if s.len() > 0 && (s[0] == a || s[0] == b) {
        strip_start(s.drop_first(), a, b)
    } else {
        s
    }
}

/// `s.trim_end_matches([a, b])`.
pub open spec fn strip_end(s: Seq<char>, a: char, b: char) -> Seq<char>
    decreases s.len(),
{
    if s.len() > 0 && (s.last() == a || s.last() == b) {
        strip_end(s.drop_last(), a, b)
    } else {
        s
    }
}

/// `s.trim_matches([a, b])`.
pub open spec fn strip_both(s: Seq<char>, a: char, b: char) -> Seq<char> {
    strip_end(strip_start(s, a, b), a, b)
}

/// First index in `lo..hi` after the leading run of `a`/`b` characters.
pub fn strip_start_from(v: &Vec<char>, lo: usize, hi: usize, a: char, b: char) -> (r: usize)
    requires
        lo <= hi <= v.len(),
    ensures
        lo <= r <= hi,
        strip_start(v@.subrange(lo as int, hi as int), a, b) == v@.subrange(r as int, hi as int),
{
    let mut i = lo;
    while i < hi && (v[i] == a || v[i] == b)
        invariant
            lo <= i <= hi <= v.len(),
            strip_start(v@.subrange(lo as int, hi as int), a, b) == strip_start(
                v@.subrange(i as int, hi as int),
                a,
                b,
            ),
        decreases hi - i,
    {
        assert(v@.subrange(i as int, hi as int).drop_first() =~= v@.subrange(i + 1, hi as int));
        i = i + 1;
    }
    assert(strip_start(v@.subrange(i as int, hi as int), a, b) == v@.subrange(i as int, hi as int))
        by {
        if i < hi {
            assert(v@.subrange(i as int, hi as int)[0] == v@[i as int]);
        }
    }
    i
}

/// End index in `lo..hi` before the trailing run of `a`/`b` characters.
pub fn strip_end_to(v: &Vec<char>, lo: usize, hi: usize, a: char, b: char) -> (r: usize)
    requires
        lo <= hi <= v.len(),
    ensures
        lo <= r <= hi,
        strip_end(v@.subrange(lo as int, hi as int), a, b) == v@.subrange(lo as int, r as int),
{
    let mut j = hi;
    while j > lo && (v[j - 1] == a || v[j - 1] == b)
        invariant
            lo <= j <= hi <= v.len(),
            strip_end(v@.subrange(lo as int, hi as int), a, b) == strip_end(
                v@.subrange(lo as int, j as int),
                a,
                b,
            ),
        decreases j,
    {
        assert(v@.subrange(lo as int, j as int).drop_last() =~= v@.subrange(lo as int, j - 1));
        j = j - 1;
    }
    assert(strip_end(v@.subrange(lo as int, j as int), a, b) == v@.subrange(lo as int, j as int))
        by {
        if j > lo {
            assert(v@.subrange(lo as int, j as int).last() == v@[j - 1]);
        }
    }
    j
}

/// The characters of `v` between `from` and `to`.
pub fn slice_chars(v: &Vec<char>, from: usize, to: usize) -> (r: Vec<char>)
    requires
        from <= to <= v.len(),
    ensures
        r@ == v@.subrange(from as int, to as int),
{
    let mut r: Vec<char> = Vec::new();
    let mut i = from;
    while i < to
        invariant
            from <= i <= to <= v.len(),
            r@ == v@.subrange(from as int, i as int),
        decreases to - i,
    {
        r.push(v[i]);
        assert(v@.subrange(from as int, i as int).push(v@[i as int]) =~= v@.subrange(
            from as int,
            i + 1,
        ));
        i = i + 1;
    }
    r
}

/// `v` with every `from` replaced by `to`.
pub open spec fn replace_char_seq(s: Seq<char>, from: char, to: char) -> Seq<char> {
    s.map_values(|c: char| if c == from { to } else { c })
}

pub fn replace_char(v: &Vec<char>, from: char, to: char) -> (r: Vec<char>)
    ensures
        r@ == replace_char_seq(v@, from, to),
{
    let mut r: Vec<char> = Vec::new();
    let mut i: usize = 0;
    while i < v.len()
        invariant
            i <= v.len(),
            r@ == replace_char_seq(v@.take(i as int), from, to),
        decreases v.len() - i,
    {
        let c = if v[i] == from {
            to
        } else {
            v[i]
        };
        r.push(c);
        assert(replace_char_seq(v@.take(i + 1), from, to) =~= replace_char_seq(
            v@.take(i as int),
            from,
            to,
        ).push(c));
        i = i + 1;
    }
    assert(v@.take(v.len() as int) =~= v@);
    r
}

/// The first position at or after `from` where `p` occurs in `s`, or -1.
pub open spec fn first_occurrence(s: Seq<char>, p: Seq<char>, from: int) -> int
    decreases s.len() - from,
    when 0 <= from
{
    if from + p.len() > s.len() {
        -1
    } else if s.subrange(from, from + p.len()) == p {
        from
    } else if p.len() == 0 {
        from
    } else {
        first_occurrence(s, p, from + 1)
    }
}

/// `s` with its first occurrence of `p` replaced by `w`, as
/// `str::replacen(p, w, 1)` does; `s` itself when `p` does not occur.
pub open spec fn replaced_first(s: Seq<char>, p: Seq<char>, w: Seq<char>) -> Seq<char> {
    let i = first_occurrence(s, p, 0);
    if i < 0 {
        s
    } else {
        s.take(i) + w + s.skip(i + p.len())
    }
}

proof fn lemma_first_occurrence_from(s: Seq<char>, p: Seq<char>, from: int)
    requires
        0 <= from,
    ensures
        ({
            let i = first_occurrence(s, p, from);
            &&& i >= 0 ==> from <= i && i + p.len() <= s.len() && s.subrange(i, i + p.len()) == p
                && forall|j: int| from <= j < i ==> #[trigger] s.subrange(j, j + p.len()) != p
            &&& i < 0 ==> forall|j: int|
                from <= j && j + p.len() <= s.len() ==> #[trigger] s.subrange(j, j + p.len()) != p
        }),
    decreases s.len() - from,
{
    if from + p.len() <= s.len() && s.subrange(from, from + p.len()) != p {
        if p.len() == 0 {
            assert(s.subrange(from, from) =~= p);
        }
        lemma_first_occurrence_from(s, p, from + 1);
    }
}

/// Replacing the first occurrence of `p` puts `w` where `p` first occurs,
/// keeping what stands before and after; where `p` occurs nowhere the text
/// stays as it is.
pub proof fn lemma_replace_first_where_it_occurs(s: Seq<char>, p: Seq<char>, w: Seq<char>)
    ensures
        forall|j: int|
            0 <= j && j + p.len() <= s.len() && #[trigger] s.subrange(j, j + p.len()) == p ==> exists|i: int|
                0 <= i <= j && #[trigger] s.subrange(i, i + p.len()) == p && replaced_first(s, p, w) == s.take(
                    i,
                ) + w + s.skip(i + p.len()) && forall|k: int|
                    0 <= k < i ==> #[trigger] s.subrange(k, k + p.len()) != p,
        (forall|j: int| 0 <= j && j + p.len() <= s.len() ==> #[trigger] s.subrange(j, j + p.len()) != p)
            ==> replaced_first(s, p, w) == s,
{
    lemma_first_occurrence_from(s, p, 0);
    let i = first_occurrence(s, p, 0);
    assert forall|j: int|
        0 <= j && j + p.len() <= s.len() && #[trigger] s.subrange(j, j + p.len()) == p implies exists|i: int|
        0 <= i <= j && #[trigger] s.subrange(i, i + p.len()) == p && replaced_first(s, p, w) == s.take(i) + w
            + s.skip(i + p.len()) && forall|k: int| 0 <= k < i ==> #[trigger] s.subrange(k, k + p.len()) != p by {
        assert(i >= 0);
        if i > j {
            assert(s.subrange(j, j + p.len()) != p);
        }
    }
}

/// Whether `p` occurs in `v` at position `at`.
fn occurs_at(v: &Vec<char>, p: &Vec<char>, at: usize) -> (r: bool)
    requires
        at + p.len() <= v.len(),
    ensures
        r == (v@.subrange(at as int, at + p.len()) == p@),
{
    let mut k: usize = 0;
    while k < p.len()
        invariant
            at + p.len() <= v.len(),
            k <= p.len(),
            forall|j: int| 0 <= j < k ==> v@[at + j] == p@[j],
        decreases p.len() - k,
    {
        if v[at + k] != p[k] {
            assert(v@.subrange(at as int, at + p.len())[k as int] != p@[k as int]);
            return false;
        }
        k = k + 1;
    }
    assert(v@.subrange(at as int, at + p.len()) =~= p@);
    true
}

/// Whether `p` occurs in `s`.
pub fn contains_text(s: &str, p: &str) -> (r: bool)
    ensures
        r == (first_occurrence(s@, p@, 0) >= 0),
{
    let v = chars_of(s);
    let pv = chars_of(p);
    if pv.len() > v.len() {
        return false;
    }
    let last = v.len() - pv.len();
    let mut i: usize = 0;
    while i <= last
        invariant
            last + pv.len() == v.len(),
            v@ == s@,
            pv@ == p@,
            first_occurrence(s@, p@, 0) == first_occurrence(s@, p@, i as int),
        decreases last + 1 - i,
    {
        if occurs_at(&v, &pv, i) {
            return true;
        }
        if pv.len() == 0 {
            assert(v@.subrange(i as int, i as int) =~= pv@);
        }
        i = i + 1;
    }
    false
}

/// `s` with its first occurrence of `p` replaced by `w`.
pub fn replace_first(s: &str, p: &str, w: &str) -> (r: String)
    ensures
        r@ == replaced_first(s@, p@, w@),
{
    let v = chars_of(s);
    let pv = chars_of(p);
    let mut i: usize = 0;
    if pv.len() > v.len() {
        return string_of(&v);
    }
    let last = v.len() - pv.len();
    while i <= last
        invariant
            last + pv.len() == v.len(),
            v@ == s@,
            pv@ == p@,
            first_occurrence(s@, p@, 0) == first_occurrence(s@, p@, i as int),
        decreases last + 1 - i,
    {
        if occurs_at(&v, &pv, i) {
            let head = slice_chars(&v, 0, i);
            let tail = slice_chars(&v, i + pv.len(), v.len());
            let middle = concat_chars(&head, &chars_of(w));
            let all = concat_chars(&middle, &tail);
            return string_of(&all);
        }
        if pv.len() == 0 {
            assert(v@.subrange(i as int, i as int) =~= pv@);
        }
        i = i + 1;
    }
    string_of(&v)
}

/// Concatenation of two character vectors.
pub fn concat_chars(a: &Vec<char>, b: &Vec<char>) -> (r: Vec<char>)
    ensures
        r@ == a@ + b@,
{
    let mut r: Vec<char> = Vec::new();
    let mut i: usize = 0;
    while i < a.len()
        invariant
            i <= a.len(),
            r@ == a@.take(i as int),
        decreases a.len() - i,
    {
        r.push(a[i]);
        assert(a@.take(i as int).push(a@[i as int]) =~= a@.take(i + 1));
        i = i + 1;
    }
    let mut j: usize = 0;
    while j < b.len()
        invariant
            i == a.len(),
            j <= b.len(),
            r@ == a@ + b@.take(j as int),
        decreases b.len() - j,
    {
        r.push(b[j]);
        assert(a@ + b@.take(j as int).push(b@[j as int]) =~= a@ + b@.take(j + 1));
        j = j + 1;
    }
    assert(a@ =~= a@.take(a.len() as int));
    assert(b@ =~= b@.take(b.len() as int));
    r
}

/// `str::to_lowercase` on characters.
pub fn lowercase_chars(v: &Vec<char>) -> (r: Vec<char>)
    ensures
        r@ == unicode_lowercase(v@),
{
    let s = string_of(v);
    let l = to_lowercase(s.as_str());
    chars_of(l.as_str())
}

} // verus!
