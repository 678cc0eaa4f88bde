//! What the user may type: drawer and panel names, colors, and the visible
//! names of Dock and Panel elements.
use vstd::prelude::*;

use crate::storage::{folder_name_check, folder_name_message, folder_name_problem, FolderNameProblem};
use crate::text::{
    ascii_upper_chars, ascii_upper_seq, chars_of, is_ascii_hexdigit, push_str, spec_is_ascii_hexdigit,
    string_of, trim_seq, trimmed_chars,
};

verus! {

/// A drawer name, trimmed, when Windows accepts it as a folder name.
pub fn validate_name(name: &str) -> (r: Result<String, String>)
    ensures
        r is Ok <==> folder_name_problem(trim_seq(name@)) is None,
        r matches Ok(v) ==> v@ == trim_seq(name@),
        r matches Err(m) ==> m@ == folder_name_message(
            folder_name_problem(trim_seq(name@))->0,
            trim_seq(name@),
        ),
{
    let t = trimmed_chars(name);
    match folder_name_check(&t) {
        None => Ok(string_of(&t)),
        Some(FolderNameProblem::EmptyOrPadded) => Err(
            "El nombre no puede estar vacío ni comenzar o terminar con espacios".to_owned(),
        ),
        Some(FolderNameProblem::EndsWithDot) => Err(
            "Windows no permite nombres de carpeta terminados en punto".to_owned(),
        ),
        Some(FolderNameProblem::TooLong) => Err(
            "El nombre no puede superar los 80 caracteres".to_owned(),
        ),
        Some(FolderNameProblem::ForbiddenCharacter) => Err(
            "El nombre contiene caracteres no permitidos por Windows: < > : \" / \\ | ? *".to_owned(),
        ),
        Some(FolderNameProblem::Reserved) => {
            let mut m = "“".to_owned();
            let s = string_of(&t);
            push_str(&mut m, s.as_str());
            push_str(&mut m, "” es un nombre reservado por Windows. Elegí otro nombre.");
            Err(m)
        },
    }
}

/// `#RRGGBB`: seven characters, a `#` and six hexadecimal digits.
pub open spec fn is_hex_color(s: Seq<char>) -> bool {
    s.len() == 7 && s[0] == '#' && forall|i: int| 1 <= i < 7 ==> spec_is_ascii_hexdigit(#[trigger] s[i])
}

fn hex_color_chars(v: &Vec<char>) -> (r: bool)
    ensures
        r == is_hex_color(v@),
{
    if v.len() != 7 || v[0] != '#' {
        return false;
    }
    let mut i: usize = 1;
    while i < 7
        invariant
            v.len() == 7,
            1 <= i <= 7,
            forall|k: int| 1 <= k < i ==> spec_is_ascii_hexdigit(#[trigger] v@[k]),
        decreases 7 - i,
    {
        if !is_ascii_hexdigit(v[i]) {
            return false;
        }
        i = i + 1;
    }
    true
}

/// A color is accepted exactly when it is `#` and six hexadecimal digits;
/// the stored form keeps the `#` and the digits, with `a` to `f` upper-cased.
pub proof fn lemma_colors_stored_upper_case(s: Seq<char>)
    ensures
        is_hex_color(s) <==> (s.len() == 7 && s[0] == '#' && forall|i: int|
            1 <= i < 7 ==> ('0' <= #[trigger] s[i] <= '9' || 'a' <= s[i] <= 'f' || 'A' <= s[i] <= 'F')),
        is_hex_color(s) ==> {
            let u = ascii_upper_seq(s);
            &&& u.len() == 7
            &&& u[0] == '#'
            &&& forall|i: int|
                1 <= i < 7 ==> ('0' <= #[trigger] u[i] <= '9' || 'A' <= u[i] <= 'F')
            &&& forall|i: int| 1 <= i < 7 && ('0' <= #[trigger] s[i] <= '9' || 'A' <= s[i] <= 'F') ==> u[i] == s[i]
            &&& forall|i: int| 1 <= i < 7 && 'a' <= #[trigger] s[i] <= 'f' ==> u[i] as u32 == s[i] as u32 - 32
        },
{
    if is_hex_color(s) {
        let u = ascii_upper_seq(s);
        assert forall|i: int| 1 <= i < 7 implies ('0' <= #[trigger] u[i] <= '9' || 'A' <= u[i] <= 'F') by {
            assert(spec_is_ascii_hexdigit(s[i]));
        }
    }
    if s.len() == 7 && s[0] == '#' && forall|i: int|
        1 <= i < 7 ==> ('0' <= #[trigger] s[i] <= '9' || 'a' <= s[i] <= 'f' || 'A' <= s[i] <= 'F') {
        assert forall|i: int| 1 <= i < 7 implies spec_is_ascii_hexdigit(#[trigger] s[i]) by {
            assert('0' <= s[i] <= '9' || 'a' <= s[i] <= 'f' || 'A' <= s[i] <= 'F');
        }
    }
}

pub open spec fn color_message() -> Seq<char> {
    "El color debe tener formato hexadecimal #RRGGBB"@
}

/// A drawer or panel color, upper-cased, when it is `#RRGGBB`.
pub fn validate_color(color: &str) -> (r: Result<String, String>)
    ensures
        r is Ok <==> is_hex_color(color@),
        r matches Ok(v) ==> v@ == ascii_upper_seq(color@),
        r matches Err(m) ==> m@ == color_message(),
{
    let v = chars_of(color);
    if hex_color_chars(&v) {
        let u = ascii_upper_chars(&v);
        Ok(string_of(&u))
    } else {
        Err("El color debe tener formato hexadecimal #RRGGBB".to_owned())
    }
}

pub open spec fn dock_color_message() -> Seq<char> {
    "El color del Dock debe tener formato #RRGGBB"@
}

/// The Dock background color: trimmed, then `#RRGGBB`, upper-cased.
pub fn normalize_hex_color(value: &str) -> (r: Result<String, String>)
    ensures
        r is Ok <==> is_hex_color(trim_seq(value@)),
        r matches Ok(v) ==> v@ == ascii_upper_seq(trim_seq(value@)),
        r matches Err(m) ==> m@ == dock_color_message(),
{
    let v = trimmed_chars(value);
    if hex_color_chars(&v) {
        let u = ascii_upper_chars(&v);
        Ok(string_of(&u))
    } else {
        Err("El color del Dock debe tener formato #RRGGBB".to_owned())
    }
}

pub open spec fn panel_name_empty_message() -> Seq<char> {
    "El panel necesita un nombre"@
}

pub open spec fn panel_name_long_message() -> Seq<char> {
    "El nombre del panel es demasiado largo"@
}

/// A panel name: trimmed, not empty, at most sixty characters.
pub fn validate_panel_name(name: &str) -> (r: Result<String, String>)
    ensures
        r is Ok <==> 0 < trim_seq(name@).len() <= 60,
        r matches Ok(v) ==> v@ == trim_seq(name@),
        r matches Err(m) ==> m@ == (if trim_seq(name@).len() == 0 {
            panel_name_empty_message()
        } else {
            panel_name_long_message()
        }),
{
    let t = trimmed_chars(name);
    if t.len() == 0 {
        return Err("El panel necesita un nombre".to_owned());
    }
    if t.len() > 60 {
        return Err("El nombre del panel es demasiado largo".to_owned());
    }
    Ok(string_of(&t))
}

pub open spec fn visible_name_empty_message() -> Seq<char> {
    "El nombre visible no puede quedar vacío"@
}

pub open spec fn visible_name_long_message() -> Seq<char> {
    "El nombre visible es demasiado largo"@
}

/// The visible name of a panel element: trimmed, 1 to 80 characters.
pub fn validate_panel_item_name(name: &str) -> (r: Result<String, String>)
    ensures
        r is Ok <==> 0 < trim_seq(name@).len() <= 80,
        r matches Ok(v) ==> v@ == trim_seq(name@),
        r matches Err(m) ==> m@ == (if trim_seq(name@).len() == 0 {
            visible_name_empty_message()
        } else {
            visible_name_long_message()
        }),
{
    let t = trimmed_chars(name);
    if t.len() == 0 {
        return Err("El nombre visible no puede quedar vacío".to_owned());
    }
    if t.len() > 80 {
        return Err("El nombre visible es demasiado largo".to_owned());
    }
    Ok(string_of(&t))
}

pub open spec fn dock_name_message() -> Seq<char> {
    "El nombre visual debe tener entre 1 y 80 caracteres"@
}

/// The visible name of a Dock element: trimmed, 1 to 80 characters.
pub fn validate_dock_item_name(name: &str) -> (r: Result<String, String>)
    ensures
        r is Ok <==> 0 < trim_seq(name@).len() <= 80,
        r matches Ok(v) ==> v@ == trim_seq(name@),
        r matches Err(m) ==> m@ == dock_name_message(),
{
    let t = trimmed_chars(name);
    if t.len() == 0 || t.len() > 80 {
        return Err("El nombre visual debe tener entre 1 y 80 caracteres".to_owned());
    }
    Ok(string_of(&t))
}

} // verus!
