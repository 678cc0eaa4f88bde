//! Opening elements with the program Windows associates with them.
use vstd::prelude::*;

use crate::text::{dec_int, push_decimal_i64, push_str};

verus! {

pub struct ShellService;

impl ShellService {
    /// What a shell launch reported: Windows signals failure with a code
    /// of 32 or less.
    pub fn open_result(code: i64) -> (r: Result<(), String>)
        ensures
            code > 32 ==> r is Ok,
            code <= 32 ==> (r matches Err(m) && m@ == "Windows no pudo abrir el elemento (código "@
                + dec_int(code as int) + ")"@),
    {
        if code <= 32 {
            let mut m = "Windows no pudo abrir el elemento (código ".to_owned();
            push_decimal_i64(&mut m, code);
            push_str(&mut m, ")");
            proof {
                reveal_strlit("Windows no pudo abrir el elemento (código ");
                reveal_strlit(")");
            }
            Err(m)
        } else {
            Ok(())
        }
    }
}

} // verus!
