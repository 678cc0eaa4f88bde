//! Start with Windows: the command registered under the `Run` key.
use vstd::prelude::*;

use crate::text::{chars_of, push_str, str_eq};

verus! {

/// The registered command: the executable path in quotes, so that a path
/// with spaces stays one argument, followed by `--autostart`.
pub open spec fn autostart_command(executable: Seq<char>) -> Seq<char> {
    seq!['"'] + executable + "\" --autostart"@
}

pub fn expected_command(executable: &str) -> (r: String)
    ensures
        r@ == autostart_command(executable@),
{
    let mut r = "\"".to_owned();
    proof {
        reveal_strlit("\"");
    }
    push_str(&mut r, executable);
    push_str(&mut r, "\" --autostart");
    r
}

/// Automatic start is on when the launcher reports it and the registered
/// command still points at this executable.
pub fn autostart_active(reported: bool, registered: &str, executable: &str) -> (r: bool)
    ensures
        r == (reported && registered@ == autostart_command(executable@)),
{
    if !reported {
        return false;
    }
    let expected = expected_command(executable);
    str_eq(registered, expected.as_str())
}

/// Whether the process was started by Windows at sign-in.
pub fn launched_by_autostart(args: &Vec<String>) -> (r: bool)
    ensures
        r == exists|i: int| 0 <= i < args@.len() && (#[trigger] args@[i])@ == "--autostart"@,
{
    let mut i: usize = 0;
    while i < args.len()
        invariant
            i <= args.len(),
            forall|k: int| 0 <= k < i ==> (#[trigger] args@[k])@ != "--autostart"@,
        decreases args.len() - i,
    {
        if str_eq(args[i].as_str(), "--autostart") {
            return true;
        }
        i = i + 1;
    }
    false
}

} // verus!
