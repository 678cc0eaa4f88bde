//! Window labels: every drawer and panel window is named after the id of
//! what it shows, so a command can tell which window called it.
use vstd::prelude::*;
use vstd::string::StrSliceExecFns;

use crate::text::{chars_of, has_prefix, push_str};

verus! {

pub open spec fn drawer_prefix() -> Seq<char> {
    "drawer-"@
}

pub open spec fn panel_prefix() -> Seq<char> {
    "panel-"@
}

/// The label of the window of drawer `id`.
pub fn drawer_window_label(id: &str) -> (r: String)
    ensures
        r@ == drawer_prefix() + id@,
{
    let mut r = "drawer-".to_owned();
    push_str(&mut r, id);
    r
}

/// The id of a label's part after `prefix`, when the label starts with it.
fn strip_label_prefix<'a>(label: &'a str, prefix: &str) -> (r: Option<&'a str>)
    ensures
        r is Some <==> prefix@.is_prefix_of(label@),
        r matches Some(id) ==> id@ == label@.subrange(prefix@.len() as int, label@.len() as int),
{
    let lv = chars_of(label);
    let pv = chars_of(prefix);
    if has_prefix(&lv, &pv) {
        let n = label.unicode_len();
        Some(label.substring_char(pv.len(), n))
    } else {
        None
    }
}

/// The drawer id of a drawer window's label; `None` for other windows.
pub fn drawer_id_from_label(label: &str) -> (r: Option<&str>)
    ensures
        r is Some <==> drawer_prefix().is_prefix_of(label@),
        r matches Some(id) ==> drawer_prefix() + id@ == label@,
{
    let r = strip_label_prefix(label, "drawer-");
    proof {
        if r is Some {
            assert(drawer_prefix() + r->0@ =~= label@);
        }
    }
    r
}

/// The label of the window of panel `id`.
pub fn panel_window_label(id: &str) -> (r: String)
    ensures
        r@ == panel_prefix() + id@,
{
    let mut r = "panel-".to_owned();
    push_str(&mut r, id);
    r
}

/// The panel id of a panel window's label; `None` for other windows.
pub fn panel_id_from_label(label: &str) -> (r: Option<&str>)
    ensures
        r is Some <==> panel_prefix().is_prefix_of(label@),
        r matches Some(id) ==> panel_prefix() + id@ == label@,
{
    let r = strip_label_prefix(label, "panel-");
    proof {
        if r is Some {
            assert(panel_prefix() + r->0@ =~= label@);
        }
    }
    r
}

/// Reading the id back from a drawer window's label gives the drawer's id.
pub proof fn lemma_drawer_label_round_trip(id: Seq<char>)
    ensures
        drawer_prefix().is_prefix_of(drawer_prefix() + id),
        (drawer_prefix() + id).subrange(drawer_prefix().len() as int, (drawer_prefix()
            + id).len() as int) == id,
{
    assert((drawer_prefix() + id).subrange(drawer_prefix().len() as int, (drawer_prefix()
        + id).len() as int) =~= id);
}

/// Reading the id back from a panel window's label gives the panel's id.
pub proof fn lemma_panel_label_round_trip(id: Seq<char>)
    ensures
        panel_prefix().is_prefix_of(panel_prefix() + id),
        (panel_prefix() + id).subrange(panel_prefix().len() as int, (panel_prefix()
            + id).len() as int) == id,
{
    assert((panel_prefix() + id).subrange(panel_prefix().len() as int, (panel_prefix()
        + id).len() as int) =~= id);
}

/// Whether the Dock windows may be created and moved yet: set once start-up
/// has finished.
pub struct ReadyFlag {
    pub ready: bool,
}

impl ReadyFlag {
    pub fn new() -> (r: Self)
        ensures
            !r.ready,
    {
        ReadyFlag { ready: false }
    }
}

/// Start-up has finished.
pub fn mark_ready(flag: &mut ReadyFlag)
    ensures
        final(flag).ready,
{
    flag.ready = true;
}

pub fn is_ready(flag: &ReadyFlag) -> (r: bool)
    ensures
        r == flag.ready,
{
    flag.ready
}

/// Alt held when a panel drag started: snapping is off for that one gesture.
pub struct SnapLatch {
    pub suspended: bool,
}

impl SnapLatch {
    pub fn new() -> (r: Self)
        ensures
            !r.suspended,
    {
        SnapLatch { suspended: false }
    }
}

pub fn set_snap_suspended(latch: &mut SnapLatch, suspended: bool)
    ensures
        final(latch).suspended == suspended,
{
    latch.suspended = suspended;
}

/// Whether snapping is suspended for the current gesture; reading it ends
/// the suspension.
pub fn snap_suspended(latch: &mut SnapLatch) -> (r: bool)
    ensures
        r == old(latch).suspended,
        !final(latch).suspended,
{
    let r = latch.suspended;
    latch.suspended = false;
    r
}

} // verus!
