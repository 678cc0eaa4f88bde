//! The Dock's settings that are not measurements: whether it is on and
//! shown, where, how it looks and animates, and its global shortcut.
//! Measurements (opacity, radius, widths, offsets) are floating-point
//! values and are not part of these settings.
use vstd::prelude::*;

use crate::model::{DockAnimationMode, DockHandlePosition, DockSpacing, DockWidthMode, IconSize};
use crate::text::{str_eq, trim, trim_seq};
use crate::validation::{dock_color_message, is_hex_color, normalize_hex_color};
use crate::text::ascii_upper_seq;

verus! {

/// The Dock settings the organizer decides on.
pub struct DockOptions {
    pub enabled: bool,
    pub visible: bool,
    pub monitor_id: String,
    pub icon_size: IconSize,
    pub background_color: String,
    pub width_mode: DockWidthMode,
    pub spacing: DockSpacing,
    pub handle_position: DockHandlePosition,
    pub animation_mode: DockAnimationMode,
    pub performance_mode: bool,
    pub blur: bool,
    pub shortcut_enabled: bool,
    pub shortcut: String,
    pub hide_after_open: bool,
}

/// A change to some of the settings; `None` keeps the current value.
pub struct DockOptionsPatch {
    pub enabled: Option<bool>,
    pub monitor_id: Option<String>,
    pub icon_size: Option<IconSize>,
    pub background_color: Option<String>,
    pub width_mode: Option<DockWidthMode>,
    pub spacing: Option<DockSpacing>,
    pub handle_position: Option<DockHandlePosition>,
    pub animation_mode: Option<DockAnimationMode>,
    pub performance_mode: Option<bool>,
    pub blur: Option<bool>,
    pub shortcut_enabled: Option<bool>,
    pub shortcut: Option<String>,
    pub hide_after_open: Option<bool>,
}

pub open spec fn or_keep<T>(v: Option<T>, current: T) -> T {
    match v {
        Some(x) => x,
        None => current,
    }
}

pub open spec fn color_ok(patch: DockOptionsPatch) -> bool {
    patch.background_color matches Some(c) ==> is_hex_color(trim_seq(c@))
}

/// The shortcut after the change: the requested one (or the current one),
/// trimmed.
pub open spec fn next_shortcut(current: Seq<char>, patch: DockOptionsPatch) -> Seq<char> {
    trim_seq(
        match patch.shortcut {
            Some(s) => s@,
            None => current,
        },
    )
}

/// The settings after `patch`: turning the Dock off also hides it, and
/// performance mode switches blur off.
pub open spec fn patched(old: DockOptions, new: DockOptions, patch: DockOptionsPatch) -> bool {
    let enabled = or_keep(patch.enabled, old.enabled);
    let performance = or_keep(patch.performance_mode, old.performance_mode);
    &&& new.enabled == enabled
    &&& new.visible == (if patch.enabled == Some(false) {
        false
    } else {
        old.visible
    })
    &&& new.monitor_id@ == (match patch.monitor_id {
        Some(m) => m@,
        None => old.monitor_id@,
    })
    &&& new.icon_size == or_keep(patch.icon_size, old.icon_size)
    &&& new.background_color@ == (match patch.background_color {
        Some(c) => ascii_upper_seq(trim_seq(c@)),
        None => old.background_color@,
    })
    &&& new.width_mode == or_keep(patch.width_mode, old.width_mode)
    &&& new.spacing == or_keep(patch.spacing, old.spacing)
    &&& new.handle_position == or_keep(patch.handle_position, old.handle_position)
    &&& new.animation_mode == or_keep(patch.animation_mode, old.animation_mode)
    &&& new.performance_mode == performance
    &&& new.blur == (!performance && or_keep(patch.blur, old.blur))
    &&& new.shortcut_enabled == or_keep(patch.shortcut_enabled, old.shortcut_enabled)
    &&& new.shortcut@ == next_shortcut(old.shortcut@, patch)
    &&& new.hide_after_open == or_keep(patch.hide_after_open, old.hide_after_open)
}

/// Every value the patch gives is the Dock's value afterwards, and every
/// value it leaves out stays as it was; turning the Dock off hides it, and
/// performance mode leaves no blur.
pub proof fn lemma_patch_sets_what_it_gives(old: DockOptions, new: DockOptions, patch: DockOptionsPatch)
    requires
        patched(old, new, patch),
    ensures
        patch.enabled matches Some(e) ==> new.enabled == e,
        patch.enabled is None ==> new.enabled == old.enabled,
        patch.enabled == Some(false) ==> !new.visible,
        patch.enabled != Some(false) ==> new.visible == old.visible,
        patch.monitor_id matches Some(m) ==> new.monitor_id@ == m@,
        patch.monitor_id is None ==> new.monitor_id@ == old.monitor_id@,
        patch.icon_size matches Some(v) ==> new.icon_size == v,
        patch.icon_size is None ==> new.icon_size == old.icon_size,
        patch.background_color matches Some(c) ==> new.background_color@ == ascii_upper_seq(
            trim_seq(c@),
        ),
        patch.background_color is None ==> new.background_color@ == old.background_color@,
        patch.width_mode matches Some(v) ==> new.width_mode == v,
        patch.width_mode is None ==> new.width_mode == old.width_mode,
        patch.spacing matches Some(v) ==> new.spacing == v,
        patch.spacing is None ==> new.spacing == old.spacing,
        patch.handle_position matches Some(v) ==> new.handle_position == v,
        patch.handle_position is None ==> new.handle_position == old.handle_position,
        patch.animation_mode matches Some(v) ==> new.animation_mode == v,
        patch.animation_mode is None ==> new.animation_mode == old.animation_mode,
        patch.performance_mode matches Some(v) ==> new.performance_mode == v,
        patch.performance_mode is None ==> new.performance_mode == old.performance_mode,
        new.performance_mode ==> !new.blur,
        !new.performance_mode ==> (patch.blur matches Some(b) ==> new.blur == b),
        !new.performance_mode ==> (patch.blur is None ==> new.blur == old.blur),
        patch.shortcut_enabled matches Some(v) ==> new.shortcut_enabled == v,
        patch.shortcut_enabled is None ==> new.shortcut_enabled == old.shortcut_enabled,
        patch.shortcut matches Some(k) ==> new.shortcut@ == trim_seq(k@),
        patch.shortcut is None ==> new.shortcut@ == trim_seq(old.shortcut@),
        patch.hide_after_open matches Some(v) ==> new.hide_after_open == v,
        patch.hide_after_open is None ==> new.hide_after_open == old.hide_after_open,
{
}

impl DockOptions {
    /// Applies `patch`. A background color that is not `#RRGGBB` refuses
    /// the whole change.
    pub fn apply_patch(&mut self, patch: DockOptionsPatch) -> (r: Result<(), String>)
        ensures
            r is Ok <==> color_ok(patch),
            r matches Err(m) ==> m@ == dock_color_message() && *final(self) == *old(self),
            r is Ok ==> patched(*old(self), *final(self), patch),
    {
        let color = match &patch.background_color {
            Some(c) => match normalize_hex_color(c.as_str()) {
                Ok(v) => Some(v),
                Err(m) => {
                    return Err(m);
                },
            },
            None => None,
        };
        let next_shortcut = match &patch.shortcut {
            Some(s) => trim(s.as_str()),
            None => trim(self.shortcut.as_str()),
        };
        let enabled = match patch.enabled {
            Some(e) => e,
            None => self.enabled,
        };
        let visible = match patch.enabled {
            Some(false) => false,
            _ => self.visible,
        };
        let performance = match patch.performance_mode {
            Some(p) => p,
            None => self.performance_mode,
        };
        let blur = !performance && match patch.blur {
            Some(b) => b,
            None => self.blur,
        };
        let monitor_id = match patch.monitor_id {
            Some(m) => m,
            None => self.monitor_id.clone(),
        };
        let background_color = match color {
            Some(c) => c,
            None => self.background_color.clone(),
        };
        let next = DockOptions {
            enabled,
            visible,
            monitor_id,
            icon_size: match patch.icon_size {
                Some(v) => v,
                None => self.icon_size,
            },
            background_color,
            width_mode: match patch.width_mode {
                Some(v) => v,
                None => self.width_mode,
            },
            spacing: match patch.spacing {
                Some(v) => v,
                None => self.spacing,
            },
            handle_position: match patch.handle_position {
                Some(v) => v,
                None => self.handle_position,
            },
            animation_mode: match patch.animation_mode {
                Some(v) => v,
                None => self.animation_mode,
            },
            performance_mode: performance,
            blur,
            shortcut_enabled: match patch.shortcut_enabled {
                Some(v) => v,
                None => self.shortcut_enabled,
            },
            shortcut: next_shortcut,
            hide_after_open: match patch.hide_after_open {
                Some(v) => v,
                None => self.hide_after_open,
            },
        };
        *self = next;
        Ok(())
    }

    /// Whether the change asks for a different global shortcut, or turns it
    /// on or off: the registered shortcut must then be replaced.
    pub fn shortcut_changes(&self, patch: &DockOptionsPatch) -> (r: bool)
        ensures
            r == (or_keep(patch.shortcut_enabled, self.shortcut_enabled) != self.shortcut_enabled
                || next_shortcut(self.shortcut@, *patch) != self.shortcut@),
    {
        let enabled = match patch.shortcut_enabled {
            Some(e) => e,
            None => self.shortcut_enabled,
        };
        let next = match &patch.shortcut {
            Some(s) => trim(s.as_str()),
            None => trim(self.shortcut.as_str()),
        };
        enabled != self.shortcut_enabled || !str_eq(next.as_str(), self.shortcut.as_str())
    }
}

pub open spec fn disabled_message() -> Seq<char> {
    "El Dock está desactivado"@
}

/// Showing or hiding the Dock; refused while it is turned off.
pub fn request_visibility(enabled: bool, visible: bool) -> (r: Result<bool, String>)
    ensures
        enabled ==> r == Ok::<bool, String>(visible),
        !enabled ==> (r matches Err(m) && m@ == disabled_message()),
{
    if !enabled {
        proof {
            reveal_strlit("El Dock está desactivado");
        }
        return Err("El Dock está desactivado".to_owned());
    }
    Ok(visible)
}

/// A click on the handle flips the Dock's visibility.
pub fn toggle_dock(enabled: bool, visible: bool) -> (r: Result<bool, String>)
    ensures
        enabled ==> r == Ok::<bool, String>(!visible),
        !enabled ==> (r matches Err(m) && m@ == disabled_message()),
{
    request_visibility(enabled, !visible)
}

} // verus!
