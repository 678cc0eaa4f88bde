//! The organizer's records, holding as plain values what its rules read.
//! Positions and sizes measured in floating point stay with the windows
//! layer; everything that identifies, orders or classifies lives here.
use vstd::prelude::*;

verus! {

pub const SCHEMA_VERSION: u32 = 9;

pub const DEFAULT_COLOR: &'static str = "#293548";

#[derive(Clone, Copy, Debug, PartialEq, Eq, Structural)]
pub enum DockItemKind {
    Shortcut,
    Separator,
}

#[derive(Clone, Copy, Debug, PartialEq, Eq, Structural)]
pub enum DockWidthMode {
    Automatic,
    Manual,
}

#[derive(Clone, Copy, Debug, PartialEq, Eq, Structural)]
pub enum DockSpacing {
    Compact,
    Normal,
    Wide,
}

#[derive(Clone, Copy, Debug, PartialEq, Eq, Structural)]
pub enum DockHandlePosition {
    Left,
    Center,
    Right,
}

#[derive(Clone, Copy, Debug, PartialEq, Eq, Structural)]
pub enum DockAnimationMode {
    Normal,
    Reduced,
    Disabled,
}

#[derive(Clone, Copy, Debug, PartialEq, Eq, Structural)]
pub enum IconSize {
    Small,
    Medium,
    Large,
}

#[derive(Clone, Copy, Debug, PartialEq, Eq, Structural)]
pub enum DrawerItemType {
    Folder,
    Executable,
    Shortcut,
    File,
}

#[derive(Clone, Copy, Debug, PartialEq, Eq, Structural)]
pub enum StorageMode {
    Managed,
    Linked,
}

#[derive(Clone, Copy, Debug, PartialEq, Eq, Structural)]
pub enum DrawerMode {
    Managed,
    LinkedFolder,
}

impl Default for DockItemKind {
    fn default() -> (r: Self)
        ensures
            r == DockItemKind::Shortcut,
    {
        DockItemKind::Shortcut
    }
}

impl Default for DockWidthMode {
    fn default() -> (r: Self)
        ensures
            r == DockWidthMode::Automatic,
    {
        DockWidthMode::Automatic
    }
}

impl Default for DockSpacing {
    fn default() -> (r: Self)
        ensures
            r == DockSpacing::Normal,
    {
        DockSpacing::Normal
    }
}

impl Default for DockHandlePosition {
    fn default() -> (r: Self)
        ensures
            r == DockHandlePosition::Center,
    {
        DockHandlePosition::Center
    }
}

impl Default for DockAnimationMode {
    fn default() -> (r: Self)
        ensures
            r == DockAnimationMode::Normal,
    {
        DockAnimationMode::Normal
    }
}

impl Default for IconSize {
    fn default() -> (r: Self)
        ensures
            r == IconSize::Medium,
    {
        IconSize::Medium
    }
}

impl Default for StorageMode {
    fn default() -> (r: Self)
        ensures
            r == StorageMode::Linked,
    {
        StorageMode::Linked
    }
}

impl Default for DrawerMode {
    fn default() -> (r: Self)
        ensures
            r == DrawerMode::Managed,
    {
        DrawerMode::Managed
    }
}

/// One element shown in a drawer: a file, folder or program kept in the
/// drawer's folder (`Managed`) or a reference to something elsewhere (`Linked`).
#[derive(Clone, Debug)]
pub struct DrawerItem {
    pub id: String,
    pub drawer_id: String,
    pub item_type: DrawerItemType,
    pub storage_mode: StorageMode,
    pub display_name: String,
    pub physical_name: String,
    pub path: String,
    pub icon_key: String,
    pub created_at: u64,
    pub order: u32,
    pub available: bool,
    pub container_path: String,
    pub is_subdrawer: bool,
}

/// One launcher of the Dock, or a separator between launchers.
#[derive(Clone, Debug)]
pub struct DockItem {
    pub id: String,
    pub kind: DockItemKind,
    pub item_type: DrawerItemType,
    pub display_name: String,
    pub path: String,
    pub icon_key: String,
    pub order: u32,
    pub available: bool,
    pub created_at: u64,
}

#[derive(Clone, Copy, Debug, PartialEq, Eq, Structural)]
pub struct Preferences {
    pub start_with_windows: bool,
    pub hide_admin_on_minimize: bool,
    pub start_silently: bool,
}

impl Default for Preferences {
    fn default() -> (r: Self)
        ensures
            r == (Preferences {
                start_with_windows: false,
                hide_admin_on_minimize: true,
                start_silently: true,
            }),
    {
        Preferences { start_with_windows: false, hide_admin_on_minimize: true, start_silently: true }
    }
}

#[derive(Clone, Copy, Debug, PartialEq, Eq, Structural)]
pub struct PreferencesPatch {
    pub start_with_windows: Option<bool>,
    pub hide_admin_on_minimize: Option<bool>,
    pub start_silently: Option<bool>,
}

impl Preferences {
    /// The preferences once `patch` is applied: each given value replaces
    /// the current one.
    pub fn patched(&self, patch: PreferencesPatch) -> (r: Preferences)
        ensures
            r.start_with_windows == (match patch.start_with_windows {
                Some(v) => v,
                None => self.start_with_windows,
            }),
            r.hide_admin_on_minimize == (match patch.hide_admin_on_minimize {
                Some(v) => v,
                None => self.hide_admin_on_minimize,
            }),
            r.start_silently == (match patch.start_silently {
                Some(v) => v,
                None => self.start_silently,
            }),
    {
        Preferences {
            start_with_windows: match patch.start_with_windows {
                Some(v) => v,
                None => self.start_with_windows,
            },
            hide_admin_on_minimize: match patch.hide_admin_on_minimize {
                Some(v) => v,
                None => self.hide_admin_on_minimize,
            },
            start_silently: match patch.start_silently {
                Some(v) => v,
                None => self.start_silently,
            },
        }
    }

    /// An import takes the window preferences of the imported state and
    /// keeps the local start-with-Windows choice.
    pub fn merged_with_import(&self, imported: &Preferences) -> (r: Preferences)
        ensures
            r == (Preferences {
                start_with_windows: self.start_with_windows,
                hide_admin_on_minimize: imported.hide_admin_on_minimize,
                start_silently: imported.start_silently,
            }),
    {
        Preferences {
            start_with_windows: self.start_with_windows,
            hide_admin_on_minimize: imported.hide_admin_on_minimize,
            start_silently: imported.start_silently,
        }
    }
}

#[derive(Clone, Debug)]
pub struct DrawerBreadcrumb {
    pub name: String,
    pub relative_path: String,
}

#[derive(Clone, Debug)]
pub struct DrawerLevel {
    pub root_drawer_id: String,
    pub relative_path: String,
    pub folder_path: String,
    pub breadcrumbs: Vec<DrawerBreadcrumb>,
    pub items: Vec<DrawerItem>,
}

} // verus!

verus! {

impl DrawerItem {
    /// A field-by-field copy.
    pub fn duplicate(&self) -> (r: Self)
        ensures
            r == *self,
    {
        DrawerItem {
            id: self.id.clone(),
            drawer_id: self.drawer_id.clone(),
            item_type: self.item_type,
            storage_mode: self.storage_mode,
            display_name: self.display_name.clone(),
            physical_name: self.physical_name.clone(),
            path: self.path.clone(),
            icon_key: self.icon_key.clone(),
            created_at: self.created_at,
            order: self.order,
            available: self.available,
            container_path: self.container_path.clone(),
            is_subdrawer: self.is_subdrawer,
        }
    }
}

impl DockItem {
    /// A field-by-field copy.
    pub fn duplicate(&self) -> (r: Self)
        ensures
            r == *self,
    {
        DockItem {
            id: self.id.clone(),
            kind: self.kind,
            item_type: self.item_type,
            display_name: self.display_name.clone(),
            path: self.path.clone(),
            icon_key: self.icon_key.clone(),
            order: self.order,
            available: self.available,
            created_at: self.created_at,
        }
    }
}

} // verus!
