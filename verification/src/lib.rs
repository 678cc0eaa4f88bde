//! Desktop Organizer's storage and organization rules, verified.

pub mod autostart;
pub mod digest;
pub mod dock;
pub mod dock_folder;
pub mod dock_settings;
pub mod drawer_items;
pub mod drawer_sync;
pub mod icons;
pub mod ids;
pub mod import;
pub mod items;
pub mod levels;
pub mod logs;
pub mod maintenance;
pub mod model;
pub mod monitors;
pub mod order_map;
pub mod paths;
pub mod persistence;
pub mod shell;
pub mod sorting;
pub mod storage;
pub mod text;
pub mod tray;
pub mod validation;
pub mod windows;
