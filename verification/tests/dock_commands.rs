use desktop_organizer::dock::{
    add_dock_separator, dock_item, ensure_shortcut, find_dock_item, next_order,
    remove_dock_item, rename_dock_item, reorder_dock_items, resequence, set_dock_availability,
};
use desktop_organizer::dock_settings::{request_visibility, toggle_dock, DockOptions, DockOptionsPatch};
use desktop_organizer::model::{
    DockAnimationMode, DockHandlePosition, DockItem, DockItemKind, DockSpacing, DockWidthMode,
    DrawerItemType, IconSize,
};

fn launcher(id: &str, order: u32) -> DockItem {
    DockItem {
        id: id.to_owned(),
        kind: DockItemKind::Shortcut,
        item_type: DrawerItemType::File,
        display_name: id.to_uppercase(),
        path: format!("C:\\Dock\\{id}.lnk"),
        icon_key: String::new(),
        order,
        available: true,
        created_at: 1,
    }
}

fn ids(items: &[DockItem]) -> Vec<&str> {
    items.iter().map(|item| item.id.as_str()).collect()
}

#[test]
fn new_launchers_go_after_the_highest_order() {
    assert_eq!(next_order(&Vec::new()), 0);
    assert_eq!(next_order(&vec![launcher("a", 3), launcher("b", 9), launcher("c", 1)]), 10);
    assert_eq!(next_order(&vec![launcher("a", u32::MAX)]), u32::MAX);
}

#[test]
fn reordering_follows_the_requested_ids_and_renumbers() {
    let mut items = vec![launcher("a", 0), launcher("b", 1), launcher("c", 2)];
    let order = vec!["c".to_owned(), "a".to_owned(), "b".to_owned()];
    reorder_dock_items(&mut items, &order).expect("same ids should reorder");
    assert_eq!(ids(&items), vec!["c", "a", "b"]);
    assert_eq!(items.iter().map(|i| i.order).collect::<Vec<_>>(), vec![0, 1, 2]);
}

#[test]
fn reordering_with_other_ids_is_refused_and_changes_nothing() {
    let mut items = vec![launcher("a", 4), launcher("b", 7)];
    let order = vec!["a".to_owned(), "x".to_owned()];
    assert_eq!(
        reorder_dock_items(&mut items, &order).unwrap_err(),
        "El nuevo orden no coincide con los accesos del Dock"
    );
    assert_eq!(ids(&items), vec!["a", "b"]);
    assert_eq!(items[1].order, 7);
    let missing = vec!["a".to_owned()];
    assert!(reorder_dock_items(&mut items, &missing).is_err());
}

#[test]
fn removing_a_launcher_renumbers_the_rest() {
    let mut items = vec![launcher("a", 5), launcher("b", 8), launcher("c", 9)];
    remove_dock_item(&mut items, "b").expect("b is in the dock");
    assert_eq!(ids(&items), vec!["a", "c"]);
    assert_eq!(items[1].order, 1);
    assert_eq!(
        remove_dock_item(&mut items, "b").unwrap_err(),
        "Ese acceso ya no está en el Dock"
    );
    assert_eq!(ids(&items), vec!["a", "c"]);
}

#[test]
fn renaming_trims_and_bounds_the_visible_name() {
    let mut items = vec![launcher("a", 0)];
    rename_dock_item(&mut items, "a", "  Editor  ").expect("valid name");
    assert_eq!(items[0].display_name, "Editor");
    assert_eq!(
        rename_dock_item(&mut items, "a", "   ").unwrap_err(),
        "El nombre visual debe tener entre 1 y 80 caracteres"
    );
    assert_eq!(
        rename_dock_item(&mut items, "zz", "Otro").unwrap_err(),
        "Ese elemento ya no está en el Dock"
    );
    assert_eq!(items[0].display_name, "Editor");
}

#[test]
fn separators_are_appended_and_refuse_to_open() {
    let mut items = vec![launcher("a", 4)];
    add_dock_separator(&mut items, 77, 0x0123456789abcdef0123456789abcdef);
    let separator = &items[1];
    assert_eq!(separator.kind, DockItemKind::Separator);
    assert_eq!(separator.display_name, "Separador");
    assert_eq!(separator.order, 5);
    assert_eq!(separator.created_at, 77);
    assert_eq!(separator.id, "01234567-89ab-4def-8123-456789abcdef");
    assert_eq!(
        ensure_shortcut(separator).unwrap_err(),
        "Los separadores no ejecutan ninguna acción"
    );
    assert!(ensure_shortcut(&items[0]).is_ok());
}

#[test]
fn lookups_and_availability_use_the_first_matching_id() {
    let mut items = vec![launcher("a", 0), launcher("b", 1)];
    assert_eq!(find_dock_item(&items, "b"), Some(1));
    assert_eq!(find_dock_item(&items, "x"), None);
    assert_eq!(dock_item(&items, "a").expect("present").id, "a");
    assert_eq!(dock_item(&items, "x").unwrap_err(), "Ese acceso ya no está en el Dock");
    set_dock_availability(&mut items, "b", false);
    assert!(!items[1].available);
    set_dock_availability(&mut items, "x", false);
    assert!(items[0].available);
}

#[test]
fn resequencing_numbers_from_zero() {
    let mut items = vec![launcher("a", 40), launcher("b", 2)];
    resequence(&mut items);
    assert_eq!(items.iter().map(|i| i.order).collect::<Vec<_>>(), vec![0, 1]);
}

fn options() -> DockOptions {
    DockOptions {
        enabled: true,
        visible: true,
        monitor_id: "DISPLAY1@0,0".to_owned(),
        icon_size: IconSize::Medium,
        background_color: "#10141E".to_owned(),
        width_mode: DockWidthMode::Automatic,
        spacing: DockSpacing::Normal,
        handle_position: DockHandlePosition::Center,
        animation_mode: DockAnimationMode::Normal,
        performance_mode: false,
        blur: true,
        shortcut_enabled: false,
        shortcut: "Ctrl+Alt+D".to_owned(),
        hide_after_open: false,
    }
}

fn empty_patch() -> DockOptionsPatch {
    DockOptionsPatch {
        enabled: None,
        monitor_id: None,
        icon_size: None,
        background_color: None,
        width_mode: None,
        spacing: None,
        handle_position: None,
        animation_mode: None,
        performance_mode: None,
        blur: None,
        shortcut_enabled: None,
        shortcut: None,
        hide_after_open: None,
    }
}

#[test]
fn disabling_the_dock_also_hides_it_and_performance_mode_drops_blur() {
    let mut dock = options();
    let mut patch = empty_patch();
    patch.enabled = Some(false);
    patch.performance_mode = Some(true);
    patch.background_color = Some(" #abcdef ".to_owned());
    patch.shortcut = Some("  Ctrl+Shift+K ".to_owned());
    dock.apply_patch(patch).expect("valid patch");
    assert!(!dock.enabled);
    assert!(!dock.visible);
    assert!(!dock.blur);
    assert_eq!(dock.background_color, "#ABCDEF");
    assert_eq!(dock.shortcut, "Ctrl+Shift+K");
}

#[test]
fn an_invalid_color_refuses_the_whole_change() {
    let mut dock = options();
    let mut patch = empty_patch();
    patch.enabled = Some(false);
    patch.background_color = Some("#12".to_owned());
    assert_eq!(
        dock.apply_patch(patch).unwrap_err(),
        "El color del Dock debe tener formato #RRGGBB"
    );
    assert!(dock.enabled);
    assert_eq!(dock.background_color, "#10141E");
}

#[test]
fn shortcut_changes_are_detected_after_trimming() {
    let dock = options();
    let mut same = empty_patch();
    same.shortcut = Some(" Ctrl+Alt+D ".to_owned());
    assert!(!dock.shortcut_changes(&same));
    let mut toggled = empty_patch();
    toggled.shortcut_enabled = Some(true);
    assert!(dock.shortcut_changes(&toggled));
}

#[test]
fn a_disabled_dock_cannot_be_shown_or_toggled() {
    assert_eq!(toggle_dock(true, false), Ok(true));
    assert_eq!(request_visibility(true, false), Ok(false));
    assert_eq!(toggle_dock(false, false).unwrap_err(), "El Dock está desactivado");
    assert!(request_visibility(false, true).is_err());
}

use desktop_organizer::dock::DockAddBatch;

#[test]
fn a_batch_of_dock_paths_skips_repeats_and_numbers_new_launchers() {
    let mut items = vec![launcher("a", 2)];
    let mut batch = DockAddBatch::new(&items);
    assert_eq!(batch.order, 3);
    assert_eq!(DockAddBatch::trimmed_source("   "), None);
    assert_eq!(DockAddBatch::trimmed_source(" C:\\x.txt ").as_deref(), Some("C:\\x.txt"));
    assert!(!batch.repeat("C:/Datos/X.txt"));
    assert!(batch.repeat("c:\\datos\\x.TXT"));
    assert_eq!(batch.duplicates, 1);
    batch.add("Nota".to_owned(), "C:\\Dock\\nota.txt", false, 8, 0);
    batch.fail("Z:\\no".to_owned(), "Windows no pudo leer el elemento".to_owned());
    assert_eq!(batch.order, 4);
    let added = batch.finish(&mut items);
    assert_eq!(added, 1);
    assert_eq!(items[1].order, 3);
    assert_eq!(items[1].display_name, "Nota");
    assert_eq!(items[1].id, "00000000-0000-4000-8000-000000000000");
}

#[test]
fn new_separators_get_random_uuids() {
    let mut items = Vec::new();
    add_dock_separator(&mut items, 1, uuid::Uuid::new_v4().as_u128());
    add_dock_separator(&mut items, 2, u128::MAX);
    for item in &items {
        let id: Vec<char> = item.id.chars().collect();
        assert_eq!(id.len(), 36);
        for (i, c) in id.iter().enumerate() {
            if [8, 13, 18, 23].contains(&i) {
                assert_eq!(*c, '-');
            } else {
                assert!(c.is_ascii_hexdigit() && !c.is_ascii_uppercase());
            }
        }
        assert_eq!(id[14], '4');
        assert!(['8', '9', 'a', 'b'].contains(&id[19]));
    }
    assert_ne!(items[0].id, items[1].id);
    assert_eq!(items[1].id, "ffffffff-ffff-4fff-bfff-ffffffffffff");
}
