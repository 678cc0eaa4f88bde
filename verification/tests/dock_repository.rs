use desktop_organizer::dock_folder::{
    check_metadata_version, is_direct_dock_entry, is_dock_internal_file_name, materialize_plan,
    metadata_from_state, rebuild_dock, record_source, restore_to_desktop, sanitize_shortcut_name,
    DockDiskEntry, DockRecord, Placement, RecordSource,
};
use desktop_organizer::model::{DockItem, DockItemKind, DrawerItemType};

const DOCK: &str = "C:\\Users\\Ana\\Documents\\Desktop Organizer\\Dock - Accesos";
const DESKTOP: &str = "C:\\Users\\Ana\\Desktop";

fn entry(name: &str) -> DockDiskEntry {
    DockDiskEntry { name: name.to_owned(), path: format!("{DOCK}\\{name}"), is_dir: false }
}

fn record(id: &str, name: Option<&str>, order: u32) -> DockRecord {
    DockRecord {
        id: id.to_owned(),
        kind: DockItemKind::Shortcut,
        physical_name: name.map(str::to_owned),
        display_name: name.unwrap_or("Separador").to_owned(),
        order,
        created_at: 5,
    }
}

#[test]
fn folder_contents_rebuild_the_dock_and_keep_metadata_order() {
    let entries = vec![entry("Primero.txt"), entry("Segundo.txt")];
    let first = rebuild_dock(&Vec::new(), &Vec::new(), &entries, DOCK, 10, &vec![1, 2]);
    assert_eq!(first.len(), 2);
    assert_eq!(first[0].display_name, "Primero.txt");
    let mut reversed = first.clone();
    reversed.reverse();
    for (index, item) in reversed.iter_mut().enumerate() {
        item.order = index as u32;
    }
    let records = metadata_from_state(&reversed, DOCK);
    let recovered = rebuild_dock(&records, &Vec::new(), &entries, DOCK, 20, &vec![3, 4]);
    assert_eq!(recovered[0].display_name, "Segundo.txt");
    assert_eq!(recovered[1].display_name, "Primero.txt");
    assert_eq!(recovered[0].id, reversed[0].id);
}

#[test]
fn separators_survive_folder_recovery() {
    let mut separator = record("sep-1", None, 0);
    separator.kind = DockItemKind::Separator;
    let rebuilt = rebuild_dock(&vec![separator], &Vec::new(), &Vec::new(), DOCK, 20, &Vec::new());
    assert_eq!(rebuilt.len(), 1);
    assert_eq!(rebuilt[0].kind, DockItemKind::Separator);
    assert_eq!(rebuilt[0].id, "sep-1");
    assert_eq!(rebuilt[0].display_name, "Separador");
}

#[test]
fn files_found_by_name_ignoring_case_and_new_files_come_last_by_name() {
    let records = vec![record("b", Some("B.TXT"), 3), record("gone", Some("gone.txt"), 1)];
    let entries = vec![entry("zeta.txt"), entry("b.txt"), entry("Alfa.exe")];
    let rebuilt = rebuild_dock(&records, &Vec::new(), &entries, DOCK, 99, &vec![5, 6, 7]);
    let names: Vec<&str> = rebuilt.iter().map(|i| i.display_name.as_str()).collect();
    assert_eq!(names, vec!["B.TXT", "Alfa", "zeta.txt"]);
    assert_eq!(rebuilt[0].id, "b");
    assert_eq!(rebuilt[1].item_type, DrawerItemType::Executable);
    assert_eq!(rebuilt[2].created_at, 99);
    assert_eq!(rebuilt[2].id, "00000000-0000-4000-8000-000000000005");
    assert_eq!(rebuilt[1].id, "00000000-0000-4000-8000-000000000007");
    assert_eq!(rebuilt.iter().map(|i| i.order).collect::<Vec<_>>(), vec![0, 1, 2]);
}

#[test]
fn launchers_outside_the_folder_are_kept_from_the_current_list() {
    let legacy = DockItem {
        id: "old".to_owned(),
        kind: DockItemKind::Shortcut,
        item_type: DrawerItemType::Executable,
        display_name: "Viejo".to_owned(),
        path: "D:\\Apps\\viejo.exe".to_owned(),
        icon_key: "v1-x".to_owned(),
        order: 0,
        available: true,
        created_at: 1,
    };
    let records = vec![record("old", None, 0)];
    let rebuilt = rebuild_dock(&records, &vec![legacy], &Vec::new(), DOCK, 2, &Vec::new());
    assert_eq!(rebuilt.len(), 1);
    assert_eq!(rebuilt[0].path, "D:\\Apps\\viejo.exe");
}

#[test]
fn direct_entries_are_children_of_the_dock_folder() {
    assert!(is_direct_dock_entry(&format!("{DOCK}\\nota.txt"), DOCK));
    assert!(!is_direct_dock_entry(&format!("{DOCK}\\sub\\nota.txt"), DOCK));
    assert!(!is_direct_dock_entry("C:\\Otro\\nota.txt", DOCK));
}

#[test]
fn metadata_records_physical_names_only_for_direct_entries() {
    let mut separator = DockItem {
        id: "s".to_owned(),
        kind: DockItemKind::Separator,
        item_type: DrawerItemType::File,
        display_name: "Separador".to_owned(),
        path: String::new(),
        icon_key: String::new(),
        order: 1,
        available: true,
        created_at: 1,
    };
    let mut inside = separator.clone();
    inside.id = "i".to_owned();
    inside.kind = DockItemKind::Shortcut;
    inside.path = format!("{DOCK}\\nota.txt");
    separator.order = 0;
    let records = metadata_from_state(&vec![separator, inside], DOCK);
    assert_eq!(records[0].physical_name, None);
    assert_eq!(records[1].physical_name.as_deref(), Some("nota.txt"));
    assert!(check_metadata_version(1).is_ok());
    assert_eq!(
        check_metadata_version(2).unwrap_err(),
        "La metadata del Dock usa una versión más nueva"
    );
}

#[test]
fn desktop_item_moves_into_dock_and_can_be_restored() {
    let source = format!("{DESKTOP}\\nota.txt");
    match materialize_plan(&source, "nota.txt", DOCK, DESKTOP).expect("plan") {
        Placement::Move(destination) => assert_eq!(destination, format!("{DOCK}\\nota.txt")),
        _ => panic!("a Desktop element moves into the Dock folder"),
    }
    let item = DockItem {
        id: "n".to_owned(),
        kind: DockItemKind::Shortcut,
        item_type: DrawerItemType::File,
        display_name: "nota.txt".to_owned(),
        path: format!("{DOCK}\\nota.txt"),
        icon_key: String::new(),
        order: 0,
        available: true,
        created_at: 1,
    };
    assert_eq!(
        restore_to_desktop(&item, true, DOCK, DESKTOP),
        Ok(Some(format!("{DESKTOP}\\nota.txt")))
    );
    assert_eq!(restore_to_desktop(&item, false, DOCK, DESKTOP), Ok(None));
}

#[test]
fn external_file_becomes_a_real_shortcut_without_moving_the_source() {
    match materialize_plan("D:\\External\\programa.exe", "Programa", DOCK, DESKTOP).expect("plan") {
        Placement::Shortcut(destination) => {
            assert_eq!(destination, format!("{DOCK}\\Programa.lnk"));
        }
        _ => panic!("an external program gets a new shortcut"),
    }
    match materialize_plan("D:\\External\\App.URL", "App", DOCK, DESKTOP).expect("plan") {
        Placement::Copy(destination) => assert_eq!(destination, format!("{DOCK}\\App.URL")),
        _ => panic!("an existing shortcut is copied"),
    }
    assert!(matches!(
        materialize_plan(&format!("{DOCK}\\ya.lnk"), "ya", DOCK, DESKTOP),
        Ok(Placement::Keep)
    ));
}

#[test]
fn shortcut_names_are_safe_and_bounded() {
    assert_eq!(sanitize_shortcut_name("  a/b:c  "), "a_b_c");
    assert_eq!(sanitize_shortcut_name(" .. "), "Acceso");
    assert_eq!(sanitize_shortcut_name(&"x".repeat(90)).len(), 80);
}

#[test]
fn dock_bookkeeping_files_are_recognized() {
    assert!(is_dock_internal_file_name(".DOCK.json"));
    assert!(is_dock_internal_file_name(".dock.json.abc.tmp"));
    assert!(is_dock_internal_file_name(".desktop-organizer-transfer-1"));
    assert!(!is_dock_internal_file_name("dock.json"));
}

#[test]
fn damaged_dock_metadata_is_set_aside_but_newer_metadata_is_left_alone() {
    assert!(matches!(record_source(&Ok(Some(Vec::new()))), RecordSource::Recorded));
    assert!(matches!(record_source(&Ok(None)), RecordSource::Derived));
    let damaged = Err("La metadata del Dock no es válida: EOF".to_owned());
    match record_source(&damaged) {
        RecordSource::ArchiveThenDerive(error) => {
            assert_eq!(error, "La metadata del Dock no es válida: EOF")
        }
        other => panic!("unexpected {other:?}"),
    }
    let newer = check_metadata_version(99).map(|_| None);
    match record_source(&newer) {
        RecordSource::Refuse(error) => {
            assert_eq!(error, "La metadata del Dock usa una versión más nueva")
        }
        other => panic!("unexpected {other:?}"),
    }
}
