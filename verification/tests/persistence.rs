use desktop_organizer::model::{DockItem, DockItemKind, DrawerItem, DrawerItemType, StorageMode, SCHEMA_VERSION};
use desktop_organizer::persistence::{
    backup_file_name, check_backup_name, corrupt_save_file_name, is_backup_file_name,
    is_corrupt_save_name, is_windows_absolute, backups_to_prune, repair_dock_items,
    repair_drawer_items, repaired_drawer_name, backup_search_order, backup_search_outcome,
    kept_ids, load_step, BackupInfo, LoadAction, LoadEvent, LoadSource, PersistenceService, SchemaDefault,
    MAX_BACKUPS,
};

#[test]
fn rejects_configuration_from_a_newer_schema() {
    let error = match PersistenceService::migration_plan(Some(SCHEMA_VERSION as u64 + 1)) {
        Ok(_) => panic!("future schemas must not be imported silently"),
        Err(error) => error,
    };
    assert!(error.contains("admite hasta"));
    assert_eq!(
        error,
        format!("El estado usa el esquema {}, pero esta versión admite hasta el esquema {}", SCHEMA_VERSION + 1, SCHEMA_VERSION)
    );
}

#[test]
fn every_previous_schema_migrates_directly_to_the_current_schema() {
    for version in 1..SCHEMA_VERSION {
        let steps = PersistenceService::migration_plan(Some(version as u64))
            .unwrap_or_else(|error| panic!("schema {version} should migrate: {error}"));
        assert_eq!(steps.len() as u32, SCHEMA_VERSION - version);
        assert_eq!(steps.last().map(|step| step.from + 1), Some(SCHEMA_VERSION));
    }
}

#[test]
fn migrations_add_the_sections_each_schema_introduced() {
    let steps = PersistenceService::migration_plan(None).expect("a file without schema is schema 1");
    assert_eq!(steps.len() as u32, SCHEMA_VERSION - 1);
    let added: Vec<(u32, String, SchemaDefault)> = steps
        .iter()
        .filter_map(|step| step.ensure.as_ref().map(|(key, value)| (step.from, key.clone(), *value)))
        .collect();
    assert_eq!(added[0], (1, "preferences".to_owned(), SchemaDefault::EmptyObject));
    assert!(added.contains(&(4, "dock".to_owned(), SchemaDefault::EmptyObject)));
    assert!(added.contains(&(6, "panels".to_owned(), SchemaDefault::EmptyArray)));
    assert!(PersistenceService::migration_plan(Some(SCHEMA_VERSION as u64)).expect("current").is_empty());
    assert_eq!(
        PersistenceService::migration_step(0).err().as_deref(),
        Some("No existe una migración desde el esquema 0")
    );
}

#[test]
fn backup_names_are_checked_before_any_file_is_touched() {
    assert!(is_backup_file_name("desktop-organizer-save-v1.1.3-10-abc.json"));
    assert!(!is_backup_file_name("desktop-organizer-save-corrupt-10-abc.json"));
    assert!(check_backup_name("desktop-organizer-save-v1-2-3.json").is_ok());
    assert_eq!(
        check_backup_name("..\\desktop-organizer-save-v1.json").unwrap_err(),
        "El nombre del backup no es válido"
    );
    assert!(check_backup_name("").is_err());
    assert!(check_backup_name("desktop-organizer-save-v1.txt").is_err());
    assert_eq!(
        backup_file_name("1.1.3", 1700, "id"),
        "desktop-organizer-save-v1.1.3-1700-id.json"
    );
    assert_eq!(corrupt_save_file_name(9, "x"), "desktop-organizer-save-corrupt-9-x.json");
    assert!(is_corrupt_save_name("desktop-organizer-save-corrupt-9-x.json"));
}

#[test]
fn pruning_keeps_only_the_newest_names() {
    let names: Vec<String> = (0..10).map(|i| format!("desktop-organizer-save-v1-{i:02}.json")).collect();
    let pruned = backups_to_prune(&names, MAX_BACKUPS);
    assert_eq!(pruned, vec!["desktop-organizer-save-v1-01.json", "desktop-organizer-save-v1-00.json"]);
    let few = vec!["b".to_owned(), "a".to_owned()];
    assert_eq!(backups_to_prune(&few, 1), vec!["a"]);
    assert_eq!(backups_to_prune(&few, 5), Vec::<String>::new());
}

fn backup(name: &str, created_at: u64) -> BackupInfo {
    BackupInfo { file_name: name.to_owned(), created_at, size: 1, schema_version: Some(9), valid: true }
}

#[test]
fn backups_are_listed_newest_first() {
    let listed = PersistenceService::list_backups(vec![backup("a", 5), backup("b", 9), backup("c", 5)]);
    let names: Vec<&str> = listed.iter().map(|b| b.file_name.as_str()).collect();
    assert_eq!(names, vec!["b", "a", "c"]);
    assert_eq!(
        PersistenceService::create_backup_now(false, &None, None).unwrap_err(),
        "Todavía no existe una configuración guardada para respaldar"
    );
    assert_eq!(
        PersistenceService::create_backup_now(true, &None, Some(backup("x", 1))).expect("ok").file_name,
        "x"
    );
}

#[test]
fn an_invalid_master_save_is_never_backed_up() {
    let error = Some("JSON inválido".to_owned());
    assert_eq!(
        PersistenceService::check_master_for_backup(true, &error).unwrap_err(),
        "El guardado maestro actual no es válido y no se reemplazó: JSON inválido"
    );
    assert_eq!(
        PersistenceService::create_backup_now(true, &error, Some(backup("x", 1))).unwrap_err(),
        "El guardado maestro actual no es válido y no se reemplazó: JSON inválido"
    );
    assert!(PersistenceService::check_master_for_backup(false, &None).is_err());
    assert!(PersistenceService::check_master_for_backup(true, &None).is_ok());
}

fn dock_item(id: &str, path: &str) -> DockItem {
    DockItem {
        id: id.to_owned(),
        kind: DockItemKind::Shortcut,
        item_type: DrawerItemType::File,
        display_name: id.to_owned(),
        path: path.to_owned(),
        icon_key: String::new(),
        order: 0,
        available: true,
        created_at: 0,
    }
}

#[test]
fn repair_drops_blank_and_repeated_ids_and_flags_relative_paths() {
    let mut items = vec![
        dock_item("a", "C:\\a.exe"),
        dock_item("  ", "C:\\b.exe"),
        dock_item("a", "C:\\c.exe"),
        dock_item("d", "relativo.exe"),
    ];
    repair_dock_items(&mut items);
    assert_eq!(items.len(), 2);
    assert_eq!(items[0].path, "C:\\a.exe");
    assert!(items[0].available);
    assert_eq!(items[1].id, "d");
    assert!(!items[1].available);
}

#[test]
fn drawer_repairs_follow_the_same_rules() {
    let item = |id: &str, path: &str| DrawerItem {
        id: id.to_owned(),
        drawer_id: "d".to_owned(),
        item_type: DrawerItemType::File,
        storage_mode: StorageMode::Linked,
        display_name: id.to_owned(),
        physical_name: id.to_owned(),
        path: path.to_owned(),
        icon_key: String::new(),
        created_at: 0,
        order: 0,
        available: true,
        container_path: String::new(),
        is_subdrawer: false,
    };
    let mut items = vec![item("x", "\\\\server\\share\\f.txt"), item("x", "C:\\g.txt"), item("", "C:\\h")];
    repair_drawer_items(&mut items);
    assert_eq!(items.len(), 1);
    assert!(items[0].available);
    assert_eq!(repaired_drawer_name("  "), "Cajón recuperado");
    assert_eq!(repaired_drawer_name("Fotos"), "Fotos");
}

#[test]
fn windows_absolute_paths_need_a_drive_root_or_a_share() {
    assert!(is_windows_absolute("C:\\x"));
    assert!(is_windows_absolute("d:/x"));
    assert!(is_windows_absolute("\\\\server\\share"));
    assert!(!is_windows_absolute("C:x"));
    assert!(!is_windows_absolute("\\x"));
    assert!(!is_windows_absolute(""));
}

#[test]
fn an_older_master_save_is_backed_up_before_it_loads() {
    let older = LoadEvent::Started { master_exists: true, master_schema: Some(SCHEMA_VERSION - 1) };
    assert!(matches!(load_step(&older), LoadAction::BackUpMaster));
    let current = LoadEvent::Started { master_exists: true, master_schema: Some(SCHEMA_VERSION) };
    assert!(matches!(load_step(&current), LoadAction::LoadMaster));
    let unreadable = LoadEvent::Started { master_exists: true, master_schema: None };
    assert!(matches!(load_step(&unreadable), LoadAction::LoadMaster));
    let missing = LoadEvent::Started { master_exists: false, master_schema: None };
    assert!(matches!(load_step(&missing), LoadAction::FindLegacy));
    match load_step(&LoadEvent::MasterBackedUp { error: Some("sin espacio".to_owned()) }) {
        LoadAction::Fail(message) => assert_eq!(message, "sin espacio"),
        other => panic!("unexpected {other:?}"),
    }
}

#[test]
fn a_damaged_master_save_falls_back_to_the_newest_backup() {
    match load_step(&LoadEvent::MasterLoaded { error: Some("JSON inválido".to_owned()) }) {
        LoadAction::SearchBackups(error) => assert_eq!(error, "JSON inválido"),
        other => panic!("unexpected {other:?}"),
    }
    let found = LoadEvent::BackupsSearched { master_error: "JSON inválido".to_owned(), error: None };
    assert!(matches!(load_step(&found), LoadAction::RestoreMaster));
    let none = LoadEvent::BackupsSearched {
        master_error: "JSON inválido".to_owned(),
        error: Some("no hay copias".to_owned()),
    };
    match load_step(&none) {
        LoadAction::Fail(message) => assert_eq!(
            message,
            "El guardado maestro no es válido (JSON inválido) y no se encontró una copia reciente utilizable (no hay copias). No se sobrescribió ningún archivo."
        ),
        other => panic!("unexpected {other:?}"),
    }
    match load_step(&LoadEvent::MasterRestored { result: Ok("B\\corrupt.json".to_owned()) }) {
        LoadAction::Finish(LoadSource::LatestBackup, Some(notice)) => assert_eq!(
            notice,
            "Se recuperó la configuración desde el backup más reciente. El save dañado se conservó en B\\corrupt.json."
        ),
        other => panic!("unexpected {other:?}"),
    }
    assert!(matches!(
        load_step(&LoadEvent::MasterLoaded { error: None }),
        LoadAction::Finish(LoadSource::Master, None)
    ));
}

#[test]
fn earlier_configuration_files_are_read_without_being_touched() {
    assert!(matches!(
        load_step(&LoadEvent::LegacyFound { path: None }),
        LoadAction::Finish(LoadSource::Fresh, None)
    ));
    match load_step(&LoadEvent::LegacyFound { path: Some("state.json".to_owned()) }) {
        LoadAction::LoadLegacy(path) => assert_eq!(path, "state.json"),
        other => panic!("unexpected {other:?}"),
    }
    match load_step(&LoadEvent::LegacyLoaded { path: "state.json".to_owned(), error: None }) {
        LoadAction::Finish(LoadSource::Legacy, Some(notice)) => {
            assert_eq!(notice, "Se recuperó una configuración anterior desde state.json.")
        }
        other => panic!("unexpected {other:?}"),
    }
    match load_step(&LoadEvent::LegacyLoaded {
        path: "state.json".to_owned(),
        error: Some("campo faltante".to_owned()),
    }) {
        LoadAction::Fail(message) => assert_eq!(
            message,
            "No se pudo migrar la configuración anterior state.json: campo faltante. El archivo se conservó intacto."
        ),
        other => panic!("unexpected {other:?}"),
    }
}

#[test]
fn backups_are_tried_by_name_newest_first() {
    let names = vec![
        "desktop-organizer-save-v1.1.3-100-a.json".to_owned(),
        "desktop-organizer-save-v1.1.3-300-b.json".to_owned(),
        "desktop-organizer-save-v1.1.3-200-c.json".to_owned(),
    ];
    assert_eq!(
        backup_search_order(&names),
        vec![
            "desktop-organizer-save-v1.1.3-300-b.json",
            "desktop-organizer-save-v1.1.3-200-c.json",
            "desktop-organizer-save-v1.1.3-100-a.json",
        ]
    );
    assert_eq!(backup_search_outcome(&vec![]), Some("no hay copias".to_owned()));
    assert_eq!(
        backup_search_outcome(&vec![Some("a".to_owned()), Some("b".to_owned())]),
        Some("b".to_owned())
    );
    assert_eq!(backup_search_outcome(&vec![Some("a".to_owned()), None]), None);
}

#[test]
fn repair_keeps_the_first_drawer_of_each_id() {
    let ids: Vec<String> = ["a", " ", "b", "a", "", "c", "b"].iter().map(|s| s.to_string()).collect();
    assert_eq!(kept_ids(&ids), vec![true, false, true, false, false, true, false]);
}
