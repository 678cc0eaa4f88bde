use desktop_organizer::storage::{
    corrupt_metadata_name, recovery_order, safe_move_step, MoveAction, MoveEvent,
    RecoveredDrawerSeed, StorageService,
};

#[test]
fn windows_folder_names_reject_reserved_and_unsafe_values() {
    for invalid in ["", " CON", "CON", "nul.txt", "fin.", "a/b", "a:b", "cola "] {
        assert!(StorageService::validate_windows_folder_name(invalid).is_err());
    }
    assert!(StorageService::validate_windows_folder_name("Clientes 2026").is_ok());
}

#[test]
fn reserved_device_names_are_recognized_without_case() {
    for reserved in ["com1", "LPT9", "Aux", "prn.log"] {
        assert!(StorageService::validate_windows_folder_name(reserved).is_err());
    }
    for allowed in ["COM10", "LPT0", "console", "auxiliar"] {
        assert!(StorageService::validate_windows_folder_name(allowed).is_ok());
    }
}

use desktop_organizer::storage::{
    drawer_folder_candidate, join_path, sanitize_folder_name, DrawerMetadata,
};

#[test]
fn drawer_names_become_safe_folder_names() {
    assert_eq!(sanitize_folder_name("  Fotos: 2026?  "), "Fotos_ 2026_");
    assert_eq!(sanitize_folder_name(" ... "), "Cajón");
    assert_eq!(sanitize_folder_name("con"), "con - Cajón");
    assert_eq!(sanitize_folder_name("NUL.txt"), "NUL.txt - Cajón");
    assert_eq!(sanitize_folder_name(".Trabajo."), "Trabajo");
}

#[test]
fn folder_candidates_number_from_two() {
    assert_eq!(drawer_folder_candidate("VIDEO", 1), "VIDEO");
    assert_eq!(drawer_folder_candidate("VIDEO", 2), "VIDEO (2)");
    assert_eq!(drawer_folder_candidate("VIDEO", 10000), "VIDEO (10000)");
}

#[test]
fn the_layout_lives_under_documents() {
    let paths = StorageService::layout("C:\\Users\\Ana\\Documents", "C:\\Users\\Ana\\Desktop");
    assert_eq!(paths.root, "C:\\Users\\Ana\\Documents\\Desktop Organizer");
    assert_eq!(paths.drawers, "C:\\Users\\Ana\\Documents\\Desktop Organizer\\Cajones");
    assert_eq!(paths.dock, "C:\\Users\\Ana\\Documents\\Desktop Organizer\\Dock - Accesos");
    assert_eq!(paths.backups, "C:\\Users\\Ana\\Documents\\Desktop Organizer\\Backups");
    assert_eq!(
        paths.master_save,
        "C:\\Users\\Ana\\Documents\\Desktop Organizer\\desktop-organizer-save.json"
    );
    let info = paths.info();
    assert_eq!(info.desktop, "C:\\Users\\Ana\\Desktop");
    assert_eq!(join_path("C:\\", "x"), "C:\\x");
    assert_eq!(join_path("", "x"), "x");
}

#[test]
fn internal_files_and_desktop_items_are_recognized() {
    assert!(StorageService::is_internal_file_name(".DRAWER.JSON"));
    assert!(StorageService::is_internal_file_name(".drawer.json.1.tmp"));
    assert!(StorageService::is_internal_file_name(".desktop-organizer-transfer-abc"));
    assert!(!StorageService::is_internal_file_name("drawer.json"));
    assert!(StorageService::is_desktop_item("C:\\Users\\Ana\\Desktop\\nota.txt", "c:/users/ana/desktop/"));
    assert!(!StorageService::is_desktop_item("C:\\Users\\Ana\\Desktop", "C:\\Users\\Ana\\Desktop"));
    assert!(!StorageService::is_desktop_item("C:\\Users\\Ana\\Desktop2\\x", "C:\\Users\\Ana\\Desktop"));
}

#[test]
fn metadata_from_a_newer_version_is_refused() {
    let meta = |version: u32, name: &str| DrawerMetadata {
        drawer_id: "id".to_owned(),
        format_version: version,
        name: name.to_owned(),
        created_at: 3,
    };
    assert!(StorageService::read_folder_metadata("C:\\F", None).expect("no metadata").is_none());
    assert_eq!(
        StorageService::read_folder_metadata("C:\\F", Some(meta(2, "x"))).unwrap_err(),
        "La metadata de C:\\F usa una versión más nueva"
    );
    let seed = StorageService::recovered_seed(Some(meta(1, "  ")), "Carpeta", "C:\\F");
    assert_eq!(seed.name, "Carpeta");
    assert_eq!(seed.id.as_deref(), Some("id"));
    assert_eq!(seed.created_at, Some(3));
    let named = StorageService::recovered_seed(Some(meta(1, "VIDEO")), "Carpeta", "C:\\F");
    assert_eq!(named.name, "VIDEO");
    let bare = StorageService::recovered_seed(None, "Carpeta", "C:\\F");
    assert!(bare.id.is_none());
}

fn step(event: MoveEvent) -> MoveAction {
    safe_move_step(&event, "notas.txt", "C:\\Users\\ana\\Desktop\\notas.txt")
}

#[test]
fn a_move_never_overwrites_an_existing_destination() {
    match step(MoveEvent::Checked { destination_exists: true, source_exists: true }) {
        MoveAction::Refuse(message) => assert_eq!(
            message,
            "Ya existe “notas.txt” en el destino. No se sobrescribió ni fusionó nada."
        ),
        other => panic!("unexpected {other:?}"),
    }
    match step(MoveEvent::Checked { destination_exists: false, source_exists: false }) {
        MoveAction::Refuse(message) => assert_eq!(message, "El elemento de origen ya no existe"),
        other => panic!("unexpected {other:?}"),
    }
    assert!(matches!(
        step(MoveEvent::Checked { destination_exists: false, source_exists: true }),
        MoveAction::Rename
    ));
}

#[test]
fn a_failed_rename_on_one_volume_stops_and_across_volumes_copies() {
    assert!(matches!(
        step(MoveEvent::Renamed { error: None, same_volume: true }),
        MoveAction::Finish(None)
    ));
    match step(MoveEvent::Renamed { error: Some("acceso denegado".to_owned()), same_volume: true }) {
        MoveAction::Refuse(message) => {
            assert_eq!(message, "Windows no pudo mover el elemento: acceso denegado")
        }
        other => panic!("unexpected {other:?}"),
    }
    assert!(matches!(
        step(MoveEvent::Renamed { error: Some("otro volumen".to_owned()), same_volume: false }),
        MoveAction::PrepareStaging
    ));
    assert!(matches!(
        step(MoveEvent::Prepared { has_parent: false, error: None }),
        MoveAction::Refuse(_)
    ));
    match step(MoveEvent::Prepared { has_parent: true, error: Some("sin espacio".to_owned()) }) {
        MoveAction::Refuse(message) => {
            assert_eq!(message, "No se pudo preparar el destino: sin espacio")
        }
        other => panic!("unexpected {other:?}"),
    }
    assert!(matches!(
        step(MoveEvent::Prepared { has_parent: true, error: None }),
        MoveAction::CopyToStaging
    ));
}

#[test]
fn the_source_goes_only_after_its_copy_is_committed() {
    match step(MoveEvent::Copied { error: Some("SHA-256".to_owned()) }) {
        MoveAction::Abandon(message) => assert_eq!(
            message,
            "La copia entre volúmenes no terminó correctamente; el origen permanece intacto. SHA-256"
        ),
        other => panic!("unexpected {other:?}"),
    }
    assert!(matches!(step(MoveEvent::Copied { error: None }), MoveAction::CommitStaging));
    match step(MoveEvent::Committed { error: Some("bloqueado".to_owned()) }) {
        MoveAction::Abandon(message) => assert_eq!(
            message,
            "No se pudo confirmar el destino; el origen permanece intacto. bloqueado"
        ),
        other => panic!("unexpected {other:?}"),
    }
    assert!(matches!(step(MoveEvent::Committed { error: None }), MoveAction::RemoveSource));
    assert!(matches!(step(MoveEvent::SourceRemoved { error: None }), MoveAction::Finish(None)));
    match step(MoveEvent::SourceRemoved { error: Some("en uso".to_owned()) }) {
        MoveAction::Finish(Some(warning)) => assert_eq!(
            warning,
            "La copia fue verificada, pero Windows no pudo retirar el origen. Hay una copia segura en el cajón y el original continúa en C:\\Users\\ana\\Desktop\\notas.txt: en uso"
        ),
        other => panic!("unexpected {other:?}"),
    }
}

fn seed(name: &str, path: &str) -> RecoveredDrawerSeed {
    RecoveredDrawerSeed { id: None, name: name.to_owned(), folder_path: path.to_owned(), created_at: None }
}

#[test]
fn recovered_drawers_are_offered_by_name_ignoring_case() {
    let seeds = vec![seed("video", "1"), seed("Audio", "2"), seed("Video", "3"), seed("bancos", "4")];
    let order: Vec<String> = recovery_order(&seeds).into_iter().map(|s| s.folder_path).collect();
    assert_eq!(order, vec!["2", "4", "1", "3"]);
}

#[test]
fn damaged_drawer_metadata_is_kept_under_an_internal_name() {
    let name = corrupt_metadata_name("abc");
    assert_eq!(name, ".drawer.json.corrupt-abc");
    assert!(StorageService::is_internal_file_name(&name));
}

#[test]
fn written_drawer_metadata_reads_back_as_written() {
    let written = StorageService::folder_metadata("id-1", "VIDEO", 5);
    let read = StorageService::read_folder_metadata("C:\\Cajones\\VIDEO", Some(written))
        .expect("current metadata is accepted")
        .expect("metadata is present");
    assert_eq!(read.drawer_id, "id-1");
    assert_eq!(read.name, "VIDEO");
    assert_eq!(read.created_at, 5);
    assert_eq!(read.format_version, 1);
    assert!(matches!(StorageService::read_folder_metadata("C:\\X", None), Ok(None)));
}
