use desktop_organizer::drawer_items::{AddBatch, AddDecision};
use desktop_organizer::drawer_sync::{
    breadcrumbs, scan_level, shown_links, synced_items, FolderEntry, LevelEntry,
};
use desktop_organizer::paths::level_parts;
use desktop_organizer::import::{
    check_import, imported_folder, imported_links, merge_imported_drawers, merge_links,
    ImportedDrawer,
};
use desktop_organizer::levels::DrawerContents;
use desktop_organizer::model::{DrawerItem, DrawerItemType, Preferences, StorageMode};
use desktop_organizer::order_map::LevelOrders;
use desktop_organizer::storage::DrawerMetadata;

const ROOT: &str = "C:\\Cajones\\VIDEO";

fn stored(id: &str, path: &str, mode: StorageMode, order: u32) -> DrawerItem {
    DrawerItem {
        id: id.to_owned(),
        drawer_id: "d".to_owned(),
        item_type: DrawerItemType::File,
        storage_mode: mode,
        display_name: id.to_owned(),
        physical_name: String::new(),
        path: path.to_owned(),
        icon_key: String::new(),
        created_at: 0,
        order,
        available: false,
        container_path: String::new(),
        is_subdrawer: false,
    }
}

fn file(name: &str) -> FolderEntry {
    FolderEntry { path: format!("{ROOT}\\{name}"), is_dir: false, metadata: None }
}

#[test]
fn sync_preserves_external_links_while_rebuilding_managed_items() {
    let previous = vec![
        stored("link", "D:\\externo.exe", StorageMode::Linked, 4),
        stored("gone", &format!("{ROOT}\\borrado.txt"), StorageMode::Managed, 1),
    ];
    let synced = synced_items("d", &previous, &vec![true, false], &vec![file("guardado.txt")], 50);
    assert_eq!(synced.len(), 2);
    assert_eq!(synced[0].id, "link");
    assert!(synced[0].available);
    assert_eq!(synced[1].display_name, "guardado.txt");
    assert_eq!(synced[1].storage_mode, StorageMode::Managed);
    assert_eq!(synced[1].order, 5);
    assert!(synced[1].id.starts_with("managed-v1-"));
}

#[test]
fn sync_reads_only_the_top_level_and_keeps_known_identities() {
    let previous = vec![stored("known", &format!("{ROOT}\\visible.txt"), StorageMode::Managed, 2)];
    let mut folder = file("Carpeta");
    folder.is_dir = true;
    let synced = synced_items("d", &previous, &vec![false], &vec![folder, file("visible.txt")], 9);
    let ids: Vec<&str> = synced.iter().map(|i| i.id.as_str()).collect();
    assert_eq!(synced.len(), 2);
    assert!(ids.contains(&"known"));
    let known = synced.iter().find(|i| i.id == "known").expect("known element");
    assert!(known.available);
    assert_eq!(known.physical_name, "visible.txt");
    let folder_item = synced.iter().find(|i| i.id != "known").expect("new folder");
    assert_eq!(folder_item.item_type, DrawerItemType::Folder);
    assert!(!folder_item.is_subdrawer);
    let mut drawer = DrawerContents {
        id: "d".to_owned(),
        name: "VIDEO".to_owned(),
        folder_path: ROOT.to_owned(),
        items: previous,
        level_orders: LevelOrders::new(),
        updated_at: 1,
    };
    assert!(drawer.sync(&vec![false], &vec![file("visible.txt")], 9));
    assert_eq!(drawer.updated_at, 9);
    assert!(!drawer.sync(&vec![true], &vec![file("visible.txt")], 10));
    assert_eq!(drawer.updated_at, 9);
}

#[test]
fn subdrawer_metadata_enables_navigation_without_recursive_scanning() {
    let meta = DrawerMetadata {
        drawer_id: "subdrawer-id".to_owned(),
        format_version: 1,
        name: "Clientes".to_owned(),
        created_at: 1,
    };
    let entries = vec![
        LevelEntry { path: format!("{ROOT}\\brief.txt"), is_dir: false, metadata: Ok(None) },
        LevelEntry { path: format!("{ROOT}\\Clientes"), is_dir: true, metadata: Ok(Some(meta)) },
    ];
    let items = scan_level("d", &Vec::new(), &entries, "", 3).expect("root should load");
    assert_eq!(items.len(), 2);
    assert_eq!(items[0].display_name, "brief.txt");
    assert_eq!(items[1].id, "subdrawer-id");
    assert!(items[1].is_subdrawer);
    assert_eq!(items[1].order, 1);
    let broken = vec![LevelEntry {
        path: format!("{ROOT}\\Roto"),
        is_dir: true,
        metadata: Err("La metadata de Roto no es válida".to_owned()),
    }];
    assert_eq!(
        scan_level("d", &Vec::new(), &broken, "", 3).unwrap_err(),
        "La metadata de Roto no es válida"
    );
}

#[test]
fn links_shown_on_a_level_get_their_file_name_and_level() {
    let mut link = stored("l", "D:\\docs\\informe.pdf", StorageMode::Linked, 0);
    link.container_path = "sub".to_owned();
    let items = vec![link, stored("m", "C:\\x", StorageMode::Managed, 0)];
    let shown = shown_links(&items, &vec![true, true], "Sub");
    assert_eq!(shown.len(), 1);
    assert_eq!(shown[0].physical_name, "informe.pdf");
    assert_eq!(shown[0].container_path, "Sub");
    assert!(shown[0].available);
}

#[test]
fn desktop_folder_is_moved_but_external_executable_is_only_linked() {
    let batch = AddBatch::new(&Vec::new(), "");
    assert!(matches!(
        batch.decide("C:\\Users\\Ana\\Desktop\\Proyecto", "Proyecto", "C:\\Users\\Ana\\Desktop", ROOT),
        AddDecision::Move(destination) if destination == format!("{ROOT}\\Proyecto")
    ));
    assert!(matches!(
        batch.decide("D:\\Apps\\Photoshop.exe", "Photoshop", "C:\\Users\\Ana\\Desktop", ROOT),
        AddDecision::Link
    ));
    assert!(matches!(
        batch.decide("D:\\Apps\\x", "", "C:\\Users\\Ana\\Desktop", ROOT),
        AddDecision::Fail(message) if message == "Windows no informó un nombre válido para el elemento"
    ));
}

#[test]
fn a_path_already_on_the_level_is_a_duplicate() {
    let existing = vec![stored("l", "D:\\Apps\\app.exe", StorageMode::Linked, 7)];
    let mut batch = AddBatch::new(&existing, "");
    assert_eq!(batch.next_order, 7);
    assert!(matches!(batch.decide("d:/apps/APP.exe", "app", "C:\\Desktop", ROOT), AddDecision::Duplicate));
    batch.add("d", "D:\\Apps\\otro.exe", DrawerItemType::Executable, StorageMode::Linked, "otro".to_owned(), String::new(), 1, None, None, 7);
    assert_eq!(batch.result.added[0].order, 8);
    assert!(matches!(batch.decide("D:\\Apps\\otro.exe", "otro", "C:\\Desktop", ROOT), AddDecision::Duplicate));
    batch.duplicate("D:\\Apps\\app.exe".to_owned());
    batch.fail("Z:\\x".to_owned(), "No se pudo acceder al elemento".to_owned());
    assert_eq!(batch.result.duplicates.len(), 1);
    assert_eq!(batch.result.failures.len(), 1);
}

fn imported(id: &str, name: &str, color: &str, opacity_valid: bool, items: Vec<DrawerItem>) -> ImportedDrawer {
    ImportedDrawer {
        id: id.to_owned(),
        name: name.to_owned(),
        color: color.to_owned(),
        opacity_valid,
        items,
        level_orders: LevelOrders::new(),
        folder_path: String::new(),
        folder_is_dir: false,
    }
}

#[test]
fn import_checks_ids_links_and_folders() {
    let good = vec![imported("a", " Importado ", "#aabbcc", true, Vec::new())];
    assert!(check_import(&good, &vec!["a".to_owned()]).is_ok());
    let repeated = vec![
        imported("a", "Uno", "#aabbcc", true, Vec::new()),
        imported("a", "Dos", "#aabbcc", true, Vec::new()),
    ];
    assert_eq!(
        check_import(&repeated, &Vec::new()).unwrap_err(),
        "La configuración importada contiene identificadores de cajón vacíos o repetidos"
    );
    let relative = vec![imported("b", "B", "#aabbcc", true, vec![stored("r", "relativo.txt", StorageMode::Linked, 0)])];
    assert_eq!(
        check_import(&relative, &Vec::new()).unwrap_err(),
        "El vínculo “r” no tiene una ruta absoluta válida"
    );
    let opacity = vec![imported("c", " Nuevo ", "#aabbcc", false, Vec::new())];
    assert_eq!(check_import(&opacity, &Vec::new()).unwrap_err(), "El cajón “Nuevo” tiene una opacidad inválida");
    assert_eq!(
        check_import(&opacity, &vec!["c".to_owned()]).unwrap_err(),
        "El cajón “ Nuevo ” tiene una opacidad inválida"
    );
    assert!(check_import(&vec![imported("d", "D", "red", true, Vec::new())], &Vec::new()).is_err());

    let mut existing = vec![stored("x", "C:\\a.txt", StorageMode::Linked, 0)];
    let incoming = vec![
        stored("y", "c:/A.TXT", StorageMode::Linked, 0),
        stored("z", "C:\\b.txt", StorageMode::Linked, 0),
        stored("w", "C:\\c.txt", StorageMode::Managed, 0),
    ];
    merge_links(&mut existing, &incoming);
    let ids: Vec<&str> = existing.iter().map(|i| i.id.as_str()).collect();
    assert_eq!(ids, vec!["x", "z"]);
    let links = imported_links(&incoming, "nuevo");
    assert_eq!(links.len(), 2);
    assert!(links.iter().all(|i| i.drawer_id == "nuevo"));
    assert_eq!(imported_folder("C:\\Cajones\\Nuevo", "C:\\Cajones", true), "C:\\Cajones\\Nuevo");
    assert_eq!(imported_folder("D:\\Otro", "C:\\Cajones", true), "");
    assert_eq!(imported_folder("C:\\Cajones\\Nuevo", "C:\\Cajones", false), "");
}

#[test]
fn breadcrumbs_name_each_folder_on_the_way_down() {
    let parts = level_parts("Proyectos/./2024\\").unwrap();
    assert_eq!(parts, vec!["Proyectos", "2024"]);
    let names = vec![Some("Mis proyectos".to_owned()), None];
    let trail = breadcrumbs("VIDEO", &parts, &names);
    assert_eq!(trail.len(), 3);
    assert_eq!(trail[0].name, "VIDEO");
    assert_eq!(trail[0].relative_path, "");
    assert_eq!(trail[1].name, "Mis proyectos");
    assert_eq!(trail[1].relative_path, "Proyectos");
    assert_eq!(trail[2].name, "2024");
    assert_eq!(trail[2].relative_path, "Proyectos\\2024");
}

#[test]
fn level_parts_refuse_paths_that_leave_the_drawer() {
    assert!(level_parts("..\\otro").is_err());
    assert!(level_parts("\\raiz").is_err());
    assert!(level_parts("C:algo").is_err());
    assert_eq!(level_parts("").unwrap(), Vec::<String>::new());
}

#[test]
fn sync_reads_only_the_top_level_and_hides_internal_metadata() {
    let mut drawer = DrawerContents {
        id: "d".to_owned(),
        name: "VIDEO".to_owned(),
        folder_path: ROOT.to_owned(),
        items: Vec::new(),
        level_orders: LevelOrders::new(),
        updated_at: 1,
    };
    let folder = FolderEntry { path: format!("{ROOT}\\Carpeta"), is_dir: true, metadata: None };
    let entries = vec![
        file("visible.txt"),
        file(".drawer.json"),
        folder,
        file(".drawer.json.1234.tmp"),
        file(".desktop-organizer-transfer-abc"),
    ];
    assert!(drawer.sync(&Vec::new(), &entries, 2));
    assert_eq!(drawer.items.len(), 2);
    assert!(drawer.items.iter().any(|item| item.display_name == "visible.txt"));
    assert!(drawer.items.iter().any(|item| item.display_name == "Carpeta"));
    assert!(!drawer.items.iter().any(|item| item.display_name == ".drawer.json"));
}

#[test]
fn level_scans_skip_internal_metadata() {
    let entries = vec![
        LevelEntry { path: format!("{ROOT}\\a.txt"), is_dir: false, metadata: Ok(None) },
        LevelEntry { path: format!("{ROOT}\\.drawer.json"), is_dir: false, metadata: Ok(None) },
    ];
    let items = scan_level("d", &Vec::new(), &entries, "", 3).unwrap();
    assert_eq!(items.len(), 1);
    assert_eq!(items[0].display_name, "a.txt");
}

#[test]
fn import_merges_without_deleting_existing_drawers() {
    let mut current = vec![DrawerContents {
        id: "actual".to_owned(),
        name: "Actual".to_owned(),
        folder_path: format!("{ROOT}\\Actual"),
        items: Vec::new(),
        level_orders: LevelOrders::new(),
        updated_at: 1,
    }];
    let mut incoming = imported("importado", "Importado", "#aabbcc", true, Vec::new());
    incoming.folder_path = "C:\\Cajones\\Importado".to_owned();
    incoming.folder_is_dir = true;
    assert!(merge_imported_drawers(&mut current, vec![incoming], "C:\\Cajones", 3).is_ok());
    assert_eq!(current.len(), 2);
    assert!(current.iter().any(|drawer| drawer.name == "Actual"));
    assert!(current.iter().any(|drawer| drawer.name == "Importado"));
    assert_eq!(current[1].folder_path, "C:\\Cajones\\Importado");
    assert_eq!(current[1].updated_at, 3);
    let local = Preferences::default();
    let imported_preferences =
        Preferences { start_with_windows: true, hide_admin_on_minimize: false, start_silently: false };
    let preferences = local.merged_with_import(&imported_preferences);
    assert!(!preferences.start_with_windows);
    assert!(!preferences.hide_admin_on_minimize);
    assert!(!preferences.start_silently);
}

#[test]
fn importing_a_configured_drawer_updates_it_in_place() {
    let mut current = vec![DrawerContents {
        id: "a".to_owned(),
        name: "Viejo".to_owned(),
        folder_path: format!("{ROOT}\\A"),
        items: vec![stored("x", "C:\\a.txt", StorageMode::Linked, 0)],
        level_orders: LevelOrders::new(),
        updated_at: 1,
    }];
    let incoming = imported(
        "a",
        " Nuevo ",
        "#aabbcc",
        true,
        vec![stored("y", "c:/A.TXT", StorageMode::Linked, 0), stored("z", "C:\\b.txt", StorageMode::Linked, 0)],
    );
    assert!(merge_imported_drawers(&mut current, vec![incoming], "C:\\Cajones", 9).is_ok());
    assert_eq!(current.len(), 1);
    assert_eq!(current[0].name, "Nuevo");
    assert_eq!(current[0].folder_path, format!("{ROOT}\\A"));
    let ids: Vec<&str> = current[0].items.iter().map(|i| i.id.as_str()).collect();
    assert_eq!(ids, vec!["x", "z"]);
    let repeated = vec![imported("b", "B", "#aabbcc", true, Vec::new()), imported("b", "C", "#aabbcc", true, Vec::new())];
    assert!(merge_imported_drawers(&mut current, repeated, "C:\\Cajones", 10).is_err());
    assert_eq!(current.len(), 1);
    assert_eq!(current[0].updated_at, 9);
}
