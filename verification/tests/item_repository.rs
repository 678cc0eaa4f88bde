use desktop_organizer::drawer_items::{
    create_item, highest_order, items_changed, order_level_items, AddItemFailure, AddItemsResult,
};
use desktop_organizer::items::{classify, display_name, file_name, split_file_name};
use desktop_organizer::levels::DrawerContents;
use desktop_organizer::model::{DrawerItem, DrawerItemType, StorageMode};
use desktop_organizer::order_map::LevelOrders;
use desktop_organizer::storage::DrawerMetadata;

fn item(id: &str, name: &str, order: u32) -> DrawerItem {
    DrawerItem {
        id: id.to_owned(),
        drawer_id: "d".to_owned(),
        item_type: DrawerItemType::File,
        storage_mode: StorageMode::Linked,
        display_name: name.to_owned(),
        physical_name: name.to_owned(),
        path: format!("C:\\Datos\\{name}"),
        icon_key: String::new(),
        created_at: 0,
        order,
        available: true,
        container_path: String::new(),
        is_subdrawer: false,
    }
}

#[test]
fn elements_are_classified_by_folder_and_extension() {
    assert_eq!(classify("C:\\x\\Carpeta", true), DrawerItemType::Folder);
    assert_eq!(classify("C:\\x\\Photoshop.EXE", false), DrawerItemType::Executable);
    assert_eq!(classify("C:\\x\\Programa.lnk", false), DrawerItemType::Shortcut);
    assert_eq!(classify("C:\\x\\proyecto.pdf", false), DrawerItemType::File);
    assert_eq!(classify("C:\\x\\.exe", false), DrawerItemType::File);
}

#[test]
fn programs_and_shortcuts_show_their_name_without_extension() {
    assert_eq!(display_name("C:\\x\\Photoshop.exe", DrawerItemType::Executable), "Photoshop");
    assert_eq!(display_name("C:\\x\\proyecto.pdf", DrawerItemType::File), "proyecto.pdf");
    assert_eq!(display_name("C:\\x\\Carpeta\\", DrawerItemType::Folder), "Carpeta");
    assert_eq!(display_name("C:\\", DrawerItemType::Folder), "C:\\");
    assert_eq!(file_name("C:/a/b.tar.gz").as_deref(), Some("b.tar.gz"));
    assert_eq!(file_name("C:\\a\\.."), None);
    assert_eq!(split_file_name("b.tar.gz"), ("b.tar".to_owned(), Some("gz".to_owned())));
    assert_eq!(split_file_name(".bashrc"), (".bashrc".to_owned(), None));
    assert_eq!(split_file_name("fin."), ("fin".to_owned(), Some(String::new())));
}

#[test]
fn managed_elements_get_stable_ids_and_links_fresh_ones() {
    let managed = create_item(
        "d1",
        "C:\\Cajones\\VIDEO\\nota.txt",
        DrawerItemType::File,
        StorageMode::Managed,
        "nota.txt".to_owned(),
        String::new(),
        7,
        2,
        None,
        0,
    );
    assert!(managed.id.starts_with("managed-v1-"));
    assert_eq!(managed.physical_name, "nota.txt");
    assert_eq!(managed.order, 2);
    let sub = create_item(
        "d1",
        "C:\\Cajones\\VIDEO\\Clientes",
        DrawerItemType::Folder,
        StorageMode::Managed,
        "Clientes".to_owned(),
        String::new(),
        7,
        3,
        Some(DrawerMetadata {
            drawer_id: "sub-id".to_owned(),
            format_version: 1,
            name: "Clientes".to_owned(),
            created_at: 1,
        }),
        0,
    );
    assert_eq!(sub.id, "sub-id");
    assert!(sub.is_subdrawer);
    let link = create_item(
        "d1",
        "D:\\Apps\\app.exe",
        DrawerItemType::Executable,
        StorageMode::Linked,
        "app".to_owned(),
        String::new(),
        7,
        4,
        None,
        0xfedcba9876543210fedcba9876543210,
    );
    assert_eq!(link.id, "fedcba98-7654-4210-bedc-ba9876543210");
    assert!(!link.is_subdrawer);
}

#[test]
fn manual_order_is_kept_per_level() {
    let items = vec![item("b", "b.txt", 0), item("a", "a.txt", 1), item("c", "C.txt", 2)];
    let order = vec!["b".to_owned(), "a".to_owned()];
    let ordered = order_level_items(items, &order);
    let ids: Vec<&str> = ordered.iter().map(|i| i.id.as_str()).collect();
    assert_eq!(ids, vec!["b", "a", "c"]);
    let unordered = order_level_items(
        vec![item("z", "Zeta.txt", 0), item("y", "alfa.txt", 1)],
        &Vec::new(),
    );
    assert_eq!(unordered[0].id, "y");
    assert_eq!(unordered[1].order, 1);
}

#[test]
fn rescans_report_changes_only_when_something_shown_differs() {
    let left = vec![item("a", "a.txt", 0)];
    let mut right = left.clone();
    assert!(!items_changed(&left, &right));
    right[0].path = "c:/datos/A.TXT".to_owned();
    assert!(!items_changed(&left, &right));
    right[0].available = false;
    assert!(items_changed(&left, &right));
    assert!(items_changed(&left, &Vec::new()));
    assert_eq!(highest_order(&vec![item("a", "a", 3), item("b", "b", 9)]), 9);
}

#[test]
fn added_links_and_root_elements_join_the_drawer_and_its_order() {
    let mut drawer = DrawerContents {
        id: "d".to_owned(),
        name: "VIDEO".to_owned(),
        folder_path: "C:\\Cajones\\VIDEO".to_owned(),
        items: Vec::new(),
        level_orders: LevelOrders::new(),
        updated_at: 0,
    };
    let mut managed = item("m", "m.txt", 1);
    managed.storage_mode = StorageMode::Managed;
    let added = vec![item("l", "l.txt", 0), managed];
    drawer.record_added_items(&added, "Sub", 5);
    assert_eq!(drawer.items.len(), 1);
    assert_eq!(drawer.items[0].id, "l");
    assert_eq!(drawer.level_orders.get("sub").cloned(), Some(vec!["l".to_owned(), "m".to_owned()]));
    assert_eq!(drawer.updated_at, 5);
    let result = AddItemsResult {
        added,
        duplicates: Vec::new(),
        failures: vec![AddItemFailure { path: "x".to_owned(), message: "y".to_owned() }],
        warnings: Vec::new(),
    };
    assert_eq!(result.failures.len(), 1);
}
