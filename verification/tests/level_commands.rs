use desktop_organizer::levels::{
    check_convertible, check_level_move, check_restorable, check_subdrawer, item_at_level,
    relative_below, restored_message, subdrawer_name, DrawerContents,
};
use desktop_organizer::icons::IconService;
use desktop_organizer::model::{DrawerItem, DrawerItemType, StorageMode};
use desktop_organizer::order_map::LevelOrders;
use desktop_organizer::paths::{
    is_same_or_descendant, join_relative, normalized_relative_string, relative_key, replace_prefix,
};

fn link(id: &str, container: &str) -> DrawerItem {
    DrawerItem {
        id: id.to_owned(),
        drawer_id: "src".to_owned(),
        item_type: DrawerItemType::File,
        storage_mode: StorageMode::Linked,
        display_name: id.to_owned(),
        physical_name: id.to_owned(),
        path: format!("D:\\{id}"),
        icon_key: String::new(),
        created_at: 0,
        order: 0,
        available: true,
        container_path: container.to_owned(),
        is_subdrawer: false,
    }
}

fn drawer(id: &str, items: Vec<DrawerItem>) -> DrawerContents {
    DrawerContents {
        id: id.to_owned(),
        name: id.to_uppercase(),
        folder_path: format!("C:\\Cajones\\{id}"),
        items,
        level_orders: LevelOrders::new(),
        updated_at: 0,
    }
}

#[test]
fn relative_level_paths_are_normalized_and_checked() {
    assert_eq!(normalized_relative_string("a/./b\\").as_deref(), Ok("a\\b"));
    assert_eq!(
        normalized_relative_string("..\\fuera").unwrap_err(),
        "La ruta relativa del subcajón no es válida"
    );
    assert!(normalized_relative_string("C:\\x").is_err());
    assert_eq!(relative_key("\\Clientes/2026\\"), "clientes\\2026");
    assert_eq!(join_relative("Clientes", "2026").as_deref(), Ok("Clientes\\2026"));
    assert_eq!(join_relative("", "2026").as_deref(), Ok("2026"));
    assert!(is_same_or_descendant("clientes\\2026", "Clientes"));
    assert!(!is_same_or_descendant("clientes2", "clientes"));
    assert_eq!(replace_prefix("Clientes\\2026\\x", "Clientes", "Archivo"), "Archivo\\2026\\x");
}

#[test]
fn links_move_between_drawers_with_their_level_orders() {
    let mut source = drawer("src", vec![link("a", "Sub"), link("b", "")]);
    source.append_order_id("Sub", "a".to_owned());
    let mut target = drawer("dst", Vec::new());
    source.move_link_to(&mut target, "Sub", "a", "Otro/Nivel").expect("the link exists");
    assert_eq!(source.items.len(), 1);
    assert_eq!(source.level_orders.get("sub").cloned(), Some(Vec::new()));
    assert_eq!(target.items[0].drawer_id, "dst");
    assert_eq!(target.items[0].container_path, "Otro\\Nivel");
    assert_eq!(target.level_orders.get("otro\\nivel").cloned(), Some(vec!["a".to_owned()]));
    assert_eq!(
        source.move_link_to(&mut target, "", "zz", "").unwrap_err(),
        "La referencia vinculada ya no está guardada"
    );
    assert_eq!(
        source.move_link_to(&mut target, "", "b", "..").unwrap_err(),
        "La ruta relativa del subcajón no es válida"
    );
    assert_eq!(source.items.len(), 1);
}

#[test]
fn links_move_between_levels_of_one_drawer() {
    let mut d = drawer("d", vec![link("a", ""), link("b", "")]);
    d.move_link_within("", "a", "Sub").expect("the link exists");
    assert_eq!(d.items.len(), 2);
    assert_eq!(d.items[1].id, "a");
    assert_eq!(d.items[1].container_path, "Sub");
    assert_eq!(d.level_orders.get("sub").cloned(), Some(vec!["a".to_owned()]));
}

#[test]
fn a_level_order_must_list_exactly_the_level() {
    let mut d = drawer("d", Vec::new());
    let shown = vec!["a".to_owned(), "b".to_owned()];
    d.reorder_level("Sub", &shown, vec!["b".to_owned(), "a".to_owned()], 9).expect("same ids");
    assert_eq!(d.level_orders.get("sub").cloned(), Some(vec!["b".to_owned(), "a".to_owned()]));
    assert_eq!(d.updated_at, 9);
    assert_eq!(
        d.reorder_level("Sub", &shown, vec!["a".to_owned()], 10).unwrap_err(),
        "El contenido cambió mientras se ordenaba. Se actualizó sin perder datos."
    );
    assert!(d.reorder_level("Sub", &shown, vec!["a".to_owned(), "a".to_owned()], 11).is_err());
    assert_eq!(d.updated_at, 9);
}

#[test]
fn removing_a_link_forgets_it_in_its_level() {
    let mut d = drawer("d", vec![link("a", "Sub")]);
    d.append_order_id("Sub", "a".to_owned());
    d.remove_link_at_level("sub", "a", 4).expect("the link is on that level");
    assert!(d.items.is_empty());
    assert_eq!(d.level_orders.get("sub").cloned(), Some(Vec::new()));
    assert_eq!(
        d.remove_link("a", 5).unwrap_err(),
        "El elemento solicitado ya no existe en este cajón"
    );
}

#[test]
fn subdrawer_actions_check_what_they_act_on() {
    let mut folder = link("f", "");
    folder.storage_mode = StorageMode::Managed;
    folder.item_type = DrawerItemType::Folder;
    assert_eq!(check_convertible(&folder), Ok(false));
    assert_eq!(
        check_subdrawer(&folder).unwrap_err(),
        "El elemento no es un subcajón físico"
    );
    folder.is_subdrawer = true;
    assert_eq!(check_convertible(&folder), Ok(true));
    assert!(check_subdrawer(&folder).is_ok());
    assert!(check_restorable(&folder).is_ok());
    let l = link("l", "");
    assert_eq!(
        check_convertible(&l).unwrap_err(),
        "Sólo una carpeta física del cajón se puede convertir en subcajón"
    );
    assert_eq!(
        check_restorable(&l).unwrap_err(),
        "Los vínculos externos no necesitan restaurarse"
    );
    assert_eq!(restored_message(None, "C:\\Escritorio\\x"), "Restaurado en C:\\Escritorio\\x");
    assert_eq!(restored_message(Some("ojo".to_owned()), "x"), "ojo");
    assert_eq!(subdrawer_name("  Clientes ").as_deref(), Ok("Clientes"));
    assert!(subdrawer_name("con").is_err());
    assert_eq!(item_at_level(&vec![l.clone()], "l").expect("present").id, "l");
    assert_eq!(
        item_at_level(&vec![l.clone()], "x").unwrap_err(),
        "El elemento solicitado ya no existe en este nivel"
    );
    assert_eq!(
        check_level_move(true, "Sub", "sub\\", &l, false).unwrap_err(),
        "El elemento ya está en ese nivel"
    );
    assert_eq!(
        check_level_move(false, "Sub", "Sub", &folder, true).unwrap_err(),
        "Un subcajón no se puede mover dentro de sí mismo"
    );
    assert!(check_level_move(false, "Sub", "Sub", &l, true).is_ok());
}

#[test]
fn renaming_a_drawer_carries_its_kept_elements_along() {
    let mut kept = link("nota", "");
    kept.storage_mode = StorageMode::Managed;
    kept.path = "C:\\Cajones\\video\\nota.txt".to_owned();
    let mut nested = link("sub", "Proyectos");
    nested.storage_mode = StorageMode::Managed;
    nested.path = "C:\\Cajones\\video\\Proyectos\\sub.txt".to_owned();
    let mut elsewhere = link("fuera", "");
    elsewhere.storage_mode = StorageMode::Managed;
    elsewhere.path = "C:\\Cajones\\videos\\otro.txt".to_owned();
    let external = link("ext", "");
    let mut d = drawer("video", vec![kept, nested, elsewhere, external.clone()]);
    d.relocate("C:\\Cajones\\Peliculas", "Películas");
    assert_eq!(d.name, "Películas");
    assert_eq!(d.folder_path, "C:\\Cajones\\Peliculas");
    assert_eq!(d.items[0].path, "C:\\Cajones\\Peliculas\\nota.txt");
    assert_eq!(d.items[0].icon_key, IconService::key_for("C:\\Cajones\\Peliculas\\nota.txt"));
    assert_eq!(d.items[1].path, "C:\\Cajones\\Peliculas\\Proyectos\\sub.txt");
    assert_eq!(d.items[2].path, "C:\\Cajones\\videos\\otro.txt");
    assert_eq!(d.items[3].path, external.path);
    assert_eq!(d.items[3].icon_key, external.icon_key);
}

#[test]
fn only_paths_inside_the_folder_have_a_relative_part() {
    assert_eq!(relative_below("C:\\A\\b\\c", "C:\\A").as_deref(), Some("b\\c"));
    assert_eq!(relative_below("C:\\A", "C:\\A").as_deref(), Some(""));
    assert_eq!(relative_below("C:\\AB\\c", "C:\\A"), None);
    assert_eq!(relative_below("C:\\a\\c", "C:\\A"), None);
}
