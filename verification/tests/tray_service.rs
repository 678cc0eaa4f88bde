use std::collections::HashSet;

use desktop_organizer::tray::{action_for, command_id, tray_guid, Guid, TrayAction};

#[test]
fn the_tray_identity_is_the_agreed_permanent_guid() {
    assert_eq!(tray_guid().to_u128(), 0x7b3d_1a64_9e52_4c8f_a6d1_2f0b_5e7c_4a93);
}

#[test]
fn every_menu_action_has_a_distinct_command_id() {
    let actions = [
        TrayAction::NewDrawer,
        TrayAction::OpenAdmin,
        TrayAction::ShowAll,
        TrayAction::HideAll,
        TrayAction::OpenDrawers,
        TrayAction::ShowDock,
        TrayAction::HideDock,
        TrayAction::NewPanel,
        TrayAction::ShowPanels,
        TrayAction::HidePanels,
        TrayAction::Settings,
        TrayAction::Quit,
    ];
    let mut seen = HashSet::new();
    for action in actions {
        let id = command_id(action);
        assert_ne!(id, 0, "ninguna acción puede valer 0");
        assert!(seen.insert(id), "el identificador {id} está repetido");
        assert_eq!(action_for(id), Some(action));
    }
    assert_eq!(seen.len(), 12, "el menú conserva sus doce acciones");
    assert_eq!(action_for(0), None);
}

#[test]
fn guid_fields_follow_the_windows_layout() {
    let guid = Guid::from_u128(0x0011_2233_4455_6677_8899_aabb_ccdd_eeff);
    assert_eq!(guid.data1, 0x0011_2233);
    assert_eq!(guid.data2, 0x4455);
    assert_eq!(guid.data3, 0x6677);
    assert_eq!(guid.data4, [0x88, 0x99, 0xaa, 0xbb, 0xcc, 0xdd, 0xee, 0xff]);
    assert_eq!(guid.to_u128(), 0x0011_2233_4455_6677_8899_aabb_ccdd_eeff);
}
