use desktop_organizer::monitors::{
    clamp_position, default_placement, monitor_for, monitor_id, MonitorArea,
};
use desktop_organizer::windows::{
    drawer_id_from_label, drawer_window_label, is_ready, mark_ready, panel_id_from_label,
    panel_window_label, set_snap_suspended, snap_suspended, ReadyFlag, SnapLatch,
};

fn monitor(id: &str, x: i32, y: i32) -> MonitorArea {
    MonitorArea { id: id.to_owned(), x, y, width: 1920, height: 1040 }
}

#[test]
fn monitor_ids_join_the_name_and_the_position() {
    assert_eq!(monitor_id(Some("DISPLAY1"), 0, 0), "DISPLAY1@0,0");
    assert_eq!(monitor_id(None, -1920, 40), "Monitor@-1920,40");
}

#[test]
fn windows_find_their_monitor_by_id_then_position_then_first() {
    let monitors = vec![monitor("A@0,0", 0, 0), monitor("B@1920,0", 1920, 0)];
    assert_eq!(monitor_for("B@1920,0", 10, 10, &monitors), Some(1));
    assert_eq!(monitor_for("gone", 2000, 10, &monitors), Some(1));
    assert_eq!(monitor_for("gone", -500, 10, &monitors), Some(0));
    assert_eq!(monitor_for("gone", 0, 0, &Vec::new()), None);
    assert_eq!(monitors[1].work_area().width, 1920);
}

#[test]
fn new_windows_cascade_and_start_over_every_ten() {
    assert_eq!(default_placement(0, 0, 0), (42, 42));
    assert_eq!(default_placement(3, 100, 50), (226, 176));
    assert_eq!(default_placement(10, 0, 0), (42, 42));
}

#[test]
fn positions_stay_inside_the_work_area() {
    assert_eq!(clamp_position(-50, 0, 1920, 400, 8), 8);
    assert_eq!(clamp_position(1800, 0, 1920, 400, 8), 1512);
    assert_eq!(clamp_position(600, 0, 1920, 400, 8), 600);
    assert_eq!(clamp_position(600, 0, 300, 400, 8), 8);
}

#[test]
fn window_labels_round_trip() {
    assert_eq!(drawer_window_label("abc"), "drawer-abc");
    assert_eq!(drawer_id_from_label("drawer-abc"), Some("abc"));
    assert_eq!(drawer_id_from_label("panel-abc"), None);
    assert_eq!(panel_window_label("p1"), "panel-p1");
    assert_eq!(panel_id_from_label("panel-p1"), Some("p1"));
    assert_eq!(panel_id_from_label("admin"), None);
}

#[test]
fn readiness_and_snap_suspension_are_remembered() {
    let mut flag = ReadyFlag::new();
    assert!(!is_ready(&flag));
    mark_ready(&mut flag);
    assert!(is_ready(&flag));
    let mut latch = SnapLatch::new();
    assert!(!snap_suspended(&mut latch));
    set_snap_suspended(&mut latch, true);
    assert!(snap_suspended(&mut latch));
}

#[test]
fn placement_and_clamping_work_near_the_edge_of_the_coordinate_range() {
    assert_eq!(default_placement(0, i32::MAX - 100, 0), (i32::MAX - 58, 42));
    assert_eq!(clamp_position(i32::MAX, i32::MAX - 10, 1000, 0, 0), i32::MAX);
}
