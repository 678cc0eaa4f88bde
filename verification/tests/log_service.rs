use desktop_organizer::logs::{
    is_managed_log_name, rotated_log_name, rotation_plan, LogService, RotationStep, MAX_LOG_BYTES,
    MAX_LOG_FILES,
};

#[test]
fn rotates_only_managed_logs_and_keeps_a_bounded_set() {
    assert!(LogService::needs_rotation(Some(MAX_LOG_BYTES)));
    assert!(!LogService::needs_rotation(Some(MAX_LOG_BYTES - 1)));
    assert!(!LogService::needs_rotation(None));
    let plan = rotation_plan();
    assert_eq!(plan.len(), MAX_LOG_FILES);
    assert!(matches!(&plan[0], RotationStep::Remove(name) if name == "desktop-organizer.4.log"));
    assert!(matches!(&plan[1], RotationStep::Rename(a, b) if a == "desktop-organizer.3.log" && b == "desktop-organizer.4.log"));
    assert!(matches!(&plan[3], RotationStep::Rename(a, b) if a == "desktop-organizer.1.log" && b == "desktop-organizer.2.log"));
    assert!(matches!(&plan[4], RotationStep::Rename(a, b) if a == "desktop-organizer.log" && b == "desktop-organizer.1.log"));
    assert!(is_managed_log_name("desktop-organizer.1.log"));
    assert!(is_managed_log_name("desktop-organizer.log"));
    assert!(!is_managed_log_name("personal.txt"));
    assert_eq!(rotated_log_name(3), "desktop-organizer.3.log");
}

#[test]
fn log_lines_keep_each_entry_on_one_line() {
    assert_eq!(LogService::info(12, "Aplicación iniciada"), "12 [INFO] Aplicación iniciada\n");
    assert_eq!(LogService::error(0, "a\r\nb\nc"), "0 [ERROR] a  b c\n");
}
