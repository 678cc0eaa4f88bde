use desktop_organizer::autostart::{autostart_active, expected_command, launched_by_autostart};

#[test]
fn windows_command_quotes_paths_with_spaces() {
    let command = expected_command(r"C:\Program Files\Desktop Organizer\desktop-organizer.exe");
    assert_eq!(
        command,
        r#""C:\Program Files\Desktop Organizer\desktop-organizer.exe" --autostart"#
    );
}

#[test]
fn autostart_is_active_only_when_the_registered_command_matches() {
    let exe = r"C:\Apps\desktop-organizer.exe";
    let registered = expected_command(exe);
    assert!(autostart_active(true, &registered, exe));
    assert!(!autostart_active(false, &registered, exe));
    assert!(!autostart_active(true, r"C:\Apps\desktop-organizer.exe --autostart", exe));
}

#[test]
fn autostart_flag_is_recognized_among_arguments() {
    let args = vec!["desktop-organizer.exe".to_owned(), "--autostart".to_owned()];
    assert!(launched_by_autostart(&args));
    assert!(!launched_by_autostart(&vec!["desktop-organizer.exe".to_owned()]));
}
