use desktop_organizer::digest::{content_digest, verify_copy};
use desktop_organizer::maintenance::{
    count_invalid, health_items, recoverable_count, recovered_id, recovered_name,
    redact_user_profile,
};
use desktop_organizer::model::{Preferences, PreferencesPatch};
use desktop_organizer::persistence::BackupInfo;
use desktop_organizer::shell::ShellService;
use desktop_organizer::storage::RecoveredDrawerSeed;

fn backup(valid: bool) -> BackupInfo {
    BackupInfo { file_name: "b".to_owned(), created_at: 0, size: 0, schema_version: None, valid }
}

#[test]
fn the_health_report_lists_five_checks() {
    let report = health_items(
        Ok(()),
        true,
        3,
        Ok(vec![backup(true), backup(false)]),
        Err("sin acceso".to_owned()),
    );
    assert_eq!(report.len(), 5);
    assert_eq!(report[0].label, "Configuración");
    assert_eq!(report[0].detail, "Save válido");
    assert_eq!(report[1].detail, "3 cajones configurados");
    assert!(!report[2].ok);
    assert_eq!(report[2].detail, "2 copias; 1 inválidas");
    assert!(!report[3].ok);
    assert_eq!(report[3].detail, "sin acceso");
    assert!(report[4].ok);
    assert_eq!(count_invalid(&vec![backup(false), backup(false)]), 2);
}

#[test]
fn recovered_drawers_keep_their_identity_when_it_is_free() {
    assert_eq!(recovered_name("   "), "Cajón recuperado");
    assert_eq!(recovered_name("  VIDEO "), "VIDEO");
    assert_eq!(recovered_name(&"x".repeat(100)).chars().count(), 80);
    let used = vec!["taken".to_owned()];
    assert_eq!(recovered_id(Some("free".to_owned()), &used).as_deref(), Some("free"));
    assert_eq!(recovered_id(Some("taken".to_owned()), &used), None);
    assert_eq!(recovered_id(Some(" ".to_owned()), &used), None);
    let seeds = vec![
        RecoveredDrawerSeed { id: None, name: "a".to_owned(), folder_path: "C:\\Cajones\\A".to_owned(), created_at: None },
        RecoveredDrawerSeed { id: None, name: "b".to_owned(), folder_path: "C:\\Cajones\\B".to_owned(), created_at: None },
    ];
    assert_eq!(recoverable_count(&seeds, &vec!["c:/cajones/a/".to_owned()]), 1);
}

#[test]
fn copies_are_accepted_only_with_the_same_size_and_digest() {
    let digest = content_digest(b"contenido");
    assert_eq!(
        digest.iter().map(|b| format!("{b:02x}")).collect::<String>(),
        "6f9566ef46386b8cf372671cb9eddff5488256eff5ea5fb99e1041c3e27082bf"
    );
    assert!(verify_copy(9, 9, 9, &digest, &content_digest(b"contenido")).is_ok());
    assert_eq!(
        verify_copy(9, 9, 9, &digest, &content_digest(b"otro")).unwrap_err(),
        "La verificación SHA-256 de la copia no coincide"
    );
    assert_eq!(
        verify_copy(9, 8, 9, &digest, &digest).unwrap_err(),
        "El tamaño copiado no coincide con el original"
    );
}

#[test]
fn shell_failures_report_the_windows_code() {
    assert!(ShellService::open_result(42).is_ok());
    assert_eq!(
        ShellService::open_result(2).unwrap_err(),
        "Windows no pudo abrir el elemento (código 2)"
    );
}

#[test]
fn preference_patches_replace_only_given_values() {
    let current = Preferences::default();
    let next = current.patched(PreferencesPatch {
        start_with_windows: Some(true),
        hide_admin_on_minimize: None,
        start_silently: Some(false),
    });
    assert!(next.start_with_windows);
    assert!(next.hide_admin_on_minimize);
    assert!(!next.start_silently);
    let imported = Preferences { start_with_windows: true, hide_admin_on_minimize: false, start_silently: false };
    let merged = current.merged_with_import(&imported);
    assert!(!merged.start_with_windows);
    assert!(!merged.hide_admin_on_minimize);
}

#[test]
fn diagnostic_paths_hide_the_user_profile_once() {
    let path = "C:\\Users\\ana\\Documents\\Desktop Organizer";
    assert_eq!(
        redact_user_profile(path, Some("C:\\Users\\ana")),
        "%USERPROFILE%\\Documents\\Desktop Organizer"
    );
    assert_eq!(redact_user_profile(path, Some("")), path);
    assert_eq!(redact_user_profile(path, None), path);
    assert_eq!(redact_user_profile(path, Some("D:\\otro")), path);
    assert_eq!(redact_user_profile("ab-ab", Some("ab")), "%USERPROFILE%-ab");
}

#[test]
fn copies_are_checked_with_sha256() {
    let digest = content_digest(b"abc");
    let hex: String = digest.iter().map(|byte| format!("{byte:02x}")).collect();
    assert_eq!(hex, "ba7816bf8f01cfea414140de5dae2223b00361a396177a9cb410ff61f20015ad");
}
