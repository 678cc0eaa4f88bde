use desktop_organizer::icons::{
    bgra_to_rgba, cache_file, cache_file_name, cache_key, eviction_order, evicts, fnv1a_hash,
    icon_png, is_image_file, is_retained, png_data_url, CacheFile, CachedIcon, IconService,
    MAX_ICON_CACHE_AGE_NANOS,
};

#[test]
fn icon_keys_ignore_case_and_slash_direction() {
    let a = IconService::key_for("C:/Users/Ana/Nota.txt");
    let b = IconService::key_for("c:\\users\\ana\\nota.txt");
    assert_eq!(a, "v1-b079c5eb3b2f953c");
    assert_eq!(a, b);
}

#[test]
fn icon_keys_hash_the_utf8_bytes_of_the_lowercased_path() {
    assert_eq!(
        IconService::key_for("C:\\Música\\Canción.MP3"),
        "v1-471b46592a0869d0"
    );
    assert_eq!(IconService::key_for(""), "v1-cbf29ce484222325");
    assert_eq!(fnv1a_hash(b""), 0xcbf29ce484222325);
}

#[test]
fn cache_keys_accept_only_letters_digits_and_dashes() {
    assert_eq!(cache_file_name("v1-0a").as_deref(), Ok("v1-0a.png"));
    assert_eq!(
        cache_file_name("").unwrap_err(),
        "La clave del icono no es válida"
    );
    assert!(cache_file_name("../v1").is_err());
    assert!(cache_file_name("v1 0").is_err());
    assert_eq!(cache_key("v1-ab", true), "v1-ab-preview");
    assert_eq!(cache_key("v1-ab", false), "v1-ab");
}

#[test]
fn bitmaps_without_alpha_become_opaque_rgba() {
    let mut pixels = vec![1, 2, 3, 0, 10, 20, 30, 0, 7];
    bgra_to_rgba(&mut pixels);
    assert_eq!(pixels, vec![3, 2, 1, 255, 30, 20, 10, 255, 7]);
}

#[test]
fn translucent_pixels_are_unpremultiplied() {
    let mut pixels = vec![50, 100, 128, 128, 0, 0, 0, 0, 9, 8, 7, 255];
    bgra_to_rgba(&mut pixels);
    assert_eq!(
        pixels,
        vec![255, 199, 99, 128, 0, 0, 0, 0, 7, 8, 9, 255]
    );
}

#[test]
fn data_urls_carry_standard_base64() {
    assert_eq!(
        png_data_url(&[0x89, 0x50, 0x4e, 0x47]),
        "data:image/png;base64,iVBORw=="
    );
    assert_eq!(png_data_url(b"ab"), "data:image/png;base64,YWI=");
    assert_eq!(png_data_url(b"a"), "data:image/png;base64,YQ==");
    assert_eq!(png_data_url(&[0xff, 0xfe, 0xfd]), "data:image/png;base64,//79");
    assert_eq!(png_data_url(b""), "data:image/png;base64,");
}

#[test]
fn icon_pngs_start_with_the_png_signature() {
    let png = icon_png(1, 1, vec![0, 0, 255, 255]).expect("a 1x1 icon should encode");
    assert_eq!(&png[..8], b"\x89PNG\r\n\x1a\n");
    assert!(icon_png(0, 0, Vec::new()).is_err());
}

#[test]
fn images_are_recognised_by_extension_in_any_case() {
    assert!(is_image_file("C:\\Fotos\\playa.JPG"));
    assert!(is_image_file("C:\\Fotos\\scan.tiff"));
    assert!(is_image_file("C:/Fotos/foto.heic"));
    assert!(!is_image_file("C:\\Fotos\\nota.txt"));
    assert!(!is_image_file("C:\\Fotos\\.png"));
    assert!(!is_image_file("C:\\Fotos\\png"));
}

#[test]
fn cache_files_are_sorted_by_exact_extension() {
    assert!(matches!(cache_file("v1-abc.png.1234.tmp"), CacheFile::Temporary));
    match cache_file("v1-abc-preview.png") {
        CacheFile::Icon(key) => assert_eq!(key, "v1-abc-preview"),
        other => panic!("unexpected {other:?}"),
    }
    assert!(matches!(cache_file("v1-abc.PNG"), CacheFile::Other));
    assert!(matches!(cache_file("notas"), CacheFile::Other));
}

#[test]
fn pruning_starts_with_the_oldest_and_keeps_ties_in_order() {
    let icons = vec![
        CachedIcon { key: "c".to_owned(), modified: 30 },
        CachedIcon { key: "a".to_owned(), modified: 10 },
        CachedIcon { key: "b".to_owned(), modified: 30 },
        CachedIcon { key: "d".to_owned(), modified: 20 },
    ];
    let keys: Vec<String> = eviction_order(&icons).into_iter().map(|c| c.key).collect();
    assert_eq!(keys, vec!["a", "d", "c", "b"]);
}

#[test]
fn retained_keys_also_keep_their_previews() {
    let retained = vec!["v1-aaa".to_owned(), "v1-bbb".to_owned()];
    assert!(is_retained("v1-aaa", &retained));
    assert!(is_retained("v1-bbb-preview", &retained));
    assert!(!is_retained("v1-ccc", &retained));
    assert!(!is_retained("v1-ccc-preview", &retained));
    assert!(!is_retained("v1-aaa-previewx", &retained));
}

#[test]
fn unused_icons_go_when_over_capacity_or_expired() {
    assert!(!evicts(true, 5000, 2048, Some(u64::MAX)));
    assert!(evicts(false, 2049, 2048, None));
    assert!(!evicts(false, 2048, 2048, Some(MAX_ICON_CACHE_AGE_NANOS)));
    assert!(evicts(false, 10, 2048, Some(MAX_ICON_CACHE_AGE_NANOS + 1)));
    assert!(!evicts(false, 10, 2048, None));
}
