use desktop_organizer::validation::{
    normalize_hex_color, validate_color, validate_dock_item_name, validate_name,
    validate_panel_item_name, validate_panel_name,
};

#[test]
fn validates_and_trims_drawer_names() {
    assert_eq!(validate_name("  VIDEO  ").as_deref(), Ok("VIDEO"));
    assert!(validate_name("   ").is_err());
    assert!(validate_name(&"A".repeat(81)).is_err());
}

#[test]
fn accepts_only_six_digit_hex_colors() {
    assert_eq!(validate_color("#29aBcD").as_deref(), Ok("#29ABCD"));
    assert!(validate_color("293548").is_err());
    assert!(validate_color("#12345G").is_err());
}

#[test]
fn drawer_name_errors_name_the_problem() {
    assert_eq!(
        validate_name("fin.").unwrap_err(),
        "Windows no permite nombres de carpeta terminados en punto"
    );
    assert_eq!(
        validate_name("con").unwrap_err(),
        "“con” es un nombre reservado por Windows. Elegí otro nombre."
    );
    assert_eq!(
        validate_name(&"B".repeat(81)).unwrap_err(),
        "El nombre no puede superar los 80 caracteres"
    );
    assert_eq!(
        validate_name("a|b").unwrap_err(),
        "El nombre contiene caracteres no permitidos por Windows: < > : \" / \\ | ? *"
    );
    assert_eq!(
        validate_name("").unwrap_err(),
        "El nombre no puede estar vacío ni comenzar o terminar con espacios"
    );
    assert_eq!(validate_name(&"C".repeat(80)).as_deref(), Ok("C".repeat(80).as_str()));
}

#[test]
fn dock_colors_are_trimmed_before_validation() {
    assert_eq!(normalize_hex_color("  #10141e ").as_deref(), Ok("#10141E"));
    assert_eq!(
        normalize_hex_color("#10141").unwrap_err(),
        "El color del Dock debe tener formato #RRGGBB"
    );
    assert_eq!(
        validate_color(" #10141e").unwrap_err(),
        "El color debe tener formato hexadecimal #RRGGBB"
    );
}

#[test]
fn panel_names_are_trimmed_and_bounded() {
    assert_eq!(validate_panel_name("  Trabajo ").as_deref(), Ok("Trabajo"));
    assert_eq!(validate_panel_name("   ").unwrap_err(), "El panel necesita un nombre");
    assert_eq!(
        validate_panel_name(&"p".repeat(61)).unwrap_err(),
        "El nombre del panel es demasiado largo"
    );
    assert!(validate_panel_name(&"p".repeat(60)).is_ok());
}

#[test]
fn visible_names_accept_one_to_eighty_characters() {
    assert_eq!(validate_panel_item_name(" Notas ").as_deref(), Ok("Notas"));
    assert_eq!(
        validate_panel_item_name(" ").unwrap_err(),
        "El nombre visible no puede quedar vacío"
    );
    assert_eq!(
        validate_panel_item_name(&"n".repeat(81)).unwrap_err(),
        "El nombre visible es demasiado largo"
    );
    assert_eq!(validate_dock_item_name(" Correo ").as_deref(), Ok("Correo"));
    assert_eq!(
        validate_dock_item_name(&"n".repeat(81)).unwrap_err(),
        "El nombre visual debe tener entre 1 y 80 caracteres"
    );
}
