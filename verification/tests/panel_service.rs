use desktop_organizer::monitors::best_candidate;

#[test]
fn el_imantado_elige_el_borde_mas_cercano_dentro_de_la_tolerancia() {
    let candidatos = [0, 500, 980];
    assert_eq!(best_candidate(8, &candidatos, 14), Some(0));
    assert_eq!(best_candidate(492, &candidatos, 14), Some(500));
    // Fuera de la tolerancia el Panel se queda donde el usuario lo soltó.
    assert_eq!(best_candidate(240, &candidatos, 14), None);
}

#[test]
fn equally_near_candidates_resolve_to_the_first_one() {
    assert_eq!(best_candidate(10, &[20, 0], 14), Some(20));
    assert_eq!(best_candidate(10, &[0, 20], 14), Some(0));
}
