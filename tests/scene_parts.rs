use renderer::{
    check_material, face_indices, has_emitter, indices_in_range, is_light, light_ids,
    next_bounce, pick_index, pick_light, pixel_index, pixel_position, roulette_applies, Bounce,
    MaterialIssue, MaterialKind, SceneParseError,
};

fn mix(a: MaterialKind, b: MaterialKind) -> MaterialKind {
    MaterialKind::Mix(Box::new(a), Box::new(b))
}

#[test]
fn lights_are_the_emitting_objects() {
    assert_eq!(light_ids(&vec![false, true, true, false, true]), vec![1, 2, 4]);
    assert!(light_ids(&vec![false, false]).is_empty());
    assert!(light_ids(&vec![]).is_empty());
}

#[test]
fn no_light_to_pick_in_a_dark_scene() {
    assert_eq!(pick_light(&vec![]), None);
    assert_eq!(pick_index(0), None);
}

#[test]
fn single_light_is_always_picked() {
    for _ in 0..50 {
        assert_eq!(pick_light(&vec![7]), Some(7));
    }
}

#[test]
fn picked_light_is_one_of_the_lights() {
    let lights = vec![3, 5, 9];
    let mut seen = [false; 3];
    for _ in 0..600 {
        let id = pick_light(&lights).unwrap();
        let k = lights.iter().position(|&l| l == id).unwrap();
        seen[k] = true;
    }
    assert_eq!(seen, [true, true, true]);
}

#[test]
fn picked_index_is_in_range() {
    for _ in 0..200 {
        assert!(pick_index(5).unwrap() < 5);
    }
}

#[test]
fn plain_materials_are_checked() {
    assert_eq!(check_material(&MaterialKind::Diffuse), Ok(()));
    assert_eq!(check_material(&MaterialKind::Emitter), Ok(()));
    assert_eq!(check_material(&MaterialKind::Metal), Err(MaterialIssue::Unsupported));
    assert_eq!(check_material(&MaterialKind::Nonmetal), Err(MaterialIssue::Unsupported));
    assert_eq!(check_material(&MaterialKind::Glass), Err(MaterialIssue::Unsupported));
}

#[test]
fn mixture_with_emitter_is_rejected() {
    let direct = mix(MaterialKind::Diffuse, MaterialKind::Emitter);
    assert_eq!(check_material(&direct), Err(MaterialIssue::EmitterInMix));
    let nested = mix(mix(MaterialKind::Emitter, MaterialKind::Diffuse), MaterialKind::Glass);
    assert_eq!(check_material(&nested), Err(MaterialIssue::EmitterInMix));
    assert!(has_emitter(&nested));
}

#[test]
fn mixture_without_emitter_is_unsupported() {
    let m = mix(MaterialKind::Diffuse, mix(MaterialKind::Metal, MaterialKind::Glass));
    assert!(!has_emitter(&m));
    assert_eq!(check_material(&m), Err(MaterialIssue::Unsupported));
}

#[test]
fn only_emitters_are_lights() {
    assert!(is_light(&MaterialKind::Emitter));
    assert!(!is_light(&MaterialKind::Diffuse));
    assert!(!is_light(&mix(MaterialKind::Emitter, MaterialKind::Emitter)));
}

#[test]
fn first_buffer_pixel_is_top_left() {
    assert_eq!(pixel_position(0, 4, 3), (0, 2));
    assert_eq!(pixel_position(5, 4, 3), (1, 1));
    assert_eq!(pixel_position(11, 4, 3), (3, 0));
}

#[test]
fn pixel_index_inverts_pixel_position() {
    for p in 0..12 {
        let (x, y) = pixel_position(p, 4, 3);
        assert_eq!(pixel_index(x, y, 4, 3), Some(p));
    }
    assert_eq!(pixel_index(0, 0, 4, 3), Some(8));
}

#[test]
fn off_screen_pixel_has_no_index() {
    assert_eq!(pixel_index(4, 0, 4, 3), None);
    assert_eq!(pixel_index(0, 3, 4, 3), None);
}

#[test]
fn face_numbers_become_zero_based() {
    assert_eq!(face_indices([1, 2, 3]), Some([0, 1, 2]));
    assert_eq!(face_indices([7, 1, 40]), Some([6, 0, 39]));
    assert_eq!(face_indices([1, 0, 3]), None);
}

#[test]
fn face_indices_must_name_vertices() {
    assert!(indices_in_range(&vec![[0, 1, 2], [2, 1, 0]], 3));
    assert!(!indices_in_range(&vec![[0, 1, 2], [2, 3, 0]], 3));
    assert!(indices_in_range(&vec![], 0));
}

#[test]
fn path_stops_without_a_next_hit() {
    assert_eq!(next_bounce(2, false, true), Bounce::Stop);
    assert_eq!(next_bounce(9, false, true), Bounce::Stop);
}

#[test]
fn short_paths_skip_roulette() {
    assert!(!roulette_applies(3));
    assert_eq!(next_bounce(3, true, false), Bounce::Continue);
}

#[test]
fn roulette_decides_long_paths() {
    assert!(roulette_applies(4));
    assert_eq!(next_bounce(4, true, true), Bounce::ContinueRescaled);
    assert_eq!(next_bounce(4, true, false), Bounce::Stop);
}

#[test]
fn parse_error_keeps_its_message() {
    let e = SceneParseError::new("object ball has invalid type".to_string());
    assert_eq!(e.message(), "object ball has invalid type");
}
