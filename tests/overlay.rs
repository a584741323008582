use swiftmouse::overlay::{
    box_center, button_code, get_index_for_letters, get_letters_for_index, next_capture_backend,
    pointer_offset, press_count, select_box, CaptureBackend, ClickType,
};

#[test]
fn letters_of_an_index() {
    assert_eq!(get_letters_for_index(0), (0, 0));
    assert_eq!(get_letters_for_index(27), (1, 1));
    assert_eq!(get_letters_for_index(675), (25, 25));
    assert_eq!(get_index_for_letters(1, 1), 27);
    assert_eq!(get_index_for_letters(25, 25), 675);
}

#[test]
fn letters_round_trip() {
    for i in 0..676 {
        let (a, b) = get_letters_for_index(i);
        assert_eq!(get_index_for_letters(a, b), i);
    }
}

#[test]
fn typed_code_selects_a_box() {
    let images = vec![(0, 0, 10, 10)];
    let lines = vec![(1, 1, 2, 2), (3, 3, 4, 4)];
    let big = vec![];
    assert_eq!(select_box(&vec![11, 0, 1], &images, &lines, &big), Some((3, 3, 4, 4)));
    assert_eq!(select_box(&vec![8, 0, 0], &images, &lines, &big), Some((0, 0, 10, 10)));
    assert_eq!(select_box(&vec![1, 0, 0], &images, &lines, &big), None);
    assert_eq!(select_box(&vec![11, 0], &images, &lines, &big), None);
    assert_eq!(select_box(&vec![3, 0, 0], &images, &lines, &big), None);
    assert_eq!(select_box(&vec![11, 1, 0], &images, &lines, &big), None);
}

#[test]
fn clicks_map_to_buttons() {
    assert_eq!(button_code(ClickType::Left), 272);
    assert_eq!(button_code(ClickType::Right), 273);
    assert_eq!(button_code(ClickType::Middle), 274);
    assert_eq!(button_code(ClickType::Double), 272);
    assert_eq!(press_count(ClickType::Double), 2);
    assert_eq!(press_count(ClickType::Left), 1);
}

#[test]
fn pointer_targets_the_box_centre() {
    assert_eq!(box_center((10, 20, 31, 40)), (20, 30));
    assert_eq!(pointer_offset(20, 30, 1920, 1080), (-1900, -1050));
}

#[test]
fn capture_falls_back_in_order() {
    assert_eq!(next_capture_backend(CaptureBackend::Stream), Some(CaptureBackend::Portal));
    assert_eq!(next_capture_backend(CaptureBackend::Portal), Some(CaptureBackend::Snapshot));
    assert_eq!(next_capture_backend(CaptureBackend::Snapshot), None);
}
