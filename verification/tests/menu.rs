use omninote::menu::{copy_slice, select_all_range, validated_menu_icon_rgba};

#[test]
fn menu_icon_validation_rejects_zero_dimensions_and_empty_rgba() {
    assert!(validated_menu_icon_rgba(Vec::new(), 0, 16).is_none());
    assert!(validated_menu_icon_rgba(Vec::new(), 16, 0).is_none());
    assert!(validated_menu_icon_rgba(Vec::new(), 0, 0).is_none());
}

#[test]
fn menu_icon_validation_accepts_exact_non_empty_rgba() {
    assert!(validated_menu_icon_rgba(vec![255; 2 * 3 * 4], 2, 3).is_some());
}

#[test]
fn menu_icon_validation_rejects_mismatched_rgba_length() {
    assert!(validated_menu_icon_rgba(vec![0; 4], 2, 2).is_none());
    assert!(validated_menu_icon_rgba(vec![0; 16], 1, 1).is_none());
}

#[test]
fn select_all_range_covers_whole_content() {
    assert_eq!(select_all_range(0), (0, 0));
    assert_eq!(select_all_range(42), (0, 42));
}

#[test]
fn copy_slice_extracts_selection() {
    assert_eq!(copy_slice("hello world", (0, 5)), "hello");
    assert_eq!(copy_slice("hello world", (6, 11)), "world");
}

#[test]
fn copy_slice_handles_reversed_and_out_of_range() {
    assert_eq!(copy_slice("hello", (5, 0)), "hello");
    assert_eq!(copy_slice("hello", (2, 999)), "llo");
}

#[test]
fn copy_slice_snaps_to_char_boundaries() {
    let s = "café";
    assert_eq!(copy_slice(s, (0, s.len() - 1)), "café");
}

#[test]
fn copy_slice_empty_selection_is_empty_string() {
    assert_eq!(copy_slice("hello", (2, 2)), "");
}
