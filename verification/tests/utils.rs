//! Switches, and small things around images.
use sunray::utils::{
    iterate_image_extent, parse_bool, parse_dump_target, realign_data, tuple_to_extent3d,
    DumpTarget,
};

/// A switch as a variable holds it, if it is set.
fn env_var_as_bool(raw: Option<&str>) -> Option<bool> {
    raw.and_then(parse_bool)
}

/// The directory of dumps as a variable asks for it, if it is set.
fn graph_dump_dir(raw: Option<&str>) -> Option<String> {
    match parse_dump_target(raw?) {
        DumpTarget::Off => None,
        DumpTarget::DefaultDir => Some("crate/debug".to_string()),
        DumpTarget::Dir(dir) => Some(dir),
    }
}

#[test]
fn bool_and_dump_dir_parsing() {
    for on in ["1", "true", "TRUE", "On", " yes "] {
        assert_eq!(env_var_as_bool(Some(on)), Some(true), "{on}");
    }
    for off in ["0", "false", "OFF", "no"] {
        assert_eq!(env_var_as_bool(Some(off)), Some(false), "{off}");
    }
    assert_eq!(env_var_as_bool(Some("banana")), None);
    assert_eq!(env_var_as_bool(None), None);

    // A bool-true value means "the default directory", anything else is a path.
    assert!(graph_dump_dir(Some("1")).unwrap().ends_with("debug"));
    assert_eq!(graph_dump_dir(Some("some/where")), Some("some/where".to_string()));
    assert_eq!(graph_dump_dir(Some("0")), None);
    assert_eq!(graph_dump_dir(None), None);
}

#[test]
fn an_empty_switch_is_no_directory() {
    assert!(matches!(parse_dump_target(""), DumpTarget::Off));
    assert!(matches!(parse_dump_target(" \t"), DumpTarget::Off));
    assert_eq!(parse_bool(""), None);
}

#[test]
fn a_directory_keeps_its_case_and_spaces() {
    assert!(matches!(parse_dump_target(" Some Where "), DumpTarget::Dir(dir) if dir == " Some Where "));
}

#[test]
fn unicode_white_space_is_trimmed() {
    assert_eq!(parse_bool("\u{2003}on\u{a0}"), Some(true));
    assert_eq!(parse_bool("\u{200b}on"), None);
}

#[test]
fn an_image_is_walked_row_by_row() {
    assert_eq!(
        iterate_image_extent(3, 2),
        vec![(0, 0), (1, 0), (2, 0), (0, 1), (1, 1), (2, 1)]
    );
    assert!(iterate_image_extent(0, 5).is_empty());
}

#[test]
fn an_extent_has_depth_one() {
    assert_eq!(tuple_to_extent3d((640, 480)), (640, 480, 1));
}

#[test]
fn items_are_filled_up_or_cut() {
    let bytes = vec![1, 2, 3, 4, 5, 6, 7];
    assert_eq!(realign_data(&bytes, 3, 4), vec![1, 2, 3, 0, 4, 5, 6, 0]);
    assert_eq!(realign_data(&bytes, 3, 2), vec![1, 2, 4, 5]);
    assert_eq!(realign_data(&bytes, 8, 4), Vec::<u8>::new());
}
