use grid_astar::names::white_space;
use grid_astar::{validate_name, InvalidArgument};

#[test]
fn name_with_a_visible_character_is_handed_back() {
    assert_eq!(validate_name(String::from("route")), Ok(String::from("route")));
    assert_eq!(validate_name(String::from("  padded\t")), Ok(String::from("  padded\t")));
    assert_eq!(validate_name(String::from("\u{3000}x")), Ok(String::from("\u{3000}x")));
}

#[test]
fn blank_name_is_rejected() {
    assert_eq!(validate_name(String::new()), Err(InvalidArgument::BlankName));
    assert_eq!(validate_name(String::from("   ")), Err(InvalidArgument::BlankName));
    assert_eq!(validate_name(String::from(" \t\r\n\u{a0}\u{2003}\u{3000}")), Err(InvalidArgument::BlankName));
}

#[test]
fn white_space_is_what_trimming_removes() {
    for code in 0..=0x10FFFFu32 {
        if let Some(c) = char::from_u32(code) {
            assert_eq!(white_space(c), c.is_whitespace(), "U+{:04X}", code);
            assert_eq!(white_space(c), c.to_string().trim().is_empty(), "U+{:04X}", code);
        }
    }
}
