use qualetize_gui::levels::{
    char_to_depth, default_level_strings_from_depth, parse_rgba_depth, get_rgba_depth_error, is_valid_rgba_depth,
    levels_to_string, parse_levels_u8, validate_0_255_array, MAX_CUSTOM_LEVELS,
};

#[test]
fn validate_0_255_array_accepts_well_formed_lists() {
    assert!(validate_0_255_array("0"));
    assert!(validate_0_255_array("0,255"));
    assert!(validate_0_255_array("0,49,87,119,146,174,206,255"));
}

#[test]
fn validate_0_255_array_rejects_malformed_lists() {
    assert!(!validate_0_255_array(""), "empty");
    assert!(!validate_0_255_array("256"), "out of range");
    assert!(!validate_0_255_array("0, 255"), "whitespace");
    assert!(!validate_0_255_array("0,"), "trailing comma");
    assert!(!validate_0_255_array("00"), "leading zero");
    assert!(!validate_0_255_array("0;255"), "wrong separator");
}

#[test]
fn validate_0_255_array_rejects_more_entries_than_the_plan_can_hold() {
    let at_limit = vec!["1"; MAX_CUSTOM_LEVELS].join(",");
    let over_limit = vec!["1"; MAX_CUSTOM_LEVELS + 1].join(",");
    assert!(validate_0_255_array(&at_limit));
    assert!(!validate_0_255_array(&over_limit));
}

/// A full 8-bit channel needs 256 steps but the plan stores the count in a `u8`,
/// so the levels are clamped to 254 steps (255 entries) and stay valid.
#[test]
fn generated_levels_always_fit_the_plan() {
    for depth in ["3331", "5551", "8888"] {
        for (channel, levels) in default_level_strings_from_depth(depth).iter().enumerate() {
            let count = levels.split(',').count();
            assert!(
                count <= MAX_CUSTOM_LEVELS,
                "{depth} channel {channel} produced {count} levels"
            );
            assert!(
                validate_0_255_array(levels),
                "{depth} channel {channel} is not accepted by its own validator"
            );
            assert!(u8::try_from(count).is_ok());
        }
    }
}

/// The uniform levels are `round(i / steps * 255)` in single precision, for
/// every step count a depth character can name.
#[test]
fn uniform_levels_match_single_precision_rounding() {
    for (digit, steps) in [('1', 1u32), ('2', 3), ('3', 7), ('4', 15), ('5', 31), ('6', 63), ('7', 127), ('8', 254), ('x', 254)] {
        let depth: String = [digit, digit, digit, digit].iter().collect();
        let expected: Vec<String> = (0..=steps)
            .map(|i| (((i as f32 / steps as f32) * 255.0).round() as u8).to_string())
            .collect();
        assert_eq!(default_level_strings_from_depth(&depth)[0], expected.join(","), "{depth}");
    }
}

#[test]
fn parsing_sorts_the_levels() {
    assert_eq!(parse_levels_u8("255,0,128"), Some(vec![0, 128, 255]));
    assert_eq!(parse_levels_u8("0,256"), None);
    assert_eq!(parse_levels_u8(""), None);
    assert_eq!(parse_levels_u8("7"), Some(vec![7]));
}

#[test]
fn levels_are_written_comma_separated() {
    assert_eq!(levels_to_string(vec![0, 49, 255]), "0,49,255");
    assert_eq!(levels_to_string(vec![]), "");
    assert_eq!(default_level_strings_from_depth("3331")[3], "0,255");
    assert_eq!(default_level_strings_from_depth("3331")[0], "0,36,73,109,146,182,219,255");
}

#[test]
fn valid_rgba_depths_report_no_error() {
    for depth in ["8888", "5551", "3331", "1111"] {
        assert_eq!(get_rgba_depth_error(depth), None, "{depth} should be valid");
        assert!(is_valid_rgba_depth(depth));
    }
}

#[test]
fn invalid_rgba_depths_report_an_error() {
    for depth in ["", "888", "88888", "8x88", "0888", "8898"] {
        assert!(
            get_rgba_depth_error(depth).is_some(),
            "{depth} should be invalid"
        );
        assert!(!is_valid_rgba_depth(depth));
    }
}

#[test]
fn rgba_depth_error_names_the_offending_channel() {
    assert!(get_rgba_depth_error("88x8").unwrap().starts_with('B'));
    assert!(get_rgba_depth_error("0888").unwrap().starts_with('R'));
    assert_eq!(get_rgba_depth_error("88x8").unwrap(), "B component 'x' is not a digit");
    assert_eq!(get_rgba_depth_error("0888").unwrap(), "R component 0 must be 1-8");
    assert_eq!(get_rgba_depth_error("888").unwrap(), "Expected 4 digits, got 3");
    assert_eq!(get_rgba_depth_error("").unwrap(), "RGBA depth is required");
}

#[test]
fn parse_rgba_depth_does_not_panic_on_non_ascii_input() {
    // "é" is 2 bytes but 1 char: "é331" is 5 bytes / 4 chars, "éé31" is 6 bytes
    // / 4 chars, and "é31" is 4 bytes / 3 chars.
    assert_eq!(parse_rgba_depth("é31"), [255, 255, 255, 255]);
    assert_eq!(
        parse_rgba_depth("éé31"),
        [255, 255, char_to_depth('3'), char_to_depth('1')]
    );
    assert_eq!(parse_rgba_depth("é3331"), [255, 255, 255, 255]);
}

#[test]
fn char_to_depth_formula_matches_the_digit_table() {
    let table = [
        ('1', 1),
        ('2', 3),
        ('3', 7),
        ('4', 15),
        ('5', 31),
        ('6', 63),
        ('7', 127),
        ('8', 255),
    ];
    for (c, expected) in table {
        assert_eq!(char_to_depth(c), expected, "digit {c}");
    }
    assert_eq!(char_to_depth('0'), 255);
    assert_eq!(char_to_depth('9'), 255);
    assert_eq!(char_to_depth('x'), 255);
}

#[test]
fn a_depth_string_gives_one_step_count_per_channel() {
    assert_eq!(parse_rgba_depth("5551"), [31, 31, 31, 1]);
    assert_eq!(parse_rgba_depth("3331"), [7, 7, 7, 1]);
    assert_eq!(parse_rgba_depth(""), [255, 255, 255, 255]);
}
