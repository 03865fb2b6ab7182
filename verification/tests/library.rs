use qzn3t_pad::config::{
    default_sections, finalize_sections, grid_pads, is_json_text, is_valid_pad,
    check_sections, load_sections, load_sections_from, parse_linear, ColourRole,
    ConfigError,
};
use qzn3t_pad::midi::{
    colour_message, find_port, programmer_mode_message, step, three_byte_message, Response,
};
use qzn3t_pad::section::Section;

fn all_pads(sections: &[Section]) -> Vec<u8> {
    sections.iter().flat_map(|s| s.pads.clone()).collect()
}

fn grid() -> Vec<u8> {
    let mut g = Vec::new();
    for r in 1..=8u8 {
        for c in 1..=8u8 {
            g.push(r * 10 + c);
        }
    }
    g
}

#[test]
fn trailing_newline_adds_no_line() {
    let s = parse_linear("11, #7f0000, #007f00, 60\n").unwrap();
    assert_eq!(s.len(), 1);
    assert_eq!(s[0].midi_note, 60);
}

#[test]
fn crlf_line_endings_are_read() {
    let s = parse_linear("11 12, #7f0000, #007f00, 60\r\n21, #00007f, #7f7f00, 61\r\n").unwrap();
    assert_eq!(s.len(), 2);
    assert_eq!(s[1].pads, vec![21]);
    assert_eq!(s[1].active_colour, [0x7f, 0x7f, 0]);
    assert_eq!(s[1].midi_note, 61);
}

#[test]
fn blank_line_has_one_field() {
    let r = parse_linear("11, #7f0000, #007f00, 60\n\n21, #00007f, #7f7f00, 61");
    assert_eq!(r.unwrap_err(), ConfigError::WrongFieldCount { line: 1, fields: 1 });
}

#[test]
fn numbers_follow_from_str_radix() {
    let s = parse_linear("0011 +12, #+f+f+f, X7F7f00, +60").unwrap();
    assert_eq!(s[0].pads, vec![11, 12]);
    assert_eq!(s[0].main_colour, [15, 15, 15]);
    assert_eq!(s[0].active_colour, [127, 127, 0]);
    assert_eq!(s[0].midi_note, 60);
}

#[test]
fn unicode_whitespace_separates_pads() {
    let s = parse_linear("\u{a0}11\u{2003}12 , #7f0000 , #007f00 , 60\u{3000}").unwrap();
    assert_eq!(s[0].pads, vec![11, 12]);
}

#[test]
fn comment_lines_count_as_lines() {
    let r = parse_linear("# heading\n  # another\n11 12 9x, #7f0000, #007f00, 60");
    assert_eq!(r.unwrap_err(), ConfigError::InvalidPad { line: 2, token: 2 });
}

#[test]
fn each_line_error() {
    assert_eq!(
        parse_linear("11, #7f0000, #007f00, 256").unwrap_err(),
        ConfigError::InvalidMidiNote { line: 0 }
    );
    assert_eq!(
        parse_linear("11, #7f0000, #007g00, 60").unwrap_err(),
        ConfigError::InvalidColour { line: 0, role: ColourRole::Active }
    );
    assert_eq!(
        parse_linear("11, é7f0000, #007f00, 60").unwrap_err(),
        ConfigError::InvalidColour { line: 0, role: ColourRole::Main }
    );
    assert_eq!(
        parse_linear("11, #7f0000, #007f00, 60, 1").unwrap_err(),
        ConfigError::WrongFieldCount { line: 0, fields: 5 }
    );
    assert_eq!(
        parse_linear("10, #7f0000, #007f00, 60").unwrap_err(),
        ConfigError::InvalidPad { line: 0, token: 0 }
    );
}

#[test]
fn colour_components_above_127_are_refused() {
    let r = check_sections("11, #800000, #000000, 60", None);
    assert_eq!(
        r.unwrap_err(),
        ConfigError::ColourOutOfRange {
            section: 0,
            role: ColourRole::Main,
            red: 128,
            green: 0,
            blue: 0,
            component: 128
        }
    );
    let r = check_sections("11, #000000, #00ff00, 60", None);
    assert_eq!(
        r.unwrap_err(),
        ConfigError::ColourOutOfRange {
            section: 0,
            role: ColourRole::Active,
            red: 0,
            green: 255,
            blue: 0,
            component: 255
        }
    );
}

#[test]
fn repeated_pad_is_found_before_colours() {
    let r = check_sections("11 12, #ff0000, #000000, 60\n12, #000000, #000000, 61", None);
    assert_eq!(r.unwrap_err(), ConfigError::RepeatedPad { pad: 12 });
}

#[test]
fn two_defaults_are_refused() {
    let r = finalize_sections(vec![
        Section::new(vec![], [0, 0, 0], [0, 0, 0], 1),
        Section::new(vec![], [0, 0, 0], [0, 0, 0], 2),
    ]);
    assert_eq!(r.unwrap_err(), ConfigError::TooManyDefaultSections);
}

#[test]
fn json_text_takes_the_json_sections() {
    // `[1, 2]` is JSON, so the line format is not tried.
    assert_eq!(check_sections("[1, 2]", None).unwrap_err(), ConfigError::InvalidJson);
    // A line-format text is not JSON: the sections handed over are not used.
    let s = check_sections(
        "11, #7f0000, #007f00, 60",
        Some(vec![Section::new(vec![22], [0, 0, 0], [0, 0, 0], 0)]),
    )
    .unwrap();
    assert_eq!(s[0].pads, vec![11]);
    let s = check_sections("[]", Some(vec![Section::new(vec![22], [0, 0, 0], [0, 0, 0], 5)]))
        .unwrap();
    assert_eq!(s[0].midi_note, 5);
}

#[test]
fn load_from_given_decision() {
    let s = load_sections_from("[]", false, None);
    assert_eq!(s.unwrap_err(), ConfigError::WrongFieldCount { line: 0, fields: 1 });
}

#[test]
fn default_section_gets_the_rest_in_grid_order() {
    let s = check_sections("11 88, #7f0000, #007f00, 60\n, #000000, #7f7f7f, 61", None).unwrap();
    let expected: Vec<u8> = grid().into_iter().filter(|p| *p != 11 && *p != 88).collect();
    assert_eq!(s[1].pads, expected);
    assert_eq!(s[1].midi_note, 61);
    let mut pads = all_pads(&s);
    assert_eq!(pads.len(), 64);
    pads.sort();
    assert_eq!(pads, grid());
}

#[test]
fn default_first_is_filled_too() {
    let s = check_sections(", #000000, #7f7f7f, 1\n21 22, #7f0000, #007f00, 2", None).unwrap();
    assert_eq!(s[0].pads.len(), 62);
    assert_eq!(s[1].pads, vec![21, 22]);
}

#[test]
fn full_grid_leaves_default_empty() {
    let all: Vec<String> = grid().iter().map(|p| p.to_string()).collect();
    let text = format!("{}, #000000, #000000, 1\n, #000000, #000000, 2", all.join(" "));
    let s = check_sections(&text, None).unwrap();
    assert_eq!(s[0].pads.len(), 64);
    assert!(s[1].pads.is_empty());
}

#[test]
fn accepted_sections_are_disjoint() {
    let s = check_sections("11 12, #7f0000, #007f00, 60\n33, #000000, #7f7f7f, 61\n, #000000, #000000, 1", None)
        .unwrap();
    let pads = all_pads(&s);
    for (i, p) in pads.iter().enumerate() {
        assert!(!pads[..i].contains(p));
    }
    assert_eq!(s.iter().filter(|x| x.pads.is_empty()).count(), 0);
}

#[test]
fn pad_validity() {
    assert!(is_valid_pad(11));
    assert!(is_valid_pad(88));
    assert!(!is_valid_pad(10));
    assert!(!is_valid_pad(19));
    assert!(!is_valid_pad(91));
    assert!(!is_valid_pad(0));
    assert_eq!(grid_pads(), grid());
}

#[test]
fn default_sections_hold_the_grid() {
    let s = default_sections();
    assert_eq!(s.len(), 1);
    assert_eq!(s[0].pads, grid());
}

#[test]
fn section_accessors() {
    let s = Section::new(vec![11, 12], [1, 2, 3], [4, 5, 6], 7);
    assert_eq!(s.pads(), &[11, 12]);
    assert!(s.pad_in(12));
    assert!(!s.pad_in(13));
}

#[test]
fn colour_message_bytes() {
    let s = Section::new(vec![11, 12], [1, 2, 3], [4, 5, 6], 7);
    assert_eq!(
        colour_message(&s, [1, 2, 3]),
        vec![240, 0, 32, 41, 2, 12, 3, 3, 11, 1, 2, 3, 3, 12, 1, 2, 3, 247]
    );
    let empty = Section::new(vec![], [0, 0, 0], [0, 0, 0], 0);
    assert_eq!(colour_message(&empty, [9, 9, 9]), vec![240, 0, 32, 41, 2, 12, 3, 247]);
    assert_eq!(programmer_mode_message(), vec![240, 0, 32, 41, 2, 12, 0, 127, 247]);
}

fn note(r: Response) -> ([u8; 3], Vec<u8>) {
    match r {
        Response::Note { note, colour } => (note, colour),
        _ => panic!("expected a note"),
    }
}

#[test]
fn press_and_release_light_the_section() {
    let s = vec![
        Section::new(vec![11, 12], [1, 2, 3], [4, 5, 6], 60),
        Section::new(vec![21], [7, 8, 9], [10, 11, 12], 61),
    ];
    let mut held: Vec<u8> = Vec::new();
    let active0 = colour_message(&s[0], [4, 5, 6]);
    let main0 = colour_message(&s[0], [1, 2, 3]);
    assert_eq!(note(step(&s, &mut held, [144, 11, 100])), ([144, 60, 100], active0.clone()));
    assert_eq!(held, vec![11]);
    assert_eq!(note(step(&s, &mut held, [144, 12, 90])), ([144, 60, 90], active0.clone()));
    assert_eq!(held, vec![11, 12]);
    // Pad 12 is still pressed: the section stays active.
    assert_eq!(note(step(&s, &mut held, [144, 11, 0])), ([144, 60, 0], active0.clone()));
    assert_eq!(held, vec![12]);
    assert_eq!(note(step(&s, &mut held, [144, 12, 0])), ([144, 60, 0], main0));
    assert!(held.is_empty());
    assert_eq!(
        note(step(&s, &mut held, [144, 21, 0])),
        ([144, 61, 0], colour_message(&s[1], [7, 8, 9]))
    );
    assert!(matches!(step(&s, &mut held, [144, 55, 100]), Response::Ignore));
    assert!(held.is_empty());
    assert!(matches!(
        step(&s, &mut held, [176, 19, 127]),
        Response::Control { message: [176, 19, 127] }
    ));
    assert!(matches!(step(&s, &mut held, [128, 11, 0]), Response::Ignore));
}

#[test]
fn pressing_twice_holds_once() {
    let s = vec![Section::new(vec![11], [1, 2, 3], [4, 5, 6], 60)];
    let mut held: Vec<u8> = Vec::new();
    step(&s, &mut held, [144, 11, 100]);
    step(&s, &mut held, [144, 11, 100]);
    assert_eq!(held, vec![11]);
    assert_eq!(note(step(&s, &mut held, [144, 11, 0])).1, colour_message(&s[0], [1, 2, 3]));
}

#[test]
fn hex_midi_note() {
    let s = check_sections("11, #7f0000, #007f00, 0x3c", None).unwrap();
    assert_eq!(s.len(), 1);
    assert_eq!(s[0].pads, vec![11]);
    assert_eq!(s[0].main_colour, [127, 0, 0]);
    assert_eq!(s[0].active_colour, [0, 127, 0]);
    assert_eq!(s[0].midi_note, 60);
    assert_eq!(parse_linear("11, #7f0000, #007f00, 0xFF").unwrap()[0].midi_note, 255);
    for bad in ["0x", "0x100", "0X3c", "3c", "x3c"] {
        let text = format!("11, #7f0000, #007f00, {bad}");
        assert_eq!(parse_linear(&text).unwrap_err(), ConfigError::InvalidMidiNote { line: 0 });
    }
}

#[test]
fn accepted_configuration_loads() {
    let text = "11 12, #7f0000, #007f00, 60\n, #000000, #7f7f7f, 61";
    assert!(!is_json_text(text));
    assert!(load_sections_from(text, false, None).is_ok());
    let s = load_sections(text, false, None);
    assert_eq!(s.len(), 2);
    assert_eq!(s[1].pads.len(), 62);
    assert!(is_json_text(" [1, {\"a\": 2}] "));
    assert!(!is_json_text("[1, 2] x"));
}

#[test]
fn only_three_byte_messages_pass() {
    assert_eq!(three_byte_message(&[144, 11, 5]), Some([144, 11, 5]));
    assert_eq!(three_byte_message(&[144, 11]), None);
    assert_eq!(three_byte_message(&[240, 0, 32, 41]), None);
}

#[test]
fn port_is_found_by_name() {
    let names = vec![
        None,
        Some("Midi Through".to_string()),
        Some("Launchpad X:Launchpad X LPX MIDI In 20:0".to_string()),
        Some("LPX MIDI In 2".to_string()),
    ];
    assert_eq!(find_port(&names, "Launchpad X LPX MIDI In"), Some(2));
    assert_eq!(find_port(&names, "LPX MIDI In"), Some(2));
    assert_eq!(find_port(&names, ""), Some(1));
    assert_eq!(find_port(&names, "Nothing"), None);
}
