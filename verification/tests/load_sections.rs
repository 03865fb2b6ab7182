use qzn3t_pad::config::{is_json_text, load_sections, load_sections_from, ColourRole, ConfigError};
use qzn3t_pad::section::Section;

/// Reads the sections of a JSON text by hand, field by field.
fn json_sections(content: &str) -> Option<Vec<Section>> {
    let value: serde_json::Value = serde_json::from_str(content).ok()?;
    let mut out = Vec::new();
    for item in value.as_array()? {
        let obj = item.as_object()?;
        let byte = |v: &serde_json::Value| v.as_u64().and_then(|x| u8::try_from(x).ok());
        let pads = obj
            .get("pads")?
            .as_array()?
            .iter()
            .map(byte)
            .collect::<Option<Vec<u8>>>()?;
        let colour = |name: &str| -> Option<[u8; 3]> {
            let c = obj.get(name)?.as_array()?;
            if c.len() != 3 {
                return None;
            }
            Some([byte(&c[0])?, byte(&c[1])?, byte(&c[2])?])
        };
        let main_colour = colour("main_colour")?;
        let active_colour = colour("active_colour")?;
        let midi_note = byte(obj.get("midi_note")?)?;
        out.push(Section::new(pads, main_colour, active_colour, midi_note));
    }
    Some(out)
}

/// The refusal as the program reports it.
fn describe(e: ConfigError) -> String {
    match e {
        ConfigError::WrongFieldCount { line, fields } => format!(
            "Error qzn3t_pad: Invalid line in configuration record.  Wrong number of fields: {fields}  Line: {line}"
        ),
        ConfigError::InvalidPad { line, token } => {
            format!("Error qzn3t_pad: Invalid line {line}. Pad is invalid: token {token}")
        }
        ConfigError::InvalidColour { role, .. } => {
            let name = match role {
                ColourRole::Main => "main_colour",
                ColourRole::Active => "active_colour",
            };
            format!("Error qzn3t_pad: Invalid line. Colour: {name} is invalid")
        }
        ConfigError::InvalidMidiNote { line } => {
            format!("Error qzn3t_pad: Invalid line {line}. Midid note is invalid")
        }
        ConfigError::InvalidJson => "Error qzn3t_pad: Invalid JSON configuraton data".to_string(),
        ConfigError::TooManyDefaultSections => {
            "Error qzn3t_pad: Invalid sections.  There must be at most one default section"
                .to_string()
        }
        ConfigError::ColourOutOfRange { section, role, component, .. } => format!(
            "Error qzn3t_pad: Invalid colour {role:?} of section {section}.  Each component must be in 0..127  Component: {component}"
        ),
        ConfigError::RepeatedPad { pad } => {
            format!("Error qzn3t_pad: Invalid sections. Repeated pad: {pad}")
        }
    }
}

/// Loads a configuration text as the program does, stopping on a refusal.
fn load(content: &str) -> Vec<Section> {
    let is_json = is_json_text(content);
    let json = if is_json { json_sections(content) } else { None };
    if let Err(e) = load_sections_from(content, is_json, json.clone()) {
        panic!("{}", describe(e));
    }
    load_sections(content, is_json, json)
}

#[test]
fn test_load_sections_from_json() {
    let json_content = r#"
        [
            {
                "pads": [11, 12, 13],
                "main_colour": [127, 0, 0],
                "active_colour": [0, 127, 0],
                "midi_note": 60
            },
            {
                "pads": [],
                "main_colour": [0, 0, 0],
                "active_colour": [127, 127, 127],
                "midi_note": 0
            }
        ]
        "#;
    let sections = load(json_content);
    assert_eq!(sections.len(), 2);
    assert_eq!(sections[0].pads, vec![11, 12, 13]);
    assert_eq!(sections[1].pads.len(), 64 - 3);
}

#[test]
fn test_load_sections_from_csv_like() {
    let csv_content = "11 12 13, #7f0000, #007f00, 60\n21 22 23, #00007f, #7f7f00, 61";
    let sections = load(csv_content);
    assert_eq!(sections.len(), 2);
    assert_eq!(sections[0].pads, vec![11, 12, 13]);
    assert_eq!(sections[0].main_colour, [127, 0, 0]);
    assert_eq!(sections[1].pads, vec![21, 22, 23]);
}

#[test]
fn test_load_sections_from_csv_like_with_default() {
    let csv_content = "11 12 13, #7f0000, #007f00, 60\n21 22 23, #00007f, #7f7f00, 61\n, #7f007f, #7f7f7f, 62";
    let sections = load(csv_content);
    assert_eq!(sections.len(), 3);
    assert_eq!(sections[0].pads, vec![11, 12, 13]);
    assert_eq!(sections[0].main_colour, [127, 0, 0]);
    assert_eq!(sections[1].pads, vec![21, 22, 23]);
    assert_eq!(sections[2].pads.len(), 64 - 6);
    assert_eq!(sections[2].main_colour, [0x7f, 0, 0x7f]);
}

#[test]
fn test_load_sections_csv_comments() {
    let csv_content = "11  12 13, #7f0000, #007f00, 60\n # This is a comment line\n21 22 23, #00007f, #7f7f00, 61";
    let sections = load(csv_content);
    assert_eq!(sections.len(), 2);
    assert_eq!(sections[0].pads, vec![11, 12, 13]);
    assert_eq!(sections[0].main_colour, [127, 0, 0]);
    assert_eq!(sections[1].pads, vec![21, 22, 23]);
}

#[test]
fn test_load_sections_with_default_section() {
    let content = r#"
        [
            {
                "pads": [11, 12],
                "main_colour": [127, 0, 0],
                "active_colour": [0, 127, 0],
                "midi_note": 60
            },
            {
                "pads": [],
                "main_colour": [0, 0, 0],
                "active_colour": [127, 127, 127],
                "midi_note": 0
            }
        ]
        "#;
    let sections = load(content);
    assert!(sections[1].pads.len() > 2); // Default section should have been filled
}

#[test]
#[should_panic(expected = "Invalid line in configuration record")]
fn test_invalid_csv_line() {
    let content = "11 12, #7f0000, #007f00"; // Missing midi_note
    load(content);
}

#[test]
#[should_panic(expected = "There must be at most one default section")]
fn test_invalid_csv_line_more_default() {
    let content = "11 12, #7f0000, #007f00, 60\n, #7f0000, #007f7f, 61\n, #7f4e00, #e07f7f, 62";
    load(content);
}

#[test]
#[should_panic(expected = "Repeated pad")]
fn test_invalid_csv_line_repeat_pads() {
    let content = "11 12, #7f0000, #007f00, 60\n11, #7f0000, #007f7f, 61\n, #7f4e00, #707f7f, 62";
    load(content);
}

#[test]
#[should_panic(expected = "Invalid section")]
fn test_invalid_csv_line_repeat_pads_in_section() {
    let content = "11 12, #7f0000, #007f00, 60\n31 41 51 31, #7f0000, #007f7f, 61\n, #7f4e00, #e07f7f, 62";
    load(content);
}

#[test]
#[should_panic(expected = "Colour: main_colour is invalid")]
fn test_invalid_color_format() {
    let content = "11 12, #7f00, #007f00, 60"; // Invalid color format
    load(content);
}

#[test]
#[should_panic(expected = "Pad is invalid")]
fn test_invalid_pad_number() {
    let content = "11 99, #7f0000, #007f00, 60"; // Pad 99 is invalid
    load(content);
}
