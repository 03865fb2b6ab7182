//! The section configuration: the line format, the checks that every
//! configuration passes, and the completion of the default section.
use vstd::prelude::*;
use crate::number::{lemma_numeral_digits, numeral, parse_u8_radix, parse_u8_range};
use crate::section::{Section, SectionSpec};
use crate::text::{
    chars_of, lemma_split_on_nonempty, piece, split_on, split_ranges, token_ranges, trim,
    trim_range, ws_tokens,
};
use std::collections::HashSet;

verus! {

broadcast use vstd::std_specs::hash::group_hash_axioms;

/// Which of a section's two colours.
#[derive(Clone, Copy, Debug, PartialEq, Eq, Structural)]
pub enum ColourRole {
    Main,
    Active,
}

/// Why a configuration is refused. `line` counts the lines of the text
/// from 0, comment lines included; `section` counts sections from 0.
#[derive(Clone, Copy, Debug, PartialEq, Eq, Structural)]
pub enum ConfigError {
    /// A line does not have exactly four comma-separated fields.
    WrongFieldCount { line: usize, fields: usize },
    /// The `token`-th pad of a line is not a number from 11 to 88 whose
    /// digits are both 1 to 8.
    InvalidPad { line: usize, token: usize },
    /// A colour field is not seven characters, the first of them ASCII and
    /// the last six three pairs that `u8::from_str_radix(_, 16)` reads (an
    /// optional `+`, then hexadecimal digits).
    InvalidColour { line: usize, role: ColourRole },
    /// The MIDI note field is neither a decimal number (optional `+`) nor
    /// `0x` followed by a hexadecimal number, from 0 to 255.
    InvalidMidiNote { line: usize },
    /// The text is JSON, but not a list of sections.
    InvalidJson,
    /// More than one section has no pads.
    TooManyDefaultSections,
    /// A colour component of a section is above 127; `red`, `green`,
    /// `blue` is the whole colour.
    ColourOutOfRange { section: usize, role: ColourRole, red: u8, green: u8, blue: u8, component: u8 },
    /// A pad is named twice, in one section or in two.
    RepeatedPad { pad: u8 },
}

// ---------------------------------------------------------------------
// The line format
// ---------------------------------------------------------------------

/// The lines of a text: the pieces between newlines, where a newline at the
/// very end does not start another line. (A carriage return before a
/// newline stays on the line; every use of a line trims it away.)
pub open spec fn lines_of(text: Seq<char>) -> Seq<Seq<char>> {
    let parts = split_on(text, '\n');
    if parts.last().len() == 0 {
        parts.drop_last()
    } else {
        parts
    }
}

/// A line whose first non-blank character is `#`.
pub open spec fn is_comment(line: Seq<char>) -> bool {
    trim(line).len() > 0 && trim(line)[0] == '#'
}

/// A pad number: row digit and column digit both from 1 to 8.
pub open spec fn valid_pad(p: u8) -> bool {
    0 < p % 10 < 9 && 0 < p / 10 < 9
}

/// A pad written as a decimal number.
pub open spec fn parse_pad(tok: Seq<char>) -> Option<u8> {
    match parse_u8_radix(tok, 10) {
        Some(p) => if valid_pad(p) {
            Some(p)
        } else {
            None
        },
        None => None,
    }
}

/// The pads that the tokens name, or the index of the first token that is
/// not a pad.
pub open spec fn parse_pads(toks: Seq<Seq<char>>) -> Result<Seq<u8>, int>
    decreases toks.len(),
{
    if toks.len() == 0 {
        Ok(Seq::<u8>::empty())
    } else {
        match parse_pads(toks.drop_last()) {
            Err(i) => Err(i),
            Ok(ps) => match parse_pad(toks.last()) {
                Some(p) => Ok(ps.push(p)),
                None => Err(toks.len() - 1),
            },
        }
    }
}

/// A colour written as seven characters, `#RRGGBB`: the first character is
/// any ASCII character, each pair after it a hexadecimal number.
pub open spec fn parse_colour(s: Seq<char>) -> Option<[u8; 3]> {
    if s.len() == 7 && (s[0] as u32) < 128 {
        match (
            parse_u8_radix(s.subrange(1, 3), 16),
            parse_u8_radix(s.subrange(3, 5), 16),
            parse_u8_radix(s.subrange(5, 7), 16),
        ) {
            (Some(r), Some(g), Some(b)) => Some([r, g, b]),
            _ => None,
        }
    } else {
        None
    }
}

/// A MIDI note written in decimal, or in hexadecimal after `0x`.
pub open spec fn parse_note(s: Seq<char>) -> Option<u8> {
    if s.len() >= 2 && s[0] == '0' && s[1] == 'x' {
        parse_u8_radix(s.skip(2), 16)
    } else {
        parse_u8_radix(s, 10)
    }
}

/// The trimmed comma-separated fields of a line.
pub open spec fn fields_of(line: Seq<char>) -> Seq<Seq<char>> {
    split_on(line, ',').map_values(|f: Seq<char>| trim(f))
}

/// The section that a line (`pads, main colour, active colour, note`)
/// describes, or the first fault of the line, fields taken in order.
pub open spec fn parse_line(line: Seq<char>, idx: int) -> Result<SectionSpec, ConfigError> {
    let fields = fields_of(line);
    if fields.len() != 4 {
        Err(ConfigError::WrongFieldCount { line: idx as usize, fields: fields.len() as usize })
    } else {
        match parse_pads(ws_tokens(fields[0])) {
            Err(t) => Err(ConfigError::InvalidPad { line: idx as usize, token: t as usize }),
            Ok(pads) => match parse_colour(fields[1]) {
                None => Err(ConfigError::InvalidColour { line: idx as usize, role: ColourRole::Main }),
                Some(main_colour) => match parse_colour(fields[2]) {
                    None => Err(
                        ConfigError::InvalidColour { line: idx as usize, role: ColourRole::Active },
                    ),
                    Some(active_colour) => match parse_note(fields[3]) {
                        None => Err(ConfigError::InvalidMidiNote { line: idx as usize }),
                        Some(midi_note) => Ok(
                            SectionSpec { pads, main_colour, active_colour, midi_note },
                        ),
                    },
                },
            },
        }
    }
}

/// The sections of the non-comment lines, in order, or the fault of the
/// first line that has one.
pub open spec fn parse_lines(ls: Seq<Seq<char>>) -> Result<Seq<SectionSpec>, ConfigError>
    decreases ls.len(),
{
    if ls.len() == 0 {
        Ok(Seq::<SectionSpec>::empty())
    } else {
        match parse_lines(ls.drop_last()) {
            Err(e) => Err(e),
            Ok(v) => if is_comment(ls.last()) {
                Ok(v)
            } else {
                match parse_line(ls.last(), ls.len() - 1) {
                    Ok(s) => Ok(v.push(s)),
                    Err(e) => Err(e),
                }
            },
        }
    }
}

/// The sections that a text in the line format describes.
pub open spec fn parse_linear_spec(text: Seq<char>) -> Result<Seq<SectionSpec>, ConfigError> {
    parse_lines(lines_of(text))
}

// ---------------------------------------------------------------------
// The checks and the default section
// ---------------------------------------------------------------------

/// How many sections have no pads.
pub open spec fn count_defaults(secs: Seq<SectionSpec>) -> nat
    decreases secs.len(),
{
    if secs.len() == 0 {
        0
    } else {
        count_defaults(secs.drop_last()) + if secs.last().pads.len() == 0 {
            1nat
        } else {
            0nat
        }
    }
}

/// The first component above 127 of a colour.
pub open spec fn colour_fault(c: [u8; 3], idx: int, role: ColourRole) -> Option<ConfigError> {
    if c[0] > 127 {
        Some(
            ConfigError::ColourOutOfRange { section: idx as usize, role, red: c[0], green: c[1], blue: c[2], component: c[0] },
        )
    } else if c[1] > 127 {
        Some(
            ConfigError::ColourOutOfRange { section: idx as usize, role, red: c[0], green: c[1], blue: c[2], component: c[1] },
        )
    } else if c[2] > 127 {
        Some(
            ConfigError::ColourOutOfRange { section: idx as usize, role, red: c[0], green: c[1], blue: c[2], component: c[2] },
        )
    } else {
        None
    }
}

/// The first component above 127 of a section's colours, main colour first.
pub open spec fn section_colour_fault(s: SectionSpec, idx: int) -> Option<ConfigError> {
    match colour_fault(s.main_colour, idx, ColourRole::Main) {
        Some(e) => Some(e),
        None => colour_fault(s.active_colour, idx, ColourRole::Active),
    }
}

/// The first colour component above 127, sections in order.
pub open spec fn colours_fault(secs: Seq<SectionSpec>) -> Option<ConfigError>
    decreases secs.len(),
{
    if secs.len() == 0 {
        None
    } else {
        match colours_fault(secs.drop_last()) {
            Some(e) => Some(e),
            None => section_colour_fault(secs.last(), secs.len() - 1),
        }
    }
}

/// All the pads of all the sections, in order.
pub open spec fn flat_pads(secs: Seq<SectionSpec>) -> Seq<u8>
    decreases secs.len(),
{
    if secs.len() == 0 {
        Seq::<u8>::empty()
    } else {
        flat_pads(secs.drop_last()) + secs.last().pads
    }
}

/// The first element of `s` that occurs earlier in `s`.
pub open spec fn first_repeat(s: Seq<u8>) -> Option<u8>
    decreases s.len(),
{
    if s.len() == 0 {
        None
    } else {
        match first_repeat(s.drop_last()) {
            Some(p) => Some(p),
            None => if s.drop_last().contains(s.last()) {
                Some(s.last())
            } else {
                None
            },
        }
    }
}

/// The index of the first section with no pads.
pub open spec fn default_index(secs: Seq<SectionSpec>) -> Option<int>
    decreases secs.len(),
{
    if secs.len() == 0 {
        None
    } else {
        match default_index(secs.drop_last()) {
            Some(i) => Some(i),
            None => if secs.last().pads.len() == 0 {
                Some(secs.len() - 1)
            } else {
                None
            },
        }
    }
}

/// The 64 pads of the grid, row by row: 11..18, 21..28, ..., 81..88.
pub open spec fn grid() -> Seq<u8> {
    Seq::new(64, |k: int| ((k / 8 + 1) * 10 + k % 8 + 1) as u8)
}

/// The first `k` pads of the grid that `present` does not hold.
pub open spec fn missing_upto(present: Seq<u8>, k: int) -> Seq<u8> {
    grid().take(k).filter(|p: u8| !present.contains(p))
}

/// The pads of the grid that `present` does not hold, in grid order.
pub open spec fn missing_pads(present: Seq<u8>) -> Seq<u8> {
    missing_upto(present, 64)
}

/// The sections with the default section (the first without pads) given
/// every grid pad that no section names, when fewer than 64 pads are named.
pub open spec fn fill_default(secs: Seq<SectionSpec>) -> Seq<SectionSpec> {
    match default_index(secs) {
        Some(i) => if flat_pads(secs).len() < 64 {
            secs.update(
                i,
                SectionSpec {
                    pads: missing_pads(flat_pads(secs)),
                    main_colour: secs[i].main_colour,
                    active_colour: secs[i].active_colour,
                    midi_note: secs[i].midi_note,
                },
            )
        } else {
            secs
        },
        None => secs,
    }
}

/// The checks, in order (at most one default section, no pad twice, colour
/// components up to 127), then the completion of the default section.
pub open spec fn finalize(secs: Seq<SectionSpec>) -> Result<Seq<SectionSpec>, ConfigError> {
    if count_defaults(secs) > 1 {
        Err(ConfigError::TooManyDefaultSections)
    } else {
        match first_repeat(flat_pads(secs)) {
            Some(p) => Err(ConfigError::RepeatedPad { pad: p }),
            None => match colours_fault(secs) {
                Some(e) => Err(e),
                None => Ok(fill_default(secs)),
            },
        }
    }
}

/// The sections of a configuration text: a JSON text gives the sections
/// that were read from it (`json_sections`, `None` when it is not a list of
/// sections), any other text is read in the line format; then the checks.
pub open spec fn load_spec(
    text: Seq<char>,
    is_json: bool,
    json_sections: Option<Seq<SectionSpec>>,
) -> Result<Seq<SectionSpec>, ConfigError> {
    let parsed = if is_json {
        match json_sections {
            Some(v) => Ok(v),
            None => Err(ConfigError::InvalidJson),
        }
    } else {
        parse_linear_spec(text)
    };
    match parsed {
        Err(e) => Err(e),
        Ok(v) => finalize(v),
    }
}

/// The value of a result of sections.
pub open spec fn result_view(r: Result<Vec<Section>, ConfigError>) -> Result<
    Seq<SectionSpec>,
    ConfigError,
> {
    match r {
        Ok(v) => Ok(v.deep_view()),
        Err(e) => Err(e),
    }
}

/// The value of an optional list of sections.
pub open spec fn option_view(o: Option<Vec<Section>>) -> Option<Seq<SectionSpec>> {
    match o {
        Some(v) => Some(v.deep_view()),
        None => None,
    }
}


// ---------------------------------------------------------------------
// Reading the line format
// ---------------------------------------------------------------------

proof fn lemma_parse_pads_err(ts: Seq<Seq<char>>, j: int, i: int)
    requires
        0 <= j <= ts.len(),
        parse_pads(ts.take(j)) == Err::<Seq<u8>, int>(i),
    ensures
        parse_pads(ts) == Err::<Seq<u8>, int>(i),
    decreases ts.len() - j,
{
    if j == ts.len() {
        assert(ts.take(j) =~= ts);
    } else {
        assert(ts.take(j + 1).drop_last() =~= ts.take(j));
        lemma_parse_pads_err(ts, j + 1, i);
    }
}

proof fn lemma_parse_lines_err(ls: Seq<Seq<char>>, j: int, e: ConfigError)
    requires
        0 <= j <= ls.len(),
        parse_lines(ls.take(j)) == Err::<Seq<SectionSpec>, ConfigError>(e),
    ensures
        parse_lines(ls) == Err::<Seq<SectionSpec>, ConfigError>(e),
    decreases ls.len() - j,
{
    if j == ls.len() {
        assert(ls.take(j) =~= ls);
    } else {
        assert(ls.take(j + 1).drop_last() =~= ls.take(j));
        lemma_parse_lines_err(ls, j + 1, e);
    }
}

proof fn lemma_parse_lines_step(ls: Seq<Seq<char>>, k: int)
    requires
        0 <= k < ls.len(),
    ensures
        parse_lines(ls.take(k + 1)) == match parse_lines(ls.take(k)) {
            Err(e) => Err(e),
            Ok(v) => if is_comment(ls[k]) {
                Ok(v)
            } else {
                match parse_line(ls[k], k) {
                    Ok(s) => Ok(v.push(s)),
                    Err(e) => Err(e),
                }
            },
        },
{
    assert(ls.take(k + 1).drop_last() =~= ls.take(k));
    assert(ls.take(k + 1).last() == ls[k]);
}

/// Whether the line `text[lo..hi]` is a comment.
fn line_is_comment(text: &Vec<char>, lo: usize, hi: usize) -> (r: bool)
    requires
        lo <= hi <= text@.len(),
    ensures
        r == is_comment(text@.subrange(lo as int, hi as int)),
{
    let (ta, tb) = trim_range(text, lo, hi);
    if ta < tb {
        assert(piece(text@, (ta, tb))[0] == text@[ta as int]);
        text[ta] == '#'
    } else {
        false
    }
}

/// Whether `p` is a pad of the grid (row and column digits from 1 to 8).
pub fn is_valid_pad(p: u8) -> (r: bool)
    ensures
        r == valid_pad(p),
{
    let row = p % 10;
    let col = p / 10;
    row > 0 && row < 9 && col > 0 && col < 9
}

/// Reads `text[lo..hi]` as a MIDI note: decimal, or hexadecimal after `0x`.
fn parse_note_range(text: &Vec<char>, lo: usize, hi: usize) -> (r: Option<u8>)
    requires
        lo <= hi <= text@.len(),
    ensures
        r == parse_note(text@.subrange(lo as int, hi as int)),
{
    let ghost s = text@.subrange(lo as int, hi as int);
    if hi - lo >= 2 && text[lo] == '0' && text[lo + 1] == 'x' {
        assert(s.skip(2) =~= text@.subrange(lo + 2, hi as int));
        parse_u8_range(text, lo + 2, hi, 16)
    } else {
        parse_u8_range(text, lo, hi, 10)
    }
}

/// Reads `text[lo..hi]` as a `#RRGGBB` colour.
fn parse_colour_range(text: &Vec<char>, lo: usize, hi: usize) -> (r: Option<[u8; 3]>)
    requires
        lo <= hi <= text@.len(),
    ensures
        r == parse_colour(text@.subrange(lo as int, hi as int)),
{
    let ghost s = text@.subrange(lo as int, hi as int);
    if hi - lo != 7 {
        return None;
    }
    if (text[lo] as u32) >= 128 {
        return None;
    }
    assert(s.subrange(1, 3) =~= text@.subrange(lo + 1, lo + 3));
    assert(s.subrange(3, 5) =~= text@.subrange(lo + 3, lo + 5));
    assert(s.subrange(5, 7) =~= text@.subrange(lo + 5, lo + 7));
    let r = parse_u8_range(text, lo + 1, lo + 3, 16);
    let g = parse_u8_range(text, lo + 3, lo + 5, 16);
    let b = parse_u8_range(text, lo + 5, lo + 7, 16);
    match (r, g, b) {
        (Some(r), Some(g), Some(b)) => Some([r, g, b]),
        _ => None,
    }
}

/// Reads the whitespace-separated pads of `text[lo..hi]`; on failure, the
/// index of the first token that is not a pad.
fn parse_pads_range(text: &Vec<char>, lo: usize, hi: usize) -> (r: Result<Vec<u8>, usize>)
    requires
        lo <= hi <= text@.len(),
    ensures
        match r {
            Ok(v) => parse_pads(ws_tokens(text@.subrange(lo as int, hi as int))) == Ok::<
                Seq<u8>,
                int,
            >(v@),
            Err(t) => parse_pads(ws_tokens(text@.subrange(lo as int, hi as int))) == Err::<
                Seq<u8>,
                int,
            >(t as int),
        },
{
    let toks = token_ranges(text, lo, hi);
    let ghost ts = ws_tokens(text@.subrange(lo as int, hi as int));
    let mut pads: Vec<u8> = Vec::new();
    let mut k: usize = 0;
    assert(ts.take(0) =~= Seq::<Seq<char>>::empty());
    while k < toks.len()
        invariant
            lo <= hi <= text@.len(),
            ts == ws_tokens(text@.subrange(lo as int, hi as int)),
            toks@.len() == ts.len(),
            forall|j: int|
                0 <= j < toks@.len() ==> lo <= #[trigger] toks@[j].0 <= toks@[j].1 <= hi && piece(
                    text@,
                    toks@[j],
                ) == ts[j],
            k <= toks@.len(),
            parse_pads(ts.take(k as int)) == Ok::<Seq<u8>, int>(pads@),
        decreases toks@.len() - k,
    {
        let (a, b) = toks[k];
        assert(ts.take(k + 1).drop_last() =~= ts.take(k as int));
        assert(ts.take(k + 1).last() == ts[k as int]);
        let parsed = parse_u8_range(text, a, b, 10);
        let ok = match parsed {
            Some(p) => is_valid_pad(p),
            None => false,
        };
        if !ok {
            proof {
                lemma_parse_pads_err(ts, k + 1, k as int);
            }
            return Err(k);
        }
        pads.push(parsed.unwrap());
        k = k + 1;
    }
    assert(ts.take(k as int) =~= ts);
    Ok(pads)
}

/// Reads the line `text[lo..hi]`, whose index among the lines is `idx`.
fn parse_line_range(text: &Vec<char>, lo: usize, hi: usize, idx: usize) -> (r: Result<
    Section,
    ConfigError,
>)
    requires
        lo <= hi <= text@.len(),
    ensures
        match r {
            Ok(s) => parse_line(text@.subrange(lo as int, hi as int), idx as int) == Ok::<
                SectionSpec,
                ConfigError,
            >(s@),
            Err(e) => parse_line(text@.subrange(lo as int, hi as int), idx as int) == Err::<
                SectionSpec,
                ConfigError,
            >(e),
        },
{
    let ghost line = text@.subrange(lo as int, hi as int);
    let parts = split_ranges(text, lo, hi, ',');
    let ghost fs = fields_of(line);
    assert(fs.len() == split_on(line, ',').len());
    if parts.len() != 4 {
        return Err(ConfigError::WrongFieldCount { line: idx, fields: parts.len() });
    }
    let f0 = trim_range(text, parts[0].0, parts[0].1);
    let f1 = trim_range(text, parts[1].0, parts[1].1);
    let f2 = trim_range(text, parts[2].0, parts[2].1);
    let f3 = trim_range(text, parts[3].0, parts[3].1);
    assert(piece(text@, f0) == fs[0]);
    assert(piece(text@, f1) == fs[1]);
    assert(piece(text@, f2) == fs[2]);
    assert(piece(text@, f3) == fs[3]);
    let pads = match parse_pads_range(text, f0.0, f0.1) {
        Ok(v) => v,
        Err(t) => {
            return Err(ConfigError::InvalidPad { line: idx, token: t });
        },
    };
    let main_colour = match parse_colour_range(text, f1.0, f1.1) {
        Some(c) => c,
        None => {
            return Err(ConfigError::InvalidColour { line: idx, role: ColourRole::Main });
        },
    };
    let active_colour = match parse_colour_range(text, f2.0, f2.1) {
        Some(c) => c,
        None => {
            return Err(ConfigError::InvalidColour { line: idx, role: ColourRole::Active });
        },
    };
    let midi_note = match parse_note_range(text, f3.0, f3.1) {
        Some(n) => n,
        None => {
            return Err(ConfigError::InvalidMidiNote { line: idx });
        },
    };
    Ok(Section::new(pads, main_colour, active_colour, midi_note))
}

/// Reads a configuration in the line format: one section per line, as
/// `pads, #RRGGBB, #RRGGBB, note`, where `pads` lists pad numbers separated
/// by whitespace; lines whose first non-blank character is `#` are
/// comments. Gives the sections in line order, or the first fault.
pub fn parse_linear(content: &str) -> (r: Result<Vec<Section>, ConfigError>)
    ensures
        result_view(r) == parse_linear_spec(content@),
{
    let text = chars_of(content);
    let n = text.len();
    let parts = split_ranges(&text, 0, n, '\n');
    assert(text@.subrange(0, n as int) =~= text@);
    let ghost sp = split_on(text@, '\n');
    let ghost ls = lines_of(text@);
    proof {
        lemma_split_on_nonempty(text@, '\n');
    }
    let last = parts.len() - 1;
    let count = if parts[last].0 == parts[last].1 {
        last
    } else {
        parts.len()
    };
    assert(piece(text@, parts@[last as int]) == sp.last());
    assert(ls.len() == count);
    assert(forall|k: int| 0 <= k < count ==> ls[k] == #[trigger] sp[k]);
    let mut out: Vec<Section> = Vec::new();
    let mut k: usize = 0;
    assert(ls.take(0) =~= Seq::<Seq<char>>::empty());
    assert(out.deep_view() =~= Seq::<SectionSpec>::empty());
    while k < count
        invariant
            n == text@.len(),
            text@ == content@,
            ls == lines_of(text@),
            count == ls.len(),
            count <= parts@.len(),
            forall|j: int|
                0 <= j < count ==> #[trigger] parts@[j].0 <= parts@[j].1 <= n && piece(
                    text@,
                    parts@[j],
                ) == ls[j],
            k <= count,
            parse_lines(ls.take(k as int)) == Ok::<Seq<SectionSpec>, ConfigError>(
                out.deep_view(),
            ),
        decreases count - k,
    {
        let (a, b) = parts[k];
        proof {
            lemma_parse_lines_step(ls, k as int);
        }
        if !line_is_comment(&text, a, b) {
            match parse_line_range(&text, a, b, k) {
                Ok(s) => {
                    let ghost before = out.deep_view();
                    out.push(s);
                    assert(out.deep_view() =~= before.push(s@));
                },
                Err(e) => {
                    proof {
                        lemma_parse_lines_err(ls, k + 1, e);
                    }
                    return Err(e);
                },
            }
        }
        k = k + 1;
    }
    assert(ls.take(k as int) =~= ls);
    Ok(out)
}


// ---------------------------------------------------------------------
// The checks and the default section, executed
// ---------------------------------------------------------------------

proof fn lemma_count_defaults_step(v: Seq<SectionSpec>, i: int)
    requires
        0 <= i < v.len(),
    ensures
        count_defaults(v.take(i + 1)) == count_defaults(v.take(i)) + if v[i].pads.len() == 0 {
            1nat
        } else {
            0nat
        },
{
    assert(v.take(i + 1).drop_last() =~= v.take(i));
}

proof fn lemma_colours_fault_step(v: Seq<SectionSpec>, i: int)
    requires
        0 <= i < v.len(),
    ensures
        colours_fault(v.take(i + 1)) == match colours_fault(v.take(i)) {
            Some(e) => Some(e),
            None => section_colour_fault(v[i], i),
        },
{
    assert(v.take(i + 1).drop_last() =~= v.take(i));
}

proof fn lemma_colours_fault_prefix(v: Seq<SectionSpec>, j: int, e: ConfigError)
    requires
        0 <= j <= v.len(),
        colours_fault(v.take(j)) == Some(e),
    ensures
        colours_fault(v) == Some(e),
    decreases v.len() - j,
{
    if j == v.len() {
        assert(v.take(j) =~= v);
    } else {
        lemma_colours_fault_step(v, j);
        lemma_colours_fault_prefix(v, j + 1, e);
    }
}

proof fn lemma_flat_pads_step(v: Seq<SectionSpec>, i: int)
    requires
        0 <= i < v.len(),
    ensures
        flat_pads(v.take(i + 1)) == flat_pads(v.take(i)) + v[i].pads,
{
    assert(v.take(i + 1).drop_last() =~= v.take(i));
}

/// The pads of the first sections come first among all the pads.
proof fn lemma_flat_pads_prefix(v: Seq<SectionSpec>, m: int)
    requires
        0 <= m <= v.len(),
    ensures
        flat_pads(v.take(m)).len() <= flat_pads(v).len(),
        flat_pads(v).take(flat_pads(v.take(m)).len() as int) == flat_pads(v.take(m)),
    decreases v.len() - m,
{
    if m == v.len() {
        assert(v.take(m) =~= v);
        assert(flat_pads(v).take(flat_pads(v).len() as int) =~= flat_pads(v));
    } else {
        lemma_flat_pads_step(v, m);
        lemma_flat_pads_prefix(v, m + 1);
        let a = flat_pads(v.take(m));
        let b = flat_pads(v.take(m + 1));
        assert(b.take(a.len() as int) =~= a);
        assert(flat_pads(v).take(a.len() as int) =~= b.take(a.len() as int));
    }
}

proof fn lemma_first_repeat_prefix(s: Seq<u8>, k: int, p: u8)
    requires
        0 <= k <= s.len(),
        first_repeat(s.take(k)) == Some(p),
    ensures
        first_repeat(s) == Some(p),
    decreases s.len() - k,
{
    if k == s.len() {
        assert(s.take(k) =~= s);
    } else {
        assert(s.take(k + 1).drop_last() =~= s.take(k));
        lemma_first_repeat_prefix(s, k + 1, p);
    }
}

proof fn lemma_default_index_step(v: Seq<SectionSpec>, i: int)
    requires
        0 <= i < v.len(),
    ensures
        default_index(v.take(i + 1)) == match default_index(v.take(i)) {
            Some(j) => Some(j),
            None => if v[i].pads.len() == 0 {
                Some(i)
            } else {
                None
            },
        },
{
    assert(v.take(i + 1).drop_last() =~= v.take(i));
}

proof fn lemma_default_index_prefix(v: Seq<SectionSpec>, j: int, d: int)
    requires
        0 <= j <= v.len(),
        default_index(v.take(j)) == Some(d),
    ensures
        default_index(v) == Some(d),
    decreases v.len() - j,
{
    if j == v.len() {
        assert(v.take(j) =~= v);
    } else {
        lemma_default_index_step(v, j);
        lemma_default_index_prefix(v, j + 1, d);
    }
}

/// How many sections have no pads.
fn count_default_sections(sections: &Vec<Section>) -> (r: usize)
    ensures
        r == count_defaults(sections.deep_view()),
{
    let ghost v = sections.deep_view();
    let mut n: usize = 0;
    let mut i: usize = 0;
    assert(v.take(0) =~= Seq::<SectionSpec>::empty());
    while i < sections.len()
        invariant
            v == sections.deep_view(),
            i <= sections@.len(),
            n <= i,
            n == count_defaults(v.take(i as int)),
        decreases sections@.len() - i,
    {
        proof {
            lemma_count_defaults_step(v, i as int);
        }
        if sections[i].pads.len() == 0 {
            n = n + 1;
        }
        i = i + 1;
    }
    assert(v.take(i as int) =~= v);
    n
}

/// The first component above 127 of a colour.
fn check_colour(c: [u8; 3], idx: usize, role: ColourRole) -> (r: Option<ConfigError>)
    ensures
        r == colour_fault(c, idx as int, role),
{
    if c[0] > 127 {
        Some(ConfigError::ColourOutOfRange { section: idx, role, red: c[0], green: c[1], blue: c[2], component: c[0] })
    } else if c[1] > 127 {
        Some(ConfigError::ColourOutOfRange { section: idx, role, red: c[0], green: c[1], blue: c[2], component: c[1] })
    } else if c[2] > 127 {
        Some(ConfigError::ColourOutOfRange { section: idx, role, red: c[0], green: c[1], blue: c[2], component: c[2] })
    } else {
        None
    }
}

/// The first colour component above 127, sections in order.
fn check_colours(sections: &Vec<Section>) -> (r: Option<ConfigError>)
    ensures
        r == colours_fault(sections.deep_view()),
{
    let ghost v = sections.deep_view();
    let mut i: usize = 0;
    assert(v.take(0) =~= Seq::<SectionSpec>::empty());
    while i < sections.len()
        invariant
            v == sections.deep_view(),
            i <= sections@.len(),
            colours_fault(v.take(i as int)) is None,
        decreases sections@.len() - i,
    {
        proof {
            lemma_colours_fault_step(v, i as int);
        }
        let s = &sections[i];
        let fault = match check_colour(s.main_colour, i, ColourRole::Main) {
            Some(e) => Some(e),
            None => check_colour(s.active_colour, i, ColourRole::Active),
        };
        if let Some(e) = fault {
            proof {
                lemma_colours_fault_prefix(v, i + 1, e);
            }
            return Some(e);
        }
        i = i + 1;
    }
    assert(v.take(i as int) =~= v);
    None
}

/// All the pads of all the sections, in order, with the set of them; or the
/// first pad that occurs twice.
fn collect_pads(sections: &Vec<Section>) -> (r: Result<(Vec<u8>, HashSet<u8>), u8>)
    ensures
        match r {
            Ok((all, seen)) => {
                &&& all@ == flat_pads(sections.deep_view())
                &&& first_repeat(all@) is None
                &&& forall|x: u8| seen@.contains(x) <==> all@.contains(x)
            },
            Err(p) => first_repeat(flat_pads(sections.deep_view())) == Some(p),
        },
{
    let ghost v = sections.deep_view();
    let mut all: Vec<u8> = Vec::new();
    let mut seen: HashSet<u8> = HashSet::new();
    let mut i: usize = 0;
    assert(v.take(0) =~= Seq::<SectionSpec>::empty());
    while i < sections.len()
        invariant
            v == sections.deep_view(),
            i <= sections@.len(),
            all@ == flat_pads(v.take(i as int)),
            first_repeat(all@) is None,
            forall|x: u8| seen@.contains(x) <==> all@.contains(x),
        decreases sections@.len() - i,
    {
        proof {
            lemma_flat_pads_step(v, i as int);
            lemma_flat_pads_prefix(v, i + 1);
        }
        let pads = &sections[i].pads;
        let ghost start = all@;
        let mut j: usize = 0;
        assert(pads@.take(0) =~= Seq::<u8>::empty());
        assert(start + pads@.take(0) =~= start);
        while j < pads.len()
            invariant
                v == sections.deep_view(),
                i < sections@.len(),
                pads@ == v[i as int].pads,
                start == flat_pads(v.take(i as int)),
                flat_pads(v.take(i + 1)) == start + pads@,
                flat_pads(v).take(flat_pads(v.take(i + 1)).len() as int) == flat_pads(
                    v.take(i + 1),
                ),
                flat_pads(v.take(i + 1)).len() <= flat_pads(v).len(),
                j <= pads@.len(),
                all@ == start + pads@.take(j as int),
                first_repeat(all@) is None,
                forall|x: u8| seen@.contains(x) <==> all@.contains(x),
            decreases pads@.len() - j,
        {
            let p = pads[j];
            let ghost before = all@;
            assert(before.push(p).drop_last() =~= before);
            assert(start + pads@.take(j + 1) =~= before.push(p));
            if seen.contains(&p) {
                proof {
                    let whole = flat_pads(v.take(i + 1));
                    let f = flat_pads(v);
                    let len = before.len() + 1int;
                    assert(whole.take(len) =~= before.push(p));
                    assert forall|k: int| 0 <= k < len implies f[k] == whole[k] by {
                        assert(f.take(whole.len() as int)[k] == f[k]);
                    }
                    assert(f.take(len) =~= before.push(p));
                    lemma_first_repeat_prefix(flat_pads(v), before.len() + 1int, p);
                }
                return Err(p);
            }
            seen.insert(p);
            all.push(p);
            assert forall|x: u8| seen@.contains(x) <==> all@.contains(x) by {
                if x == p {
                    assert(all@[all@.len() - 1] == p);
                } else if all@.contains(x) {
                    let k = choose|k: int| 0 <= k < all@.len() && all@[k] == x;
                    assert(before[k] == x);
                } else if before.contains(x) {
                    let k = choose|k: int| 0 <= k < before.len() && before[k] == x;
                    assert(all@[k] == x);
                }
            }
            j = j + 1;
        }
        assert(pads@.take(j as int) =~= pads@);
        i = i + 1;
    }
    assert(v.take(i as int) =~= v);
    Ok((all, seen))
}

/// The index of the first section with no pads.
fn find_default(sections: &Vec<Section>) -> (r: Option<usize>)
    ensures
        match r {
            Some(i) => i < sections@.len() && default_index(sections.deep_view()) == Some(
                i as int,
            ),
            None => default_index(sections.deep_view()) is None,
        },
{
    let ghost v = sections.deep_view();
    let mut i: usize = 0;
    assert(v.take(0) =~= Seq::<SectionSpec>::empty());
    while i < sections.len()
        invariant
            v == sections.deep_view(),
            i <= sections@.len(),
            default_index(v.take(i as int)) is None,
        decreases sections@.len() - i,
    {
        proof {
            lemma_default_index_step(v, i as int);
        }
        if sections[i].pads.len() == 0 {
            proof {
                lemma_default_index_prefix(v, i + 1, i as int);
            }
            return Some(i);
        }
        i = i + 1;
    }
    assert(v.take(i as int) =~= v);
    None
}

/// The grid pads, in grid order, that `seen` does not hold.
fn missing_from(all: &Vec<u8>, seen: &HashSet<u8>) -> (r: Vec<u8>)
    requires
        forall|x: u8| seen@.contains(x) <==> all@.contains(x),
    ensures
        r@ == missing_pads(all@),
{
    let mut out: Vec<u8> = Vec::new();
    let mut k: u8 = 0;
    assert(grid().take(0) =~= Seq::<u8>::empty());
    proof {
        reveal(Seq::filter);
    }
    while k < 64
        invariant
            k <= 64,
            forall|x: u8| seen@.contains(x) <==> all@.contains(x),
            out@ == missing_upto(all@, k as int),
        decreases 64 - k,
    {
        let pad: u8 = (k / 8 + 1) * 10 + k % 8 + 1;
        proof {
            reveal(Seq::filter);
            assert(grid().take(k + 1).drop_last() =~= grid().take(k as int));
            assert(grid().take(k + 1).last() == pad);
        }
        if !seen.contains(&pad) {
            out.push(pad);
        }
        k = k + 1;
    }
    out
}

/// Applies the checks to sections, in order: at most one section without
/// pads, no pad named twice, no colour component above 127. Then, when a
/// section has no pads and fewer than 64 pads are named, that section is
/// given every grid pad that no section names, in grid order.
pub fn finalize_sections(sections: Vec<Section>) -> (r: Result<Vec<Section>, ConfigError>)
    ensures
        result_view(r) == finalize(sections.deep_view()),
{
    let ghost v = sections.deep_view();
    if count_default_sections(&sections) > 1 {
        return Err(ConfigError::TooManyDefaultSections);
    }
    let (all, seen) = match collect_pads(&sections) {
        Ok(found) => found,
        Err(p) => {
            return Err(ConfigError::RepeatedPad { pad: p });
        },
    };
    if let Some(e) = check_colours(&sections) {
        return Err(e);
    }
    let mut sections = sections;
    if let Some(idx) = find_default(&sections) {
        if all.len() < 64 {
            let missing = missing_from(&all, &seen);
            let old = &sections[idx];
            let filled = Section {
                pads: missing,
                main_colour: old.main_colour,
                active_colour: old.active_colour,
                midi_note: old.midi_note,
            };
            let ghost filled_view = filled@;
            sections.set(idx, filled);
            assert(sections.deep_view() =~= v.update(idx as int, filled_view));
        }
    }
    Ok(sections)
}

/// `serde_json::from_str::<serde_json::Value>`: whether `text` is one JSON
/// value (with whitespace around it allowed and nested at most 128 deep).
/// The contract names that outcome and claims only that it depends on the
/// text alone.
pub uninterp spec fn json_text_accepted(text: Seq<char>) -> bool;

/// Calls `serde_json::from_str::<serde_json::Value>` and tells whether it
/// succeeded.
#[verifier::external_body]
fn json_value_parses(text: &str) -> (r: bool)
    ensures
        r == json_text_accepted(text@),
{
    serde_json::from_str::<serde_json::Value>(text).is_ok()
}

/// Reads a configuration text: when the text is JSON (`is_json`), the
/// sections are those read from it (`json_sections`, `None` when the JSON
/// is not a list of sections); otherwise the text is read in the line
/// format. Then the checks of [`finalize_sections`] apply.
pub fn load_sections_from(content: &str, is_json: bool, json_sections: Option<Vec<Section>>) -> (r:
    Result<Vec<Section>, ConfigError>)
    ensures
        result_view(r) == load_spec(content@, is_json, option_view(json_sections)),
{
    let parsed = if is_json {
        match json_sections {
            Some(v) => v,
            None => {
                return Err(ConfigError::InvalidJson);
            },
        }
    } else {
        match parse_linear(content) {
            Ok(v) => v,
            Err(e) => {
                return Err(e);
            },
        }
    };
    finalize_sections(parsed)
}

/// Whether `content` is JSON text (one JSON value), as `serde_json` decides.
pub fn is_json_text(content: &str) -> (r: bool)
    ensures
        r == json_text_accepted(content@),
{
    json_value_parses(content)
}

/// The sections of a configuration text: a JSON text (`is_json`, as
/// [`is_json_text`] decides) gives `json_sections`, the sections read from
/// it; any other text is read in the line format; then the default section
/// is completed. A configuration that the checks refuse has no sections and
/// is not admitted: the caller tests it first with [`load_sections_from`],
/// which names the fault.
pub fn load_sections(
    content: &str,
    is_json: bool,
    json_sections: Option<Vec<Section>>,
) -> (r: Vec<Section>)
    requires
        load_spec(content@, is_json, option_view(json_sections)) is Ok,
    ensures
        load_spec(content@, is_json, option_view(json_sections)) == Ok::<
            Seq<SectionSpec>,
            ConfigError,
        >(r.deep_view()),
{
    match load_sections_from(content, is_json, json_sections) {
        Ok(v) => v,
        Err(_) => {
            proof {
                assert(false);
            }
            Vec::new()
        },
    }
}

/// Checks a configuration text, deciding with `serde_json` whether it is
/// JSON; `json_sections` are the sections read from it as JSON, if that
/// succeeded. Gives the sections, or the fault for which it is refused.
pub fn check_sections(content: &str, json_sections: Option<Vec<Section>>) -> (r: Result<
    Vec<Section>,
    ConfigError,
>)
    ensures
        result_view(r) == load_spec(
            content@,
            json_text_accepted(content@),
            option_view(json_sections),
        ),
{
    let is_json = is_json_text(content);
    load_sections_from(content, is_json, json_sections)
}


/// The 64 pads of the grid, row by row.
pub fn grid_pads() -> (r: Vec<u8>)
    ensures
        r@ == grid(),
{
    let mut out: Vec<u8> = Vec::new();
    let mut k: u8 = 0;
    assert(grid().take(0) =~= Seq::<u8>::empty());
    while k < 64
        invariant
            k <= 64,
            out@ == grid().take(k as int),
        decreases 64 - k,
    {
        let pad: u8 = (k / 8 + 1) * 10 + k % 8 + 1;
        out.push(pad);
        assert(out@ =~= grid().take(k + 1));
        k = k + 1;
    }
    assert(grid().take(64) =~= grid());
    out
}

/// The sections used when no configuration is given: a single section
/// holding every pad of the grid, dark blue, white while pressed, note 60.
pub fn default_sections() -> (r: Vec<Section>)
    ensures
        r.deep_view() == seq![
            SectionSpec {
                pads: grid(),
                main_colour: [0u8, 0, 63],
                active_colour: [127u8, 127, 127],
                midi_note: 60,
            },
        ],
{
    let mut r: Vec<Section> = Vec::new();
    r.push(Section::new(grid_pads(), [0, 0, 63], [127, 127, 127], 60));
    assert(r.deep_view() =~= seq![
        SectionSpec {
            pads: grid(),
            main_colour: [0u8, 0, 63],
            active_colour: [127u8, 127, 127],
            midi_note: 60,
        },
    ]);
    r
}


/// Every note from 0 to 255 is read back from its decimal numeral and from
/// `0x` followed by its hexadecimal numeral.
pub proof fn law_notes_read_back(n: u8)
    ensures
        parse_note(numeral(n as nat, 10)) == Some(n),
        parse_note(seq!['0', 'x'] + numeral(n as nat, 16)) == Some(n),
{
    crate::number::law_numerals_read_back(n, 10);
    crate::number::law_numerals_read_back(n, 16);
    let d = numeral(n as nat, 10);
    lemma_numeral_digits(n as nat, 10);
    if d.len() >= 2 {
        let u = d[1] as u32;
        assert((0x30 <= u <= 0x39) || (0x61 <= u <= 0x66));
        assert(d[1] != 'x');
    }
    let h = seq!['0', 'x'] + numeral(n as nat, 16);
    assert(h[0] == '0' && h[1] == 'x');
    assert(h.skip(2) =~= numeral(n as nat, 16));
}

} // verus!
