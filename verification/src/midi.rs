//! The MIDI side: the SysEx messages that light the pads, the answer to each
//! message that comes from the pad grid, and the choice of a port by name.
use vstd::prelude::*;
use crate::section::{Section, SectionSpec};
use crate::text::{chars_of, contains_piece, has_piece, law_piece_is_contained};

verus! {

/// The SysEx message that puts the grid into programmer mode.
pub open spec fn programmer_mode_spec() -> Seq<u8> {
    seq![240u8, 0, 32, 41, 2, 12, 0, 127, 247]
}

/// One RGB entry per pad: `3, pad, r, g, b`.
pub open spec fn pad_entries(pads: Seq<u8>, c: [u8; 3]) -> Seq<u8>
    decreases pads.len(),
{
    if pads.len() == 0 {
        Seq::<u8>::empty()
    } else {
        pad_entries(pads.drop_last(), c) + seq![3u8, pads.last(), c[0], c[1], c[2]]
    }
}

/// The SysEx message that gives every pad of `pads` the colour `c`.
pub open spec fn colour_sysex(pads: Seq<u8>, c: [u8; 3]) -> Seq<u8> {
    seq![240u8, 0, 32, 41, 2, 12, 3] + pad_entries(pads, c) + seq![247u8]
}

/// Status byte of a note message from the grid.
pub open spec fn note_status() -> u8 {
    144
}

/// Status byte of a control message from the grid.
pub open spec fn control_status() -> u8 {
    176
}

/// What to do with a message from the grid.
pub enum Response {
    /// Nothing.
    Ignore,
    /// Send `note` to the note port, then `colour` to the grid.
    Note { note: [u8; 3], colour: Vec<u8> },
    /// Send `message` on to the control port.
    Control { message: [u8; 3] },
}

/// The value of a [`Response`].
pub enum ResponseSpec {
    Ignore,
    Note { note: [u8; 3], colour: Seq<u8> },
    Control { message: [u8; 3] },
}

impl View for Response {
    type V = ResponseSpec;

    open spec fn view(&self) -> ResponseSpec {
        match self {
            Response::Ignore => ResponseSpec::Ignore,
            Response::Note { note, colour } => ResponseSpec::Note { note: *note, colour: colour@ },
            Response::Control { message } => ResponseSpec::Control { message: *message },
        }
    }
}

/// The index of the first section that holds `pad`.
pub open spec fn owning_section(secs: Seq<SectionSpec>, pad: u8) -> Option<int>
    decreases secs.len(),
{
    if secs.len() == 0 {
        None
    } else {
        match owning_section(secs.drop_last(), pad) {
            Some(i) => Some(i),
            None => if secs.last().pads.contains(pad) {
                Some(secs.len() - 1)
            } else {
                None
            },
        }
    }
}

/// `s` without any occurrence of `p`.
pub open spec fn without(s: Seq<u8>, p: u8) -> Seq<u8>
    decreases s.len(),
{
    if s.len() == 0 {
        Seq::<u8>::empty()
    } else {
        let w = without(s.drop_last(), p);
        if s.last() == p {
            w
        } else {
            w.push(s.last())
        }
    }
}

/// Some pad of `held` is one of `pads`.
pub open spec fn holds_any(held: Seq<u8>, pads: Seq<u8>) -> bool {
    exists|x: u8| #[trigger] held.contains(x) && pads.contains(x)
}

/// The pads held after a note message for `pad`: a press (velocity above
/// 0) adds it, a release (velocity 0) removes it.
pub open spec fn held_after_note(held: Seq<u8>, pad: u8, velocity: u8) -> Seq<u8> {
    if velocity > 0 {
        if held.contains(pad) {
            held
        } else {
            held.push(pad)
        }
    } else {
        without(held, pad)
    }
}

/// The pads held and the answer after a message `m` from the grid, given
/// the pads held before (pads that have sent a note-on and no note-off since).
/// A note message (status 144) for a pad of a section updates the pads
/// held, sends the section's note with the same velocity, and lights the
/// section in its active colour when one of its pads is still held, in its
/// main colour otherwise. A control message (status 176) is passed on
/// unchanged. Anything else, and a note for a pad of no section, is ignored.
pub open spec fn step_spec(secs: Seq<SectionSpec>, held: Seq<u8>, m: [u8; 3]) -> (
    Seq<u8>,
    ResponseSpec,
) {
    if m[0] == note_status() {
        match owning_section(secs, m[1]) {
            Some(i) => {
                let h = held_after_note(held, m[1], m[2]);
                (
                    h,
                    ResponseSpec::Note {
                        note: [m[0], secs[i].midi_note, m[2]],
                        colour: colour_sysex(
                            secs[i].pads,
                            if holds_any(h, secs[i].pads) {
                                secs[i].active_colour
                            } else {
                                secs[i].main_colour
                            },
                        ),
                    },
                )
            },
            None => (held, ResponseSpec::Ignore),
        }
    } else if m[0] == control_status() {
        (held, ResponseSpec::Control { message: m })
    } else {
        (held, ResponseSpec::Ignore)
    }
}

/// The pads held and the answers after the messages `msgs`, starting with
/// no pad held.
pub open spec fn run(secs: Seq<SectionSpec>, msgs: Seq<[u8; 3]>) -> (Seq<u8>, Seq<ResponseSpec>)
    decreases msgs.len(),
{
    if msgs.len() == 0 {
        (Seq::<u8>::empty(), Seq::<ResponseSpec>::empty())
    } else {
        let prev = run(secs, msgs.drop_last());
        let next = step_spec(secs, prev.0, msgs.last());
        (next.0, prev.1.push(next.1))
    }
}

/// The index of the first port whose name is known and contains `keyword`.
pub open spec fn first_port(names: Seq<Option<Seq<char>>>, keyword: Seq<char>) -> Option<int>
    decreases names.len(),
{
    if names.len() == 0 {
        None
    } else {
        match first_port(names.drop_last(), keyword) {
            Some(i) => Some(i),
            None => match names.last() {
                Some(n) => if contains_piece(n, keyword) {
                    Some(names.len() - 1)
                } else {
                    None
                },
                None => None,
            },
        }
    }
}

pub proof fn lemma_pad_entries_len(pads: Seq<u8>, c: [u8; 3])
    ensures
        pad_entries(pads, c).len() == 5 * pads.len(),
    decreases pads.len(),
{
    if pads.len() > 0 {
        lemma_pad_entries_len(pads.drop_last(), c);
    }
}

proof fn lemma_owning_section_prefix(v: Seq<SectionSpec>, pad: u8, j: int, i: int)
    requires
        0 <= j <= v.len(),
        owning_section(v.take(j), pad) == Some(i),
    ensures
        owning_section(v, pad) == Some(i),
    decreases v.len() - j,
{
    if j == v.len() {
        assert(v.take(j) =~= v);
    } else {
        assert(v.take(j + 1).drop_last() =~= v.take(j));
        lemma_owning_section_prefix(v, pad, j + 1, i);
    }
}

proof fn lemma_first_port_prefix(v: Seq<Option<Seq<char>>>, kw: Seq<char>, j: int, i: int)
    requires
        0 <= j <= v.len(),
        first_port(v.take(j), kw) == Some(i),
    ensures
        first_port(v, kw) == Some(i),
    decreases v.len() - j,
{
    if j == v.len() {
        assert(v.take(j) =~= v);
    } else {
        assert(v.take(j + 1).drop_last() =~= v.take(j));
        lemma_first_port_prefix(v, kw, j + 1, i);
    }
}

/// The SysEx message that puts the grid into programmer mode.
pub fn programmer_mode_message() -> (r: Vec<u8>)
    ensures
        r@ == programmer_mode_spec(),
{
    let r: Vec<u8> = vec![240, 0, 32, 41, 2, 12, 0, 127, 247];
    assert(r@ =~= programmer_mode_spec());
    r
}

/// The SysEx message that lights every pad of `section` in `colour`:
/// a header, one `3, pad, r, g, b` entry per pad in order, then 247.
pub fn colour_message(section: &Section, colour: [u8; 3]) -> (r: Vec<u8>)
    ensures
        r@ == colour_sysex(section.pads@, colour),
        r@.len() == 8 + 5 * section.pads@.len(),
        r@.take(7) == seq![240u8, 0, 32, 41, 2, 12, 3],
        r@.last() == 247,
        forall|k: int|
            0 <= k < section.pads@.len() ==> #[trigger] r@.subrange(7 + 5 * k, 12 + 5 * k) == seq![
                3u8,
                section.pads@[k],
                colour[0],
                colour[1],
                colour[2],
            ],
{
    let mut r: Vec<u8> = vec![240, 0, 32, 41, 2, 12, 3];
    let ghost header = r@;
    let pads = &section.pads;
    let mut i: usize = 0;
    assert(pads@.take(0) =~= Seq::<u8>::empty());
    assert(r@ =~= header + pad_entries(pads@.take(0), colour));
    while i < pads.len()
        invariant
            pads == &section.pads,
            i <= pads@.len(),
            header == seq![240u8, 0, 32, 41, 2, 12, 3],
            r@ == header + pad_entries(pads@.take(i as int), colour),
        decreases pads@.len() - i,
    {
        let ghost before = r@;
        assert(pads@.take(i + 1).drop_last() =~= pads@.take(i as int));
        r.push(3);
        r.push(pads[i]);
        r.push(colour[0]);
        r.push(colour[1]);
        r.push(colour[2]);
        assert(r@ =~= before + seq![3u8, pads@[i as int], colour[0], colour[1], colour[2]]);
        i = i + 1;
    }
    r.push(247);
    assert(pads@.take(i as int) =~= pads@);
    assert(r@ =~= colour_sysex(pads@, colour));
    proof {
        law_colour_message_layout(pads@, colour);
    }
    r
}

/// A message from the grid as three bytes, when it has exactly three.
pub fn three_byte_message(bytes: &[u8]) -> (r: Option<[u8; 3]>)
    ensures
        r is Some <==> bytes@.len() == 3,
        r matches Some(m) ==> m[0] == bytes@[0] && m[1] == bytes@[1] && m[2] == bytes@[2],
{
    if bytes.len() == 3 {
        Some([bytes[0], bytes[1], bytes[2]])
    } else {
        None
    }
}

/// The index of the first section that holds `pad`.
pub fn find_section(sections: &Vec<Section>, pad: u8) -> (r: Option<usize>)
    ensures
        match r {
            Some(i) => i < sections@.len() && owning_section(sections.deep_view(), pad) == Some(
                i as int,
            ),
            None => owning_section(sections.deep_view(), pad) is None,
        },
{
    let ghost v = sections.deep_view();
    let mut i: usize = 0;
    assert(v.take(0) =~= Seq::<SectionSpec>::empty());
    while i < sections.len()
        invariant
            v == sections.deep_view(),
            i <= sections@.len(),
            owning_section(v.take(i as int), pad) is None,
        decreases sections@.len() - i,
    {
        assert(v.take(i + 1).drop_last() =~= v.take(i as int));
        if sections[i].pad_in(pad) {
            proof {
                lemma_owning_section_prefix(v, pad, i + 1, i as int);
            }
            return Some(i);
        }
        i = i + 1;
    }
    assert(v.take(i as int) =~= v);
    None
}

/// Whether `v` holds `p`.
fn has_pad(v: &Vec<u8>, p: u8) -> (r: bool)
    ensures
        r == v@.contains(p),
{
    let mut i: usize = 0;
    while i < v.len()
        invariant
            i <= v@.len(),
            forall|j: int| 0 <= j < i ==> v@[j] != p,
        decreases v@.len() - i,
    {
        if v[i] == p {
            return true;
        }
        i = i + 1;
    }
    false
}

/// `v` without any occurrence of `p`.
fn remove_pad(v: &Vec<u8>, p: u8) -> (r: Vec<u8>)
    ensures
        r@ == without(v@, p),
{
    let mut out: Vec<u8> = Vec::new();
    let mut i: usize = 0;
    assert(v@.take(0) =~= Seq::<u8>::empty());
    while i < v.len()
        invariant
            i <= v@.len(),
            out@ == without(v@.take(i as int), p),
        decreases v@.len() - i,
    {
        assert(v@.take(i + 1).drop_last() =~= v@.take(i as int));
        assert(v@.take(i + 1).last() == v@[i as int]);
        if v[i] != p {
            out.push(v[i]);
        }
        i = i + 1;
    }
    assert(v@.take(i as int) =~= v@);
    out
}

/// Whether some pad of `held` belongs to `section`.
fn holds_section_pad(held: &Vec<u8>, section: &Section) -> (r: bool)
    ensures
        r == holds_any(held@, section.pads@),
{
    let mut i: usize = 0;
    while i < held.len()
        invariant
            i <= held@.len(),
            forall|j: int| 0 <= j < i ==> !section.pads@.contains(#[trigger] held@[j]),
        decreases held@.len() - i,
    {
        if section.pad_in(held[i]) {
            assert(held@.contains(held@[i as int]));
            return true;
        }
        i = i + 1;
    }
    assert forall|x: u8| #[trigger] held@.contains(x) implies !section.pads@.contains(x) by {
        let j = choose|j: int| 0 <= j < held@.len() && held@[j] == x;
        assert(!section.pads@.contains(held@[j]));
    }
    false
}

/// Answers the message `message` from the grid and updates `held`, the
/// pads held (see [`step_spec`]).
pub fn step(sections: &Vec<Section>, held: &mut Vec<u8>, message: [u8; 3]) -> (r: Response)
    ensures
        step_spec(sections.deep_view(), old(held)@, message) == (final(held)@, r@),
        message[0] == 176 ==> final(held)@ == old(held)@ && r@ == (ResponseSpec::Control {
            message,
        }),
{
    if message[0] == 144 {
        match find_section(sections, message[1]) {
            Some(i) => {
                let pad = message[1];
                let velocity = message[2];
                if velocity > 0 {
                    if !has_pad(held, pad) {
                        held.push(pad);
                    }
                } else {
                    let rest = remove_pad(held, pad);
                    *held = rest;
                }
                let section = &sections[i];
                let colour = if holds_section_pad(held, section) {
                    section.active_colour
                } else {
                    section.main_colour
                };
                Response::Note {
                    note: [message[0], section.midi_note, velocity],
                    colour: colour_message(section, colour),
                }
            },
            None => Response::Ignore,
        }
    } else if message[0] == 176 {
        Response::Control { message }
    } else {
        Response::Ignore
    }
}

/// The index of the first port whose name is known and contains `keyword`;
/// `names` holds each port's name, or `None` where it could not be read.
pub fn find_port(names: &Vec<Option<String>>, keyword: &str) -> (r: Option<usize>)
    ensures
        match r {
            Some(i) => i < names@.len() && first_port(names.deep_view(), keyword@) == Some(
                i as int,
            ),
            None => first_port(names.deep_view(), keyword@) is None,
        },
{
    let ghost v = names.deep_view();
    let needle = chars_of(keyword);
    let mut i: usize = 0;
    assert(v.take(0) =~= Seq::<Option<Seq<char>>>::empty());
    while i < names.len()
        invariant
            v == names.deep_view(),
            needle@ == keyword@,
            i <= names@.len(),
            first_port(v.take(i as int), keyword@) is None,
        decreases names@.len() - i,
    {
        assert(v.take(i + 1).drop_last() =~= v.take(i as int));
        let found = match &names[i] {
            Some(name) => {
                let hay = chars_of(name.as_str());
                has_piece(&hay, &needle)
            },
            None => false,
        };
        if found {
            proof {
                lemma_first_port_prefix(v, keyword@, i + 1, i as int);
            }
            return Some(i);
        }
        i = i + 1;
    }
    assert(v.take(i as int) =~= v);
    None
}


/// The name at index `i` is known and contains `keyword`.
pub open spec fn port_matches(names: Seq<Option<Seq<char>>>, i: int, keyword: Seq<char>) -> bool {
    match names[i] {
        Some(n) => contains_piece(n, keyword),
        None => false,
    }
}

/// The port chosen is the first one whose name is known and contains the
/// keyword; there is none when no name matches.
pub proof fn law_first_matching_port(names: Seq<Option<Seq<char>>>, keyword: Seq<char>)
    ensures
        first_port(names, keyword) matches Some(i) ==> {
            &&& 0 <= i < names.len()
            &&& port_matches(names, i, keyword)
            &&& forall|j: int| 0 <= j < i ==> !#[trigger] port_matches(names, j, keyword)
        },
        first_port(names, keyword) is None ==> forall|j: int|
            0 <= j < names.len() ==> !#[trigger] port_matches(names, j, keyword),
    decreases names.len(),
{
    if names.len() > 0 {
        let q = names.drop_last();
        law_first_matching_port(q, keyword);
        assert forall|j: int| 0 <= j < q.len() implies port_matches(q, j, keyword)
            == #[trigger] port_matches(names, j, keyword) by {
            assert(q[j] == names[j]);
        }
    }
}

proof fn lemma_contains_piece_trans(n: Seq<char>, k: Seq<char>, k2: Seq<char>)
    requires
        contains_piece(n, k),
        contains_piece(k, k2),
    ensures
        contains_piece(n, k2),
{
    let a = choose|a: int|
        0 <= a && a + k.len() <= n.len() && #[trigger] n.subrange(a, a + k.len()) == k;
    let b = choose|b: int|
        0 <= b && b + k2.len() <= k.len() && #[trigger] k.subrange(b, b + k2.len()) == k2;
    assert(n.subrange(a + b, a + b + k2.len()) =~= k2) by {
        assert forall|t: int| 0 <= t < k2.len() implies n.subrange(a + b, a + b + k2.len())[t]
            == k2[t] by {
            assert(k2[t] == k.subrange(b, b + k2.len())[t]);
            assert(k[b + t] == n.subrange(a, a + k.len())[b + t]);
        }
    }
}

/// A keyword found inside another keyword picks the same port or an earlier
/// one.
pub proof fn law_shorter_keyword_picks_earlier_port(
    names: Seq<Option<Seq<char>>>,
    keyword: Seq<char>,
    part: Seq<char>,
)
    requires
        contains_piece(keyword, part),
        first_port(names, keyword) is Some,
    ensures
        first_port(names, part) matches Some(j) && j <= first_port(names, keyword)->Some_0,
{
    law_first_matching_port(names, keyword);
    law_first_matching_port(names, part);
    let i = first_port(names, keyword)->Some_0;
    let n = names[i]->Some_0;
    lemma_contains_piece_trans(n, keyword, part);
    assert(port_matches(names, i, part));
}

/// With an empty keyword the port chosen is the first whose name is known.
pub proof fn law_empty_keyword_picks_first_named_port(names: Seq<Option<Seq<char>>>)
    ensures
        first_port(names, Seq::<char>::empty()) matches Some(i) ==> {
            &&& names[i] is Some
            &&& forall|j: int| 0 <= j < i ==> #[trigger] names[j] is None
        },
        first_port(names, Seq::<char>::empty()) is None ==> forall|j: int|
            0 <= j < names.len() ==> #[trigger] names[j] is None,
{
    let e = Seq::<char>::empty();
    law_first_matching_port(names, e);
    assert forall|j: int| 0 <= j < names.len() && #[trigger] names[j] is Some implies port_matches(
        names,
        j,
        e,
    ) by {
        let n = names[j]->Some_0;
        assert(n.subrange(0, 0int + e.len()) =~= e);
    }
}


/// The colour message is laid out as the grid reads it: the 7-byte header
/// `240 0 32 41 2 12 3`, then for the `k`-th pad the five bytes
/// `3, pad, red, green, blue` with the colour unchanged, then 247.
pub proof fn law_colour_message_layout(pads: Seq<u8>, c: [u8; 3])
    ensures
        colour_sysex(pads, c).len() == 8 + 5 * pads.len(),
        colour_sysex(pads, c).take(7) == seq![240u8, 0, 32, 41, 2, 12, 3],
        colour_sysex(pads, c).last() == 247,
        forall|k: int|
            0 <= k < pads.len() ==> #[trigger] colour_sysex(pads, c).subrange(7 + 5 * k, 12 + 5 * k)
                == seq![3u8, pads[k], c[0], c[1], c[2]],
{
    lemma_pad_entries_len(pads, c);
    lemma_pad_entries_blocks(pads, c);
    let m = colour_sysex(pads, c);
    let e = pad_entries(pads, c);
    let h = seq![240u8, 0, 32, 41, 2, 12, 3];
    assert(m == h + e + seq![247u8]);
    assert(m.take(7) =~= h);
    assert forall|k: int| 0 <= k < pads.len() implies #[trigger] m.subrange(7 + 5 * k, 12 + 5 * k)
        == seq![3u8, pads[k], c[0], c[1], c[2]] by {
        assert(e.subrange(5 * k, 5 * k + 5) == seq![3u8, pads[k], c[0], c[1], c[2]]);
        assert(m.subrange(7 + 5 * k, 12 + 5 * k) =~= e.subrange(5 * k, 5 * k + 5));
    }
}

proof fn lemma_pad_entries_blocks(pads: Seq<u8>, c: [u8; 3])
    ensures
        forall|k: int|
            0 <= k < pads.len() ==> #[trigger] pad_entries(pads, c).subrange(5 * k, 5 * k + 5)
                == seq![3u8, pads[k], c[0], c[1], c[2]],
    decreases pads.len(),
{
    if pads.len() > 0 {
        let q = pads.drop_last();
        lemma_pad_entries_blocks(q, c);
        lemma_pad_entries_len(q, c);
        let e = pad_entries(q, c);
        let blk = seq![3u8, pads.last(), c[0], c[1], c[2]];
        assert(pad_entries(pads, c) == e + blk);
        assert forall|k: int| 0 <= k < pads.len() implies #[trigger] pad_entries(pads, c).subrange(
            5 * k,
            5 * k + 5,
        ) == seq![3u8, pads[k], c[0], c[1], c[2]] by {
            if k < q.len() {
                assert(q[k] == pads[k]);
                assert((e + blk).subrange(5 * k, 5 * k + 5) =~= e.subrange(5 * k, 5 * k + 5));
            } else {
                assert((e + blk).subrange(5 * k, 5 * k + 5) =~= blk);
            }
        }
    }
}

/// Every control message (status 176), whatever its controller and value,
/// a release (value 0) included, is passed on unchanged, and leaves the pads
/// held as they were.
pub proof fn law_control_messages_pass_through(
    secs: Seq<SectionSpec>,
    held: Seq<u8>,
    m: [u8; 3],
)
    requires
        m[0] == 176,
    ensures
        step_spec(secs, held, m).0 == held,
        step_spec(secs, held, m).1 == (ResponseSpec::Control { message: m }),
{
}

/// A message that is neither a note (status 144) nor a control message
/// (status 176) is ignored and leaves the pads held as they were; so is a
/// note for a pad of no section.
pub proof fn law_other_messages_are_ignored(secs: Seq<SectionSpec>, held: Seq<u8>, m: [u8; 3])
    requires
        m[0] != 176,
        m[0] != 144 || owning_section(secs, m[1]) is None,
    ensures
        step_spec(secs, held, m) == (held, ResponseSpec::Ignore),
{
}


/// A port whose name holds the keyword anywhere (at the start, in the
/// middle, at the end, or as the whole name) is found: the port chosen is
/// that one or an earlier one.
pub proof fn law_port_holding_keyword_is_found(
    names: Seq<Option<Seq<char>>>,
    i: int,
    before: Seq<char>,
    keyword: Seq<char>,
    after: Seq<char>,
)
    requires
        0 <= i < names.len(),
        names[i] == Some(before + keyword + after),
    ensures
        first_port(names, keyword) matches Some(j) && j <= i,
{
    law_piece_is_contained(before, keyword, after);
    assert(port_matches(names, i, keyword));
    law_first_matching_port(names, keyword);
}

} // verus!
