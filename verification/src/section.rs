//! A section: a set of pads that share two colours and a MIDI note.
use vstd::prelude::*;

verus! {

/// A section of the pad grid. `pads` lists the pad numbers (row digit then
/// column digit, 11 to 88); an empty list marks the default section, which
/// takes every pad that no other section names.
#[derive(Clone, Debug)]
pub struct Section {
    pub pads: Vec<u8>,
    /// RGB colour shown while no pad of the section is pressed.
    pub main_colour: [u8; 3],
    /// RGB colour shown while a pad of the section is pressed.
    pub active_colour: [u8; 3],
    /// The note sent when a pad of the section is pressed or released.
    pub midi_note: u8,
}

/// The mathematical value of a [`Section`].
pub struct SectionSpec {
    pub pads: Seq<u8>,
    pub main_colour: [u8; 3],
    pub active_colour: [u8; 3],
    pub midi_note: u8,
}

impl View for Section {
    type V = SectionSpec;

    open spec fn view(&self) -> SectionSpec {
        SectionSpec {
            pads: self.pads@,
            main_colour: self.main_colour,
            active_colour: self.active_colour,
            midi_note: self.midi_note,
        }
    }
}

impl DeepView for Section {
    type V = SectionSpec;

    open spec fn deep_view(&self) -> SectionSpec {
        self@
    }
}

impl Section {
    pub fn new(pads: Vec<u8>, main_colour: [u8; 3], active_colour: [u8; 3], midi_note: u8) -> (s:
        Section)
        ensures
            s@ == (SectionSpec { pads: pads@, main_colour, active_colour, midi_note }),
    {
        Section { pads, main_colour, active_colour, midi_note }
    }

    /// The pads of the section, in order.
    pub fn pads(&self) -> (r: &[u8])
        ensures
            r@ == self.pads@,
    {
        self.pads.as_slice()
    }

    /// Whether `pad` belongs to the section.
    pub fn pad_in(&self, pad: u8) -> (r: bool)
        ensures
            r == self.pads@.contains(pad),
    {
        let mut i: usize = 0;
        while i < self.pads.len()
            invariant
                i <= self.pads@.len(),
                forall|j: int| 0 <= j < i ==> self.pads@[j] != pad,
            decreases self.pads@.len() - i,
        {
            if self.pads[i] == pad {
                return true;
            }
            i = i + 1;
        }
        false
    }
}

} // verus!
