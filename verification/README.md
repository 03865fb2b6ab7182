# qzn3t_pad

Turns a Novation Launchpad X into an instrument: the grid is split into
sections, each with a main colour, an active colour (shown while one of its
pads is held) and a MIDI note.

- `src/` — the verified library (Verus):
  - `text.rs`: whitespace, trimming, splitting and substring search over characters;
  - `number.rs`: reading a `u8` with the rules of `u8::from_str_radix`;
  - `section.rs`: the `Section` type and its mathematical value;
  - `config.rs`: the line format (`pads, #RRGGBB, #RRGGBB, note`), the checks
    every configuration must pass, the completion of the default section,
    and the choice between JSON and the line format;
  - `midi.rs`: the SysEx colour messages, the answer to each message from the
    grid given the pads held, and the choice of a MIDI port by name;
  - `laws.rs`: what every accepted configuration satisfies, and how the
    colour shown follows the pads held.
- `app/` — the program: command line, files, JSON decoding into sections, MIDI
  ports and the main loop.
- `tests/` — tests of the library.
