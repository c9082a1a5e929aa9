# rigpilot

The core of RigPilot, a tool that places device commands (One-Shot, Hold and
Automation curves, described by XML Device Definitions) on a song timeline and
turns them into MIDI: Standard MIDI Files for export, and a live message
stream for a MIDI port.

- `src/` is the library, written in Verus and proved against its contracts:
  definitions and their UI summary (`definition`, `summary`), the project
  model and curve reading (`project`, `curve`), resolving tracks into timed
  MIDI messages and the SMF layout (`export`, `order`, `smf`), raw live bytes
  (`live`), audio-import naming (`assets`) and small text helpers (`text`).
  SMF bytes are written by the `midly` crate behind a few trusted wrappers in
  `smf`.
- `app/` is ordinary Rust around it: reading and writing files (XML through
  `quick-xml`, projects through `serde_json`), the OS definition folders
  (`dirs`), the MIDI port (`midir`), and the floating-point parts (tempo to
  ticks, curve interpolation).
- `tests/` exercises the library from outside.

The bundled definition files are read at run time from a `definitions`
folder beside the executable.
