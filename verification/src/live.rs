//! Live MIDI output: the raw bytes a resolved message goes out as on a port.

use crate::export::{seven_bit, MidiMsg};
use vstd::prelude::*;

verus! {

/// The bytes of a channel message: status byte (kind in the high nibble,
/// channel in the low one), then its 7-bit data bytes.
pub open spec fn raw_bytes(channel: u8, msg: MidiMsg) -> Seq<u8> {
    let ch = (channel % 16) as u8;
    match msg {
        MidiMsg::NoteOn { key, vel } => seq![(0x90 + ch) as u8, seven_bit(key), seven_bit(vel)],
        MidiMsg::NoteOff { key, vel } => seq![(0x80 + ch) as u8, seven_bit(key), seven_bit(vel)],
        MidiMsg::Controller { controller, value } => seq![
            (0xB0 + ch) as u8,
            seven_bit(controller),
            seven_bit(value),
        ],
        MidiMsg::ProgramChange { program } => seq![(0xC0 + ch) as u8, seven_bit(program)],
    }
}

/// Encodes a channel (its low four bits) and a message into raw MIDI bytes.
pub fn to_raw(channel: u8, msg: &MidiMsg) -> (res: Vec<u8>)
    ensures
        res@ == raw_bytes(channel, *msg),
{
    let ch = channel % 16;
    match *msg {
        MidiMsg::NoteOn { key, vel } => vec![0x90 + ch, key % 128, vel % 128],
        MidiMsg::NoteOff { key, vel } => vec![0x80 + ch, key % 128, vel % 128],
        MidiMsg::Controller { controller, value } => vec![0xB0 + ch, controller % 128, value % 128],
        MidiMsg::ProgramChange { program } => vec![0xC0 + ch, program % 128],
    }
}

/// Controller number of All Sound Off.
pub const ALL_SOUND_OFF: u8 = 120;

/// Controller number of All Notes Off.
pub const ALL_NOTES_OFF: u8 = 123;

/// Message `k` of the silencing sequence: All Sound Off then All Notes Off,
/// channel by channel.
pub open spec fn silence_message(k: int) -> Seq<u8> {
    let ch = (k / 2) as u8;
    if k % 2 == 0 {
        seq![(0xB0 + ch) as u8, ALL_SOUND_OFF, 0u8]
    } else {
        seq![(0xB0 + ch) as u8, ALL_NOTES_OFF, 0u8]
    }
}

/// What is sent on stop or panic so that nothing hangs: All Sound Off and All
/// Notes Off on every one of the 16 channels.
pub fn silence_messages() -> (res: Vec<Vec<u8>>)
    ensures
        res@.len() == 32,
        forall|k: int| 0 <= k < 32 ==> (#[trigger] res@[k])@ == silence_message(k),
{
    let mut out: Vec<Vec<u8>> = Vec::new();
    let mut ch: u8 = 0;
    while ch < 16
        invariant
            ch <= 16,
            out@.len() == 2 * ch,
            forall|k: int| 0 <= k < 2 * ch ==> (#[trigger] out@[k])@ == silence_message(k),
        decreases 16 - ch,
    {
        out.push(vec![0xB0 + ch, ALL_SOUND_OFF, 0]);
        out.push(vec![0xB0 + ch, ALL_NOTES_OFF, 0]);
        assert(silence_message(2 * ch as int) == seq![(0xB0 + ch) as u8, ALL_SOUND_OFF, 0u8]);
        assert(silence_message(2 * ch + 1) == seq![(0xB0 + ch) as u8, ALL_NOTES_OFF, 0u8]);
        ch = ch + 1;
    }
    out
}

} // verus!
