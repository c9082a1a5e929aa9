//! Standard MIDI File encoding, done by the `midly` crate.
//!
//! The library lists the events of an exported track as plain values
//! (`SmfEvent`); `midly` holds them in its in-memory file (`midly::Smf`) and
//! writes the bytes.

use crate::export::{seven_bit, MidiMsg};
use midly::{Format, Header, MetaMessage as M, MidiMessage as X, Smf, Timing, TrackEvent, TrackEventKind as K};
use vstd::prelude::*;

verus! {

/// One event of a track, `delta` ticks after the one before it.
#[derive(Clone, Copy, Debug, PartialEq, Eq, Structural)]
pub struct SmfEvent {
    pub delta: u32,
    pub kind: SmfKind,
}

#[derive(Clone, Copy, Debug, PartialEq, Eq, Structural)]
pub enum SmfKind {
    Meta(SmfMeta),
    /// A channel message on a zero-based channel (0..=15).
    Midi { channel: u8, message: MidiMsg },
}

/// The meta events an exported track uses.
#[derive(Clone, Copy, Debug, PartialEq, Eq, Structural)]
pub enum SmfMeta {
    /// Microseconds per quarter note (24 bits).
    Tempo(u32),
    /// Numerator, log2 of the denominator, MIDI clocks per click, 32nds per quarter.
    TimeSignature(u8, u8, u8, u8),
    /// The track's name; its bytes travel beside the event.
    TrackName,
    EndOfTrack,
}

/// A `midly` file under construction.
#[verifier::external_type_specification]
#[verifier::external_body]
pub struct ExSmf<'a>(Smf<'a>);

/// A message with each data byte kept to its 7 bits, as `midly`'s `u7` keeps it.
pub open spec fn fit_message(m: MidiMsg) -> MidiMsg {
    match m {
        MidiMsg::NoteOn { key, vel } => MidiMsg::NoteOn { key: seven_bit(key), vel: seven_bit(vel) },
        MidiMsg::NoteOff { key, vel } => MidiMsg::NoteOff { key: seven_bit(key), vel: seven_bit(vel) },
        MidiMsg::Controller { controller, value } => MidiMsg::Controller {
            controller: seven_bit(controller),
            value: seven_bit(value),
        },
        MidiMsg::ProgramChange { program } => MidiMsg::ProgramChange { program: seven_bit(program) },
    }
}

/// An event with every number kept to the width of its field, as `midly`'s
/// integer types keep them (`from_int_lossy`): the delta to 28 bits, a tempo
/// to 24, a channel to 4, data bytes to 7.
pub open spec fn fit_event(e: SmfEvent) -> SmfEvent {
    SmfEvent {
        delta: (e.delta % 0x1000_0000) as u32,
        kind: match e.kind {
            SmfKind::Meta(SmfMeta::Tempo(t)) => SmfKind::Meta(SmfMeta::Tempo((t % 0x100_0000) as u32)),
            SmfKind::Meta(m) => SmfKind::Meta(m),
            SmfKind::Midi { channel, message } => SmfKind::Midi {
                channel: (channel % 16) as u8,
                message: fit_message(message),
            },
        },
    }
}

/// What the tracks of a `midly` file hold: per track, its events in order, each
/// read back as an `SmfEvent` (so with every number at the width of its
/// field) with the bytes of its text (the name of a track-name event, empty
/// otherwise).
pub uninterp spec fn smf_tracks(s: Smf) -> Seq<Seq<(SmfEvent, Seq<u8>)>>;

/// The bytes `midly` writes for a format-0 file of `ppqn` ticks per quarter
/// note holding these tracks.
pub uninterp spec fn smf_file_bytes(ppqn: u16, tracks: Seq<Seq<(SmfEvent, Seq<u8>)>>) -> Seq<u8>;

/// `Smf::new` with a format-0 header, then one empty track pushed.
#[verifier::external_body]
fn smf_with_one_track<'a>(ppqn: u16) -> (res: Smf<'a>)
    ensures
        smf_tracks(res) == seq![Seq::<(SmfEvent, Seq<u8>)>::empty()],
{
    let mut smf = Smf::new(Header::new(Format::SingleTrack, Timing::Metrical(ppqn.into())));
    smf.tracks.push(Vec::new());
    smf
}

/// Appends a meta event to the first track (`TrackEvent` with
/// `TrackEventKind::Meta`, numbers converted with midly's lossy `From`);
/// `text` is the name of a track-name event.
#[verifier::external_body]
fn push_meta_event<'a>(smf: &mut Smf<'a>, delta: u32, meta: SmfMeta, text: &'a [u8])
    requires
        smf_tracks(*old(smf)).len() > 0,
    ensures
        smf_tracks(*final(smf)) == smf_tracks(*old(smf)).update(
            0,
            smf_tracks(*old(smf))[0].push(
                (
                    fit_event(SmfEvent { delta, kind: SmfKind::Meta(meta) }),
                    if meta == SmfMeta::TrackName {
                        text@
                    } else {
                        Seq::<u8>::empty()
                    },
                ),
            ),
        ),
{
    let kind = K::Meta(match meta {
        SmfMeta::Tempo(t) => M::Tempo(t.into()),
        SmfMeta::TimeSignature(a, b, c, d) => M::TimeSignature(a, b, c, d),
        SmfMeta::TrackName => M::TrackName(text),
        SmfMeta::EndOfTrack => M::EndOfTrack,
    });
    smf.tracks[0].push(TrackEvent { delta: delta.into(), kind });
}

/// Appends a channel message to the first track (`TrackEvent` with
/// `TrackEventKind::Midi`, numbers converted with midly's lossy `From`).
#[verifier::external_body]
fn push_channel_event<'a>(smf: &mut Smf<'a>, delta: u32, channel: u8, m: MidiMsg)
    requires
        smf_tracks(*old(smf)).len() > 0,
    ensures
        smf_tracks(*final(smf)) == smf_tracks(*old(smf)).update(
            0,
            smf_tracks(*old(smf))[0].push(
                (
                    fit_event(SmfEvent { delta, kind: SmfKind::Midi { channel, message: m } }),
                    Seq::<u8>::empty(),
                ),
            ),
        ),
{
    let message = match m {
        MidiMsg::NoteOn { key, vel } => X::NoteOn { key: key.into(), vel: vel.into() },
        MidiMsg::NoteOff { key, vel } => X::NoteOff { key: key.into(), vel: vel.into() },
        MidiMsg::Controller { controller, value } => X::Controller { controller: controller.into(), value: value.into() },
        MidiMsg::ProgramChange { program } => X::ProgramChange { program: program.into() },
    };
    smf.tracks[0].push(TrackEvent { delta: delta.into(), kind: K::Midi { channel: channel.into(), message } });
}

/// An upper bound on the bytes `midly` writes for a track's events: at most
/// four for a delta and ten for an event itself (status, type and length
/// bytes, and up to four data bytes), plus the bytes of its text.
pub open spec fn track_size_bound(items: Seq<(SmfEvent, Seq<u8>)>) -> int
    decreases items.len(),
{
    if items.len() == 0 {
        0
    } else {
        track_size_bound(items.drop_last()) + 14 + items.last().1.len()
    }
}

/// Tracks within the limits `midly` writes: at most 65535 tracks, every text
/// under 256 MiB, every track chunk under 4 GiB.
pub open spec fn writable_tracks(tracks: Seq<Seq<(SmfEvent, Seq<u8>)>>) -> bool {
    &&& tracks.len() <= 65535
    &&& forall|t: int|
        0 <= t < tracks.len() ==> track_size_bound(#[trigger] tracks[t]) < 0x1_0000_0000 && forall|k: int|
            0 <= k < tracks[t].len() ==> tracks[t][k].1.len() < 0x1000_0000
}

/// `midly::write_std` of the file's tracks under a format-0 header of `ppqn`
/// ticks per quarter note, into a `Vec`. Writing to a `Vec` cannot fail, so
/// `midly` refuses only what breaks the limits of the MIDI format (more than
/// 65535 tracks, an event's data of 256 MiB or more, a track of 4 GiB or more).
#[verifier::external_body]
fn write_tracks(smf: &Smf, ppqn: u16) -> (res: Result<Vec<u8>, String>)
    ensures
        res matches Ok(b) ==> b@ == smf_file_bytes(ppqn, smf_tracks(*smf)),
        writable_tracks(smf_tracks(*smf)) ==> res is Ok,
{
    let mut bytes = Vec::new();
    let header = Header::new(Format::SingleTrack, Timing::Metrical(ppqn.into()));
    midly::write_std(&header, &smf.tracks, &mut bytes).map_err(|e| e.to_string())?;
    Ok(bytes)
}

/// An event paired with the bytes of its text.
pub open spec fn with_text(e: SmfEvent, name: Seq<u8>) -> (SmfEvent, Seq<u8>) {
    (
        e,
        if e.kind == SmfKind::Meta(SmfMeta::TrackName) {
            name
        } else {
            Seq::<u8>::empty()
        },
    )
}

/// The events of a track as `midly` holds them, each with the bytes of its text.
pub open spec fn named_items(name: Seq<u8>, events: Seq<SmfEvent>) -> Seq<(SmfEvent, Seq<u8>)> {
    events.map_values(|e: SmfEvent| with_text(fit_event(e), name))
}

/// The single track of a file holding `events`, `name` being the text of its
/// track-name events.
pub open spec fn single_track(name: Seq<u8>, events: Seq<SmfEvent>) -> Seq<Seq<(SmfEvent, Seq<u8>)>> {
    seq![named_items(name, events)]
}

/// Each event of a track holding `events` writes at most 14 bytes besides
/// the name.
proof fn lemma_single_track_bound(name: Seq<u8>, events: Seq<SmfEvent>)
    ensures
        track_size_bound(named_items(name, events)) <= events.len() * (14 + name.len()),
        forall|k: int| 0 <= k < events.len() ==> (#[trigger] named_items(name, events)[k]).1.len() <= name.len(),
    decreases events.len(),
{
    let items = named_items(name, events);
    if events.len() > 0 {
        let d = events.drop_last();
        lemma_single_track_bound(name, d);
        assert(items.drop_last() =~= named_items(name, d));
        let n = events.len();
        let l = name.len();
        assert((n - 1) * (14 + l) + 14 + l == n * (14 + l)) by (nonlinear_arith);
    }
}

/// Encodes one track as a format-0 Standard MIDI File of `ppqn` ticks per
/// quarter note, every number kept to the width of its field. It succeeds whenever the track is within the format's limits,
/// which holds where the name is under 256 MiB and the events, each written
/// with at most 14 bytes besides the name, stay under 4 GiB.
pub fn write_smf(name: &[u8], events: &Vec<SmfEvent>, ppqn: u16) -> (res: Result<Vec<u8>, String>)
    ensures
        res matches Ok(b) ==> b@ == smf_file_bytes(ppqn, single_track(name@, events@)),
        name@.len() < 0x1000_0000 && events@.len() * (14 + name@.len()) < 0x1_0000_0000 ==> res is Ok,
{
    let mut smf = smf_with_one_track(ppqn);
    let mut i: usize = 0;
    assert(named_items(name@, events@.take(0)) =~= Seq::<(SmfEvent, Seq<u8>)>::empty());
    while i < events.len()
        invariant
            i <= events@.len(),
            smf_tracks(smf) == seq![named_items(name@, events@.take(i as int))],
        decreases events@.len() - i,
    {
        let e = events[i];
        match e.kind {
            SmfKind::Meta(meta) => push_meta_event(&mut smf, e.delta, meta, name),
            SmfKind::Midi { channel, message } => push_channel_event(&mut smf, e.delta, channel, message),
        }
        assert(named_items(name@, events@.take(i + 1)) =~= named_items(name@, events@.take(i as int)).push(
            with_text(fit_event(e), name@),
        ));
        assert(smf_tracks(smf) =~= seq![named_items(name@, events@.take(i + 1))]);
        i = i + 1;
    }
    assert(events@.take(events@.len() as int) =~= events@);
    proof {
        lemma_single_track_bound(name@, events@);
        let tracks = single_track(name@, events@);
        assert(tracks[0] == named_items(name@, events@));
    }
    write_tracks(&smf, ppqn)
}

} // verus!
