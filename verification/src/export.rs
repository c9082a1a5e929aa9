//! Resolving a MIDI track into absolutely timed MIDI messages: the Reset
//! Block, the placed events and the rendered automation curves, with latency
//! compensation, in a deterministic order.

use crate::curve::{curve_samples, curve_samples_of, resends_of, thin_from, thin_steps, with_resends};
use crate::definition::{
    child_messages, command_id, forced_shape_of, params_view, resolve_value, resolve_value_spec,
    target_messages_declared, text_err, Command, DeviceDefinition, Message, Target,
};
use crate::order::{sort_by_time, sort_timed, time_sorted, law_sort_by_time, Timed};
use crate::smf::{single_track, smf_file_bytes, write_smf, SmfEvent, SmfKind, SmfMeta};
use crate::project::PPQN;
use crate::text::same_text;
use crate::project::{
    prepare_breakpoints, prepared, sorted_by_tick, ticks_ascending, AutomationCurve, Breakpoint, CurvePoint, Event,
    MidiTrack,
};
use vstd::prelude::*;

verus! {

/// A MIDI channel message without its channel. Every data byte is 7-bit.
#[derive(Clone, Copy, Debug, PartialEq, Eq, Structural)]
pub enum MidiMsg {
    NoteOn { key: u8, vel: u8 },
    NoteOff { key: u8, vel: u8 },
    Controller { controller: u8, value: u8 },
    ProgramChange { program: u8 },
}

/// The low seven bits of a byte, the part a MIDI data byte keeps.
pub open spec fn seven_bit(v: u8) -> u8 {
    (v % 128) as u8
}

/// The MIDI message a definition message resolves to under `params`.
pub open spec fn resolve_message_spec(msg: Message, params: Seq<(Seq<char>, u8)>) -> Result<
    MidiMsg,
    Seq<char>,
> {
    match msg {
        Message::NoteOn(m) => match resolve_value_spec(m.note@, params) {
            Err(e) => Err(e),
            Ok(k) => match resolve_value_spec(m.velocity@, params) {
                Err(e) => Err(e),
                Ok(v) => Ok(MidiMsg::NoteOn { key: seven_bit(k), vel: seven_bit(v) }),
            },
        },
        Message::NoteOff(m) => match resolve_value_spec(m.note@, params) {
            Err(e) => Err(e),
            Ok(k) => match resolve_value_spec(m.velocity@, params) {
                Err(e) => Err(e),
                Ok(v) => Ok(MidiMsg::NoteOff { key: seven_bit(k), vel: seven_bit(v) }),
            },
        },
        Message::ControlChange(m) => match resolve_value_spec(m.value@, params) {
            Err(e) => Err(e),
            Ok(v) => Ok(
                MidiMsg::Controller { controller: seven_bit(m.controller), value: seven_bit(v) },
            ),
        },
        Message::ProgramChange(m) => match resolve_value_spec(m.program@, params) {
            Err(e) => Err(e),
            Ok(p) => Ok(MidiMsg::ProgramChange { program: seven_bit(p) }),
        },
    }
}

/// All messages resolved in order, or the first failure.
pub open spec fn resolve_all(msgs: Seq<Message>, params: Seq<(Seq<char>, u8)>) -> Result<
    Seq<MidiMsg>,
    Seq<char>,
>
    decreases msgs.len(),
{
    if msgs.len() == 0 {
        Ok(seq![])
    } else {
        match resolve_all(msgs.drop_last(), params) {
            Err(e) => Err(e),
            Ok(r) => match resolve_message_spec(msgs.last(), params) {
                Err(e) => Err(e),
                Ok(m) => Ok(r.push(m)),
            },
        }
    }
}

fn seven(v: u8) -> (res: u8)
    ensures
        res == seven_bit(v),
{
    v % 128
}

/// Resolves one definition message into a MIDI message.
pub fn resolve_message(msg: &Message, params: &Vec<(String, u8)>) -> (res: Result<MidiMsg, String>)
    ensures
        text_err(res) == resolve_message_spec(*msg, params_view(params@)),
{
    match msg {
        Message::NoteOn(m) => {
            let k = match resolve_value(m.note.as_str(), params) {
                Ok(k) => k,
                Err(e) => return Err(e),
            };
            let v = match resolve_value(m.velocity.as_str(), params) {
                Ok(v) => v,
                Err(e) => return Err(e),
            };
            Ok(MidiMsg::NoteOn { key: seven(k), vel: seven(v) })
        },
        Message::NoteOff(m) => {
            let k = match resolve_value(m.note.as_str(), params) {
                Ok(k) => k,
                Err(e) => return Err(e),
            };
            let v = match resolve_value(m.velocity.as_str(), params) {
                Ok(v) => v,
                Err(e) => return Err(e),
            };
            Ok(MidiMsg::NoteOff { key: seven(k), vel: seven(v) })
        },
        Message::ControlChange(m) => {
            let v = match resolve_value(m.value.as_str(), params) {
                Ok(v) => v,
                Err(e) => return Err(e),
            };
            Ok(MidiMsg::Controller { controller: seven(m.controller), value: seven(v) })
        },
        Message::ProgramChange(m) => {
            let p = match resolve_value(m.program.as_str(), params) {
                Ok(p) => p,
                Err(e) => return Err(e),
            };
            Ok(MidiMsg::ProgramChange { program: seven(p) })
        },
    }
}

/// Resolves a list of definition messages, stopping at the first failure.
pub fn resolve_messages(msgs: &Vec<Message>, params: &Vec<(String, u8)>) -> (res: Result<
    Vec<MidiMsg>,
    String,
>)
    ensures
        match res {
            Ok(v) => resolve_all(msgs@, params_view(params@)) == Ok::<Seq<MidiMsg>, Seq<char>>(
                v@,
            ),
            Err(e) => resolve_all(msgs@, params_view(params@)) == Err::<Seq<MidiMsg>, Seq<char>>(
                e@,
            ),
        },
{
    let mut out: Vec<MidiMsg> = Vec::new();
    let mut i: usize = 0;
    while i < msgs.len()
        invariant
            i <= msgs@.len(),
            resolve_all(msgs@.take(i as int), params_view(params@)) == Ok::<
                Seq<MidiMsg>,
                Seq<char>,
            >(out@),
        decreases msgs@.len() - i,
    {
        assert(msgs@.take(i + 1).drop_last() =~= msgs@.take(i as int));
        match resolve_message(&msgs[i], params) {
            Ok(m) => out.push(m),
            Err(e) => {
                proof {
                    lemma_resolve_all_err_extends(msgs@, params_view(params@), i + 1, e@);
                }
                return Err(e);
            },
        }
        i = i + 1;
    }
    assert(msgs@.take(msgs@.len() as int) =~= msgs@);
    Ok(out)
}

/// Once a prefix fails, the whole list fails the same way.
pub proof fn lemma_resolve_all_err_extends(
    msgs: Seq<Message>,
    params: Seq<(Seq<char>, u8)>,
    n: int,
    e: Seq<char>,
)
    requires
        0 <= n <= msgs.len(),
        resolve_all(msgs.take(n), params) == Err::<Seq<MidiMsg>, Seq<char>>(e),
    ensures
        resolve_all(msgs, params) == Err::<Seq<MidiMsg>, Seq<char>>(e),
    decreases msgs.len() - n,
{
    if n < msgs.len() {
        assert(msgs.take(n + 1).drop_last() =~= msgs.take(n));
        lemma_resolve_all_err_extends(msgs, params, n + 1, e);
    } else {
        assert(msgs.take(n) =~= msgs);
    }
}

/// The MIDI a target sends for one value: its declared messages with `$value`
/// standing in for the value, or else a plain CC on its controller.
pub open spec fn target_messages_spec(t: Target, value: u8) -> Result<Seq<MidiMsg>, Seq<char>> {
    let declared = target_messages_declared(t.children@);
    if declared.len() == 0 {
        match t.controller {
            None => Err("an automation target needs either a controller or messages"@),
            Some(c) => Ok(
                seq![MidiMsg::Controller { controller: seven_bit(c), value: seven_bit(value) }],
            ),
        }
    } else {
        resolve_all(declared, seq![("value"@, value)])
    }
}

/// The MIDI a target sends for one value.
pub fn target_messages(target: &Target, value: u8) -> (res: Result<Vec<MidiMsg>, String>)
    ensures
        match res {
            Ok(v) => target_messages_spec(*target, value) == Ok::<Seq<MidiMsg>, Seq<char>>(v@),
            Err(e) => target_messages_spec(*target, value) == Err::<Seq<MidiMsg>, Seq<char>>(
                e@,
            ),
        },
{
    let declared = target.declared_messages();
    if declared.len() == 0 {
        match target.controller {
            None => Err(String::from_str("an automation target needs either a controller or messages")),
            Some(c) => {
                let mut v: Vec<MidiMsg> = Vec::new();
                v.push(MidiMsg::Controller { controller: seven(c), value: seven(value) });
                assert(v@ =~= seq![MidiMsg::Controller { controller: seven_bit(c), value: seven_bit(value) }]);
                Ok(v)
            },
        }
    } else {
        let params = vec![(String::from_str("value"), value)];
        assert(params_view(params@) =~= seq![("value"@, value)]);
        resolve_messages(&declared, &params)
    }
}

/// Index of the first command with the given id.
pub open spec fn command_index(items: Seq<Command>, id: Seq<char>) -> Option<int>
    decreases items.len(),
{
    if items.len() == 0 {
        None
    } else {
        match command_index(items.drop_last(), id) {
            Some(i) => Some(i),
            None => if command_id(items.last())@ == id {
                Some(items.len() - 1)
            } else {
                None
            },
        }
    }
}

pub proof fn lemma_command_index(items: Seq<Command>, id: Seq<char>)
    ensures
        match command_index(items, id) {
            Some(i) => 0 <= i < items.len() && command_id(items[i])@ == id && forall|j: int|
                0 <= j < i ==> command_id(#[trigger] items[j])@ != id,
            None => forall|j: int| 0 <= j < items.len() ==> command_id(#[trigger] items[j])@ != id,
        },
    decreases items.len(),
{
    if items.len() > 0 {
        lemma_command_index(items.drop_last(), id);
        match command_index(items.drop_last(), id) {
            Some(i) => {
                assert forall|j: int| 0 <= j < i implies command_id(#[trigger] items[j])@ != id by {
                    assert(items[j] == items.drop_last()[j]);
                }
                assert(items[i] == items.drop_last()[i]);
            },
            None => {
                assert forall|j: int| 0 <= j < items.len() - 1 implies command_id(
                    #[trigger] items[j],
                )@ != id by {
                    assert(items[j] == items.drop_last()[j]);
                }
            },
        }
    }
}

/// Finds the index of the first command with the given id.
pub fn find_command_index(items: &Vec<Command>, id: &str) -> (res: Option<usize>)
    ensures
        match command_index(items@, id@) {
            Some(i) => res matches Some(k) && k as int == i,
            None => res is None,
        },
{
    let mut i: usize = 0;
    while i < items.len()
        invariant
            i <= items@.len(),
            command_index(items@.take(i as int), id@) is None,
        decreases items@.len() - i,
    {
        assert(items@.take(i + 1).drop_last() =~= items@.take(i as int));
        if same_text(items[i].id(), id) {
            proof {
                lemma_command_index_prefix(items@, id@, i as int);
            }
            return Some(i);
        }
        i = i + 1;
    }
    assert(items@.take(items@.len() as int) =~= items@);
    None
}

/// The first match in a prefix is the first match overall.
pub proof fn lemma_command_index_prefix(items: Seq<Command>, id: Seq<char>, i: int)
    requires
        0 <= i < items.len(),
        command_index(items.take(i), id) is None,
        command_id(items[i])@ == id,
    ensures
        command_index(items, id) == Some(i),
{
    lemma_command_index(items.take(i), id);
    lemma_command_index(items, id);
    match command_index(items, id) {
        Some(k) => {
            if k < i {
                assert(items.take(i)[k] == items[k]);
            }
        },
        None => {},
    }
}

pub open spec fn no_command_text(def_id: Seq<char>, id: Seq<char>) -> Seq<char> {
    "definition '"@ + def_id + "' has no command '"@ + id + "'"@
}

/// Looks a command up by id; the error names the definition and the id.
pub fn find_command<'a>(def: &'a DeviceDefinition, id: &str) -> (res: Result<usize, String>)
    ensures
        match command_index(def.commands.items@, id@) {
            Some(i) => res matches Ok(k) && k as int == i,
            None => res matches Err(e) && e@ == no_command_text(def.id@, id@),
        },
{
    match find_command_index(&def.commands.items, id) {
        Some(i) => Ok(i),
        None => {
            let mut e = String::from_str("definition '");
            e.append(def.id.as_str());
            e.append("' has no command '");
            e.append(id);
            e.append("'");
            Err(e)
        },
    }
}

pub open spec fn latency_of_command(c: Command) -> u32 {
    match c {
        Command::OneShot(x) => crate::summary::latency_or_zero(x.latency),
        Command::Hold(x) => crate::summary::latency_or_zero(x.latency),
        Command::Automation(x) => crate::summary::latency_or_zero(x.latency),
    }
}

/// The command's own execution latency in ms (0 when the definition gives none).
pub fn command_latency(cmd: &Command) -> (res: u32)
    ensures
        res == latency_of_command(*cmd),
{
    let l = match cmd {
        Command::OneShot(c) => c.latency,
        Command::Hold(c) => c.latency,
        Command::Automation(c) => c.latency,
    };
    match l {
        Some(v) => v,
        None => 0,
    }
}

/// How a project's tempo maps a track's millisecond settings onto ticks, and
/// what its automation curves read, worked out ahead of resolving the track.
#[derive(Clone, Debug)]
pub struct TrackTiming {
    /// For command `k` of the definition: how many ticks its messages are sent
    /// early (the track's latency compensation plus the command's own latency).
    pub shifts: Vec<u64>,
    /// For curve `k` of the track: its rendering inputs.
    pub curves: Vec<CurveRender>,
}

/// The values an automation curve reads (`curve_samples`, each reading
/// resolved to a value) and its re-send interval in ticks.
#[derive(Clone, Debug)]
pub struct CurveRender {
    pub values: Vec<(u64, u8)>,
    pub resend_ticks: u64,
}

#[derive(Clone, Copy, Debug)]
pub struct ExportOptions {
    pub reset_block: bool,
    /// How far the song runs, for curves that re-send their value periodically.
    /// 0 means "derive it from the project's own content".
    pub song_end_ticks: u64,
}

impl Default for ExportOptions {
    fn default() -> (res: Self)
        ensures
            res.reset_block,
            res.song_end_ticks == 0,
    {
        ExportOptions { reset_block: true, song_end_ticks: 0 }
    }
}

/// A tick moved earlier by `by`, never before the song start.
pub open spec fn shifted(tick: u64, by: u64) -> u64 {
    if tick >= by {
        (tick - by) as u64
    } else {
        0
    }
}

pub open spec fn at_tick(ms: Seq<MidiMsg>, tick: u64) -> Seq<(u64, MidiMsg)> {
    ms.map_values(|m: MidiMsg| (tick, m))
}

/// Appends `more` to what was emitted so far; the first failure wins.
pub open spec fn then_emit(
    acc: Result<Seq<(u64, MidiMsg)>, Seq<char>>,
    more: Result<Seq<(u64, MidiMsg)>, Seq<char>>,
) -> Result<Seq<(u64, MidiMsg)>, Seq<char>> {
    match acc {
        Err(e) => Err(e),
        Ok(a) => match more {
            Err(e) => Err(e),
            Ok(m) => Ok(a + m),
        },
    }
}

/// Steps `0..n` emitted in order; the first failure wins.
pub open spec fn emit_through(
    n: nat,
    step: spec_fn(int) -> Result<Seq<(u64, MidiMsg)>, Seq<char>>,
) -> Result<Seq<(u64, MidiMsg)>, Seq<char>>
    decreases n,
{
    if n == 0 {
        Ok(seq![])
    } else {
        then_emit(emit_through((n - 1) as nat, step), step(n - 1))
    }
}

pub proof fn lemma_emit_err_extends(
    n: nat,
    m: nat,
    step: spec_fn(int) -> Result<Seq<(u64, MidiMsg)>, Seq<char>>,
    e: Seq<char>,
)
    requires
        n <= m,
        emit_through(n, step) == Err::<Seq<(u64, MidiMsg)>, Seq<char>>(e),
    ensures
        emit_through(m, step) == Err::<Seq<(u64, MidiMsg)>, Seq<char>>(e),
    decreases m - n,
{
    if n < m {
        lemma_emit_err_extends(n, (m - 1) as nat, step, e);
    }
}

pub open spec fn with_msgs(r: Result<Seq<MidiMsg>, Seq<char>>, tick: u64) -> Result<
    Seq<(u64, MidiMsg)>,
    Seq<char>,
> {
    match r {
        Err(e) => Err(e),
        Ok(ms) => Ok(at_tick(ms, tick)),
    }
}

pub open spec fn is_hold_of(e: Event, id: Seq<char>) -> bool {
    match e {
        Event::Hold { command_id, .. } => command_id@ == id,
        _ => false,
    }
}

/// A Hold event among the first `n` already used command `id`.
pub open spec fn hold_seen(events: Seq<Event>, n: int, id: Seq<char>) -> bool {
    exists|j: int| 0 <= j < n && is_hold_of(#[trigger] events[j], id)
}

/// The Reset Block's share of event `i`: the Disengage messages of the first
/// Hold event of each Hold command.
pub open spec fn reset_step(def: DeviceDefinition, events: Seq<Event>) -> spec_fn(int) -> Result<
    Seq<(u64, MidiMsg)>,
    Seq<char>,
> {
    |i: int|
        match events[i] {
            Event::Hold { command_id, params, .. } => if hold_seen(events, i, command_id@) {
                Ok(seq![])
            } else {
                match command_index(def.commands.items@, command_id@) {
                    None => Err(no_command_text(def.id@, command_id@)),
                    Some(k) => match def.commands.items@[k] {
                        Command::Hold(cmd) => with_msgs(
                            resolve_all(cmd.disengage.messages@, params_view(params@)),
                            0,
                        ),
                        _ => Ok(seq![]),
                    },
                }
            },
            _ => Ok(seq![]),
        }
}

pub open spec fn init_emission(def: DeviceDefinition) -> Result<Seq<(u64, MidiMsg)>, Seq<char>> {
    match def.init {
        None => Ok(seq![]),
        Some(l) => with_msgs(resolve_all(l.messages@, seq![]), 0),
    }
}

pub open spec fn not_a_text(id: Seq<char>, kind: Seq<char>) -> Seq<char> {
    "'"@ + id + kind
}

/// What one event emits.
pub open spec fn event_emission(def: DeviceDefinition, shifts: Seq<u64>, e: Event) -> Result<
    Seq<(u64, MidiMsg)>,
    Seq<char>,
> {
    match e {
        Event::OneShot { command_id, tick, params, .. } => match command_index(
            def.commands.items@,
            command_id@,
        ) {
            None => Err(no_command_text(def.id@, command_id@)),
            Some(k) => match def.commands.items@[k] {
                Command::OneShot(cmd) => with_msgs(
                    resolve_all(child_messages(cmd.children@), params_view(params@)),
                    shifted(tick, shifts[k]),
                ),
                _ => Err(not_a_text(command_id@, "' is not a One-Shot command"@)),
            },
        },
        Event::Hold { command_id, tick, length, params, .. } => match command_index(
            def.commands.items@,
            command_id@,
        ) {
            None => Err(no_command_text(def.id@, command_id@)),
            Some(k) => match def.commands.items@[k] {
                Command::Hold(cmd) => then_emit(
                    with_msgs(
                        resolve_all(cmd.engage.messages@, params_view(params@)),
                        shifted(tick, shifts[k]),
                    ),
                    with_msgs(
                        resolve_all(cmd.disengage.messages@, params_view(params@)),
                        shifted((tick + length) as u64, shifts[k]),
                    ),
                ),
                _ => Err(not_a_text(command_id@, "' is not a Hold command"@)),
            },
        },
    }
}

/// What event `i` emits.
pub open spec fn event_step(def: DeviceDefinition, shifts: Seq<u64>, events: Seq<Event>) -> spec_fn(
    int,
) -> Result<Seq<(u64, MidiMsg)>, Seq<char>> {
    |i: int| event_emission(def, shifts, events[i])
}

/// What the `i`-th value a curve sends emits.
pub open spec fn value_step(target: Target, msgs: Seq<(u64, u8)>, shift: u64) -> spec_fn(
    int,
) -> Result<Seq<(u64, MidiMsg)>, Seq<char>> {
    |i: int| with_msgs(target_messages_spec(target, msgs[i].1), shifted(msgs[i].0, shift))
}

pub open spec fn at_least_one(x: u64) -> u64 {
    if x == 0 {
        1
    } else {
        x
    }
}

/// The values a curve sends: its readings settled and thinned, then re-sent
/// periodically when it asks for that.
pub open spec fn curve_values(
    target: Target,
    c: AutomationCurve,
    r: CurveRender,
    song_end: u64,
) -> Seq<(u64, u8)> {
    let thinned = thin_from(target, r.values@, None);
    if c.resend_ms > 0 {
        resends_of(thinned, at_least_one(r.resend_ticks), song_end)
    } else {
        thinned
    }
}

/// What one curve emits: nothing when disabled or empty.
pub open spec fn curve_emission(
    def: DeviceDefinition,
    shifts: Seq<u64>,
    c: AutomationCurve,
    r: CurveRender,
    song_end: u64,
) -> Result<Seq<(u64, MidiMsg)>, Seq<char>> {
    if !c.enabled || c.breakpoints@.len() == 0 {
        Ok(seq![])
    } else {
        match command_index(def.commands.items@, c.command_id@) {
            None => Err(no_command_text(def.id@, c.command_id@)),
            Some(k) => match def.commands.items@[k] {
                Command::Automation(cmd) => {
                    let msgs = curve_values(cmd.target, c, r, song_end);
                    emit_through(msgs.len(), value_step(cmd.target, msgs, shifts[k]))
                },
                _ => Err(not_a_text(c.command_id@, "' is not an Automation command"@)),
            },
        }
    }
}

/// What curve `i` emits.
pub open spec fn curve_step(
    def: DeviceDefinition,
    shifts: Seq<u64>,
    curves: Seq<AutomationCurve>,
    renders: Seq<CurveRender>,
    song_end: u64,
) -> spec_fn(int) -> Result<Seq<(u64, MidiMsg)>, Seq<char>> {
    |i: int| curve_emission(def, shifts, curves[i], renders[i], song_end)
}

/// The lane an event sits on; lane 0 is the top one.
pub open spec fn event_lane(e: Event) -> u32 {
    match e {
        Event::OneShot { lane, .. } => lane,
        Event::Hold { lane, .. } => lane,
    }
}

/// An event's place in lane order: its lane, then its position in the track.
#[derive(Clone, Copy, Debug)]
pub struct LaneSlot {
    pub lane: u32,
    pub index: usize,
}

impl Timed for LaneSlot {
    open spec fn time_key(&self) -> (u64, u64) {
        (self.lane as u64, self.index as u64)
    }

    fn key(&self) -> (res: (u64, u64)) {
        (self.lane as u64, self.index as u64)
    }
}

pub open spec fn lane_slots(events: Seq<Event>) -> Seq<LaneSlot> {
    Seq::new(events.len(), |i: int| LaneSlot { lane: event_lane(events[i]), index: i as usize })
}

/// The track's events in lane order, top lane first; on one lane in track order.
pub open spec fn lane_order(events: Seq<Event>) -> Seq<LaneSlot> {
    sort_by_time(lane_slots(events))
}

/// The events the slots point at, in the slots' order.
pub open spec fn slot_events(order: Seq<LaneSlot>, events: Seq<Event>) -> Seq<Event> {
    order.map_values(|s: LaneSlot| events[s.index as int])
}

/// The events' messages: checked in track order (the first failing event
/// names the error), then emitted in lane order, so that simultaneous events
/// go out from the top lane to the bottom one.
pub open spec fn events_emission(def: DeviceDefinition, shifts: Seq<u64>, events: Seq<Event>) -> Result<
    Seq<(u64, MidiMsg)>,
    Seq<char>,
> {
    match emit_through(events.len(), event_step(def, shifts, events)) {
        Err(e) => Err(e),
        Ok(_) => emit_through(
            events.len(),
            event_step(def, shifts, slot_events(lane_order(events), events)),
        ),
    }
}

/// Everything a track emits, in emission order: the Reset Block (Init messages,
/// then the Disengage of every Hold command used), the events in lane order,
/// the curves.
pub open spec fn track_emission(
    track: MidiTrack,
    def: DeviceDefinition,
    timing: TrackTiming,
    song_end: u64,
    options: ExportOptions,
) -> Result<Seq<(u64, MidiMsg)>, Seq<char>> {
    let events = track.events@;
    let reset = if options.reset_block {
        then_emit(init_emission(def), emit_through(events.len(), reset_step(def, events)))
    } else {
        Ok(seq![])
    };
    let with_events = then_emit(reset, events_emission(def, timing.shifts@, events));
    then_emit(
        with_events,
        emit_through(
            track.automation@.len(),
            curve_step(def, timing.shifts@, track.automation@, timing.curves@, song_end),
        ),
    )
}

pub open spec fn well_timed(track: MidiTrack, def: DeviceDefinition, timing: TrackTiming) -> bool {
    &&& timing.shifts@.len() == def.commands.items@.len()
    &&& timing.curves@.len() == track.automation@.len()
    &&& forall|i: int|
        0 <= i < track.events@.len() ==> match #[trigger] track.events@[i] {
            Event::Hold { tick, length, .. } => tick + length <= u64::MAX,
            _ => true,
        }
}

fn emit_at(out: &mut Vec<(u64, MidiMsg)>, ms: &Vec<MidiMsg>, tick: u64)
    ensures
        final(out)@ == old(out)@ + at_tick(ms@, tick),
{
    let mut i: usize = 0;
    while i < ms.len()
        invariant
            i <= ms@.len(),
            out@ == old(out)@ + at_tick(ms@.take(i as int), tick),
        decreases ms@.len() - i,
    {
        out.push((tick, ms[i]));
        assert(at_tick(ms@.take(i + 1), tick) =~= at_tick(ms@.take(i as int), tick).push(
            (tick, ms@[i as int]),
        ));
        i = i + 1;
    }
    assert(ms@.take(ms@.len() as int) =~= ms@);
}

/// Appends resolved messages at `tick`, or passes the failure on.
fn emit_resolved(out: &mut Vec<(u64, MidiMsg)>, msgs: &Vec<Message>, params: &Vec<(String, u8)>, tick: u64) -> (res: Result<(), String>)
    ensures
        match res {
            Ok(_) => then_emit(Ok(old(out)@), with_msgs(resolve_all(msgs@, params_view(params@)), tick))
                == Ok::<Seq<(u64, MidiMsg)>, Seq<char>>(final(out)@),
            Err(e) => with_msgs(resolve_all(msgs@, params_view(params@)), tick) == Err::<Seq<(u64, MidiMsg)>, Seq<char>>(e@),
        },
{
    match resolve_messages(msgs, params) {
        Ok(ms) => {
            emit_at(out, &ms, tick);
            Ok(())
        },
        Err(e) => Err(e),
    }
}

pub open spec fn seen_has(seen: Seq<&String>, id: Seq<char>) -> bool {
    exists|k: int| 0 <= k < seen.len() && (#[trigger] seen[k])@ == id
}

fn seen_contains(seen: &Vec<&String>, id: &String) -> (res: bool)
    ensures
        res == seen_has(seen@, id@),
{
    let mut k: usize = 0;
    while k < seen.len()
        invariant
            k <= seen@.len(),
            forall|j: int| 0 <= j < k ==> (#[trigger] seen@[j])@ != id@,
        decreases seen@.len() - k,
    {
        if *seen[k] == *id {
            assert(seen@[k as int]@ == id@);
            return true;
        }
        k = k + 1;
    }
    false
}

fn not_a(id: &String, kind: &str) -> (res: String)
    ensures
        res@ == not_a_text(id@, kind@),
{
    let mut e = String::from_str("'");
    e.append(id.as_str());
    e.append(kind);
    e
}

/// The Reset Block's Disengage messages, appended to `out`.
fn emit_reset_holds(out: &mut Vec<(u64, MidiMsg)>, def: &DeviceDefinition, events: &Vec<Event>) -> (res: Result<(), String>)
    ensures
        match res {
            Ok(_) => then_emit(Ok(old(out)@), emit_through(events@.len(), reset_step(*def, events@)))
                == Ok::<Seq<(u64, MidiMsg)>, Seq<char>>(final(out)@),
            Err(e) => emit_through(events@.len(), reset_step(*def, events@)) == Err::<
                Seq<(u64, MidiMsg)>,
                Seq<char>,
            >(e@),
        },
{
    let ghost base = out@;
    let ghost step = reset_step(*def, events@);
    let mut seen: Vec<&String> = Vec::new();
    let mut i: usize = 0;
    while i < events.len()
        invariant
            i <= events@.len(),
            step == reset_step(*def, events@),
            then_emit(Ok(base), emit_through(i as nat, step)) == Ok::<Seq<(u64, MidiMsg)>, Seq<char>>(out@),
            forall|x: Seq<char>| seen_has(seen@, x) <==> hold_seen(events@, i as int, x),
        decreases events@.len() - i,
    {
        let ghost before = out@;
        let ghost prev = emit_through(i as nat, step);
        match &events[i] {
            Event::Hold { command_id, params, .. } => {
                if seen_contains(&seen, command_id) {
                    assert(step(i as int) == Ok::<Seq<(u64, MidiMsg)>, Seq<char>>(seq![]));
                    assert(before + seq![] =~= before);
                } else {
                    let ghost seen_before = seen@;
                    seen.push(command_id);
                    assert forall|x: Seq<char>| seen_has(seen@, x) <==> hold_seen(events@, i + 1, x) by {
                        if seen_has(seen@, x) {
                            let k = choose|k: int| 0 <= k < seen@.len() && (#[trigger] seen@[k])@ == x;
                            if k < seen_before.len() {
                                assert(seen_before[k] == seen@[k]);
                                assert(seen_has(seen_before, x));
                            } else {
                                assert(seen@[k] == command_id);
                                assert(is_hold_of(events@[i as int], x));
                            }
                            assert(hold_seen(events@, i + 1, x));
                        }
                        if hold_seen(events@, i + 1, x) {
                            let j = choose|j: int| 0 <= j < i + 1 && is_hold_of(#[trigger] events@[j], x);
                            if j < i {
                                assert(hold_seen(events@, i as int, x));
                                assert(seen_has(seen_before, x));
                                let k = choose|k: int| 0 <= k < seen_before.len() && (#[trigger] seen_before[k])@ == x;
                                assert(seen@[k] == seen_before[k]);
                                assert(seen_has(seen@, x));
                            } else {
                                assert(seen@[seen@.len() - 1] == command_id);
                                assert(seen_has(seen@, x));
                            }
                        }
                    }
                    let found = find_command(def, command_id.as_str());
                    match found {
                        Err(e) => {
                            proof {
                                lemma_emit_err_extends((i + 1) as nat, events@.len(), step, e@);
                            }
                            return Err(e);
                        },
                        Ok(k) => {
                            proof {
                                lemma_command_index(def.commands.items@, command_id@);
                            }
                            assert(command_index(def.commands.items@, command_id@) == Some(k as int));
                            match &def.commands.items[k] {
                                Command::Hold(cmd) => {
                                    assert(!hold_seen(events@, i as int, command_id@));
                                    assert(step(i as int) == with_msgs(resolve_all(cmd.disengage.messages@, params_view(params@)), 0));
                                    match emit_resolved(out, &cmd.disengage.messages, params, 0) {
                                        Err(e) => {
                                            proof {
                                                lemma_emit_err_extends((i + 1) as nat, events@.len(), step, e@);
                                            }
                                            return Err(e);
                                        },
                                        Ok(_) => {},
                                    }
                                },
                                _ => {
                                    assert(before + seq![] =~= before);
                                },
                            }
                        },
                    }
                }
            },
            _ => {
                assert(before + seq![] =~= before);
                assert forall|x: Seq<char>| seen_has(seen@, x) <==> hold_seen(events@, i + 1, x) by {
                    if hold_seen(events@, i + 1, x) {
                        let j = choose|j: int| 0 <= j < i + 1 && is_hold_of(#[trigger] events@[j], x);
                        if j < i {
                            assert(hold_seen(events@, i as int, x));
                        }
                    }
                    if hold_seen(events@, i as int, x) {
                        let j = choose|j: int| 0 <= j < i && is_hold_of(#[trigger] events@[j], x);
                        assert(hold_seen(events@, i + 1, x));
                    }
                }
            },
        }
        proof {
            match prev {
                Ok(x) => {
                    match step(i as int) {
                        Ok(m) => {
                            assert(base + (x + m) =~= (base + x) + m);
                        },
                        Err(_) => {},
                    }
                },
                Err(_) => {},
            }
        }
        i = i + 1;
    }
    Ok(())
}

proof fn lemma_then_ok(before: Seq<(u64, MidiMsg)>, r: Result<Seq<(u64, MidiMsg)>, Seq<char>>, after: Seq<(u64, MidiMsg)>)
    requires
        then_emit(Ok(before), r) == Ok::<Seq<(u64, MidiMsg)>, Seq<char>>(after),
    ensures
        after.len() >= before.len(),
        before + after.skip(before.len() as int) == after,
        r == Ok::<Seq<(u64, MidiMsg)>, Seq<char>>(after.skip(before.len() as int)),
{
    match r {
        Ok(x) => {
            assert(after.skip(before.len() as int) =~= x);
        },
        Err(_) => {},
    }
}

proof fn lemma_step_ok(base: Seq<(u64, MidiMsg)>, n: nat, step: spec_fn(int) -> Result<Seq<(u64, MidiMsg)>, Seq<char>>, before: Seq<(u64, MidiMsg)>, m: Seq<(u64, MidiMsg)>)
    requires
        then_emit(Ok(base), emit_through(n, step)) == Ok::<Seq<(u64, MidiMsg)>, Seq<char>>(before),
        step(n as int) == Ok::<Seq<(u64, MidiMsg)>, Seq<char>>(m),
    ensures
        then_emit(Ok(base), emit_through(n + 1, step)) == Ok::<Seq<(u64, MidiMsg)>, Seq<char>>(before + m),
{
    match emit_through(n, step) {
        Ok(x) => {
            assert(base + (x + m) =~= (base + x) + m);
        },
        Err(_) => {},
    }
}

proof fn lemma_step_err(base: Seq<(u64, MidiMsg)>, n: nat, total: nat, step: spec_fn(int) -> Result<Seq<(u64, MidiMsg)>, Seq<char>>, e: Seq<char>)
    requires
        n < total,
        then_emit(Ok(base), emit_through(n, step)) is Ok,
        step(n as int) == Err::<Seq<(u64, MidiMsg)>, Seq<char>>(e),
    ensures
        emit_through(total, step) == Err::<Seq<(u64, MidiMsg)>, Seq<char>>(e),
{
    lemma_emit_err_extends(n + 1, total, step, e);
}

/// One event's messages, appended to `out`.
fn emit_event(out: &mut Vec<(u64, MidiMsg)>, def: &DeviceDefinition, shifts: &Vec<u64>, event: &Event) -> (res: Result<(), String>)
    requires
        shifts@.len() == def.commands.items@.len(),
        match *event {
            Event::Hold { tick, length, .. } => tick + length <= u64::MAX,
            _ => true,
        },
    ensures
        match res {
            Ok(_) => then_emit(Ok(old(out)@), event_emission(*def, shifts@, *event))
                == Ok::<Seq<(u64, MidiMsg)>, Seq<char>>(final(out)@),
            Err(e) => event_emission(*def, shifts@, *event) == Err::<Seq<(u64, MidiMsg)>, Seq<char>>(e@),
        },
{
    let ghost before = out@;
    match event {
        Event::OneShot { command_id, tick, params, .. } => {
            let found = find_command(def, command_id.as_str());
            proof {
                lemma_command_index(def.commands.items@, command_id@);
            }
            let k = match found {
                Err(e) => return Err(e),
                Ok(k) => k,
            };
            match &def.commands.items[k] {
                Command::OneShot(cmd) => {
                    let ms = cmd.messages();
                    let at = tick.saturating_sub(shifts[k]);
                    assert(event_emission(*def, shifts@, *event) == with_msgs(resolve_all(ms@, params_view(params@)), at));
                    emit_resolved(out, &ms, params, at)
                },
                _ => Err(not_a(command_id, "' is not a One-Shot command")),
            }
        },
        Event::Hold { command_id, tick, length, params, .. } => {
            let found = find_command(def, command_id.as_str());
            proof {
                lemma_command_index(def.commands.items@, command_id@);
            }
            let k = match found {
                Err(e) => return Err(e),
                Ok(k) => k,
            };
            match &def.commands.items[k] {
                Command::Hold(cmd) => {
                    let on = tick.saturating_sub(shifts[k]);
                    let off = (*tick + *length).saturating_sub(shifts[k]);
                    let ghost r_on = with_msgs(resolve_all(cmd.engage.messages@, params_view(params@)), on);
                    let ghost r_off = with_msgs(resolve_all(cmd.disengage.messages@, params_view(params@)), off);
                    match emit_resolved(out, &cmd.engage.messages, params, on) {
                        Err(e) => return Err(e),
                        Ok(_) => {},
                    }
                    let ghost mid = out@;
                    proof {
                        lemma_then_ok(before, r_on, mid);
                    }
                    let r = emit_resolved(out, &cmd.disengage.messages, params, off);
                    proof {
                        if r is Ok {
                            lemma_then_ok(mid, r_off, out@);
                            assert(mid.skip(before.len() as int) + out@.skip(mid.len() as int) =~= out@.skip(before.len() as int));
                            assert(then_emit(r_on, r_off) == Ok::<Seq<(u64, MidiMsg)>, Seq<char>>(out@.skip(before.len() as int)));
                            assert(before + out@.skip(before.len() as int) =~= out@);
                            assert(event_emission(*def, shifts@, *event) == then_emit(r_on, r_off));
                        }
                    }
                    r
                },
                _ => Err(not_a(command_id, "' is not a Hold command")),
            }
        },
    }
}

/// The events' messages, appended to `out`.
fn emit_events(out: &mut Vec<(u64, MidiMsg)>, def: &DeviceDefinition, shifts: &Vec<u64>, events: &Vec<Event>) -> (res: Result<(), String>)
    requires
        shifts@.len() == def.commands.items@.len(),
        forall|i: int|
            0 <= i < events@.len() ==> match #[trigger] events@[i] {
                Event::Hold { tick, length, .. } => tick + length <= u64::MAX,
                _ => true,
            },
    ensures
        match res {
            Ok(_) => then_emit(Ok(old(out)@), emit_through(events@.len(), event_step(*def, shifts@, events@)))
                == Ok::<Seq<(u64, MidiMsg)>, Seq<char>>(final(out)@),
            Err(e) => emit_through(events@.len(), event_step(*def, shifts@, events@)) == Err::<
                Seq<(u64, MidiMsg)>,
                Seq<char>,
            >(e@),
        },
{
    let ghost base = out@;
    let ghost step = event_step(*def, shifts@, events@);
    let ghost total = events@.len();
    let mut i: usize = 0;
    while i < events.len()
        invariant
            i <= events@.len(),
            total == events@.len(),
            shifts@.len() == def.commands.items@.len(),
            forall|i: int|
                0 <= i < events@.len() ==> match #[trigger] events@[i] {
                    Event::Hold { tick, length, .. } => tick + length <= u64::MAX,
                    _ => true,
                },
            step == event_step(*def, shifts@, events@),
            then_emit(Ok(base), emit_through(i as nat, step)) == Ok::<Seq<(u64, MidiMsg)>, Seq<char>>(out@),
        decreases events@.len() - i,
    {
        let ghost before = out@;
        assert(step(i as int) == event_emission(*def, shifts@, events@[i as int]));
        match emit_event(out, def, shifts, &events[i]) {
            Err(e) => {
                proof { lemma_step_err(base, i as nat, total, step, e@); }
                return Err(e);
            },
            Ok(_) => {
                proof {
                    lemma_then_ok(before, step(i as int), out@);
                    lemma_step_ok(base, i as nat, step, before, out@.skip(before.len() as int));
                }
            },
        }
        i = i + 1;
    }
    Ok(())
}

/// Every slot of the lane order points at an event of the track.
proof fn lemma_lane_order_indices(events: Seq<Event>)
    ensures
        lane_order(events).len() == events.len(),
        forall|k: int| 0 <= k < lane_order(events).len() ==> (#[trigger] lane_order(events)[k]).index < events.len(),
{
    let slots = lane_slots(events);
    law_sort_by_time(slots);
    let sorted = lane_order(events);
    assert forall|k: int| 0 <= k < sorted.len() implies (#[trigger] sorted[k]).index < events.len() by {
        sorted.to_multiset_ensures();
        slots.to_multiset_ensures();
        assert(sorted.contains(sorted[k]));
        assert(sorted.to_multiset().count(sorted[k]) > 0);
        assert(slots.to_multiset().count(sorted[k]) > 0);
        assert(slots.contains(sorted[k]));
        let j = choose|j: int| 0 <= j < slots.len() && slots[j] == sorted[k];
    }
}

/// The track's events in lane order.
fn lane_order_of(events: &Vec<Event>) -> (res: Vec<LaneSlot>)
    ensures
        res@ == lane_order(events@),
{
    let mut slots: Vec<LaneSlot> = Vec::new();
    let mut i: usize = 0;
    while i < events.len()
        invariant
            i <= events@.len(),
            slots@ == lane_slots(events@).take(i as int),
        decreases events@.len() - i,
    {
        let lane = match &events[i] {
            Event::OneShot { lane, .. } => *lane,
            Event::Hold { lane, .. } => *lane,
        };
        slots.push(LaneSlot { lane, index: i });
        assert(slots@ =~= lane_slots(events@).take(i + 1));
        i = i + 1;
    }
    assert(lane_slots(events@).take(events@.len() as int) =~= lane_slots(events@));
    sort_timed(&slots)
}

/// The events' messages in the order of `order`, appended to `out`.
#[verifier::spinoff_prover]
fn emit_events_in_order(
    out: &mut Vec<(u64, MidiMsg)>,
    def: &DeviceDefinition,
    shifts: &Vec<u64>,
    events: &Vec<Event>,
    order: &Vec<LaneSlot>,
) -> (res: Result<(), String>)
    requires
        shifts@.len() == def.commands.items@.len(),
        forall|k: int| 0 <= k < order@.len() ==> (#[trigger] order@[k]).index < events@.len(),
        forall|i: int|
            0 <= i < events@.len() ==> match #[trigger] events@[i] {
                Event::Hold { tick, length, .. } => tick + length <= u64::MAX,
                _ => true,
            },
    ensures
        match res {
            Ok(_) => then_emit(
                Ok(old(out)@),
                emit_through(order@.len(), event_step(*def, shifts@, slot_events(order@, events@))),
            ) == Ok::<Seq<(u64, MidiMsg)>, Seq<char>>(final(out)@),
            Err(e) => emit_through(order@.len(), event_step(*def, shifts@, slot_events(order@, events@)))
                == Err::<Seq<(u64, MidiMsg)>, Seq<char>>(e@),
        },
{
    let ghost base = out@;
    let ghost step = event_step(*def, shifts@, slot_events(order@, events@));
    let ghost total = order@.len();
    let mut i: usize = 0;
    while i < order.len()
        invariant
            i <= order@.len(),
            total == order@.len(),
            shifts@.len() == def.commands.items@.len(),
            forall|k: int| 0 <= k < order@.len() ==> (#[trigger] order@[k]).index < events@.len(),
            forall|i: int|
                0 <= i < events@.len() ==> match #[trigger] events@[i] {
                    Event::Hold { tick, length, .. } => tick + length <= u64::MAX,
                    _ => true,
                },
            step == event_step(*def, shifts@, slot_events(order@, events@)),
            then_emit(Ok(base), emit_through(i as nat, step)) == Ok::<Seq<(u64, MidiMsg)>, Seq<char>>(out@),
        decreases order@.len() - i,
    {
        let ghost before = out@;
        let j = order[i].index;
        assert(j < events@.len());
        assert(slot_events(order@, events@)[i as int] == events@[j as int]);
        assert(step(i as int) == event_emission(*def, shifts@, events@[j as int]));
        match emit_event(out, def, shifts, &events[j]) {
            Err(e) => {
                proof { lemma_step_err(base, i as nat, total, step, e@); }
                return Err(e);
            },
            Ok(_) => {
                proof {
                    lemma_then_ok(before, step(i as int), out@);
                    lemma_step_ok(base, i as nat, step, before, out@.skip(before.len() as int));
                }
            },
        }
        i = i + 1;
    }
    Ok(())
}

/// The messages for each value a curve sends, appended to `out`.
fn emit_values(out: &mut Vec<(u64, MidiMsg)>, target: &Target, msgs: &Vec<(u64, u8)>, shift: u64) -> (res: Result<(), String>)
    ensures
        match res {
            Ok(_) => then_emit(Ok(old(out)@), emit_through(msgs@.len(), value_step(*target, msgs@, shift)))
                == Ok::<Seq<(u64, MidiMsg)>, Seq<char>>(final(out)@),
            Err(e) => emit_through(msgs@.len(), value_step(*target, msgs@, shift)) == Err::<
                Seq<(u64, MidiMsg)>,
                Seq<char>,
            >(e@),
        },
{
    let ghost base = out@;
    let ghost step = value_step(*target, msgs@, shift);
    let ghost total = msgs@.len();
    let mut i: usize = 0;
    while i < msgs.len()
        invariant
            i <= msgs@.len(),
            total == msgs@.len(),
            step == value_step(*target, msgs@, shift),
            then_emit(Ok(base), emit_through(i as nat, step)) == Ok::<Seq<(u64, MidiMsg)>, Seq<char>>(out@),
        decreases msgs@.len() - i,
    {
        let ghost before = out@;
        let (tick, value) = msgs[i];
        let at = tick.saturating_sub(shift);
        assert(step(i as int) == with_msgs(target_messages_spec(*target, value), at));
        match target_messages(target, value) {
            Err(e) => {
                proof { lemma_step_err(base, i as nat, total, step, e@); }
                return Err(e);
            },
            Ok(ms) => {
                emit_at(out, &ms, at);
                proof {
                    assert(before + at_tick(ms@, at) == out@);
                    assert(out@.skip(before.len() as int) =~= at_tick(ms@, at));
                    lemma_step_ok(base, i as nat, step, before, at_tick(ms@, at));
                }
            },
        }
        i = i + 1;
    }
    Ok(())
}

/// One curve's messages, appended to `out`.
fn emit_curve(out: &mut Vec<(u64, MidiMsg)>, def: &DeviceDefinition, shifts: &Vec<u64>, curve: &AutomationCurve, render: &CurveRender, song_end: u64) -> (res: Result<(), String>)
    requires
        shifts@.len() == def.commands.items@.len(),
    ensures
        match res {
            Ok(_) => then_emit(Ok(old(out)@), curve_emission(*def, shifts@, *curve, *render, song_end))
                == Ok::<Seq<(u64, MidiMsg)>, Seq<char>>(final(out)@),
            Err(e) => curve_emission(*def, shifts@, *curve, *render, song_end) == Err::<Seq<(u64, MidiMsg)>, Seq<char>>(e@),
        },
{
    if !curve.enabled || curve.breakpoints.len() == 0 {
        assert(out@ + seq![] =~= out@);
        return Ok(());
    }
    let found = find_command(def, curve.command_id.as_str());
    proof {
        lemma_command_index(def.commands.items@, curve.command_id@);
    }
    let k = match found {
        Err(e) => return Err(e),
        Ok(k) => k,
    };
    match &def.commands.items[k] {
        Command::Automation(cmd) => {
            let thinned = thin_steps(&cmd.target, &render.values);
            let msgs = if curve.resend_ms > 0 {
                let every = if render.resend_ticks == 0 {
                    1
                } else {
                    render.resend_ticks
                };
                with_resends(&thinned, every, song_end)
            } else {
                thinned
            };
            assert(msgs@ == curve_values(cmd.target, *curve, *render, song_end));
            emit_values(out, &cmd.target, &msgs, shifts[k])
        },
        _ => Err(not_a(&curve.command_id, "' is not an Automation command")),
    }
}

/// The curves' messages, appended to `out`.
fn emit_curves(out: &mut Vec<(u64, MidiMsg)>, def: &DeviceDefinition, shifts: &Vec<u64>, curves: &Vec<AutomationCurve>, renders: &Vec<CurveRender>, song_end: u64) -> (res: Result<(), String>)
    requires
        shifts@.len() == def.commands.items@.len(),
        renders@.len() == curves@.len(),
    ensures
        match res {
            Ok(_) => then_emit(Ok(old(out)@), emit_through(curves@.len(), curve_step(*def, shifts@, curves@, renders@, song_end)))
                == Ok::<Seq<(u64, MidiMsg)>, Seq<char>>(final(out)@),
            Err(e) => emit_through(curves@.len(), curve_step(*def, shifts@, curves@, renders@, song_end)) == Err::<
                Seq<(u64, MidiMsg)>,
                Seq<char>,
            >(e@),
        },
{
    let ghost base = out@;
    let ghost step = curve_step(*def, shifts@, curves@, renders@, song_end);
    let ghost total = curves@.len();
    let mut i: usize = 0;
    while i < curves.len()
        invariant
            i <= curves@.len(),
            total == curves@.len(),
            renders@.len() == curves@.len(),
            shifts@.len() == def.commands.items@.len(),
            step == curve_step(*def, shifts@, curves@, renders@, song_end),
            then_emit(Ok(base), emit_through(i as nat, step)) == Ok::<Seq<(u64, MidiMsg)>, Seq<char>>(out@),
        decreases curves@.len() - i,
    {
        let ghost before = out@;
        assert(step(i as int) == curve_emission(*def, shifts@, curves@[i as int], renders@[i as int], song_end));
        match emit_curve(out, def, shifts, &curves[i], &renders[i], song_end) {
            Err(e) => {
                proof { lemma_step_err(base, i as nat, total, step, e@); }
                return Err(e);
            },
            Ok(_) => {
                proof {
                    lemma_then_ok(before, step(i as int), out@);
                    lemma_step_ok(base, i as nat, step, before, out@.skip(before.len() as int));
                }
            },
        }
        i = i + 1;
    }
    Ok(())
}

proof fn lemma_then_assoc(
    a: Result<Seq<(u64, MidiMsg)>, Seq<char>>,
    b: Result<Seq<(u64, MidiMsg)>, Seq<char>>,
    out1: Seq<(u64, MidiMsg)>,
    out2: Seq<(u64, MidiMsg)>,
)
    requires
        a == Ok::<Seq<(u64, MidiMsg)>, Seq<char>>(out1),
        then_emit(Ok(out1), b) == Ok::<Seq<(u64, MidiMsg)>, Seq<char>>(out2),
    ensures
        then_emit(a, b) == Ok::<Seq<(u64, MidiMsg)>, Seq<char>>(out2),
{
}

/// Everything a track emits, in emission order (not yet sorted by time).
pub fn track_messages(
    track: &MidiTrack,
    def: &DeviceDefinition,
    timing: &TrackTiming,
    song_end: u64,
    options: &ExportOptions,
) -> (res: Result<Vec<(u64, MidiMsg)>, String>)
    requires
        well_timed(*track, *def, *timing),
    ensures
        match res {
            Ok(v) => track_emission(*track, *def, *timing, song_end, *options) == Ok::<
                Seq<(u64, MidiMsg)>,
                Seq<char>,
            >(v@),
            Err(e) => track_emission(*track, *def, *timing, song_end, *options) == Err::<
                Seq<(u64, MidiMsg)>,
                Seq<char>,
            >(e@),
        },
{
    let ghost events = track.events@;
    let mut out: Vec<(u64, MidiMsg)> = Vec::new();
    let ghost reset = if options.reset_block {
        then_emit(init_emission(*def), emit_through(events.len(), reset_step(*def, events)))
    } else {
        Ok(seq![])
    };
    if options.reset_block {
        match &def.init {
            Some(l) => {
                let none: Vec<(String, u8)> = Vec::new();
                assert(params_view(none@) =~= seq![]);
                match emit_resolved(&mut out, &l.messages, &none, 0) {
                    Err(e) => return Err(e),
                    Ok(_) => {},
                }
                proof {
                    lemma_then_ok(seq![], init_emission(*def), out@);
                    assert(out@.skip(0) =~= out@);
                }
            },
            None => {},
        }
        let ghost after_init = out@;
        assert(init_emission(*def) == Ok::<Seq<(u64, MidiMsg)>, Seq<char>>(after_init));
        match emit_reset_holds(&mut out, def, &track.events) {
            Err(e) => return Err(e),
            Ok(_) => {},
        }
        proof {
            lemma_then_assoc(init_emission(*def), emit_through(events.len(), reset_step(*def, events)), after_init, out@);
        }
    }
    assert(reset == Ok::<Seq<(u64, MidiMsg)>, Seq<char>>(out@));
    let ghost after_reset = out@;
    // Checked in track order first, so that the first failing event names the error.
    let mut checked: Vec<(u64, MidiMsg)> = Vec::new();
    match emit_events(&mut checked, def, &timing.shifts, &track.events) {
        Err(e) => return Err(e),
        Ok(_) => {},
    }
    let order = lane_order_of(&track.events);
    proof {
        lemma_lane_order_indices(events);
    }
    match emit_events_in_order(&mut out, def, &timing.shifts, &track.events, &order) {
        Err(e) => return Err(e),
        Ok(_) => {},
    }
    let ghost with_events = then_emit(reset, events_emission(*def, timing.shifts@, events));
    proof {
        lemma_then_assoc(reset, events_emission(*def, timing.shifts@, events), after_reset, out@);
    }
    let ghost after_events = out@;
    match emit_curves(&mut out, def, &timing.shifts, &track.automation, &timing.curves, song_end) {
        Err(e) => return Err(e),
        Ok(_) => {},
    }
    proof {
        lemma_then_assoc(with_events, emit_through(track.automation@.len(), curve_step(*def, timing.shifts@, track.automation@, timing.curves@, song_end)), after_events, out@);
    }
    Ok(out)
}

/// A resolved MIDI message at an absolute tick. `order` keeps emission stable
/// and deterministic for simultaneous messages (Reset Block first, then events
/// in lane order, then automation).
#[derive(Clone, Copy, Debug)]
pub struct Emitted {
    pub tick: u64,
    pub order: u64,
    pub message: MidiMsg,
}

impl Timed for Emitted {
    open spec fn time_key(&self) -> (u64, u64) {
        (self.tick, self.order)
    }

    fn key(&self) -> (res: (u64, u64)) {
        (self.tick, self.order)
    }
}

/// The emitted messages numbered in emission order.
pub open spec fn numbered(s: Seq<(u64, MidiMsg)>) -> Seq<Emitted> {
    Seq::new(s.len(), |i: int| Emitted { tick: s[i].0, order: i as u64, message: s[i].1 })
}

/// Resolves a MIDI track into absolutely timed MIDI messages (without channel),
/// sorted by tick and, at equal ticks, by emission order.
pub fn resolve_track(
    track: &MidiTrack,
    def: &DeviceDefinition,
    timing: &TrackTiming,
    song_end: u64,
    options: &ExportOptions,
) -> (res: Result<Vec<Emitted>, String>)
    requires
        well_timed(*track, *def, *timing),
    ensures
        match res {
            Ok(v) => track_emission(*track, *def, *timing, song_end, *options) matches Ok(s)
                && v@ == sort_by_time(numbered(s)),
            Err(e) => track_emission(*track, *def, *timing, song_end, *options) == Err::<
                Seq<(u64, MidiMsg)>,
                Seq<char>,
            >(e@),
        },
{
    let msgs = match track_messages(track, def, timing, song_end, options) {
        Ok(m) => m,
        Err(e) => return Err(e),
    };
    let mut out: Vec<Emitted> = Vec::new();
    let mut i: usize = 0;
    while i < msgs.len()
        invariant
            i <= msgs@.len(),
            out@ == numbered(msgs@).take(i as int),
        decreases msgs@.len() - i,
    {
        let (tick, message) = msgs[i];
        out.push(Emitted { tick, order: i as u64, message });
        assert(out@ =~= numbered(msgs@).take(i + 1));
        i = i + 1;
    }
    assert(numbered(msgs@).take(msgs@.len() as int) =~= numbered(msgs@));
    Ok(sort_timed(&out))
}

/// One channel-tagged MIDI message at an absolute tick: the shared unit of SMF
/// export and live output.
#[derive(Clone, Copy, Debug)]
pub struct TimedMessage {
    pub tick: u64,
    pub order: u64,
    /// Zero-based MIDI channel (0..=15).
    pub channel: u8,
    pub message: MidiMsg,
}

impl Timed for TimedMessage {
    open spec fn time_key(&self) -> (u64, u64) {
        (self.tick, self.order)
    }

    fn key(&self) -> (res: (u64, u64)) {
        (self.tick, self.order)
    }
}

pub open spec fn channel_ok(c: u8) -> bool {
    1 <= c <= 16
}

pub open spec fn channel_error(name: Seq<char>) -> Seq<char> {
    "track '"@ + name + "': MIDI channel must be 1-16"@
}

fn channel_error_text(name: &String) -> (res: String)
    ensures
        res@ == channel_error(name@),
{
    let mut e = String::from_str("track '");
    e.append(name.as_str());
    e.append("': MIDI channel must be 1-16");
    e
}

pub open spec fn tagged(v: Seq<Emitted>, channel: u8) -> Seq<TimedMessage> {
    v.map_values(|e: Emitted| TimedMessage { tick: e.tick, order: e.order, channel, message: e.message })
}

/// A track's share of the project stream: its sorted messages on its channel.
pub open spec fn track_share(
    track: MidiTrack,
    def: Result<DeviceDefinition, String>,
    timing: TrackTiming,
    song_end: u64,
    options: ExportOptions,
) -> Result<Seq<TimedMessage>, Seq<char>> {
    if !channel_ok(track.midi_channel) {
        Err(channel_error(track.name@))
    } else {
        match def {
            Err(e) => Err(e@),
            Ok(d) => match track_emission(track, d, timing, song_end, options) {
                Err(e) => Err(e),
                Ok(s) => Ok(tagged(sort_by_time(numbered(s)), (track.midi_channel - 1) as u8)),
            },
        }
    }
}

/// The tracks' shares, concatenated in track order; the first failure wins.
pub open spec fn project_shares(
    tracks: Seq<MidiTrack>,
    defs: Seq<Result<DeviceDefinition, String>>,
    timings: Seq<TrackTiming>,
    song_end: u64,
    options: ExportOptions,
    n: nat,
) -> Result<Seq<TimedMessage>, Seq<char>>
    decreases n,
{
    if n == 0 {
        Ok(seq![])
    } else {
        match project_shares(tracks, defs, timings, song_end, options, (n - 1) as nat) {
            Err(e) => Err(e),
            Ok(acc) => match track_share(tracks[n - 1], defs[n - 1], timings[n - 1], song_end, options) {
                Err(e) => Err(e),
                Ok(m) => Ok(acc + m),
            },
        }
    }
}

pub open spec fn project_ready(
    tracks: Seq<MidiTrack>,
    defs: Seq<Result<DeviceDefinition, String>>,
    timings: Seq<TrackTiming>,
) -> bool {
    &&& defs.len() == tracks.len()
    &&& timings.len() == tracks.len()
    &&& forall|i: int|
        0 <= i < tracks.len() ==> (#[trigger] defs[i] matches Ok(d) ==> well_timed(
            tracks[i],
            d,
            timings[i],
        ))
}

proof fn lemma_shares_err_extends(
    tracks: Seq<MidiTrack>,
    defs: Seq<Result<DeviceDefinition, String>>,
    timings: Seq<TrackTiming>,
    song_end: u64,
    options: ExportOptions,
    n: nat,
    m: nat,
    e: Seq<char>,
)
    requires
        n <= m,
        project_shares(tracks, defs, timings, song_end, options, n) == Err::<Seq<TimedMessage>, Seq<char>>(e),
    ensures
        project_shares(tracks, defs, timings, song_end, options, m) == Err::<Seq<TimedMessage>, Seq<char>>(e),
    decreases m - n,
{
    if n < m {
        lemma_shares_err_extends(tracks, defs, timings, song_end, options, n, (m - 1) as nat, e);
    }
}

/// Resolves every MIDI track of a project into one time-ordered stream of
/// channel-tagged messages. `defs[i]` is the lookup of track `i`'s definition
/// and `timings[i]` its timing. Messages of equal tick and order keep track order.
pub fn resolve_project(
    tracks: &Vec<MidiTrack>,
    defs: &Vec<Result<DeviceDefinition, String>>,
    timings: &Vec<TrackTiming>,
    song_end: u64,
    options: &ExportOptions,
) -> (res: Result<Vec<TimedMessage>, String>)
    requires
        project_ready(tracks@, defs@, timings@),
    ensures
        match res {
            Ok(v) => project_shares(tracks@, defs@, timings@, song_end, *options, tracks@.len()) matches Ok(s)
                && v@ == sort_by_time(s),
            Err(e) => project_shares(tracks@, defs@, timings@, song_end, *options, tracks@.len()) == Err::<
                Seq<TimedMessage>,
                Seq<char>,
            >(e@),
        },
{
    let ghost total = tracks@.len();
    let mut all: Vec<TimedMessage> = Vec::new();
    let mut i: usize = 0;
    while i < tracks.len()
        invariant
            i <= tracks@.len(),
            total == tracks@.len(),
            project_ready(tracks@, defs@, timings@),
            project_shares(tracks@, defs@, timings@, song_end, *options, i as nat) == Ok::<
                Seq<TimedMessage>,
                Seq<char>,
            >(all@),
        decreases tracks@.len() - i,
    {
        let t = &tracks[i];
        let ghost before = all@;
        if !(1 <= t.midi_channel && t.midi_channel <= 16) {
            let e = channel_error_text(&t.name);
            proof {
                lemma_shares_err_extends(tracks@, defs@, timings@, song_end, *options, (i + 1) as nat, total, e@);
            }
            return Err(e);
        }
        match &defs[i] {
            Err(e) => {
                let e = e.clone();
                proof {
                    lemma_shares_err_extends(tracks@, defs@, timings@, song_end, *options, (i + 1) as nat, total, e@);
                }
                return Err(e);
            },
            Ok(def) => {
                assert(defs@[i as int] matches Ok(d) ==> well_timed(tracks@[i as int], d, timings@[i as int]));
                match resolve_track(t, def, &timings[i], song_end, options) {
                    Err(e) => {
                        proof {
                            lemma_shares_err_extends(tracks@, defs@, timings@, song_end, *options, (i + 1) as nat, total, e@);
                        }
                        return Err(e);
                    },
                    Ok(v) => {
                        let channel = t.midi_channel - 1;
                        let mut j: usize = 0;
                        while j < v.len()
                            invariant
                                j <= v@.len(),
                                all@ == before + tagged(v@, channel).take(j as int),
                            decreases v@.len() - j,
                        {
                            let e = v[j];
                            all.push(TimedMessage { tick: e.tick, order: e.order, channel, message: e.message });
                            assert(all@ =~= before + tagged(v@, channel).take(j + 1));
                            j = j + 1;
                        }
                        assert(tagged(v@, channel).take(v@.len() as int) =~= tagged(v@, channel));
                    },
                }
            },
        }
        i = i + 1;
    }
    Ok(sort_timed(&all))
}

/// The largest `k` with `2^k <= n`, for `n > 0`.
pub open spec fn log2_floor(n: u8) -> u8 {
    if n >= 128 {
        7
    } else if n >= 64 {
        6
    } else if n >= 32 {
        5
    } else if n >= 16 {
        4
    } else if n >= 8 {
        3
    } else if n >= 4 {
        2
    } else if n >= 2 {
        1
    } else {
        0
    }
}

fn ilog2(n: u8) -> (res: u8)
    requires
        n > 0,
    ensures
        res == log2_floor(n),
{
    if n >= 128 {
        7
    } else if n >= 64 {
        6
    } else if n >= 32 {
        5
    } else if n >= 16 {
        4
    } else if n >= 8 {
        3
    } else if n >= 4 {
        2
    } else if n >= 2 {
        1
    } else {
        0
    }
}

pub open spec fn prev_tick(v: Seq<Emitted>, i: int) -> u64 {
    if i == 0 {
        0
    } else {
        v[i - 1].tick
    }
}

/// The MIDI events of an exported track: each message on `channel`, its delta
/// the distance to the message before (28 bits).
pub open spec fn midi_events(v: Seq<Emitted>, channel: u8) -> Seq<SmfEvent> {
    Seq::new(
        v.len(),
        |i: int|
            SmfEvent {
                delta: ((v[i].tick - prev_tick(v, i)) % 0x1000_0000) as u32,
                kind: SmfKind::Midi { channel, message: v[i].message },
            },
    )
}

/// The events of an exported track: tempo, time signature and name at the
/// start, then the messages, then the end of the track.
pub open spec fn smf_events(micros_per_beat: u32, time_signature: (u8, u8), channel: u8, v: Seq<Emitted>) -> Seq<SmfEvent> {
    seq![
        SmfEvent { delta: 0, kind: SmfKind::Meta(SmfMeta::Tempo((micros_per_beat % 0x100_0000) as u32)) },
        SmfEvent {
            delta: 0,
            kind: SmfKind::Meta(SmfMeta::TimeSignature(time_signature.0, log2_floor(time_signature.1), 24, 8)),
        },
        SmfEvent { delta: 0, kind: SmfKind::Meta(SmfMeta::TrackName) },
    ] + midi_events(v, channel) + seq![SmfEvent { delta: 0, kind: SmfKind::Meta(SmfMeta::EndOfTrack) }]
}

/// Builds the SMF (Type 0) bytes for one MIDI track. `def` is the lookup of
/// the track's definition; `micros_per_beat` is the project tempo. The time
/// signature's denominator is only read once the track has resolved. Writing
/// succeeds whenever the file stays within the format's limits: a name under
/// 256 MiB and at most 14 bytes per event besides it, under 4 GiB in all.
#[verifier::spinoff_prover]
pub fn track_to_smf(
    track: &MidiTrack,
    def: &Result<DeviceDefinition, String>,
    timing: &TrackTiming,
    song_end: u64,
    micros_per_beat: u32,
    time_signature: (u8, u8),
    options: &ExportOptions,
) -> (res: Result<Vec<u8>, String>)
    requires
        *def matches Ok(d) ==> well_timed(*track, d, *timing),
        *def matches Ok(d) ==> (channel_ok(track.midi_channel) && track_emission(
            *track,
            d,
            *timing,
            song_end,
            *options,
        ) is Ok ==> time_signature.1 > 0),
    ensures
        if !channel_ok(track.midi_channel) {
            res matches Err(e) && e@ == channel_error(track.name@)
        } else {
            match *def {
                Err(d) => res == Err::<Vec<u8>, String>(d),
                Ok(d) => match track_emission(*track, d, *timing, song_end, *options) {
                    Err(e) => (res matches Err(r) && r@ == e),
                    Ok(s) => (res matches Ok(b) ==> b@ == smf_file_bytes(
                        960,
                        single_track(vstd::utf8::encode_utf8(track.name@), smf_events(
                            micros_per_beat,
                            time_signature,
                            (track.midi_channel - 1) as u8,
                            sort_by_time(numbered(s)),
                        )),
                    )) && (vstd::utf8::encode_utf8(track.name@).len() < 0x1000_0000 && (s.len() + 4) * (14
                        + vstd::utf8::encode_utf8(track.name@).len()) < 0x1_0000_0000 ==> res is Ok),
                },
            }
        },
{
    if !(1 <= track.midi_channel && track.midi_channel <= 16) {
        return Err(channel_error_text(&track.name));
    }
    let def = match def {
        Err(e) => return Err(e.clone()),
        Ok(d) => d,
    };
    let events = match resolve_track(track, def, timing, song_end, options) {
        Err(e) => return Err(e),
        Ok(v) => v,
    };
    let channel = track.midi_channel - 1;
    let ghost s = track_emission(*track, *def, *timing, song_end, *options)->Ok_0;
    proof {
        law_sort_by_time(numbered(s));
    }
    let mut out: Vec<SmfEvent> = Vec::new();
    out.push(SmfEvent { delta: 0, kind: SmfKind::Meta(SmfMeta::Tempo(micros_per_beat % 0x100_0000)) });
    out.push(
        SmfEvent {
            delta: 0,
            kind: SmfKind::Meta(SmfMeta::TimeSignature(time_signature.0, ilog2(time_signature.1), 24, 8)),
        },
    );
    out.push(SmfEvent { delta: 0, kind: SmfKind::Meta(SmfMeta::TrackName) });
    let ghost head = out@;
    let mut last_tick: u64 = 0;
    let mut i: usize = 0;
    while i < events.len()
        invariant
            i <= events@.len(),
            time_sorted(events@),
            out@ == head + midi_events(events@, channel).take(i as int),
            last_tick == prev_tick(events@, i as int),
        decreases events@.len() - i,
    {
        let e = events[i];
        if i > 0 {
            assert(crate::order::key_le(events@[i - 1].time_key(), events@[i as int].time_key()));
        }
        let delta = ((e.tick - last_tick) % 0x1000_0000) as u32;
        out.push(SmfEvent { delta, kind: SmfKind::Midi { channel, message: e.message } });
        assert(out@ =~= head + midi_events(events@, channel).take(i + 1));
        last_tick = e.tick;
        i = i + 1;
    }
    out.push(SmfEvent { delta: 0, kind: SmfKind::Meta(SmfMeta::EndOfTrack) });
    assert(midi_events(events@, channel).take(events@.len() as int) =~= midi_events(events@, channel));
    assert(out@ =~= smf_events(micros_per_beat, time_signature, channel, events@));
    let name = track.name.as_str().as_bytes_vec();
    write_smf(name.as_slice(), &out, PPQN as u16)
}

/// Where an event stops acting: its tick, or the end of a Hold.
pub open spec fn event_end(e: Event) -> int {
    match e {
        Event::OneShot { tick, .. } => tick as int,
        Event::Hold { tick, length, .. } => tick + length,
    }
}

/// The ends of a track's events fit in a tick.
pub open spec fn ends_fit(track: MidiTrack) -> bool {
    forall|i: int| 0 <= i < track.events@.len() ==> event_end(#[trigger] track.events@[i]) <= u64::MAX
}

/// Nothing in the track happens after tick `x`: no event ends later, and no
/// automation curve's last breakpoint lies later.
pub open spec fn track_within(track: MidiTrack, x: int) -> bool {
    &&& forall|i: int| 0 <= i < track.events@.len() ==> event_end(#[trigger] track.events@[i]) <= x
    &&& forall|c: int|
        0 <= c < track.automation@.len() && (#[trigger] track.automation@[c]).breakpoints@.len() > 0
            ==> track.automation@[c].breakpoints@.last().tick <= x
}

/// Something in the track happens at tick `x`.
pub open spec fn track_reaches(track: MidiTrack, x: int) -> bool {
    ||| exists|i: int| 0 <= i < track.events@.len() && event_end(#[trigger] track.events@[i]) == x
    ||| exists|c: int|
        0 <= c < track.automation@.len() && (#[trigger] track.automation@[c]).breakpoints@.len() > 0
            && track.automation@[c].breakpoints@.last().tick == x
}

/// The last tick anything happens on in one track (0 when nothing does).
fn track_end(track: &MidiTrack) -> (res: u64)
    requires
        ends_fit(*track),
    ensures
        track_within(*track, res as int),
        res == 0 || track_reaches(*track, res as int),
{
    let mut end: u64 = 0;
    let mut i: usize = 0;
    while i < track.events.len()
        invariant
            i <= track.events@.len(),
            ends_fit(*track),
            forall|j: int| 0 <= j < i ==> event_end(#[trigger] track.events@[j]) <= end,
            end == 0 || exists|j: int| 0 <= j < i && event_end(#[trigger] track.events@[j]) == end,
        decreases track.events@.len() - i,
    {
        let e = match &track.events[i] {
            Event::OneShot { tick, .. } => *tick,
            Event::Hold { tick, length, .. } => {
                assert(event_end(track.events@[i as int]) <= u64::MAX);
                *tick + *length
            },
        };
        assert(e == event_end(track.events@[i as int]));
        if e > end {
            end = e;
        }
        i = i + 1;
    }
    let mut c: usize = 0;
    while c < track.automation.len()
        invariant
            c <= track.automation@.len(),
            forall|j: int| 0 <= j < track.events@.len() ==> event_end(#[trigger] track.events@[j]) <= end,
            forall|k: int|
                0 <= k < c && (#[trigger] track.automation@[k]).breakpoints@.len() > 0
                    ==> track.automation@[k].breakpoints@.last().tick <= end,
            end == 0 || track_reaches(*track, end as int),
        decreases track.automation@.len() - c,
    {
        let n = track.automation[c].breakpoints.len();
        if n > 0 {
            let last = track.automation[c].breakpoints[n - 1].tick;
            if last > end {
                end = last;
                assert(track.automation@[c as int].breakpoints@.last().tick == end);
            }
        }
        c = c + 1;
    }
    end
}

/// The last tick anything happens on in the project's MIDI tracks, used when
/// the caller gives no song length.
pub fn content_end(tracks: &Vec<MidiTrack>) -> (res: u64)
    requires
        forall|t: int| 0 <= t < tracks@.len() ==> ends_fit(#[trigger] tracks@[t]),
    ensures
        forall|t: int| 0 <= t < tracks@.len() ==> track_within(#[trigger] tracks@[t], res as int),
        res == 0 || exists|t: int| 0 <= t < tracks@.len() && track_reaches(#[trigger] tracks@[t], res as int),
{
    let mut end: u64 = 0;
    let mut t: usize = 0;
    while t < tracks.len()
        invariant
            t <= tracks@.len(),
            forall|k: int| 0 <= k < tracks@.len() ==> ends_fit(#[trigger] tracks@[k]),
            forall|k: int| 0 <= k < t ==> track_within(#[trigger] tracks@[k], end as int),
            end == 0 || exists|k: int| 0 <= k < t && track_reaches(#[trigger] tracks@[k], end as int),
        decreases tracks@.len() - t,
    {
        let e = track_end(&tracks[t]);
        if e > end {
            end = e;
        }
        assert forall|k: int| 0 <= k < t + 1 implies track_within(#[trigger] tracks@[k], end as int) by {
            let tr = tracks@[k];
            if k < t {
                assert(track_within(tr, end as int)) by {
                    assert forall|i: int| 0 <= i < tr.events@.len() implies event_end(#[trigger] tr.events@[i]) <= end by {}
                }
            }
        }
        t = t + 1;
    }
    end
}

/// How far the song runs: the length the caller gives, else the project's own
/// content.
pub fn song_end(tracks: &Vec<MidiTrack>, options: &ExportOptions) -> (res: u64)
    requires
        forall|t: int| 0 <= t < tracks@.len() ==> ends_fit(#[trigger] tracks@[t]),
    ensures
        options.song_end_ticks > 0 ==> res == options.song_end_ticks,
        options.song_end_ticks == 0 ==> forall|t: int|
            0 <= t < tracks@.len() ==> track_within(#[trigger] tracks@[t], res as int),
        options.song_end_ticks == 0 ==> (res == 0 || exists|t: int|
            0 <= t < tracks@.len() && track_reaches(#[trigger] tracks@[t], res as int)),
{
    if options.song_end_ticks > 0 {
        options.song_end_ticks
    } else {
        content_end(tracks)
    }
}

/// The characters a file name cannot hold on some system.
pub open spec fn forbidden_in_file_name(c: char) -> bool {
    c == '/' || c == '\\' || c == ':' || c == '*' || c == '?' || c == '"' || c == '<' || c == '>'
        || c == '|'
}

pub open spec fn sanitized(name: Seq<char>) -> Seq<char> {
    name.map_values(|c: char| if forbidden_in_file_name(c) { '_' } else { c })
}

/// A name made safe for a file name: every forbidden character becomes `_`.
pub fn sanitize(name: &str) -> (res: String)
    ensures
        res@ == sanitized(name@),
{
    let n = name.unicode_len();
    let mut out = String::from_str("");
    let mut i: usize = 0;
    proof {
        reveal_strlit("");
    }
    while i < n
        invariant
            n == name@.len(),
            i <= n,
            out@ == sanitized(name@).take(i as int),
        decreases n - i,
    {
        let c = name.get_char(i);
        let ghost prev = out@;
        if c == '/' || c == '\\' || c == ':' || c == '*' || c == '?' || c == '"' || c == '<' || c
            == '>' || c == '|' {
            out.append("_");
            proof {
                reveal_strlit("_");
            }
            assert(out@ =~= prev.push('_'));
        } else {
            let one = name.substring_char(i, i + 1);
            assert(one@ =~= seq![c]);
            out.append(one);
            assert(out@ =~= prev.push(c));
        }
        assert(sanitized(name@).take(i + 1) =~= sanitized(name@).take(i as int).push(
            sanitized(name@)[i as int],
        ));
        assert(out@ =~= sanitized(name@).take(i + 1));
        i = i + 1;
    }
    assert(sanitized(name@).take(n as int) =~= sanitized(name@));
    out
}

/// For each command of the definition, how many milliseconds early its
/// messages go out: the track's latency compensation plus the command's own
/// latency. (The tempo turns these into ticks.)
pub fn command_latencies(track: &MidiTrack, def: &DeviceDefinition) -> (res: Vec<u64>)
    ensures
        res@.len() == def.commands.items@.len(),
        forall|k: int|
            0 <= k < res@.len() ==> #[trigger] res@[k] == track.latency_ms + latency_of_command(
                def.commands.items@[k],
            ),
{
    let mut out: Vec<u64> = Vec::new();
    let mut k: usize = 0;
    while k < def.commands.items.len()
        invariant
            k <= def.commands.items@.len(),
            out@.len() == k,
            forall|j: int|
                0 <= j < k ==> #[trigger] out@[j] == track.latency_ms + latency_of_command(
                    def.commands.items@[j],
                ),
        decreases def.commands.items@.len() - k,
    {
        let l = command_latency(&def.commands.items[k]);
        out.push(track.latency_ms as u64 + l as u64);
        k = k + 1;
    }
    out
}

/// A track's messages, sorted for output.
pub open spec fn sorted_messages(s: Seq<(u64, MidiMsg)>) -> Seq<Emitted> {
    sort_by_time(numbered(s))
}

/// Live output plays what export writes: a track's share of the project
/// stream holds, in order, exactly the channel messages of its exported file,
/// on the same channel, each delta of the file being the distance between
/// consecutive messages.
pub proof fn law_live_output_matches_export(
    track: MidiTrack,
    def: DeviceDefinition,
    timing: TrackTiming,
    song_end: u64,
    options: ExportOptions,
    micros_per_beat: u32,
    time_signature: (u8, u8),
)
    requires
        channel_ok(track.midi_channel),
        track_emission(track, def, timing, song_end, options) is Ok,
    ensures
        ({
            let v = sorted_messages(track_emission(track, def, timing, song_end, options)->Ok_0);
            let ch = (track.midi_channel - 1) as u8;
            let file = smf_events(micros_per_beat, time_signature, ch, v);
            &&& track_share(track, Ok(def), timing, song_end, options) == Ok::<Seq<TimedMessage>, Seq<char>>(tagged(v, ch))
            &&& file.len() == v.len() + 4
            &&& forall|k: int|
                0 <= k < v.len() ==> (#[trigger] file[k + 3]).kind == SmfKind::Midi {
                    channel: tagged(v, ch)[k].channel,
                    message: tagged(v, ch)[k].message,
                }
            &&& forall|k: int|
                0 < k < v.len() ==> (#[trigger] file[k + 3]).delta == (tagged(v, ch)[k].tick - tagged(v, ch)[k - 1].tick) % 0x1000_0000
        }),
{
    let s = track_emission(track, def, timing, song_end, options)->Ok_0;
    let v = sorted_messages(s);
    let ch = (track.midi_channel - 1) as u8;
    let file = smf_events(micros_per_beat, time_signature, ch, v);
    let mid = midi_events(v, ch);
    assert forall|k: int| 0 <= k < v.len() implies (#[trigger] file[k + 3]).kind == SmfKind::Midi {
        channel: tagged(v, ch)[k].channel,
        message: tagged(v, ch)[k].message,
    } by {
        assert(file[k + 3] == mid[k]);
    }
    assert forall|k: int| 0 < k < v.len() implies (#[trigger] file[k + 3]).delta == (tagged(v, ch)[k].tick - tagged(v, ch)[k - 1].tick) % 0x1000_0000 by {
        assert(file[k + 3] == mid[k]);
    }
}

/// A curve that sends something: enabled, with at least one breakpoint.
pub open spec fn curve_active(c: AutomationCurve) -> bool {
    c.enabled && c.breakpoints@.len() > 0
}

/// The active curves with their renders, in order.
pub open spec fn active_curves(curves: Seq<AutomationCurve>, renders: Seq<CurveRender>) -> (
    Seq<AutomationCurve>,
    Seq<CurveRender>,
)
    decreases curves.len(),
{
    if curves.len() == 0 || renders.len() == 0 {
        (seq![], seq![])
    } else {
        let (c, r) = active_curves(curves.drop_last(), renders.drop_last());
        if curve_active(curves.last()) {
            (c.push(curves.last()), r.push(renders.last()))
        } else {
            (c, r)
        }
    }
}

/// Steps that agree on `0..n` emit the same.
proof fn lemma_emit_through_agree(
    n: nat,
    f: spec_fn(int) -> Result<Seq<(u64, MidiMsg)>, Seq<char>>,
    g: spec_fn(int) -> Result<Seq<(u64, MidiMsg)>, Seq<char>>,
)
    requires
        forall|i: int| 0 <= i < n ==> #[trigger] f(i) == g(i),
    ensures
        emit_through(n, f) == emit_through(n, g),
    decreases n,
{
    if n > 0 {
        lemma_emit_through_agree((n - 1) as nat, f, g);
    }
}

proof fn lemma_active_curves(
    def: DeviceDefinition,
    shifts: Seq<u64>,
    curves: Seq<AutomationCurve>,
    renders: Seq<CurveRender>,
    song_end: u64,
)
    requires
        curves.len() == renders.len(),
    ensures
        active_curves(curves, renders).0.len() == active_curves(curves, renders).1.len(),
        emit_through(curves.len(), curve_step(def, shifts, curves, renders, song_end)) == emit_through(
            active_curves(curves, renders).0.len(),
            curve_step(def, shifts, active_curves(curves, renders).0, active_curves(curves, renders).1, song_end),
        ),
    decreases curves.len(),
{
    if curves.len() > 0 {
        let dc = curves.drop_last();
        let dr = renders.drop_last();
        lemma_active_curves(def, shifts, dc, dr, song_end);
        let (c, r) = active_curves(dc, dr);
        let n = curves.len();
        lemma_emit_through_agree(
            (n - 1) as nat,
            curve_step(def, shifts, curves, renders, song_end),
            curve_step(def, shifts, dc, dr, song_end),
        );
        if curve_active(curves.last()) {
            let c2 = c.push(curves.last());
            let r2 = r.push(renders.last());
            lemma_emit_through_agree(
                c.len(),
                curve_step(def, shifts, c2, r2, song_end),
                curve_step(def, shifts, c, r, song_end),
            );
        } else {
            match emit_through((n - 1) as nat, curve_step(def, shifts, curves, renders, song_end)) {
                Ok(x) => {
                    assert(x + seq![] =~= x);
                },
                Err(_) => {},
            }
        }
    }
}

/// A disabled curve, or one without breakpoints, changes nothing: dropping
/// such curves (with their renders) from a track leaves what it emits as it was.
pub proof fn law_inactive_curves_emit_nothing(
    track: MidiTrack,
    kept: MidiTrack,
    def: DeviceDefinition,
    timing: TrackTiming,
    kept_timing: TrackTiming,
    song_end: u64,
    options: ExportOptions,
)
    requires
        timing.curves@.len() == track.automation@.len(),
        kept.events@ == track.events@,
        kept_timing.shifts@ == timing.shifts@,
        kept.automation@ == active_curves(track.automation@, timing.curves@).0,
        kept_timing.curves@ == active_curves(track.automation@, timing.curves@).1,
    ensures
        track_emission(kept, def, kept_timing, song_end, options) == track_emission(
            track,
            def,
            timing,
            song_end,
            options,
        ),
{
    lemma_active_curves(def, timing.shifts@, track.automation@, timing.curves@, song_end);
}

/// The target of the Automation Command with the given id, if the definition
/// has one.
pub open spec fn automation_target(def: DeviceDefinition, id: Seq<char>) -> Option<Target> {
    match command_index(def.commands.items@, id) {
        Some(k) => match def.commands.items@[k] {
            Command::Automation(c) => Some(c.target),
            _ => None,
        },
        None => None,
    }
}

/// `read` is what a curve reads: its prepared breakpoints read every `step`
/// ticks (at least one) along `Linear`/`Curve` segments, with the shape its
/// target forces; nothing when its command is no Automation Command of `def`.
pub open spec fn reads_curve(def: DeviceDefinition, curve: AutomationCurve, step: u64, read: Seq<(u64, CurvePoint)>) -> bool {
    match automation_target(def, curve.command_id@) {
        Some(t) => exists|p: Seq<Breakpoint>|
            prepared(curve.breakpoints@, p) && read == curve_samples_of(p, at_least_one(step), forced_shape_of(t)),
        None => read.len() == 0,
    }
}

/// What a track's curves read, curve `i` every `steps[i]` ticks.
pub fn curve_readings(track: &MidiTrack, def: &DeviceDefinition, steps: &Vec<u64>) -> (res: Vec<
    Vec<(u64, CurvePoint)>,
>)
    requires
        steps@.len() == track.automation@.len(),
    ensures
        res@.len() == track.automation@.len(),
        forall|i: int|
            0 <= i < res@.len() ==> reads_curve(*def, track.automation@[i], steps@[i], (#[trigger] res@[i])@),
{
    let mut out: Vec<Vec<(u64, CurvePoint)>> = Vec::new();
    let mut i: usize = 0;
    while i < track.automation.len()
        invariant
            i <= track.automation@.len(),
            steps@.len() == track.automation@.len(),
            out@.len() == i,
            forall|j: int|
                0 <= j < i ==> reads_curve(*def, track.automation@[j], steps@[j], (#[trigger] out@[j])@),
        decreases track.automation@.len() - i,
    {
        let curve = &track.automation[i];
        let found = find_command(def, curve.command_id.as_str());
        proof {
            lemma_command_index(def.commands.items@, curve.command_id@);
        }
        let read: Vec<(u64, CurvePoint)> = match found {
            Ok(k) => match &def.commands.items[k] {
                Command::Automation(cmd) => {
                    let bps = prepare_breakpoints(&curve.breakpoints);
                    let step = if steps[i] == 0 {
                        1
                    } else {
                        steps[i]
                    };
                    assert(prepared(curve.breakpoints@, bps@));
                    assert(sorted_by_tick(bps@)) by {
                        assert(ticks_ascending(bps@));
                    }
                    let r = curve_samples(&bps, cmd.target.forced_shape(), step);
                    assert(automation_target(*def, curve.command_id@) == Some(cmd.target));
                    assert(reads_curve(*def, *curve, steps@[i as int], r@));
                    r
                },
                _ => Vec::new(),
            },
            Err(_) => Vec::new(),
        };
        assert(reads_curve(*def, *curve, steps@[i as int], read@));
        let ghost prev = out@;
        out.push(read);
        assert forall|j: int| 0 <= j < i + 1 implies reads_curve(
            *def,
            track.automation@[j],
            steps@[j],
            (#[trigger] out@[j])@,
        ) by {
            if j < i {
                assert(out@[j] == prev[j]);
            }
        }
        i = i + 1;
    }
    out
}

/// What a reading settles to: its value where whole numbers settle it, else
/// the interpolated value handed in.
pub open spec fn reading_value(p: CurvePoint, interpolated: u8) -> u8 {
    match p {
        CurvePoint::Value(v) => v,
        CurvePoint::Between { .. } => interpolated,
    }
}

/// A curve's rendering inputs from its readings: each reading keeps its tick,
/// and its value where whole numbers settle it; `interpolated[k]` is the value
/// of reading `k` inside a `Linear` or `Curve` segment.
pub fn curve_render(readings: &Vec<(u64, CurvePoint)>, interpolated: &Vec<u8>, resend_ticks: u64) -> (res: CurveRender)
    requires
        interpolated@.len() == readings@.len(),
    ensures
        res.resend_ticks == resend_ticks,
        res.values@.len() == readings@.len(),
        forall|k: int|
            0 <= k < readings@.len() ==> #[trigger] res.values@[k] == (
                readings@[k].0,
                reading_value(readings@[k].1, interpolated@[k]),
            ),
{
    let mut values: Vec<(u64, u8)> = Vec::new();
    let mut k: usize = 0;
    while k < readings.len()
        invariant
            k <= readings@.len(),
            interpolated@.len() == readings@.len(),
            values@.len() == k,
            forall|j: int|
                0 <= j < k ==> #[trigger] values@[j] == (
                    readings@[j].0,
                    reading_value(readings@[j].1, interpolated@[j]),
                ),
        decreases readings@.len() - k,
    {
        let (tick, p) = readings[k];
        let v = match p {
            CurvePoint::Value(v) => v,
            CurvePoint::Between { .. } => interpolated[k],
        };
        values.push((tick, v));
        k = k + 1;
    }
    CurveRender { values, resend_ticks }
}

/// Resolving a list of messages, when it succeeds, gives one message each.
proof fn lemma_resolve_all_len(msgs: Seq<Message>, params: Seq<(Seq<char>, u8)>)
    ensures
        resolve_all(msgs, params) matches Ok(r) ==> r.len() == msgs.len(),
    decreases msgs.len(),
{
    if msgs.len() > 0 {
        lemma_resolve_all_len(msgs.drop_last(), params);
    }
}

/// A Hold event's messages are sent as early as its latency asks, both ends
/// alike: its Engage messages at `tick - shift`, then its Disengage messages at
/// `tick + length - shift` (never before the song start), `shift` being its
/// command's latency compensation.
pub proof fn law_hold_both_ends_are_latency_compensated(
    def: DeviceDefinition,
    shifts: Seq<u64>,
    command_id: String,
    tick: u64,
    length: u64,
    params: Vec<(String, u8)>,
    lane: u32,
    k: int,
)
    requires
        shifts.len() == def.commands.items@.len(),
        command_index(def.commands.items@, command_id@) == Some(k),
        def.commands.items@[k] is Hold,
        tick + length <= u64::MAX,
        event_emission(def, shifts, Event::Hold { command_id, tick, length, params, lane }) is Ok,
    ensures
        ({
            let m = event_emission(def, shifts, Event::Hold { command_id, tick, length, params, lane })->Ok_0;
            let cmd = def.commands.items@[k]->Hold_0;
            let on = cmd.engage.messages@.len();
            &&& m.len() == on + cmd.disengage.messages@.len()
            &&& forall|j: int|
                0 <= j < on ==> (#[trigger] m[j]).0 == (if tick >= shifts[k] {
                    tick - shifts[k]
                } else {
                    0
                })
            &&& forall|j: int|
                on <= j < m.len() ==> (#[trigger] m[j]).0 == (if tick + length >= shifts[k] {
                    tick + length - shifts[k]
                } else {
                    0
                })
        }),
{
    lemma_command_index(def.commands.items@, command_id@);
    let cmd = def.commands.items@[k]->Hold_0;
    let pv = params_view(params@);
    lemma_resolve_all_len(cmd.engage.messages@, pv);
    lemma_resolve_all_len(cmd.disengage.messages@, pv);
    let on_r = resolve_all(cmd.engage.messages@, pv)->Ok_0;
    let off_r = resolve_all(cmd.disengage.messages@, pv)->Ok_0;
    let a = at_tick(on_r, shifted(tick, shifts[k]));
    let b = at_tick(off_r, shifted((tick + length) as u64, shifts[k]));
    let m = event_emission(def, shifts, Event::Hold { command_id, tick, length, params, lane })->Ok_0;
    assert(m == a + b);
    assert forall|j: int| a.len() <= j < m.len() implies (#[trigger] m[j]).0 == (if tick + length
        >= shifts[k] {
        tick + length - shifts[k]
    } else {
        0
    }) by {
        assert(m[j] == b[j - a.len()]);
    }
    assert forall|j: int| 0 <= j < a.len() implies (#[trigger] m[j]).0 == (if tick >= shifts[k] {
        tick - shifts[k]
    } else {
        0
    }) by {
        assert(m[j] == a[j]);
    }
}

/// A One-Shot event's messages are all sent at `tick - shift` (never before
/// the song start), one for each message of its command.
pub proof fn law_one_shot_is_latency_compensated(
    def: DeviceDefinition,
    shifts: Seq<u64>,
    command_id: String,
    tick: u64,
    params: Vec<(String, u8)>,
    lane: u32,
    k: int,
)
    requires
        shifts.len() == def.commands.items@.len(),
        command_index(def.commands.items@, command_id@) == Some(k),
        def.commands.items@[k] is OneShot,
        event_emission(def, shifts, Event::OneShot { command_id, tick, params, lane }) is Ok,
    ensures
        ({
            let m = event_emission(def, shifts, Event::OneShot { command_id, tick, params, lane })->Ok_0;
            &&& m.len() == child_messages(def.commands.items@[k]->OneShot_0.children@).len()
            &&& forall|j: int|
                0 <= j < m.len() ==> (#[trigger] m[j]).0 == (if tick >= shifts[k] {
                    tick - shifts[k]
                } else {
                    0
                })
        }),
{
    lemma_command_index(def.commands.items@, command_id@);
    let cmd = def.commands.items@[k]->OneShot_0;
    lemma_resolve_all_len(child_messages(cmd.children@), params_view(params@));
}

/// The messages of a curve's values come out at their values' ticks moved
/// `shift` earlier (never before the song start).
proof fn lemma_value_ticks(target: Target, msgs: Seq<(u64, u8)>, shift: u64, n: nat)
    requires
        n <= msgs.len(),
    ensures
        emit_through(n, value_step(target, msgs, shift)) matches Ok(m) ==> forall|j: int|
            0 <= j < m.len() ==> exists|i: int|
                0 <= i < n && (#[trigger] m[j]).0 == (if msgs[i].0 >= shift {
                    msgs[i].0 - shift
                } else {
                    0
                }),
    decreases n,
{
    if n > 0 {
        let p = (n - 1) as nat;
        lemma_value_ticks(target, msgs, shift, p);
        match emit_through(p, value_step(target, msgs, shift)) {
            Ok(a) => match value_step(target, msgs, shift)(p as int) {
                Ok(b) => {
                    let m = a + b;
                    assert forall|j: int| 0 <= j < m.len() implies exists|i: int|
                        0 <= i < n && (#[trigger] m[j]).0 == (if msgs[i].0 >= shift {
                            msgs[i].0 - shift
                        } else {
                            0
                        }) by {
                        if j < a.len() {
                            assert(m[j] == a[j]);
                        } else {
                            assert(m[j] == b[j - a.len()]);
                            assert(m[j].0 == shifted(msgs[p as int].0, shift));
                        }
                    }
                },
                Err(_) => {},
            },
            Err(_) => {},
        }
    }
}

/// A curve's messages get the same latency compensation as events: each is
/// sent at the tick of one of the curve's values moved earlier by its
/// Automation Command's shift (never before the song start).
pub proof fn law_curve_is_latency_compensated(
    def: DeviceDefinition,
    shifts: Seq<u64>,
    c: AutomationCurve,
    r: CurveRender,
    song_end: u64,
    k: int,
)
    requires
        shifts.len() == def.commands.items@.len(),
        c.enabled,
        c.breakpoints@.len() > 0,
        command_index(def.commands.items@, c.command_id@) == Some(k),
        def.commands.items@[k] is Automation,
        curve_emission(def, shifts, c, r, song_end) is Ok,
    ensures
        ({
            let m = curve_emission(def, shifts, c, r, song_end)->Ok_0;
            let values = curve_values(def.commands.items@[k]->Automation_0.target, c, r, song_end);
            forall|j: int|
                0 <= j < m.len() ==> exists|i: int|
                    0 <= i < values.len() && (#[trigger] m[j]).0 == (if values[i].0 >= shifts[k] {
                        values[i].0 - shifts[k]
                    } else {
                        0
                    })
        }),
{
    lemma_command_index(def.commands.items@, c.command_id@);
    let t = def.commands.items@[k]->Automation_0.target;
    let values = curve_values(t, c, r, song_end);
    lemma_value_ticks(t, values, shifts[k], values.len());
}

/// The time signature's second number is the floor of log2 of the
/// denominator: `2^d <= den < 2^(d+1)`.
pub proof fn law_log2_floor(n: u8)
    requires
        n > 0,
    ensures
        vstd::arithmetic::power2::pow2(log2_floor(n) as nat) <= n < vstd::arithmetic::power2::pow2(
            log2_floor(n) as nat + 1,
        ),
{
    vstd::arithmetic::power2::lemma2_to64();
}

/// An exported track states its time signature as the numerator, the log2 of
/// the denominator (`2^d <= den < 2^(d+1)`), 24 clocks per click and 8 32nds
/// per quarter.
pub proof fn law_time_signature_event(micros_per_beat: u32, time_signature: (u8, u8), channel: u8, v: Seq<Emitted>)
    requires
        time_signature.1 > 0,
    ensures
        (smf_events(micros_per_beat, time_signature, channel, v)[1].kind matches SmfKind::Meta(
            SmfMeta::TimeSignature(n, d, c, q),
        ) && n == time_signature.0 && c == 24 && q == 8 && vstd::arithmetic::power2::pow2(d as nat)
            <= time_signature.1 < vstd::arithmetic::power2::pow2(d as nat + 1)),
{
    law_log2_floor(time_signature.1);
}

/// Messages resolved at one tick all stand at that tick.
proof fn lemma_with_msgs_at(r: Result<Seq<MidiMsg>, Seq<char>>, tick: u64)
    ensures
        with_msgs(r, tick) matches Ok(m) ==> forall|j: int| 0 <= j < m.len() ==> (#[trigger] m[j]).0 == tick,
{
}

proof fn lemma_reset_at_song_start(def: DeviceDefinition, events: Seq<Event>, n: nat)
    requires
        n <= events.len(),
    ensures
        emit_through(n, reset_step(def, events)) matches Ok(m) ==> forall|j: int|
            0 <= j < m.len() ==> (#[trigger] m[j]).0 == 0,
    decreases n,
{
    if n > 0 {
        let p = (n - 1) as nat;
        lemma_reset_at_song_start(def, events, p);
        match emit_through(p, reset_step(def, events)) {
            Ok(a) => match reset_step(def, events)(p as int) {
                Ok(b) => {
                    let i = p as int;
                    match events[i] {
                        Event::Hold { command_id, params, .. } => {
                            match command_index(def.commands.items@, command_id@) {
                                Some(k) => match def.commands.items@[k] {
                                    Command::Hold(cmd) => {
                                        lemma_with_msgs_at(
                                            resolve_all(cmd.disengage.messages@, params_view(params@)),
                                            0,
                                        );
                                    },
                                    _ => {},
                                },
                                None => {},
                            }
                        },
                        _ => {},
                    }
                    let m = a + b;
                    assert forall|j: int| 0 <= j < m.len() implies (#[trigger] m[j]).0 == 0 by {
                        if j < a.len() {
                            assert(m[j] == a[j]);
                        } else {
                            assert(m[j] == b[j - a.len()]);
                        }
                    }
                },
                Err(_) => {},
            },
            Err(_) => {},
        }
    }
}

/// The Reset Block stands at the song start: every Init message and every
/// Disengage it sends goes out at tick 0, whatever the latency.
pub proof fn law_reset_block_at_song_start(def: DeviceDefinition, events: Seq<Event>)
    ensures
        then_emit(init_emission(def), emit_through(events.len(), reset_step(def, events))) matches Ok(m)
            ==> forall|j: int| 0 <= j < m.len() ==> (#[trigger] m[j]).0 == 0,
{
    lemma_reset_at_song_start(def, events, events.len());
    match def.init {
        Some(l) => lemma_with_msgs_at(resolve_all(l.messages@, seq![]), 0),
        None => {},
    }
    match then_emit(init_emission(def), emit_through(events.len(), reset_step(def, events))) {
        Ok(m) => {
            let a = init_emission(def)->Ok_0;
            let b = emit_through(events.len(), reset_step(def, events))->Ok_0;
            assert(m == a + b);
            assert forall|j: int| 0 <= j < m.len() implies (#[trigger] m[j]).0 == 0 by {
                if j < a.len() {
                    assert(m[j] == a[j]);
                } else {
                    assert(m[j] == b[j - a.len()]);
                }
            }
        },
        Err(_) => {},
    }
}

/// A sanitized name has the same length, holds no forbidden character, and
/// keeps every other character where it was.
pub proof fn law_sanitize_only_replaces_forbidden(name: Seq<char>)
    ensures
        sanitized(name).len() == name.len(),
        forall|i: int| 0 <= i < name.len() ==> !forbidden_in_file_name(#[trigger] sanitized(name)[i]),
        forall|i: int|
            0 <= i < name.len() && !forbidden_in_file_name(name[i]) ==> #[trigger] sanitized(name)[i] == name[i],
        forall|i: int|
            0 <= i < name.len() && forbidden_in_file_name(name[i]) ==> #[trigger] sanitized(name)[i] == '_',
{
}

} // verus!
