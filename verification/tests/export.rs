use midly::{Format, MetaMessage, MidiMessage, Smf, Timing, TrackEventKind};
use rigpilot::definition::{
    AutomationCommand, CcMsg, Command, Commands, DeviceDefinition, HoldCommand, Label, Message,
    MessageList, Meta, OneShotChild, OneShotCommand, Param, PcMsg, Target, TargetChild,
};
use rigpilot::export::{
    command_latencies, curve_readings, curve_render, find_command, resolve_project, resolve_track,
    song_end, track_to_smf, Emitted, ExportOptions, MidiMsg, TrackTiming,
};
use rigpilot::project::{
    AutomationCurve, AutomationView, Breakpoint, CurvePoint, Event, MidiTrack, Shape, PPQN,
};

// ---------- definitions, built the way the bundled files describe them ----------

fn s(x: &str) -> String {
    x.to_string()
}

fn def(id: &str, items: Vec<Command>) -> DeviceDefinition {
    DeviceDefinition {
        id: s(id),
        version: s("1"),
        meta: Meta { manufacturer: s("M"), model: s("D"), author: None, sources: vec![], description: None },
        defaults: None,
        init: None,
        commands: Commands { items },
    }
}

fn cc(controller: u8, value: &str) -> CcMsg {
    CcMsg { controller, value: s(value) }
}

fn one_shot(id: &str, children: Vec<OneShotChild>) -> Command {
    Command::OneShot(OneShotCommand {
        id: s(id),
        name: s(id),
        short: None,
        latency: None,
        group: None,
        description: None,
        deterministic: true,
        children,
    })
}

fn automation(id: &str, target: Target) -> Command {
    Command::Automation(AutomationCommand {
        id: s(id),
        name: s(id),
        short: None,
        latency: None,
        group: None,
        description: None,
        target,
    })
}

fn target(controller: Option<u8>, min: u8, max: u8, children: Vec<TargetChild>) -> Target {
    Target { controller, min, max, shapes: None, children }
}

/// The Kemper commands the tests use: preselect (CC47 = $performance), load
/// slot 2 (CC51 = 1), the delay hold (CC35 1/0) and the volume pedal (CC7).
fn kemper() -> DeviceDefinition {
    def(
        "kemper-profiler-stage",
        vec![
            one_shot(
                "preselect-performance",
                vec![
                    OneShotChild::Param(Param {
                        id: s("performance"),
                        name: s("Performance"),
                        min: 0,
                        max: 124,
                        default: None,
                        labels: vec![],
                    }),
                    OneShotChild::ControlChange(cc(47, "$performance")),
                ],
            ),
            one_shot("load-slot-2", vec![OneShotChild::ControlChange(cc(51, "1"))]),
            Command::Hold(HoldCommand {
                id: s("delay-hold"),
                name: s("Delay Hold"),
                short: None,
                latency: None,
                group: None,
                description: None,
                params: vec![],
                engage: MessageList { messages: vec![Message::ControlChange(cc(35, "1"))] },
                disengage: MessageList { messages: vec![Message::ControlChange(cc(35, "0"))] },
            }),
            automation("volume-pedal", target(Some(7), 0, 127, vec![])),
        ],
    )
}

/// QLC+ selects songs with a Program Change, and only jumps.
fn qlcplus() -> DeviceDefinition {
    let mut t = target(None, 0, 127, vec![TargetChild::ProgramChange(PcMsg { program: s("$value") })]);
    t.shapes = Some(s("hold"));
    def("qlcplus-horizont-hilo", vec![automation("select-song", t)])
}

fn stepped_def() -> DeviceDefinition {
    def(
        "x",
        vec![automation(
            "wah-toggle",
            target(
                Some(11),
                0,
                127,
                vec![
                    TargetChild::Label(Label { value: 0, short: Some(s("Off")), text: s("Off") }),
                    TargetChild::Label(Label { value: 127, short: Some(s("On")), text: s("On") }),
                ],
            ),
        )],
    )
}

// ---------- what the application works out with floating point ----------

fn ms_to_ticks(ms: u64, bpm: f64) -> u64 {
    ((ms as f64 / 1000.0) * (bpm / 60.0) * PPQN as f64).round() as u64
}

fn point_value(p: CurvePoint) -> u8 {
    match p {
        CurvePoint::Value(v) => v,
        CurvePoint::Between { from, to, elapsed, span, shape, tension_bits } => {
            let u = elapsed as f64 / span as f64;
            let u = match shape {
                Shape::Curve => {
                    let k = (f32::from_bits(tension_bits) as f64).clamp(-1.0, 1.0);
                    let p = 1.0 + 3.0 * k.abs();
                    if k >= 0.0 {
                        u.powf(p)
                    } else {
                        1.0 - (1.0 - u).powf(p)
                    }
                }
                _ => u,
            };
            (from as f64 + (to as f64 - from as f64) * u).round().clamp(0.0, 127.0) as u8
        }
    }
}

fn timing(track: &MidiTrack, def: &DeviceDefinition, bpm: f64) -> TrackTiming {
    let steps: Vec<u64> = track.automation.iter().map(|c| ms_to_ticks(c.resolution_ms as u64, bpm)).collect();
    let readings = curve_readings(track, def, &steps);
    let curves = readings
        .iter()
        .zip(&track.automation)
        .map(|(read, c)| {
            let interpolated: Vec<u8> = read.iter().map(|(_, p)| point_value(*p)).collect();
            curve_render(read, &interpolated, ms_to_ticks(c.resend_ms as u64, bpm))
        })
        .collect();
    TrackTiming {
        shifts: command_latencies(track, def).iter().map(|ms| ms_to_ticks(*ms, bpm)).collect(),
        curves,
    }
}

fn resolve(track: &MidiTrack, def: &DeviceDefinition, bpm: f64, end: u64, options: &ExportOptions) -> Vec<Emitted> {
    resolve_track(track, def, &timing(track, def, bpm), end, options).unwrap()
}

/// What `track_to_smf` is handed for a project at `bpm` in `time_signature`.
fn smf_bytes(track: &MidiTrack, def: DeviceDefinition, bpm: f64, time_signature: (u8, u8), options: &ExportOptions) -> Vec<u8> {
    let t = timing(track, &def, bpm);
    let end = song_end(&vec![track.clone()], options);
    let micros_per_beat = (60_000_000f64 / bpm).round() as u32;
    track_to_smf(track, &Ok(def), &t, end, micros_per_beat, time_signature, options).unwrap()
}

// ---------- project fixtures ----------

fn bp(tick: u64, value: u8) -> Breakpoint {
    shaped(tick, value, Shape::Linear, 0.0)
}

fn shaped(tick: u64, value: u8, shape: Shape, tension: f32) -> Breakpoint {
    Breakpoint { tick, value, shape, tension_bits: tension.to_bits() }
}

fn curve(command_id: &str, resolution_ms: u32, breakpoints: Vec<Breakpoint>) -> AutomationCurve {
    AutomationCurve { command_id: s(command_id), enabled: true, resolution_ms, resend_ms: 0, breakpoints }
}

/// A bare MIDI track carrying only automation, for the curve tests.
fn curve_track(definition_id: &str, curves: Vec<AutomationCurve>) -> MidiTrack {
    MidiTrack {
        name: s("t"),
        definition_id: s(definition_id),
        midi_channel: 1,
        latency_ms: 0,
        mute: false,
        solo: false,
        events: vec![],
        automation: curves,
        automation_view: AutomationView::default(),
    }
}

fn test_track() -> MidiTrack {
    // Bar 1 beat 1 = tick 0; at PPQN 960 one 4/4 bar = 3840 ticks.
    MidiTrack {
        name: s("Kemper"),
        definition_id: s("kemper-profiler-stage"),
        midi_channel: 2,
        latency_ms: 0,
        mute: false,
        solo: false,
        events: vec![
            Event::OneShot {
                command_id: s("preselect-performance"),
                tick: 0,
                params: vec![(s("performance"), 5u8)], // Performance 6
                lane: 0,
            },
            Event::OneShot { command_id: s("load-slot-2"), tick: 10, params: vec![], lane: 0 },
            Event::Hold {
                command_id: s("delay-hold"),
                tick: 3840, // bar 2
                length: 3840,
                params: vec![],
                lane: 1,
            },
        ],
        // Volume ramp 0 -> 127 across bar 3; resolution 5 ms -> 10 ticks/step
        // @120 BPM, i.e. full 7-bit detail.
        automation: vec![curve("volume-pedal", 5, vec![bp(7680, 0), bp(9600, 127)])],
        automation_view: AutomationView::default(),
    }
}

fn no_reset() -> ExportOptions {
    ExportOptions { reset_block: false, song_end_ticks: 0 }
}

fn abs_events(smf: &Smf) -> Vec<(u64, u8, MidiMessage)> {
    let mut out = Vec::new();
    let mut tick = 0u64;
    for e in &smf.tracks[0] {
        tick += e.delta.as_int() as u64;
        if let TrackEventKind::Midi { channel, message } = e.kind {
            out.push((tick, channel.as_int(), message));
        }
    }
    out
}

fn cc_values(out: &[Emitted], controller: u8) -> Vec<(u64, u8)> {
    out.iter()
        .filter_map(|e| match e.message {
            MidiMsg::Controller { controller: c, value } if c == controller => Some((e.tick, value)),
            _ => None,
        })
        .collect()
}

fn is_cc(m: &MidiMessage, controller: u8, value: u8) -> bool {
    matches!(m, MidiMessage::Controller { controller: c, value: v } if c.as_int() == controller && v.as_int() == value)
}

// ---------- scenarios ----------

#[test]
fn tempo_and_signature_follow_project() {
    let track = test_track();
    let bytes = smf_bytes(&track, kemper(), 90.0, (3, 4), &ExportOptions::default());
    let smf = Smf::parse(&bytes).unwrap();
    let tempo = smf.tracks[0].iter().find_map(|e| match e.kind {
        TrackEventKind::Meta(MetaMessage::Tempo(t)) => Some(t.as_int()),
        _ => None,
    });
    let sig = smf.tracks[0].iter().find_map(|e| match e.kind {
        TrackEventKind::Meta(MetaMessage::TimeSignature(n, d, _, _)) => Some((n, d)),
        _ => None,
    });
    assert_eq!(tempo, Some(666_667), "tempo must follow project.bpm (90 BPM)");
    assert_eq!(sig, Some((3, 2)), "signature must follow project (3/4 -> num=3, dd=2)");
}

#[test]
fn exports_valid_smf_with_correct_timing() {
    let track = test_track();
    let bytes = smf_bytes(&track, kemper(), 120.0, (4, 4), &ExportOptions::default());
    let smf = Smf::parse(&bytes).unwrap();

    assert_eq!(smf.header.format, Format::SingleTrack);
    assert_eq!(smf.header.timing, Timing::Metrical(midly::num::u15::new(960)));

    // Tempo meta = 500000 µs/beat at 120 BPM
    assert!(smf.tracks[0].iter().any(|e| matches!(
        e.kind,
        TrackEventKind::Meta(MetaMessage::Tempo(t)) if t.as_int() == 500_000
    )));

    let events = abs_events(&smf);
    // All on channel 2 (stored 0-based as 1)
    assert!(events.iter().all(|(_, ch, _)| *ch == 1));

    // Reset block at tick 0: disengage of delay-hold (CC35=0) is present
    // before anything else.
    let at_zero: Vec<_> = events.iter().filter(|(t, _, _)| *t == 0).collect();
    assert!(at_zero.len() >= 2); // reset CC35 + preselect CC47
    assert!(is_cc(&at_zero[0].2, 35, 0));

    // Preselect performance: CC47 value 5 at tick 0 (after the reset block)
    assert!(at_zero.iter().any(|(_, _, m)| is_cc(m, 47, 5)));

    // Load slot 2: CC51=1 at tick 10
    assert!(events.iter().any(|(t, _, m)| *t == 10 && is_cc(m, 51, 1)));

    // Hold: engage CC35=1 at bar 2 (tick 3840),
    // disengage CC35=0 at bar 3 (tick 7680)
    assert!(events.iter().any(|(t, _, m)| *t == 3840 && is_cc(m, 35, 1)));
    assert!(events.iter().any(|(t, _, m)| *t == 7680 && is_cc(m, 35, 0)));

    // Automation: the curve's first value is in effect from the song start,
    // then ramps 0 -> 127 between ticks 7680 and 9600.
    let ramp: Vec<_> = events
        .iter()
        .filter_map(|(t, _, m)| match m {
            MidiMessage::Controller { controller, value } if controller.as_int() == 7 => {
                Some((*t, value.as_int()))
            }
            _ => None,
        })
        .collect();
    assert_eq!(ramp.first().unwrap(), &(0, 0), "first value at the song start");
    // nothing between the song start and the first breakpoint: the value is flat
    assert!(!ramp.iter().any(|(t, _)| *t > 0 && *t < 7680));
    assert_eq!(ramp.last().unwrap(), &(9600, 127));
    assert!(ramp.windows(2).all(|w| w[0].1 < w[1].1 && w[0].0 < w[1].0));
    // dense enough to be smooth, sparse enough not to flood
    assert!(ramp.len() > 60 && ramp.len() <= 129);
}

#[test]
fn latency_compensation_shifts_messages_early() {
    let mut track = test_track();
    // 100 ms at 120 BPM = 0.1 * 2 beats/s = 0.2 beats = 192 ticks
    track.latency_ms = 100;
    let bytes = smf_bytes(&track, kemper(), 120.0, (4, 4), &no_reset());
    let smf = Smf::parse(&bytes).unwrap();
    let events = abs_events(&smf);
    // load-slot-2 (CC51) was placed at tick 10 -> shifted to 0 (clamped)
    assert!(events.iter().any(|(t, _, m)| *t == 0 && matches!(
        m, MidiMessage::Controller { controller, .. } if controller.as_int() == 51
    )));
    // delay-hold engage (CC35=1) was at 3840 -> now 3840 - 192 = 3648
    assert!(events.iter().any(|(t, _, m)| *t == 3648 && is_cc(m, 35, 1)));
}

#[test]
fn reset_block_can_be_disabled() {
    let track = test_track();
    let bytes = smf_bytes(&track, kemper(), 120.0, (4, 4), &no_reset());
    let smf = Smf::parse(&bytes).unwrap();
    let events = abs_events(&smf);
    let at_zero: Vec<_> = events.iter().filter(|(t, _, _)| *t == 0).collect();
    // the preselect CC47 and the curve's first value on CC7 — no reset CC35
    assert_eq!(at_zero.len(), 2);
    assert!(!at_zero.iter().any(|(_, _, m)| matches!(
        m, MidiMessage::Controller { controller, .. } if controller.as_int() == 35
    )));
}

#[test]
fn tick_zero_order_is_reset_block_then_events_then_automation() {
    let track = test_track();
    let bytes = smf_bytes(&track, kemper(), 120.0, (4, 4), &ExportOptions::default());
    let smf = Smf::parse(&bytes).unwrap();
    let controllers: Vec<u8> = abs_events(&smf)
        .iter()
        .filter(|(t, _, _)| *t == 0)
        .filter_map(|(_, _, m)| match m {
            MidiMessage::Controller { controller, .. } => Some(controller.as_int()),
            _ => None,
        })
        .collect();
    // 35 = Hold disengage (reset block), 47 = preselect (event), 7 = curve
    assert_eq!(controllers, vec![35, 47, 7]);
}

#[test]
fn automation_resolution_controls_step_density() {
    // Same 0->127 ramp, exported at a fine vs. coarse resolution: the
    // coarse one must emit noticeably fewer CC steps.
    fn ramp_count(resolution_ms: u32) -> usize {
        let track = curve_track(
            "kemper-profiler-stage",
            vec![curve("volume-pedal", resolution_ms, vec![bp(0, 0), bp(1920, 127)])],
        );
        let bytes = smf_bytes(&track, kemper(), 120.0, (4, 4), &no_reset());
        let smf = Smf::parse(&bytes).unwrap();
        abs_events(&smf)
            .iter()
            .filter(|(_, _, m)| {
                matches!(m, MidiMessage::Controller { controller, .. } if controller.as_int() == 7)
            })
            .count()
    }
    let fine = ramp_count(5); // ~10 ticks/step @120 BPM, full 7-bit detail
    let coarse = ramp_count(50); // ~96 ticks/step, aggressively thinned
    assert!(coarse < fine, "coarse {coarse} should be sparser than fine {fine}");
    assert!(coarse < 30, "coarse resolution should thin hard, got {coarse}");
}

/// Kemper CC7 (volume pedal) — continuous, full 0..127 range.
fn render_kemper_curve(c: AutomationCurve) -> Vec<(u64, u8)> {
    let def = kemper();
    let track = curve_track("kemper-profiler-stage", vec![c]);
    let out = resolve(&track, &def, 120.0, 0, &no_reset());
    cc_values(&out, 7)
}

#[test]
fn first_value_is_written_at_the_song_start() {
    // One point deep into the song: the knob is parked on its value from tick 0.
    let vals = render_kemper_curve(curve("volume-pedal", 10, vec![bp(19_200, 80)]));
    assert_eq!(vals, vec![(0, 80)]);
}

#[test]
fn nothing_is_emitted_after_the_last_breakpoint() {
    let vals = render_kemper_curve(curve("volume-pedal", 10, vec![bp(0, 0), bp(960, 64)]));
    assert_eq!(vals.last().unwrap(), &(960, 64));
    assert!(!vals.iter().any(|(t, _)| *t > 960));
}

#[test]
fn hold_segment_emits_one_step_at_the_next_point() {
    let vals = render_kemper_curve(curve(
        "volume-pedal",
        10,
        vec![bp(0, 20), shaped(960, 100, Shape::Hold, 0.0)],
    ));
    assert_eq!(vals, vec![(0, 20), (960, 100)], "a hold jumps, it does not ramp");
}

#[test]
fn curve_segment_bows_away_from_the_straight_line() {
    let bowed = render_kemper_curve(curve(
        "volume-pedal",
        5,
        vec![bp(0, 0), shaped(960, 100, Shape::Curve, 1.0)],
    ));
    let straight = render_kemper_curve(curve("volume-pedal", 5, vec![bp(0, 0), bp(960, 100)]));
    let at = |vals: &[(u64, u8)], tick: u64| vals.iter().filter(|(t, _)| *t <= tick).last().unwrap().1;
    // tension 1.0 → p = 4: halfway through, 0.5^4 * 100 ≈ 6 against a linear 50
    assert!(at(&bowed, 480) <= 10, "got {}", at(&bowed, 480));
    assert!((45..=55).contains(&at(&straight, 480)), "got {}", at(&straight, 480));
    // both still arrive at the same place
    assert_eq!(bowed.last().unwrap().1, 100);
    assert_eq!(straight.last().unwrap().1, 100);
}

#[test]
fn resend_repeats_a_constant_value_across_the_song() {
    // "Park the pedal at 80" plus re-send every 500 ms: one message at the song
    // start, then a duplicate every 500 ms so a dropped CC cannot strand the device.
    let mut c = curve("volume-pedal", 10, vec![bp(0, 80)]);
    c.resend_ms = 500; // @120 BPM = 960 ticks
    let def = kemper();
    let track = curve_track("kemper-profiler-stage", vec![c]);
    let out = resolve(
        &track,
        &def,
        120.0,
        3840, // one 4/4 bar of song
        &ExportOptions { reset_block: false, song_end_ticks: 3840 },
    );
    let vals = cc_values(&out, 7);
    assert_eq!(vals, vec![(0, 80), (960, 80), (1920, 80), (2880, 80)]);
}

#[test]
fn resend_fills_the_gaps_of_a_moving_curve_without_changing_it() {
    let mut c = curve("volume-pedal", 10, vec![bp(0, 0), bp(240, 10), bp(3840, 10)]);
    c.resend_ms = 500;
    let def = kemper();
    let options = ExportOptions { reset_block: false, song_end_ticks: 3840 };
    let plain = {
        let mut c2 = c.clone();
        c2.resend_ms = 0;
        resolve(&curve_track("kemper-profiler-stage", vec![c2]), &def, 120.0, 3840, &options)
    };
    let out = resolve(&curve_track("kemper-profiler-stage", vec![c]), &def, 120.0, 3840, &options);
    let with = cc_values(&out, 7);
    let without = cc_values(&plain, 7);
    assert!(with.len() > without.len(), "re-sends must add messages");
    // every message of the plain curve survives, and nothing new introduces a new value
    for m in &without {
        assert!(with.contains(m), "lost {m:?}");
    }
    let long_gap = with.windows(2).any(|w| w[1].0 - w[0].0 > 960);
    assert!(!long_gap, "no gap may exceed the re-send interval: {with:?}");
}

#[test]
fn a_target_can_declare_its_own_messages() {
    // QLC+ selects songs with a Program Change, not a CC — and only jumps.
    let def = qlcplus();
    let track = curve_track(
        "qlcplus-horizont-hilo",
        vec![curve("select-song", 10, vec![bp(0, 0), bp(1920, 4)])],
    );
    let out = resolve(&track, &def, 120.0, 0, &no_reset());
    let programs: Vec<(u64, u8)> = out
        .iter()
        .filter_map(|e| match e.message {
            MidiMsg::ProgramChange { program } => Some((e.tick, program)),
            _ => None,
        })
        .collect();
    // song 1 from the start, song 5 from bar 2 — and nothing in between
    assert_eq!(programs, vec![(0, 0), (1920, 4)]);
    assert!(
        !out.iter().any(|e| matches!(e.message, MidiMsg::Controller { .. })),
        "a Program Change target must not emit CCs"
    );
}

#[test]
fn a_definition_can_restrict_the_curve_type() {
    let def = qlcplus();
    let k = find_command(&def, "select-song").unwrap();
    let Command::Automation(cmd) = &def.commands.items[k] else {
        panic!("select-song should be an Automation")
    };
    assert_eq!(cmd.target.allowed_shapes(), vec![Shape::Hold]);
    assert_eq!(cmd.target.forced_shape(), Some(Shape::Hold));

    // A stored Linear is ignored: the export still jumps.
    let track = curve_track(
        "qlcplus-horizont-hilo",
        vec![curve(
            "select-song",
            10,
            vec![shaped(0, 0, Shape::Linear, 0.0), shaped(960, 10, Shape::Linear, 0.0)],
        )],
    );
    let out = resolve(&track, &def, 120.0, 0, &no_reset());
    let programs: Vec<u8> = out
        .iter()
        .filter_map(|e| match e.message {
            MidiMsg::ProgramChange { program } => Some(program),
            _ => None,
        })
        .collect();
    assert_eq!(programs, vec![0, 10], "no intermediate songs may be selected");
}

#[test]
fn disabled_or_empty_curves_emit_nothing() {
    let mut off = curve("volume-pedal", 10, vec![bp(0, 0), bp(960, 127)]);
    off.enabled = false;
    assert!(render_kemper_curve(off).is_empty(), "a disabled curve is skipped");
    assert!(
        render_kemper_curve(curve("volume-pedal", 10, vec![])).is_empty(),
        "a curve with no points sends nothing"
    );
}

#[test]
fn curve_values_are_clamped_to_the_target_range() {
    let def = def("r", vec![automation("narrow", target(Some(9), 10, 100, vec![]))]);
    let track = curve_track("r", vec![curve("narrow", 5, vec![bp(0, 0), bp(960, 127)])]);
    let out = resolve(&track, &def, 120.0, 0, &no_reset());
    let vals = cc_values(&out, 9);
    assert!(
        vals.iter().all(|(_, v)| (10..=100).contains(v)),
        "values must stay inside the declared range, got {vals:?}"
    );
    assert_eq!(vals.first().unwrap().1, 10);
    assert_eq!(vals.last().unwrap().1, 100);
}

fn render_stepped(breakpoints: Vec<Breakpoint>) -> Vec<(u64, u8)> {
    let def = stepped_def();
    let track = curve_track("x", vec![curve("wah-toggle", 10, breakpoints)]);
    let out = resolve(&track, &def, 120.0, 0, &no_reset());
    cc_values(&out, 11)
}

#[test]
fn stepped_automation_snaps_and_holds() {
    // 0->0, 64->127, 70->127, 127->127 after snapping; sample-and-hold collapses
    // the trailing repeats. No in-between value (64/70) is ever emitted.
    let vals = render_stepped(vec![bp(0, 0), bp(100, 64), bp(200, 70), bp(300, 127)]);
    assert_eq!(vals, vec![(0, 0), (100, 127)]);
    assert!(
        vals.iter().all(|(_, v)| *v == 0 || *v == 127),
        "stepped automation must only emit the discrete set, got {vals:?}"
    );
}

#[test]
fn stepped_automation_snaps_below_and_above_midpoint() {
    // 63 -> 0 (nearer 0), 64 -> 127 (nearer 127)
    assert_eq!(render_stepped(vec![bp(0, 63), bp(100, 64)]), vec![(0, 0), (100, 127)]);
}

#[test]
fn stepped_automation_ignores_a_stored_linear_shape() {
    // A discrete target never interpolates, whatever the segment says.
    let vals = render_stepped(vec![
        shaped(0, 0, Shape::Linear, 0.0),
        shaped(1000, 127, Shape::Curve, 0.8),
    ]);
    assert_eq!(vals, vec![(0, 0), (1000, 127)]);
}

// ---------- further cases ----------

#[test]
fn unknown_or_mistyped_commands_are_refused() {
    let def = kemper();
    let mut track = curve_track("kemper-profiler-stage", vec![]);
    track.events = vec![Event::OneShot { command_id: s("nope"), tick: 0, params: vec![], lane: 0 }];
    let err = resolve_track(&track, &def, &timing(&track, &def, 120.0), 0, &no_reset()).unwrap_err();
    assert_eq!(err, "definition 'kemper-profiler-stage' has no command 'nope'");

    track.events = vec![Event::OneShot { command_id: s("delay-hold"), tick: 0, params: vec![], lane: 0 }];
    let err = resolve_track(&track, &def, &timing(&track, &def, 120.0), 0, &no_reset()).unwrap_err();
    assert_eq!(err, "'delay-hold' is not a One-Shot command");

    track.events = vec![Event::Hold { command_id: s("load-slot-2"), tick: 0, length: 5, params: vec![], lane: 0 }];
    let err = resolve_track(&track, &def, &timing(&track, &def, 120.0), 0, &no_reset()).unwrap_err();
    assert_eq!(err, "'load-slot-2' is not a Hold command");

    track.events = vec![];
    track.automation = vec![curve("load-slot-2", 10, vec![bp(0, 1)])];
    let err = resolve_track(&track, &def, &timing(&track, &def, 120.0), 0, &no_reset()).unwrap_err();
    assert_eq!(err, "'load-slot-2' is not an Automation command");
}

#[test]
fn a_missing_parameter_value_is_an_error() {
    let def = kemper();
    let mut track = curve_track("kemper-profiler-stage", vec![]);
    track.events = vec![Event::OneShot { command_id: s("preselect-performance"), tick: 0, params: vec![], lane: 0 }];
    let err = resolve_track(&track, &def, &timing(&track, &def, 120.0), 0, &no_reset()).unwrap_err();
    assert_eq!(err, "missing value for parameter 'performance'");
}

#[test]
fn a_target_without_controller_or_messages_is_an_error() {
    let def = def("bad", vec![automation("a", target(None, 0, 127, vec![]))]);
    let track = curve_track("bad", vec![curve("a", 10, vec![bp(0, 1)])]);
    let err = resolve_track(&track, &def, &timing(&track, &def, 120.0), 0, &no_reset()).unwrap_err();
    assert_eq!(err, "an automation target needs either a controller or messages");
}

#[test]
fn the_channel_must_be_one_to_sixteen() {
    let mut track = test_track();
    track.midi_channel = 17;
    let t = timing(&track, &kemper(), 120.0);
    let err = track_to_smf(&track, &Ok(kemper()), &t, 0, 500_000, (4, 4), &no_reset()).unwrap_err();
    assert_eq!(err, "track 'Kemper': MIDI channel must be 1-16");
    let err = resolve_project(&vec![track], &vec![Ok(kemper())], &vec![t], 0, &no_reset()).unwrap_err();
    assert_eq!(err, "track 'Kemper': MIDI channel must be 1-16");
}

#[test]
fn an_unknown_definition_is_passed_on() {
    let track = test_track();
    let t = timing(&track, &kemper(), 120.0);
    let err = track_to_smf(&track, &Err(s("unknown device definition 'x'")), &t, 0, 500_000, (4, 4), &no_reset());
    assert_eq!(err.unwrap_err(), "unknown device definition 'x'");
}

#[test]
fn the_project_stream_merges_tracks_by_tick_on_their_channels() {
    let mut a = curve_track("kemper-profiler-stage", vec![curve("volume-pedal", 10, vec![bp(100, 5)])]);
    a.events = vec![Event::OneShot { command_id: s("load-slot-2"), tick: 50, params: vec![], lane: 0 }];
    let mut b = curve_track("qlcplus-horizont-hilo", vec![curve("select-song", 10, vec![bp(0, 3), bp(50, 4)])]);
    b.midi_channel = 5;
    let ta = timing(&a, &kemper(), 120.0);
    let tb = timing(&b, &qlcplus(), 120.0);
    let all = resolve_project(&vec![a, b], &vec![Ok(kemper()), Ok(qlcplus())], &vec![ta, tb], 0, &no_reset()).unwrap();
    let got: Vec<(u64, u64, u8)> = all.iter().map(|m| (m.tick, m.order, m.channel)).collect();
    // sorted by tick, then by emission order within each track
    assert_eq!(got, vec![(0, 0, 4), (0, 1, 0), (50, 0, 0), (50, 1, 4)]);
    assert_eq!(all[1].message, MidiMsg::Controller { controller: 7, value: 5 });
    assert_eq!(all[3].message, MidiMsg::ProgramChange { program: 4 });
}

#[test]
fn the_song_runs_to_the_last_thing_that_happens() {
    let mut track = test_track();
    assert_eq!(song_end(&vec![track.clone()], &no_reset()), 9600);
    track.events.push(Event::Hold { command_id: s("delay-hold"), tick: 9000, length: 5000, params: vec![], lane: 0 });
    assert_eq!(song_end(&vec![track.clone()], &no_reset()), 14000);
    assert_eq!(song_end(&vec![track], &ExportOptions { reset_block: true, song_end_ticks: 77 }), 77);
    assert_eq!(song_end(&vec![], &no_reset()), 0);
}

#[test]
fn file_names_are_sanitized() {
    assert_eq!(rigpilot::export::sanitize("a/b\\c:d*e?f\"g<h>i|j"), "a_b_c_d_e_f_g_h_i_j");
    assert_eq!(rigpilot::export::sanitize("Song – Kemper"), "Song – Kemper");
}

fn from_midly(m: &MidiMessage) -> MidiMsg {
    match *m {
        MidiMessage::NoteOn { key, vel } => MidiMsg::NoteOn { key: key.as_int(), vel: vel.as_int() },
        MidiMessage::NoteOff { key, vel } => MidiMsg::NoteOff { key: key.as_int(), vel: vel.as_int() },
        MidiMessage::Controller { controller, value } => {
            MidiMsg::Controller { controller: controller.as_int(), value: value.as_int() }
        }
        MidiMessage::ProgramChange { program } => MidiMsg::ProgramChange { program: program.as_int() },
        _ => panic!("not a message the library sends"),
    }
}

#[test]
fn live_output_plays_what_export_writes() {
    let track = test_track();
    let options = ExportOptions::default();
    let bytes = smf_bytes(&track, kemper(), 120.0, (4, 4), &options);
    let smf = Smf::parse(&bytes).unwrap();
    let written: Vec<(u64, u8, MidiMsg)> =
        abs_events(&smf).iter().map(|(t, ch, m)| (*t, *ch, from_midly(m))).collect();
    let t = timing(&track, &kemper(), 120.0);
    let end = song_end(&vec![track.clone()], &options);
    let live = resolve_project(&vec![track], &vec![Ok(kemper())], &vec![t], end, &options).unwrap();
    let played: Vec<(u64, u8, MidiMsg)> = live.iter().map(|m| (m.tick, m.channel, m.message)).collect();
    assert!(played.len() > 60);
    assert_eq!(played, written);
}

#[test]
fn simultaneous_events_go_out_in_lane_order() {
    let def = def(
        "l",
        vec![
            one_shot("a", vec![OneShotChild::ControlChange(cc(1, "1"))]),
            one_shot("b", vec![OneShotChild::ControlChange(cc(2, "1"))]),
        ],
    );
    let mut track = curve_track("l", vec![]);
    track.events = vec![
        Event::OneShot { command_id: s("a"), tick: 0, params: vec![], lane: 1 },
        Event::OneShot { command_id: s("b"), tick: 0, params: vec![], lane: 0 },
        Event::OneShot { command_id: s("a"), tick: 0, params: vec![], lane: 0 },
    ];
    let out = resolve(&track, &def, 120.0, 0, &no_reset());
    let controllers: Vec<u8> = out
        .iter()
        .filter_map(|e| match e.message {
            MidiMsg::Controller { controller, .. } => Some(controller),
            _ => None,
        })
        .collect();
    // top lane first; on one lane in track order
    assert_eq!(controllers, vec![2, 1, 1]);
    assert_eq!(out[0].order, 0);
}

#[test]
fn the_first_failing_event_in_track_order_names_the_error() {
    let def = kemper();
    let mut track = curve_track("kemper-profiler-stage", vec![]);
    track.events = vec![
        Event::OneShot { command_id: s("first"), tick: 0, params: vec![], lane: 3 },
        Event::OneShot { command_id: s("second"), tick: 0, params: vec![], lane: 0 },
    ];
    let err = resolve_track(&track, &def, &timing(&track, &def, 120.0), 0, &no_reset()).unwrap_err();
    assert_eq!(err, "definition 'kemper-profiler-stage' has no command 'first'");
}

#[test]
fn inactive_curves_change_nothing() {
    let def = kemper();
    let active = curve("volume-pedal", 10, vec![bp(0, 3), bp(960, 90)]);
    let mut off = curve("nope", 10, vec![bp(0, 1)]);
    off.enabled = false;
    let empty = curve("also-unknown", 10, vec![]);
    let with = curve_track("kemper-profiler-stage", vec![off, active.clone(), empty]);
    let without = curve_track("kemper-profiler-stage", vec![active]);
    let a = resolve(&with, &def, 120.0, 0, &no_reset());
    let b = resolve(&without, &def, 120.0, 0, &no_reset());
    let key = |v: &[Emitted]| v.iter().map(|e| (e.tick, e.order, e.message)).collect::<Vec<_>>();
    assert_eq!(key(&a), key(&b));
}

#[test]
fn curves_are_read_at_their_prepared_points() {
    let def = kemper();
    let c = curve(
        "volume-pedal",
        10,
        vec![bp(200, 40), bp(100, 20), bp(200, 99), shaped(300, 60, Shape::Hold, 0.0)],
    );
    let track = curve_track("kemper-profiler-stage", vec![c, curve("load-slot-2", 10, vec![bp(0, 1)])]);
    let readings = curve_readings(&track, &def, &vec![0, 5]);
    let ticks: Vec<u64> = readings[0].iter().map(|(t, _)| *t).collect();
    // a step of 0 reads every tick; the second point on tick 200 is dropped
    assert_eq!(ticks.len(), 1 + 100 + 1);
    assert_eq!(readings[0][0], (0, CurvePoint::Value(20)));
    assert_eq!(readings[0][100], (200, CurvePoint::Value(40)));
    assert_eq!(readings[0][101], (300, CurvePoint::Value(60)));
    // not an Automation Command: nothing to read
    assert!(readings[1].is_empty());
    let render = curve_render(&readings[0], &vec![7; readings[0].len()], 33);
    assert_eq!(render.resend_ticks, 33);
    assert_eq!(render.values[0], (0, 20));
    assert_eq!(render.values[1], (101, 7));
    assert_eq!(render.values[101], (300, 60));
}
