use rigpilot::assets::{asset_path, import_step, numbered_name, split_file_name, ImportStep};
use rigpilot::curve::{clamp_to_target, curve_samples, thin_steps, with_resends};
use rigpilot::definition::{Label, Target, TargetChild};
use rigpilot::export::MidiMsg;
use rigpilot::live::{silence_messages, to_raw};
use rigpilot::order::sort_timed;
use rigpilot::export::Emitted;
use rigpilot::project::{Breakpoint, CurvePoint, Shape};

fn target(min: u8, max: u8, labels: &[u8]) -> Target {
    Target {
        controller: Some(1),
        min,
        max,
        shapes: None,
        children: labels
            .iter()
            .map(|v| TargetChild::Label(Label { value: *v, short: None, text: v.to_string() }))
            .collect(),
    }
}

#[test]
fn messages_encode_to_raw_midi_bytes() {
    assert_eq!(to_raw(0, &MidiMsg::NoteOn { key: 60, vel: 100 }), vec![0x90, 60, 100]);
    assert_eq!(to_raw(15, &MidiMsg::NoteOff { key: 60, vel: 0 }), vec![0x8F, 60, 0]);
    assert_eq!(to_raw(1, &MidiMsg::Controller { controller: 7, value: 127 }), vec![0xB1, 7, 127]);
    assert_eq!(to_raw(2, &MidiMsg::ProgramChange { program: 4 }), vec![0xC2, 4]);
    // only the low four bits name the channel
    assert_eq!(to_raw(17, &MidiMsg::ProgramChange { program: 4 }), vec![0xC1, 4]);
}

#[test]
fn silence_turns_every_channel_off() {
    let all = silence_messages();
    assert_eq!(all.len(), 32);
    assert_eq!(all[0], vec![0xB0, 120, 0]);
    assert_eq!(all[1], vec![0xB0, 123, 0]);
    assert_eq!(all[31], vec![0xBF, 123, 0]);
}

#[test]
fn thinning_keeps_only_changes() {
    let t = target(0, 127, &[]);
    let raw = vec![(0, 5), (10, 5), (20, 6), (30, 6), (40, 5)];
    assert_eq!(thin_steps(&t, &raw), vec![(0, 5), (20, 6), (40, 5)]);
    assert!(thin_steps(&t, &vec![]).is_empty());
}

#[test]
fn thinning_settles_values_on_the_target() {
    let narrow = target(10, 100, &[]);
    assert_eq!(clamp_to_target(&narrow, 0), 10);
    assert_eq!(clamp_to_target(&narrow, 127), 100);
    assert_eq!(clamp_to_target(&narrow, 50), 50);
    // a definition with min > max is left alone
    assert_eq!(clamp_to_target(&target(100, 10, &[]), 3), 3);
    let stepped = target(0, 127, &[127, 0, 64]);
    assert_eq!(
        thin_steps(&stepped, &vec![(0, 10), (5, 31), (9, 32), (12, 33), (20, 120)]),
        vec![(0, 0), (12, 64), (20, 127)]
    );
}

#[test]
fn resends_repeat_the_standing_value() {
    let msgs = vec![(0, 1), (25, 2)];
    assert_eq!(with_resends(&msgs, 10, 45), vec![(0, 1), (10, 1), (20, 1), (25, 2), (35, 2)]);
    assert_eq!(with_resends(&vec![], 10, 45), vec![]);
    // nothing to repeat before the next message
    assert_eq!(with_resends(&msgs, 100, 0), msgs);
    // the repeats stop at the end of the tick range
    assert_eq!(with_resends(&vec![(u64::MAX - 1, 9)], 5, u64::MAX), vec![(u64::MAX - 1, 9)]);
}

fn bp(tick: u64, value: u8, shape: Shape) -> Breakpoint {
    Breakpoint { tick, value, shape, tension_bits: 0 }
}

#[test]
fn a_curve_is_read_at_its_points_and_along_its_ramps() {
    let bps = vec![bp(100, 10, Shape::Linear), bp(130, 40, Shape::Linear), bp(200, 0, Shape::Hold)];
    let samples = curve_samples(&bps, None, 20);
    let ticks: Vec<u64> = samples.iter().map(|(t, _)| *t).collect();
    assert_eq!(ticks, vec![0, 120, 130, 200]);
    assert_eq!(samples[0].1, CurvePoint::Value(10));
    assert_eq!(
        samples[1].1,
        CurvePoint::Between { from: 10, to: 40, elapsed: 20, span: 30, shape: Shape::Linear, tension_bits: 0 }
    );
    assert_eq!(samples[2].1, CurvePoint::Value(40));
    assert_eq!(samples[3].1, CurvePoint::Value(0));
    // a forced Hold reads every segment at its end only
    let held = curve_samples(&bps, Some(Shape::Hold), 20);
    assert_eq!(held.len(), 3);
    assert!(curve_samples(&vec![], None, 20).is_empty());
}

#[test]
fn messages_sort_by_tick_then_emission_order() {
    let m = MidiMsg::ProgramChange { program: 0 };
    let v = vec![
        Emitted { tick: 5, order: 0, message: m },
        Emitted { tick: 0, order: 2, message: m },
        Emitted { tick: 0, order: 1, message: m },
        Emitted { tick: 5, order: 0, message: MidiMsg::ProgramChange { program: 1 } },
    ];
    let sorted: Vec<(u64, u64, MidiMsg)> = sort_timed(&v).iter().map(|e| (e.tick, e.order, e.message)).collect();
    assert_eq!(
        sorted,
        vec![
            (0, 1, m),
            (0, 2, m),
            (5, 0, m),
            (5, 0, MidiMsg::ProgramChange { program: 1 }),
        ]
    );
}

#[test]
fn imported_files_get_free_numbered_names() {
    let (stem, ext) = split_file_name("take.final.wav");
    assert_eq!((stem.as_str(), ext.as_str()), ("take.final", ".wav"));
    let (stem, ext) = split_file_name("noext");
    assert_eq!((stem.as_str(), ext.as_str()), ("noext", ""));
    assert_eq!(numbered_name("take.final", ".wav", 2), "take.final (2).wav");
    assert_eq!(numbered_name("noext", "", 13), "noext (13)");
    assert_eq!(asset_path("a.wav"), "assets/a.wav");
    assert_eq!(import_step(None, 10), ImportStep::Copy);
    assert_eq!(import_step(Some(10), 10), ImportStep::Reuse);
    assert_eq!(import_step(Some(11), 10), ImportStep::TryNext);
}
