use rigpilot::project::{
    check_format_version, curve_value_at, prepare_breakpoints, AutomationView, Breakpoint, CurvePoint,
    Shape, FORMAT_VERSION, PPQN,
};

fn bp(tick: u64, value: u8, shape: Shape, tension: f32) -> Breakpoint {
    Breakpoint { tick, value, shape, tension_bits: tension.to_bits() }
}

/// The value a point stands for, worked out with floating point the way the
/// application does it.
fn value(p: Option<CurvePoint>) -> Option<u8> {
    p.map(|p| match p {
        CurvePoint::Value(v) => v,
        CurvePoint::Between { from, to, elapsed, span, shape, tension_bits } => {
            let u = elapsed as f64 / span as f64;
            let u = match shape {
                Shape::Curve => {
                    let k = (f32::from_bits(tension_bits) as f64).clamp(-1.0, 1.0);
                    let p = 1.0 + 3.0 * k.abs();
                    if k >= 0.0 {
                        u.powf(p)
                    } else {
                        1.0 - (1.0 - u).powf(p)
                    }
                }
                _ => u,
            };
            (from as f64 + (to as f64 - from as f64) * u).round().clamp(0.0, 127.0) as u8
        }
    })
}

fn value_at(bps: &[Breakpoint], tick: u64, forced: Option<Shape>) -> Option<u8> {
    value(curve_value_at(&bps.to_vec(), tick, forced))
}

#[test]
fn empty_curve_has_no_value() {
    assert_eq!(curve_value_at(&vec![], 0, None), None);
}

#[test]
fn value_is_held_outside_the_drawn_range() {
    let bps = vec![bp(1000, 40, Shape::Linear, 0.0), bp(2000, 90, Shape::Linear, 0.0)];
    // held back to the song start
    assert_eq!(curve_value_at(&bps, 0, None), Some(CurvePoint::Value(40)));
    assert_eq!(curve_value_at(&bps, 999, None), Some(CurvePoint::Value(40)));
    // held to the end
    assert_eq!(curve_value_at(&bps, 2000, None), Some(CurvePoint::Value(90)));
    assert_eq!(curve_value_at(&bps, 999_999, None), Some(CurvePoint::Value(90)));
}

#[test]
fn linear_segment_interpolates() {
    let bps = [bp(0, 0, Shape::Linear, 0.0), bp(1000, 100, Shape::Linear, 0.0)];
    assert_eq!(
        curve_value_at(&bps.to_vec(), 250, None),
        Some(CurvePoint::Between {
            from: 0,
            to: 100,
            elapsed: 250,
            span: 1000,
            shape: Shape::Linear,
            tension_bits: 0,
        })
    );
    assert_eq!(value_at(&bps, 250, None), Some(25));
    assert_eq!(value_at(&bps, 500, None), Some(50));
    assert_eq!(value_at(&bps, 750, None), Some(75));
}

#[test]
fn hold_segment_keeps_the_left_value_until_the_next_point() {
    let bps = vec![bp(0, 10, Shape::Linear, 0.0), bp(1000, 100, Shape::Hold, 0.0)];
    assert_eq!(curve_value_at(&bps, 1, None), Some(CurvePoint::Value(10)));
    assert_eq!(curve_value_at(&bps, 999, None), Some(CurvePoint::Value(10)));
    assert_eq!(curve_value_at(&bps, 1000, None), Some(CurvePoint::Value(100)));
}

#[test]
fn a_forced_shape_overrides_what_the_points_store() {
    let bps = vec![bp(0, 0, Shape::Linear, 0.0), bp(1000, 127, Shape::Linear, 0.0)];
    assert_eq!(curve_value_at(&bps, 500, Some(Shape::Hold)), Some(CurvePoint::Value(0)));
    assert_eq!(curve_value_at(&bps, 1000, Some(Shape::Hold)), Some(CurvePoint::Value(127)));
}

#[test]
fn the_shape_belongs_to_the_point_a_segment_arrives_at() {
    let bps = vec![
        bp(0, 0, Shape::Hold, 0.0),
        bp(100, 50, Shape::Curve, -0.5),
        bp(200, 60, Shape::Hold, 0.0),
    ];
    assert_eq!(
        curve_value_at(&bps, 150, None),
        Some(CurvePoint::Value(50)),
        "the second segment arrives at a Hold point"
    );
    assert_eq!(
        curve_value_at(&bps, 40, None),
        Some(CurvePoint::Between {
            from: 0,
            to: 50,
            elapsed: 40,
            span: 100,
            shape: Shape::Curve,
            tension_bits: (-0.5f32).to_bits(),
        })
    );
    // a forced Linear overrides a stored Hold, and keeps the stored tension
    assert_eq!(
        curve_value_at(&bps, 150, Some(Shape::Linear)),
        Some(CurvePoint::Between {
            from: 50,
            to: 60,
            elapsed: 50,
            span: 100,
            shape: Shape::Linear,
            tension_bits: 0,
        })
    );
}

#[test]
fn load_refuses_older_and_versionless_projects() {
    for version in [None, Some(1u64)] {
        let err = check_format_version(version).unwrap_err();
        assert!(err.contains("older version of RigPilot"), "{err}");
    }
}

#[test]
fn load_refuses_newer_projects() {
    let err = check_format_version(Some(99)).unwrap_err();
    assert!(err.contains("newer version of RigPilot"), "{err}");
    assert_eq!(
        err,
        "This project was made with a newer version of RigPilot. Update RigPilot to open it."
    );
}

#[test]
fn the_current_format_version_opens() {
    assert_eq!(FORMAT_VERSION, 2);
    assert_eq!(check_format_version(Some(2)), Ok(()));
    // the number is read as 32 bits, the way the file loader truncates it
    assert_eq!(check_format_version(Some((1u64 << 32) + 2)), Ok(()));
    assert_eq!(
        check_format_version(Some(0)).unwrap_err(),
        "This project was made with an older version of RigPilot and can't be opened."
    );
}

#[test]
fn breakpoints_are_sorted_and_a_tick_keeps_its_first_point() {
    let bps = vec![
        bp(300, 3, Shape::Linear, 0.0),
        bp(100, 1, Shape::Hold, 0.0),
        bp(300, 9, Shape::Curve, 0.5),
        bp(200, 2, Shape::Linear, 0.0),
        bp(100, 8, Shape::Linear, 0.0),
    ];
    let ready = prepare_breakpoints(&bps);
    assert_eq!(
        ready,
        vec![
            bp(100, 1, Shape::Hold, 0.0),
            bp(200, 2, Shape::Linear, 0.0),
            bp(300, 3, Shape::Linear, 0.0),
        ]
    );
    assert!(prepare_breakpoints(&vec![]).is_empty());
}

#[test]
fn defaults_of_a_bare_track() {
    let view = AutomationView::default();
    assert_eq!(view.command, None);
    assert_eq!(view.height, 96);
    assert_eq!(Shape::default(), Shape::Linear);
    assert_eq!(PPQN, 960);
    assert_eq!(rigpilot::project::default_resolution_ms(), 10);
    assert!(rigpilot::project::default_true());
    assert_eq!(rigpilot::project::legacy_version(), 1);
}
