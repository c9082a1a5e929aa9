//! Project model: MIDI tracks, their events and automation curves.

use vstd::prelude::*;

verus! {

/// Shape of the curve segment arriving at a breakpoint.
#[derive(Clone, Copy, Debug, PartialEq, Eq, Structural)]
pub enum Shape {
    Linear,
    Curve,
    Hold,
}

impl Default for Shape {
    fn default() -> (res: Self)
        ensures
            res == Shape::Linear,
    {
        Shape::Linear
    }
}

/// MIDI ticks per quarter note, fixed for projects and exports.
pub const PPQN: u32 = 960;

/// Current project file format. Older files are refused, never converted.
pub const FORMAT_VERSION: u32 = 2;

pub fn default_resolution_ms() -> (res: u32)
    ensures
        res == 10,
{
    10
}

pub fn default_true() -> (res: bool)
    ensures
        res,
{
    true
}

pub fn default_lane_height() -> (res: u32)
    ensures
        res == 96,
{
    96
}

/// The format version of a file that names none.
pub fn legacy_version() -> (res: u32)
    ensures
        res == 1,
{
    1
}

#[derive(Clone, Debug)]
pub struct MidiTrack {
    pub name: String,
    pub definition_id: String,
    /// 1..=16 — the universal Device Setting.
    pub midi_channel: u8,
    /// Latency compensation in ms: messages are sent this much earlier at
    /// export so the audible change lands on the placed position.
    pub latency_ms: u32,
    pub mute: bool,
    pub solo: bool,
    /// One-Shot and Hold events on the anonymous lanes.
    pub events: Vec<Event>,
    /// At most one curve per Automation Command of the track's Device.
    pub automation: Vec<AutomationCurve>,
    pub automation_view: AutomationView,
}

/// A placed command. Parameter values are bound by name; the first binding of
/// a name counts.
#[derive(Clone, Debug)]
pub enum Event {
    OneShot { command_id: String, tick: u64, params: Vec<(String, u8)>, lane: u32 },
    Hold { command_id: String, tick: u64, length: u64, params: Vec<(String, u8)>, lane: u32 },
}

/// The value curve of one Automation Command. A curve with no breakpoints means
/// "not automated" and exports nothing.
#[derive(Clone, Debug)]
pub struct AutomationCurve {
    pub command_id: String,
    pub enabled: bool,
    /// Minimum spacing between exported CC steps, in milliseconds.
    pub resolution_ms: u32,
    /// Re-send the current value every N ms even when it hasn't changed. 0 = off.
    pub resend_ms: u32,
    /// Sorted by tick, strictly increasing.
    pub breakpoints: Vec<Breakpoint>,
}

#[derive(Clone, Copy, Debug, PartialEq, Eq, Structural)]
pub struct Breakpoint {
    /// Absolute song tick.
    pub tick: u64,
    pub value: u8,
    /// Shape of the segment *arriving at* this point (ignored on the first one).
    pub shape: Shape,
    /// `Curve` only: the IEEE-754 bit pattern of the tension (-1.0..=1.0,
    /// 0 = straight). The library carries it through and never computes with it.
    pub tension_bits: u32,
}

/// Which curve a track's Automation Lane shows, and how tall it is.
#[derive(Clone, Debug)]
pub struct AutomationView {
    /// Command shown in the lane; `None` = the lane is collapsed.
    pub command: Option<String>,
    /// Lane height in px.
    pub height: u32,
}

impl Default for AutomationView {
    fn default() -> (res: Self)
        ensures
            res.command is None,
            res.height == 96,
    {
        AutomationView { command: None, height: default_lane_height() }
    }
}

/// Where a curve stands at a tick: a settled value, or a point inside a
/// `Linear`/`Curve` segment whose value takes floating-point interpolation.
#[derive(Clone, Copy, Debug, PartialEq, Eq, Structural)]
pub enum CurvePoint {
    Value(u8),
    Between { from: u8, to: u8, elapsed: u64, span: u64, shape: Shape, tension_bits: u32 },
}

pub open spec fn sorted_by_tick(bps: Seq<Breakpoint>) -> bool {
    forall|i: int, j: int| 0 <= i <= j < bps.len() ==> bps[i].tick <= bps[j].tick
}

/// `i` starts the segment that holds `tick`.
pub open spec fn brackets(bps: Seq<Breakpoint>, i: int, tick: u64) -> bool {
    0 <= i < bps.len() - 1 && bps[i].tick <= tick < bps[i + 1].tick
}

pub open spec fn shape_or(forced: Option<Shape>, s: Shape) -> Shape {
    match forced {
        Some(f) => f,
        None => s,
    }
}

/// The point inside the segment from `a` to `b` at `tick`. The shape belongs
/// to the point the segment arrives at, unless one is forced.
pub open spec fn segment_point(a: Breakpoint, b: Breakpoint, tick: u64, forced: Option<Shape>) -> CurvePoint {
    let shape = shape_or(forced, b.shape);
    if shape == Shape::Hold {
        CurvePoint::Value(a.value)
    } else {
        CurvePoint::Between {
            from: a.value,
            to: b.value,
            elapsed: (tick - a.tick) as u64,
            span: (b.tick - a.tick) as u64,
            shape,
            tension_bits: b.tension_bits,
        }
    }
}

/// Where a non-empty curve stands at `tick`: the first value is held back to
/// the song start, the last one held to the end, and in between the segment
/// holding `tick` decides.
pub open spec fn point_at(bps: Seq<Breakpoint>, tick: u64, forced: Option<Shape>) -> CurvePoint {
    if tick <= bps[0].tick {
        CurvePoint::Value(bps[0].value)
    } else if tick >= bps.last().tick {
        CurvePoint::Value(bps.last().value)
    } else {
        let i = choose|i: int| brackets(bps, i, tick);
        segment_point(bps[i], bps[i + 1], tick, forced)
    }
}

/// In a sorted curve at most one segment holds a tick.
pub proof fn lemma_bracket_unique(bps: Seq<Breakpoint>, i: int, j: int, tick: u64)
    requires
        sorted_by_tick(bps),
        brackets(bps, i, tick),
        brackets(bps, j, tick),
    ensures
        i == j,
{
    if i < j {
        assert(bps[i + 1].tick <= bps[j].tick);
    } else if j < i {
        assert(bps[j + 1].tick <= bps[i].tick);
    }
}

/// The value of a curve at an absolute tick, as far as whole numbers settle it;
/// `None` when the curve has no breakpoints. `bps` must be sorted by tick.
pub fn curve_value_at(bps: &Vec<Breakpoint>, tick: u64, forced: Option<Shape>) -> (res: Option<
    CurvePoint,
>)
    requires
        sorted_by_tick(bps@),
    ensures
        bps@.len() == 0 ==> res is None,
        bps@.len() > 0 ==> res == Some(point_at(bps@, tick, forced)),
{
    let n = bps.len();
    if n == 0 {
        return None;
    }
    let first = bps[0];
    let last = bps[n - 1];
    if tick <= first.tick {
        return Some(CurvePoint::Value(first.value));
    }
    if tick >= last.tick {
        return Some(CurvePoint::Value(last.value));
    }
    // bps[lo].tick <= tick < bps[hi].tick
    let mut lo: usize = 0;
    let mut hi: usize = n - 1;
    while hi - lo > 1
        invariant
            n == bps@.len(),
            lo < hi < n,
            bps@[lo as int].tick <= tick < bps@[hi as int].tick,
            sorted_by_tick(bps@),
        decreases hi - lo,
    {
        let mid = lo + (hi - lo) / 2;
        if bps[mid].tick <= tick {
            lo = mid;
        } else {
            hi = mid;
        }
    }
    let a = bps[lo];
    let b = bps[lo + 1];
    proof {
        assert(brackets(bps@, lo as int, tick));
        let i = choose|i: int| brackets(bps@, i, tick);
        lemma_bracket_unique(bps@, i, lo as int, tick);
    }
    let shape = match forced {
        Some(f) => f,
        None => b.shape,
    };
    if shape == Shape::Hold {
        Some(CurvePoint::Value(a.value))
    } else {
        Some(
            CurvePoint::Between {
                from: a.value,
                to: b.value,
                elapsed: tick - a.tick,
                span: b.tick - a.tick,
                shape,
                tension_bits: b.tension_bits,
            },
        )
    }
}

/// The format version a project file declares: its `formatVersion` number
/// truncated to 32 bits, or the legacy version when it names none.
pub open spec fn declared_version(raw: Option<u64>) -> u32 {
    match raw {
        Some(v) => (v % 0x1_0000_0000) as u32,
        None => 1,
    }
}

pub open spec fn older_project_text() -> Seq<char> {
    "This project was made with an older version of RigPilot and can't be opened."@
}

pub open spec fn newer_project_text() -> Seq<char> {
    "This project was made with a newer version of RigPilot. Update RigPilot to open it."@
}

/// Checks a project file's declared format version before its body is read:
/// older and newer files are refused with a sentence, never converted.
pub fn check_format_version(raw: Option<u64>) -> (res: Result<(), String>)
    ensures
        declared_version(raw) < FORMAT_VERSION ==> (res matches Err(e) && e@ == older_project_text()),
        declared_version(raw) > FORMAT_VERSION ==> (res matches Err(e) && e@ == newer_project_text()),
        declared_version(raw) == FORMAT_VERSION ==> res is Ok,
{
    let version: u32 = match raw {
        Some(v) => (v % 0x1_0000_0000) as u32,
        None => legacy_version(),
    };
    if version < FORMAT_VERSION {
        return Err(
            String::from_str("This project was made with an older version of RigPilot and can't be opened."),
        );
    }
    if version > FORMAT_VERSION {
        return Err(
            String::from_str(
                "This project was made with a newer version of RigPilot. Update RigPilot to open it.",
            ),
        );
    }
    Ok(())
}

/// Breakpoint ticks strictly increase.
pub open spec fn ticks_ascending(bps: Seq<Breakpoint>) -> bool {
    forall|i: int, j: int| 0 <= i < j < bps.len() ==> bps[i].tick < bps[j].tick
}

/// Breakpoint `i` is the first one stored at its tick.
pub open spec fn first_at_tick(bps: Seq<Breakpoint>, i: int) -> bool {
    0 <= i < bps.len() && forall|j: int| 0 <= j < i ==> bps[j].tick != bps[i].tick
}

/// Some breakpoint of `bps` stands at `tick`.
pub open spec fn has_tick(bps: Seq<Breakpoint>, tick: u64) -> bool {
    exists|k: int| 0 <= k < bps.len() && (#[trigger] bps[k]).tick == tick
}

/// Puts `b` into an ascending list at its place, unless a point already stands
/// at its tick; says whether it did.
fn place_breakpoint(out: &mut Vec<Breakpoint>, b: Breakpoint) -> (placed: bool)
    requires
        ticks_ascending(old(out)@),
    ensures
        ticks_ascending(final(out)@),
        placed == !has_tick(old(out)@, b.tick),
        !placed ==> final(out)@ == old(out)@,
        forall|x: Breakpoint| #[trigger] final(out)@.contains(x) <==> (old(out)@.contains(x) || (placed && x == b)),
        forall|t: u64| #[trigger] has_tick(final(out)@, t) <==> (has_tick(old(out)@, t) || t == b.tick),
{
    let mut p: usize = 0;
    while p < out.len() && out[p].tick < b.tick
        invariant
            p <= out@.len(),
            forall|j: int| 0 <= j < p ==> (#[trigger] out@[j]).tick < b.tick,
        decreases out@.len() - p,
    {
        p = p + 1;
    }
    if p < out.len() && out[p].tick == b.tick {
        assert(has_tick(out@, b.tick));
        return false;
    }
    let ghost before = out@;
    assert forall|k: int| 0 <= k < before.len() implies (#[trigger] before[k]).tick != b.tick by {
        if k > p {
            assert(before[p as int].tick < before[k].tick);
        }
    }
    out.insert(p, b);
    assert(out@ =~= before.take(p as int).push(b) + before.skip(p as int));
    assert forall|i: int, j: int| 0 <= i < j < out@.len() implies out@[i].tick < out@[j].tick by {
        if j < p {
            assert(out@[i] == before[i] && out@[j] == before[j]);
        } else if j == p {
            assert(out@[i] == before[i]);
        } else if i < p {
            assert(out@[i] == before[i] && out@[j] == before[j - 1]);
        } else if i == p {
            assert(out@[j] == before[j - 1]);
            if j - 1 > p {
                assert(before[p as int].tick < before[j - 1].tick);
            }
        } else {
            assert(out@[i] == before[i - 1] && out@[j] == before[j - 1]);
        }
    }
    assert forall|x: Breakpoint| #[trigger] out@.contains(x) <==> (before.contains(x) || x == b) by {
        if out@.contains(x) {
            let k = choose|k: int| 0 <= k < out@.len() && out@[k] == x;
            if k < p {
                assert(before[k] == x);
            } else if k > p {
                assert(before[k - 1] == x);
            }
        }
        if before.contains(x) {
            let k = choose|k: int| 0 <= k < before.len() && before[k] == x;
            if k < p {
                assert(out@[k] == x);
            } else {
                assert(out@[k + 1] == x);
            }
        }
        if x == b {
            assert(out@[p as int] == b);
        }
    }
    assert forall|t: u64| #[trigger] has_tick(out@, t) <==> (has_tick(before, t) || t == b.tick) by {
        if has_tick(out@, t) {
            let k = choose|k: int| 0 <= k < out@.len() && (#[trigger] out@[k]).tick == t;
            if k < p {
                assert(before[k].tick == t);
            } else if k > p {
                assert(before[k - 1].tick == t);
            }
        }
        if has_tick(before, t) {
            let k = choose|k: int| 0 <= k < before.len() && (#[trigger] before[k]).tick == t;
            if k < p {
                assert(out@[k].tick == t);
            } else {
                assert(out@[k + 1].tick == t);
            }
        }
        if t == b.tick {
            assert(out@[p as int].tick == t);
        }
    }
    true
}

/// `ready` is `bps` made ready to render: strictly ascending ticks, holding
/// exactly the first point stored on each tick.
pub open spec fn prepared(bps: Seq<Breakpoint>, ready: Seq<Breakpoint>) -> bool {
    &&& ticks_ascending(ready)
    &&& forall|x: Breakpoint| #[trigger] ready.contains(x) ==> exists|i: int| first_at_tick(bps, i) && bps[i] == x
    &&& forall|i: int| #[trigger] first_at_tick(bps, i) ==> ready.contains(bps[i])
}

/// A curve's breakpoints made ready to render: sorted by tick, and of several
/// points on one tick only the first stored is kept.
pub fn prepare_breakpoints(bps: &Vec<Breakpoint>) -> (res: Vec<Breakpoint>)
    ensures
        ticks_ascending(res@),
        forall|x: Breakpoint| #[trigger] res@.contains(x) ==> exists|i: int| first_at_tick(bps@, i) && bps@[i] == x,
        forall|i: int| #[trigger] first_at_tick(bps@, i) ==> res@.contains(bps@[i]),
{
    let mut out: Vec<Breakpoint> = Vec::new();
    let mut idx: usize = 0;
    while idx < bps.len()
        invariant
            idx <= bps@.len(),
            ticks_ascending(out@),
            forall|x: Breakpoint| #[trigger] out@.contains(x) ==> exists|i: int|
                0 <= i < idx && first_at_tick(bps@, i) && bps@[i] == x,
            forall|i: int| 0 <= i < idx && #[trigger] first_at_tick(bps@, i) ==> out@.contains(bps@[i]),
            forall|i: int| #![trigger bps@[i]] 0 <= i < idx ==> has_tick(out@, bps@[i].tick),
        decreases bps@.len() - idx,
    {
        let b = bps[idx];
        let ghost before = out@;
        let placed = place_breakpoint(&mut out, b);
        proof {
            if placed {
                assert(first_at_tick(bps@, idx as int)) by {
                    assert forall|j: int| 0 <= j < idx implies bps@[j].tick != bps@[idx as int].tick by {
                        assert(has_tick(before, bps@[j].tick));
                    }
                }
            } else {
                let k = choose|k: int| 0 <= k < before.len() && (#[trigger] before[k]).tick == b.tick;
                assert(before.contains(before[k]));
                let i0 = choose|i: int| 0 <= i < idx && first_at_tick(bps@, i) && bps@[i] == before[k];
                assert(!first_at_tick(bps@, idx as int)) by {
                    assert(bps@[i0].tick == bps@[idx as int].tick);
                }
            }
            assert forall|i: int| #![trigger bps@[i]] 0 <= i < idx + 1 implies has_tick(out@, bps@[i].tick) by {
                if i < idx {
                    assert(has_tick(before, bps@[i].tick));
                }
            }
            assert forall|i: int| 0 <= i < idx + 1 && #[trigger] first_at_tick(bps@, i) implies out@.contains(bps@[i]) by {
                if i < idx {
                    assert(before.contains(bps@[i]));
                }
            }
            assert forall|x: Breakpoint| #[trigger] out@.contains(x) implies exists|i: int|
                0 <= i < idx + 1 && first_at_tick(bps@, i) && bps@[i] == x by {
                if before.contains(x) {
                    let i0 = choose|i: int| 0 <= i < idx && first_at_tick(bps@, i) && bps@[i] == x;
                } else {
                    assert(x == b);
                    assert(bps@[idx as int] == x);
                }
            }
        }
        idx = idx + 1;
    }
    out
}

/// Between the first and the last tick of a sorted curve some segment holds the tick.
pub proof fn lemma_bracket_exists(bps: Seq<Breakpoint>, tick: u64)
    requires
        sorted_by_tick(bps),
        bps.len() > 0,
        bps[0].tick <= tick < bps.last().tick,
    ensures
        exists|i: int| brackets(bps, i, tick),
    decreases bps.len(),
{
    let n = bps.len();
    if bps[n - 2].tick <= tick {
        assert(brackets(bps, n - 2, tick));
    } else {
        let d = bps.drop_last();
        lemma_bracket_exists(d, tick);
        let i = choose|i: int| brackets(d, i, tick);
        assert(brackets(bps, i, tick));
    }
}

/// Once a curve has a point it has a value everywhere: the first value is held
/// back to the song start and the last one held to the end.
pub proof fn law_value_held_outside_the_drawn_range(bps: Seq<Breakpoint>, tick: u64, forced: Option<Shape>)
    requires
        ticks_ascending(bps),
        bps.len() > 0,
    ensures
        tick <= bps[0].tick ==> point_at(bps, tick, forced) == CurvePoint::Value(bps[0].value),
        tick >= bps.last().tick ==> point_at(bps, tick, forced) == CurvePoint::Value(bps.last().value),
{
    if tick <= bps[0].tick && tick >= bps.last().tick && bps.len() > 1 {
        assert(bps[0].tick < bps[bps.len() - 1].tick);
    }
}

/// A `Hold` segment keeps the value of the point it starts from until the next
/// point.
pub proof fn law_hold_keeps_the_left_value(bps: Seq<Breakpoint>, i: int, tick: u64, forced: Option<Shape>)
    requires
        ticks_ascending(bps),
        brackets(bps, i, tick),
        shape_or(forced, bps[i + 1].shape) == Shape::Hold,
    ensures
        point_at(bps, tick, forced) == CurvePoint::Value(bps[i].value),
{
    assert(sorted_by_tick(bps));
    if tick <= bps[0].tick {
        if i > 0 {
            assert(bps[0].tick < bps[i].tick);
        }
    } else {
        assert(bps[i + 1].tick <= bps.last().tick);
        let j = choose|j: int| brackets(bps, j, tick);
        lemma_bracket_unique(bps, i, j, tick);
    }
}

/// A forced `Hold` never interpolates: every tick reads a settled value.
pub proof fn law_forced_hold_never_interpolates(bps: Seq<Breakpoint>, tick: u64)
    requires
        bps.len() > 0,
    ensures
        point_at(bps, tick, Some(Shape::Hold)) is Value,
{
}

/// A point inside a `Linear` or `Curve` segment lies within it: some ticks
/// into a segment of positive length, short of its end, so the fraction
/// `elapsed / span` is well defined and below one.
pub proof fn law_between_lies_inside_its_segment(bps: Seq<Breakpoint>, tick: u64, forced: Option<Shape>)
    requires
        sorted_by_tick(bps),
        bps.len() > 0,
    ensures
        point_at(bps, tick, forced) matches CurvePoint::Between { elapsed, span, shape, .. } ==> elapsed
            < span && shape != Shape::Hold,
{
    if bps[0].tick < tick && tick < bps.last().tick {
        lemma_bracket_exists(bps, tick);
    }
}

} // verus!
