//! Rendering an Automation Lane's curve into the values it sends.
//!
//! A curve is rendered in three steps: `curve_samples` lists where the curve is
//! read (the first value at the song start, one step at the next point of a
//! `Hold` segment, `Linear`/`Curve` segments every `min_step` ticks);
//! `thin_steps` settles each read value on the target (snapped to a discrete
//! value set, or clamped into the declared range) and keeps only changes;
//! `with_resends` repeats a standing value so a dropped message cannot strand
//! the device.

use crate::definition::{distance, is_nearest, label_values, snap_to, strictly_ascending, Target};
use crate::project::{
    brackets, curve_value_at, point_at, shape_or, sorted_by_tick, Breakpoint, CurvePoint, Shape,
};
use vstd::prelude::*;

verus! {

/// The tick after `t` at which a segment ending at `end` is read next.
pub open spec fn next_sample_tick(t: u64, step: u64, end: u64) -> u64 {
    if step >= end - t {
        end
    } else {
        (t + step) as u64
    }
}

/// Readings of a `Linear`/`Curve` segment after tick `t` up to and including `end`.
pub open spec fn ramp(bps: Seq<Breakpoint>, t: u64, end: u64, step: u64, forced: Option<Shape>) -> Seq<(u64, CurvePoint)>
    decreases end - t,
{
    if t < end && step > 0 {
        let n = next_sample_tick(t, step, end);
        seq![(n, point_at(bps, n, forced))] + ramp(bps, n, end, step, forced)
    } else {
        seq![]
    }
}

/// Readings of the segment from breakpoint `k` to breakpoint `k + 1`.
pub open spec fn pair_samples(bps: Seq<Breakpoint>, k: int, step: u64, forced: Option<Shape>) -> Seq<(u64, CurvePoint)> {
    let a = bps[k];
    let b = bps[k + 1];
    if b.tick <= a.tick {
        seq![]
    } else if shape_or(forced, b.shape) == Shape::Hold {
        seq![(b.tick, CurvePoint::Value(b.value))]
    } else {
        ramp(bps, a.tick, b.tick, step, forced)
    }
}

/// Readings of the first `n` segments.
pub open spec fn samples_through(bps: Seq<Breakpoint>, n: nat, step: u64, forced: Option<Shape>) -> Seq<(u64, CurvePoint)>
    decreases n,
{
    if n == 0 {
        seq![]
    } else {
        samples_through(bps, (n - 1) as nat, step, forced) + pair_samples(bps, n - 1, step, forced)
    }
}

/// Every reading of a curve: its first value at the song start, then each segment.
pub open spec fn curve_samples_of(bps: Seq<Breakpoint>, step: u64, forced: Option<Shape>) -> Seq<(u64, CurvePoint)> {
    if bps.len() == 0 {
        seq![]
    } else {
        seq![(0u64, CurvePoint::Value(bps[0].value))] + samples_through(
            bps,
            (bps.len() - 1) as nat,
            step,
            forced,
        )
    }
}

/// Where a curve is read, and what stands there. `min_step` is the spacing of
/// readings along `Linear`/`Curve` segments, in ticks.
pub fn curve_samples(bps: &Vec<Breakpoint>, forced: Option<Shape>, min_step: u64) -> (res: Vec<
    (u64, CurvePoint),
>)
    requires
        sorted_by_tick(bps@),
        min_step > 0,
    ensures
        res@ == curve_samples_of(bps@, min_step, forced),
{
    let n = bps.len();
    let mut out: Vec<(u64, CurvePoint)> = Vec::new();
    if n == 0 {
        return out;
    }
    out.push((0, CurvePoint::Value(bps[0].value)));
    let mut k: usize = 0;
    while k + 1 < n
        invariant
            n == bps@.len(),
            n > 0,
            k + 1 <= n,
            sorted_by_tick(bps@),
            min_step > 0,
            out@ == seq![(0u64, CurvePoint::Value(bps@[0].value))] + samples_through(
                bps@,
                k as nat,
                min_step,
                forced,
            ),
        decreases n - k,
    {
        let a = bps[k];
        let b = bps[k + 1];
        let ghost before = out@;
        if b.tick > a.tick {
            let shape = match forced {
                Some(f) => f,
                None => b.shape,
            };
            if shape == Shape::Hold {
                out.push((b.tick, CurvePoint::Value(b.value)));
            } else {
                let mut t = a.tick;
                while t < b.tick
                    invariant
                        a.tick <= t <= b.tick,
                        sorted_by_tick(bps@),
                        min_step > 0,
                        n == bps@.len(),
                        n > 0,
                        before + ramp(bps@, a.tick, b.tick, min_step, forced) == out@ + ramp(
                            bps@,
                            t,
                            b.tick,
                            min_step,
                            forced,
                        ),
                    decreases b.tick - t,
                {
                    let next = if min_step >= b.tick - t {
                        b.tick
                    } else {
                        t + min_step
                    };
                    let p = curve_value_at(bps, next, forced);
                    let p = match p {
                        Some(p) => p,
                        None => CurvePoint::Value(b.value),
                    };
                    let ghost prev = out@;
                    out.push((next, p));
                    assert(prev + ramp(bps@, t, b.tick, min_step, forced) =~= out@ + ramp(
                        bps@,
                        next,
                        b.tick,
                        min_step,
                        forced,
                    ));
                    t = next;
                }
                assert(out@ =~= before + ramp(bps@, a.tick, b.tick, min_step, forced));
            }
        }
        assert(samples_through(bps@, (k + 1) as nat, min_step, forced) =~= samples_through(
            bps@,
            k as nat,
            min_step,
            forced,
        ) + pair_samples(bps@, k as int, min_step, forced));
        assert(out@ =~= seq![(0u64, CurvePoint::Value(bps@[0].value))] + samples_through(
            bps@,
            (k + 1) as nat,
            min_step,
            forced,
        ));
        k = k + 1;
    }
    out
}

pub open spec fn clamp_spec(t: Target, v: u8) -> u8 {
    if t.min <= t.max {
        if v < t.min {
            t.min
        } else if v > t.max {
            t.max
        } else {
            v
        }
    } else {
        v
    }
}

/// The step value of a stepped target nearest to `v` (lower on a tie).
pub open spec fn snapped(t: Target, v: u8) -> u8 {
    choose|s: u8| is_nearest(label_values(t.children@), v, s)
}

/// What a raw curve value becomes on a target: snapped onto its discrete value
/// set, or clamped into its declared range.
pub open spec fn settle(t: Target, v: u8) -> u8 {
    if label_values(t.children@).len() > 0 {
        snapped(t, v)
    } else {
        clamp_spec(t, v)
    }
}

/// Readings settled on the target, a reading dropped when it repeats the value
/// last kept (`last`).
pub open spec fn thin_from(t: Target, raw: Seq<(u64, u8)>, last: Option<u8>) -> Seq<(u64, u8)>
    decreases raw.len(),
{
    if raw.len() == 0 {
        seq![]
    } else {
        let v = settle(t, raw[0].1);
        if last == Some(v) {
            thin_from(t, raw.drop_first(), last)
        } else {
            seq![(raw[0].0, v)] + thin_from(t, raw.drop_first(), Some(v))
        }
    }
}

/// The nearest member is unique.
pub proof fn lemma_nearest_unique(values: Seq<u8>, v: u8, s1: u8, s2: u8)
    requires
        is_nearest(values, v, s1),
        is_nearest(values, v, s2),
    ensures
        s1 == s2,
{
    assert(values.contains(s2));
    assert(values.contains(s1));
}

/// Keeps a value inside the target's declared range (a definition with
/// min > max is left alone).
pub fn clamp_to_target(target: &Target, value: u8) -> (res: u8)
    ensures
        res == clamp_spec(*target, value),
{
    if target.min <= target.max {
        if value < target.min {
            target.min
        } else if value > target.max {
            target.max
        } else {
            value
        }
    } else {
        value
    }
}

/// Settles raw readings on the target and keeps only the changes.
pub fn thin_steps(target: &Target, raw: &Vec<(u64, u8)>) -> (res: Vec<(u64, u8)>)
    ensures
        res@ == thin_from(*target, raw@, None),
{
    let steps = target.step_values();
    let stepped = steps.len() > 0;
    proof {
        if label_values(target.children@).len() > 0 {
            assert(steps@.contains(label_values(target.children@)[0]));
        }
        if steps@.len() > 0 {
            assert(steps@.contains(steps@[0]));
            assert(label_values(target.children@).contains(steps@[0]));
        }
    }
    let mut out: Vec<(u64, u8)> = Vec::new();
    let mut last: Option<u8> = None;
    let mut i: usize = 0;
    assert(raw@.skip(0) =~= raw@);
    while i < raw.len()
        invariant
            i <= raw@.len(),
            stepped == (label_values(target.children@).len() > 0),
            stepped == (steps@.len() > 0),
            strictly_ascending(steps@),
            forall|v: u8| steps@.contains(v) <==> label_values(target.children@).contains(v),
            out@ + thin_from(*target, raw@.skip(i as int), last) == thin_from(
                *target,
                raw@,
                None,
            ),
        decreases raw@.len() - i,
    {
        let (tick, r) = raw[i];
        let v = if stepped {
            let s = snap_to(&steps, r);
            proof {
                assert forall|x: u8| steps@.contains(x) <==> label_values(target.children@).contains(x) by {}
                assert(is_nearest(label_values(target.children@), r, s)) by {
                    assert(label_values(target.children@).contains(s));
                }
                lemma_nearest_unique(label_values(target.children@), r, s, snapped(*target, r));
            }
            s
        } else {
            clamp_to_target(target, r)
        };
        assert(raw@.skip(i as int)[0] == raw@[i as int]);
        assert(raw@.skip(i as int).drop_first() =~= raw@.skip(i + 1));
        assert(v == settle(*target, r));
        if last != Some(v) {
            let ghost prev = out@;
            out.push((tick, v));
            assert(prev + thin_from(*target, raw@.skip(i as int), last) =~= out@ + thin_from(
                *target,
                raw@.skip(i + 1),
                Some(v),
            ));
            last = Some(v);
        }
        i = i + 1;
    }
    assert(out@ + seq![] =~= out@);
    out
}

pub open spec fn sat_add(a: u64, b: u64) -> u64 {
    if a + b > u64::MAX {
        u64::MAX
    } else {
        (a + b) as u64
    }
}

/// Copies of `value` every `every` ticks from `t`, before `next`.
pub open spec fn repeats(t: u64, value: u8, every: u64, next: u64) -> Seq<(u64, u8)>
    decreases (if t < next {
        next - t
    } else {
        0
    }),
{
    if t < next && every > 0 {
        seq![(t, value)] + repeats(sat_add(t, every), value, every, next)
    } else {
        seq![]
    }
}

/// The messages with the standing value repeated every `every` ticks until the
/// next message, the last one until `song_end`.
pub open spec fn resends_of(msgs: Seq<(u64, u8)>, every: u64, song_end: u64) -> Seq<(u64, u8)>
    decreases msgs.len(),
{
    if msgs.len() == 0 {
        seq![]
    } else {
        let (tick, value) = msgs[0];
        let next = if msgs.len() > 1 {
            msgs[1].0
        } else {
            song_end
        };
        seq![(tick, value)] + repeats(sat_add(tick, every), value, every, next) + resends_of(
            msgs.drop_first(),
            every,
            song_end,
        )
    }
}

/// Repeats the standing value whenever `every` ticks pass without a message, so a
/// dropped CC cannot leave the device stuck on the wrong value. The value itself
/// never changes: these are duplicates, not extra curve detail.
pub fn with_resends(msgs: &Vec<(u64, u8)>, every: u64, song_end: u64) -> (res: Vec<(u64, u8)>)
    requires
        every > 0,
    ensures
        res@ == resends_of(msgs@, every, song_end),
{
    let mut out: Vec<(u64, u8)> = Vec::new();
    let n = msgs.len();
    let mut i: usize = 0;
    assert(msgs@.skip(0) =~= msgs@);
    while i < n
        invariant
            n == msgs@.len(),
            i <= n,
            every > 0,
            out@ + resends_of(msgs@.skip(i as int), every, song_end) == resends_of(
                msgs@,
                every,
                song_end,
            ),
        decreases n - i,
    {
        let (tick, value) = msgs[i];
        let next = if i + 1 < n {
            msgs[i + 1].0
        } else {
            song_end
        };
        let ghost rest = msgs@.skip(i as int);
        assert(rest[0] == msgs@[i as int]);
        assert(rest.drop_first() =~= msgs@.skip(i + 1));
        assert(rest.len() > 1 ==> rest[1] == msgs@[i + 1]);
        let ghost start = out@;
        out.push((tick, value));
        let mut t = tick.saturating_add(every);
        while t < next
            invariant
                every > 0,
                start.push((tick, value)) + repeats(sat_add(tick, every), value, every, next)
                    == out@ + repeats(t, value, every, next),
            decreases (if t < next {
                next - t
            } else {
                0
            }),
        {
            let ghost prev = out@;
            out.push((t, value));
            assert(prev + repeats(t, value, every, next) =~= out@ + repeats(
                sat_add(t, every),
                value,
                every,
                next,
            ));
            t = t.saturating_add(every);
        }
        assert(out@ =~= start.push((tick, value)) + repeats(sat_add(tick, every), value, every, next));
        assert(start + resends_of(rest, every, song_end) =~= out@ + resends_of(
            msgs@.skip(i + 1),
            every,
            song_end,
        ));
        i = i + 1;
    }
    assert(out@ + seq![] =~= out@);
    out
}

/// A non-empty list has a member nearest to any value.
pub proof fn lemma_nearest_exists(values: Seq<u8>, v: u8)
    requires
        values.len() > 0,
    ensures
        exists|s: u8| is_nearest(values, v, s),
    decreases values.len(),
{
    if values.len() == 1 {
        let s = values[0];
        assert(values.contains(s));
        assert forall|t: u8| values.contains(t) implies (distance(v, s) < distance(v, t) || (
        distance(v, s) == distance(v, t) && s <= t)) by {
            let k = choose|k: int| 0 <= k < values.len() && values[k] == t;
            assert(k == 0);
        }
        assert(is_nearest(values, v, s));
    } else {
        let d = values.drop_last();
        lemma_nearest_exists(d, v);
        let s = choose|s: u8| is_nearest(d, v, s);
        let x = values.last();
        let best = if distance(v, x) < distance(v, s) || (distance(v, x) == distance(v, s) && x
            < s) {
            x
        } else {
            s
        };
        assert(d.contains(s));
        let ks = choose|k: int| 0 <= k < d.len() && d[k] == s;
        assert(values[ks] == s);
        assert(values[values.len() - 1] == x);
        assert(values.contains(best));
        assert forall|t: u8| values.contains(t) implies (distance(v, best) < distance(v, t) || (
        distance(v, best) == distance(v, t) && best <= t)) by {
            let k = choose|k: int| 0 <= k < values.len() && values[k] == t;
            if k < values.len() - 1 {
                assert(d[k] == t);
                assert(d.contains(t));
            }
        }
        assert(is_nearest(values, v, best));
    }
}

/// What a curve sends stays on its target: a stepped target only ever gets the
/// member of its discrete value set nearest to the curve (the lower on a tie),
/// and a continuous one a value inside its declared range, the curve's own
/// value where that lies inside.
pub proof fn law_settle_on_target(t: Target, v: u8)
    ensures
        label_values(t.children@).len() > 0 ==> is_nearest(label_values(t.children@), v, settle(t, v)),
        label_values(t.children@).len() > 0 ==> label_values(t.children@).contains(settle(t, v)),
        label_values(t.children@).len() == 0 && t.min <= t.max ==> t.min <= settle(t, v) <= t.max,
        label_values(t.children@).len() == 0 && t.min <= v <= t.max ==> settle(t, v) == v,
{
    if label_values(t.children@).len() > 0 {
        lemma_nearest_exists(label_values(t.children@), v);
    }
}

proof fn lemma_thin(t: Target, raw: Seq<(u64, u8)>, last: Option<u8>)
    ensures
        thin_from(t, raw, last).len() > 0 ==> last != Some(thin_from(t, raw, last)[0].1),
        forall|k: int|
            0 <= k < thin_from(t, raw, last).len() - 1 ==> #[trigger] thin_from(t, raw, last)[k].1
                != thin_from(t, raw, last)[k + 1].1,
        forall|k: int|
            0 <= k < thin_from(t, raw, last).len() ==> exists|i: int|
                0 <= i < raw.len() && #[trigger] thin_from(t, raw, last)[k] == (
                    raw[i].0,
                    settle(t, raw[i].1),
                ),
        raw.len() > 0 && last != Some(settle(t, raw[0].1)) ==> thin_from(t, raw, last).len() > 0
            && thin_from(t, raw, last)[0] == (raw[0].0, settle(t, raw[0].1)),
    decreases raw.len(),
{
    if raw.len() > 0 {
        let v = settle(t, raw[0].1);
        let rest = raw.drop_first();
        let out = thin_from(t, raw, last);
        if last == Some(v) {
            lemma_thin(t, rest, last);
            assert forall|k: int| 0 <= k < out.len() implies exists|i: int|
                0 <= i < raw.len() && #[trigger] out[k] == (raw[i].0, settle(t, raw[i].1)) by {
                let i = choose|i: int| 0 <= i < rest.len() && thin_from(t, rest, last)[k] == (rest[i].0, settle(t, rest[i].1));
                assert(raw[i + 1] == rest[i]);
            }
        } else {
            lemma_thin(t, rest, Some(v));
            let tail = thin_from(t, rest, Some(v));
            assert(out == seq![(raw[0].0, v)] + tail);
            assert forall|k: int| 0 <= k < out.len() - 1 implies #[trigger] out[k].1 != out[k + 1].1 by {
                if k > 0 {
                    assert(out[k] == tail[k - 1]);
                    assert(out[k + 1] == tail[k]);
                }
            }
            assert forall|k: int| 0 <= k < out.len() implies exists|i: int|
                0 <= i < raw.len() && #[trigger] out[k] == (raw[i].0, settle(t, raw[i].1)) by {
                if k == 0 {
                    assert(out[0] == (raw[0].0, settle(t, raw[0].1)));
                } else {
                    assert(out[k] == tail[k - 1]);
                    let i = choose|i: int| 0 <= i < rest.len() && tail[k - 1] == (rest[i].0, settle(t, rest[i].1));
                    assert(raw[i + 1] == rest[i]);
                }
            }
        }
    }
}

/// Thinning keeps only changes: consecutive values sent differ, each one is a
/// reading settled on the target at that reading's tick, and the first reading
/// always goes out.
pub proof fn law_thin_keeps_changes(t: Target, raw: Seq<(u64, u8)>)
    ensures
        forall|k: int|
            0 <= k < thin_from(t, raw, None).len() - 1 ==> #[trigger] thin_from(t, raw, None)[k].1
                != thin_from(t, raw, None)[k + 1].1,
        forall|k: int|
            0 <= k < thin_from(t, raw, None).len() ==> exists|i: int|
                0 <= i < raw.len() && #[trigger] thin_from(t, raw, None)[k] == (
                    raw[i].0,
                    settle(t, raw[i].1),
                ),
        raw.len() > 0 ==> thin_from(t, raw, None).len() > 0 && thin_from(t, raw, None)[0] == (
            raw[0].0,
            settle(t, raw[0].1),
        ),
{
    lemma_thin(t, raw, None);
}

proof fn lemma_ramp(bps: Seq<Breakpoint>, t: u64, end: u64, step: u64, forced: Option<Shape>)
    ensures
        forall|k: int|
            0 <= k < ramp(bps, t, end, step, forced).len() ==> t < (
            #[trigger] ramp(bps, t, end, step, forced)[k]).0 <= end,
    decreases end - t,
{
    if t < end && step > 0 {
        let n = next_sample_tick(t, step, end);
        lemma_ramp(bps, n, end, step, forced);
        let r = ramp(bps, t, end, step, forced);
        assert forall|k: int| 0 <= k < r.len() implies t < (#[trigger] r[k]).0 <= end by {
            if k > 0 {
                assert(r[k] == ramp(bps, n, end, step, forced)[k - 1]);
            }
        }
    }
}

proof fn lemma_samples_through_within(bps: Seq<Breakpoint>, n: nat, step: u64, forced: Option<Shape>)
    requires
        sorted_by_tick(bps),
        n < bps.len(),
    ensures
        forall|k: int|
            0 <= k < samples_through(bps, n, step, forced).len() ==> (
            #[trigger] samples_through(bps, n, step, forced)[k]).0 <= bps[n as int].tick,
    decreases n,
{
    if n > 0 {
        let m = (n - 1) as nat;
        lemma_samples_through_within(bps, m, step, forced);
        let a = bps[m as int];
        let b = bps[n as int];
        lemma_ramp(bps, a.tick, b.tick, step, forced);
        let head = samples_through(bps, m, step, forced);
        let tail = pair_samples(bps, m as int, step, forced);
        let all = samples_through(bps, n, step, forced);
        assert(all == head + tail);
        assert forall|k: int| 0 <= k < all.len() implies (#[trigger] all[k]).0 <= bps[n as int].tick by {
            if k < head.len() {
                assert(all[k] == head[k]);
                assert(bps[m as int].tick <= bps[n as int].tick);
            } else {
                assert(all[k] == tail[k - head.len()]);
            }
        }
    }
}

/// Nothing is read after the last breakpoint, and the first reading stands at
/// the song start with the first breakpoint's value.
pub proof fn law_samples_within_curve(bps: Seq<Breakpoint>, step: u64, forced: Option<Shape>)
    requires
        sorted_by_tick(bps),
        bps.len() > 0,
    ensures
        curve_samples_of(bps, step, forced).len() > 0,
        curve_samples_of(bps, step, forced)[0] == (0u64, CurvePoint::Value(bps[0].value)),
        forall|k: int|
            0 <= k < curve_samples_of(bps, step, forced).len() ==> (#[trigger] curve_samples_of(
                bps,
                step,
                forced,
            )[k]).0 <= bps.last().tick,
{
    let n = (bps.len() - 1) as nat;
    lemma_samples_through_within(bps, n, step, forced);
    let all = curve_samples_of(bps, step, forced);
    let rest = samples_through(bps, n, step, forced);
    assert forall|k: int| 0 <= k < all.len() implies (#[trigger] all[k]).0 <= bps.last().tick by {
        if k > 0 {
            assert(all[k] == rest[k - 1]);
        }
    }
}

proof fn lemma_held_samples(bps: Seq<Breakpoint>, n: nat, step: u64)
    requires
        n < bps.len(),
    ensures
        forall|k: int|
            0 <= k < samples_through(bps, n, step, Some(Shape::Hold)).len() ==> exists|j: int|
                0 <= j < bps.len() && (#[trigger] samples_through(bps, n, step, Some(Shape::Hold))[k]).1
                    == CurvePoint::Value(bps[j].value),
    decreases n,
{
    if n > 0 {
        let m = (n - 1) as nat;
        lemma_held_samples(bps, m, step);
        let head = samples_through(bps, m, step, Some(Shape::Hold));
        let tail = pair_samples(bps, m as int, step, Some(Shape::Hold));
        let all = samples_through(bps, n, step, Some(Shape::Hold));
        assert(all == head + tail);
        assert forall|k: int| 0 <= k < all.len() implies exists|j: int|
            0 <= j < bps.len() && (#[trigger] all[k]).1 == CurvePoint::Value(bps[j].value) by {
            if k < head.len() {
                assert(all[k] == head[k]);
            } else {
                assert(all[k] == tail[k - head.len()]);
                assert(all[k].1 == CurvePoint::Value(bps[n as int].value));
            }
        }
    }
}

/// A curve held on every segment (a discrete target, or a definition that
/// allows only `Hold`) never interpolates: every reading is the value of one of
/// its breakpoints.
pub proof fn law_forced_hold_reads_breakpoint_values(bps: Seq<Breakpoint>, step: u64)
    requires
        bps.len() > 0,
    ensures
        forall|k: int|
            0 <= k < curve_samples_of(bps, step, Some(Shape::Hold)).len() ==> exists|j: int|
                0 <= j < bps.len() && (#[trigger] curve_samples_of(bps, step, Some(Shape::Hold))[k]).1
                    == CurvePoint::Value(bps[j].value),
{
    let n = (bps.len() - 1) as nat;
    lemma_held_samples(bps, n, step);
    let all = curve_samples_of(bps, step, Some(Shape::Hold));
    let rest = samples_through(bps, n, step, Some(Shape::Hold));
    assert forall|k: int| 0 <= k < all.len() implies exists|j: int|
        0 <= j < bps.len() && (#[trigger] all[k]).1 == CurvePoint::Value(bps[j].value) by {
        if k > 0 {
            assert(all[k] == rest[k - 1]);
        } else {
            assert(all[0].1 == CurvePoint::Value(bps[0].value));
        }
    }
}

proof fn lemma_repeats(t: u64, value: u8, every: u64, next: u64)
    requires
        every > 0,
    ensures
        forall|k: int|
            0 <= k < repeats(t, value, every, next).len() ==> (#[trigger] repeats(t, value, every, next)[k]).1
                == value && t <= repeats(t, value, every, next)[k].0 < next,
        repeats(t, value, every, next).len() > 0 ==> repeats(t, value, every, next)[0].0 == t,
        forall|k: int|
            0 < k < repeats(t, value, every, next).len() ==> (#[trigger] repeats(t, value, every, next)[k]).0
                == repeats(t, value, every, next)[k - 1].0 + every,
        repeats(t, value, every, next).len() == 0 ==> t >= next,
        repeats(t, value, every, next).len() > 0 ==> repeats(t, value, every, next).last().0 + every >= next,
    decreases (if t < next {
        next - t
    } else {
        0
    }),
{
    if t < next {
        let n = sat_add(t, every);
        lemma_repeats(n, value, every, next);
        let r = repeats(t, value, every, next);
        let rest = repeats(n, value, every, next);
        assert(r == seq![(t, value)] + rest);
        assert forall|k: int| 0 <= k < r.len() implies (#[trigger] r[k]).1 == value && t <= r[k].0 < next by {
            if k > 0 {
                assert(r[k] == rest[k - 1]);
            }
        }
        assert forall|k: int| 0 < k < r.len() implies (#[trigger] r[k]).0 == r[k - 1].0 + every by {
            assert(r[k] == rest[k - 1]);
            if k > 1 {
                assert(r[k - 1] == rest[k - 2]);
                assert(rest[k - 1].0 == rest[k - 2].0 + every);
            } else {
                assert(rest[0].0 == n);
                assert(n < next);
            }
        }
        if rest.len() > 0 {
            assert(r.last() == rest.last());
        }
    }
}

/// The gap between consecutive messages, at most `every`.
pub open spec fn gaps_at_most(out: Seq<(u64, u8)>, every: u64) -> bool {
    forall|j: int| 0 < j < out.len() ==> (#[trigger] out[j]).0 <= out[j - 1].0 + every
}

/// Each message repeats the value of one of `msgs` sent no later.
pub open spec fn repeats_sent_values(out: Seq<(u64, u8)>, msgs: Seq<(u64, u8)>) -> bool {
    forall|j: int|
        0 <= j < out.len() ==> exists|i: int|
            0 <= i < msgs.len() && msgs[i].1 == (#[trigger] out[j]).1 && msgs[i].0 <= out[j].0
}

/// The facts `repeats` gives about the copies of the first message.
pub open spec fn copies_of(reps: Seq<(u64, u8)>, first: (u64, u8), start: u64, every: u64, next: u64) -> bool {
    &&& forall|k: int|
        0 <= k < reps.len() ==> (#[trigger] reps[k]).1 == first.1 && start <= reps[k].0 < next
    &&& reps.len() > 0 ==> reps[0].0 == start
    &&& forall|k: int| 0 < k < reps.len() ==> (#[trigger] reps[k]).0 == reps[k - 1].0 + every
    &&& reps.len() == 0 ==> start >= next
    &&& reps.len() > 0 ==> reps.last().0 + every >= next
    &&& first.0 <= start <= first.0 + every
}

proof fn lemma_step_values(msgs: Seq<(u64, u8)>, reps: Seq<(u64, u8)>, tail: Seq<(u64, u8)>, start: u64, every: u64, next: u64)
    requires
        msgs.len() > 0,
        copies_of(reps, msgs[0], start, every, next),
        repeats_sent_values(tail, msgs.drop_first()),
    ensures
        repeats_sent_values(seq![msgs[0]] + reps + tail, msgs),
{
    let head = seq![msgs[0]] + reps;
    let out = head + tail;
    let rest = msgs.drop_first();
    assert forall|j: int| 0 <= j < out.len() implies exists|i: int|
        0 <= i < msgs.len() && msgs[i].1 == (#[trigger] out[j]).1 && msgs[i].0 <= out[j].0 by {
        if j == 0 {
            assert(msgs[0] == out[0]);
        } else if j < head.len() {
            assert(out[j] == reps[j - 1]);
            assert(msgs[0].1 == out[j].1 && msgs[0].0 <= start);
        } else {
            let jt = j - head.len();
            assert(out[j] == tail[jt]);
            let i = choose|i: int|
                0 <= i < rest.len() && rest[i].1 == (#[trigger] tail[jt]).1 && rest[i].0 <= tail[jt].0;
            assert(msgs[i + 1] == rest[i]);
        }
    }
}

proof fn lemma_step_gaps(msgs: Seq<(u64, u8)>, reps: Seq<(u64, u8)>, tail: Seq<(u64, u8)>, start: u64, every: u64, next: u64)
    requires
        msgs.len() > 0,
        copies_of(reps, msgs[0], start, every, next),
        gaps_at_most(tail, every),
        tail.len() > 0 ==> msgs.len() > 1 && tail[0] == msgs[1] && next == msgs[1].0,
    ensures
        gaps_at_most(seq![msgs[0]] + reps + tail, every),
{
    let head = seq![msgs[0]] + reps;
    let out = head + tail;
    assert forall|j: int| 0 < j < out.len() implies (#[trigger] out[j]).0 <= out[j - 1].0 + every by {
        if j < head.len() {
            assert(out[j] == reps[j - 1]);
            if j == 1 {
                assert(reps[0].0 == start);
            } else {
                assert(out[j - 1] == reps[j - 2]);
            }
        } else if j == head.len() {
            assert(out[j] == tail[0]);
            if reps.len() == 0 {
                assert(out[j - 1] == msgs[0]);
            } else {
                assert(out[j - 1] == reps.last());
            }
        } else {
            let jt = j - head.len();
            assert(out[j] == tail[jt]);
            assert(out[j - 1] == tail[jt - 1]);
        }
    }
}

proof fn lemma_step_contains(msgs: Seq<(u64, u8)>, reps: Seq<(u64, u8)>, tail: Seq<(u64, u8)>)
    requires
        msgs.len() > 0,
        forall|i: int| 0 <= i < msgs.len() - 1 ==> tail.contains(#[trigger] msgs.drop_first()[i]),
    ensures
        forall|i: int| 0 <= i < msgs.len() ==> (seq![msgs[0]] + reps + tail).contains(#[trigger] msgs[i]),
{
    let head = seq![msgs[0]] + reps;
    let out = head + tail;
    assert forall|i: int| 0 <= i < msgs.len() implies out.contains(#[trigger] msgs[i]) by {
        if i == 0 {
            assert(out[0] == msgs[0]);
        } else {
            assert(msgs[i] == msgs.drop_first()[i - 1]);
            assert(tail.contains(msgs.drop_first()[i - 1]));
            let k = choose|k: int| 0 <= k < tail.len() && tail[k] == msgs[i];
            assert(out[head.len() + k] == tail[k]);
        }
    }
}

proof fn lemma_resends(msgs: Seq<(u64, u8)>, every: u64, song_end: u64)
    requires
        every > 0,
    ensures
        resends_of(msgs, every, song_end).len() >= msgs.len(),
        msgs.len() > 0 ==> resends_of(msgs, every, song_end)[0] == msgs[0],
        forall|i: int| 0 <= i < msgs.len() ==> resends_of(msgs, every, song_end).contains(#[trigger] msgs[i]),
        repeats_sent_values(resends_of(msgs, every, song_end), msgs),
        gaps_at_most(resends_of(msgs, every, song_end), every),
    decreases msgs.len(),
{
    if msgs.len() > 0 {
        let (tick, value) = msgs[0];
        let next = if msgs.len() > 1 {
            msgs[1].0
        } else {
            song_end
        };
        let rest = msgs.drop_first();
        let start = sat_add(tick, every);
        lemma_repeats(start, value, every, next);
        lemma_resends(rest, every, song_end);
        let reps = repeats(start, value, every, next);
        let tail = resends_of(rest, every, song_end);
        assert(resends_of(msgs, every, song_end) == seq![msgs[0]] + reps + tail);
        assert(copies_of(reps, msgs[0], start, every, next));
        lemma_step_values(msgs, reps, tail, start, every, next);
        lemma_step_gaps(msgs, reps, tail, start, every, next);
        lemma_step_contains(msgs, reps, tail);
    }
}

/// Re-sending never changes the curve: every message survives, every added
/// message repeats the value of a message sent before it, and no two
/// consecutive messages lie more than `every` ticks apart.
pub proof fn law_resends_only_repeat(msgs: Seq<(u64, u8)>, every: u64, song_end: u64)
    requires
        every > 0,
    ensures
        resends_of(msgs, every, song_end).len() >= msgs.len(),
        forall|i: int| 0 <= i < msgs.len() ==> resends_of(msgs, every, song_end).contains(#[trigger] msgs[i]),
        repeats_sent_values(resends_of(msgs, every, song_end), msgs),
        gaps_at_most(resends_of(msgs, every, song_end), every),
{
    lemma_resends(msgs, every, song_end);
}

} // verus!
