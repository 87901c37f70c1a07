//! Parameter automation: piecewise-linear lanes that change values over time.
//! Clip lanes target grain parameters (evaluated per grain, so clouds morph as
//! they play); track lanes target the level fader.
use crate::calc::{Calc, Op, Width};
use crate::grain::{grain_set, GrainSettings};
use crate::num::{double, double_value, law_double_order_is_numeric, single, F32, F64};
use crate::rounding::apart;
use crate::rounding_double::{
    lemma_abs, lemma_at_least, lemma_at_most, lemma_difference, lemma_finite, reached, rounds_doubles,
};
use crate::text;
use vstd::prelude::*;

verus! {

#[derive(Clone, Copy, Debug, PartialEq)]
pub struct AutoPoint {
    /// Beats (relative to the clip start for clip lanes; absolute timeline
    /// beats for track lanes).
    pub beat: F64,
    pub value: F64,
}

/// Whether points stand in the order of their beats.
pub open spec fn in_order(points: Seq<AutoPoint>) -> bool {
    &&& forall|i: int| 0 <= i < points.len() ==> !(#[trigger] points[i]).beat.is_nan()
    &&& forall|i: int, j: int|
        0 <= i <= j < points.len() ==> (#[trigger] points[i]).beat.le((#[trigger] points[j]).beat)
}

/// The first point from `i` on at `beat`, within a billionth; the length when there is none.
pub open spec fn point_near<K: Fn(Op, Width, u64, u64) -> u64>(c: &Calc<K>, points: Seq<AutoPoint>, beat: F64, i: int) -> int
    decreases points.len() - i,
{
    if i >= points.len() || points[i].beat.sub(c, beat).abs().lt(double(0x3e11_2e0b_e826_d695)) {
        i
    } else {
        point_near(c, points, beat, i + 1)
    }
}

/// Where a new point at `beat` goes: after all that are not later.
pub open spec fn place_for(points: Seq<AutoPoint>, beat: F64, i: int) -> int
    decreases points.len() - i,
{
    if i >= points.len() || beat.lt(points[i].beat) {
        i
    } else {
        place_for(points, beat, i + 1)
    }
}

/// The points after one is inserted or replaced.
pub open spec fn with_point<K: Fn(Op, Width, u64, u64) -> u64>(c: &Calc<K>, points: Seq<AutoPoint>, beat: F64, value: F64) -> Seq<AutoPoint> {
    let i = point_near(c, points, beat, 0);
    if i < points.len() {
        points.update(i, AutoPoint { beat: points[i].beat, value })
    } else {
        points.insert(place_for(points, beat, 0), AutoPoint { beat, value })
    }
}

/// The value at `beat` on the line between two points.
#[verifier::allow_in_spec]
pub fn between<K: Fn(Op, Width, u64, u64) -> u64>(c: &Calc<K>, a: AutoPoint, b: AutoPoint, beat: F64) -> F64
    requires
        c.sound(),
    returns
        (a.value.add(
            c,
            b.value.sub(c, a.value).mul(
                c,
                beat.sub(c, a.beat).div(c, b.beat.sub(c, a.beat).max(double(0x3d71_9799_812d_ea11))),
            ),
        )),
{
    a.value.add(
        c,
        b.value.sub(c, a.value).mul(
            c,
            beat.sub(c, a.beat).div(c, b.beat.sub(c, a.beat).max(double(0x3d71_9799_812d_ea11))),
        ),
    )
}

/// The value at a beat between the points from `i` on.
pub open spec fn value_from<K: Fn(Op, Width, u64, u64) -> u64>(c: &Calc<K>, points: Seq<AutoPoint>, beat: F64, i: int) -> F64
    decreases points.len() - i,
{
    if i + 1 >= points.len() {
        points.last().value
    } else if points[i].beat.le(beat) && beat.le(points[i + 1].beat) {
        between(c, points[i], points[i + 1], beat)
    } else {
        value_from(c, points, beat, i + 1)
    }
}

/// The value of a lane at a beat: held before the first and after the last
/// point, on a line in between; none without points.
pub open spec fn lane_value<K: Fn(Op, Width, u64, u64) -> u64>(c: &Calc<K>, points: Seq<AutoPoint>, beat: F64) -> Option<F64> {
    if points.len() == 0 {
        None
    } else if beat.le(points[0].beat) {
        Some(points[0].value)
    } else if points.last().beat.le(beat) {
        Some(points.last().value)
    } else {
        Some(value_from(c, points, beat, 0))
    }
}

/// The value of a run of points at `beat`: linear between the points, the end values
/// outside them, `None` where there are none.
pub fn points_value_at<K: Fn(Op, Width, u64, u64) -> u64>(c: &Calc<K>, points: &Vec<AutoPoint>, beat: F64) -> (r: Option<F64>)
    requires
        c.sound(),
    ensures
        r == lane_value(c, points@, beat),
{
    let n: usize = points.len();
    if n == 0 {
        return None;
    }
    if beat.le(points[0].beat) {
        return Some(points[0].value);
    }
    if points[n - 1].beat.le(beat) {
        return Some(points[n - 1].value);
    }
    let mut i: usize = 0;
    while i + 1 < n
        invariant
            c.sound(),
            i < n,
            n == points.len(),
            value_from(c, points@, beat, 0) == value_from(c, points@, beat, i as int),
            lane_value(c, points@, beat) == Some(value_from(c, points@, beat, 0)),
        decreases n - i,
    {
        let a: AutoPoint = points[i];
        let b: AutoPoint = points[i + 1];
        if a.beat.le(beat) && beat.le(b.beat) {
            return Some(between(c, a, b, beat));
        }
        i += 1;
    }
    Some(points[n - 1].value)
}

/// A piecewise-linear automation curve for one named parameter.
#[derive(Debug, PartialEq)]
pub struct AutomationLane {
    pub param: String,
    /// Sorted by beat.
    pub points: Vec<AutoPoint>,
}

impl Default for AutomationLane {
    fn default() -> (r: AutomationLane)
        ensures
            r.wf(),
            r.param@ == ""@,
            r.points@ == Seq::<AutoPoint>::empty(),
    {
        AutomationLane::new("")
    }
}

impl Clone for AutomationLane {
    fn clone(&self) -> (r: AutomationLane)
        ensures
            r.param@ == self.param@,
            r.points@ == self.points@,
    {
        AutomationLane { param: self.param.clone(), points: self.points.clone() }
    }
}

impl AutomationLane {
    pub open spec fn wf(self) -> bool {
        in_order(self.points@)
    }

    pub fn new(param: &str) -> (r: AutomationLane)
        ensures
            r.wf(),
            r.param@ == param@,
            r.points@ == Seq::<AutoPoint>::empty(),
    {
        AutomationLane { param: param.to_owned(), points: Vec::new() }
    }

    /// Insert or replace a point, keeping the lane sorted.
    pub fn set_point<K: Fn(Op, Width, u64, u64) -> u64>(&mut self, c: &Calc<K>, beat: F64, value: F64)
        requires
            c.sound(),
            old(self).wf(),
            !beat.is_nan(),
        ensures
            final(self).wf(),
            final(self).param@ == old(self).param@,
            final(self).points@ == with_point(c, old(self).points@, beat, value),
    {
        let n: usize = self.points.len();
        let mut i: usize = 0;
        while i < n && !self.points[i].beat.sub(c, beat).abs().lt(double(0x3e11_2e0b_e826_d695))
            invariant
                c.sound(),
                i <= n,
                n == self.points@.len(),
                point_near(c, self.points@, beat, 0) == point_near(c, self.points@, beat, i as int),
            decreases n - i,
        {
            i += 1;
        }
        if i < n {
            let at: F64 = self.points[i].beat;
            self.points[i] = AutoPoint { beat: at, value };
            return;
        }
        let mut k: usize = 0;
        while k < n && !beat.lt(self.points[k].beat)
            invariant
                k <= n,
                n == self.points@.len(),
                place_for(self.points@, beat, 0) == place_for(self.points@, beat, k as int),
                forall|j: int| 0 <= j < k ==> !beat.lt((#[trigger] self.points@[j]).beat),
            decreases n - k,
        {
            k += 1;
        }
        let ghost before = self.points@;
        self.points.insert(k, AutoPoint { beat, value });
        assert forall|a: int, b: int| 0 <= a <= b < self.points@.len() implies (
        #[trigger] self.points@[a]).beat.le((#[trigger] self.points@[b]).beat) by {
            let pa = if a < k {
                a
            } else {
                a - 1
            };
            let pb = if b < k {
                b
            } else {
                b - 1
            };
            if a != k && b != k {
                assert(before[pa].beat.le(before[pb].beat));
            } else if a == k && b > k {
                assert(before[k as int].beat.le(before[pb].beat));
            } else if b == k && a < k {
                assert(!beat.lt(before[a].beat));
            }
        }
    }

    /// Linear interpolation; clamps to the end values outside the range. `None`
    /// when the lane is empty.
    pub fn value_at<K: Fn(Op, Width, u64, u64) -> u64>(&self, c: &Calc<K>, beat: F64) -> (r: Option<F64>)
        requires
            c.sound(),
        ensures
            r == lane_value(c, self.points@, beat),
    {
        points_value_at(c, &self.points, beat)
    }
}

/// A lane keeps its first value before its first point and its last value
/// after its last one.
pub proof fn law_lanes_hold_their_ends<K: Fn(Op, Width, u64, u64) -> u64>(c: &Calc<K>, points: Seq<AutoPoint>, beat: F64)
    requires
        in_order(points),
        points.len() > 0,
    ensures
        beat.le(points[0].beat) ==> lane_value(c, points, beat) == Some(points[0].value),
        points.last().beat.le(beat) && !beat.le(points[0].beat) ==> lane_value(c, points, beat)
            == Some(points.last().value),
        lane_value(c, points, points[0].beat) == Some(points[0].value),
{
}

/// Setting a point twice at one beat leaves one point there: the second value
/// replaces the first where the beat's distance from itself is below a billionth.
pub proof fn law_points_are_replaced<K: Fn(Op, Width, u64, u64) -> u64>(c: &Calc<K>, points: Seq<AutoPoint>, beat: F64, v: F64, w: F64)
    requires
        beat.sub(c, beat).abs().lt(double(0x3e11_2e0b_e826_d695)),
    ensures
        with_point(c, with_point(c, points, beat, v), beat, w).len() == with_point(
            c,
            points,
            beat,
            v,
        ).len(),
{
    let once = with_point(c, points, beat, v);
    lemma_point_near(c, points, beat, 0);
    lemma_place_for(points, beat, 0);
    let i = point_near(c, points, beat, 0);
    let k = if i < points.len() {
        i
    } else {
        place_for(points, beat, 0)
    };
    assert(once[k].beat.sub(c, beat).abs().lt(double(0x3e11_2e0b_e826_d695)));
    lemma_point_near_finds(c, once, beat, 0, k);
    lemma_point_near(c, once, beat, 0);
}

proof fn lemma_point_near<K: Fn(Op, Width, u64, u64) -> u64>(c: &Calc<K>, points: Seq<AutoPoint>, beat: F64, i: int)
    requires
        0 <= i <= points.len(),
    ensures
        i <= point_near(c, points, beat, i) <= points.len(),
        point_near(c, points, beat, i) < points.len() ==> points[point_near(
            c,
            points,
            beat,
            i,
        )].beat.sub(c, beat).abs().lt(double(0x3e11_2e0b_e826_d695)),
    decreases points.len() - i,
{
    if i < points.len() && !points[i].beat.sub(c, beat).abs().lt(double(0x3e11_2e0b_e826_d695)) {
        lemma_point_near(c, points, beat, i + 1);
    }
}

proof fn lemma_point_near_finds<K: Fn(Op, Width, u64, u64) -> u64>(c: &Calc<K>, points: Seq<AutoPoint>, beat: F64, i: int, k: int)
    requires
        0 <= i <= k < points.len(),
        points[k].beat.sub(c, beat).abs().lt(double(0x3e11_2e0b_e826_d695)),
    ensures
        point_near(c, points, beat, i) <= k,
    decreases k - i,
{
    if i < k && !points[i].beat.sub(c, beat).abs().lt(double(0x3e11_2e0b_e826_d695)) {
        lemma_point_near_finds(c, points, beat, i + 1, k);
    }
}

proof fn lemma_place_for(points: Seq<AutoPoint>, beat: F64, i: int)
    requires
        0 <= i <= points.len(),
    ensures
        i <= place_for(points, beat, i) <= points.len(),
    decreases points.len() - i,
{
    if i < points.len() && !beat.lt(points[i].beat) {
        lemma_place_for(points, beat, i + 1);
    }
}

proof fn lemma_place_is_between(points: Seq<AutoPoint>, beat: F64, i: int)
    requires
        0 <= i <= points.len(),
        forall|j: int| 0 <= j < i ==> !beat.lt((#[trigger] points[j]).beat),
    ensures
        forall|j: int|
            0 <= j < place_for(points, beat, i) ==> !beat.lt((#[trigger] points[j]).beat),
        place_for(points, beat, i) < points.len() ==> beat.lt(
            points[place_for(points, beat, i)].beat,
        ),
    decreases points.len() - i,
{
    if i < points.len() && !beat.lt(points[i].beat) {
        lemma_place_is_between(points, beat, i + 1);
    }
}

/// Whether a point lies within a billionth of a beat.
pub open spec fn near<K: Fn(Op, Width, u64, u64) -> u64>(c: &Calc<K>, p: AutoPoint, beat: F64) -> bool {
    p.beat.sub(c, beat).abs().lt(double(0x3e11_2e0b_e826_d695))
}

/// Setting a point keeps the lane in order and changes nothing else: where a point lies
/// within a billionth of the beat, and no other one does, only its value changes; where
/// none does, the lane gains just the new point.
pub proof fn law_points_change_alone<K: Fn(Op, Width, u64, u64) -> u64>(c: &Calc<K>, points: Seq<AutoPoint>, beat: F64, value: F64)
    requires
        in_order(points),
        !beat.is_nan(),
        forall|i: int, j: int|
            0 <= i < points.len() && 0 <= j < points.len() && near(c, #[trigger] points[i], beat)
                && near(c, #[trigger] points[j], beat) ==> i == j,
    ensures
        ({
            let after = with_point(c, points, beat, value);
            &&& in_order(after)
            &&& forall|i: int|
                0 <= i < points.len() && near(c, #[trigger] points[i], beat) ==> after
                    == points.update(i, AutoPoint { beat: points[i].beat, value })
            &&& (forall|i: int| 0 <= i < points.len() ==> !near(c, #[trigger] points[i], beat)) ==> {
                &&& after.to_multiset() == points.to_multiset().insert(AutoPoint { beat, value })
                &&& exists|k: int|
                    0 <= k <= points.len() && after == #[trigger] points.insert(
                        k,
                        AutoPoint { beat, value },
                    )
            }
        }),
{
    let after = with_point(c, points, beat, value);
    let n = point_near(c, points, beat, 0);
    lemma_point_near(c, points, beat, 0);
    lemma_place_for(points, beat, 0);
    lemma_place_is_between(points, beat, 0);
    if n < points.len() {
        assert(near(c, points[n], beat));
    } else {
        let k = place_for(points, beat, 0);
        let new = AutoPoint { beat, value };
        assert(after == points.insert(k, new));
        assert forall|a: int, b: int| 0 <= a <= b < after.len() implies (
        #[trigger] after[a]).beat.le((#[trigger] after[b]).beat) by {
            let pa = if a < k {
                a
            } else {
                a - 1
            };
            let pb = if b < k {
                b
            } else {
                b - 1
            };
            if a != k && b != k {
                assert(points[pa].beat.le(points[pb].beat));
            } else if a == k && b > k {
                assert(points[k].beat.le(points[pb].beat));
            } else if b == k && a < k {
                assert(!beat.lt(points[a].beat));
            }
        }
        assert forall|i: int| 0 <= i < points.len() && near(c, #[trigger] points[i], beat) implies after
            == points.update(i, AutoPoint { beat: points[i].beat, value }) by {
            lemma_point_near_finds(c, points, beat, 0, i);
        }
        broadcast use vstd::seq_lib::group_to_multiset_ensures;
        assert(after.remove(k) =~= points);
        assert(after[k] == new);
        assert(after.contains(new));
        assert(after.to_multiset().count(new) > 0);
        assert(after.to_multiset() =~= points.to_multiset().insert(new));
    }
}

/// Of points that lie at least two billionths apart, no two lie within a billionth of one
/// beat.
pub proof fn law_points_apart_are_told_apart<K: Fn(Op, Width, u64, u64) -> u64>(c: &Calc<K>, p: AutoPoint, q: AutoPoint, beat: F64)
    requires
        rounds_doubles(c),
        p.beat.finite(),
        q.beat.finite(),
        beat.finite(),
        apart(p.beat.value(), q.beat.value()) >= 2 * double(0x3e11_2e0b_e826_d695).value(),
    ensures
        !(near(c, p, beat) && near(c, q, beat)),
{
    let edge = double(0x3e11_2e0b_e826_d695);
    assert(double_value(0) == 0);
    law_double_order_is_numeric(double(0), edge);
    lemma_near(c, p, beat);
    lemma_near(c, q, beat);
}

proof fn lemma_near<K: Fn(Op, Width, u64, u64) -> u64>(c: &Calc<K>, p: AutoPoint, beat: F64)
    requires
        rounds_doubles(c),
        p.beat.finite(),
        beat.finite(),
    ensures
        near(c, p, beat) ==> apart(p.beat.value(), beat.value()) < double(
            0x3e11_2e0b_e826_d695,
        ).value(),
{
    let edge = double(0x3e11_2e0b_e826_d695);
    let (e, d) = (p.beat.value() - beat.value(), p.beat.sub(c, beat));
    lemma_difference(c, p.beat, beat);
    if reached(e, 1) {
        lemma_finite(d, e, 1);
        lemma_abs(d);
        law_double_order_is_numeric(edge, d.abs());
        let less = double(0xbe11_2e0b_e826_d695);
        assert(less.value() == -edge.value());
        if e >= edge.value() {
            lemma_at_least(d, e, 1, edge);
        }
        if e <= less.value() {
            lemma_at_most(d, e, 1, less);
        }
    }
}

/// Settings with a run of lanes applied at `beat`, in order; lanes without
/// points and unknown parameters change nothing.
pub open spec fn settings_with<K: Fn(Op, Width, u64, u64) -> u64>(c: &Calc<K>, base: GrainSettings, lanes: Seq<AutomationLane>, beat: F64) -> GrainSettings
    decreases lanes.len(),
{
    if lanes.len() == 0 {
        base
    } else {
        let eff = settings_with(c, base, lanes.drop_last(), beat);
        let lane = lanes.last();
        match lane_value(c, lane.points@, beat) {
            Some(v) => match grain_set(c, eff, lane.param@, v) {
                Some(g) => g,
                None => eff,
            },
            None => eff,
        }
    }
}

/// Apply every lane's value at `beat` onto a copy of `base`.
pub fn settings_at<K: Fn(Op, Width, u64, u64) -> u64>(c: &Calc<K>, base: &GrainSettings, lanes: &Vec<AutomationLane>, beat: F64) -> (r: GrainSettings)
    requires
        c.sound(),
    ensures
        r == settings_with(c, *base, lanes@, beat),
{
    let mut eff: GrainSettings = *base;
    let mut i: usize = 0;
    while i < lanes.len()
        invariant
            c.sound(),
            i <= lanes@.len(),
            eff == settings_with(c, *base, lanes@.take(i as int), beat),
        decreases lanes.len() - i,
    {
        assert(lanes@.take(i + 1).drop_last() =~= lanes@.take(i as int));
        if let Some(v) = lanes[i].value_at(c, beat) {
            let _r: Result<(), ()> = eff.set_param(c, lanes[i].param.as_str(), v);
        }
        i += 1;
    }
    assert(lanes@.take(i as int) =~= lanes@);
    eff
}

/// The range of an automatable parameter.
pub open spec fn range_of(name: Seq<char>) -> Option<(F32, F32)> {
    if name == "density"@ {
        Some((single(0x3f00_0000), single(0x42f0_0000)))
    } else if name == "duration"@ {
        Some((single(0x3ba3_d70a), single(0x3f80_0000)))
    } else if name == "duration_jitter"@ {
        Some((single(0x0000_0000), single(0x3f80_0000)))
    } else if name == "position"@ {
        Some((single(0x0000_0000), single(0x3f80_0000)))
    } else if name == "spray"@ {
        Some((single(0x0000_0000), single(0x4040_0000)))
    } else if name == "scan_speed"@ {
        Some((single(0xc000_0000), single(0x4080_0000)))
    } else if name == "pitch"@ {
        Some((single(0xc1c0_0000), single(0x41c0_0000)))
    } else if name == "pitch_jitter"@ {
        Some((single(0x0000_0000), single(0x41c0_0000)))
    } else if name == "gain"@ {
        Some((single(0x0000_0000), single(0x4000_0000)))
    } else if name == "pan"@ {
        Some((single(0xbf80_0000), single(0x3f80_0000)))
    } else if name == "pan_spread"@ {
        Some((single(0x0000_0000), single(0x3f80_0000)))
    } else if name == "envelope"@ {
        Some((single(0x3c23_d70a), single(0x3f80_0000)))
    } else if name == "reverse_prob"@ {
        Some((single(0x0000_0000), single(0x3f80_0000)))
    } else {
        None
    }
}

/// Display/edit range for an automatable grain parameter (also the set of names
/// the UI offers). `None` for unknown names.
pub fn param_range(name: &str) -> (r: Option<(F32, F32)>)
    ensures
        r == range_of(name@),
{
    let n: Vec<char> = text::chars_of(name);
    if text::spells(&n, "density") {
        Some((single(0x3f00_0000), single(0x42f0_0000)))
    } else if text::spells(&n, "duration") {
        Some((single(0x3ba3_d70a), single(0x3f80_0000)))
    } else if text::spells(&n, "duration_jitter") {
        Some((single(0x0000_0000), single(0x3f80_0000)))
    } else if text::spells(&n, "position") {
        Some((single(0x0000_0000), single(0x3f80_0000)))
    } else if text::spells(&n, "spray") {
        Some((single(0x0000_0000), single(0x4040_0000)))
    } else if text::spells(&n, "scan_speed") {
        Some((single(0xc000_0000), single(0x4080_0000)))
    } else if text::spells(&n, "pitch") {
        Some((single(0xc1c0_0000), single(0x41c0_0000)))
    } else if text::spells(&n, "pitch_jitter") {
        Some((single(0x0000_0000), single(0x41c0_0000)))
    } else if text::spells(&n, "gain") {
        Some((single(0x0000_0000), single(0x4000_0000)))
    } else if text::spells(&n, "pan") {
        Some((single(0xbf80_0000), single(0x3f80_0000)))
    } else if text::spells(&n, "pan_spread") {
        Some((single(0x0000_0000), single(0x3f80_0000)))
    } else if text::spells(&n, "envelope") {
        Some((single(0x3c23_d70a), single(0x3f80_0000)))
    } else if text::spells(&n, "reverse_prob") {
        Some((single(0x0000_0000), single(0x3f80_0000)))
    } else {
        None
    }
}

/// The parameters offered by automation UIs, in menu order.
pub open spec fn automatable_names() -> Seq<Seq<char>> {
    seq!["density"@, "duration"@, "duration_jitter"@, "position"@, "spray"@, "scan_speed"@, "pitch"@, "pitch_jitter"@, "gain"@, "pan"@, "pan_spread"@, "envelope"@, "reverse_prob"@]
}

/// The parameters offered by automation UIs, in menu order.
pub fn automatable() -> (r: Vec<&'static str>)
    ensures
        r@.len() == automatable_names().len(),
        forall|i: int| 0 <= i < r@.len() ==> (#[trigger] r@[i])@ == automatable_names()[i],
{
    vec!["density", "duration", "duration_jitter", "position", "spray", "scan_speed", "pitch", "pitch_jitter", "gain", "pan", "pan_spread", "envelope", "reverse_prob"]
}

/// Every parameter on offer has a range.
pub proof fn law_automatable_parameters_have_ranges(i: int)
    requires
        0 <= i < automatable_names().len(),
    ensures
        range_of(automatable_names()[i]) is Some,
{
}

} // verus!
