//! One trail layer: a pair of rotors, the trail they trace, and its colour.

use crate::constants::{
    ITERATIONS_PER_FRAME, MARKER_RADIUS, OVERLAY_LINE_WIDTH, WINDOW_HEIGHT, WINDOW_WIDTH,
};
use crate::draw::{DisplayList, DrawOp};
use crate::math::GeometryError;
use std::collections::VecDeque;
use vstd::prelude::*;

verus! {

/// A pair of rotors with the part of their trail that is not drawn yet.
///
/// `R` is the rotor type and `S` the scalar type of a coordinate. The buffer
/// holds the trail's points oldest first.
pub struct RotorRenderer<R, S> {
    rotors: (R, R),
    points: VecDeque<(S, S)>,
    color: String,
    iterations: usize,
}

/// What a [`RotorRenderer`] holds, as mathematical values.
pub struct RendererView<R, S> {
    /// The two rotors in their current state.
    pub rotors: (R, R),
    /// The buffered trail, oldest point first.
    pub points: Seq<(S, S)>,
    /// The stroke colour.
    pub color: Seq<char>,
    /// The number of points sampled per frame.
    pub iterations: nat,
}

impl<R, S> View for RotorRenderer<R, S> {
    type V = RendererView<R, S>;

    closed spec fn view(&self) -> RendererView<R, S> {
        RendererView {
            rotors: self.rotors,
            points: self.points@,
            color: self.color@,
            iterations: self.iterations as nat,
        }
    }
}

impl<R, S> RendererView<R, S> {
    /// The renderer after its trail has been drawn: only the newest point
    /// stays, as the anchor from which the next stroke starts.
    pub open spec fn anchored(self) -> RendererView<R, S> {
        RendererView { points: seq![self.points.last()], ..self }
    }

    /// The trail can be drawn: it holds a start and an end.
    pub open spec fn ready(self) -> bool {
        self.points.len() >= 2
    }
}

/// What the overlay shows of one rotor.
#[derive(Debug, PartialEq)]
pub struct Pose<S> {
    /// The centre of the rotor's rim.
    pub center: (S, S),
    /// The radius of the rotor's rim.
    pub radius: S,
    /// The rotor's point on the rim.
    pub point: (S, S),
}

/// What one overlay shows of a rotor pair.
#[derive(Debug, PartialEq)]
pub struct Sighting<S> {
    /// The first rotor.
    pub a: Pose<S>,
    /// The second rotor.
    pub b: Pose<S>,
    /// The crossing point of the two arms that the trail follows.
    pub chosen: (S, S),
}

/// The operations that stroke a trail in one connected line: from its
/// oldest point through every point in order to its newest.
pub open spec fn polyline_ops<S>(color: Seq<char>, path: Seq<(S, S)>) -> Seq<
    DrawOp<S, Seq<char>>,
>
    recommends
        path.len() >= 2,
{
    seq![DrawOp::SetStrokeStyle(color), DrawOp::BeginPath, DrawOp::MoveTo(path[0].0, path[0].1)]
        + path.skip(1).map_values(|p: (S, S)| DrawOp::LineTo(p.0, p.1)) + seq![DrawOp::Stroke]
}

/// The operations that draw the construction of one rotor pair: a cleared
/// layer, both rims, both rotor points, the two arms that meet at the chosen
/// crossing point, and a mark at that point.
pub open spec fn overlay_ops<S>(sighting: Sighting<S>) -> Seq<DrawOp<S, Seq<char>>> {
    let a = sighting.a;
    let b = sighting.b;
    let chosen = sighting.chosen;
    seq![
        DrawOp::ClearRect { width: WINDOW_WIDTH, height: WINDOW_HEIGHT },
        DrawOp::SetStrokeStyle("#ff000055"@),
        DrawOp::SetLineWidth(OVERLAY_LINE_WIDTH),
        DrawOp::SetFillStyle("#000000"@),
        DrawOp::BeginPath,
        DrawOp::Circle { x: a.center.0, y: a.center.1, radius: a.radius },
        DrawOp::Stroke,
        DrawOp::BeginPath,
        DrawOp::Circle { x: b.center.0, y: b.center.1, radius: b.radius },
        DrawOp::Stroke,
        DrawOp::SetStrokeStyle("#ff0000"@),
        DrawOp::BeginPath,
        DrawOp::Marker { x: a.point.0, y: a.point.1, size: MARKER_RADIUS },
        DrawOp::Stroke,
        DrawOp::BeginPath,
        DrawOp::Marker { x: b.point.0, y: b.point.1, size: MARKER_RADIUS },
        DrawOp::Stroke,
        DrawOp::SetStrokeStyle("#ff000055"@),
        DrawOp::BeginPath,
        DrawOp::MoveTo(a.point.0, a.point.1),
        DrawOp::LineTo(chosen.0, chosen.1),
        DrawOp::LineTo(b.point.0, b.point.1),
        DrawOp::Stroke,
        DrawOp::SetStrokeStyle("#ff0000"@),
        DrawOp::BeginPath,
        DrawOp::Marker { x: chosen.0, y: chosen.1, size: MARKER_RADIUS },
        DrawOp::Stroke,
    ]
}

/// `point` is the second of the two crossing points that `intersect` can
/// return for this pair of rotors: the one the trail follows.
pub open spec fn sampled<R, S, F>(intersect: F, rotors: (R, R), point: (S, S)) -> bool where
    F: Fn(R, R) -> Result<((S, S), (S, S)), GeometryError>,
 {
    exists|candidates: ((S, S), (S, S))|
        #[trigger] call_ensures(
            intersect,
            (rotors.0, rotors.1),
            Ok::<((S, S), (S, S)), GeometryError>(candidates),
        ) && candidates.1 == point
}

/// `intersect` can fail with `error` for this pair of rotors.
pub open spec fn unsolvable<R, S, F>(intersect: F, rotors: (R, R), error: GeometryError) -> bool where
    F: Fn(R, R) -> Result<((S, S), (S, S)), GeometryError>,
 {
    call_ensures(
        intersect,
        (rotors.0, rotors.1),
        Err::<((S, S), (S, S)), GeometryError>(error),
    )
}

/// `after` is `before` with each rotor advanced once.
pub open spec fn advanced<R, A>(advance: A, before: (R, R), after: (R, R)) -> bool where
    A: Fn(R) -> R,
 {
    &&& call_ensures(advance, (before.0,), after.0)
    &&& call_ensures(advance, (before.1,), after.1)
}

/// `states` and `fresh` describe consecutive simulation steps: step `i`
/// samples `fresh[i]` from the rotors in `states[i]`, and only then advances
/// both of them, which gives `states[i + 1]`.
pub open spec fn is_run<R, S, F, A>(
    intersect: F,
    advance: A,
    states: Seq<(R, R)>,
    fresh: Seq<(S, S)>,
) -> bool where F: Fn(R, R) -> Result<((S, S), (S, S)), GeometryError>, A: Fn(R) -> R {
    &&& states.len() == fresh.len() + 1
    &&& forall|i: int|
        #![trigger fresh[i]]
        0 <= i < fresh.len() ==> sampled(intersect, states[i], fresh[i]) && advanced(
            advance,
            states[i],
            states[i + 1],
        )
}

/// `sighting` is what an overlay can show of this pair of rotors: each
/// rotor as `observe` returns it, and the crossing point that the trail
/// follows.
pub open spec fn sighted<R, S, V, F>(
    observe: V,
    intersect: F,
    rotors: (R, R),
    sighting: Sighting<S>,
) -> bool where V: Fn(R) -> Pose<S>, F: Fn(R, R) -> Result<((S, S), (S, S)), GeometryError> {
    &&& call_ensures(observe, (rotors.0,), sighting.a)
    &&& call_ensures(observe, (rotors.1,), sighting.b)
    &&& sampled(intersect, rotors, sighting.chosen)
}

/// `after` is `before` after one compute phase that ended with `outcome`.
///
/// The phase runs simulation steps from the rotors of `before` and appends
/// each sampled point to the back of the trail. It completes after
/// `before.iterations` steps. It stops early, at rotors for which `intersect`
/// fails, with what the earlier steps have appended.
pub open spec fn computed<R, S, F, A>(
    intersect: F,
    advance: A,
    before: RendererView<R, S>,
    after: RendererView<R, S>,
    outcome: Result<(), GeometryError>,
) -> bool where F: Fn(R, R) -> Result<((S, S), (S, S)), GeometryError>, A: Fn(R) -> R {
    &&& after.color == before.color
    &&& after.iterations == before.iterations
    &&& exists|states: Seq<(R, R)>, fresh: Seq<(S, S)>|
        {
            &&& #[trigger] is_run(intersect, advance, states, fresh)
            &&& states.first() == before.rotors
            &&& states.last() == after.rotors
            &&& after.points == before.points + fresh
            &&& match outcome {
                Ok(()) => fresh.len() == before.iterations,
                Err(error) => fresh.len() < before.iterations && unsolvable::<R, S, F>(
                    intersect,
                    after.rotors,
                    error,
                ),
            }
        }
}

/// A compute phase only appends: the points that were buffered stay where
/// they are. A phase that completes appends exactly `iterations` points, a
/// phase that fails appends fewer.
pub proof fn lemma_compute_appends<R, S, F, A>(
    intersect: F,
    advance: A,
    before: RendererView<R, S>,
    after: RendererView<R, S>,
    outcome: Result<(), GeometryError>,
) where F: Fn(R, R) -> Result<((S, S), (S, S)), GeometryError>, A: Fn(R) -> R
    requires
        computed(intersect, advance, before, after, outcome),
    ensures
        after.points.take(before.points.len() as int) == before.points,
        outcome is Ok ==> after.points.len() == before.points.len() + before.iterations,
        outcome is Err ==> before.points.len() <= after.points.len() < before.points.len()
            + before.iterations,
{
    let (states, fresh) = choose|states: Seq<(R, R)>, fresh: Seq<(S, S)>|
        {
            &&& #[trigger] is_run(intersect, advance, states, fresh)
            &&& states.first() == before.rotors
            &&& states.last() == after.rotors
            &&& after.points == before.points + fresh
            &&& match outcome {
                Ok(()) => fresh.len() == before.iterations,
                Err(error) => fresh.len() < before.iterations && unsolvable::<R, S, F>(
                    intersect,
                    after.rotors,
                    error,
                ),
            }
        };
    assert(after.points.take(before.points.len() as int) =~= before.points);
}

/// After a frame whose refill completed, the trail holds the anchor, which
/// is the newest point of the stroke just drawn, and `iterations` new
/// points: the next stroke starts where the last one ended.
pub proof fn lemma_refill_restores_trail<R, S, F, A>(
    intersect: F,
    advance: A,
    before: RendererView<R, S>,
    after: RendererView<R, S>,
) where F: Fn(R, R) -> Result<((S, S), (S, S)), GeometryError>, A: Fn(R) -> R
    requires
        before.ready(),
        computed(intersect, advance, before.anchored(), after, Ok(())),
    ensures
        after.points.len() == before.iterations + 1,
        after.points[0] == before.points.last(),
        before.iterations >= 1 ==> after.ready(),
{
    lemma_compute_appends(intersect, advance, before.anchored(), after, Ok(()));
}

/// Over a run every rotor is advanced once per sampled point, whatever
/// `advance` does. So a quantity that one step raises by `step` stands,
/// after the run, at its start value plus `step` times the number of points.
pub proof fn lemma_run_is_linear<R, S, F, A>(
    intersect: F,
    advance: A,
    states: Seq<(R, R)>,
    fresh: Seq<(S, S)>,
    measure: spec_fn(R) -> int,
    step: int,
) where F: Fn(R, R) -> Result<((S, S), (S, S)), GeometryError>, A: Fn(R) -> R
    requires
        is_run(intersect, advance, states, fresh),
        forall|before: R, after: R| #[trigger]
            call_ensures(advance, (before,), after) ==> measure(after) == measure(before) + step,
    ensures
        measure(states.last().0) == measure(states.first().0) + fresh.len() * step,
        measure(states.last().1) == measure(states.first().1) + fresh.len() * step,
    decreases fresh.len(),
{
    let count = fresh.len() as int;
    if count == 0 {
        assert(count * step == 0) by (nonlinear_arith)
            requires
                count == 0,
        ;
    } else {
        let shorter = fresh.drop_last();
        let earlier = states.drop_last();
        assert forall|i: int| 0 <= i < shorter.len() implies sampled(
            intersect,
            earlier[i],
            #[trigger] shorter[i],
        ) && advanced(advance, earlier[i], earlier[i + 1]) by {
        }
        lemma_run_is_linear(intersect, advance, earlier, shorter, measure, step);
        let last = count - 1;
        assert(sampled(intersect, states[last], fresh[last]) && advanced(
            advance,
            states[last],
            states[last + 1],
        ));
        assert(count * step == (count - 1) * step + step) by (nonlinear_arith);
    }
}

/// The kinematics are functions: for given rotors `intersect` has one
/// result and `advance` has one result.
pub open spec fn single_valued<R, S, F, A>(intersect: F, advance: A) -> bool where
    F: Fn(R, R) -> Result<((S, S), (S, S)), GeometryError>,
    A: Fn(R) -> R,
 {
    &&& forall|
        a: R,
        b: R,
        x: Result<((S, S), (S, S)), GeometryError>,
        y: Result<((S, S), (S, S)), GeometryError>,
    |
        #![trigger call_ensures(intersect, (a, b), x), call_ensures(intersect, (a, b), y)]
        call_ensures(intersect, (a, b), x) && call_ensures(intersect, (a, b), y) ==> x == y
    &&& forall|r: R, x: R, y: R|
        #![trigger call_ensures(advance, (r,), x), call_ensures(advance, (r,), y)]
        call_ensures(advance, (r,), x) && call_ensures(advance, (r,), y) ==> x == y
}

/// Two runs of single-valued kinematics from the same rotors agree as far
/// as both go.
proof fn lemma_runs_agree<R, S, F, A>(
    intersect: F,
    advance: A,
    states: Seq<(R, R)>,
    fresh: Seq<(S, S)>,
    other_states: Seq<(R, R)>,
    other_fresh: Seq<(S, S)>,
    upto: int,
) where F: Fn(R, R) -> Result<((S, S), (S, S)), GeometryError>, A: Fn(R) -> R
    requires
        single_valued(intersect, advance),
        is_run(intersect, advance, states, fresh),
        is_run(intersect, advance, other_states, other_fresh),
        states.first() == other_states.first(),
        0 <= upto <= fresh.len(),
        upto <= other_fresh.len(),
    ensures
        states[upto] == other_states[upto],
        forall|i: int| 0 <= i < upto ==> fresh[i] == other_fresh[i],
    decreases upto,
{
    if upto > 0 {
        let i = upto - 1;
        lemma_runs_agree(intersect, advance, states, fresh, other_states, other_fresh, i);
        assert(sampled(intersect, states[i], fresh[i]) && advanced(
            advance,
            states[i],
            states[i + 1],
        ));
        assert(sampled(intersect, other_states[i], other_fresh[i]) && advanced(
            advance,
            other_states[i],
            other_states[i + 1],
        ));
    }
}

/// With single-valued kinematics a compute phase has one result: the
/// state from which it starts fixes the state in which it ends, whether it
/// completes, and the error with which it fails.
pub proof fn lemma_compute_is_determined<R, S, F, A>(
    intersect: F,
    advance: A,
    before: RendererView<R, S>,
    after: RendererView<R, S>,
    outcome: Result<(), GeometryError>,
    other_after: RendererView<R, S>,
    other_outcome: Result<(), GeometryError>,
) where F: Fn(R, R) -> Result<((S, S), (S, S)), GeometryError>, A: Fn(R) -> R
    requires
        single_valued(intersect, advance),
        computed(intersect, advance, before, after, outcome),
        computed(intersect, advance, before, other_after, other_outcome),
    ensures
        after == other_after,
        outcome is Ok <==> other_outcome is Ok,
        outcome is Err ==> outcome->Err_0 == other_outcome->Err_0,
{
    let (states, fresh) = choose|states: Seq<(R, R)>, fresh: Seq<(S, S)>|
        {
            &&& #[trigger] is_run(intersect, advance, states, fresh)
            &&& states.first() == before.rotors
            &&& states.last() == after.rotors
            &&& after.points == before.points + fresh
            &&& match outcome {
                Ok(()) => fresh.len() == before.iterations,
                Err(error) => fresh.len() < before.iterations && unsolvable::<R, S, F>(
                    intersect,
                    after.rotors,
                    error,
                ),
            }
        };
    let (other_states, other_fresh) = choose|states: Seq<(R, R)>, fresh: Seq<(S, S)>|
        {
            &&& #[trigger] is_run(intersect, advance, states, fresh)
            &&& states.first() == before.rotors
            &&& states.last() == other_after.rotors
            &&& other_after.points == before.points + fresh
            &&& match other_outcome {
                Ok(()) => fresh.len() == before.iterations,
                Err(error) => fresh.len() < before.iterations && unsolvable::<R, S, F>(
                    intersect,
                    other_after.rotors,
                    error,
                ),
            }
        };
    let shared = if fresh.len() <= other_fresh.len() {
        fresh.len() as int
    } else {
        other_fresh.len() as int
    };
    lemma_runs_agree(intersect, advance, states, fresh, other_states, other_fresh, shared);
    // A run that goes on past `shared` samples a point from the rotors at
    // which the other run has stopped, so that one has not failed there.
    if shared < fresh.len() {
        assert(sampled(intersect, states[shared], fresh[shared]));
    }
    if shared < other_fresh.len() {
        assert(sampled(intersect, other_states[shared], other_fresh[shared]));
    }
    assert(fresh =~= other_fresh);
}

/// Records the overlay of one sighting: a cleared layer, both rims, both
/// rotor points, the two arms from the rotor points to the crossing point,
/// and a mark at the crossing point.
pub fn record_overlay<S: Copy>(ctx: &mut DisplayList<S>, sighting: &Sighting<S>)
    ensures
        final(ctx)@ == old(ctx)@ + overlay_ops(*sighting),
{
    let a = &sighting.a;
    let b = &sighting.b;
    let chosen = sighting.chosen;

    ctx.record(DrawOp::ClearRect { width: WINDOW_WIDTH, height: WINDOW_HEIGHT });

    ctx.record(DrawOp::SetStrokeStyle("#ff000055".to_owned()));
    ctx.record(DrawOp::SetLineWidth(OVERLAY_LINE_WIDTH));
    ctx.record(DrawOp::SetFillStyle("#000000".to_owned()));
    ctx.record(DrawOp::BeginPath);
    ctx.record(DrawOp::Circle { x: a.center.0, y: a.center.1, radius: a.radius });
    ctx.record(DrawOp::Stroke);
    ctx.record(DrawOp::BeginPath);
    ctx.record(DrawOp::Circle { x: b.center.0, y: b.center.1, radius: b.radius });
    ctx.record(DrawOp::Stroke);

    ctx.record(DrawOp::SetStrokeStyle("#ff0000".to_owned()));
    ctx.record(DrawOp::BeginPath);
    ctx.record(DrawOp::Marker { x: a.point.0, y: a.point.1, size: MARKER_RADIUS });
    ctx.record(DrawOp::Stroke);
    ctx.record(DrawOp::BeginPath);
    ctx.record(DrawOp::Marker { x: b.point.0, y: b.point.1, size: MARKER_RADIUS });
    ctx.record(DrawOp::Stroke);

    ctx.record(DrawOp::SetStrokeStyle("#ff000055".to_owned()));
    ctx.record(DrawOp::BeginPath);
    ctx.record(DrawOp::MoveTo(a.point.0, a.point.1));
    ctx.record(DrawOp::LineTo(chosen.0, chosen.1));
    ctx.record(DrawOp::LineTo(b.point.0, b.point.1));
    ctx.record(DrawOp::Stroke);

    ctx.record(DrawOp::SetStrokeStyle("#ff0000".to_owned()));
    ctx.record(DrawOp::BeginPath);
    ctx.record(DrawOp::Marker { x: chosen.0, y: chosen.1, size: MARKER_RADIUS });
    ctx.record(DrawOp::Stroke);
}

impl<R: Copy, S: Copy> RotorRenderer<R, S> {
    /// The renderer that `new` builds: an empty trail and the default budget
    /// of `ITERATIONS_PER_FRAME` points per frame.
    pub open spec fn fresh(rotors: (R, R), color: Seq<char>) -> RendererView<R, S> {
        RendererView {
            rotors,
            points: Seq::empty(),
            color,
            iterations: ITERATIONS_PER_FRAME as nat,
        }
    }

    /// A renderer with an empty trail and the default budget of
    /// `ITERATIONS_PER_FRAME` points per frame.
    pub fn new(a: R, b: R, color: String) -> (renderer: Self)
        ensures
            renderer@ == Self::fresh((a, b), color@),
    {
        RotorRenderer {
            rotors: (a, b),
            points: VecDeque::new(),
            color,
            iterations: ITERATIONS_PER_FRAME,
        }
    }

    /// A renderer with an empty trail that samples `iterations` points per
    /// frame.
    pub fn with_iterations(a: R, b: R, color: String, iterations: usize) -> (renderer: Self)
        ensures
            renderer@ == (RendererView {
                rotors: (a, b),
                points: Seq::<(S, S)>::empty(),
                color: color@,
                iterations: iterations as nat,
            }),
    {
        RotorRenderer { rotors: (a, b), points: VecDeque::new(), color, iterations }
    }

    /// The two rotors in their current state.
    pub fn rotors(&self) -> (rotors: (R, R))
        ensures
            rotors == self@.rotors,
    {
        self.rotors
    }

    /// The number of buffered trail points.
    pub fn len(&self) -> (n: usize)
        ensures
            n == self@.points.len(),
    {
        self.points.len()
    }

    /// A copy of the buffered trail, oldest point first.
    pub fn points(&self) -> (points: Vec<(S, S)>)
        ensures
            points@ == self@.points,
    {
        let mut points: Vec<(S, S)> = Vec::new();
        let mut i: usize = 0;
        while i < self.points.len()
            invariant
                i <= self.points.len(),
                points@ == self.points@.take(i as int),
            decreases self.points.len() - i,
        {
            points.push(self.points[i]);
            i += 1;
        }
        points
    }

    /// The stroke colour.
    pub fn color(&self) -> (color: &str)
        ensures
            color@ == self@.color,
    {
        self.color.as_str()
    }

    /// The number of points sampled per frame.
    pub fn iterations(&self) -> (n: usize)
        ensures
            n == self@.iterations,
    {
        self.iterations
    }

    /// Whether the trail can be drawn: whether it holds at least two points.
    pub fn is_ready(&self) -> (ready: bool)
        ensures
            ready == self@.ready(),
    {
        self.points.len() >= 2
    }

    /// Runs one compute phase: `iterations` times, sample the trail point of
    /// the current rotors, append it to the back of the trail, then advance
    /// both rotors by one step. Stops at the first sample that fails.
    pub fn compute_points<F, A>(&mut self, intersect: &F, advance: &A) -> (outcome: Result<
        (),
        GeometryError,
    >) where F: Fn(R, R) -> Result<((S, S), (S, S)), GeometryError>, A: Fn(R) -> R
        requires
            forall|a: R, b: R| call_requires(intersect, (a, b)),
            forall|r: R| call_requires(advance, (r,)),
        ensures
            computed(*intersect, *advance, old(self)@, final(self)@, outcome),
            outcome is Ok ==> final(self)@.points.len() == old(self)@.points.len() + old(
                self,
            )@.iterations,
    {
        let ghost mut states: Seq<(R, R)> = seq![self.rotors];
        let ghost mut fresh: Seq<(S, S)> = Seq::empty();
        let mut done: usize = 0;
        while done < self.iterations
            invariant
                forall|a: R, b: R| call_requires(intersect, (a, b)),
                forall|r: R| call_requires(advance, (r,)),
                self@.color == old(self)@.color,
                self@.iterations == old(self)@.iterations,
                done <= self.iterations,
                fresh.len() == done,
                is_run(*intersect, *advance, states, fresh),
                states.first() == old(self)@.rotors,
                states.last() == self@.rotors,
                self@.points == old(self)@.points + fresh,
            decreases self.iterations - done,
        {
            let a = self.rotors.0;
            let b = self.rotors.1;
            match intersect(a, b) {
                Ok(candidates) => {
                    self.points.push_back(candidates.1);
                    let next = (advance(a), advance(b));
                    self.rotors = next;
                    proof {
                        let ghost earlier = states;
                        let ghost sofar = fresh;
                        states = states.push(next);
                        fresh = fresh.push(candidates.1);
                        assert forall|i: int| 0 <= i < fresh.len() implies sampled(
                            *intersect,
                            states[i],
                            #[trigger] fresh[i],
                        ) && advanced(*advance, states[i], states[i + 1]) by {
                            if i < done {
                                assert(sofar[i] == fresh[i]);
                            }
                        }
                    }
                },
                Err(error) => {
                    return Err(error);
                },
            }
            done += 1;
        }
        Ok(())
    }

    /// Draws the buffered trail: records one connected stroke in the
    /// renderer's colour from the oldest buffered point through every point
    /// in order to the newest, and keeps only the newest point, as the
    /// anchor from which the next stroke starts.
    pub fn stroke_trail(&mut self, ctx: &mut DisplayList<S>)
        requires
            old(self)@.ready(),
        ensures
            final(ctx)@ == old(ctx)@ + polyline_ops(old(self)@.color, old(self)@.points),
            final(self)@ == old(self)@.anchored(),
    {
        let ghost path = self@.points;
        let ghost head = old(ctx)@ + seq![
            DrawOp::SetStrokeStyle(self@.color),
            DrawOp::BeginPath,
            DrawOp::MoveTo(path[0].0, path[0].1),
        ];
        let ghost line_to = |p: (S, S)| DrawOp::<S, Seq<char>>::LineTo(p.0, p.1);
        ctx.record(DrawOp::SetStrokeStyle(self.color.clone()));
        let start = self.points.pop_front().unwrap();
        ctx.record(DrawOp::BeginPath);
        ctx.record(DrawOp::MoveTo(start.0, start.1));
        let last = self.points.pop_back().unwrap();
        let ghost mut drawn: int = 1;
        while self.points.len() > 0
            invariant
                path.len() >= 2,
                1 <= drawn <= path.len() - 1,
                self@.points == path.subrange(drawn, path.len() - 1),
                self@.rotors == old(self)@.rotors,
                self@.color == old(self)@.color,
                self@.iterations == old(self)@.iterations,
                ctx@ == head + path.subrange(1, drawn).map_values(line_to),
                line_to == |p: (S, S)| DrawOp::<S, Seq<char>>::LineTo(p.0, p.1),
            decreases self.points.len(),
        {
            let next = self.points.pop_front().unwrap();
            ctx.record(DrawOp::LineTo(next.0, next.1));
            proof {
                drawn = drawn + 1;
            }
        }
        ctx.record(DrawOp::LineTo(last.0, last.1));
        ctx.record(DrawOp::Stroke);
        self.points.push_back(last);
        proof {
            assert(self@.points =~= seq![path.last()]);
        }
    }

    /// Draws the buffered trail and refills the buffer: strokes the trail,
    /// then runs one compute phase from the anchor. The stroke is recorded
    /// whether or not the compute phase fails.
    pub fn render_line<F, A>(
        &mut self,
        ctx: &mut DisplayList<S>,
        intersect: &F,
        advance: &A,
    ) -> (outcome: Result<(), GeometryError>) where
        F: Fn(R, R) -> Result<((S, S), (S, S)), GeometryError>,
        A: Fn(R) -> R,

        requires
            old(self)@.ready(),
            forall|a: R, b: R| call_requires(intersect, (a, b)),
            forall|r: R| call_requires(advance, (r,)),
        ensures
            final(ctx)@ == old(ctx)@ + polyline_ops(old(self)@.color, old(self)@.points),
            computed(*intersect, *advance, old(self)@.anchored(), final(self)@, outcome),
            final(self)@.points[0] == old(self)@.points.last(),
            outcome is Ok ==> final(self)@.points.len() == old(self)@.iterations + 1,
    {
        self.stroke_trail(ctx);
        let outcome = self.compute_points(intersect, advance);
        proof {
            lemma_compute_appends(*intersect, *advance, old(self)@.anchored(), self@, outcome);
        }
        outcome
    }

    /// Takes the sighting of the rotor pair as it stands. No rotor moves
    /// and the trail stays as it is.
    pub fn sight<V, F>(&self, observe: &V, intersect: &F) -> (outcome: Result<
        Sighting<S>,
        GeometryError,
    >) where V: Fn(R) -> Pose<S>, F: Fn(R, R) -> Result<((S, S), (S, S)), GeometryError>
        requires
            forall|r: R| call_requires(observe, (r,)),
            forall|a: R, b: R| call_requires(intersect, (a, b)),
        ensures
            match outcome {
                Ok(sighting) => sighted(*observe, *intersect, self@.rotors, sighting),
                Err(error) => unsolvable::<R, S, F>(*intersect, self@.rotors, error),
            },
    {
        match intersect(self.rotors.0, self.rotors.1) {
            Ok(candidates) => Ok(
                Sighting {
                    a: observe(self.rotors.0),
                    b: observe(self.rotors.1),
                    chosen: candidates.1,
                },
            ),
            Err(error) => Err(error),
        }
    }

    /// Draws the construction of the rotor pair as it stands: nothing is
    /// sampled into the trail and no rotor moves.
    ///
    /// `observe` tells what to show of one rotor. Where the crossing point
    /// cannot be found, nothing is recorded.
    pub fn render_overlay<V, F>(&self, ctx: &mut DisplayList<S>, observe: &V, intersect: &F) -> (outcome:
        Result<(), GeometryError>) where
        V: Fn(R) -> Pose<S>,
        F: Fn(R, R) -> Result<((S, S), (S, S)), GeometryError>,

        requires
            forall|r: R| call_requires(observe, (r,)),
            forall|a: R, b: R| call_requires(intersect, (a, b)),
        ensures
            match outcome {
                Ok(()) => exists|sighting: Sighting<S>|
                    {
                        &&& #[trigger] sighted(*observe, *intersect, self@.rotors, sighting)
                        &&& final(ctx)@ == old(ctx)@ + overlay_ops(sighting)
                    },
                Err(error) => {
                    &&& unsolvable::<R, S, F>(*intersect, self@.rotors, error)
                    &&& final(ctx)@ == old(ctx)@
                },
            },
    {
        match self.sight(observe, intersect) {
            Ok(sighting) => {
                record_overlay(ctx, &sighting);
                Ok(())
            },
            Err(error) => Err(error),
        }
    }
}

} // verus!
