//! The scene: an ordered stack of trail layers and a frame counter.

use crate::constants::{WINDOW_HEIGHT, WINDOW_WIDTH};
use crate::draw::{DisplayList, DrawOp};
use crate::math::GeometryError;
use crate::renderer::{
    computed, lemma_compute_appends, lemma_refill_restores_trail, overlay_ops, polyline_ops,
    record_overlay, sighted, unsolvable, Pose, RendererView, RotorRenderer, Sighting,
};
use vstd::prelude::*;

verus! {

/// The layers of the scene, bottom layer first, and the number of frames
/// rendered so far.
pub struct FieldRenderer<R, S> {
    rotor_renderers: Vec<RotorRenderer<R, S>>,
    frame_count: i32,
}

/// What a [`FieldRenderer`] holds, as mathematical values.
pub struct FieldView<R, S> {
    /// The layers, bottom layer first.
    pub layers: Seq<RendererView<R, S>>,
    /// The number of frames rendered so far.
    pub frame_count: int,
}

impl<R, S> View for FieldRenderer<R, S> {
    type V = FieldView<R, S>;

    closed spec fn view(&self) -> FieldView<R, S> {
        FieldView {
            layers: self.rotor_renderers@.map_values(|layer: RotorRenderer<R, S>| layer@),
            frame_count: self.frame_count as int,
        }
    }
}

impl<R, S> FieldView<R, S> {
    /// Every layer holds a trail that can be drawn.
    pub open spec fn ready(self) -> bool {
        forall|i: int| 0 <= i < self.layers.len() ==> (#[trigger] self.layers[i]).ready()
    }
}

/// The outcome of a frame without its frame number.
pub open spec fn status_of(outcome: Result<i32, GeometryError>) -> Result<(), GeometryError> {
    match outcome {
        Ok(_) => Ok(()),
        Err(error) => Err(error),
    }
}

/// The operations that repaint the background: opaque once, at set-up, and
/// as a nearly transparent veil on every frame, under which old ink fades.
pub open spec fn background_ops<S>(opaque: bool) -> Seq<DrawOp<S, Seq<char>>> {
    seq![
        DrawOp::SetFillStyle(
            if opaque {
                "#03000f"@
            } else {
                "#03000f01"@
            },
        ),
        DrawOp::FillRect { width: WINDOW_WIDTH, height: WINDOW_HEIGHT },
        DrawOp::SetStrokeStyle("#ffffff"@),
    ]
}

/// The strokes of the first `count` layers, bottom layer first.
pub open spec fn strokes<R, S>(layers: Seq<RendererView<R, S>>, count: int) -> Seq<
    DrawOp<S, Seq<char>>,
>
    decreases count,
{
    if count <= 0 {
        Seq::empty()
    } else {
        strokes(layers, count - 1) + polyline_ops(
            layers[count - 1].color,
            layers[count - 1].points,
        )
    }
}

/// The state from which a layer's compute phase starts: the layer as it is
/// at set-up, the layer with its trail drawn on a frame.
pub open spec fn start_of<R, S>(layer: RendererView<R, S>, drawn: bool) -> RendererView<R, S> {
    if drawn {
        layer.anchored()
    } else {
        layer
    }
}

/// `after` is `before` with a compute phase run on the first `served`
/// layers, in order, and with the layers above them untouched. The last of
/// these phases ended with `outcome`, the ones before it completed.
pub open spec fn served_through<R, S, F, A>(
    intersect: F,
    advance: A,
    before: Seq<RendererView<R, S>>,
    after: Seq<RendererView<R, S>>,
    drawn: bool,
    served: int,
    outcome: Result<(), GeometryError>,
) -> bool where F: Fn(R, R) -> Result<((S, S), (S, S)), GeometryError>, A: Fn(R) -> R {
    &&& after.len() == before.len()
    &&& 0 <= served <= before.len()
    &&& forall|i: int|
        0 <= i < served ==> computed(
            intersect,
            advance,
            start_of(before[i], drawn),
            #[trigger] after[i],
            if i == served - 1 {
                outcome
            } else {
                Ok(())
            },
        )
    &&& forall|i: int| served <= i < before.len() ==> #[trigger] after[i] == before[i]
}

/// `after` is `before` after a sweep over the layers that ended with
/// `outcome`: every layer is served in order, and the sweep stops at the
/// first layer whose compute phase fails, which is then the last one served.
pub open spec fn swept<R, S, F, A>(
    intersect: F,
    advance: A,
    before: Seq<RendererView<R, S>>,
    after: Seq<RendererView<R, S>>,
    drawn: bool,
    served: int,
    outcome: Result<(), GeometryError>,
) -> bool where F: Fn(R, R) -> Result<((S, S), (S, S)), GeometryError>, A: Fn(R) -> R {
    &&& served_through(intersect, advance, before, after, drawn, served, outcome)
    &&& match outcome {
        Ok(()) => served == before.len(),
        Err(_) => served >= 1,
    }
}

/// The overlays of the first `count` sightings, in order.
pub open spec fn overlays<S>(sightings: Seq<Sighting<S>>, count: int) -> Seq<DrawOp<S, Seq<char>>>
    decreases count,
{
    if count <= 0 {
        Seq::empty()
    } else {
        overlays(sightings, count - 1) + overlay_ops(sightings[count - 1])
    }
}

/// `sightings` holds one sighting for each of the first layers, bottom
/// layer first.
pub open spec fn sighted_in_order<R, S, V, F>(
    observe: V,
    intersect: F,
    layers: Seq<RendererView<R, S>>,
    sightings: Seq<Sighting<S>>,
) -> bool where V: Fn(R) -> Pose<S>, F: Fn(R, R) -> Result<((S, S), (S, S)), GeometryError> {
    &&& sightings.len() <= layers.len()
    &&& forall|i: int|
        0 <= i < sightings.len() ==> sighted(
            observe,
            intersect,
            layers[i].rotors,
            #[trigger] sightings[i],
        )
}

/// The length of every trail after a sweep that completed. After set-up a
/// trail has grown by `iterations` points. After a frame it holds
/// `iterations + 1` points, whatever it held before: the anchor and the new
/// samples. It starts at the point where the stroke just drawn ended.
pub proof fn lemma_sweep_restores_trails<R, S, F, A>(
    intersect: F,
    advance: A,
    before: Seq<RendererView<R, S>>,
    after: Seq<RendererView<R, S>>,
    drawn: bool,
    served: int,
) where F: Fn(R, R) -> Result<((S, S), (S, S)), GeometryError>, A: Fn(R) -> R
    requires
        swept(intersect, advance, before, after, drawn, served, Ok(())),
        drawn ==> forall|i: int| 0 <= i < before.len() ==> (#[trigger] before[i]).ready(),
    ensures
        after.len() == before.len(),
        forall|i: int|
            0 <= i < after.len() ==> (#[trigger] after[i]).iterations == before[i].iterations,
        !drawn ==> forall|i: int|
            0 <= i < after.len() ==> (#[trigger] after[i]).points.len() == before[i].points.len()
                + before[i].iterations,
        drawn ==> forall|i: int|
            0 <= i < after.len() ==> {
                &&& (#[trigger] after[i]).points.len() == before[i].iterations + 1
                &&& after[i].points[0] == before[i].points.last()
            },
{
    assert forall|i: int| 0 <= i < after.len() implies {
        &&& (#[trigger] after[i]).iterations == before[i].iterations
        &&& !drawn ==> after[i].points.len() == before[i].points.len() + before[i].iterations
        &&& drawn ==> after[i].points.len() == before[i].iterations + 1 && after[i].points[0]
            == before[i].points.last()
    } by {
        if drawn {
            lemma_refill_restores_trail(intersect, advance, before[i], after[i]);
        } else {
            lemma_compute_appends(intersect, advance, before[i], after[i], Ok(()));
        }
    }
}

/// The overlays of the first `count` sightings depend on those sightings
/// only.
proof fn lemma_overlays_grow<S>(shorter: Seq<Sighting<S>>, longer: Seq<Sighting<S>>, count: int)
    requires
        0 <= count <= shorter.len() <= longer.len(),
        forall|i: int| 0 <= i < shorter.len() ==> shorter[i] == longer[i],
    ensures
        overlays(shorter, count) == overlays(longer, count),
    decreases count,
{
    if count > 0 {
        lemma_overlays_grow(shorter, longer, count - 1);
    }
}

impl<R: Copy, S: Copy> FieldRenderer<R, S> {
    /// The scene of two layers: a translucent red trail below a white one.
    /// No frame is rendered yet and both trails are empty.
    pub fn ctr(first: (R, R), second: (R, R)) -> (field: Self)
        ensures
            field@.frame_count == 0,
            field@.layers == seq![
                RotorRenderer::<R, S>::fresh(first, "#ff00004f"@),
                RotorRenderer::<R, S>::fresh(second, "#ffffff"@),
            ],
    {
        let mut rotor_renderers: Vec<RotorRenderer<R, S>> = Vec::new();
        rotor_renderers.push(RotorRenderer::new(first.0, first.1, "#ff00004f".to_owned()));
        rotor_renderers.push(RotorRenderer::new(second.0, second.1, "#ffffff".to_owned()));
        FieldRenderer { rotor_renderers, frame_count: 0 }
    }

    /// A scene of the given layers, bottom layer first, with no frame
    /// rendered yet.
    pub fn with_layers(layers: Vec<RotorRenderer<R, S>>) -> (field: Self)
        ensures
            field@.frame_count == 0,
            field@.layers == layers@.map_values(|layer: RotorRenderer<R, S>| layer@),
    {
        FieldRenderer { rotor_renderers: layers, frame_count: 0 }
    }

    /// The number of frames rendered so far.
    pub fn frame_count(&self) -> (count: i32)
        ensures
            count == self@.frame_count,
    {
        self.frame_count
    }

    /// The number of layers.
    pub fn layer_count(&self) -> (count: usize)
        ensures
            count == self@.layers.len(),
    {
        self.rotor_renderers.len()
    }

    /// The layer at `index`, counted from the bottom.
    pub fn layer(&self, index: usize) -> (layer: &RotorRenderer<R, S>)
        requires
            index < self@.layers.len(),
        ensures
            layer@ == self@.layers[index as int],
    {
        &self.rotor_renderers[index]
    }

    /// Whether a frame can be rendered: whether every layer holds a trail
    /// of at least two points.
    pub fn is_ready(&self) -> (ready: bool)
        ensures
            ready == self@.ready(),
    {
        let mut i: usize = 0;
        while i < self.rotor_renderers.len()
            invariant
                i <= self.rotor_renderers.len(),
                self.rotor_renderers.len() == self@.layers.len(),
                forall|j: int| 0 <= j < i ==> (#[trigger] self@.layers[j]).ready(),
            decreases self.rotor_renderers.len() - i,
        {
            assert(self@.layers[i as int] == self.rotor_renderers[i as int]@);
            if !self.rotor_renderers[i].is_ready() {
                return false;
            }
            i += 1;
        }
        true
    }

    /// Sets the scene up: paints the background opaque, then warms every
    /// layer up with one compute phase, bottom layer first. Stops at the
    /// first layer whose compute phase fails.
    pub fn init<F, A>(&mut self, ctx: &mut DisplayList<S>, intersect: &F, advance: &A) -> (outcome:
        Result<(), GeometryError>) where
        F: Fn(R, R) -> Result<((S, S), (S, S)), GeometryError>,
        A: Fn(R) -> R,

        requires
            forall|a: R, b: R| call_requires(intersect, (a, b)),
            forall|r: R| call_requires(advance, (r,)),
        ensures
            final(ctx)@ == old(ctx)@ + background_ops(true),
            final(self)@.frame_count == old(self)@.frame_count,
            exists|served: int|
                swept(
                    *intersect,
                    *advance,
                    old(self)@.layers,
                    final(self)@.layers,
                    false,
                    served,
                    outcome,
                ),
            outcome is Ok ==> forall|i: int|
                0 <= i < final(self)@.layers.len() ==> (#[trigger] final(self)@.layers[i]).points.len()
                    == old(self)@.layers[i].points.len() + old(self)@.layers[i].iterations,
    {
        self.render_background(ctx, true);
        let mut i: usize = 0;
        while i < self.rotor_renderers.len()
            invariant
                forall|a: R, b: R| call_requires(intersect, (a, b)),
                forall|r: R| call_requires(advance, (r,)),
                i <= self.rotor_renderers.len(),
                self.rotor_renderers.len() == self@.layers.len(),
                ctx@ == old(ctx)@ + background_ops(true),
                self@.frame_count == old(self)@.frame_count,
                served_through(
                    *intersect,
                    *advance,
                    old(self)@.layers,
                    self@.layers,
                    false,
                    i as int,
                    Ok(()),
                ),
            decreases self.rotor_renderers.len() - i,
        {
            let ghost earlier = self@.layers;
            let ghost layer = self.rotor_renderers[i as int]@;
            assert(earlier[i as int] == layer);
            let result = self.rotor_renderers[i].compute_points(intersect, advance);
            proof {
                assert(self@.layers =~= earlier.update(i as int, self.rotor_renderers[i as int]@));
                assert forall|j: int| 0 <= j < i + 1 implies computed(
                    *intersect,
                    *advance,
                    start_of(old(self)@.layers[j], false),
                    #[trigger] self@.layers[j],
                    if j == i {
                        result
                    } else {
                        Ok(())
                    },
                ) by {
                    // Only the layer just served has changed.
                    assert(j < i ==> self@.layers[j] == earlier[j]);
                }
            }
            if let Err(error) = result {
                assert(swept(
                    *intersect,
                    *advance,
                    old(self)@.layers,
                    self@.layers,
                    false,
                    i + 1,
                    Err(error),
                ));
                return Err(error);
            }
            i += 1;
        }
        proof {
            lemma_sweep_restores_trails(
                *intersect,
                *advance,
                old(self)@.layers,
                self@.layers,
                false,
                i as int,
            );
        }
        Ok(())
    }

    /// Renders one frame: counts it, veils the background, then draws and
    /// refills every layer, bottom layer first. Stops at the first layer
    /// whose refill fails; that layer's stroke is recorded, the layers above
    /// it are left as they were. Returns the number of the frame, which
    /// counts from one.
    pub fn render_frame<F, A>(
        &mut self,
        ctx: &mut DisplayList<S>,
        intersect: &F,
        advance: &A,
    ) -> (outcome: Result<i32, GeometryError>) where
        F: Fn(R, R) -> Result<((S, S), (S, S)), GeometryError>,
        A: Fn(R) -> R,

        requires
            old(self)@.frame_count < i32::MAX,
            old(self)@.ready(),
            forall|a: R, b: R| call_requires(intersect, (a, b)),
            forall|r: R| call_requires(advance, (r,)),
        ensures
            final(self)@.frame_count == old(self)@.frame_count + 1,
            outcome matches Ok(number) ==> number == final(self)@.frame_count,
            exists|served: int|
                {
                    &&& #[trigger] swept(
                        *intersect,
                        *advance,
                        old(self)@.layers,
                        final(self)@.layers,
                        true,
                        served,
                        status_of(outcome),
                    )
                    &&& final(ctx)@ == old(ctx)@ + background_ops(false) + strokes(
                        old(self)@.layers,
                        served,
                    )
                },
            outcome is Ok ==> forall|i: int|
                0 <= i < final(self)@.layers.len() ==> (#[trigger] final(self)@.layers[i]).points.len()
                    == old(self)@.layers[i].iterations + 1,
    {
        self.frame_count += 1;
        self.render_background(ctx, false);
        let mut i: usize = 0;
        while i < self.rotor_renderers.len()
            invariant
                forall|a: R, b: R| call_requires(intersect, (a, b)),
                forall|r: R| call_requires(advance, (r,)),
                old(self)@.ready(),
                i <= self.rotor_renderers.len(),
                self.rotor_renderers.len() == self@.layers.len(),
                self@.frame_count == old(self)@.frame_count + 1,
                ctx@ == old(ctx)@ + background_ops(false) + strokes(old(self)@.layers, i as int),
                served_through(
                    *intersect,
                    *advance,
                    old(self)@.layers,
                    self@.layers,
                    true,
                    i as int,
                    Ok(()),
                ),
            decreases self.rotor_renderers.len() - i,
        {
            let ghost earlier = self@.layers;
            let ghost layer = self.rotor_renderers[i as int]@;
            assert(earlier[i as int] == layer);
            let result = self.rotor_renderers[i].render_line(ctx, intersect, advance);
            proof {
                assert(self@.layers =~= earlier.update(i as int, self.rotor_renderers[i as int]@));
                assert forall|j: int| 0 <= j < i + 1 implies computed(
                    *intersect,
                    *advance,
                    start_of(old(self)@.layers[j], true),
                    #[trigger] self@.layers[j],
                    if j == i {
                        result
                    } else {
                        Ok(())
                    },
                ) by {
                    // Only the layer just served has changed.
                    assert(j < i ==> self@.layers[j] == earlier[j]);
                }
            }
            if let Err(error) = result {
                assert(swept(
                    *intersect,
                    *advance,
                    old(self)@.layers,
                    self@.layers,
                    true,
                    i + 1,
                    Err(error),
                ));
                return Err(error);
            }
            i += 1;
        }
        proof {
            lemma_sweep_restores_trails(
                *intersect,
                *advance,
                old(self)@.layers,
                self@.layers,
                true,
                i as int,
            );
        }
        Ok(self.frame_count)
    }

    /// Draws the construction of every layer as it stands, bottom layer
    /// first. Stops at the first layer whose crossing point cannot be found;
    /// the overlays of the layers below it are recorded.
    pub fn render_overlay<V, F>(&self, ctx: &mut DisplayList<S>, observe: &V, intersect: &F) -> (outcome:
        Result<(), GeometryError>) where
        V: Fn(R) -> Pose<S>,
        F: Fn(R, R) -> Result<((S, S), (S, S)), GeometryError>,

        requires
            forall|r: R| call_requires(observe, (r,)),
            forall|a: R, b: R| call_requires(intersect, (a, b)),
        ensures
            exists|sightings: Seq<Sighting<S>>|
                {
                    &&& #[trigger] sighted_in_order(*observe, *intersect, self@.layers, sightings)
                    &&& final(ctx)@ == old(ctx)@ + overlays(sightings, sightings.len() as int)
                    &&& match outcome {
                        Ok(()) => sightings.len() == self@.layers.len(),
                        Err(error) => sightings.len() < self@.layers.len() && unsolvable::<R, S, F>(
                            *intersect,
                            self@.layers[sightings.len() as int].rotors,
                            error,
                        ),
                    }
                },
    {
        let ghost mut sightings: Seq<Sighting<S>> = Seq::empty();
        let mut i: usize = 0;
        while i < self.rotor_renderers.len()
            invariant
                forall|r: R| call_requires(observe, (r,)),
                forall|a: R, b: R| call_requires(intersect, (a, b)),
                i <= self.rotor_renderers.len(),
                self.rotor_renderers.len() == self@.layers.len(),
                sightings.len() == i,
                sighted_in_order(*observe, *intersect, self@.layers, sightings),
                ctx@ == old(ctx)@ + overlays(sightings, i as int),
            decreases self.rotor_renderers.len() - i,
        {
            match self.rotor_renderers[i].sight(observe, intersect) {
                Ok(sighting) => {
                    record_overlay(ctx, &sighting);
                    proof {
                        let ghost earlier = sightings;
                        sightings = sightings.push(sighting);
                        lemma_overlays_grow(earlier, sightings, i as int);
                    }
                },
                Err(error) => {
                    return Err(error);
                },
            }
            i += 1;
        }
        Ok(())
    }

    fn render_background(&self, ctx: &mut DisplayList<S>, opaque: bool)
        ensures
            final(ctx)@ == old(ctx)@ + background_ops(opaque),
    {
        if opaque {
            ctx.record(DrawOp::SetFillStyle("#03000f".to_owned()));
        } else {
            ctx.record(DrawOp::SetFillStyle("#03000f01".to_owned()));
        }
        ctx.record(DrawOp::FillRect { width: WINDOW_WIDTH, height: WINDOW_HEIGHT });
        ctx.record(DrawOp::SetStrokeStyle("#ffffff".to_owned()));
    }
}

} // verus!
