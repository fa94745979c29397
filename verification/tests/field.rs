use rotor_field::constants::{ITERATIONS_PER_FRAME, ORIGIN, WINDOW_HEIGHT, WINDOW_WIDTH};
use rotor_field::draw::{DisplayList, DrawOp};
use rotor_field::field::FieldRenderer;
use rotor_field::math::{check_intersection, GeometryError};
use rotor_field::renderer::{Pose, RotorRenderer};

type Point = (i64, i64);
type Op = DrawOp<i64, String>;

fn crossing(a: i64, b: i64) -> Result<(Point, Point), GeometryError> {
    Ok(((-a, -b), (a, b)))
}

fn step(r: i64) -> i64 {
    r + 1
}

/// Fails for every pair whose second rotor has reached 1000.
fn crossing_below_thousand(a: i64, b: i64) -> Result<(Point, Point), GeometryError> {
    if b >= 1000 {
        Err(GeometryError::DegenerateCenters)
    } else {
        Ok(((-a, -b), (a, b)))
    }
}

fn pose(r: i64) -> Pose<i64> {
    Pose { center: (r * 10, r * 10 + 1), radius: r + 7, point: (r, r + 1) }
}

fn fill(text: &str) -> Op {
    DrawOp::SetFillStyle(text.to_string())
}

fn stroke(text: &str) -> Op {
    DrawOp::SetStrokeStyle(text.to_string())
}

fn backdrop() -> Vec<Op> {
    vec![fill("#03000f"), DrawOp::FillRect { width: 3100, height: 3100 }, stroke("#ffffff")]
}

fn veil() -> Vec<Op> {
    vec![fill("#03000f01"), DrawOp::FillRect { width: 3100, height: 3100 }, stroke("#ffffff")]
}

/// Two layers of three points per frame: rotors (0, 100) below, (500, 600) above.
fn small_field() -> FieldRenderer<i64, i64> {
    FieldRenderer::with_layers(vec![
        RotorRenderer::with_iterations(0, 100, String::from("red"), 3),
        RotorRenderer::with_iterations(500, 600, String::from("white"), 3),
    ])
}

#[test]
fn constants_describe_a_square_surface() {
    assert_eq!(WINDOW_WIDTH, 3100);
    assert_eq!(WINDOW_HEIGHT, 3100);
    assert_eq!(ORIGIN, (1550, 1550));
    assert_eq!(ITERATIONS_PER_FRAME, 50_000);
}

#[test]
fn ctr_builds_a_red_layer_below_a_white_one() {
    let field: FieldRenderer<i64, i64> = FieldRenderer::ctr((1, 2), (3, 4));
    assert_eq!(field.frame_count(), 0);
    assert_eq!(field.layer_count(), 2);
    assert_eq!(field.layer(0).rotors(), (1, 2));
    assert_eq!(field.layer(0).color(), "#ff00004f");
    assert_eq!(field.layer(0).iterations(), 50_000);
    assert_eq!(field.layer(0).len(), 0);
    assert_eq!(field.layer(1).rotors(), (3, 4));
    assert_eq!(field.layer(1).color(), "#ffffff");
    assert_eq!(field.layer(1).iterations(), 50_000);
    assert_eq!(field.layer(1).len(), 0);
    assert!(!field.is_ready());
}

#[test]
fn with_layers_keeps_the_order_of_the_layers() {
    let field = small_field();
    assert_eq!(field.frame_count(), 0);
    assert_eq!(field.layer_count(), 2);
    assert_eq!(field.layer(0).color(), "red");
    assert_eq!(field.layer(1).color(), "white");
}

#[test]
fn a_field_without_layers_is_ready() {
    let mut field: FieldRenderer<i64, i64> = FieldRenderer::with_layers(Vec::new());
    assert!(field.is_ready());
    let mut ctx = DisplayList::new();
    assert_eq!(field.render_frame(&mut ctx, &crossing, &step), Ok(1));
    assert_eq!(ctx.into_ops(), veil());
}

#[test]
fn init_paints_the_backdrop_and_fills_every_trail() {
    let mut field = small_field();
    let mut ctx = DisplayList::new();
    assert_eq!(field.init(&mut ctx, &crossing, &step), Ok(()));
    assert_eq!(ctx.into_ops(), backdrop());
    assert_eq!(field.layer(0).points(), vec![(0, 100), (1, 101), (2, 102)]);
    assert_eq!(field.layer(1).points(), vec![(500, 600), (501, 601), (502, 602)]);
    assert_eq!(field.frame_count(), 0);
    assert!(field.is_ready());
}

#[test]
fn init_fills_the_default_budget() {
    let mut field: FieldRenderer<i64, i64> = FieldRenderer::ctr((0, 100), (500, 600));
    let mut ctx = DisplayList::new();
    assert_eq!(field.init(&mut ctx, &crossing, &step), Ok(()));
    assert_eq!(field.layer(0).len(), ITERATIONS_PER_FRAME);
    assert_eq!(field.layer(1).len(), ITERATIONS_PER_FRAME);
    assert_eq!(field.layer(0).rotors(), (50_000, 50_100));
}

#[test]
fn first_frame_draws_the_warm_up_and_keeps_its_last_point() {
    let mut field: FieldRenderer<i64, i64> = FieldRenderer::with_layers(vec![
        RotorRenderer::with_iterations(0, 100, String::from("red"), 3),
    ]);
    let mut ctx = DisplayList::new();
    assert_eq!(field.init(&mut ctx, &crossing, &step), Ok(()));
    // The warm-up has sampled three points.
    assert_eq!(field.layer(0).points(), vec![(0, 100), (1, 101), (2, 102)]);

    let mut ctx = DisplayList::new();
    assert_eq!(field.render_frame(&mut ctx, &crossing, &step), Ok(1));
    // The frame draws one line through these three points ...
    let mut expected = veil();
    expected.extend(vec![
        stroke("red"),
        DrawOp::BeginPath,
        DrawOp::MoveTo(0, 100),
        DrawOp::LineTo(1, 101),
        DrawOp::LineTo(2, 102),
        DrawOp::Stroke,
    ]);
    assert_eq!(ctx.into_ops(), expected);
    // ... and leaves the last of them in front of three new ones.
    assert_eq!(field.layer(0).points(), vec![(2, 102), (3, 103), (4, 104), (5, 105)]);
}

#[test]
fn every_frame_leaves_the_anchor_and_a_full_budget() {
    let mut field = small_field();
    let mut ctx = DisplayList::new();
    assert_eq!(field.init(&mut ctx, &crossing, &step), Ok(()));
    assert_eq!(field.layer(0).len(), 3);
    assert_eq!(field.layer(1).len(), 3);
    for _ in 0..5 {
        assert_eq!(field.render_frame(&mut ctx, &crossing, &step).is_ok(), true);
        assert_eq!(field.layer(0).len(), 4);
        assert_eq!(field.layer(1).len(), 4);
        assert!(field.is_ready());
    }
}

#[test]
fn frames_are_counted_from_one() {
    let mut field = small_field();
    let mut ctx = DisplayList::new();
    assert_eq!(field.frame_count(), 0);
    assert_eq!(field.init(&mut ctx, &crossing, &step), Ok(()));
    assert_eq!(field.frame_count(), 0);
    for expected in 1..=10 {
        assert_eq!(field.render_frame(&mut ctx, &crossing, &step), Ok(expected));
        assert_eq!(field.frame_count(), expected);
        assert_eq!(field.render_overlay(&mut ctx, &pose, &crossing), Ok(()));
        assert_eq!(field.frame_count(), expected);
    }
}

#[test]
fn a_frame_draws_the_layers_bottom_first() {
    let mut field = small_field();
    let mut ctx = DisplayList::new();
    assert_eq!(field.init(&mut ctx, &crossing, &step), Ok(()));
    let mut ctx = DisplayList::new();
    assert_eq!(field.render_frame(&mut ctx, &crossing, &step), Ok(1));
    let mut expected = veil();
    expected.extend(vec![
        stroke("red"),
        DrawOp::BeginPath,
        DrawOp::MoveTo(0, 100),
        DrawOp::LineTo(1, 101),
        DrawOp::LineTo(2, 102),
        DrawOp::Stroke,
        stroke("white"),
        DrawOp::BeginPath,
        DrawOp::MoveTo(500, 600),
        DrawOp::LineTo(501, 601),
        DrawOp::LineTo(502, 602),
        DrawOp::Stroke,
    ]);
    assert_eq!(ctx.into_ops(), expected);
}

#[test]
fn init_stops_at_the_first_layer_that_fails() {
    let mut field: FieldRenderer<i64, i64> = FieldRenderer::with_layers(vec![
        RotorRenderer::with_iterations(0, 998, String::from("red"), 5),
        RotorRenderer::with_iterations(500, 600, String::from("white"), 5),
    ]);
    let mut ctx = DisplayList::new();
    assert_eq!(
        field.init(&mut ctx, &crossing_below_thousand, &step),
        Err(GeometryError::DegenerateCenters)
    );
    assert_eq!(ctx.into_ops(), backdrop());
    assert_eq!(field.layer(0).points(), vec![(0, 998), (1, 999)]);
    assert_eq!(field.layer(0).rotors(), (2, 1000));
    // The layer above was not served.
    assert_eq!(field.layer(1).len(), 0);
    assert_eq!(field.layer(1).rotors(), (500, 600));
}

#[test]
fn a_frame_stops_at_the_first_layer_that_fails() {
    let mut field: FieldRenderer<i64, i64> = FieldRenderer::with_layers(vec![
        RotorRenderer::with_iterations(0, 100, String::from("red"), 2),
        RotorRenderer::with_iterations(0, 997, String::from("white"), 2),
        RotorRenderer::with_iterations(0, 200, String::from("blue"), 2),
    ]);
    let mut ctx = DisplayList::new();
    assert_eq!(field.init(&mut ctx, &crossing_below_thousand, &step), Ok(()));
    let mut ctx = DisplayList::new();
    assert_eq!(
        field.render_frame(&mut ctx, &crossing_below_thousand, &step),
        Err(GeometryError::DegenerateCenters)
    );
    // The frame is counted, the strokes of the first two layers are drawn.
    assert_eq!(field.frame_count(), 1);
    let mut expected = veil();
    expected.extend(vec![
        stroke("red"),
        DrawOp::BeginPath,
        DrawOp::MoveTo(0, 100),
        DrawOp::LineTo(1, 101),
        DrawOp::Stroke,
        stroke("white"),
        DrawOp::BeginPath,
        DrawOp::MoveTo(0, 997),
        DrawOp::LineTo(1, 998),
        DrawOp::Stroke,
    ]);
    assert_eq!(ctx.into_ops(), expected);
    assert_eq!(field.layer(0).points(), vec![(1, 101), (2, 102), (3, 103)]);
    assert_eq!(field.layer(1).points(), vec![(1, 998), (2, 999)]);
    assert_eq!(field.layer(2).points(), vec![(0, 200), (1, 201)]);
    assert!(field.is_ready());
}

#[test]
fn overlay_shows_every_layer_and_changes_nothing() {
    let mut field = small_field();
    let mut ctx = DisplayList::new();
    assert_eq!(field.init(&mut ctx, &crossing, &step), Ok(()));
    let mut ctx = DisplayList::new();
    assert_eq!(field.render_overlay(&mut ctx, &pose, &crossing), Ok(()));
    let ops = ctx.into_ops();
    assert_eq!(ops.len(), 54);
    assert_eq!(ops[0], DrawOp::ClearRect { width: 3100, height: 3100 });
    assert_eq!(ops[5], DrawOp::Circle { x: 30, y: 31, radius: 10 });
    assert_eq!(ops[20], DrawOp::LineTo(3, 103));
    assert_eq!(ops[27], DrawOp::ClearRect { width: 3100, height: 3100 });
    assert_eq!(ops[27 + 8], DrawOp::Circle { x: 6030, y: 6031, radius: 610 });
    assert_eq!(ops[27 + 25], DrawOp::Marker { x: 503, y: 603, size: 2 });
    assert_eq!(field.layer(0).points(), vec![(0, 100), (1, 101), (2, 102)]);
    assert_eq!(field.layer(0).rotors(), (3, 103));
    assert_eq!(field.layer(1).rotors(), (503, 603));
}

#[test]
fn overlay_stops_at_the_first_layer_that_fails() {
    let field: FieldRenderer<i64, i64> = FieldRenderer::with_layers(vec![
        RotorRenderer::with_iterations(0, 100, String::from("red"), 2),
        RotorRenderer::with_iterations(0, 1000, String::from("white"), 2),
        RotorRenderer::with_iterations(0, 200, String::from("blue"), 2),
    ]);
    let mut ctx = DisplayList::new();
    assert_eq!(
        field.render_overlay(&mut ctx, &pose, &crossing_below_thousand),
        Err(GeometryError::DegenerateCenters)
    );
    assert_eq!(ctx.len(), 27);
}

/// A rotor in the plane, for a run of the engine on real geometry.
#[derive(Clone, Copy)]
struct Rotor {
    r: f64,
    theta: f64,
    v: f64,
    l: f64,
}

fn rotor_point(rotor: Rotor) -> (f64, f64) {
    (1550.0 + rotor.theta.cos() * rotor.r, 1550.0 + rotor.theta.sin() * rotor.r)
}

fn rotor_step(rotor: Rotor) -> Rotor {
    Rotor { theta: rotor.theta + rotor.v, ..rotor }
}

fn rotor_crossing(a: Rotor, b: Rotor) -> Result<((f64, f64), (f64, f64)), GeometryError> {
    let (x1, y1) = rotor_point(a);
    let (x2, y2) = rotor_point(b);
    let dist = ((x1 - x2) * (x1 - x2) + (y1 - y2) * (y1 - y2)).sqrt();
    let dist2 = dist * dist;
    let diff = a.l * a.l - b.l * b.l;
    let radicand = 2.0 * (a.l * a.l + b.l * b.l) / dist2 - (diff * diff) / (dist2 * dist2) - 1.0;
    check_intersection(dist2.to_bits(), radicand.to_bits())?;
    let k = diff / (2.0 * dist2);
    let h = radicand.sqrt();
    let (fx, fy) = ((x1 + x2) / 2.0 + k * (x2 - x1), (y1 + y2) / 2.0 + k * (y2 - y1));
    let (gx, gy) = (h * (y2 - y1) / 2.0, h * (x1 - x2) / 2.0);
    Ok(((fx + gx, fy + gy), (fx - gx, fy - gy)))
}

#[test]
fn identical_static_rotors_stop_the_warm_up() {
    let rotor = Rotor { r: 100.0, theta: 0.0, v: 0.0, l: 500.0 };
    let mut field: FieldRenderer<Rotor, f64> = FieldRenderer::ctr((rotor, rotor), (rotor, rotor));
    let mut ctx = DisplayList::new();
    assert_eq!(
        field.init(&mut ctx, &rotor_crossing, &rotor_step),
        Err(GeometryError::DegenerateCenters)
    );
    // No point was sampled: nothing that is not a number reaches the trail.
    assert_eq!(field.layer(0).len(), 0);
    assert_eq!(field.layer(1).len(), 0);
    assert!(!field.is_ready());
}

#[test]
fn sampled_points_lie_on_both_arms() {
    let a = Rotor { r: 160.0, theta: 0.0, v: 0.001, l: 1080.0 };
    let b = Rotor { r: 160.0, theta: 3.0, v: 0.002, l: 1200.0 };
    let mut renderer: RotorRenderer<Rotor, f64> =
        RotorRenderer::with_iterations(a, b, String::from("#ffffff"), 100);
    assert_eq!(renderer.compute_points(&rotor_crossing, &rotor_step), Ok(()));
    let points = renderer.points();
    assert_eq!(points.len(), 100);
    let (mut a, mut b) = (a, b);
    for (x, y) in points {
        let (x1, y1) = rotor_point(a);
        let (x2, y2) = rotor_point(b);
        let to_a = ((x - x1) * (x - x1) + (y - y1) * (y - y1)).sqrt();
        let to_b = ((x - x2) * (x - x2) + (y - y2) * (y - y2)).sqrt();
        assert!((to_a - 1080.0).abs() < 1e-6);
        assert!((to_b - 1200.0).abs() < 1e-6);
        a = rotor_step(a);
        b = rotor_step(b);
    }
    let (end_a, end_b) = renderer.rotors();
    assert!((end_a.theta - 100.0 * 0.001).abs() < 1e-9);
    assert!((end_b.theta - (3.0 + 100.0 * 0.002)).abs() < 1e-9);
}
