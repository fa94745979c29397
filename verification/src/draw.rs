//! The drawing surface, as a record of the operations performed on it.
//!
//! The engine never paints. It appends the operations of a frame to a
//! [`DisplayList`], in the order in which the surface must see them, and the
//! host replays the list on the real surface.

use vstd::prelude::*;

verus! {

/// One operation on a 2D drawing surface.
///
/// `S` is the scalar type of a coordinate and `C` the type of a colour: a
/// `String` in a recorded list, its characters in the list's model.
#[derive(Debug, PartialEq)]
pub enum DrawOp<S, C> {
    /// Sets the colour used by fills.
    SetFillStyle(C),
    /// Sets the colour used by strokes.
    SetStrokeStyle(C),
    /// Sets the width of strokes.
    SetLineWidth(u32),
    /// Fills the rectangle that spans from the surface's corner `(0, 0)`.
    FillRect { width: u32, height: u32 },
    /// Clears the rectangle that spans from the surface's corner `(0, 0)`.
    ClearRect { width: u32, height: u32 },
    /// Starts a new path.
    BeginPath,
    /// Starts a sub-path at a point.
    MoveTo(S, S),
    /// Extends the path by a straight segment to a point.
    LineTo(S, S),
    /// Adds a full circle around a centre to the path.
    Circle { x: S, y: S, radius: S },
    /// Adds a full circle of a fixed small radius around a centre to the path.
    Marker { x: S, y: S, size: u32 },
    /// Strokes the current path.
    Stroke,
}

impl<S> View for DrawOp<S, String> {
    type V = DrawOp<S, Seq<char>>;

    open spec fn view(&self) -> DrawOp<S, Seq<char>> {
        match *self {
            DrawOp::SetFillStyle(color) => DrawOp::SetFillStyle(color@),
            DrawOp::SetStrokeStyle(color) => DrawOp::SetStrokeStyle(color@),
            DrawOp::SetLineWidth(width) => DrawOp::SetLineWidth(width),
            DrawOp::FillRect { width, height } => DrawOp::FillRect { width, height },
            DrawOp::ClearRect { width, height } => DrawOp::ClearRect { width, height },
            DrawOp::BeginPath => DrawOp::BeginPath,
            DrawOp::MoveTo(x, y) => DrawOp::MoveTo(x, y),
            DrawOp::LineTo(x, y) => DrawOp::LineTo(x, y),
            DrawOp::Circle { x, y, radius } => DrawOp::Circle { x, y, radius },
            DrawOp::Marker { x, y, size } => DrawOp::Marker { x, y, size },
            DrawOp::Stroke => DrawOp::Stroke,
        }
    }
}

/// The operations recorded so far, oldest first.
pub struct DisplayList<S> {
    ops: Vec<DrawOp<S, String>>,
}

impl<S> View for DisplayList<S> {
    type V = Seq<DrawOp<S, Seq<char>>>;

    closed spec fn view(&self) -> Seq<DrawOp<S, Seq<char>>> {
        self.ops@.map_values(|op: DrawOp<S, String>| op@)
    }
}

impl<S> DisplayList<S> {
    /// An empty list.
    pub fn new() -> (list: Self)
        ensures
            list@ == Seq::<DrawOp<S, Seq<char>>>::empty(),
    {
        DisplayList { ops: Vec::new() }
    }

    /// Appends one operation.
    pub fn record(&mut self, op: DrawOp<S, String>)
        ensures
            final(self)@ == old(self)@.push(op@),
    {
        self.ops.push(op);
    }

    /// The number of recorded operations.
    pub fn len(&self) -> (n: usize)
        ensures
            n == self@.len(),
    {
        self.ops.len()
    }

    /// Hands the recorded operations out, oldest first.
    pub fn into_ops(self) -> (ops: Vec<DrawOp<S, String>>)
        ensures
            ops@.len() == self@.len(),
            forall|i: int| 0 <= i < ops@.len() ==> (#[trigger] ops@[i])@ == self@[i],
    {
        self.ops
    }
}

} // verus!
