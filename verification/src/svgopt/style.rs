//! How a path is painted, and when two paths are painted alike.
//!
//! Opacities, the miter limit and the dash pattern are fixed-point values
//! in millionths, as the coordinates are.

use vstd::prelude::*;

verus! {

/// A colour.
#[derive(Clone, Copy, Debug, PartialEq, Eq, Structural)]
pub struct Color {
    pub red: u8,
    pub green: u8,
    pub blue: u8,
}

/// What a fill or a stroke paints with.
#[derive(Debug, PartialEq, Eq)]
pub enum Paint {
    /// A plain colour.
    Color(Color),
    /// A gradient or pattern, named by its id in the document.
    Link(String),
}

/// How the inside of a self-intersecting path is decided.
#[derive(Clone, Copy, Debug, PartialEq, Eq, Structural)]
pub enum FillRule {
    NonZero,
    EvenOdd,
}

/// The shape at the two ends of an open stroke.
#[derive(Clone, Copy, Debug, PartialEq, Eq, Structural)]
pub enum LineCap {
    Butt,
    Round,
    Square,
}

/// The shape at the corners of a stroke.
#[derive(Clone, Copy, Debug, PartialEq, Eq, Structural)]
pub enum LineJoin {
    Miter,
    Round,
    Bevel,
}

/// The rendering mode of a shape.
#[derive(Clone, Copy, Debug, PartialEq, Eq, Structural)]
pub enum ShapeRendering {
    OptimizeSpeed,
    CrispEdges,
    GeometricPrecision,
}

/// Whether an element is shown.
#[derive(Clone, Copy, Debug, PartialEq, Eq, Structural)]
pub enum Visibility {
    Visible,
    Hidden,
    Collapse,
}

/// The fill of a path.
#[derive(Debug, PartialEq, Eq)]
pub struct Fill {
    pub paint: Paint,
    pub opacity: i64,
    pub rule: FillRule,
}

/// The stroke of a path, as far as two strokes are told apart.
#[derive(Debug, PartialEq, Eq)]
pub struct Stroke {
    pub paint: Paint,
    pub dasharray: Option<Vec<i64>>,
    pub dashoffset: i64,
    pub miterlimit: i64,
    pub opacity: i64,
    pub linecap: LineCap,
    pub linejoin: LineJoin,
}

/// Everything about a path but its geometry.
#[derive(Debug, PartialEq, Eq)]
pub struct Style {
    pub fill: Option<Fill>,
    pub stroke: Option<Stroke>,
    pub rendering_mode: ShapeRendering,
    pub visibility: Visibility,
}

/// Two values differ by at most `eps`.
pub open spec fn within(a: int, b: int, eps: int) -> bool {
    b - eps <= a <= b + eps
}

/// The same colour, or the same gradient or pattern.
pub open spec fn same_paint_spec(a: Paint, b: Paint) -> bool {
    match (a, b) {
        (Paint::Color(x), Paint::Color(y)) => x == y,
        (Paint::Link(x), Paint::Link(y)) => x@ == y@,
        _ => false,
    }
}

/// Dash lengths of the same number, each within `eps` of its counterpart.
pub open spec fn same_dashes(a: Seq<i64>, b: Seq<i64>, eps: int) -> bool {
    &&& a.len() == b.len()
    &&& forall|i: int| 0 <= i < a.len() ==> within(#[trigger] a[i] as int, b[i] as int, eps)
}

/// Both dashed alike, or both solid.
pub open spec fn same_dasharray_spec(a: Option<Vec<i64>>, b: Option<Vec<i64>>, eps: int) -> bool {
    match (a, b) {
        (Some(x), Some(y)) => same_dashes(x@, y@, eps),
        (None, None) => true,
        _ => false,
    }
}

/// The same fill: paint, opacity and fill rule; or no fill on either.
pub open spec fn same_fill_spec(a: Option<Fill>, b: Option<Fill>) -> bool {
    match (a, b) {
        (Some(x), Some(y)) => same_paint_spec(x.paint, y.paint) && x.opacity == y.opacity && x.rule
            == y.rule,
        (None, None) => true,
        _ => false,
    }
}

/// The same stroke: paint, opacity, dash pattern and dash offset within
/// `eps`, cap, join and miter limit; or no stroke on either.
pub open spec fn same_stroke_spec(a: Option<Stroke>, b: Option<Stroke>, eps: int) -> bool {
    match (a, b) {
        (Some(x), Some(y)) => {
            &&& same_paint_spec(x.paint, y.paint)
            &&& within(x.dashoffset as int, y.dashoffset as int, eps)
            &&& same_dasharray_spec(x.dasharray, y.dasharray, eps)
            &&& x.linecap == y.linecap
            &&& x.linejoin == y.linejoin
            &&& x.miterlimit == y.miterlimit
            &&& x.opacity == y.opacity
        },
        (None, None) => true,
        _ => false,
    }
}

/// Two paths are painted alike: the same stroke, the same fill, the same
/// rendering mode and the same visibility.
pub open spec fn same_style_spec(a: Style, b: Style, eps: int) -> bool {
    &&& same_stroke_spec(a.stroke, b.stroke, eps)
    &&& same_fill_spec(a.fill, b.fill)
    &&& a.rendering_mode == b.rendering_mode
    &&& a.visibility == b.visibility
}

/// Being painted alike does not depend on which path is named first.
pub proof fn lemma_same_style_symmetric(a: Style, b: Style, eps: int)
    ensures
        same_style_spec(a, b, eps) == same_style_spec(b, a, eps),
{
    match (a.stroke, b.stroke) {
        (Some(x), Some(y)) => {
            match (x.dasharray, y.dasharray) {
                (Some(p), Some(q)) => {
                    if same_dashes(p@, q@, eps) {
                        assert forall|i: int| 0 <= i < q@.len() implies within(
                            #[trigger] q@[i] as int,
                            p@[i] as int,
                            eps,
                        ) by {
                            assert(within(p@[i] as int, q@[i] as int, eps));
                        }
                    }
                    if same_dashes(q@, p@, eps) {
                        assert forall|i: int| 0 <= i < p@.len() implies within(
                            #[trigger] p@[i] as int,
                            q@[i] as int,
                            eps,
                        ) by {
                            assert(within(q@[i] as int, p@[i] as int, eps));
                        }
                    }
                },
                _ => {},
            }
        },
        _ => {},
    }
}

/// Paths with different fills are never painted alike.
pub proof fn lemma_fill_decides(a: Style, b: Style, eps: int)
    requires
        !same_fill_spec(a.fill, b.fill),
    ensures
        !same_style_spec(a, b, eps),
{
}

/// Exec counterpart of [`within`].
pub fn is_within(a: i64, b: i64, eps: i64) -> (near: bool)
    ensures
        near == within(a as int, b as int, eps as int),
{
    let diff: i128 = a as i128 - b as i128;
    -(eps as i128) <= diff && diff <= eps as i128
}

/// Whether two paints are the same.
pub fn same_paint(a: &Paint, b: &Paint) -> (same: bool)
    ensures
        same == same_paint_spec(*a, *b),
{
    match (a, b) {
        (Paint::Color(x), Paint::Color(y)) => *x == *y,
        (Paint::Link(x), Paint::Link(y)) => *x == *y,
        _ => false,
    }
}

/// Whether two dash patterns are the same up to `eps`.
fn same_dasharray(a: &Option<Vec<i64>>, b: &Option<Vec<i64>>, eps: i64) -> (same: bool)
    ensures
        same == same_dasharray_spec(*a, *b, eps as int),
{
    match (a, b) {
        (Some(x), Some(y)) => {
            if x.len() != y.len() {
                return false;
            }
            let mut i: usize = 0;
            while i < x.len()
                invariant
                    i <= x.len(),
                    x.len() == y.len(),
                    *a == Some(*x),
                    *b == Some(*y),
                    forall|k: int|
                        0 <= k < i ==> within(#[trigger] x@[k] as int, y@[k] as int, eps as int),
                decreases x.len() - i,
            {
                if !is_within(x[i], y[i], eps) {
                    assert(!within(x@[i as int] as int, y@[i as int] as int, eps as int));
                    return false;
                }
                i += 1;
            }
            true
        },
        (None, None) => true,
        _ => false,
    }
}

/// Whether two strokes are the same up to `eps`.
fn same_stroke(a: &Option<Stroke>, b: &Option<Stroke>, eps: i64) -> (same: bool)
    ensures
        same == same_stroke_spec(*a, *b, eps as int),
{
    match (a, b) {
        (Some(x), Some(y)) => {
            same_paint(&x.paint, &y.paint) && is_within(x.dashoffset, y.dashoffset, eps)
                && same_dasharray(&x.dasharray, &y.dasharray, eps) && x.linecap == y.linecap
                && x.linejoin == y.linejoin && x.miterlimit == y.miterlimit && x.opacity
                == y.opacity
        },
        (None, None) => true,
        _ => false,
    }
}

/// Whether two fills are the same.
fn same_fill(a: &Option<Fill>, b: &Option<Fill>) -> (same: bool)
    ensures
        same == same_fill_spec(*a, *b),
{
    match (a, b) {
        (Some(x), Some(y)) => same_paint(&x.paint, &y.paint) && x.opacity == y.opacity && x.rule
            == y.rule,
        (None, None) => true,
        _ => false,
    }
}

/// Whether two paths are painted alike, so that one drawing can stand for
/// both.
pub fn same_style(a: &Style, b: &Style, eps: i64) -> (same: bool)
    ensures
        same == same_style_spec(*a, *b, eps as int),
{
    same_stroke(&a.stroke, &b.stroke, eps) && same_fill(&a.fill, &b.fill) && a.rendering_mode
        == b.rendering_mode && a.visibility == b.visibility
}

} // verus!
