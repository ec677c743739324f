//! Fingerprints: the lookup key of a path.

use vstd::prelude::*;
use crate::units::in_domain;

verus! {


/// The drawing commands of a path.
#[derive(Clone, Copy, Debug, Hash, PartialEq, Eq, Structural)]
pub enum PathCommand {
    MoveTo,
    LineTo,
    CurveTo,
    ClosePath,
}

/// One element of a fingerprint: a command, or a coordinate relative to the
/// shift origin of the path.
#[derive(Clone, Copy, Debug, Hash, PartialEq, Eq, Structural)]
pub enum PathFingerprintElement {
    Command(PathCommand),
    Coord(i64),
}

/// One segment of a path, with its transform applied: all coordinates are
/// absolute coordinates of the page.
#[derive(Clone, Copy, Debug, PartialEq, Eq, Structural)]
pub enum PathSegment {
    MoveTo { x: i64, y: i64 },
    LineTo { x: i64, y: i64 },
    CurveTo { x1: i64, y1: i64, x2: i64, y2: i64, x: i64, y: i64 },
    ClosePath,
}

impl PathSegment {
    /// The point at which the segment ends; closing a path names no point.
    pub open spec fn point(&self) -> Option<(i64, i64)> {
        match *self {
            PathSegment::MoveTo { x, y } => Some((x, y)),
            PathSegment::LineTo { x, y } => Some((x, y)),
            PathSegment::CurveTo { x1, y1, x2, y2, x, y } => Some((x, y)),
            PathSegment::ClosePath => None,
        }
    }

    /// Every coordinate lies in the coordinate domain.
    pub open spec fn wf(&self) -> bool {
        match *self {
            PathSegment::MoveTo { x, y } => in_domain(x as int) && in_domain(y as int),
            PathSegment::LineTo { x, y } => in_domain(x as int) && in_domain(y as int),
            PathSegment::CurveTo { x1, y1, x2, y2, x, y } => in_domain(x1 as int) && in_domain(
                y1 as int,
            ) && in_domain(x2 as int) && in_domain(y2 as int) && in_domain(x as int) && in_domain(
                y as int,
            ),
            PathSegment::ClosePath => true,
        }
    }

    /// The elements that the segment adds to a fingerprint: its command,
    /// then its coordinates relative to `origin`.
    pub open spec fn elems(&self, origin: (i64, i64)) -> Seq<PathFingerprintElement> {
        match *self {
            PathSegment::MoveTo { x, y } => seq![
                PathFingerprintElement::Command(PathCommand::MoveTo),
                PathFingerprintElement::Coord((x - origin.0) as i64),
                PathFingerprintElement::Coord((y - origin.1) as i64),
            ],
            PathSegment::LineTo { x, y } => seq![
                PathFingerprintElement::Command(PathCommand::LineTo),
                PathFingerprintElement::Coord((x - origin.0) as i64),
                PathFingerprintElement::Coord((y - origin.1) as i64),
            ],
            PathSegment::CurveTo { x1, y1, x2, y2, x, y } => seq![
                PathFingerprintElement::Command(PathCommand::CurveTo),
                PathFingerprintElement::Coord((x1 - origin.0) as i64),
                PathFingerprintElement::Coord((y1 - origin.1) as i64),
                PathFingerprintElement::Coord((x2 - origin.0) as i64),
                PathFingerprintElement::Coord((y2 - origin.1) as i64),
                PathFingerprintElement::Coord((x - origin.0) as i64),
                PathFingerprintElement::Coord((y - origin.1) as i64),
            ],
            PathSegment::ClosePath => seq![PathFingerprintElement::Command(PathCommand::ClosePath)],
        }
    }
}

/// Whether every segment is well formed.
pub open spec fn segments_wf(segments: Seq<PathSegment>) -> bool {
    forall|i: int| 0 <= i < segments.len() ==> (#[trigger] segments[i]).wf()
}

/// The shift origin of a path: the point of the first segment that names
/// one. `None` for a path that names no point.
pub open spec fn shift_origin(segments: Seq<PathSegment>) -> Option<(i64, i64)>
    decreases segments.len(),
{
    if segments.len() == 0 {
        None
    } else {
        match shift_origin(segments.drop_last()) {
            Some(p) => Some(p),
            None => segments.last().point(),
        }
    }
}

/// The elements of all segments in order, relative to `origin`.
pub open spec fn relative_elems(segments: Seq<PathSegment>, origin: (i64, i64)) -> Seq<
    PathFingerprintElement,
>
    decreases segments.len(),
{
    if segments.len() == 0 {
        Seq::empty()
    } else {
        relative_elems(segments.drop_last(), origin) + segments.last().elems(origin)
    }
}

/// The shift origin is the point of a segment before which no segment names
/// a point.
pub proof fn lemma_shift_origin(segments: Seq<PathSegment>)
    ensures
        shift_origin(segments) is None <==> forall|i: int|
            0 <= i < segments.len() ==> (#[trigger] segments[i]).point() is None,
        shift_origin(segments) is Some ==> exists|i: int|
            0 <= i < segments.len() && (#[trigger] segments[i]).point() == shift_origin(segments)
                && forall|j: int| 0 <= j < i ==> (#[trigger] segments[j]).point() is None,
    decreases segments.len(),
{
    if segments.len() > 0 {
        let head = segments.drop_last();
        lemma_shift_origin(head);
        assert(forall|i: int| 0 <= i < head.len() ==> head[i] == segments[i]);
        if shift_origin(head) is Some {
            let i = choose|i: int|
                0 <= i < head.len() && (#[trigger] head[i]).point() == shift_origin(head)
                    && forall|j: int| 0 <= j < i ==> (#[trigger] head[j]).point() is None;
            assert(segments[i].point() == shift_origin(segments));
        } else if segments.last().point() is Some {
            let n = segments.len() - 1;
            assert(segments[n].point() == shift_origin(segments));
        }
    }
}

/// The lookup key of a path: its commands and coordinates, the coordinates
/// taken relative to the shift origin so that two paths that differ only
/// by where they stand have the same elements.
#[derive(Debug, PartialEq, Eq)]
pub struct PathFingerprint {
    pub elems: Vec<PathFingerprintElement>,
    pub shift: (i64, i64),
}

impl PathFingerprint {
    /// The fingerprint of a path that names at least one point.
    pub fn new(segments: &Vec<PathSegment>) -> (fingerprint: PathFingerprint)
        requires
            segments_wf(segments@),
            shift_origin(segments@) is Some,
        ensures
            Some(fingerprint.shift) == shift_origin(segments@),
            fingerprint.elems@ == relative_elems(segments@, fingerprint.shift),
    {
        let mut found: Option<(i64, i64)> = None;
        let mut i: usize = 0;
        while i < segments.len() && found.is_none()
            invariant
                i <= segments.len(),
                found == shift_origin(segments@.take(i as int)),
            decreases segments.len() - i,
        {
            assert(segments@.take(i + 1).drop_last() =~= segments@.take(i as int));
            found = match segments[i] {
                PathSegment::MoveTo { x, y } => Some((x, y)),
                PathSegment::LineTo { x, y } => Some((x, y)),
                PathSegment::CurveTo { x1, y1, x2, y2, x, y } => Some((x, y)),
                PathSegment::ClosePath => None,
            };
            i += 1;
        }
        proof {
            lemma_shift_origin_of_prefix(segments@, i as int);
        }
        let shift = found.unwrap();
        let (dx, dy) = shift;
        proof {
            lemma_shift_origin(segments@);
            let at = choose|k: int|
                0 <= k < segments.len() && (#[trigger] segments@[k]).point() == shift_origin(
                    segments@,
                );
            assert(segments@[at].wf());
        }
        let mut elems: Vec<PathFingerprintElement> = Vec::new();
        let mut k: usize = 0;
        while k < segments.len()
            invariant
                k <= segments.len(),
                segments_wf(segments@),
                in_domain(dx as int),
                in_domain(dy as int),
                shift == (dx, dy),
                elems@ == relative_elems(segments@.take(k as int), shift),
            decreases segments.len() - k,
        {
            assert(segments@.take(k + 1).drop_last() =~= segments@.take(k as int));
            assert(segments@[k as int].wf());
            let ghost before = elems@;
            match segments[k] {
                PathSegment::MoveTo { x, y } => {
                    elems.push(PathFingerprintElement::Command(PathCommand::MoveTo));
                    elems.push(PathFingerprintElement::Coord(x - dx));
                    elems.push(PathFingerprintElement::Coord(y - dy));
                },
                PathSegment::LineTo { x, y } => {
                    elems.push(PathFingerprintElement::Command(PathCommand::LineTo));
                    elems.push(PathFingerprintElement::Coord(x - dx));
                    elems.push(PathFingerprintElement::Coord(y - dy));
                },
                PathSegment::CurveTo { x1, y1, x2, y2, x, y } => {
                    elems.push(PathFingerprintElement::Command(PathCommand::CurveTo));
                    elems.push(PathFingerprintElement::Coord(x1 - dx));
                    elems.push(PathFingerprintElement::Coord(y1 - dy));
                    elems.push(PathFingerprintElement::Coord(x2 - dx));
                    elems.push(PathFingerprintElement::Coord(y2 - dy));
                    elems.push(PathFingerprintElement::Coord(x - dx));
                    elems.push(PathFingerprintElement::Coord(y - dy));
                },
                PathSegment::ClosePath => {
                    elems.push(PathFingerprintElement::Command(PathCommand::ClosePath));
                },
            }
            assert(elems@ =~= before + segments@[k as int].elems(shift));
            k += 1;
        }
        assert(segments@.take(k as int) =~= segments@);
        PathFingerprint { elems, shift }
    }
}

/// Once a prefix of a path names a point, the shift origin of the whole
/// path is the shift origin of that prefix.
proof fn lemma_shift_origin_of_prefix(segments: Seq<PathSegment>, n: int)
    requires
        0 <= n <= segments.len(),
        shift_origin(segments.take(n)) is Some || n == segments.len(),
    ensures
        shift_origin(segments) == shift_origin(segments.take(n)),
    decreases segments.len() - n,
{
    if n < segments.len() {
        assert(segments.take(n + 1).drop_last() =~= segments.take(n));
        lemma_shift_origin_of_prefix(segments, n + 1);
    } else {
        assert(segments.take(n) =~= segments);
    }
}

/// Two fingerprint elements agree: equal commands, or coordinates that
/// differ by at most `eps`.
pub open spec fn close(a: PathFingerprintElement, b: PathFingerprintElement, eps: int) -> bool {
    match (a, b) {
        (PathFingerprintElement::Command(c), PathFingerprintElement::Command(d)) => c == d,
        (PathFingerprintElement::Coord(x), PathFingerprintElement::Coord(y)) => y - eps <= x <= y
            + eps,
        _ => false,
    }
}

/// Two fingerprints match: the same commands in the same places, and every
/// coordinate within `eps` of its counterpart.
pub open spec fn similar(
    a: Seq<PathFingerprintElement>,
    b: Seq<PathFingerprintElement>,
    eps: int,
) -> bool {
    &&& a.len() == b.len()
    &&& forall|i: int| 0 <= i < a.len() ==> close(#[trigger] a[i], b[i], eps)
}

} // verus!
