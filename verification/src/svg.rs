//! Geometry of rendered pages: bounding boxes of drawing nodes and the
//! refinement of a typeset extent against them.

use vstd::prelude::*;
use vstd::slice::slice_subrange;
use crate::units::{in_domain, PAGE_TOP_LIMIT};

verus! {

/// An axis-aligned rectangle in output units. `top` is the smaller vertical
/// coordinate: the vertical axis points down the page.
#[derive(Clone, Copy, Debug, PartialEq, Eq, Structural)]
pub struct BoundingBox {
    pub left: i64,
    pub top: i64,
    pub right: i64,
    pub bottom: i64,
}

/// One of the two directions of the page.
#[derive(Clone, Copy, Debug, PartialEq, Eq, Structural)]
pub enum Axis {
    Horizontal,
    Vertical,
}

impl BoundingBox {
    /// Every edge is inside the coordinate domain and the rectangle is not
    /// inverted. It may be degenerate: a hairline has no height.
    pub open spec fn wf(&self) -> bool {
        &&& in_domain(self.left as int)
        &&& in_domain(self.top as int)
        &&& in_domain(self.right as int)
        &&& in_domain(self.bottom as int)
        &&& self.left <= self.right
        &&& self.top <= self.bottom
    }

    /// The interval that the box covers along `axis`.
    pub open spec fn span(&self, axis: Axis) -> (int, int) {
        match axis {
            Axis::Horizontal => (self.left as int, self.right as int),
            Axis::Vertical => (self.top as int, self.bottom as int),
        }
    }

    /// Exec counterpart of [`BoundingBox::wf`].
    pub fn is_wf(&self) -> (ok: bool)
        ensures
            ok == self.wf(),
    {
        crate::units::is_in_domain(self.left) && crate::units::is_in_domain(self.top)
            && crate::units::is_in_domain(self.right) && crate::units::is_in_domain(self.bottom)
            && self.left <= self.right && self.top <= self.bottom
    }
}

/// Whether every box of `bboxes` is well formed.
pub open spec fn all_wf(bboxes: Seq<BoundingBox>) -> bool {
    forall|i: int| 0 <= i < bboxes.len() ==> (#[trigger] bboxes[i]).wf()
}

/// The drawing nodes of one rendered page, as the region resolver reads
/// them: the top coordinate of the page and the bounding box of every leaf.
#[derive(Debug, PartialEq, Eq)]
pub struct PageGeometry {
    pub top: i64,
    pub bboxes: Vec<BoundingBox>,
}

impl PageGeometry {
    /// The top of the page is not farther out than [`PAGE_TOP_LIMIT`], and
    /// every box is well formed.
    pub open spec fn wf(&self) -> bool {
        &&& -PAGE_TOP_LIMIT <= self.top <= PAGE_TOP_LIMIT
        &&& all_wf(self.bboxes@)
    }

    /// Exec counterpart of [`PageGeometry::wf`].
    pub fn is_wf(&self) -> (ok: bool)
        ensures
            ok == self.wf(),
    {
        if self.top < -PAGE_TOP_LIMIT || self.top > PAGE_TOP_LIMIT {
            return false;
        }
        let mut i: usize = 0;
        while i < self.bboxes.len()
            invariant
                i <= self.bboxes.len(),
                forall|k: int| 0 <= k < i ==> (#[trigger] self.bboxes@[k]).wf(),
            decreases self.bboxes.len() - i,
        {
            if !self.bboxes[i].is_wf() {
                return false;
            }
            i += 1;
        }
        true
    }
}

/// Two closed intervals share at least one point.
pub open spec fn overlaps(lo1: int, hi1: int, lo2: int, hi2: int) -> bool {
    (if lo1 >= lo2 { lo1 } else { lo2 }) <= (if hi1 <= hi2 { hi1 } else { hi2 })
}

/// Whether `b` touches the vertical band from `lo` to `hi`.
pub open spec fn in_band(b: BoundingBox, lo: int, hi: int) -> bool {
    overlaps(lo, hi, b.top as int, b.bottom as int)
}

/// The extent along `axis` of the boxes of `bboxes` that touch the vertical
/// band from `lo` to `hi`: `None` when no box touches it.
pub open spec fn band_extent(bboxes: Seq<BoundingBox>, lo: int, hi: int, axis: Axis) -> Option<
    (int, int),
>
    decreases bboxes.len(),
{
    if bboxes.len() == 0 {
        None
    } else {
        let b = bboxes.last();
        let before = band_extent(bboxes.drop_last(), lo, hi, axis);
        if in_band(b, lo, hi) {
            match before {
                None => Some(b.span(axis)),
                Some((l, r)) => Some(
                    (
                        if b.span(axis).0 < l { b.span(axis).0 } else { l },
                        if b.span(axis).1 > r { b.span(axis).1 } else { r },
                    ),
                ),
            }
        } else {
            before
        }
    }
}

/// What [`x_range_for_y_range`] returns.
pub open spec fn x_range_spec(
    bboxes: Seq<BoundingBox>,
    y_min: int,
    y_max: int,
    tol: int,
    margin: int,
) -> Option<(int, int)> {
    match band_extent(bboxes, y_min - tol, y_max + tol, Axis::Horizontal) {
        None => None,
        Some((l, r)) => Some((l - margin, r + margin)),
    }
}

/// What [`refine_y_range`] returns.
pub open spec fn refined_y_spec(
    bboxes: Seq<BoundingBox>,
    y_min: int,
    y_max: int,
    tol: int,
    margin: int,
) -> (int, int) {
    match band_extent(bboxes, y_min - tol, y_max + tol, Axis::Vertical) {
        None => (y_min - margin, y_max + margin),
        Some((l, r)) => (l - margin, r + margin),
    }
}

/// The extent that [`band_extent`] names is the tight union: it exists
/// exactly when some box touches the band, every touching box lies inside
/// it, and each of its two ends is the edge of a touching box.
pub proof fn lemma_band_extent_is_tight(bboxes: Seq<BoundingBox>, lo: int, hi: int, axis: Axis)
    ensures
        band_extent(bboxes, lo, hi, axis) is None <==> forall|i: int|
            0 <= i < bboxes.len() ==> !in_band(#[trigger] bboxes[i], lo, hi),
        band_extent(bboxes, lo, hi, axis) matches Some((l, r)) ==> {
            &&& forall|i: int|
                0 <= i < bboxes.len() && in_band(#[trigger] bboxes[i], lo, hi) ==> l
                    <= bboxes[i].span(axis).0 && bboxes[i].span(axis).1 <= r
            &&& exists|i: int|
                0 <= i < bboxes.len() && in_band(#[trigger] bboxes[i], lo, hi)
                    && bboxes[i].span(axis).0 == l
            &&& exists|i: int|
                0 <= i < bboxes.len() && in_band(#[trigger] bboxes[i], lo, hi)
                    && bboxes[i].span(axis).1 == r
        },
    decreases bboxes.len(),
{
    if bboxes.len() > 0 {
        let head = bboxes.drop_last();
        let n = bboxes.len() - 1;
        lemma_band_extent_is_tight(head, lo, hi, axis);
        assert(forall|i: int| 0 <= i < n ==> head[i] == bboxes[i]);
        match band_extent(bboxes, lo, hi, axis) {
            None => {},
            Some((l, r)) => {
                match band_extent(head, lo, hi, axis) {
                    None => {
                        assert(in_band(bboxes[n], lo, hi) && bboxes[n].span(axis).0 == l);
                        assert(in_band(bboxes[n], lo, hi) && bboxes[n].span(axis).1 == r);
                    },
                    Some((hl, hr)) => {
                        let i = choose|i: int|
                            0 <= i < head.len() && in_band(#[trigger] head[i], lo, hi)
                                && head[i].span(axis).0 == hl;
                        let j = choose|j: int|
                            0 <= j < head.len() && in_band(#[trigger] head[j], lo, hi)
                                && head[j].span(axis).1 == hr;
                        assert(in_band(bboxes[i], lo, hi));
                        assert(in_band(bboxes[j], lo, hi));
                        if in_band(bboxes[n], lo, hi) && bboxes[n].span(axis).0 < hl {
                            assert(in_band(bboxes[n], lo, hi) && bboxes[n].span(axis).0 == l);
                        } else {
                            assert(in_band(bboxes[i], lo, hi) && bboxes[i].span(axis).0 == l);
                        }
                        if in_band(bboxes[n], lo, hi) && bboxes[n].span(axis).1 > hr {
                            assert(in_band(bboxes[n], lo, hi) && bboxes[n].span(axis).1 == r);
                        } else {
                            assert(in_band(bboxes[j], lo, hi) && bboxes[j].span(axis).1 == r);
                        }
                    },
                }
            },
        }
    }
}

/// The ends of a band extent are edges of well-formed boxes, so they lie in
/// the coordinate domain.
pub proof fn lemma_band_extent_in_domain(bboxes: Seq<BoundingBox>, lo: int, hi: int, axis: Axis)
    requires
        all_wf(bboxes),
    ensures
        band_extent(bboxes, lo, hi, axis) matches Some((l, r)) ==> in_domain(l) && in_domain(r)
            && l <= r,
    decreases bboxes.len(),
{
    if bboxes.len() > 0 {
        lemma_band_extent_in_domain(bboxes.drop_last(), lo, hi, axis);
        assert(bboxes[bboxes.len() - 1].wf());
    }
}

/// Walks the boxes once and accumulates the extent of those in the band.
fn extent_in_band(bboxes: &[BoundingBox], lo: i64, hi: i64, axis: Axis) -> (extent: Option<
    (i64, i64),
>)
    ensures
        match extent {
            Some((l, r)) => band_extent(bboxes@, lo as int, hi as int, axis) == Some(
                (l as int, r as int),
            ),
            None => band_extent(bboxes@, lo as int, hi as int, axis) is None,
        },
{
    let mut extent: Option<(i64, i64)> = None;
    let mut i: usize = 0;
    while i < bboxes.len()
        invariant
            i <= bboxes.len(),
            match extent {
                Some((l, r)) => band_extent(bboxes@.take(i as int), lo as int, hi as int, axis)
                    == Some((l as int, r as int)),
                None => band_extent(bboxes@.take(i as int), lo as int, hi as int, axis) is None,
            },
        decreases bboxes.len() - i,
    {
        let b = bboxes[i];
        assert(bboxes@.take(i + 1).drop_last() =~= bboxes@.take(i as int));
        let low: i64 = if lo >= b.top { lo } else { b.top };
        let high: i64 = if hi <= b.bottom { hi } else { b.bottom };
        if low <= high {
            let (start, end) = match axis {
                Axis::Horizontal => (b.left, b.right),
                Axis::Vertical => (b.top, b.bottom),
            };
            extent = match extent {
                None => Some((start, end)),
                Some((l, r)) => Some((if start < l { start } else { l }, if end > r { end } else { r })),
            };
        }
        i += 1;
    }
    assert(bboxes@.take(i as int) =~= bboxes@);
    extent
}

/// Given the bounding boxes of a page and a vertical range, computes the
/// horizontal range that exactly covers every box touching the vertical
/// range widened by `tol` on both sides, and adds `margin` to both ends.
/// Returns `None` when no box touches the widened range.
pub fn x_range_for_y_range(
    bboxes: &[BoundingBox],
    y_min: i64,
    y_max: i64,
    tol: i64,
    margin: i64,
) -> (range: Option<(i64, i64)>)
    requires
        all_wf(bboxes@),
        in_domain(y_min as int),
        in_domain(y_max as int),
        in_domain(tol as int),
        in_domain(margin as int),
    ensures
        match range {
            Some((lo, hi)) => x_range_spec(
                bboxes@,
                y_min as int,
                y_max as int,
                tol as int,
                margin as int,
            ) == Some((lo as int, hi as int)),
            None => x_range_spec(bboxes@, y_min as int, y_max as int, tol as int, margin as int)
                is None,
        },
{
    proof {
        lemma_band_extent_in_domain(bboxes@, y_min - tol, y_max + tol, Axis::Horizontal);
    }
    match extent_in_band(bboxes, y_min - tol, y_max + tol, Axis::Horizontal) {
        None => None,
        Some((l, r)) => Some((l - margin, r + margin)),
    }
}

/// Refines a vertical range against the bounding boxes of a page: the
/// result covers exactly the boxes touching the range widened by `tol`,
/// plus `margin` on both ends. When no box touches it, the given range
/// itself is returned with the margin added.
pub fn refine_y_range(
    bboxes: &[BoundingBox],
    y_min: i64,
    y_max: i64,
    tol: i64,
    margin: i64,
) -> (range: (i64, i64))
    requires
        all_wf(bboxes@),
        in_domain(y_min as int),
        in_domain(y_max as int),
        in_domain(tol as int),
        in_domain(margin as int),
    ensures
        (range.0 as int, range.1 as int) == refined_y_spec(
            bboxes@,
            y_min as int,
            y_max as int,
            tol as int,
            margin as int,
        ),
{
    proof {
        lemma_band_extent_in_domain(bboxes@, y_min - tol, y_max + tol, Axis::Vertical);
    }
    match extent_in_band(bboxes, y_min - tol, y_max + tol, Axis::Vertical) {
        None => (y_min - margin, y_max + margin),
        Some((l, r)) => (l - margin, r + margin),
    }
}

/// A blank byte: space, tab, line feed or carriage return.
pub open spec fn is_blank(b: u8) -> bool {
    b == 0x20 || b == 0x09 || b == 0x0a || b == 0x0d
}

/// A page declaration starts at position `i`: the five bytes `<?xml` and a
/// blank after them.
pub open spec fn starts_page(bytes: Seq<u8>, i: int) -> bool {
    &&& 0 <= i
    &&& i + 6 <= bytes.len()
    &&& bytes[i] == 0x3c
    &&& bytes[i + 1] == 0x3f
    &&& bytes[i + 2] == 0x78
    &&& bytes[i + 3] == 0x6d
    &&& bytes[i + 4] == 0x6c
    &&& is_blank(bytes[i + 5])
}

/// The positions below `n` at which a page declaration starts, ascending.
pub open spec fn page_starts(bytes: Seq<u8>, n: int) -> Seq<int>
    decreases n,
{
    if n <= 0 {
        Seq::empty()
    } else {
        let before = page_starts(bytes, n - 1);
        if starts_page(bytes, n - 1) {
            before.push(n - 1)
        } else {
            before
        }
    }
}

/// The pages of a stream: each reaches from one page declaration to the
/// next, the last one to the end of the stream. What stands before the
/// first declaration belongs to no page.
pub open spec fn pages_spec(bytes: Seq<u8>) -> Seq<Seq<u8>> {
    let cuts = page_starts(bytes, bytes.len() as int);
    Seq::new(
        cuts.len(),
        |k: int|
            bytes.subrange(
                cuts[k],
                if k + 1 < cuts.len() {
                    cuts[k + 1]
                } else {
                    bytes.len() as int
                },
            ),
    )
}

/// The positions that [`page_starts`] lists are exactly those below `n` at
/// which a page declaration starts, in ascending order.
pub proof fn lemma_page_starts(bytes: Seq<u8>, n: int)
    ensures
        forall|k: int|
            0 <= k < page_starts(bytes, n).len() ==> 0 <= (#[trigger] page_starts(bytes, n)[k]) < n
                && starts_page(bytes, page_starts(bytes, n)[k]),
        forall|k: int, l: int|
            0 <= k < l < page_starts(bytes, n).len() ==> page_starts(bytes, n)[k] < page_starts(
                bytes,
                n,
            )[l],
        forall|i: int|
            0 <= i < n && starts_page(bytes, i) ==> #[trigger] page_starts(bytes, n).contains(i),
    decreases n,
{
    if n > 0 {
        lemma_page_starts(bytes, n - 1);
        let before = page_starts(bytes, n - 1);
        let all = page_starts(bytes, n);
        assert forall|i: int| 0 <= i < n && starts_page(bytes, i) implies #[trigger] all.contains(
            i,
        ) by {
            if i < n - 1 {
                assert(before.contains(i));
                let k = choose|k: int| 0 <= k < before.len() && before[k] == i;
                assert(all[k] == i);
            } else {
                assert(all[all.len() - 1] == i);
            }
        }
    }
}

/// Whether a page declaration starts at position `i`.
fn is_page_start(bytes: &[u8], i: usize) -> (found: bool)
    requires
        i < bytes.len(),
    ensures
        found == starts_page(bytes@, i as int),
{
    if bytes.len() - i < 6 {
        return false;
    }
    let blank = bytes[i + 5];
    bytes[i] == 0x3c && bytes[i + 1] == 0x3f && bytes[i + 2] == 0x78 && bytes[i + 3] == 0x6d
        && bytes[i + 4] == 0x6c && (blank == 0x20 || blank == 0x09 || blank == 0x0a || blank
        == 0x0d)
}

/// Splits a stream of several rendered pages into its pages, by scanning
/// for page declarations.
pub fn split_svgs(bytes: &[u8]) -> (pages: Vec<&[u8]>)
    ensures
        pages@.len() == pages_spec(bytes@).len(),
        forall|k: int| 0 <= k < pages@.len() ==> (#[trigger] pages@[k])@ == pages_spec(bytes@)[k],
{
    let mut cuts: Vec<usize> = Vec::new();
    let mut i: usize = 0;
    while i < bytes.len()
        invariant
            i <= bytes.len(),
            cuts@.len() == page_starts(bytes@, i as int).len(),
            forall|k: int| 0 <= k < cuts@.len() ==> (#[trigger] cuts@[k]) as int == page_starts(
                bytes@,
                i as int,
            )[k],
        decreases bytes.len() - i,
    {
        if is_page_start(bytes, i) {
            cuts.push(i);
        }
        i += 1;
    }
    let ghost starts = page_starts(bytes@, bytes.len() as int);
    proof {
        lemma_page_starts(bytes@, bytes.len() as int);
    }
    let mut pages: Vec<&[u8]> = Vec::new();
    let mut k: usize = 0;
    while k < cuts.len()
        invariant
            k <= cuts.len(),
            starts == page_starts(bytes@, bytes.len() as int),
            cuts@.len() == starts.len(),
            forall|k: int| 0 <= k < cuts@.len() ==> (#[trigger] cuts@[k]) as int == starts[k],
            forall|k: int| 0 <= k < starts.len() ==> 0 <= (#[trigger] starts[k]) < bytes.len(),
            forall|k: int, l: int| 0 <= k < l < starts.len() ==> starts[k] < starts[l],
            pages@.len() == k,
            forall|j: int| 0 <= j < k ==> (#[trigger] pages@[j])@ == pages_spec(bytes@)[j],
        decreases cuts.len() - k,
    {
        let from = cuts[k];
        let to = if k + 1 < cuts.len() { cuts[k + 1] } else { bytes.len() };
        assert(starts[k as int] == from);
        if k + 1 < cuts.len() {
            assert(starts[k + 1] == to);
        }
        let page = slice_subrange(bytes, from, to);
        pages.push(page);
        k += 1;
    }
    pages
}

/// A node of a rendered page: a leaf draws something, a container only
/// groups its children.
#[derive(Debug, PartialEq, Eq)]
pub struct DrawingNode {
    /// The bounding box of what the node draws, if it has an extent.
    pub bbox: Option<BoundingBox>,
    pub children: Vec<DrawingNode>,
}

/// The bounding boxes of the leaves under the nodes `nodes[from..]`, in
/// document order.
pub open spec fn forest_bboxes(nodes: Seq<DrawingNode>, from: int) -> Seq<BoundingBox>
    decreases nodes, nodes.len() - from,
{
    if 0 <= from < nodes.len() {
        leaf_bboxes(nodes[from]) + forest_bboxes(nodes, from + 1)
    } else {
        Seq::empty()
    }
}

/// The bounding boxes of the leaves of the tree under `node`, in document
/// order. The box of a container is left out: it is the union of the boxes
/// of its leaves and says nothing more.
pub open spec fn leaf_bboxes(node: DrawingNode) -> Seq<BoundingBox>
    decreases node,
{
    if node.children.len() == 0 {
        match node.bbox {
            Some(b) => seq![b],
            None => Seq::empty(),
        }
    } else {
        forest_bboxes(node.children@, 0)
    }
}

/// Appends the bounding boxes of the leaves under `node`.
fn collect_leaf_bboxes(node: &DrawingNode, out: &mut Vec<BoundingBox>)
    ensures
        final(out)@ == old(out)@ + leaf_bboxes(*node),
    decreases node,
{
    if node.children.len() == 0 {
        match node.bbox {
            Some(b) => {
                out.push(b);
                assert(out@ =~= old(out)@ + leaf_bboxes(*node));
            },
            None => {
                assert(out@ =~= old(out)@ + leaf_bboxes(*node));
            },
        }
    } else {
        let n = node.children.len();
        assert(out@ =~= old(out)@);
        let mut k: usize = 0;
        while k < n
            invariant
                k <= n,
                n == node.children.len(),
                old(out)@ + forest_bboxes(node.children@, 0) == out@ + forest_bboxes(
                    node.children@,
                    k as int,
                ),
            decreases n - k,
        {
            let ghost before = out@;
            collect_leaf_bboxes(&node.children[k], out);
            assert(before + forest_bboxes(node.children@, k as int) =~= out@ + forest_bboxes(
                node.children@,
                k + 1,
            ));
            k += 1;
        }
        assert(out@ + forest_bboxes(node.children@, n as int) =~= out@);
    }
}

/// The geometry index of a page: the bounding box of every leaf drawing
/// node of the tree under `root`, in document order.
pub fn paths_to_bboxes(root: &DrawingNode) -> (bboxes: Vec<BoundingBox>)
    ensures
        bboxes@ == leaf_bboxes(*root),
{
    let mut bboxes: Vec<BoundingBox> = Vec::new();
    collect_leaf_bboxes(root, &mut bboxes);
    assert(bboxes@ =~= leaf_bboxes(*root));
    bboxes
}

/// One glyph of a shaped run of text, in the units of its font: how far
/// the pen moves after it, how far it is moved off the pen, and its own
/// bounding box. The vertical axis of a font points up.
#[derive(Clone, Copy, Debug, PartialEq, Eq, Structural)]
pub struct GlyphPlacement {
    pub x_advance: i32,
    pub y_advance: i32,
    pub x_offset: i32,
    pub y_offset: i32,
    pub x_min: i16,
    pub y_min: i16,
    pub x_max: i16,
    pub y_max: i16,
}

/// The extent of a run of text around the place where its pen starts, in
/// the units of its font, with the vertical axis pointing down the page.
#[derive(Clone, Copy, Debug, PartialEq, Eq, Structural)]
pub struct RunExtent {
    pub left: i64,
    pub top: i64,
    pub right: i64,
    pub bottom: i64,
}

/// Where the pen stands before the glyph numbered `n`: the sum of the
/// advances of the glyphs before it, horizontal and vertical.
pub open spec fn pen_before(glyphs: Seq<GlyphPlacement>, n: int) -> (int, int)
    decreases n,
{
    if n <= 0 {
        (0, 0)
    } else {
        let pen = pen_before(glyphs, n - 1);
        (pen.0 + glyphs[n - 1].x_advance, pen.1 + glyphs[n - 1].y_advance)
    }
}

/// The four edges of the glyph numbered `k` on the page: left, top, right
/// and bottom.
pub open spec fn glyph_edges(glyphs: Seq<GlyphPlacement>, k: int) -> (int, int, int, int) {
    let pen = pen_before(glyphs, k);
    let g = glyphs[k];
    (
        pen.0 + g.x_offset + g.x_min,
        pen.1 - (g.y_offset + g.y_max),
        pen.0 + g.x_offset + g.x_max,
        pen.1 - (g.y_offset + g.y_min),
    )
}

/// The tight union of the edges of the first `n` glyphs; `None` for no
/// glyph.
pub open spec fn run_edges(glyphs: Seq<GlyphPlacement>, n: int) -> Option<(int, int, int, int)>
    decreases n,
{
    if n <= 0 {
        None
    } else {
        let g = glyph_edges(glyphs, n - 1);
        match run_edges(glyphs, n - 1) {
            None => Some(g),
            Some(e) => Some(
                (
                    if g.0 < e.0 { g.0 } else { e.0 },
                    if g.1 < e.1 { g.1 } else { e.1 },
                    if g.2 > e.2 { g.2 } else { e.2 },
                    if g.3 > e.3 { g.3 } else { e.3 },
                ),
            ),
        }
    }
}

/// Whether `v` is a 64-bit number.
pub open spec fn fits_i64(v: int) -> bool {
    i64::MIN <= v <= i64::MAX
}

/// Four edges that enclose a box: the left edge is not right of the right
/// edge, nor the top edge below the bottom edge.
pub open spec fn encloses(e: (int, int, int, int)) -> bool {
    e.0 <= e.2 && e.1 <= e.3
}

/// `extent` is the extent of the run `glyphs`: the tight union of the
/// edges of its glyphs where that exists, encloses a box and fits 64-bit
/// numbers, and `None` where it does not.
pub open spec fn is_run_extent(glyphs: Seq<GlyphPlacement>, extent: Option<RunExtent>) -> bool {
    match extent {
        Some(e) => {
            &&& run_edges(glyphs, glyphs.len() as int) == Some(
                (e.left as int, e.top as int, e.right as int, e.bottom as int),
            )
            &&& e.left <= e.right
            &&& e.top <= e.bottom
        },
        None => match run_edges(glyphs, glyphs.len() as int) {
            None => true,
            Some(e) => !(encloses(e) && fits_i64(e.0) && fits_i64(e.1) && fits_i64(e.2)
                && fits_i64(e.3)),
        },
    }
}

/// The extent of a shaped run of text: the tight union of the boxes of its
/// glyphs, each where the pen and its offset put it. `None` for a run
/// without glyphs, for one whose glyphs have boxes that are turned inside
/// out, so that the union encloses nothing, and for one whose extent is
/// beyond 64-bit numbers.
pub fn glyph_run_extent(glyphs: &[GlyphPlacement]) -> (extent: Option<RunExtent>)
    ensures
        is_run_extent(glyphs@, extent),
{
    if glyphs.len() == 0 {
        return None;
    }
    let mut pen_x: i128 = 0;
    let mut pen_y: i128 = 0;
    let mut left: i128 = 0;
    let mut top: i128 = 0;
    let mut right: i128 = 0;
    let mut bottom: i128 = 0;
    let mut i: usize = 0;
    while i < glyphs.len()
        invariant
            i <= glyphs.len(),
            glyphs.len() > 0,
            (pen_x as int, pen_y as int) == pen_before(glyphs@, i as int),
            -0x8000_0000 * i <= pen_x <= 0x8000_0000 * i,
            -0x8000_0000 * i <= pen_y <= 0x8000_0000 * i,
            i > 0 ==> run_edges(glyphs@, i as int) == Some(
                (left as int, top as int, right as int, bottom as int),
            ),
            -0x8000_0000 * (i + 2) <= left <= 0x8000_0000 * (i + 2),
            -0x8000_0000 * (i + 2) <= top <= 0x8000_0000 * (i + 2),
            -0x8000_0000 * (i + 2) <= right <= 0x8000_0000 * (i + 2),
            -0x8000_0000 * (i + 2) <= bottom <= 0x8000_0000 * (i + 2),
        decreases glyphs.len() - i,
    {
        let g = glyphs[i];
        let g_left: i128 = pen_x + g.x_offset as i128 + g.x_min as i128;
        let g_top: i128 = pen_y - (g.y_offset as i128 + g.y_max as i128);
        let g_right: i128 = pen_x + g.x_offset as i128 + g.x_max as i128;
        let g_bottom: i128 = pen_y - (g.y_offset as i128 + g.y_min as i128);
        if i == 0 {
            left = g_left;
            top = g_top;
            right = g_right;
            bottom = g_bottom;
        } else {
            left = if g_left < left { g_left } else { left };
            top = if g_top < top { g_top } else { top };
            right = if g_right > right { g_right } else { right };
            bottom = if g_bottom > bottom { g_bottom } else { bottom };
        }
        pen_x = pen_x + g.x_advance as i128;
        pen_y = pen_y + g.y_advance as i128;
        i += 1;
    }
    let low: i128 = i64::MIN as i128;
    let high: i128 = i64::MAX as i128;
    if left < low || left > high || top < low || top > high || right < low || right > high
        || bottom < low || bottom > high {
        return None;
    }
    if left > right || top > bottom {
        return None;
    }
    Some(RunExtent { left: left as i64, top: top as i64, right: right as i64, bottom: bottom as i64 })
}

/// The extent of every run of text of a page, in the order of the runs.
pub fn texts_to_bboxes(runs: &Vec<Vec<GlyphPlacement>>) -> (extents: Vec<Option<RunExtent>>)
    ensures
        extents@.len() == runs@.len(),
        forall|k: int| 0 <= k < runs@.len() ==> is_run_extent(runs@[k]@, #[trigger] extents@[k]),
{
    let mut extents: Vec<Option<RunExtent>> = Vec::new();
    let mut k: usize = 0;
    while k < runs.len()
        invariant
            k <= runs.len(),
            extents@.len() == k,
            forall|j: int| 0 <= j < k ==> is_run_extent(runs@[j]@, #[trigger] extents@[j]),
        decreases runs.len() - k,
    {
        let extent = glyph_run_extent(runs[k].as_slice());
        extents.push(extent);
        k += 1;
    }
    extents
}

} // verus!
