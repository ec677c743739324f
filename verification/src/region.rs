//! Region resolution: from the boxes that the position index reports for a
//! fragment to the place of the fragment on each rendered page.

use vstd::prelude::*;
use vstd::string::StringExecFns;
use crate::fragment::FragmentType;
use crate::text::{decimal, push_decimal};
use crate::svg::{
    lemma_band_extent_in_domain, refine_y_range, refined_y_spec, x_range_for_y_range,
    x_range_spec, Axis, PageGeometry,
};
use crate::synctex::{reported_on_line, IndexEntry, Scanner, TeXBox};
use crate::units::{to_output, to_output_spec, COORD_LIMIT, SP_LIMIT};

verus! {

/// The extent of one fragment on one page, in scaled points, with the
/// baseline taken from the widest box seen on that page.
#[derive(Clone, Copy, Debug, PartialEq, Eq)]
pub struct Region {
    pub x_range: (i64, i64),
    pub y_range: (i64, i64),
    pub baseline: i64,
    pub baseline_width: i64,
}

/// The region of a fragment on the page `page`.
#[derive(Clone, Copy, Debug, PartialEq, Eq)]
pub struct PageRegion {
    pub page: u32,
    pub region: Region,
}

/// The region that a single box spans.
pub open spec fn region_of_box(b: TeXBox) -> Region {
    Region {
        x_range: (b.x_low() as i64, b.x_high() as i64),
        y_range: (b.y_low() as i64, b.y_high() as i64),
        baseline: b.v as i64,
        baseline_width: b.width as i64,
    }
}

/// The region `r` after the box `b` is folded into it: both ranges grow to
/// take the box in, and the baseline moves to the box only if it is strictly
/// wider than every box before it.
pub open spec fn extend(r: Region, b: TeXBox) -> Region {
    Region {
        x_range: (
            if b.x_low() < r.x_range.0 { b.x_low() as i64 } else { r.x_range.0 },
            if b.x_high() > r.x_range.1 { b.x_high() as i64 } else { r.x_range.1 },
        ),
        y_range: (
            if b.y_low() < r.y_range.0 { b.y_low() as i64 } else { r.y_range.0 },
            if b.y_high() > r.y_range.1 { b.y_high() as i64 } else { r.y_range.1 },
        ),
        baseline: if b.width > r.baseline_width { b.v as i64 } else { r.baseline },
        baseline_width: if b.width > r.baseline_width { b.width as i64 } else { r.baseline_width },
    }
}

/// The region that the boxes of `folded` lying on `page` accumulate to, in
/// the order in which they were folded; `None` when none lies on that page.
pub open spec fn page_region(folded: Seq<TeXBox>, page: u32) -> Option<Region>
    decreases folded.len(),
{
    if folded.len() == 0 {
        None
    } else {
        let before = page_region(folded.drop_last(), page);
        let b = folded.last();
        if b.page == page {
            match before {
                None => Some(region_of_box(b)),
                Some(r) => Some(extend(r, b)),
            }
        } else {
            before
        }
    }
}

/// Of the boxes `candidates`, in order, those that are folded into a region
/// when `seen` holds the boxes folded earlier in the same render: a box is
/// folded when it covers some area and was not folded before.
pub open spec fn folded_boxes(candidates: Seq<TeXBox>, seen: Set<TeXBox>) -> Seq<TeXBox>
    decreases candidates.len(),
{
    if candidates.len() == 0 {
        Seq::empty()
    } else {
        let before = folded_boxes(candidates.drop_last(), seen);
        let b = candidates.last();
        if b.has_footprint() && !seen.contains(b) && !before.contains(b) {
            before.push(b)
        } else {
            before
        }
    }
}

/// What the scanner reports for the lines from `first` up to, not
/// including, `end`: the boxes of each line, line after line.
pub open spec fn boxes_of_lines(entries: Seq<IndexEntry>, first: usize, end: usize) -> Seq<TeXBox>
    decreases end - first,
{
    if end <= first {
        Seq::empty()
    } else {
        boxes_of_lines(entries, first, (end - 1) as usize) + reported_on_line(
            entries,
            (end - 1) as usize,
        )
    }
}

/// `regions` lists, by ascending page, the region of every page on which a
/// box of `folded` lies.
pub open spec fn is_page_table(regions: Seq<PageRegion>, folded: Seq<TeXBox>) -> bool {
    &&& forall|i: int, j: int|
        0 <= i < j < regions.len() ==> (#[trigger] regions[i]).page < (#[trigger] regions[j]).page
    &&& forall|i: int|
        0 <= i < regions.len() ==> page_region(folded, (#[trigger] regions[i]).page) == Some(
            regions[i].region,
        )
    &&& forall|page: u32|
        (#[trigger] page_region(folded, page)) is Some ==> exists|i: int|
            0 <= i < regions.len() && (#[trigger] regions[i]).page == page
}

/// Every folded box covers some area, none was seen before, and none is
/// folded twice.
pub proof fn lemma_folded_boxes(candidates: Seq<TeXBox>, seen: Set<TeXBox>)
    ensures
        forall|i: int|
            0 <= i < folded_boxes(candidates, seen).len() ==> {
                let b = #[trigger] folded_boxes(candidates, seen)[i];
                b.width > 0 && b.height + b.depth > 0 && !seen.contains(b) && candidates.contains(b)
            },
        folded_boxes(candidates, seen).no_duplicates(),
    decreases candidates.len(),
{
    if candidates.len() > 0 {
        let head = candidates.drop_last();
        lemma_folded_boxes(head, seen);
        let before = folded_boxes(head, seen);
        let all = folded_boxes(candidates, seen);
        assert forall|i: int| 0 <= i < all.len() implies candidates.contains(#[trigger] all[i]) by {
            if i < before.len() {
                let k = choose|k: int| 0 <= k < head.len() && head[k] == before[i];
                assert(candidates[k] == all[i]);
            } else {
                assert(candidates[candidates.len() - 1] == all[i]);
            }
        }
    }
}

/// The boxes folded so far in one render. It only grows: a box enters once
/// and stays.
pub struct SeenBoxes {
    boxes: Vec<TeXBox>,
}

impl View for SeenBoxes {
    type V = Set<TeXBox>;

    closed spec fn view(&self) -> Set<TeXBox> {
        self.boxes@.to_set()
    }
}

impl SeenBoxes {
    /// The state at the start of a render: nothing seen.
    pub fn new() -> (seen: SeenBoxes)
        ensures
            seen@ == Set::<TeXBox>::empty(),
    {
        let seen = SeenBoxes { boxes: Vec::new() };
        assert(seen.boxes@.to_set() =~= Set::<TeXBox>::empty());
        seen
    }

    /// Whether `b` was folded before.
    pub fn contains(&self, b: TeXBox) -> (found: bool)
        ensures
            found == self@.contains(b),
    {
        let mut i: usize = 0;
        while i < self.boxes.len()
            invariant
                i <= self.boxes.len(),
                forall|k: int| 0 <= k < i ==> self.boxes@[k] != b,
            decreases self.boxes.len() - i,
        {
            if self.boxes[i] == b {
                return true;
            }
            i += 1;
        }
        false
    }

    /// Records `b`. Returns whether it was new.
    pub fn insert(&mut self, b: TeXBox) -> (fresh: bool)
        ensures
            fresh == !old(self)@.contains(b),
            final(self)@ == old(self)@.insert(b),
    {
        if self.contains(b) {
            assert(self@ =~= self@.insert(b));
            false
        } else {
            let ghost before = self.boxes@;
            self.boxes.push(b);
            assert(self.boxes@.to_set() =~= before.to_set().insert(b)) by {
                assert forall|x: TeXBox| before.push(b).contains(x) <==> before.contains(x) || x
                    == b by {
                    if before.contains(x) {
                        let k = choose|k: int| 0 <= k < before.len() && before[k] == x;
                        assert(before.push(b)[k] == x);
                    }
                    if x == b {
                        assert(before.push(b)[before.len() as int] == x);
                    }
                }
            }
            true
        }
    }
}

/// Folds the box `b` into the table of regions.
fn fold_box(regions: &mut Vec<PageRegion>, b: TeXBox, Ghost(folded): Ghost<Seq<TeXBox>>)
    requires
        is_page_table(old(regions)@, folded),
    ensures
        is_page_table(final(regions)@, folded.push(b)),
{
    let ghost after = folded.push(b);
    assert(after.drop_last() =~= folded);
    assert(forall|page: u32|
        page != b.page ==> #[trigger] page_region(after, page) == page_region(folded, page));
    let x_low: i64 = b.h as i64;
    let x_high: i64 = b.h as i64 + b.width as i64;
    let y_low: i64 = b.v as i64 - b.height as i64;
    let y_high: i64 = b.v as i64 + b.depth as i64;
    let mut i: usize = 0;
    while i < regions.len() && regions[i].page < b.page
        invariant
            i <= regions.len(),
            forall|k: int| 0 <= k < i ==> (#[trigger] regions@[k]).page < b.page,
        decreases regions.len() - i,
    {
        i += 1;
    }
    let ghost old_regions = regions@;
    if i < regions.len() && regions[i].page == b.page {
        let r = regions[i].region;
        let wider = b.width as i64 > r.baseline_width;
        let grown = Region {
            x_range: (
                if x_low < r.x_range.0 { x_low } else { r.x_range.0 },
                if x_high > r.x_range.1 { x_high } else { r.x_range.1 },
            ),
            y_range: (
                if y_low < r.y_range.0 { y_low } else { r.y_range.0 },
                if y_high > r.y_range.1 { y_high } else { r.y_range.1 },
            ),
            baseline: if wider { b.v as i64 } else { r.baseline },
            baseline_width: if wider { b.width as i64 } else { r.baseline_width },
        };
        assert(grown == extend(r, b));
        regions.set(i, PageRegion { page: b.page, region: grown });
        assert forall|page: u32| (#[trigger] page_region(after, page)) is Some implies exists|
            k: int,
        |
            0 <= k < regions.len() && (#[trigger] regions@[k]).page == page by {
            if page == b.page {
                assert(regions@[i as int].page == page);
            } else {
                let k = choose|k: int|
                    0 <= k < old_regions.len() && (#[trigger] old_regions[k]).page == page;
                assert(regions@[k].page == page);
            }
        }
    } else {
        let fresh = Region {
            x_range: (x_low, x_high),
            y_range: (y_low, y_high),
            baseline: b.v as i64,
            baseline_width: b.width as i64,
        };
        assert(fresh == region_of_box(b));
        assert(page_region(folded, b.page) is None) by {
            if page_region(folded, b.page) is Some {
                let k = choose|k: int|
                    0 <= k < old_regions.len() && (#[trigger] old_regions[k]).page == b.page;
                if k < i {
                } else {
                    assert(old_regions[i as int].page <= old_regions[k].page);
                }
            }
        }
        regions.insert(i, PageRegion { page: b.page, region: fresh });
        assert forall|page: u32| (#[trigger] page_region(after, page)) is Some implies exists|
            k: int,
        |
            0 <= k < regions.len() && (#[trigger] regions@[k]).page == page by {
            if page == b.page {
                assert(regions@[i as int].page == page);
            } else {
                let k = choose|k: int|
                    0 <= k < old_regions.len() && (#[trigger] old_regions[k]).page == page;
                if k < i {
                    assert(regions@[k].page == page);
                } else {
                    assert(regions@[k + 1].page == page);
                }
            }
        }
        assert forall|k: int| 0 <= k < regions.len() implies page_region(
            after,
            (#[trigger] regions@[k]).page,
        ) == Some(regions@[k].region) by {
            if k < i {
                assert(regions@[k] == old_regions[k]);
            } else if k > i {
                assert(regions@[k] == old_regions[k - 1]);
            }
        }
        assert forall|k: int, l: int| 0 <= k < l < regions.len() implies (#[trigger] regions@[k]).page
            < (#[trigger] regions@[l]).page by {
            let pk = if k < i { old_regions[k] } else if k > i { old_regions[k - 1] } else { regions@[k] };
            let pl = if l < i { old_regions[l] } else if l > i { old_regions[l - 1] } else { regions@[l] };
            assert(regions@[k] == pk);
            assert(regions@[l] == pl);
            if l > i && k < i {
                assert(old_regions[i as int].page <= old_regions[l - 1].page);
            }
        }
    }
}

/// Queries the scanner for every line from `first_line` up to, not
/// including, `end_line`, and folds each reported box that covers some area
/// and was not seen before into the region of its page. The folded boxes
/// are recorded in `seen`.
pub fn collect_regions(
    scanner: &Scanner,
    first_line: usize,
    end_line: usize,
    seen: &mut SeenBoxes,
) -> (regions: Vec<PageRegion>)
    ensures
        final(seen)@ == old(seen)@.union(
            folded_boxes(boxes_of_lines(scanner@, first_line, end_line), old(seen)@).to_set(),
        ),
        is_page_table(
            regions@,
            folded_boxes(boxes_of_lines(scanner@, first_line, end_line), old(seen)@),
        ),
{
    let ghost seen0 = seen@;
    let mut regions: Vec<PageRegion> = Vec::new();
    if first_line >= end_line {
        assert(seen0.union(Seq::<TeXBox>::empty().to_set()) =~= seen0);
        return regions;
    }
    let mut line: usize = first_line;
    assert(seen0.union(Seq::<TeXBox>::empty().to_set()) =~= seen0);
    while line < end_line
        invariant
            first_line <= line <= end_line,
            seen@ == seen0.union(folded_boxes(boxes_of_lines(scanner@, first_line, line), seen0).to_set()),
            is_page_table(regions@, folded_boxes(boxes_of_lines(scanner@, first_line, line), seen0)),
        decreases end_line - line,
    {
        let boxes = scanner.query(line);
        let ghost base = boxes_of_lines(scanner@, first_line, line);
        let mut j: usize = 0;
        assert(base + boxes@.take(0) =~= base);
        while j < boxes.len()
            invariant
                j <= boxes.len(),
                seen@ == seen0.union(folded_boxes(base + boxes@.take(j as int), seen0).to_set()),
                is_page_table(regions@, folded_boxes(base + boxes@.take(j as int), seen0)),
            decreases boxes.len() - j,
        {
            let b = boxes[j];
            let ghost cands = base + boxes@.take(j as int);
            let ghost before = folded_boxes(cands, seen0);
            assert(base + boxes@.take(j + 1) =~= cands.push(b));
            assert(cands.push(b).drop_last() =~= cands);
            if b.is_visible() && seen.insert(b) {
                fold_box(&mut regions, b, Ghost(before));
                assert(seen0.union(before.to_set()).insert(b) =~= seen0.union(
                    before.push(b).to_set(),
                )) by {
                    assert forall|x: TeXBox| before.push(b).contains(x) <==> before.contains(x) || x
                        == b by {
                        if before.contains(x) {
                            let k = choose|k: int| 0 <= k < before.len() && before[k] == x;
                            assert(before.push(b)[k] == x);
                        }
                        if x == b {
                            assert(before.push(b)[before.len() as int] == x);
                        }
                    }
                }
            }
            j += 1;
        }
        assert(boxes@.take(j as int) =~= boxes@);
        line += 1;
    }
    regions
}

/// What [`page_region`] accumulates, said without the order of folding:
/// a page has a region exactly when a box lies on it; the two ranges are the
/// tight union of the extents of its boxes; and the baseline is that of the
/// first among its widest boxes.
pub proof fn lemma_page_region(folded: Seq<TeXBox>, page: u32)
    ensures
        page_region(folded, page) is None <==> forall|i: int|
            0 <= i < folded.len() ==> (#[trigger] folded[i]).page != page,
        page_region(folded, page) matches Some(r) ==> {
            &&& forall|i: int|
                0 <= i < folded.len() && (#[trigger] folded[i]).page == page ==> {
                    &&& r.x_range.0 <= folded[i].x_low()
                    &&& folded[i].x_high() <= r.x_range.1
                    &&& r.y_range.0 <= folded[i].y_low()
                    &&& folded[i].y_high() <= r.y_range.1
                    &&& folded[i].width <= r.baseline_width
                }
            &&& exists|i: int|
                0 <= i < folded.len() && (#[trigger] folded[i]).page == page && folded[i].x_low()
                    == r.x_range.0
            &&& exists|i: int|
                0 <= i < folded.len() && (#[trigger] folded[i]).page == page && folded[i].x_high()
                    == r.x_range.1
            &&& exists|i: int|
                0 <= i < folded.len() && (#[trigger] folded[i]).page == page && folded[i].y_low()
                    == r.y_range.0
            &&& exists|i: int|
                0 <= i < folded.len() && (#[trigger] folded[i]).page == page && folded[i].y_high()
                    == r.y_range.1
            &&& exists|i: int|
                0 <= i < folded.len() && (#[trigger] folded[i]).page == page && folded[i].width
                    == r.baseline_width && folded[i].v == r.baseline && forall|j: int|
                    0 <= j < i && (#[trigger] folded[j]).page == page ==> folded[j].width
                        < folded[i].width
            &&& region_bounded(r)
        },
    decreases folded.len(),
{
    if folded.len() > 0 {
        let head = folded.drop_last();
        let n = folded.len() - 1;
        lemma_page_region(head, page);
        assert(forall|i: int| 0 <= i < n ==> head[i] == folded[i]);
        match page_region(folded, page) {
            None => {},
            Some(r) => {
                match page_region(head, page) {
                    None => {
                        assert(folded[n].page == page && folded[n].x_low() == r.x_range.0);
                        assert(folded[n].page == page && folded[n].x_high() == r.x_range.1);
                        assert(folded[n].page == page && folded[n].y_low() == r.y_range.0);
                        assert(folded[n].page == page && folded[n].y_high() == r.y_range.1);
                        assert(folded[n].page == page && folded[n].width == r.baseline_width
                            && folded[n].v == r.baseline);
                    },
                    Some(h) => {
                        let b = folded[n];
                        let on_page = b.page == page;
                        let a = choose|i: int|
                            0 <= i < head.len() && (#[trigger] head[i]).page == page
                                && head[i].x_low() == h.x_range.0;
                        let a = if on_page && b.x_low() < h.x_range.0 { n } else { a };
                        assert(folded[a].page == page && folded[a].x_low() == r.x_range.0);
                        let c = choose|i: int|
                            0 <= i < head.len() && (#[trigger] head[i]).page == page
                                && head[i].x_high() == h.x_range.1;
                        let c = if on_page && b.x_high() > h.x_range.1 { n } else { c };
                        assert(folded[c].page == page && folded[c].x_high() == r.x_range.1);
                        let d = choose|i: int|
                            0 <= i < head.len() && (#[trigger] head[i]).page == page
                                && head[i].y_low() == h.y_range.0;
                        let d = if on_page && b.y_low() < h.y_range.0 { n } else { d };
                        assert(folded[d].page == page && folded[d].y_low() == r.y_range.0);
                        let e = choose|i: int|
                            0 <= i < head.len() && (#[trigger] head[i]).page == page
                                && head[i].y_high() == h.y_range.1;
                        let e = if on_page && b.y_high() > h.y_range.1 { n } else { e };
                        assert(folded[e].page == page && folded[e].y_high() == r.y_range.1);
                        let w = choose|i: int|
                            0 <= i < head.len() && (#[trigger] head[i]).page == page
                                && head[i].width == h.baseline_width && head[i].v == h.baseline
                                && forall|j: int|
                                0 <= j < i && (#[trigger] head[j]).page == page ==> head[j].width
                                    < head[i].width;
                        let w = if on_page && b.width > h.baseline_width { n } else { w };
                        assert(folded[w].page == page && folded[w].width == r.baseline_width
                            && folded[w].v == r.baseline);
                        assert(forall|j: int|
                            0 <= j < w && (#[trigger] folded[j]).page == page ==> folded[j].width
                                < folded[w].width);
                    },
                }
            },
        }
    }
}

/// Every coordinate of the region is one that boxes of the position index
/// can reach.
pub open spec fn region_bounded(r: Region) -> bool {
    &&& -SP_LIMIT <= r.x_range.0 <= SP_LIMIT
    &&& -SP_LIMIT <= r.x_range.1 <= SP_LIMIT
    &&& -SP_LIMIT <= r.y_range.0 <= SP_LIMIT
    &&& -SP_LIMIT <= r.y_range.1 <= SP_LIMIT
    &&& -SP_LIMIT <= r.baseline <= SP_LIMIT
}

/// The intersection tolerance and the two margins, in output units.
#[derive(Clone, Copy, Debug, PartialEq, Eq, Structural)]
pub struct Tolerances {
    /// How far a drawing node may lie outside the typeset vertical range and
    /// still count as part of the fragment.
    pub y_range_tol: i64,
    /// Blank space added left and right of a fragment.
    pub x_range_margin: i64,
    /// Blank space added above and below a display fragment.
    pub y_range_margin: i64,
}

impl Tolerances {
    /// None of the three is negative or beyond the coordinate domain.
    pub open spec fn wf(&self) -> bool {
        &&& 0 <= self.y_range_tol <= COORD_LIMIT
        &&& 0 <= self.x_range_margin <= COORD_LIMIT
        &&& 0 <= self.y_range_margin <= COORD_LIMIT
    }

    /// Exec counterpart of [`Tolerances::wf`].
    pub fn is_wf(&self) -> (ok: bool)
        ensures
            ok == self.wf(),
    {
        0 <= self.y_range_tol && self.y_range_tol <= COORD_LIMIT && 0 <= self.x_range_margin
            && self.x_range_margin <= COORD_LIMIT && 0 <= self.y_range_margin
            && self.y_range_margin <= COORD_LIMIT
    }
}

/// Where the image of a fragment sits on a rendered page, in output units.
#[derive(Clone, Copy, Debug, PartialEq, Eq, Structural)]
pub struct PositionedImage {
    pub page: u32,
    pub x: i64,
    pub y: i64,
    pub width: i64,
    pub height: i64,
    /// How far the lower edge of the image lies below the baseline of the
    /// surrounding text; 0 for fragments that are not inline.
    pub baseline_offset: i64,
}

/// Whether fragments of this kind have their vertical range refined
/// against the drawing nodes.
pub open spec fn refines_vertically(kind: FragmentType) -> bool {
    kind == FragmentType::DisplayMath || kind == FragmentType::RawBlock
}

/// The horizontal range of the image: the refined one with its margin, or,
/// when no drawing node touches the band, the typeset one with the margin.
pub open spec fn placed_x_range(r: Region, geometry: PageGeometry, tol: Tolerances) -> (int, int) {
    let y_min = to_output_spec(r.y_range.0 as int, geometry.top as int);
    let y_max = to_output_spec(r.y_range.1 as int, geometry.top as int);
    match x_range_spec(
        geometry.bboxes@,
        y_min,
        y_max,
        tol.y_range_tol as int,
        tol.x_range_margin as int,
    ) {
        Some(range) => range,
        None => (
            to_output_spec(r.x_range.0 as int, 0) - tol.x_range_margin,
            to_output_spec(r.x_range.1 as int, 0) + tol.x_range_margin,
        ),
    }
}

/// The vertical range of the image.
pub open spec fn placed_y_range(
    kind: FragmentType,
    r: Region,
    geometry: PageGeometry,
    tol: Tolerances,
) -> (int, int) {
    let y_min = to_output_spec(r.y_range.0 as int, geometry.top as int);
    let y_max = to_output_spec(r.y_range.1 as int, geometry.top as int);
    if refines_vertically(kind) {
        refined_y_spec(
            geometry.bboxes@,
            y_min,
            y_max,
            tol.y_range_tol as int,
            tol.y_range_margin as int,
        )
    } else {
        (y_min, y_max)
    }
}

/// The image of a fragment of kind `kind` whose region on a page is `pr`.
pub open spec fn place_spec(
    kind: FragmentType,
    pr: PageRegion,
    geometry: PageGeometry,
    tol: Tolerances,
) -> PositionedImage {
    let xs = placed_x_range(pr.region, geometry, tol);
    let ys = placed_y_range(kind, pr.region, geometry, tol);
    let baseline = to_output_spec(pr.region.baseline as int, geometry.top as int);
    PositionedImage {
        page: pr.page,
        x: xs.0 as i64,
        y: ys.0 as i64,
        width: (xs.1 - xs.0) as i64,
        height: (ys.1 - ys.0) as i64,
        baseline_offset: if kind == FragmentType::InlineMath {
            (ys.1 - baseline) as i64
        } else {
            0
        },
    }
}

/// Places the region of a fragment on its page: converts it to output
/// units, refines it against the drawing nodes of the page and adds the
/// margins.
pub fn place_region(
    kind: FragmentType,
    pr: PageRegion,
    geometry: &PageGeometry,
    tol: Tolerances,
) -> (image: PositionedImage)
    requires
        kind != FragmentType::DontShow,
        region_bounded(pr.region),
        geometry.wf(),
        tol.wf(),
    ensures
        image == place_spec(kind, pr, *geometry, tol),
{
    let r = pr.region;
    let y_min: i64 = to_output(r.y_range.0, geometry.top);
    let y_max: i64 = to_output(r.y_range.1, geometry.top);
    let baseline: i64 = to_output(r.baseline, geometry.top);
    proof {
        lemma_band_extent_in_domain(
            geometry.bboxes@,
            y_min - tol.y_range_tol,
            y_max + tol.y_range_tol,
            Axis::Horizontal,
        );
        lemma_band_extent_in_domain(
            geometry.bboxes@,
            y_min - tol.y_range_tol,
            y_max + tol.y_range_tol,
            Axis::Vertical,
        );
    }
    let xs: (i64, i64) = match x_range_for_y_range(
        geometry.bboxes.as_slice(),
        y_min,
        y_max,
        tol.y_range_tol,
        tol.x_range_margin,
    ) {
        Some(range) => range,
        None => (
            to_output(r.x_range.0, 0) - tol.x_range_margin,
            to_output(r.x_range.1, 0) + tol.x_range_margin,
        ),
    };
    let ys: (i64, i64) = match kind {
        FragmentType::DisplayMath | FragmentType::RawBlock => refine_y_range(
            geometry.bboxes.as_slice(),
            y_min,
            y_max,
            tol.y_range_tol,
            tol.y_range_margin,
        ),
        _ => (y_min, y_max),
    };
    let baseline_offset: i64 = match kind {
        FragmentType::InlineMath => ys.1 - baseline,
        _ => 0,
    };
    PositionedImage {
        page: pr.page,
        x: xs.0,
        y: ys.0,
        width: xs.1 - xs.0,
        height: ys.1 - ys.0,
        baseline_offset,
    }
}

/// Why a fragment could not be given a place.
#[derive(Debug, PartialEq, Eq)]
pub enum PositionResolutionFailure {
    /// The position index holds no box for the fragment.
    NoBoxes,
    /// An inline fragment has boxes on more than one page; the pages are
    /// listed in ascending order. Breaking the document into pages where
    /// inline maths can be split is what brings this about.
    SpansPages(Vec<u32>),
    /// A box of the fragment lies on a page that was not rendered.
    PageNotRendered(u32),
}

/// A list of pages as it is written: the numbers between brackets, parted
/// by a comma and a blank.
pub open spec fn page_list_text(pages: Seq<u32>) -> Seq<char>
    decreases pages.len(),
{
    if pages.len() == 0 {
        "["@
    } else if pages.len() == 1 {
        "["@ + decimal(pages[0] as nat)
    } else {
        page_list_text(pages.drop_last()) + ", "@ + decimal(pages.last() as nat)
    }
}

/// What is said of a failure to whoever runs the render. `src` is the
/// source text of the fragment.
pub open spec fn diagnostic_spec(failure: PositionResolutionFailure, src: Seq<char>) -> Seq<char> {
    match failure {
        PositionResolutionFailure::NoBoxes => "no boxes for "@ + src,
        PositionResolutionFailure::SpansPages(pages) => "inline fragments '"@ + src
            + "' spans multiple pages "@ + page_list_text(pages@) + "]"@
            + " (did you disable page numbering?)"@,
        PositionResolutionFailure::PageNotRendered(page) => "fragment '"@ + src
            + "' has a box on page "@ + decimal(page as nat) + ", which was not rendered"@,
    }
}

impl PositionResolutionFailure {
    /// The failure in words. It names the source text of the fragment, and
    /// for an inline fragment on several pages it says what to look at.
    pub fn diagnostic(&self, src: &str) -> (text: String)
        ensures
            text@ == diagnostic_spec(*self, src@),
    {
        match self {
            PositionResolutionFailure::NoBoxes => {
                let mut text = String::from_str("no boxes for ");
                text.append(src);
                text
            },
            PositionResolutionFailure::SpansPages(pages) => {
                let mut text = String::from_str("inline fragments '");
                text.append(src);
                text.append("' spans multiple pages ");
                let ghost head = text@;
                text.append("[");
                let mut i: usize = 0;
                while i < pages.len()
                    invariant
                        i <= pages.len(),
                        text@ == head + page_list_text(pages@.take(i as int)),
                    decreases pages.len() - i,
                {
                    assert(pages@.take(i + 1).drop_last() =~= pages@.take(i as int));
                    let ghost before = text@;
                    if i > 0 {
                        text.append(", ");
                    }
                    push_decimal(&mut text, pages[i] as u128);
                    assert(text@ =~= head + page_list_text(pages@.take(i + 1)));
                    i += 1;
                }
                assert(pages@.take(i as int) =~= pages@);
                text.append("]");
                text.append(" (did you disable page numbering?)");
                assert(text@ =~= diagnostic_spec(*self, src@));
                text
            },
            PositionResolutionFailure::PageNotRendered(page) => {
                let mut text = String::from_str("fragment '");
                text.append(src);
                text.append("' has a box on page ");
                push_decimal(&mut text, *page as u128);
                text.append(", which was not rendered");
                assert(text@ =~= diagnostic_spec(*self, src@));
                text
            },
        }
    }
}

/// Whether `pages` holds the geometry of page `page`; pages count from 1.
pub open spec fn page_rendered(page: u32, pages: Seq<PageGeometry>) -> bool {
    1 <= page <= pages.len()
}

/// The pages of a table of regions, in its order.
pub open spec fn pages_of(regions: Seq<PageRegion>) -> Seq<u32> {
    Seq::new(regions.len(), |i: int| regions[i].page)
}

/// The image of every region of the table, in its order.
pub open spec fn placed(
    kind: FragmentType,
    regions: Seq<PageRegion>,
    pages: Seq<PageGeometry>,
    tol: Tolerances,
) -> Seq<PositionedImage> {
    Seq::new(
        regions.len(),
        |i: int| place_spec(kind, regions[i], pages[regions[i].page - 1], tol),
    )
}

/// Whether every page geometry of `pages` is well formed.
pub open spec fn all_pages_wf(pages: Seq<PageGeometry>) -> bool {
    forall|i: int| 0 <= i < pages.len() ==> (#[trigger] pages[i]).wf()
}

/// Turns the regions that a fragment accumulated into its images, one per
/// page. Fails when there is no region, when an inline fragment has more
/// than one, or when a region lies on a page that was not rendered; in that
/// order.
pub fn resolve_regions(
    kind: FragmentType,
    regions: &Vec<PageRegion>,
    pages: &Vec<PageGeometry>,
    tol: Tolerances,
) -> (result: Result<Vec<PositionedImage>, PositionResolutionFailure>)
    requires
        kind != FragmentType::DontShow,
        forall|i: int| 0 <= i < regions.len() ==> region_bounded((#[trigger] regions[i]).region),
        all_pages_wf(pages@),
        tol.wf(),
    ensures
        match result {
            Ok(images) => {
                &&& regions.len() > 0
                &&& kind == FragmentType::InlineMath ==> regions.len() == 1
                &&& forall|i: int|
                    0 <= i < regions.len() ==> page_rendered((#[trigger] regions[i]).page, pages@)
                &&& images@ == placed(kind, regions@, pages@, tol)
            },
            Err(PositionResolutionFailure::NoBoxes) => regions.len() == 0,
            Err(PositionResolutionFailure::SpansPages(listed)) => {
                &&& kind == FragmentType::InlineMath
                &&& regions.len() > 1
                &&& listed@ == pages_of(regions@)
            },
            Err(PositionResolutionFailure::PageNotRendered(page)) => {
                &&& regions.len() > 0
                &&& kind == FragmentType::InlineMath ==> regions.len() == 1
                &&& exists|i: int|
                    0 <= i < regions.len() && (#[trigger] regions[i]).page == page
                        && !page_rendered(page, pages@) && forall|j: int|
                        0 <= j < i ==> page_rendered((#[trigger] regions[j]).page, pages@)
            },
        },
{
    if regions.len() == 0 {
        return Err(PositionResolutionFailure::NoBoxes);
    }
    if kind == FragmentType::InlineMath && regions.len() > 1 {
        let mut listed: Vec<u32> = Vec::new();
        let mut k: usize = 0;
        while k < regions.len()
            invariant
                k <= regions.len(),
                listed@ == pages_of(regions@).take(k as int),
            decreases regions.len() - k,
        {
            listed.push(regions[k].page);
            assert(listed@ =~= pages_of(regions@).take(k + 1));
            k += 1;
        }
        assert(listed@ =~= pages_of(regions@));
        return Err(PositionResolutionFailure::SpansPages(listed));
    }
    let mut images: Vec<PositionedImage> = Vec::new();
    let mut i: usize = 0;
    while i < regions.len()
        invariant
            i <= regions.len(),
            kind != FragmentType::DontShow,
            forall|i: int|
                0 <= i < regions.len() ==> region_bounded((#[trigger] regions[i]).region),
            all_pages_wf(pages@),
            tol.wf(),
            forall|j: int| 0 <= j < i ==> page_rendered((#[trigger] regions[j]).page, pages@),
            images@ == placed(kind, regions@, pages@, tol).take(i as int),
            regions.len() > 0,
            kind == FragmentType::InlineMath ==> regions.len() == 1,
        decreases regions.len() - i,
    {
        let pr = regions[i];
        if pr.page == 0 || pr.page as usize > pages.len() {
            assert(regions[i as int].page == pr.page);
            return Err(PositionResolutionFailure::PageNotRendered(pr.page));
        }
        let index: usize = (pr.page - 1) as usize;
        assert(pages@[index as int].wf());
        let image = place_region(kind, pr, &pages[index], tol);
        images.push(image);
        assert(images@ =~= placed(kind, regions@, pages@, tol).take(i + 1));
        i += 1;
    }
    assert(images@ =~= placed(kind, regions@, pages@, tol));
    Ok(images)
}

/// All boxes lie on the same page.
pub open spec fn on_one_page(folded: Seq<TeXBox>) -> bool {
    forall|i: int, j: int|
        0 <= i < folded.len() && 0 <= j < folded.len() ==> (#[trigger] folded[i]).page
            == (#[trigger] folded[j]).page
}

/// Some box lies on the page `page`.
pub open spec fn has_page(folded: Seq<TeXBox>, page: u32) -> bool {
    exists|i: int| 0 <= i < folded.len() && (#[trigger] folded[i]).page == page
}

/// `listed` names, in ascending order and each once, the pages on which the
/// boxes of `folded` lie.
pub open spec fn lists_pages(listed: Seq<u32>, folded: Seq<TeXBox>) -> bool {
    &&& forall|k: int, l: int| 0 <= k < l < listed.len() ==> listed[k] < listed[l]
    &&& forall|page: u32|
        #![trigger listed.contains(page)]
        #![trigger has_page(folded, page)]
        listed.contains(page) <==> has_page(folded, page)
}

/// The pages of the images, in their order.
pub open spec fn image_pages(images: Seq<PositionedImage>) -> Seq<u32> {
    Seq::new(images.len(), |k: int| images[k].page)
}

/// `images` holds, by ascending page, one image for every page on which a
/// box of `folded` lies: the placed region of the boxes on that page.
pub open spec fn is_placement(
    images: Seq<PositionedImage>,
    kind: FragmentType,
    folded: Seq<TeXBox>,
    pages: Seq<PageGeometry>,
    tol: Tolerances,
) -> bool {
    &&& lists_pages(image_pages(images), folded)
    &&& forall|k: int|
        0 <= k < images.len() ==> {
            let page = (#[trigger] images[k]).page;
            &&& page_region(folded, page) is Some
            &&& images[k] == place_spec(
                kind,
                PageRegion { page, region: page_region(folded, page)->0 },
                pages[page - 1],
                tol,
            )
        }
}

/// The pages of a table of regions are the pages of the boxes folded into
/// it.
proof fn lemma_table_lists_pages(regions: Seq<PageRegion>, folded: Seq<TeXBox>)
    requires
        is_page_table(regions, folded),
    ensures
        lists_pages(pages_of(regions), folded),
        regions.len() == 0 <==> folded.len() == 0,
        regions.len() <= 1 <==> on_one_page(folded),
        forall|i: int| 0 <= i < regions.len() ==> region_bounded((#[trigger] regions[i]).region),
{
    let listed = pages_of(regions);
    assert forall|page: u32| listed.contains(page) <==> has_page(folded, page) by {
        lemma_page_region(folded, page);
        if listed.contains(page) {
            let k = choose|k: int| 0 <= k < listed.len() && listed[k] == page;
            assert(regions[k].page == page);
        }
        if has_page(folded, page) {
            let k = choose|k: int| 0 <= k < regions.len() && (#[trigger] regions[k]).page == page;
            assert(listed[k] == page);
        }
    }
    assert forall|i: int| 0 <= i < regions.len() implies region_bounded(
        (#[trigger] regions[i]).region,
    ) by {
        lemma_page_region(folded, regions[i].page);
    }
    if regions.len() > 0 {
        assert(listed[0] == regions[0].page);
        assert(listed.contains(regions[0].page));
    }
    if folded.len() > 0 {
        assert(has_page(folded, folded[0].page));
        assert(listed.contains(folded[0].page));
    }
    if regions.len() > 1 {
        assert(regions[0].page < regions[1].page);
        assert(listed[0] == regions[0].page && listed[1] == regions[1].page);
        assert(listed.contains(regions[0].page) && listed.contains(regions[1].page));
        let i = choose|i: int| 0 <= i < folded.len() && (#[trigger] folded[i]).page == regions[0].page;
        let j = choose|j: int| 0 <= j < folded.len() && (#[trigger] folded[j]).page == regions[1].page;
        assert(folded[i].page != folded[j].page);
    }
    if !on_one_page(folded) {
        let (i, j) = choose|i: int, j: int|
            0 <= i < folded.len() && 0 <= j < folded.len() && (#[trigger] folded[i]).page != (
            #[trigger] folded[j]).page;
        assert(has_page(folded, folded[i].page));
        assert(has_page(folded, folded[j].page));
        let k = choose|k: int| 0 <= k < listed.len() && listed[k] == folded[i].page;
        let l = choose|l: int| 0 <= l < listed.len() && listed[l] == folded[j].page;
        assert(k != l);
    }
}

/// What resolving a fragment of the kind `kind` comes to when `folded`
/// are the boxes folded for it: its images by ascending page, or the first
/// of the three failures that applies.
pub open spec fn resolves_to(
    kind: FragmentType,
    folded: Seq<TeXBox>,
    pages: Seq<PageGeometry>,
    tol: Tolerances,
    result: Result<Vec<PositionedImage>, PositionResolutionFailure>,
) -> bool {
    match result {
        Ok(images) => {
            &&& folded.len() > 0
            &&& kind == FragmentType::InlineMath ==> on_one_page(folded)
            &&& forall|i: int|
                0 <= i < folded.len() ==> page_rendered((#[trigger] folded[i]).page, pages)
            &&& is_placement(images@, kind, folded, pages, tol)
        },
        Err(PositionResolutionFailure::NoBoxes) => folded.len() == 0,
        Err(PositionResolutionFailure::SpansPages(listed)) => {
            &&& kind == FragmentType::InlineMath
            &&& !on_one_page(folded)
            &&& lists_pages(listed@, folded)
        },
        Err(PositionResolutionFailure::PageNotRendered(page)) => {
            &&& folded.len() > 0
            &&& kind == FragmentType::InlineMath ==> on_one_page(folded)
            &&& !page_rendered(page, pages)
            &&& has_page(folded, page)
            &&& forall|i: int|
                0 <= i < folded.len() && (#[trigger] folded[i]).page < page ==> page_rendered(
                    folded[i].page,
                    pages,
                )
        },
    }
}

/// A fragment for which no box is found is never given an image, not even
/// an empty one: resolving it fails.
pub proof fn lemma_no_boxes_fails(
    kind: FragmentType,
    folded: Seq<TeXBox>,
    pages: Seq<PageGeometry>,
    tol: Tolerances,
    result: Result<Vec<PositionedImage>, PositionResolutionFailure>,
)
    requires
        resolves_to(kind, folded, pages, tol, result),
    ensures
        folded.len() == 0 <==> result == Err::<
            Vec<PositionedImage>,
            PositionResolutionFailure,
        >(PositionResolutionFailure::NoBoxes),
{
    if folded.len() == 0 {
        if let Err(PositionResolutionFailure::SpansPages(listed)) = result {
            assert(on_one_page(folded));
        }
    }
}

/// An inline fragment with boxes on two different pages is never placed
/// on one of them: resolving it fails, and the failure lists the pages.
pub proof fn lemma_inline_on_two_pages_fails(
    folded: Seq<TeXBox>,
    pages: Seq<PageGeometry>,
    tol: Tolerances,
    result: Result<Vec<PositionedImage>, PositionResolutionFailure>,
    i: int,
    j: int,
)
    requires
        resolves_to(FragmentType::InlineMath, folded, pages, tol, result),
        0 <= i < folded.len(),
        0 <= j < folded.len(),
        folded[i].page != folded[j].page,
    ensures
        result matches Err(PositionResolutionFailure::SpansPages(listed)) && listed@.contains(
            folded[i].page,
        ) && listed@.contains(folded[j].page),
{
    assert(!on_one_page(folded));
    assert(has_page(folded, folded[i].page));
    assert(has_page(folded, folded[j].page));
}

/// A fragment that is placed has at least one image, and an inline
/// fragment exactly one.
pub proof fn lemma_placed_images(
    kind: FragmentType,
    folded: Seq<TeXBox>,
    pages: Seq<PageGeometry>,
    tol: Tolerances,
    images: Vec<PositionedImage>,
)
    requires
        resolves_to(kind, folded, pages, tol, Ok(images)),
    ensures
        images@.len() >= 1,
        kind == FragmentType::InlineMath ==> images@.len() == 1,
{
    let listed = image_pages(images@);
    assert(has_page(folded, folded[0].page));
    assert(listed.contains(folded[0].page));
    if kind == FragmentType::InlineMath && listed.len() > 1 {
        assert(listed.contains(listed[0]));
        assert(listed.contains(listed[1]));
        let i = choose|i: int| 0 <= i < folded.len() && (#[trigger] folded[i]).page == listed[0];
        let j = choose|j: int| 0 <= j < folded.len() && (#[trigger] folded[j]).page == listed[1];
        assert(folded[i].page == folded[j].page);
    }
}

/// Resolves one fragment whose expansion occupies the source lines from
/// `first_line` up to, not including, `end_line`: folds the boxes that the
/// scanner reports for these lines and that were not seen before into one
/// region per page, and places each region on its page.
///
/// A fragment that is not shown is given no image and is not looked up.
pub fn resolve_fragment(
    kind: FragmentType,
    first_line: usize,
    end_line: usize,
    scanner: &Scanner,
    seen: &mut SeenBoxes,
    pages: &Vec<PageGeometry>,
    tol: Tolerances,
) -> (result: Result<Vec<PositionedImage>, PositionResolutionFailure>)
    requires
        all_pages_wf(pages@),
        tol.wf(),
    ensures
        kind == FragmentType::DontShow ==> final(seen)@ == old(seen)@ && (result matches Ok(images)
            && images@.len() == 0),
        kind != FragmentType::DontShow ==> final(seen)@ == old(seen)@.union(
            folded_boxes(boxes_of_lines(scanner@, first_line, end_line), old(seen)@).to_set(),
        ) && resolves_to(
            kind,
            folded_boxes(boxes_of_lines(scanner@, first_line, end_line), old(seen)@),
            pages@,
            tol,
            result,
        ),
{
    if kind == FragmentType::DontShow {
        return Ok(Vec::new());
    }
    let ghost folded = folded_boxes(boxes_of_lines(scanner@, first_line, end_line), seen@);
    let regions = collect_regions(scanner, first_line, end_line, seen);
    proof {
        lemma_table_lists_pages(regions@, folded);
    }
    let result = resolve_regions(kind, &regions, pages, tol);
    let ghost outcome = result;
    proof {
        let listed = pages_of(regions@);
        match outcome {
            Ok(images) => {
                assert(image_pages(images@) =~= listed);
                assert forall|i: int| 0 <= i < folded.len() implies page_rendered(
                    (#[trigger] folded[i]).page,
                    pages@,
                ) by {
                    assert(has_page(folded, folded[i].page));
                    let k = choose|k: int| 0 <= k < listed.len() && listed[k] == folded[i].page;
                    assert(regions@[k].page == folded[i].page);
                }
                assert forall|k: int| 0 <= k < images@.len() implies {
                    let page = (#[trigger] images@[k]).page;
                    &&& page_region(folded, page) is Some
                    &&& images@[k] == place_spec(
                        kind,
                        PageRegion { page, region: page_region(folded, page)->0 },
                        pages@[page - 1],
                        tol,
                    )
                } by {
                    assert(images@[k] == place_spec(
                        kind,
                        regions@[k],
                        pages@[regions@[k].page - 1],
                        tol,
                    ));
                    assert(regions@[k] == PageRegion {
                        page: regions@[k].page,
                        region: regions@[k].region,
                    });
                }
            },
            Err(PositionResolutionFailure::NoBoxes) => {},
            Err(PositionResolutionFailure::SpansPages(_)) => {},
            Err(PositionResolutionFailure::PageNotRendered(page)) => {
                let at = choose|i: int|
                    0 <= i < regions@.len() && (#[trigger] regions@[i]).page == page
                        && !page_rendered(page, pages@) && forall|j: int|
                        0 <= j < i ==> page_rendered((#[trigger] regions@[j]).page, pages@);
                assert(listed[at] == page);
                assert(listed.contains(page));
                assert forall|i: int|
                    0 <= i < folded.len() && (#[trigger] folded[i]).page < page implies page_rendered(
                    folded[i].page,
                    pages@,
                ) by {
                    assert(has_page(folded, folded[i].page));
                    let k = choose|k: int| 0 <= k < listed.len() && listed[k] == folded[i].page;
                    assert(regions@[k].page == folded[i].page);
                    if k >= at {
                        assert(regions@[at].page <= regions@[k].page);
                    }
                }
            },
        }
    }
    result
}

} // verus!
