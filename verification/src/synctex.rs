//! The position index of a typeset document: which boxes the typesetter
//! laid out for which line of its source.

use vstd::prelude::*;

verus! {

/// One box of the position index, in scaled points. `h` and `v` locate the
/// reference point of the box on page `page`; the box reaches `height` above
/// it, `depth` below it and `width` to its right.
#[derive(Clone, Copy, Debug, PartialEq, Eq, Hash, Structural)]
pub struct TeXBox {
    pub h: i32,
    pub v: i32,
    pub height: i32,
    pub width: i32,
    pub depth: i32,
    pub page: u32,
}

impl TeXBox {
    /// A box without width or without extent is left behind by the page
    /// breaker and stands for nothing in the source.
    pub open spec fn is_artifact(&self) -> bool {
        self.width == 0 || self.height + self.depth == 0
    }

    /// A box covers some area of the page: only such a box is folded into
    /// a region.
    pub open spec fn has_footprint(&self) -> bool {
        self.width > 0 && self.height + self.depth > 0
    }

    /// Left edge.
    pub open spec fn x_low(&self) -> int {
        self.h as int
    }

    /// Right edge.
    pub open spec fn x_high(&self) -> int {
        self.h + self.width
    }

    /// Upper edge; the vertical axis points down the page.
    pub open spec fn y_low(&self) -> int {
        self.v - self.height
    }

    /// Lower edge.
    pub open spec fn y_high(&self) -> int {
        self.v + self.depth
    }

    /// Exec counterpart of [`TeXBox::is_artifact`].
    pub fn is_empty(&self) -> (empty: bool)
        ensures
            empty == self.is_artifact(),
    {
        let extent: i64 = self.height as i64 + self.depth as i64;
        self.width == 0 || extent == 0
    }

    /// Exec counterpart of [`TeXBox::has_footprint`].
    pub fn is_visible(&self) -> (visible: bool)
        ensures
            visible == self.has_footprint(),
    {
        let extent: i64 = self.height as i64 + self.depth as i64;
        self.width > 0 && extent > 0
    }
}

/// One record of the position index: a box and the source line it was
/// typeset from.
#[derive(Clone, Copy, Debug, PartialEq, Eq, Structural)]
pub struct IndexEntry {
    pub line: usize,
    pub tex_box: TeXBox,
}

/// The boxes that `entries` records for `line`, in index order, without
/// the artifacts of page breaking.
pub open spec fn reported_on_line(entries: Seq<IndexEntry>, line: usize) -> Seq<TeXBox>
    decreases entries.len(),
{
    if entries.len() == 0 {
        Seq::empty()
    } else {
        let before = reported_on_line(entries.drop_last(), line);
        let e = entries.last();
        if e.line == line && !e.tex_box.is_artifact() {
            before.push(e.tex_box)
        } else {
            before
        }
    }
}

/// A box is among the boxes of a line exactly when the index holds it for
/// that line and it is no artifact of page breaking.
pub proof fn lemma_reported_on_line_contains(entries: Seq<IndexEntry>, line: usize, b: TeXBox)
    ensures
        reported_on_line(entries, line).contains(b) <==> !b.is_artifact() && entries.contains(
            IndexEntry { line, tex_box: b },
        ),
    decreases entries.len(),
{
    let wanted = IndexEntry { line, tex_box: b };
    if entries.len() > 0 {
        let head = entries.drop_last();
        let e = entries.last();
        lemma_reported_on_line_contains(head, line, b);
        let before = reported_on_line(head, line);
        if reported_on_line(entries, line).contains(b) {
            let k = choose|k: int|
                0 <= k < reported_on_line(entries, line).len() && reported_on_line(entries, line)[k]
                    == b;
            if k < before.len() {
                assert(before[k] == b);
                let j = choose|j: int| 0 <= j < head.len() && head[j] == wanted;
                assert(entries[j] == wanted);
            } else {
                assert(e == wanted);
                assert(entries[entries.len() - 1] == wanted);
            }
        }
        if !b.is_artifact() && entries.contains(wanted) {
            let j = choose|j: int| 0 <= j < entries.len() && entries[j] == wanted;
            if j < head.len() {
                assert(head[j] == wanted);
                let k = choose|k: int| 0 <= k < before.len() && before[k] == b;
                assert(reported_on_line(entries, line)[k] == b);
            } else {
                assert(reported_on_line(entries, line) == before.push(b));
                assert(before.push(b)[before.len() as int] == b);
            }
        }
    }
}

/// A position scanner bound to the position index of one compiled document.
pub struct Scanner {
    entries: Vec<IndexEntry>,
}

impl View for Scanner {
    type V = Seq<IndexEntry>;

    closed spec fn view(&self) -> Seq<IndexEntry> {
        self.entries@
    }
}

impl Scanner {
    /// Binds a scanner to the records of a position index.
    pub fn new(entries: Vec<IndexEntry>) -> (scanner: Scanner)
        ensures
            scanner@ == entries@,
    {
        Scanner { entries }
    }

    /// All boxes that belong to the source line `line`, in index order,
    /// without those of width zero and those of extent zero.
    pub fn query(&self, line: usize) -> (boxes: Vec<TeXBox>)
        ensures
            boxes@ == reported_on_line(self@, line),
    {
        let mut boxes: Vec<TeXBox> = Vec::new();
        let mut i: usize = 0;
        while i < self.entries.len()
            invariant
                i <= self.entries.len(),
                boxes@ == reported_on_line(self.entries@.take(i as int), line),
            decreases self.entries.len() - i,
        {
            let e = self.entries[i];
            assert(self.entries@.take(i + 1).drop_last() =~= self.entries@.take(i as int));
            if e.line == line && !e.tex_box.is_empty() {
                boxes.push(e.tex_box);
            }
            i += 1;
        }
        assert(self.entries@.take(i as int) =~= self.entries@);
        boxes
    }
}

} // verus!
