//! Fragments: the units of math or raw content that become images, and
//! the source text that is typeset for them.

use vstd::prelude::*;
use vstd::string::StringExecFns;
use vstd::string::StringSliceAdditionalSpecFns;
use core::ops::Range;
use crate::config::Config;
use crate::region::{
    all_pages_wf, boxes_of_lines, folded_boxes, resolve_fragment, resolves_to, PositionResolutionFailure,
    PositionedImage, SeenBoxes, Tolerances,
};
use crate::svg::PageGeometry;
use crate::synctex::{IndexEntry, Scanner, TeXBox};
use crate::text::{
    count_line_feeds, count_lines, has_prefix, lemma_line_count_bound, lemma_line_feeds_add,
    line_count, line_feeds, push_bytes, replace, replaced, str_equal, trim_end_spec,
    trim_start_spec, trimmed,
};

verus! {

/// What kind of content a fragment holds.
#[derive(Clone, Copy, Debug, PartialEq, Eq, Structural)]
pub enum FragmentType {
    /// Ordinary inline maths: sits on the baseline of the surrounding text.
    InlineMath,
    /// Display maths.
    DisplayMath,
    /// Content typeset as it stands, without a surrounding group.
    RawBlock,
    /// Content that is typeset but never shown, such as macro definitions.
    DontShow,
}

/// The handle of a node of the document that a fragment replaces. The
/// number is given by whoever walks the document.
#[derive(Clone, Copy, Debug, PartialEq, Eq, Structural)]
pub enum FragmentNodeRef {
    Inline(usize),
    Block(usize),
}

/// A fragment: its kind, its source text and the nodes that it stands for.
#[derive(Debug, PartialEq, Eq)]
pub struct Fragment {
    pub ty: FragmentType,
    pub src: String,
    pub refs: Vec<FragmentNodeRef>,
}

/// The kind of a math node with the source `text`, whose type the document
/// names `math_type`. Display maths that starts, after white space, with
/// `%raw` is typeset raw, and with `%dontshow` is not shown.
pub open spec fn math_kind(math_type: Seq<char>, text: Seq<char>) -> Option<FragmentType> {
    if math_type == "InlineMath"@ {
        Some(FragmentType::InlineMath)
    } else if math_type == "DisplayMath"@ {
        if "%raw"@.is_prefix_of(trim_start_spec(text)) {
            Some(FragmentType::RawBlock)
        } else if "%dontshow"@.is_prefix_of(trim_start_spec(text)) {
            Some(FragmentType::DontShow)
        } else {
            Some(FragmentType::DisplayMath)
        }
    } else {
        None
    }
}

/// The kind of fragment that a math node stands for; `None` for a type of
/// math that the document format does not know.
pub fn math_fragment_type(math_type: &str, text: &str) -> (kind: Option<FragmentType>)
    ensures
        kind == math_kind(math_type@, text@),
{
    if str_equal(math_type, "InlineMath") {
        Some(FragmentType::InlineMath)
    } else if str_equal(math_type, "DisplayMath") {
        let start = text.trim_start();
        if has_prefix(start, "%raw") {
            Some(FragmentType::RawBlock)
        } else if has_prefix(start, "%dontshow") {
            Some(FragmentType::DontShow)
        } else {
            Some(FragmentType::DisplayMath)
        }
    } else {
        None
    }
}

/// The kind of a raw block of the format `format` with the source `text`:
/// only blocks of the format `tex` are fragments.
pub open spec fn raw_block_kind(format: Seq<char>, text: Seq<char>) -> Option<FragmentType> {
    if format == "tex"@ {
        if "%dontshow"@.is_prefix_of(trim_start_spec(text)) {
            Some(FragmentType::DontShow)
        } else {
            Some(FragmentType::RawBlock)
        }
    } else {
        None
    }
}

/// The kind of fragment that a raw block stands for; `None` for a block
/// that is left as it is.
pub fn raw_block_fragment_type(format: &str, text: &str) -> (kind: Option<FragmentType>)
    ensures
        kind == raw_block_kind(format@, text@),
{
    if str_equal(format, "tex") {
        if has_prefix(text.trim_start(), "%dontshow") {
            Some(FragmentType::DontShow)
        } else {
            Some(FragmentType::RawBlock)
        }
    } else {
        None
    }
}

/// The fragment numbered `i` is the first inline fragment with the source
/// `src`.
pub open spec fn is_first_inline(fragments: Seq<Fragment>, src: Seq<char>, i: int) -> bool {
    &&& 0 <= i < fragments.len()
    &&& fragments[i].ty == FragmentType::InlineMath
    &&& fragments[i].src@ == src
    &&& forall|j: int|
        0 <= j < i ==> !((#[trigger] fragments[j]).ty == FragmentType::InlineMath && fragments[j].src@
            == src)
}

/// `after` is `before` with the node `node_ref` added to the fragment
/// numbered `i`.
pub open spec fn with_ref(
    before: Seq<Fragment>,
    after: Seq<Fragment>,
    i: int,
    node_ref: FragmentNodeRef,
) -> bool {
    &&& after.len() == before.len()
    &&& forall|j: int| 0 <= j < before.len() && j != i ==> #[trigger] after[j] == before[j]
    &&& after[i].ty == before[i].ty
    &&& after[i].src == before[i].src
    &&& after[i].refs@ == before[i].refs@.push(node_ref)
}

/// `after` is `before` with one more fragment at its end, for the node
/// `node_ref` alone.
pub open spec fn with_fragment(
    before: Seq<Fragment>,
    after: Seq<Fragment>,
    ty: FragmentType,
    src: Seq<char>,
    node_ref: FragmentNodeRef,
) -> bool {
    &&& after.len() == before.len() + 1
    &&& forall|j: int| 0 <= j < before.len() ==> #[trigger] after[j] == before[j]
    &&& after.last().ty == ty
    &&& after.last().src@ == src
    &&& after.last().refs@ == seq![node_ref]
}

/// The template that fragments of the kind `ty` are wrapped in.
pub open spec fn template_of(config: Config, ty: FragmentType) -> Seq<char> {
    match ty {
        FragmentType::InlineMath => config.template.inline_math@,
        FragmentType::DisplayMath => config.template.display_math@,
        FragmentType::RawBlock | FragmentType::DontShow => config.template.placeholder@,
    }
}

/// What is typeset for a fragment: its template with the source in the
/// place of the placeholder, without white space at the end.
pub open spec fn expansion(config: Config, fragment: Fragment) -> Seq<char> {
    trim_end_spec(
        replaced(template_of(config, fragment.ty), config.template.placeholder@, fragment.src@),
    )
}

/// The bytes of a text.
pub open spec fn encode(text: Seq<char>) -> Seq<u8> {
    vstd::utf8::encode_utf8(text)
}

/// The source text up to and including the expansion of the fragment
/// numbered `n - 1` and the empty line after it.
pub open spec fn source_upto(config: Config, fragments: Seq<Fragment>, n: int) -> Seq<u8>
    decreases n,
{
    if n <= 0 {
        encode(trim_end_spec(config.preamble@)) + seq![0x0au8]
    } else {
        source_upto(config, fragments, n - 1) + encode(expansion(config, fragments[n - 1])) + seq![
            0x0au8,
            0x0au8,
        ]
    }
}

/// The line on which the expansion of the fragment numbered `n` starts,
/// lines counted from 1: as many line feeds stand before it in the source
/// text, and one more.
pub open spec fn first_line_of(config: Config, fragments: Seq<Fragment>, n: int) -> int {
    (line_feeds(source_upto(config, fragments, n)) + 1) as int
}

/// A line feed is one line feed.
proof fn lemma_one_line_feed()
    ensures
        line_feeds(seq![0x0au8]) == 1,
{
    assert(seq![0x0au8].drop_last() =~= Seq::<u8>::empty());
    assert(line_feeds(seq![0x0au8].drop_last()) == 0);
}

/// The whole source text: the preamble, the expansions and the postamble.
pub open spec fn source_spec(config: Config, fragments: Seq<Fragment>) -> Seq<u8> {
    source_upto(config, fragments, fragments.len() as int) + encode(config.postamble@)
}

/// The fragments of one document and the configuration that they are
/// rendered with.
#[derive(Debug)]
pub struct FragmentRenderer {
    pub config: Config,
    pub fragments: Vec<Fragment>,
}

impl FragmentRenderer {
    /// A renderer without fragments.
    pub fn new(config: Config) -> (renderer: FragmentRenderer)
        ensures
            renderer.config == config,
            renderer.fragments@.len() == 0,
    {
        FragmentRenderer { config, fragments: Vec::new() }
    }

    /// Records that the node `node_ref` holds a fragment of the kind `ty`
    /// with the source `src`, which is kept without the white space at its
    /// two ends. Inline maths with the same source is typeset once: the node
    /// joins the first inline fragment with that source, if there is one.
    pub fn add_fragment(&mut self, ty: FragmentType, src: &str, node_ref: FragmentNodeRef)
        ensures
            final(self).config == old(self).config,
            ty == FragmentType::InlineMath ==> forall|i: int|
                is_first_inline(old(self).fragments@, trimmed(src@), i) ==> with_ref(
                    old(self).fragments@,
                    final(self).fragments@,
                    i,
                    node_ref,
                ),
            !(ty == FragmentType::InlineMath && exists|i: int|
                is_first_inline(old(self).fragments@, trimmed(src@), i)) ==> with_fragment(
                old(self).fragments@,
                final(self).fragments@,
                ty,
                trimmed(src@),
                node_ref,
            ),
    {
        let text = src.trim();
        if ty == FragmentType::InlineMath {
            let mut i: usize = 0;
            while i < self.fragments.len()
                invariant
                    i <= self.fragments.len(),
                    *self == *old(self),
                    ty == FragmentType::InlineMath,
                    text@ == trimmed(src@),
                    forall|j: int|
                        0 <= j < i ==> !((#[trigger] self.fragments@[j]).ty
                            == FragmentType::InlineMath && self.fragments@[j].src@ == text@),
                decreases self.fragments.len() - i,
            {
                if self.fragments[i].ty == FragmentType::InlineMath && str_equal(
                    self.fragments[i].src.as_str(),
                    text,
                ) {
                    assert(is_first_inline(self.fragments@, text@, i as int));
                    self.fragments[i].refs.push(node_ref);
                    assert(with_ref(old(self).fragments@, self.fragments@, i as int, node_ref));
                    assert forall|k: int|
                        is_first_inline(old(self).fragments@, trimmed(src@), k) implies k == i by {
                        if k < i {
                            assert(old(self).fragments@[k].ty == FragmentType::InlineMath);
                        }
                    }
                    return ;
                }
                i += 1;
            }
        }
        let mut refs: Vec<FragmentNodeRef> = Vec::new();
        refs.push(node_ref);
        self.fragments.push(Fragment { ty, src: String::from_str(text), refs });
    }

    /// The source text that is typeset for the fragments, and for each
    /// fragment the lines that its expansion occupies: from the first up to,
    /// not including, the line after the last. The lines are those of the
    /// text as it is written, whatever the preamble holds: the first line of
    /// an expansion is the one after the last line feed before it.
    pub fn generate_latex_with_line_mappings(&self) -> (out: (Vec<u8>, Vec<Range<usize>>))
        ensures
            out.0@ == source_spec(self.config, self.fragments@),
            out.1@.len() == self.fragments@.len(),
            forall|i: int|
                0 <= i < self.fragments@.len() ==> {
                    &&& (#[trigger] out.1@[i]).start == first_line_of(
                        self.config,
                        self.fragments@,
                        i,
                    )
                    &&& out.1@[i].end == out.1@[i].start + line_count(
                        encode(expansion(self.config, self.fragments@[i])),
                    )
                },
    {
        let mut lines: Vec<Range<usize>> = Vec::new();
        let mut output: Vec<u8> = Vec::new();
        let preamble = self.config.preamble.as_str().trim_end();
        push_bytes(&mut output, preamble.as_bytes());
        output.push(0x0a);
        // A text has no more line feeds than bytes, so the lines are
        // counted without overflow as long as the text itself can be held.
        let written = output.len();
        let mut feeds: usize = count_line_feeds(preamble.as_bytes()) + 1;
        proof {
            lemma_line_feeds_add(encode(trim_end_spec(self.config.preamble@)), seq![0x0au8]);
            lemma_one_line_feed();
        }
        assert(output@ =~= source_upto(self.config, self.fragments@, 0));
        let mut i: usize = 0;
        while i < self.fragments.len()
            invariant
                i <= self.fragments.len(),
                output@ == source_upto(self.config, self.fragments@, i as int),
                feeds == line_feeds(output@),
                feeds <= output@.len(),
                lines@.len() == i,
                forall|k: int|
                    0 <= k < i ==> {
                        &&& (#[trigger] lines@[k]).start == first_line_of(
                            self.config,
                            self.fragments@,
                            k,
                        )
                        &&& lines@[k].end == lines@[k].start + line_count(
                            encode(expansion(self.config, self.fragments@[k])),
                        )
                    },
            decreases self.fragments.len() - i,
        {
            let item = &self.fragments[i];
            let template = match item.ty {
                FragmentType::InlineMath => self.config.template.inline_math.as_str(),
                FragmentType::DisplayMath => self.config.template.display_math.as_str(),
                FragmentType::RawBlock | FragmentType::DontShow => {
                    self.config.template.placeholder.as_str()
                },
            };
            let replaced = replace(
                template,
                self.config.template.placeholder.as_str(),
                item.src.as_str(),
            );
            let expanded = replaced.as_str().trim_end();
            assert(expanded@ == expansion(self.config, self.fragments@[i as int]));
            proof {
                lemma_line_count_bound(encode(expanded@));
            }
            let ghost before = output@;
            push_bytes(&mut output, expanded.as_bytes());
            output.push(0x0a);
            output.push(0x0a);
            let written = output.len();
            let start_line = feeds + 1;
            let end_line = start_line + count_lines(expanded.as_bytes());
            lines.push(start_line..end_line);
            proof {
                lemma_line_feeds_add(before, encode(expanded@));
                lemma_line_feeds_add(before + encode(expanded@), seq![0x0au8]);
                lemma_line_feeds_add(before + encode(expanded@) + seq![0x0au8], seq![0x0au8]);
                lemma_one_line_feed();
                assert(output@ =~= before + encode(expanded@) + seq![0x0au8] + seq![0x0au8]);
            }
            feeds = feeds + count_line_feeds(expanded.as_bytes()) + 2;
            assert(output@ =~= source_upto(self.config, self.fragments@, i + 1));
            i += 1;
        }
        push_bytes(&mut output, self.config.postamble.as_str().as_bytes());
        (output, lines)
    }
}

/// The tolerance and the margins of a configuration.
pub open spec fn tolerances_of(config: Config) -> Tolerances {
    Tolerances {
        y_range_tol: config.y_range_tol,
        x_range_margin: config.x_range_margin,
        y_range_margin: config.y_range_margin,
    }
}

/// The line after the last line of the expansion of the fragment numbered
/// `k`.
pub open spec fn end_line_of(config: Config, fragments: Seq<Fragment>, k: int) -> int {
    first_line_of(config, fragments, k) + line_count(encode(expansion(config, fragments[k])))
}

/// The boxes that were folded before the fragment numbered `k` is looked
/// up: those of all shown fragments before it.
pub open spec fn seen_before(
    config: Config,
    fragments: Seq<Fragment>,
    index: Seq<IndexEntry>,
    k: int,
) -> Set<TeXBox>
    decreases k, 0int,
{
    if k <= 0 {
        Set::empty()
    } else if fragments[k - 1].ty == FragmentType::DontShow {
        seen_before(config, fragments, index, k - 1)
    } else {
        seen_before(config, fragments, index, k - 1).union(
            folded_for(config, fragments, index, k - 1).to_set(),
        )
    }
}

/// The boxes that are folded for the fragment numbered `k`: those that the
/// position index reports for its lines and that no fragment before it has
/// folded.
pub open spec fn folded_for(
    config: Config,
    fragments: Seq<Fragment>,
    index: Seq<IndexEntry>,
    k: int,
) -> Seq<TeXBox>
    decreases k, 1int,
{
    folded_boxes(
        boxes_of_lines(
            index,
            first_line_of(config, fragments, k) as usize,
            end_line_of(config, fragments, k) as usize,
        ),
        seen_before(config, fragments, index, k),
    )
}

/// What resolving the fragment numbered `k` comes to: no image for a
/// fragment that is not shown, and for every other what
/// [`resolves_to`] says of the boxes folded for it.
pub open spec fn fragment_outcome(
    config: Config,
    fragments: Seq<Fragment>,
    index: Seq<IndexEntry>,
    pages: Seq<PageGeometry>,
    k: int,
    result: Result<Vec<PositionedImage>, PositionResolutionFailure>,
) -> bool {
    if fragments[k].ty == FragmentType::DontShow {
        result matches Ok(images) && images@.len() == 0
    } else {
        resolves_to(
            fragments[k].ty,
            folded_for(config, fragments, index, k),
            pages,
            tolerances_of(config),
            result,
        )
    }
}

/// The fragment numbered `k` can be placed.
pub open spec fn placeable(
    config: Config,
    fragments: Seq<Fragment>,
    index: Seq<IndexEntry>,
    pages: Seq<PageGeometry>,
    k: int,
) -> bool {
    exists|images: Vec<PositionedImage>|
        fragment_outcome(config, fragments, index, pages, k, Ok(images))
}

/// Which fragment could not be given a place, and why.
#[derive(Debug, PartialEq, Eq)]
pub struct RenderFailure {
    /// The number of the fragment.
    pub fragment: usize,
    pub failure: PositionResolutionFailure,
}

impl FragmentRenderer {
    /// Gives every fragment its place on the rendered pages: for each
    /// fragment, in order, one image per page on which it landed. The
    /// position index `scanner` and the pages `pages` are those of the
    /// source text that [`FragmentRenderer::generate_latex_with_line_mappings`]
    /// returns. A box that one fragment has folded is left out for every
    /// later one. The first fragment that cannot be placed ends the render
    /// with its failure; nothing is returned for the others.
    pub fn render_with_latex(&self, scanner: &Scanner, pages: &Vec<PageGeometry>) -> (result: Result<
        Vec<Vec<PositionedImage>>,
        RenderFailure,
    >)
        requires
            self.config.wf(),
            all_pages_wf(pages@),
        ensures
            match result {
                Ok(all) => {
                    &&& all@.len() == self.fragments@.len()
                    &&& forall|k: int|
                        0 <= k < all@.len() ==> fragment_outcome(
                            self.config,
                            self.fragments@,
                            scanner@,
                            pages@,
                            k,
                            Ok(#[trigger] all@[k]),
                        )
                },
                Err(f) => {
                    &&& f.fragment < self.fragments@.len()
                    &&& fragment_outcome(
                        self.config,
                        self.fragments@,
                        scanner@,
                        pages@,
                        f.fragment as int,
                        Err(f.failure),
                    )
                    &&& forall|k: int|
                        0 <= k < f.fragment ==> #[trigger] placeable(
                            self.config,
                            self.fragments@,
                            scanner@,
                            pages@,
                            k,
                        )
                },
            },
    {
        let (_, lines) = self.generate_latex_with_line_mappings();
        let tol = self.config.tolerances();
        assert(tol == tolerances_of(self.config));
        let mut seen = SeenBoxes::new();
        let mut all: Vec<Vec<PositionedImage>> = Vec::new();
        let mut k: usize = 0;
        while k < self.fragments.len()
            invariant
                k <= self.fragments.len(),
                all_pages_wf(pages@),
                tol.wf(),
                tol == tolerances_of(self.config),
                lines@.len() == self.fragments@.len(),
                forall|i: int|
                    0 <= i < self.fragments@.len() ==> {
                        &&& (#[trigger] lines@[i]).start == first_line_of(
                            self.config,
                            self.fragments@,
                            i,
                        )
                        &&& lines@[i].end == end_line_of(self.config, self.fragments@, i)
                    },
                seen@ == seen_before(self.config, self.fragments@, scanner@, k as int),
                all@.len() == k,
                forall|i: int|
                    0 <= i < k ==> fragment_outcome(
                        self.config,
                        self.fragments@,
                        scanner@,
                        pages@,
                        i,
                        Ok(#[trigger] all@[i]),
                    ),
            decreases self.fragments.len() - k,
        {
            let range = &lines[k];
            let ghost before = all@;
            let ghost seen_then = seen@;
            assert(first_line_of(self.config, self.fragments@, k as int) as usize == range.start);
            assert(end_line_of(self.config, self.fragments@, k as int) as usize == range.end);
            assert(folded_for(self.config, self.fragments@, scanner@, k as int) == folded_boxes(
                boxes_of_lines(scanner@, range.start, range.end),
                seen_then,
            ));
            match resolve_fragment(
                self.fragments[k].ty,
                range.start,
                range.end,
                scanner,
                &mut seen,
                pages,
                tol,
            ) {
                Ok(images) => {
                    all.push(images);
                    assert(seen@ == seen_before(self.config, self.fragments@, scanner@, k + 1));
                    assert forall|i: int| 0 <= i < k + 1 implies fragment_outcome(
                        self.config,
                        self.fragments@,
                        scanner@,
                        pages@,
                        i,
                        Ok(#[trigger] all@[i]),
                    ) by {
                        if i < k {
                            assert(all@[i] == before[i]);
                        }
                    }
                },
                Err(failure) => {
                    assert forall|i: int| 0 <= i < k implies #[trigger] placeable(
                        self.config,
                        self.fragments@,
                        scanner@,
                        pages@,
                        i,
                    ) by {
                        assert(fragment_outcome(
                            self.config,
                            self.fragments@,
                            scanner@,
                            pages@,
                            i,
                            Ok(all@[i]),
                        ));
                    }
                    return Err(RenderFailure { fragment: k, failure });
                },
            }
            k += 1;
        }
        Ok(all)
    }
}

} // verus!
