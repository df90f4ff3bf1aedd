//! Format spans and grapheme ranges: the parser's output unit and the
//! half-open intervals it works over.  All positions are zero-based
//! indices into the sequence of grapheme clusters of the text snapshot,
//! never byte or code-point offsets.

use vstd::prelude::*;

use crate::style::Tag;

verus! {

/// The mathematical value of a format span: a half-open interval of
/// grapheme indices together with a style tag.
pub ghost struct GSpan {
    pub start: int,
    pub end: int,
    pub tag: Tag,
}

/// A run of graphemes `[start, end)` to be rendered with the style of
/// `tag`.  Spans may overlap: a `Syntax` span always overlaps the span
/// whose delimiters it marks.
#[derive(Clone, Copy, Debug, PartialEq, Eq, Structural)]
pub struct FormatSpan {
    pub start: usize,
    pub end: usize,
    pub tag: Tag,
}

impl View for FormatSpan {
    type V = GSpan;

    open spec fn view(&self) -> GSpan {
        GSpan { start: self.start as int, end: self.end as int, tag: self.tag }
    }
}

/// A half-open interval `[start, end)` of grapheme indices, used to
/// bound an incremental re-scan to the paragraph under edit.
#[derive(Clone, Copy, Debug, PartialEq, Eq, Structural)]
pub struct GraphemeRange {
    pub start: usize,
    pub end: usize,
}

/// The mathematical value of a sequence of format spans.
pub open spec fn gspans(s: Seq<FormatSpan>) -> Seq<GSpan> {
    s.map_values(|f: FormatSpan| f@)
}

/// A sequence of machine indices as a sequence of mathematical integers.
pub open spec fn useq(s: Seq<usize>) -> Seq<int> {
    s.map_values(|u: usize| u as int)
}

/// The text snapshot as a sequence of grapheme clusters, each a sequence
/// of characters.
pub open spec fn gview(text: Seq<Vec<char>>) -> Seq<Seq<char>> {
    text.map_values(|g: Vec<char>| g@)
}

pub proof fn lemma_gspans_push(s: Seq<FormatSpan>, x: FormatSpan)
    ensures
        gspans(s.push(x)) == gspans(s).push(x@),
{
    assert(gspans(s.push(x)) =~= gspans(s).push(x@));
}

pub proof fn lemma_useq_push(s: Seq<usize>, x: usize)
    ensures
        useq(s.push(x)) == useq(s).push(x as int),
{
    assert(useq(s.push(x)) =~= useq(s).push(x as int));
}

pub proof fn lemma_useq_add(a: Seq<usize>, b: Seq<usize>)
    ensures
        useq(a + b) == useq(a) + useq(b),
{
    assert(useq(a + b) =~= useq(a) + useq(b));
}

pub proof fn lemma_gspans_add(a: Seq<FormatSpan>, b: Seq<FormatSpan>)
    ensures
        gspans(a + b) == gspans(a) + gspans(b),
{
    assert(gspans(a + b) =~= gspans(a) + gspans(b));
}

} // verus!
