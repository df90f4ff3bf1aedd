//! The host-facing renderer: holds a text snapshot as grapheme
//! clusters, runs the span parser over it, and keeps the update range
//! of the last incremental scan.
//!
//! Splitting a string into grapheme clusters is the one step done by an
//! outside crate; everything downstream works on the resulting plain
//! sequence, so every offset the parser emits is a grapheme index and a
//! multi-code-point cluster can never split a delimiter or shift a span.

use vstd::prelude::*;

use unicode_segmentation::UnicodeSegmentation;

use crate::parser::{para_end, para_start, parse, parse_spec, select_range};
use crate::span::{gspans, gview, FormatSpan, GraphemeRange};

verus! {

/// The grapheme clusters of a string of characters, in order: what
/// segmentation by extended grapheme cluster rules yields.
pub uninterp spec fn graphemes_of(s: Seq<char>) -> Seq<Seq<char>>;

/// Relies on unicode_segmentation's `UnicodeSegmentation::graphemes`
/// with extended cluster rules: the segmentation is a pure function of
/// the characters alone.
#[verifier::external_body]
fn split_graphemes(text: &str) -> (r: Vec<Vec<char>>)
    ensures
        gview(r@) == graphemes_of(text@),
{
    text.graphemes(true).map(|g| g.chars().collect()).collect()
}

/// One text snapshot and the spans of its latest parse.
///
/// The renderer owns no live text surface: the host hands it a snapshot
/// and applies `format_spans` itself, clearing previous styling over the
/// whole document after `render`, or only inside `update_range` after
/// `rescan`.
pub struct Renderer {
    /// The snapshot as handed over by the host.
    pub text: String,
    /// The snapshot as grapheme clusters; all span offsets index it.
    pub graphemes: Vec<Vec<char>>,
    /// The spans of the latest parse, in emission order.
    pub format_spans: Vec<FormatSpan>,
    /// The paragraph-bounded window of the latest incremental scan, or
    /// `None` after a full-document scan.
    pub update_range: Option<GraphemeRange>,
}

impl Renderer {
    /// A renderer over a fresh snapshot; nothing is parsed yet.
    pub fn from(text: &str) -> (r: Renderer)
        ensures
            r.text@ == text@,
            gview(r.graphemes@) == graphemes_of(text@),
            r.format_spans@ == Seq::<FormatSpan>::empty(),
            r.update_range is None,
    {
        Renderer {
            text: String::from_str(text),
            graphemes: split_graphemes(text),
            format_spans: Vec::new(),
            update_range: None,
        }
    }

    /// Parse the whole snapshot and store the resulting spans.
    pub fn render(&mut self)
        ensures
            gspans(final(self).format_spans@) == parse_spec(
                gview(old(self).graphemes@),
                0,
                old(self).graphemes@.len() as int,
            ),
            final(self).graphemes == old(self).graphemes,
            final(self).text == old(self).text,
            final(self).update_range is None,
    {
        let spans = parse(&self.graphemes, None);
        self.format_spans = spans;
        self.update_range = None;
    }

    /// Re-parse only the paragraph containing the cursor and store the
    /// resulting spans together with the window they cover.
    pub fn rescan(&mut self, cursor: usize)
        requires
            cursor <= old(self).graphemes@.len(),
        ensures
            ({
                let t = gview(old(self).graphemes@);
                let lo = para_start(t, cursor as int);
                let hi = para_end(t, cursor as int);
                &&& gspans(final(self).format_spans@) == parse_spec(t, lo, hi)
                &&& match final(self).update_range {
                    Option::Some(r) => r.start as int == lo && r.end as int == hi,
                    Option::None => false,
                }
                &&& final(self).graphemes == old(self).graphemes
                &&& final(self).text == old(self).text
            }),
    {
        let r = select_range(&self.graphemes, cursor);
        let spans = parse(&self.graphemes, Some(r));
        self.format_spans = spans;
        self.update_range = Some(r);
    }
}

} // verus!
