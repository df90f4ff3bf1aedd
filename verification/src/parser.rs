//! The delimiter-scanning span parser.
//!
//! A parse is a fixed pipeline over the grapheme sequence of a text
//! snapshot: an escape scan over the whole text, then one toggling
//! delimiter scan per markup family (`**`, `__`, `*`, `_`, `~~`, `` ` ``,
//! in that order), and finally a `Syntax` span for every grapheme index a
//! delimiter match or an escape has claimed.  Later stages skip the
//! indices earlier stages consumed, so a `*` that closed `**strong**`
//! can never double as an emphasis delimiter.
//!
//! Matching state never crosses a paragraph break (two consecutive
//! line-break graphemes): a break discards any tentative opening
//! delimiter.  The scans can therefore be limited to one
//! paragraph-bounded range without changing what they produce inside it.
//!
//! Two deliberate policies for under-determined edge cases:
//! * a two-character closing delimiter immediately adjacent to its own
//!   opening (`****`) is rejected and the matcher stays open at the
//!   original position, and
//! * after a one-character delimiter is recognized, the immediately
//!   following position is not tested as a delimiter, so an unmatched
//!   `**` run is a single dangling opener rather than an empty emphasis
//!   span.

use vstd::prelude::*;

use crate::span::{gspans, gview, lemma_gspans_push, lemma_useq_push, useq};
use crate::span::{FormatSpan, GSpan, GraphemeRange};
use crate::style::Tag;

verus! {

// ---------------------------------------------------------------------
// Character tests on the grapheme sequence
// ---------------------------------------------------------------------

/// The grapheme at `i` is exactly the one-character cluster `c`.
pub open spec fn grapheme_is(text: Seq<Seq<char>>, i: int, c: char) -> bool {
    text[i] == seq![c]
}

pub open spec fn is_newline(text: Seq<Seq<char>>, i: int) -> bool {
    grapheme_is(text, i, '\n')
}

/// A paragraph break starts at `i`: two consecutive line-break graphemes,
/// both inside the scanned window.
pub open spec fn is_break(text: Seq<Seq<char>>, i: int, hi: int) -> bool {
    i + 1 < hi && is_newline(text, i) && is_newline(text, i + 1)
}

/// A grapheme with syntactic meaning: a delimiter character or the
/// escape backslash.  A backslash escaping any other grapheme leaves no
/// trace in the output.
pub open spec fn is_special(g: Seq<char>) -> bool {
    g == seq!['*'] || g == seq!['_'] || g == seq!['~'] || g == seq!['`'] || g == seq!['\\']
}

// ---------------------------------------------------------------------
// Escape scan
// ---------------------------------------------------------------------

/// The escape scan from position `i` on, with `pending` true exactly
/// when the previous grapheme was an unconsumed backslash.  Returns the
/// escaped indices (graphemes that follow a backslash and must never act
/// as delimiters) and the consumed indices (escaping backslashes, which
/// are rendered as syntax), each in increasing order.
///
/// Escapes do not cross line breaks, and escape detection is never
/// range-limited: it always covers the whole snapshot.
pub open spec fn escape_from(text: Seq<Seq<char>>, i: int, pending: bool) -> (Seq<int>, Seq<int>)
    decreases text.len() - i,
{
    if i < 0 || i >= text.len() {
        (Seq::empty(), Seq::empty())
    } else if is_newline(text, i) {
        escape_from(text, i + 1, false)
    } else if pending {
        let rest = escape_from(text, i + 1, false);
        if is_special(text[i]) {
            (seq![i] + rest.0, seq![i - 1] + rest.1)
        } else {
            (seq![i] + rest.0, rest.1)
        }
    } else if grapheme_is(text, i, '\\') {
        escape_from(text, i + 1, true)
    } else {
        escape_from(text, i + 1, false)
    }
}

pub open spec fn escape_scan_spec(text: Seq<Seq<char>>) -> (Seq<int>, Seq<int>) {
    escape_from(text, 0, false)
}

// ---------------------------------------------------------------------
// Delimiter scan
// ---------------------------------------------------------------------

/// One markup family: its delimiter character, whether the delimiter is
/// the character doubled, and the tag its spans carry.
#[derive(Clone, Copy, Debug)]
pub struct Delim {
    pub ch: char,
    pub double: bool,
    pub tag: Tag,
}

pub open spec fn dstep(cfg: Delim) -> int {
    if cfg.double {
        2
    } else {
        1
    }
}

/// Index `i` may still take part in delimiter matching: no escape and no
/// earlier match has claimed it.
pub open spec fn scannable(escaped: Seq<int>, base: Seq<int>, i: int) -> bool {
    !escaped.contains(i) && !base.contains(i)
}

/// A delimiter of family `cfg` stands at `i`.  For a doubled delimiter
/// both positions must hold the character and both must be scannable;
/// for a single one the position immediately after a previous match
/// (`sup`) is not tested.
pub open spec fn hit(
    text: Seq<Seq<char>>,
    hi: int,
    cfg: Delim,
    escaped: Seq<int>,
    base: Seq<int>,
    i: int,
    sup: bool,
) -> bool {
    &&& scannable(escaped, base, i)
    &&& grapheme_is(text, i, cfg.ch)
    &&& if cfg.double {
        i + 1 < hi && grapheme_is(text, i + 1, cfg.ch) && scannable(escaped, base, i + 1)
    } else {
        !sup
    }
}

/// The indices a closing match claims: both graphemes of the opening and
/// of the closing delimiter.
pub open spec fn close_indices(s: int, i: int, cfg: Delim) -> Seq<int> {
    if cfg.double {
        seq![s, s + 1, i, i + 1]
    } else {
        seq![s, i]
    }
}

/// One toggling delimiter scan over `[i, hi)`.  `open` holds the index
/// of a tentative opening delimiter, `sup` suppresses delimiter
/// recognition at the position right after a one-character match.
/// Returns the emitted spans and the consumed indices, in emission
/// order.
pub open spec fn scan_from(
    text: Seq<Seq<char>>,
    hi: int,
    cfg: Delim,
    escaped: Seq<int>,
    base: Seq<int>,
    i: int,
    open: Option<int>,
    sup: bool,
) -> (Seq<GSpan>, Seq<int>)
    decreases hi - i,
{
    if i >= hi {
        (Seq::empty(), Seq::empty())
    } else if is_break(text, i, hi) {
        // A paragraph break discards any tentative opening and skips the
        // second line break.
        scan_from(text, hi, cfg, escaped, base, i + 2, None, false)
    } else if hit(text, hi, cfg, escaped, base, i, sup) {
        match open {
            Option::None => scan_from(
                text,
                hi,
                cfg,
                escaped,
                base,
                i + dstep(cfg),
                Some(i),
                !cfg.double,
            ),
            Option::Some(s) => {
                if cfg.double && s + 2 == i {
                    // Empty interior (as in `****`): no span; the matcher
                    // stays open at the original position.
                    scan_from(text, hi, cfg, escaped, base, i + 2, Some(s), false)
                } else {
                    let rest = scan_from(
                        text,
                        hi,
                        cfg,
                        escaped,
                        base,
                        i + dstep(cfg),
                        None,
                        !cfg.double,
                    );
                    (
                        seq![GSpan { start: s, end: i + dstep(cfg), tag: cfg.tag }] + rest.0,
                        close_indices(s, i, cfg) + rest.1,
                    )
                }
            },
        }
    } else {
        scan_from(text, hi, cfg, escaped, base, i + 1, open, false)
    }
}

// ---------------------------------------------------------------------
// The pipeline
// ---------------------------------------------------------------------

/// The fixed stage order.  Strong runs before emphasis so that a `**`
/// pair is consumed before the single-character scan could reinterpret
/// it.
pub open spec fn delim_stages() -> Seq<Delim> {
    seq![
        Delim { ch: '*', double: true, tag: Tag::Strong },
        Delim { ch: '_', double: true, tag: Tag::Strong },
        Delim { ch: '*', double: false, tag: Tag::Emphasis },
        Delim { ch: '_', double: false, tag: Tag::Emphasis },
        Delim { ch: '~', double: true, tag: Tag::Strikethrough },
        Delim { ch: '`', double: false, tag: Tag::Code },
    ]
}

/// Run the stages of `cfgs` in order over `[lo, hi)`, each seeing what
/// all earlier ones (and the escape scan) consumed.  Returns all emitted
/// spans in stage order, and the final consumed sequence.
pub open spec fn run_stages(
    text: Seq<Seq<char>>,
    hi: int,
    cfgs: Seq<Delim>,
    escaped: Seq<int>,
    consumed: Seq<int>,
    lo: int,
) -> (Seq<GSpan>, Seq<int>)
    decreases cfgs.len(),
{
    if cfgs.len() == 0 {
        (Seq::empty(), consumed)
    } else {
        let r = scan_from(text, hi, cfgs[0], escaped, consumed, lo, None, false);
        let rest = run_stages(text, hi, cfgs.drop_first(), escaped, consumed + r.1, lo);
        (r.0 + rest.0, rest.1)
    }
}

/// The indices of `s` that lie inside the window `[lo, hi)`, in order.
pub open spec fn restrict_ix(s: Seq<int>, lo: int, hi: int) -> Seq<int> {
    s.filter(|k: int| lo <= k < hi)
}

/// The spans of `s` that lie entirely inside the window `[lo, hi)`, in
/// order.
pub open spec fn restrict_spans(s: Seq<GSpan>, lo: int, hi: int) -> Seq<GSpan> {
    s.filter(|sp: GSpan| lo <= sp.start && sp.end <= hi)
}

/// One `Syntax` span of length one for every consumed index inside the
/// scanned window, in consumption order.
pub open spec fn syntax_spans(consumed: Seq<int>, lo: int, hi: int) -> Seq<GSpan> {
    restrict_ix(consumed, lo, hi).map_values(
        |k: int| GSpan { start: k, end: k + 1, tag: Tag::Syntax },
    )
}

/// The complete parse of `text` limited to the window `[lo, hi)`: the
/// spans of the six delimiter stages followed by the derived `Syntax`
/// spans.  A full-document parse is the window `[0, text.len())`.
pub open spec fn parse_spec(text: Seq<Seq<char>>, lo: int, hi: int) -> Seq<GSpan> {
    let esc = escape_scan_spec(text);
    let st = run_stages(text, hi, delim_stages(), esc.0, esc.1, lo);
    st.0 + syntax_spans(st.1, lo, hi)
}

/// The window bounds a parse request denotes: the whole text when no
/// update range is given.
pub open spec fn update_bounds(update: Option<GraphemeRange>, len: int) -> (int, int) {
    match update {
        Option::None => (0, len),
        Option::Some(r) => (r.start as int, r.end as int),
    }
}

// ---------------------------------------------------------------------
// Incremental range selection
// ---------------------------------------------------------------------

/// The start of the paragraph containing the cursor: the first index
/// after the nearest paragraph break that ends at or before `c`, or 0.
pub open spec fn para_start(text: Seq<Seq<char>>, c: int) -> int
    decreases c,
{
    if c < 2 {
        0
    } else if is_newline(text, c - 2) && is_newline(text, c - 1) {
        c
    } else {
        para_start(text, c - 1)
    }
}

/// The end of the paragraph containing the cursor: the index of the
/// nearest paragraph break at or after `c`, or the end of the text.
pub open spec fn para_end(text: Seq<Seq<char>>, c: int) -> int
    decreases text.len() - c,
{
    if c < 0 || c + 1 >= text.len() {
        text.len() as int
    } else if is_newline(text, c) && is_newline(text, c + 1) {
        c
    } else {
        para_end(text, c + 1)
    }
}

// ---------------------------------------------------------------------
// Executable scans
// ---------------------------------------------------------------------

/// Whether `x` occurs in `v`.
fn contains_index(v: &Vec<usize>, x: usize) -> (b: bool)
    ensures
        b == useq(v@).contains(x as int),
{
    let mut j: usize = 0;
    while j < v.len()
        invariant
            j <= v@.len(),
            forall|k: int| 0 <= k < j ==> useq(v@)[k] != x as int,
        decreases v@.len() - j,
    {
        if v[j] == x {
            proof {
                assert(useq(v@)[j as int] == x as int);
            }
            return true;
        }
        j += 1;
    }
    proof {
        assert(!useq(v@).contains(x as int));
    }
    false
}

/// Whether the grapheme at `i` is exactly the one-character cluster `c`.
fn grapheme_eq_char(text: &Vec<Vec<char>>, i: usize, c: char) -> (b: bool)
    requires
        i < text@.len(),
    ensures
        b == grapheme_is(gview(text@), i as int, c),
{
    let g = &text[i];
    proof {
        assert(gview(text@)[i as int] == g@);
    }
    if g.len() == 1 {
        let b = g[0] == c;
        proof {
            if b {
                assert(g@ =~= seq![c]);
            } else {
                assert(g@[0] != seq![c][0]);
            }
        }
        b
    } else {
        proof {
            assert(g@.len() != seq![c].len());
        }
        false
    }
}

/// Whether the grapheme at `i` is a delimiter character or a backslash.
fn special_at(text: &Vec<Vec<char>>, i: usize) -> (b: bool)
    requires
        i < text@.len(),
    ensures
        b == is_special(gview(text@)[i as int]),
{
    grapheme_eq_char(text, i, '*') || grapheme_eq_char(text, i, '_') || grapheme_eq_char(
        text,
        i,
        '~',
    ) || grapheme_eq_char(text, i, '`') || grapheme_eq_char(text, i, '\\')
}

/// Whether a paragraph break starts at `i`, inside the window `[.., hi)`.
fn break_at(text: &Vec<Vec<char>>, i: usize, hi: usize) -> (b: bool)
    requires
        i < hi,
        hi <= text@.len(),
    ensures
        b == is_break(gview(text@), i as int, hi as int),
{
    i + 1 < hi && grapheme_eq_char(text, i, '\n') && grapheme_eq_char(text, i + 1, '\n')
}

/// The escape scan over the whole snapshot.  Returns the escaped indices
/// and the indices consumed by escaping backslashes.
fn escape_scan(text: &Vec<Vec<char>>) -> (r: (Vec<usize>, Vec<usize>))
    ensures
        useq(r.0@) == escape_scan_spec(gview(text@)).0,
        useq(r.1@) == escape_scan_spec(gview(text@)).1,
{
    let ghost t = gview(text@);
    let mut escaped: Vec<usize> = Vec::new();
    let mut consumed: Vec<usize> = Vec::new();
    let mut pending = false;
    let mut i: usize = 0;
    while i < text.len()
        invariant
            i <= text@.len(),
            t == gview(text@),
            pending ==> i >= 1,
            escape_scan_spec(t).0 == useq(escaped@) + escape_from(t, i as int, pending).0,
            escape_scan_spec(t).1 == useq(consumed@) + escape_from(t, i as int, pending).1,
        decreases text@.len() - i,
    {
        let ghost esc0 = escaped@;
        let ghost con0 = consumed@;
        let ghost pend0 = pending;
        if grapheme_eq_char(text, i, '\n') {
            pending = false;
        } else if pending {
            escaped.push(i);
            if special_at(text, i) {
                consumed.push(i - 1);
            }
            pending = false;
            proof {
                lemma_useq_push(esc0, i);
                assert(useq(esc0) + (seq![i as int] + escape_from(t, i as int + 1, false).0)
                    =~= useq(escaped@) + escape_from(t, i as int + 1, false).0);
                if is_special(t[i as int]) {
                    lemma_useq_push(con0, (i - 1) as usize);
                    assert(useq(con0) + (seq![i as int - 1] + escape_from(
                        t,
                        i as int + 1,
                        false,
                    ).1) =~= useq(consumed@) + escape_from(t, i as int + 1, false).1);
                }
            }
        } else if grapheme_eq_char(text, i, '\\') {
            pending = true;
        } else {
            pending = false;
        }
        i += 1;
    }
    proof {
        assert(escape_from(t, i as int, pending).0 =~= Seq::<int>::empty());
        assert(escape_from(t, i as int, pending).1 =~= Seq::<int>::empty());
        assert(useq(escaped@) + Seq::<int>::empty() =~= useq(escaped@));
        assert(useq(consumed@) + Seq::<int>::empty() =~= useq(consumed@));
    }
    (escaped, consumed)
}

/// One delimiter stage over `[lo, hi)`.  Appends the spans it emits to
/// `spans` and the indices it consumes to `consumed`; the scannable test
/// reads only the consumption state from before the stage, as the
/// toggling scan never revisits a position it claimed itself.
fn run_stage(
    text: &Vec<Vec<char>>,
    lo: usize,
    hi: usize,
    cfg: Delim,
    escaped: &Vec<usize>,
    consumed: &mut Vec<usize>,
    spans: &mut Vec<FormatSpan>,
)
    requires
        lo <= hi,
        hi <= text@.len(),
    ensures
        gspans(final(spans)@) == gspans(old(spans)@) + scan_from(
            gview(text@),
            hi as int,
            cfg,
            useq(escaped@),
            useq(old(consumed)@),
            lo as int,
            None,
            false,
        ).0,
        useq(final(consumed)@) == useq(old(consumed)@) + scan_from(
            gview(text@),
            hi as int,
            cfg,
            useq(escaped@),
            useq(old(consumed)@),
            lo as int,
            None,
            false,
        ).1,
{
    let ghost t = gview(text@);
    let ghost esc = useq(escaped@);
    let ghost base = useq(consumed@);
    let ghost full = scan_from(t, hi as int, cfg, esc, base, lo as int, None, false);
    let mut out: Vec<FormatSpan> = Vec::new();
    let mut fresh: Vec<usize> = Vec::new();
    let mut open: Option<usize> = None;
    let mut sup = false;
    let mut i: usize = lo;
    while i < hi
        invariant
            lo <= hi <= text@.len(),
            t == gview(text@),
            esc == useq(escaped@),
            base == useq(consumed@),
            full == scan_from(t, hi as int, cfg, esc, base, lo as int, None, false),
            match open {
                Option::Some(s) => s < i,
                Option::None => true,
            },
            full.0 == gspans(out@) + scan_from(
                t,
                hi as int,
                cfg,
                esc,
                base,
                i as int,
                match open {
                    Option::Some(s) => Some(s as int),
                    Option::None => None,
                },
                sup,
            ).0,
            full.1 == useq(fresh@) + scan_from(
                t,
                hi as int,
                cfg,
                esc,
                base,
                i as int,
                match open {
                    Option::Some(s) => Some(s as int),
                    Option::None => None,
                },
                sup,
            ).1,
        decreases hi - i,
    {
        let ghost open0: Option<int> = match open {
            Option::Some(s) => Some(s as int),
            Option::None => None,
        };
        let ghost sup0 = sup;
        let ghost i0 = i as int;
        let ghost out0 = out@;
        let ghost fresh0 = fresh@;
        if break_at(text, i, hi) {
            open = None;
            sup = false;
            i += 2;
        } else {
            let sc_i = !contains_index(escaped, i) && !contains_index(consumed, i);
            let di = grapheme_eq_char(text, i, cfg.ch);
            let matched = if cfg.double {
                sc_i && di && i + 1 < hi && grapheme_eq_char(text, i + 1, cfg.ch)
                    && !contains_index(escaped, i + 1) && !contains_index(consumed, i + 1)
            } else {
                sc_i && di && !sup
            };
            proof {
                assert(matched == hit(t, hi as int, cfg, esc, base, i0, sup0));
            }
            if matched {
                match open {
                    Option::None => {
                        open = Some(i);
                        sup = !cfg.double;
                        i += if cfg.double {
                            2
                        } else {
                            1
                        };
                    },
                    Option::Some(s) => {
                        if cfg.double && s + 2 == i {
                            // Empty interior: stay open, advance past the
                            // second delimiter character.
                            sup = false;
                            i += 2;
                        } else {
                            let end = i + if cfg.double {
                                2
                            } else {
                                1
                            };
                            out.push(FormatSpan { start: s, end, tag: cfg.tag });
                            fresh.push(s);
                            if cfg.double {
                                fresh.push(s + 1);
                                fresh.push(i);
                                fresh.push(i + 1);
                            } else {
                                fresh.push(i);
                            }
                            open = None;
                            sup = !cfg.double;
                            i = end;
                            proof {
                                let sp = GSpan { start: s as int, end: end as int, tag: cfg.tag };
                                let rest = scan_from(
                                    t,
                                    hi as int,
                                    cfg,
                                    esc,
                                    base,
                                    i as int,
                                    None,
                                    sup,
                                );
                                assert(scan_from(t, hi as int, cfg, esc, base, i0, open0, sup0).0
                                    == seq![sp] + rest.0);
                                lemma_gspans_push(out0, FormatSpan { start: s, end, tag: cfg.tag });
                                assert(gspans(out0) + (seq![sp] + rest.0) =~= gspans(out@)
                                    + rest.0);
                                assert(useq(fresh0) + (close_indices(s as int, i0, cfg) + rest.1)
                                    =~= useq(fresh@) + rest.1);
                            }
                        }
                    },
                }
            } else {
                sup = false;
                i += 1;
            }
        }
    }
    proof {
        let tail = scan_from(
            t,
            hi as int,
            cfg,
            esc,
            base,
            i as int,
            match open {
                Option::Some(s) => Some(s as int),
                Option::None => None,
            },
            sup,
        );
        assert(tail.0 =~= Seq::<GSpan>::empty());
        assert(tail.1 =~= Seq::<int>::empty());
        assert(full.0 =~= gspans(out@));
        assert(full.1 =~= useq(fresh@));
    }
    let ghost consumed_mid = consumed@;
    let ghost spans_mid = spans@;
    let ghost fresh_done = fresh@;
    let ghost out_done = out@;
    consumed.append(&mut fresh);
    spans.append(&mut out);
    proof {
        crate::span::lemma_useq_add(consumed_mid, fresh_done);
        crate::span::lemma_gspans_add(spans_mid, out_done);
    }
}

/// A `Syntax` span covers each consumed index inside the window.
proof fn lemma_syntax_spans_push(s: Seq<int>, x: int, lo: int, hi: int)
    ensures
        syntax_spans(s.push(x), lo, hi) == if lo <= x < hi {
            syntax_spans(s, lo, hi).push(GSpan { start: x, end: x + 1, tag: Tag::Syntax })
        } else {
            syntax_spans(s, lo, hi)
        },
{
    reveal(Seq::filter);
    assert(s.push(x).drop_last() =~= s);
    assert(s.push(x).last() == x);
    if lo <= x < hi {
        assert(syntax_spans(s.push(x), lo, hi) =~= syntax_spans(s, lo, hi).push(
            GSpan { start: x, end: x + 1, tag: Tag::Syntax },
        ));
    } else {
        assert(syntax_spans(s.push(x), lo, hi) =~= syntax_spans(s, lo, hi));
    }
}

/// Parse `text`, limited to `update` when one is given.  The returned
/// spans are exactly what the pipeline specification yields on that
/// window; same text and window always give the same spans.
pub fn parse(text: &Vec<Vec<char>>, update: Option<GraphemeRange>) -> (spans: Vec<FormatSpan>)
    requires
        match update {
            Option::Some(r) => r.start <= r.end && r.end <= text@.len(),
            Option::None => true,
        },
    ensures
        ({
            let b = update_bounds(update, text@.len() as int);
            gspans(spans@) == parse_spec(gview(text@), b.0, b.1)
        }),
{
    let ghost t = gview(text@);
    let (lo, hi) = match update {
        Option::Some(r) => (r.start, r.end),
        Option::None => (0usize, text.len()),
    };
    let er = escape_scan(text);
    let escaped = er.0;
    let mut consumed = er.1;
    let mut spans: Vec<FormatSpan> = Vec::new();
    let ghost esc = useq(escaped@);
    let ghost c0 = useq(consumed@);
    let mut cfgs: Vec<Delim> = Vec::new();
    cfgs.push(Delim { ch: '*', double: true, tag: Tag::Strong });
    cfgs.push(Delim { ch: '_', double: true, tag: Tag::Strong });
    cfgs.push(Delim { ch: '*', double: false, tag: Tag::Emphasis });
    cfgs.push(Delim { ch: '_', double: false, tag: Tag::Emphasis });
    cfgs.push(Delim { ch: '~', double: true, tag: Tag::Strikethrough });
    cfgs.push(Delim { ch: '`', double: false, tag: Tag::Code });
    proof {
        assert(cfgs@ =~= delim_stages());
    }
    let ghost full = run_stages(t, hi as int, delim_stages(), esc, c0, lo as int);
    proof {
        assert(delim_stages().skip(0) =~= delim_stages());
        assert(gspans(spans@) =~= Seq::<GSpan>::empty());
        assert(Seq::<GSpan>::empty() + full.0 =~= full.0);
    }
    let mut k: usize = 0;
    while k < cfgs.len()
        invariant
            k <= cfgs@.len(),
            cfgs@ == delim_stages(),
            t == gview(text@),
            esc == useq(escaped@),
            lo <= hi <= text@.len(),
            full == run_stages(t, hi as int, delim_stages(), esc, c0, lo as int),
            full.0 == gspans(spans@) + run_stages(
                t,
                hi as int,
                delim_stages().skip(k as int),
                esc,
                useq(consumed@),
                lo as int,
            ).0,
            full.1 == run_stages(
                t,
                hi as int,
                delim_stages().skip(k as int),
                esc,
                useq(consumed@),
                lo as int,
            ).1,
        decreases cfgs@.len() - k,
    {
        let ghost cur = useq(consumed@);
        let ghost spans0 = spans@;
        let cfg = cfgs[k];
        proof {
            assert(delim_stages().skip(k as int)[0] == delim_stages()[k as int]);
            assert(delim_stages().skip(k as int).drop_first() =~= delim_stages().skip(
                k as int + 1,
            ));
        }
        run_stage(text, lo, hi, cfg, &escaped, &mut consumed, &mut spans);
        k += 1;
        proof {
            let r = scan_from(t, hi as int, cfg, esc, cur, lo as int, None, false);
            let rest = run_stages(
                t,
                hi as int,
                delim_stages().skip(k as int),
                esc,
                cur + r.1,
                lo as int,
            );
            assert(useq(consumed@) == cur + r.1);
            assert(gspans(spans0) + (r.0 + rest.0) =~= gspans(spans@) + rest.0);
        }
    }
    proof {
        assert(delim_stages().skip(6) =~= Seq::<Delim>::empty());
        assert(full.0 + Seq::<GSpan>::empty() =~= full.0);
        assert(gspans(spans@) + Seq::<GSpan>::empty() =~= gspans(spans@));
        assert(full.0 == gspans(spans@));
        assert(full.1 == useq(consumed@));
    }
    let ghost spans_mid = spans@;
    let mut j: usize = 0;
    while j < consumed.len()
        invariant
            j <= consumed@.len(),
            lo <= hi <= text@.len(),
            gspans(spans@) == gspans(spans_mid) + syntax_spans(
                useq(consumed@).take(j as int),
                lo as int,
                hi as int,
            ),
        decreases consumed@.len() - j,
    {
        let ghost sq = useq(consumed@);
        let ghost spans1 = spans@;
        let c = consumed[j];
        proof {
            assert(sq.take(j as int + 1).drop_last() =~= sq.take(j as int));
            assert(sq.take(j as int + 1) =~= sq.take(j as int).push(c as int));
            lemma_syntax_spans_push(sq.take(j as int), c as int, lo as int, hi as int);
        }
        if lo <= c && c < hi {
            spans.push(FormatSpan { start: c, end: c + 1, tag: Tag::Syntax });
            proof {
                lemma_gspans_push(
                    spans1,
                    FormatSpan { start: c, end: (c + 1) as usize, tag: Tag::Syntax },
                );
                assert(gspans(spans@) =~= gspans(spans_mid) + syntax_spans(
                    sq.take(j as int + 1),
                    lo as int,
                    hi as int,
                ));
            }
        }
        j += 1;
    }
    proof {
        assert(useq(consumed@).take(consumed@.len() as int) =~= useq(consumed@));
        assert(gspans(spans@) =~= parse_spec(t, lo as int, hi as int));
    }
    spans
}

/// How far back the start of the paragraph containing the cursor lies.
pub proof fn lemma_para_start_le(text: Seq<Seq<char>>, c: int)
    requires
        c >= 0,
    ensures
        0 <= para_start(text, c) <= c,
    decreases c,
{
    if c >= 2 && !(is_newline(text, c - 2) && is_newline(text, c - 1)) {
        lemma_para_start_le(text, c - 1);
    }
}

/// The end of the paragraph containing the cursor lies at or after it.
pub proof fn lemma_para_end_ge(text: Seq<Seq<char>>, c: int)
    requires
        0 <= c <= text.len(),
    ensures
        c <= para_end(text, c) <= text.len(),
    decreases text.len() - c,
{
    if c + 1 < text.len() && !(is_newline(text, c) && is_newline(text, c + 1)) {
        lemma_para_end_ge(text, c + 1);
    }
}

/// The paragraph-bounded window around the cursor: from just after the
/// nearest paragraph break before the cursor (or the start of the text)
/// up to the nearest paragraph break at or after it (or the end of the
/// text).  Parsing only this window reproduces, inside it, exactly what
/// a full-document parse produces.
pub fn select_range(text: &Vec<Vec<char>>, cursor: usize) -> (r: GraphemeRange)
    requires
        cursor <= text@.len(),
    ensures
        r.start as int == para_start(gview(text@), cursor as int),
        r.end as int == para_end(gview(text@), cursor as int),
        r.start <= cursor,
        cursor <= r.end,
        r.end <= text@.len(),
{
    let ghost t = gview(text@);
    let mut s: usize = cursor;
    let mut found = false;
    while !found && s >= 2
        invariant
            s <= cursor,
            cursor <= text@.len(),
            t == gview(text@),
            para_start(t, cursor as int) == para_start(t, s as int),
            found ==> s >= 2 && is_newline(t, s as int - 2) && is_newline(t, s as int - 1),
        decreases (if found {
            0int
        } else {
            s as int + 1
        }),
    {
        if grapheme_eq_char(text, s - 2, '\n') && grapheme_eq_char(text, s - 1, '\n') {
            found = true;
        } else {
            s -= 1;
        }
    }
    let start = if found {
        s
    } else {
        0
    };
    let n = text.len();
    let mut e: usize = cursor;
    let mut efound = false;
    while !efound && n - e > 1
        invariant
            cursor <= e <= text@.len(),
            n == text@.len(),
            t == gview(text@),
            para_end(t, cursor as int) == para_end(t, e as int),
            efound ==> e as int + 1 < text@.len() && is_newline(t, e as int) && is_newline(
                t,
                e as int + 1,
            ),
        decreases (if efound {
            0int
        } else {
            text@.len() - e + 1
        }),
    {
        if grapheme_eq_char(text, e, '\n') && grapheme_eq_char(text, e + 1, '\n') {
            efound = true;
        } else {
            e += 1;
        }
    }
    let end = if efound {
        e
    } else {
        n
    };
    proof {
        lemma_para_start_le(t, cursor as int);
        lemma_para_end_ge(t, cursor as int);
    }
    GraphemeRange { start, end }
}

} // verus!
