//! The laws of the parser: statements that relate whole parses, proved
//! once and for all inputs.

use vstd::prelude::*;
use vstd::seq_lib::lemma_seq_contains_after_push;

use crate::parser::{
    delim_stages, escape_from, escape_scan_spec, grapheme_is, hit, is_break, is_newline,
    is_special, para_end, para_start, parse_spec, restrict_ix, restrict_spans, run_stages,
    scan_from, syntax_spans, Delim,
};
use crate::span::GSpan;
use crate::style::Tag;

verus! {

// ---------------------------------------------------------------------
// Window restriction: basic algebra
// ---------------------------------------------------------------------

pub proof fn lemma_restrict_ix_empty(lo: int, hi: int)
    ensures
        restrict_ix(Seq::empty(), lo, hi) == Seq::<int>::empty(),
{
    reveal(Seq::filter);
}

pub proof fn lemma_restrict_spans_empty(lo: int, hi: int)
    ensures
        restrict_spans(Seq::empty(), lo, hi) == Seq::<GSpan>::empty(),
{
    reveal(Seq::filter);
}

pub proof fn lemma_restrict_ix_push(s: Seq<int>, x: int, lo: int, hi: int)
    ensures
        restrict_ix(s.push(x), lo, hi) == if lo <= x < hi {
            restrict_ix(s, lo, hi).push(x)
        } else {
            restrict_ix(s, lo, hi)
        },
{
    reveal(Seq::filter);
    assert(s.push(x).drop_last() =~= s);
    assert(s.push(x).last() == x);
}

pub proof fn lemma_restrict_spans_push(s: Seq<GSpan>, x: GSpan, lo: int, hi: int)
    ensures
        restrict_spans(s.push(x), lo, hi) == if lo <= x.start && x.end <= hi {
            restrict_spans(s, lo, hi).push(x)
        } else {
            restrict_spans(s, lo, hi)
        },
{
    reveal(Seq::filter);
    assert(s.push(x).drop_last() =~= s);
    assert(s.push(x).last() == x);
}

pub proof fn lemma_restrict_ix_add(a: Seq<int>, b: Seq<int>, lo: int, hi: int)
    ensures
        restrict_ix(a + b, lo, hi) == restrict_ix(a, lo, hi) + restrict_ix(b, lo, hi),
    decreases b.len(),
{
    if b.len() == 0 {
        lemma_restrict_ix_empty(lo, hi);
        assert(a + b =~= a);
        assert(restrict_ix(a, lo, hi) + restrict_ix(b, lo, hi) =~= restrict_ix(a, lo, hi));
    } else {
        let dl = b.drop_last();
        let e = b.last();
        lemma_restrict_ix_add(a, dl, lo, hi);
        assert(a + b =~= (a + dl).push(e));
        assert(b =~= dl.push(e));
        lemma_restrict_ix_push(a + dl, e, lo, hi);
        lemma_restrict_ix_push(dl, e, lo, hi);
        if lo <= e < hi {
            assert((restrict_ix(a, lo, hi) + restrict_ix(dl, lo, hi)).push(e) =~= restrict_ix(
                a,
                lo,
                hi,
            ) + restrict_ix(dl, lo, hi).push(e));
        }
    }
}

pub proof fn lemma_restrict_spans_add(a: Seq<GSpan>, b: Seq<GSpan>, lo: int, hi: int)
    ensures
        restrict_spans(a + b, lo, hi) == restrict_spans(a, lo, hi) + restrict_spans(b, lo, hi),
    decreases b.len(),
{
    if b.len() == 0 {
        lemma_restrict_spans_empty(lo, hi);
        assert(a + b =~= a);
        assert(restrict_spans(a, lo, hi) + restrict_spans(b, lo, hi) =~= restrict_spans(
            a,
            lo,
            hi,
        ));
    } else {
        let dl = b.drop_last();
        let e = b.last();
        lemma_restrict_spans_add(a, dl, lo, hi);
        assert(a + b =~= (a + dl).push(e));
        assert(b =~= dl.push(e));
        lemma_restrict_spans_push(a + dl, e, lo, hi);
        lemma_restrict_spans_push(dl, e, lo, hi);
        if lo <= e.start && e.end <= hi {
            assert((restrict_spans(a, lo, hi) + restrict_spans(dl, lo, hi)).push(e)
                =~= restrict_spans(a, lo, hi) + restrict_spans(dl, lo, hi).push(e));
        }
    }
}

pub proof fn lemma_restrict_ix_all(s: Seq<int>, lo: int, hi: int)
    requires
        forall|k: int| 0 <= k < s.len() ==> lo <= #[trigger] s[k] < hi,
    ensures
        restrict_ix(s, lo, hi) == s,
    decreases s.len(),
{
    if s.len() == 0 {
        lemma_restrict_ix_empty(lo, hi);
        assert(s =~= Seq::<int>::empty());
    } else {
        let dl = s.drop_last();
        lemma_restrict_ix_all(dl, lo, hi);
        lemma_restrict_ix_push(dl, s.last(), lo, hi);
        assert(s =~= dl.push(s.last()));
    }
}

pub proof fn lemma_restrict_spans_all(s: Seq<GSpan>, lo: int, hi: int)
    requires
        forall|k: int|
            0 <= k < s.len() ==> lo <= (#[trigger] s[k]).start && s[k].end <= hi,
    ensures
        restrict_spans(s, lo, hi) == s,
    decreases s.len(),
{
    if s.len() == 0 {
        lemma_restrict_spans_empty(lo, hi);
        assert(s =~= Seq::<GSpan>::empty());
    } else {
        let dl = s.drop_last();
        lemma_restrict_spans_all(dl, lo, hi);
        lemma_restrict_spans_push(dl, s.last(), lo, hi);
        assert(s =~= dl.push(s.last()));
    }
}

pub proof fn lemma_restrict_ix_none(s: Seq<int>, lo: int, hi: int)
    requires
        forall|k: int| 0 <= k < s.len() ==> !(lo <= #[trigger] s[k] < hi),
    ensures
        restrict_ix(s, lo, hi) == Seq::<int>::empty(),
    decreases s.len(),
{
    if s.len() == 0 {
        lemma_restrict_ix_empty(lo, hi);
        assert(s =~= Seq::<int>::empty());
    } else {
        let dl = s.drop_last();
        lemma_restrict_ix_none(dl, lo, hi);
        lemma_restrict_ix_push(dl, s.last(), lo, hi);
        assert(s =~= dl.push(s.last()));
    }
}

pub proof fn lemma_restrict_spans_none(s: Seq<GSpan>, lo: int, hi: int)
    requires
        forall|k: int|
            0 <= k < s.len() ==> !(lo <= (#[trigger] s[k]).start && s[k].end <= hi),
    ensures
        restrict_spans(s, lo, hi) == Seq::<GSpan>::empty(),
    decreases s.len(),
{
    if s.len() == 0 {
        lemma_restrict_spans_empty(lo, hi);
        assert(s =~= Seq::<GSpan>::empty());
    } else {
        let dl = s.drop_last();
        lemma_restrict_spans_none(dl, lo, hi);
        lemma_restrict_spans_push(dl, s.last(), lo, hi);
        assert(s =~= dl.push(s.last()));
    }
}

/// Membership inside the window is unchanged by the restriction.
pub proof fn lemma_restrict_ix_contains(s: Seq<int>, lo: int, hi: int, x: int)
    requires
        lo <= x < hi,
    ensures
        restrict_ix(s, lo, hi).contains(x) <==> s.contains(x),
    decreases s.len(),
{
    if s.len() == 0 {
        lemma_restrict_ix_empty(lo, hi);
        assert(s =~= Seq::<int>::empty());
    } else {
        let dl = s.drop_last();
        let e = s.last();
        lemma_restrict_ix_contains(dl, lo, hi, x);
        lemma_restrict_ix_push(dl, e, lo, hi);
        assert(s =~= dl.push(e));
        lemma_seq_contains_after_push(dl, e, x);
        if lo <= e < hi {
            lemma_seq_contains_after_push(restrict_ix(dl, lo, hi), e, x);
        }
    }
}

// ---------------------------------------------------------------------
// Bounds of one delimiter scan
// ---------------------------------------------------------------------

/// Everything a scan emits lies inside its window: every span within
/// `[mn, hi)` with a non-empty interval, every consumed index likewise,
/// where `mn` is the scan position or the still-open start.
pub proof fn lemma_scan_bounds(
    text: Seq<Seq<char>>,
    hi: int,
    cfg: Delim,
    escaped: Seq<int>,
    base: Seq<int>,
    i: int,
    open: Option<int>,
    sup: bool,
)
    requires
        match open {
            Option::Some(s) => s < i,
            Option::None => true,
        },
    ensures
        ({
            let r = scan_from(text, hi, cfg, escaped, base, i, open, sup);
            let mn = match open {
                Option::Some(s) => s,
                Option::None => i,
            };
            &&& forall|k: int|
                0 <= k < r.0.len() ==> mn <= (#[trigger] r.0[k]).start < r.0[k].end <= hi
            &&& forall|k: int| 0 <= k < r.1.len() ==> mn <= #[trigger] r.1[k] < hi
        }),
    decreases hi - i,
{
    if i >= hi {
    } else if is_break(text, i, hi) {
        lemma_scan_bounds(text, hi, cfg, escaped, base, i + 2, None, false);
    } else if hit(text, hi, cfg, escaped, base, i, sup) {
        match open {
            Option::None => {
                lemma_scan_bounds(
                    text,
                    hi,
                    cfg,
                    escaped,
                    base,
                    i + (if cfg.double {
                        2int
                    } else {
                        1int
                    }),
                    Some(i),
                    !cfg.double,
                );
            },
            Option::Some(s) => {
                if cfg.double && s + 2 == i {
                    lemma_scan_bounds(text, hi, cfg, escaped, base, i + 2, Some(s), false);
                } else {
                    lemma_scan_bounds(
                        text,
                        hi,
                        cfg,
                        escaped,
                        base,
                        i + (if cfg.double {
                            2int
                        } else {
                            1int
                        }),
                        None,
                        !cfg.double,
                    );
                }
            },
        }
    } else {
        lemma_scan_bounds(text, hi, cfg, escaped, base, i + 1, open, false);
    }
}

// ---------------------------------------------------------------------
// Text without markup parses to nothing
// ---------------------------------------------------------------------

/// The delimiter character `c` occurs nowhere in the window.
pub open spec fn char_absent(text: Seq<Seq<char>>, lo: int, hi: int, c: char) -> bool {
    forall|j: int| lo <= j < hi ==> !grapheme_is(text, j, c)
}

/// A scan for a delimiter character that occurs nowhere in its window
/// emits nothing and consumes nothing.
proof fn lemma_scan_no_delim(
    text: Seq<Seq<char>>,
    hi: int,
    cfg: Delim,
    escaped: Seq<int>,
    base: Seq<int>,
    i: int,
    open: Option<int>,
    sup: bool,
)
    requires
        forall|j: int| i <= j < hi ==> !grapheme_is(text, j, cfg.ch),
    ensures
        scan_from(text, hi, cfg, escaped, base, i, open, sup) == (
            Seq::<GSpan>::empty(),
            Seq::<int>::empty(),
        ),
    decreases hi - i,
{
    if i >= hi {
    } else if is_break(text, i, hi) {
        lemma_scan_no_delim(text, hi, cfg, escaped, base, i + 2, None, false);
    } else {
        assert(!hit(text, hi, cfg, escaped, base, i, sup));
        lemma_scan_no_delim(text, hi, cfg, escaped, base, i + 1, open, false);
    }
}

/// The escape scan of a text without backslashes finds nothing.
proof fn lemma_escape_scan_no_backslash(text: Seq<Seq<char>>, i: int)
    requires
        forall|j: int| 0 <= j < text.len() ==> !grapheme_is(text, j, '\\'),
    ensures
        escape_from(text, i, false) == (Seq::<int>::empty(), Seq::<int>::empty()),
    decreases text.len() - i,
{
    if 0 <= i < text.len() {
        lemma_escape_scan_no_backslash(text, i + 1);
    }
}

/// Stages whose delimiter characters occur nowhere in the window add
/// nothing.
proof fn lemma_stages_no_delims(
    text: Seq<Seq<char>>,
    hi: int,
    cfgs: Seq<Delim>,
    escaped: Seq<int>,
    consumed: Seq<int>,
    lo: int,
)
    requires
        forall|k: int|
            0 <= k < cfgs.len() ==> char_absent(text, lo, hi, (#[trigger] cfgs[k]).ch),
    ensures
        run_stages(text, hi, cfgs, escaped, consumed, lo) == (Seq::<GSpan>::empty(), consumed),
    decreases cfgs.len(),
{
    if cfgs.len() > 0 {
        lemma_scan_no_delim(text, hi, cfgs[0], escaped, consumed, lo, None, false);
        assert(consumed + Seq::<int>::empty() =~= consumed);
        assert(forall|k: int|
            0 <= k < cfgs.drop_first().len() ==> char_absent(
                text,
                lo,
                hi,
                (#[trigger] cfgs.drop_first()[k]).ch,
            ));
        lemma_stages_no_delims(text, hi, cfgs.drop_first(), escaped, consumed, lo);
        assert(Seq::<GSpan>::empty() + Seq::<GSpan>::empty() =~= Seq::<GSpan>::empty());
    }
}

/// Text in which no grapheme is a delimiter character or a backslash
/// parses to an empty span list, whatever the window.
pub proof fn lemma_no_markup_no_spans(text: Seq<Seq<char>>, lo: int, hi: int)
    requires
        0 <= lo,
        hi <= text.len(),
        forall|j: int| 0 <= j < text.len() ==> !is_special(#[trigger] text[j]),
    ensures
        parse_spec(text, lo, hi) == Seq::<GSpan>::empty(),
{
    assert(forall|j: int| 0 <= j < text.len() ==> !grapheme_is(text, j, '\\'));
    lemma_escape_scan_no_backslash(text, 0);
    assert forall|k: int|
        0 <= k < delim_stages().len() implies char_absent(
        text,
        lo,
        hi,
        (#[trigger] delim_stages()[k]).ch,
    ) by {
        let c = delim_stages()[k].ch;
        assert(c == '*' || c == '_' || c == '~' || c == '`');
        assert forall|j: int| lo <= j < hi implies !grapheme_is(text, j, c) by {
            assert(!is_special(text[j]));
        }
    }
    lemma_stages_no_delims(
        text,
        hi,
        delim_stages(),
        escape_scan_spec(text).0,
        escape_scan_spec(text).1,
        lo,
    );
    lemma_restrict_ix_empty(lo, hi);
    assert(syntax_spans(Seq::<int>::empty(), lo, hi) =~= Seq::<GSpan>::empty());
    assert(parse_spec(text, lo, hi) =~= Seq::<GSpan>::empty());
}

// ---------------------------------------------------------------------
// Grapheme correctness
// ---------------------------------------------------------------------

/// The only thing the parser reads off a grapheme cluster: which
/// syntactically meaningful one-character cluster it is, if any.  Every
/// other cluster — one plain character or a dozen code points composing
/// one emoji — is ordinary content.
pub open spec fn classify(g: Seq<char>) -> Option<char> {
    if g == seq!['*'] {
        Some('*')
    } else if g == seq!['_'] {
        Some('_')
    } else if g == seq!['~'] {
        Some('~')
    } else if g == seq!['`'] {
        Some('`')
    } else if g == seq!['\\'] {
        Some('\\')
    } else if g == seq!['\n'] {
        Some('\n')
    } else {
        None
    }
}

/// Two snapshots of equal length whose clusters classify alike.
pub open spec fn same_classes(t1: Seq<Seq<char>>, t2: Seq<Seq<char>>) -> bool {
    &&& t1.len() == t2.len()
    &&& forall|j: int| 0 <= j < t1.len() ==> classify(#[trigger] t1[j]) == classify(t2[j])
}

/// A character some delimiter stage scans for.
pub open spec fn is_delim_char(c: char) -> bool {
    c == '*' || c == '_' || c == '~' || c == '`'
}

proof fn lemma_classify_chars(g1: Seq<char>, g2: Seq<char>)
    requires
        classify(g1) == classify(g2),
    ensures
        (g1 == seq!['*']) <==> (g2 == seq!['*']),
        (g1 == seq!['_']) <==> (g2 == seq!['_']),
        (g1 == seq!['~']) <==> (g2 == seq!['~']),
        (g1 == seq!['`']) <==> (g2 == seq!['`']),
        (g1 == seq!['\\']) <==> (g2 == seq!['\\']),
        (g1 == seq!['\n']) <==> (g2 == seq!['\n']),
        is_special(g1) <==> is_special(g2),
{
}

proof fn lemma_escape_congruent(t1: Seq<Seq<char>>, t2: Seq<Seq<char>>, i: int, pending: bool)
    requires
        same_classes(t1, t2),
    ensures
        escape_from(t1, i, pending) == escape_from(t2, i, pending),
    decreases t1.len() - i,
{
    if 0 <= i < t1.len() {
        lemma_classify_chars(t1[i], t2[i]);
        if is_newline(t1, i) {
            lemma_escape_congruent(t1, t2, i + 1, false);
        } else if pending {
            lemma_escape_congruent(t1, t2, i + 1, false);
        } else if grapheme_is(t1, i, '\\') {
            lemma_escape_congruent(t1, t2, i + 1, true);
        } else {
            lemma_escape_congruent(t1, t2, i + 1, false);
        }
    }
}

proof fn lemma_scan_congruent(
    t1: Seq<Seq<char>>,
    t2: Seq<Seq<char>>,
    hi: int,
    cfg: Delim,
    escaped: Seq<int>,
    base: Seq<int>,
    i: int,
    open: Option<int>,
    sup: bool,
)
    requires
        same_classes(t1, t2),
        hi <= t1.len(),
        is_delim_char(cfg.ch),
        0 <= i,
    ensures
        scan_from(t1, hi, cfg, escaped, base, i, open, sup) == scan_from(
            t2,
            hi,
            cfg,
            escaped,
            base,
            i,
            open,
            sup,
        ),
    decreases hi - i,
{
    if i < hi {
        lemma_classify_chars(t1[i], t2[i]);
        if i + 1 < hi {
            lemma_classify_chars(t1[i + 1], t2[i + 1]);
        }
        assert(is_break(t1, i, hi) == is_break(t2, i, hi));
        assert(hit(t1, hi, cfg, escaped, base, i, sup) == hit(t2, hi, cfg, escaped, base, i, sup));
        if is_break(t1, i, hi) {
            lemma_scan_congruent(t1, t2, hi, cfg, escaped, base, i + 2, None, false);
        } else if hit(t1, hi, cfg, escaped, base, i, sup) {
            let step: int = if cfg.double {
                2
            } else {
                1
            };
            match open {
                Option::None => {
                    lemma_scan_congruent(
                        t1,
                        t2,
                        hi,
                        cfg,
                        escaped,
                        base,
                        i + step,
                        Some(i),
                        !cfg.double,
                    );
                },
                Option::Some(s) => {
                    if cfg.double && s + 2 == i {
                        lemma_scan_congruent(t1, t2, hi, cfg, escaped, base, i + 2, Some(s), false);
                    } else {
                        lemma_scan_congruent(
                            t1,
                            t2,
                            hi,
                            cfg,
                            escaped,
                            base,
                            i + step,
                            None,
                            !cfg.double,
                        );
                    }
                },
            }
        } else {
            lemma_scan_congruent(t1, t2, hi, cfg, escaped, base, i + 1, open, false);
        }
    }
}

proof fn lemma_stages_congruent(
    t1: Seq<Seq<char>>,
    t2: Seq<Seq<char>>,
    hi: int,
    cfgs: Seq<Delim>,
    escaped: Seq<int>,
    consumed: Seq<int>,
    lo: int,
)
    requires
        same_classes(t1, t2),
        hi <= t1.len(),
        0 <= lo,
        forall|k: int| 0 <= k < cfgs.len() ==> is_delim_char((#[trigger] cfgs[k]).ch),
    ensures
        run_stages(t1, hi, cfgs, escaped, consumed, lo) == run_stages(
            t2,
            hi,
            cfgs,
            escaped,
            consumed,
            lo,
        ),
    decreases cfgs.len(),
{
    if cfgs.len() > 0 {
        lemma_scan_congruent(t1, t2, hi, cfgs[0], escaped, consumed, lo, None, false);
        let r = scan_from(t1, hi, cfgs[0], escaped, consumed, lo, None, false);
        assert(forall|k: int|
            0 <= k < cfgs.drop_first().len() ==> is_delim_char(
                (#[trigger] cfgs.drop_first()[k]).ch,
            ));
        lemma_stages_congruent(t1, t2, hi, cfgs.drop_first(), escaped, consumed + r.1, lo);
    }
}

/// Grapheme correctness: the parse depends only on which grapheme
/// indices hold which syntactically meaningful one-character cluster.
/// A multi-code-point cluster — an emoji with a modifier, say — next to
/// a delimiter behaves exactly like any plain character: it occupies
/// one index, so it can neither split a delimiter match nor shift the
/// offsets of later spans.
pub proof fn lemma_parse_grapheme_congruent(
    t1: Seq<Seq<char>>,
    t2: Seq<Seq<char>>,
    lo: int,
    hi: int,
)
    requires
        same_classes(t1, t2),
        0 <= lo,
        hi <= t1.len(),
    ensures
        parse_spec(t1, lo, hi) == parse_spec(t2, lo, hi),
{
    lemma_escape_congruent(t1, t2, 0, false);
    assert forall|k: int|
        0 <= k < delim_stages().len() implies is_delim_char(
        (#[trigger] delim_stages()[k]).ch,
    ) by {
        let c = delim_stages()[k].ch;
        assert(c == '*' || c == '_' || c == '~' || c == '`');
    }
    lemma_stages_congruent(
        t1,
        t2,
        hi,
        delim_stages(),
        escape_scan_spec(t1).0,
        escape_scan_spec(t1).1,
        lo,
    );
}

// ---------------------------------------------------------------------
// Paragraph isolation
// ---------------------------------------------------------------------

/// The first position at or after `p` whose grapheme is not a line
/// break, or the end of the text.
pub open spec fn run_end(text: Seq<Seq<char>>, p: int) -> int
    decreases text.len() - p,
{
    if p < 0 || p >= text.len() {
        text.len() as int
    } else if !is_newline(text, p) {
        p
    } else {
        run_end(text, p + 1)
    }
}

proof fn lemma_not_newline_delim(text: Seq<Seq<char>>, i: int, c: char)
    requires
        c != '\n',
        is_newline(text, i),
    ensures
        !grapheme_is(text, i, c),
{
    if grapheme_is(text, i, c) {
        assert(text[i][0] == c);
        assert(text[i][0] == '\n');
    }
}

/// Inside a run of line breaks a fresh scan makes no progress: starting
/// it anywhere in the run is the same as starting it where the run
/// ends.
proof fn lemma_scan_newline_run(
    text: Seq<Seq<char>>,
    cfg: Delim,
    escaped: Seq<int>,
    base: Seq<int>,
    p: int,
)
    requires
        cfg.ch != '\n',
        0 <= p,
    ensures
        scan_from(text, text.len() as int, cfg, escaped, base, p, None, false) == scan_from(
            text,
            text.len() as int,
            cfg,
            escaped,
            base,
            run_end(text, p),
            None,
            false,
        ),
    decreases text.len() - p,
{
    let n = text.len() as int;
    if p >= n {
    } else if !is_newline(text, p) {
    } else {
        lemma_not_newline_delim(text, p, cfg.ch);
        assert(!hit(text, n, cfg, escaped, base, p, false));
        if is_break(text, p, n) {
            lemma_scan_newline_run(text, cfg, escaped, base, p + 2);
            assert(run_end(text, p) == run_end(text, p + 1));
            assert(run_end(text, p + 1) == run_end(text, p + 2));
        } else {
            lemma_scan_newline_run(text, cfg, escaped, base, p + 1);
        }
    }
}

/// Before the paragraph-bounded window, the full scan contributes
/// nothing that survives restriction: by the time it reaches the window
/// start it is in the fresh state, because the paragraph break just
/// before the window resets it.
proof fn lemma_scan_prefix(
    text: Seq<Seq<char>>,
    cfg: Delim,
    escaped: Seq<int>,
    base: Seq<int>,
    lo: int,
    whi: int,
    i: int,
    open: Option<int>,
    sup: bool,
)
    requires
        cfg.ch != '\n',
        0 <= lo <= whi <= text.len(),
        lo == 0 || (lo >= 2 && is_newline(text, lo - 2) && is_newline(text, lo - 1)),
        0 <= i,
        i <= lo - 2 || ((i == lo - 1 || i == lo) && open is None && !sup),
        match open {
            Option::Some(s) => s < i,
            Option::None => true,
        },
    ensures
        ({
            let f = scan_from(text, text.len() as int, cfg, escaped, base, i, open, sup);
            let t = scan_from(text, text.len() as int, cfg, escaped, base, lo, None, false);
            &&& restrict_spans(f.0, lo, whi) == restrict_spans(t.0, lo, whi)
            &&& restrict_ix(f.1, lo, whi) == restrict_ix(t.1, lo, whi)
        }),
    decreases lo - i,
{
    let n = text.len() as int;
    if i == lo {
    } else if i == lo - 1 {
        assert(lo >= 2);
        if is_break(text, i, n) {
            lemma_scan_newline_run(text, cfg, escaped, base, lo + 1);
            lemma_scan_newline_run(text, cfg, escaped, base, lo);
            assert(run_end(text, lo) == run_end(text, lo + 1));
        } else {
            lemma_not_newline_delim(text, i, cfg.ch);
            assert(!hit(text, n, cfg, escaped, base, i, sup));
        }
    } else {
        assert(i <= lo - 2);
        assert(lo >= 2);
        if i == lo - 2 {
            assert(is_break(text, i, n));
        } else {
            if is_break(text, i, n) {
                lemma_scan_prefix(text, cfg, escaped, base, lo, whi, i + 2, None, false);
            } else if hit(text, n, cfg, escaped, base, i, sup) {
                let step: int = if cfg.double {
                    2
                } else {
                    1
                };
                if cfg.double {
                    lemma_not_newline_delim(text, lo - 2, cfg.ch);
                    assert(i + 1 != lo - 2);
                }
                match open {
                    Option::None => {
                        lemma_scan_prefix(
                            text,
                            cfg,
                            escaped,
                            base,
                            lo,
                            whi,
                            i + step,
                            Some(i),
                            !cfg.double,
                        );
                    },
                    Option::Some(s) => {
                        if cfg.double && s + 2 == i {
                            lemma_scan_prefix(
                                text,
                                cfg,
                                escaped,
                                base,
                                lo,
                                whi,
                                i + 2,
                                Some(s),
                                false,
                            );
                        } else {
                            lemma_scan_prefix(
                                text,
                                cfg,
                                escaped,
                                base,
                                lo,
                                whi,
                                i + step,
                                None,
                                !cfg.double,
                            );
                            let sp = GSpan { start: s, end: i + step, tag: cfg.tag };
                            let rest = scan_from(
                                text,
                                n,
                                cfg,
                                escaped,
                                base,
                                i + step,
                                None,
                                !cfg.double,
                            );
                            lemma_restrict_spans_add(seq![sp], rest.0, lo, whi);
                            lemma_restrict_spans_none(seq![sp], lo, whi);
                            let ci = crate::parser::close_indices(s, i, cfg);
                            lemma_restrict_ix_add(ci, rest.1, lo, whi);
                            lemma_restrict_ix_none(ci, lo, whi);
                            assert(Seq::<GSpan>::empty() + restrict_spans(rest.0, lo, whi)
                                =~= restrict_spans(rest.0, lo, whi));
                            assert(Seq::<int>::empty() + restrict_ix(rest.1, lo, whi)
                                =~= restrict_ix(rest.1, lo, whi));
                        }
                    },
                }
            } else {
                lemma_scan_prefix(text, cfg, escaped, base, lo, whi, i + 1, open, false);
            }
        }
    }
}

/// Inside the window the full scan and the window-limited scan move in
/// lockstep and emit the same spans; once the window ends, everything
/// further from the full scan lies beyond it.
proof fn lemma_scan_lockstep(
    text: Seq<Seq<char>>,
    cfg: Delim,
    escaped: Seq<int>,
    bf: Seq<int>,
    br: Seq<int>,
    lo: int,
    hi: int,
    i: int,
    open: Option<int>,
    sup: bool,
)
    requires
        cfg.ch != '\n',
        0 <= lo <= hi <= text.len(),
        hi == text.len() || (hi + 1 < text.len() && is_newline(text, hi) && is_newline(
            text,
            hi + 1,
        )),
        forall|k: int| lo <= k < hi ==> (#[trigger] bf.contains(k) <==> br.contains(k)),
        lo <= i <= hi,
        match open {
            Option::Some(s) => lo <= s < i,
            Option::None => true,
        },
    ensures
        ({
            let f = scan_from(text, text.len() as int, cfg, escaped, bf, i, open, sup);
            let r = scan_from(text, hi, cfg, escaped, br, i, open, sup);
            &&& restrict_spans(f.0, lo, hi) == restrict_spans(r.0, lo, hi)
            &&& restrict_ix(f.1, lo, hi) == restrict_ix(r.1, lo, hi)
        }),
    decreases hi - i,
{
    let n = text.len() as int;
    let f = scan_from(text, n, cfg, escaped, bf, i, open, sup);
    let r = scan_from(text, hi, cfg, escaped, br, i, open, sup);
    if i == hi {
        lemma_restrict_spans_empty(lo, hi);
        lemma_restrict_ix_empty(lo, hi);
        assert(r == (Seq::<GSpan>::empty(), Seq::<int>::empty()));
        if hi == n {
            assert(f == (Seq::<GSpan>::empty(), Seq::<int>::empty()));
        } else {
            assert(is_break(text, hi, n));
            let f2 = scan_from(text, n, cfg, escaped, bf, hi + 2, None, false);
            assert(f == f2);
            lemma_scan_bounds(text, n, cfg, escaped, bf, hi + 2, None, false);
            lemma_restrict_spans_none(f2.0, lo, hi);
            lemma_restrict_ix_none(f2.1, lo, hi);
        }
    } else if is_break(text, i, hi) {
        lemma_scan_lockstep(text, cfg, escaped, bf, br, lo, hi, i + 2, None, false);
    } else if is_break(text, i, n) {
        // Only at the last window position, right before the closing
        // paragraph break: the full scan resets and runs on beyond the
        // window, the window scan stops.
        assert(i == hi - 1);
        assert(is_newline(text, i));
        lemma_not_newline_delim(text, i, cfg.ch);
        assert(!hit(text, n, cfg, escaped, bf, i, sup));
        assert(!hit(text, hi, cfg, escaped, br, i, sup));
        let f2 = scan_from(text, n, cfg, escaped, bf, i + 2, None, false);
        assert(f == f2);
        lemma_scan_bounds(text, n, cfg, escaped, bf, i + 2, None, false);
        lemma_restrict_spans_none(f2.0, lo, hi);
        lemma_restrict_ix_none(f2.1, lo, hi);
        let r1 = scan_from(text, hi, cfg, escaped, br, i + 1, open, false);
        assert(r == r1);
        assert(r1 == (Seq::<GSpan>::empty(), Seq::<int>::empty()));
        lemma_restrict_spans_empty(lo, hi);
        lemma_restrict_ix_empty(lo, hi);
    } else {
        assert(bf.contains(i) <==> br.contains(i));
        if i + 1 < hi {
            assert(bf.contains(i + 1) <==> br.contains(i + 1));
        } else {
            if hi < n {
                lemma_not_newline_delim(text, hi, cfg.ch);
            }
        }
        assert(hit(text, n, cfg, escaped, bf, i, sup) == hit(text, hi, cfg, escaped, br, i, sup));
        if hit(text, hi, cfg, escaped, br, i, sup) {
            let step: int = if cfg.double {
                2
            } else {
                1
            };
            match open {
                Option::None => {
                    lemma_scan_lockstep(
                        text,
                        cfg,
                        escaped,
                        bf,
                        br,
                        lo,
                        hi,
                        i + step,
                        Some(i),
                        !cfg.double,
                    );
                },
                Option::Some(s) => {
                    if cfg.double && s + 2 == i {
                        lemma_scan_lockstep(
                            text,
                            cfg,
                            escaped,
                            bf,
                            br,
                            lo,
                            hi,
                            i + 2,
                            Some(s),
                            false,
                        );
                    } else {
                        lemma_scan_lockstep(
                            text,
                            cfg,
                            escaped,
                            bf,
                            br,
                            lo,
                            hi,
                            i + step,
                            None,
                            !cfg.double,
                        );
                        let sp = GSpan { start: s, end: i + step, tag: cfg.tag };
                        let restf = scan_from(text, n, cfg, escaped, bf, i + step, None, !cfg.double);
                        let restr = scan_from(
                            text,
                            hi,
                            cfg,
                            escaped,
                            br,
                            i + step,
                            None,
                            !cfg.double,
                        );
                        let ci = crate::parser::close_indices(s, i, cfg);
                        lemma_restrict_spans_add(seq![sp], restf.0, lo, hi);
                        lemma_restrict_spans_add(seq![sp], restr.0, lo, hi);
                        lemma_restrict_spans_all(seq![sp], lo, hi);
                        lemma_restrict_ix_add(ci, restf.1, lo, hi);
                        lemma_restrict_ix_add(ci, restr.1, lo, hi);
                        lemma_restrict_ix_all(ci, lo, hi);
                    }
                },
            }
        } else {
            lemma_scan_lockstep(text, cfg, escaped, bf, br, lo, hi, i + 1, open, false);
        }
    }
}

/// The window `[lo, hi)` is paragraph-bounded: it starts at the text
/// start or right after a paragraph break, and ends at the text end or
/// right on one.
pub open spec fn paragraph_bounded(text: Seq<Seq<char>>, lo: int, hi: int) -> bool {
    &&& 0 <= lo <= hi <= text.len()
    &&& lo == 0 || (lo >= 2 && is_newline(text, lo - 2) && is_newline(text, lo - 1))
    &&& hi == text.len() || (hi + 1 < text.len() && is_newline(text, hi) && is_newline(
        text,
        hi + 1,
    ))
}

/// One stage, window-limited, emits exactly the full stage's spans that
/// lie inside a paragraph-bounded window, as long as what was consumed
/// inside the window agrees.
proof fn lemma_stage_restrict(
    text: Seq<Seq<char>>,
    cfg: Delim,
    escaped: Seq<int>,
    bf: Seq<int>,
    br: Seq<int>,
    lo: int,
    hi: int,
)
    requires
        cfg.ch != '\n',
        paragraph_bounded(text, lo, hi),
        forall|k: int| lo <= k < hi ==> (#[trigger] bf.contains(k) <==> br.contains(k)),
    ensures
        ({
            let f = scan_from(text, text.len() as int, cfg, escaped, bf, 0, None, false);
            let r = scan_from(text, hi, cfg, escaped, br, lo, None, false);
            &&& restrict_spans(f.0, lo, hi) == r.0
            &&& restrict_ix(f.1, lo, hi) == r.1
        }),
{
    let n = text.len() as int;
    let r = scan_from(text, hi, cfg, escaped, br, lo, None, false);
    lemma_scan_prefix(text, cfg, escaped, bf, lo, hi, 0, None, false);
    lemma_scan_lockstep(text, cfg, escaped, bf, br, lo, hi, lo, None, false);
    lemma_scan_bounds(text, hi, cfg, escaped, br, lo, None, false);
    lemma_restrict_spans_all(r.0, lo, hi);
    lemma_restrict_ix_all(r.1, lo, hi);
}

/// The whole stage pipeline, window-limited, emits exactly the full
/// pipeline's spans inside a paragraph-bounded window, and consumes the
/// same indices there.
proof fn lemma_stages_restrict(
    text: Seq<Seq<char>>,
    cfgs: Seq<Delim>,
    escaped: Seq<int>,
    bf: Seq<int>,
    br: Seq<int>,
    lo: int,
    hi: int,
)
    requires
        forall|k: int| 0 <= k < cfgs.len() ==> (#[trigger] cfgs[k]).ch != '\n',
        paragraph_bounded(text, lo, hi),
        restrict_ix(bf, lo, hi) == restrict_ix(br, lo, hi),
    ensures
        ({
            let f = run_stages(text, text.len() as int, cfgs, escaped, bf, 0);
            let r = run_stages(text, hi, cfgs, escaped, br, lo);
            &&& restrict_spans(f.0, lo, hi) == r.0
            &&& restrict_ix(f.1, lo, hi) == restrict_ix(r.1, lo, hi)
        }),
    decreases cfgs.len(),
{
    let n = text.len() as int;
    if cfgs.len() == 0 {
        lemma_restrict_spans_empty(lo, hi);
    } else {
        assert forall|k: int| lo <= k < hi implies (#[trigger] bf.contains(k) <==> br.contains(
            k,
        )) by {
            lemma_restrict_ix_contains(bf, lo, hi, k);
            lemma_restrict_ix_contains(br, lo, hi, k);
        }
        lemma_stage_restrict(text, cfgs[0], escaped, bf, br, lo, hi);
        let sf = scan_from(text, n, cfgs[0], escaped, bf, 0, None, false);
        let sr = scan_from(text, hi, cfgs[0], escaped, br, lo, None, false);
        lemma_restrict_ix_add(bf, sf.1, lo, hi);
        lemma_restrict_ix_add(br, sr.1, lo, hi);
        lemma_scan_bounds(text, hi, cfgs[0], escaped, br, lo, None, false);
        lemma_restrict_ix_all(sr.1, lo, hi);
        assert(forall|k: int|
            0 <= k < cfgs.drop_first().len() ==> (#[trigger] cfgs.drop_first()[k]).ch != '\n');
        lemma_stages_restrict(text, cfgs.drop_first(), escaped, bf + sf.1, br + sr.1, lo, hi);
        let tf = run_stages(text, n, cfgs.drop_first(), escaped, bf + sf.1, 0);
        let tr = run_stages(text, hi, cfgs.drop_first(), escaped, br + sr.1, lo);
        lemma_restrict_spans_add(sf.0, tf.0, lo, hi);
    }
}

/// Restricting the derived `Syntax` spans of the full parse to a
/// sub-window is the same as deriving them for that window directly.
proof fn lemma_syntax_restrict(cons: Seq<int>, lo: int, hi: int, len: int)
    requires
        0 <= lo <= hi <= len,
    ensures
        restrict_spans(syntax_spans(cons, 0, len), lo, hi) == syntax_spans(cons, lo, hi),
    decreases cons.len(),
{
    if cons.len() == 0 {
        assert(cons =~= Seq::<int>::empty());
        lemma_restrict_ix_empty(0, len);
        lemma_restrict_ix_empty(lo, hi);
        assert(syntax_spans(cons, 0, len) =~= Seq::<GSpan>::empty());
        assert(syntax_spans(cons, lo, hi) =~= Seq::<GSpan>::empty());
        lemma_restrict_spans_empty(lo, hi);
    } else {
        let dl = cons.drop_last();
        let e = cons.last();
        lemma_syntax_restrict(dl, lo, hi, len);
        assert(cons =~= dl.push(e));
        lemma_restrict_ix_push(dl, e, 0, len);
        lemma_restrict_ix_push(dl, e, lo, hi);
        let sp = GSpan { start: e, end: e + 1, tag: Tag::Syntax };
        if 0 <= e < len {
            assert(syntax_spans(cons, 0, len) =~= syntax_spans(dl, 0, len).push(sp));
            lemma_restrict_spans_push(syntax_spans(dl, 0, len), sp, lo, hi);
            if lo <= e < hi {
                assert(syntax_spans(cons, lo, hi) =~= syntax_spans(dl, lo, hi).push(sp));
            } else {
                assert(syntax_spans(cons, lo, hi) =~= syntax_spans(dl, lo, hi));
            }
        } else {
            assert(syntax_spans(cons, 0, len) =~= syntax_spans(dl, 0, len));
            assert(syntax_spans(cons, lo, hi) =~= syntax_spans(dl, lo, hi));
        }
    }
}

/// Paragraph isolation: inside any paragraph-bounded window, a
/// window-limited parse and a full-document parse agree exactly — the
/// full parse restricted to the spans lying inside the window is the
/// window parse.
pub proof fn lemma_parse_restrict(text: Seq<Seq<char>>, lo: int, hi: int)
    requires
        paragraph_bounded(text, lo, hi),
    ensures
        restrict_spans(parse_spec(text, 0, text.len() as int), lo, hi) == parse_spec(
            text,
            lo,
            hi,
        ),
{
    let n = text.len() as int;
    let esc = escape_scan_spec(text);
    assert forall|k: int| 0 <= k < delim_stages().len() implies (#[trigger] delim_stages()[k]).ch
        != '\n' by {
        let c = delim_stages()[k].ch;
        assert(c == '*' || c == '_' || c == '~' || c == '`');
    }
    lemma_stages_restrict(text, delim_stages(), esc.0, esc.1, esc.1, lo, hi);
    let f = run_stages(text, n, delim_stages(), esc.0, esc.1, 0);
    let r = run_stages(text, hi, delim_stages(), esc.0, esc.1, lo);
    lemma_restrict_spans_add(f.0, syntax_spans(f.1, 0, n), lo, hi);
    lemma_syntax_restrict(f.1, lo, hi, n);
    assert(syntax_spans(f.1, lo, hi) == syntax_spans(r.1, lo, hi));
}

proof fn lemma_para_start_boundary(text: Seq<Seq<char>>, c: int)
    requires
        0 <= c,
    ensures
        para_start(text, c) == 0 || (para_start(text, c) >= 2 && is_newline(
            text,
            para_start(text, c) - 2,
        ) && is_newline(text, para_start(text, c) - 1)),
    decreases c,
{
    if c >= 2 && !(is_newline(text, c - 2) && is_newline(text, c - 1)) {
        lemma_para_start_boundary(text, c - 1);
    }
}

proof fn lemma_para_end_boundary(text: Seq<Seq<char>>, c: int)
    requires
        0 <= c,
    ensures
        para_end(text, c) == text.len() || (para_end(text, c) + 1 < text.len() && is_newline(
            text,
            para_end(text, c),
        ) && is_newline(text, para_end(text, c) + 1)),
    decreases text.len() - c,
{
    if c + 1 < text.len() && !(is_newline(text, c) && is_newline(text, c + 1)) {
        lemma_para_end_boundary(text, c + 1);
    }
}

/// The round trip through the incremental range selector: the
/// paragraph-bounded window chosen for a cursor, parsed on its own,
/// yields exactly the spans of a full-document parse that lie inside
/// that window.
pub proof fn lemma_select_range_round_trip(text: Seq<Seq<char>>, cursor: int)
    requires
        0 <= cursor <= text.len(),
    ensures
        ({
            let lo = para_start(text, cursor);
            let hi = para_end(text, cursor);
            restrict_spans(parse_spec(text, 0, text.len() as int), lo, hi) == parse_spec(
                text,
                lo,
                hi,
            )
        }),
{
    let lo = para_start(text, cursor);
    let hi = para_end(text, cursor);
    crate::parser::lemma_para_start_le(text, cursor);
    crate::parser::lemma_para_end_ge(text, cursor);
    lemma_para_start_boundary(text, cursor);
    lemma_para_end_boundary(text, cursor);
    lemma_parse_restrict(text, lo, hi);
}

// ---------------------------------------------------------------------
// Span bounds
// ---------------------------------------------------------------------

proof fn lemma_restrict_ix_range(s: Seq<int>, lo: int, hi: int)
    ensures
        forall|k: int|
            0 <= k < restrict_ix(s, lo, hi).len() ==> lo <= #[trigger] restrict_ix(
                s,
                lo,
                hi,
            )[k] < hi,
    decreases s.len(),
{
    if s.len() == 0 {
        lemma_restrict_ix_empty(lo, hi);
        assert(s =~= Seq::<int>::empty());
    } else {
        let dl = s.drop_last();
        lemma_restrict_ix_range(dl, lo, hi);
        lemma_restrict_ix_push(dl, s.last(), lo, hi);
        assert(s =~= dl.push(s.last()));
    }
}

proof fn lemma_run_stages_bounds(
    text: Seq<Seq<char>>,
    hi: int,
    cfgs: Seq<Delim>,
    escaped: Seq<int>,
    consumed: Seq<int>,
    lo: int,
)
    ensures
        ({
            let r = run_stages(text, hi, cfgs, escaped, consumed, lo);
            forall|k: int|
                0 <= k < r.0.len() ==> lo <= (#[trigger] r.0[k]).start < r.0[k].end <= hi
        }),
    decreases cfgs.len(),
{
    if cfgs.len() > 0 {
        lemma_scan_bounds(text, hi, cfgs[0], escaped, consumed, lo, None, false);
        let r = scan_from(text, hi, cfgs[0], escaped, consumed, lo, None, false);
        lemma_run_stages_bounds(text, hi, cfgs.drop_first(), escaped, consumed + r.1, lo);
    }
}

/// Every span of a parse lies inside the scanned window and covers at
/// least one grapheme: `lo <= start < end <= hi`.
pub proof fn lemma_parse_spec_in_bounds(text: Seq<Seq<char>>, lo: int, hi: int)
    ensures
        forall|k: int|
            0 <= k < parse_spec(text, lo, hi).len() ==> lo <= (#[trigger] parse_spec(
                text,
                lo,
                hi,
            )[k]).start < parse_spec(text, lo, hi)[k].end <= hi,
{
    let esc = escape_scan_spec(text);
    let st = run_stages(text, hi, delim_stages(), esc.0, esc.1, lo);
    lemma_run_stages_bounds(text, hi, delim_stages(), esc.0, esc.1, lo);
    lemma_restrict_ix_range(st.1, lo, hi);
    assert forall|k: int| 0 <= k < syntax_spans(st.1, lo, hi).len() implies lo <= (
    #[trigger] syntax_spans(st.1, lo, hi)[k]).start < syntax_spans(st.1, lo, hi)[k].end <= hi by {
        assert(syntax_spans(st.1, lo, hi)[k].start == restrict_ix(st.1, lo, hi)[k]);
    }
}

// ---------------------------------------------------------------------
// Determinism
// ---------------------------------------------------------------------

/// The parse is a pure function of the snapshot and the window: two
/// parses of the same text over the same range are identical, so
/// re-parsing is idempotent.
pub proof fn lemma_parse_deterministic(
    text: Seq<Seq<char>>,
    lo: int,
    hi: int,
    first: Seq<GSpan>,
    second: Seq<GSpan>,
)
    requires
        first == parse_spec(text, lo, hi),
        second == parse_spec(text, lo, hi),
    ensures
        first == second,
{
}

} // verus!
