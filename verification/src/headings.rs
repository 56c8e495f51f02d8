//! Heading classification over the line model: ATX and Setext heading
//! matches for a given heading text, level-bounded boundary headings, and
//! the section-span predicates the public operations are specified with.

use vstd::prelude::*;
use crate::text::{is_ws, is_line_start, line_end, hash_run_len, space_run_end};
use crate::text::{lemma_line_end, lemma_hash_run, lemma_space_run};
use crate::text::{lemma_line_end_agree, lemma_hash_run_agree};
use crate::text::{lemma_suffix_shift_by, lemma_line_end_shift, lemma_hash_run_shift,
    lemma_space_run_shift};

verus! {

/// The line at `u` is nonempty, consists solely of byte `c`, and is
/// terminated by a line feed.
pub open spec fn underline_at(doc: Seq<u8>, u: int, c: u8) -> bool {
    let f: int = line_end(doc, u);
    f < doc.len() && u < f && (forall|i: int| u <= i < f ==> doc[i] == c)
}

/// The line at `s` is an ATX heading whose text is exactly `h`: one to six
/// `#` bytes, one or more spaces, `h`, and a line-feed terminator.
pub open spec fn atx_match_at(doc: Seq<u8>, h: Seq<u8>, s: int) -> bool {
    let e: int = line_end(doc, s);
    let n: int = hash_run_len(doc, s);
    let j: int = e - h.len() - s - n;
    e < doc.len() && 1 <= n <= 6 && j >= 1
        && (forall|i: int| s + n <= i < s + n + j ==> doc[i] == 32)
        && doc.subrange(e - h.len(), e) == h
}

/// The lines at `s` form a Setext heading whose text is exactly `h`: a
/// line equal to `h`, then a full line of `=` or of `-`.
pub open spec fn setext_match_at(doc: Seq<u8>, h: Seq<u8>, s: int) -> bool {
    let e: int = line_end(doc, s);
    e < doc.len() && e == s + h.len() && doc.subrange(s, e) == h
        && (underline_at(doc, e + 1, 61) || underline_at(doc, e + 1, 45))
}

/// A heading whose text is `h` begins at `s`.
pub open spec fn header_match_at(doc: Seq<u8>, h: Seq<u8>, s: int) -> bool {
    is_line_start(doc, s) && (atx_match_at(doc, h, s) || setext_match_at(doc, h, s))
}

/// Numeric level of the heading for `h` at `s`: the `#` count for ATX;
/// 1 for an `=` underline, 2 for a `-` underline.
pub open spec fn header_level_at(doc: Seq<u8>, h: Seq<u8>, s: int) -> int {
    if atx_match_at(doc, h, s) {
        hash_run_len(doc, s)
    } else if underline_at(doc, line_end(doc, s) + 1, 61) {
        1
    } else {
        2
    }
}

/// Offset just past the heading match at `s`: past the heading line's
/// line feed for ATX, past the underline's line feed for Setext. This is
/// where the section's body begins.
pub open spec fn match_end(doc: Seq<u8>, h: Seq<u8>, s: int) -> int {
    if atx_match_at(doc, h, s) {
        line_end(doc, s) + 1
    } else {
        line_end(doc, line_end(doc, s) + 1) + 1
    }
}

/// The line at `s` is an ATX heading of any text with level at most
/// `level`: at most `level` many `#` bytes, a space, then (after spaces) a
/// non-whitespace byte, on a line-feed-terminated line.
pub open spec fn atx_boundary_at(doc: Seq<u8>, level: int, s: int) -> bool {
    let e: int = line_end(doc, s);
    let n: int = hash_run_len(doc, s);
    let k: int = space_run_end(doc, s + n);
    e < doc.len() && 1 <= n <= level && s + n < e && doc[s + n] == 32
        && k < e && !is_ws(doc[k])
}

/// The lines at `s` form a Setext heading of any text with level at most
/// `level`: the text line starts with a non-whitespace byte; `=`
/// underlines (level 1) always qualify, `-` underlines (level 2) only when
/// `level >= 2`.
pub open spec fn setext_boundary_at(doc: Seq<u8>, level: int, s: int) -> bool {
    let e: int = line_end(doc, s);
    e < doc.len() && s < e && !is_ws(doc[s])
        && (underline_at(doc, e + 1, 61) || (level >= 2 && underline_at(doc, e + 1, 45)))
}

/// A heading of level at most `level` (of any text) begins at `s`: such a
/// line ends the section of a level-`level` heading.
pub open spec fn boundary_at(doc: Seq<u8>, level: int, s: int) -> bool {
    is_line_start(doc, s) && (atx_boundary_at(doc, level, s) || setext_boundary_at(doc, level, s))
}

/// The first heading for `h` in the document stands at `s`.
pub open spec fn found_header(doc: Seq<u8>, h: Seq<u8>, s: int) -> bool {
    header_match_at(doc, h, s) && (forall|j: int| 0 <= j < s ==> !header_match_at(doc, h, j))
}

/// Some heading for `h` occurs in the document.
pub open spec fn has_header(doc: Seq<u8>, h: Seq<u8>) -> bool {
    exists|s: int| header_match_at(doc, h, s)
}

/// `e` ends the section whose body begins at `from`, for a heading of
/// level `level`: no boundary heading begins in `[from, e)`, and `e` is
/// either the document end or the start of a boundary heading.
pub open spec fn section_end_ok(doc: Seq<u8>, level: int, from: int, e: int) -> bool {
    from <= e <= doc.len()
        && (forall|j: int| from <= j < e ==> !boundary_at(doc, level, j))
        && (e == doc.len() || boundary_at(doc, level, e))
}

/// `[a, b)` is the section span of the first heading for `h`: it starts at
/// the heading's own line and runs to the next heading of equal or higher
/// precedence, or to the document end.
pub open spec fn is_section_span(doc: Seq<u8>, h: Seq<u8>, a: int, b: int) -> bool {
    found_header(doc, h, a)
        && section_end_ok(doc, header_level_at(doc, h, a), match_end(doc, h, a), b)
}

/// A line cannot be two underlines at once: the underline character of a
/// nonempty underline line is determined.
pub proof fn lemma_underline_excl(doc: Seq<u8>, u: int)
    ensures
        !(underline_at(doc, u, 61) && underline_at(doc, u, 45)),
{
    if underline_at(doc, u, 61) && underline_at(doc, u, 45) {
        assert(doc[u] == 61 && doc[u] == 45);
    }
}

/// At one position, at most one of the two heading forms matches `h`.
pub proof fn lemma_match_form_excl(doc: Seq<u8>, h: Seq<u8>, s: int)
    ensures
        !(atx_match_at(doc, h, s) && setext_match_at(doc, h, s)),
{
}

/// A heading match lies within the document: its body offset is past its
/// start, at most the document length, and begins a line.
pub proof fn lemma_match_end_bounds(doc: Seq<u8>, h: Seq<u8>, s: int)
    requires
        header_match_at(doc, h, s),
    ensures
        s < match_end(doc, h, s) <= doc.len(),
        is_line_start(doc, match_end(doc, h, s)),
        1 <= header_level_at(doc, h, s) <= 6,
{
    lemma_line_end(doc, s);
    if atx_match_at(doc, h, s) {
        lemma_hash_run(doc, s);
    } else {
        let e: int = line_end(doc, s);
        lemma_line_end(doc, e + 1);
        lemma_underline_excl(doc, e + 1);
    }
}

/// Transfer an underline across documents that agree on a prefix that
/// holds the whole underline line.
pub proof fn lemma_underline_agree(d1: Seq<u8>, d2: Seq<u8>, m: int, u: int, c: u8)
    requires
        0 <= m <= d1.len(),
        m <= d2.len(),
        d1.subrange(0, m) == d2.subrange(0, m),
        0 <= u,
        underline_at(d1, u, c),
        line_end(d1, u) < m,
    ensures
        underline_at(d2, u, c),
        line_end(d2, u) == line_end(d1, u),
{
    lemma_line_end_agree(d1, d2, m, u);
    assert forall|i: int| u <= i < line_end(d1, u) implies d2[i] == c by {
        assert(d1.subrange(0, m)[i] == d1[i]);
        assert(d2.subrange(0, m)[i] == d2[i]);
    }
}

/// Transfer an ATX heading match across documents that agree on a prefix
/// that holds the whole heading line.
pub proof fn lemma_atx_match_agree(d1: Seq<u8>, d2: Seq<u8>, m: int, h: Seq<u8>, s: int)
    requires
        0 <= m <= d1.len(),
        m <= d2.len(),
        d1.subrange(0, m) == d2.subrange(0, m),
        0 <= s,
        atx_match_at(d1, h, s),
        line_end(d1, s) < m,
    ensures
        atx_match_at(d2, h, s),
        line_end(d2, s) == line_end(d1, s),
        hash_run_len(d2, s) == hash_run_len(d1, s),
{
    let e: int = line_end(d1, s);
    let n: int = hash_run_len(d1, s);
    let j: int = e - h.len() - s - n;
    lemma_line_end(d1, s);
    lemma_line_end_agree(d1, d2, m, s);
    lemma_hash_run_agree(d1, d2, m, s);
    assert forall|i: int| s + n <= i < s + n + j implies d2[i] == 32 by {
        assert(d1.subrange(0, m)[i] == d1[i]);
        assert(d2.subrange(0, m)[i] == d2[i]);
    }
    let lo: int = e - h.len();
    assert(d2.subrange(lo, e) =~= d1.subrange(lo, e)) by {
        assert forall|i: int| 0 <= i < h.len() implies #[trigger] d2.subrange(lo, e)[i]
            == d1.subrange(lo, e)[i] by {
            assert(d1.subrange(lo, e)[i] == d1[lo + i]);
            assert(d2.subrange(lo, e)[i] == d2[lo + i]);
            assert(d1.subrange(0, m)[lo + i] == d1[lo + i]);
            assert(d2.subrange(0, m)[lo + i] == d2[lo + i]);
        }
    }
}

/// Transfer a Setext heading match across documents that agree on a
/// prefix that holds both of its lines.
pub proof fn lemma_setext_match_agree(d1: Seq<u8>, d2: Seq<u8>, m: int, h: Seq<u8>, s: int)
    requires
        0 <= m <= d1.len(),
        m <= d2.len(),
        d1.subrange(0, m) == d2.subrange(0, m),
        0 <= s,
        setext_match_at(d1, h, s),
        line_end(d1, line_end(d1, s) + 1) < m,
    ensures
        setext_match_at(d2, h, s),
        line_end(d2, s) == line_end(d1, s),
        line_end(d2, line_end(d2, s) + 1) == line_end(d1, line_end(d1, s) + 1),
        underline_at(d1, line_end(d1, s) + 1, 61) ==> underline_at(d2, line_end(d2, s) + 1, 61),
        underline_at(d1, line_end(d1, s) + 1, 45) ==> underline_at(d2, line_end(d2, s) + 1, 45),
{
    let e: int = line_end(d1, s);
    let u: int = e + 1;
    lemma_line_end(d1, s);
    lemma_line_end(d1, u);
    lemma_line_end_agree(d1, d2, m, s);
    lemma_line_end_agree(d1, d2, m, u);
    assert(d2.subrange(s, e) =~= d1.subrange(s, e)) by {
        assert forall|i: int| 0 <= i < h.len() implies #[trigger] d2.subrange(s, e)[i]
            == d1.subrange(s, e)[i] by {
            assert(d1.subrange(s, e)[i] == d1[s + i]);
            assert(d2.subrange(s, e)[i] == d2[s + i]);
            assert(d1.subrange(0, m)[s + i] == d1[s + i]);
            assert(d2.subrange(0, m)[s + i] == d2[s + i]);
        }
    }
    if underline_at(d1, u, 61) {
        lemma_underline_agree(d1, d2, m, u, 61);
    }
    if underline_at(d1, u, 45) {
        lemma_underline_agree(d1, d2, m, u, 45);
    }
}

/// Transfer a heading match across documents that agree on a prefix that
/// holds the whole match: the match, its level, and its end carry over.
pub proof fn lemma_header_match_agree(d1: Seq<u8>, d2: Seq<u8>, m: int, h: Seq<u8>, s: int)
    requires
        0 <= m <= d1.len(),
        m <= d2.len(),
        d1.subrange(0, m) == d2.subrange(0, m),
        header_match_at(d1, h, s),
        match_end(d1, h, s) <= m,
    ensures
        header_match_at(d2, h, s),
        match_end(d2, h, s) == match_end(d1, h, s),
        header_level_at(d2, h, s) == header_level_at(d1, h, s),
        line_end(d2, s) == line_end(d1, s),
        atx_match_at(d2, h, s) == atx_match_at(d1, h, s),
{
    lemma_match_end_bounds(d1, h, s);
    lemma_match_form_excl(d1, h, s);
    if s > 0 {
        assert(d1.subrange(0, m)[s - 1] == d1[s - 1]);
        assert(d2.subrange(0, m)[s - 1] == d2[s - 1]);
    }
    if atx_match_at(d1, h, s) {
        lemma_atx_match_agree(d1, d2, m, h, s);
        lemma_match_form_excl(d2, h, s);
    } else {
        let e: int = line_end(d1, s);
        let u: int = e + 1;
        lemma_setext_match_agree(d1, d2, m, h, s);
        if atx_match_at(d2, h, s) {
            lemma_atx_match_agree(d2, d1, m, h, s);
            assert(false);
        }
        if underline_at(d2, u, 61) && !underline_at(d1, u, 61) {
            lemma_underline_agree(d2, d1, m, u, 61);
            assert(false);
        }
        lemma_underline_excl(d1, u);
        lemma_underline_excl(d2, u);
    }
}

/// Transfer an underline across documents whose suffixes from the given
/// positions agree.
pub proof fn lemma_underline_shift(d1: Seq<u8>, d2: Seq<u8>, u1: int, u2: int, c: u8)
    requires
        0 <= u1 <= d1.len(),
        0 <= u2 <= d2.len(),
        d1.subrange(u1, d1.len() as int) == d2.subrange(u2, d2.len() as int),
        underline_at(d1, u1, c),
    ensures
        underline_at(d2, u2, c),
{
    assert(d1.subrange(u1, d1.len() as int).len() == d1.len() - u1);
    assert(d2.subrange(u2, d2.len() as int).len() == d2.len() - u2);
    lemma_line_end_shift(d1, d2, u1, u2);
    let f2: int = line_end(d2, u2);
    assert forall|i: int| u2 <= i < f2 implies d2[i] == c by {
        let t: int = i - u2;
        assert(d1.subrange(u1, d1.len() as int)[t] == d1[u1 + t]);
        assert(d2.subrange(u2, d2.len() as int)[t] == d2[u2 + t]);
    }
}

/// Transfer a boundary heading across documents whose suffixes from the
/// given positions agree, provided the target position begins a line.
pub proof fn lemma_boundary_shift(d1: Seq<u8>, d2: Seq<u8>, level: int, s1: int, s2: int)
    requires
        0 <= s1 <= d1.len(),
        0 <= s2 <= d2.len(),
        d1.subrange(s1, d1.len() as int) == d2.subrange(s2, d2.len() as int),
        is_line_start(d2, s2),
        boundary_at(d1, level, s1),
    ensures
        boundary_at(d2, level, s2),
{
    assert(d1.subrange(s1, d1.len() as int).len() == d1.len() - s1);
    assert(d2.subrange(s2, d2.len() as int).len() == d2.len() - s2);
    lemma_line_end_shift(d1, d2, s1, s2);
    let e1: int = line_end(d1, s1);
    let e2: int = line_end(d2, s2);
    lemma_line_end(d1, s1);
    if atx_boundary_at(d1, level, s1) {
        let n: int = hash_run_len(d1, s1);
        lemma_hash_run(d1, s1);
        lemma_hash_run_shift(d1, d2, s1, s2);
        lemma_suffix_shift_by(d1, d2, s1, s2, n);
        lemma_space_run_shift(d1, d2, s1 + n, s2 + n);
        let k1: int = space_run_end(d1, s1 + n);
        lemma_space_run(d1, s1 + n);
        assert(d1.subrange(s1, d1.len() as int)[n] == d1[s1 + n]);
        assert(d2.subrange(s2, d2.len() as int)[n] == d2[s2 + n]);
        let t: int = k1 - s1;
        assert(d1.subrange(s1, d1.len() as int)[t] == d1[s1 + t]);
        assert(d2.subrange(s2, d2.len() as int)[t] == d2[s2 + t]);
        assert(atx_boundary_at(d2, level, s2));
    } else {
        assert(d1.subrange(s1, d1.len() as int)[0] == d1[s1]);
        assert(d2.subrange(s2, d2.len() as int)[0] == d2[s2]);
        lemma_suffix_shift_by(d1, d2, s1, s2, e1 + 1 - s1);
        if underline_at(d1, e1 + 1, 61) {
            lemma_underline_shift(d1, d2, e1 + 1, e2 + 1, 61);
        }
        if underline_at(d1, e1 + 1, 45) {
            lemma_underline_shift(d1, d2, e1 + 1, e2 + 1, 45);
        }
        assert(setext_boundary_at(d2, level, s2));
    }
}

/// Two first-heading positions coincide.
pub proof fn lemma_found_header_unique(doc: Seq<u8>, h: Seq<u8>, a1: int, a2: int)
    requires
        found_header(doc, h, a1),
        found_header(doc, h, a2),
    ensures
        a1 == a2,
{
}

/// Two ends of the same section coincide.
pub proof fn lemma_section_end_unique(doc: Seq<u8>, level: int, from: int, e1: int, e2: int)
    requires
        section_end_ok(doc, level, from, e1),
        section_end_ok(doc, level, from, e2),
    ensures
        e1 == e2,
{
}

/// The section span of a heading text is unique.
pub proof fn lemma_section_span_unique(doc: Seq<u8>, h: Seq<u8>, a1: int, b1: int, a2: int, b2: int)
    requires
        is_section_span(doc, h, a1, b1),
        is_section_span(doc, h, a2, b2),
    ensures
        a1 == a2,
        b1 == b2,
{
    lemma_found_header_unique(doc, h, a1, a2);
    lemma_section_end_unique(
        doc,
        header_level_at(doc, h, a1),
        match_end(doc, h, a1),
        b1,
        b2,
    );
}

} // verus!
