//! Laws of the section engine, proved against the span predicates that the
//! public operations are specified with.

use vstd::prelude::*;
use crate::text::{is_line_start, line_end, hash_run_len};
use crate::text::{lemma_line_end, lemma_line_end_le};
use crate::headings::{
    underline_at, atx_match_at, setext_match_at, header_match_at, header_level_at, match_end,
    boundary_at, found_header, has_header, section_end_ok, is_section_span,
    lemma_match_end_bounds, lemma_underline_excl, lemma_match_form_excl,
    lemma_header_match_agree, lemma_boundary_shift,
};

verus! {

/// ATX and Setext levels are distinguished exactly as the syntax says: an
/// ATX heading's level is its `#` count (1 through 6), a Setext `=`
/// underline yields level 1, and a Setext `-` underline yields level 2.
pub proof fn lemma_level_classification(doc: Seq<u8>, h: Seq<u8>, s: int)
    requires
        header_match_at(doc, h, s),
    ensures
        1 <= header_level_at(doc, h, s) <= 6,
        atx_match_at(doc, h, s) ==> header_level_at(doc, h, s) == hash_run_len(doc, s),
        setext_match_at(doc, h, s) && underline_at(doc, line_end(doc, s) + 1, 61)
            ==> header_level_at(doc, h, s) == 1,
        setext_match_at(doc, h, s) && underline_at(doc, line_end(doc, s) + 1, 45)
            ==> header_level_at(doc, h, s) == 2,
{
    lemma_match_form_excl(doc, h, s);
    lemma_underline_excl(doc, line_end(doc, s) + 1);
}

/// Whenever some heading for `h` occurs, a first one does.
pub proof fn lemma_first_match_exists(doc: Seq<u8>, h: Seq<u8>, s: int)
    requires
        header_match_at(doc, h, s),
    ensures
        exists|a: int| found_header(doc, h, a),
    decreases s,
{
    if forall|j: int| 0 <= j < s ==> !header_match_at(doc, h, j) {
        assert(found_header(doc, h, s));
    } else {
        let j = choose|j: int| 0 <= j < s && header_match_at(doc, h, j);
        lemma_first_match_exists(doc, h, j);
    }
}

/// Every section body has an end: the next boundary heading, or the
/// document end.
pub proof fn lemma_section_end_exists(doc: Seq<u8>, level: int, from: int)
    requires
        0 <= from <= doc.len(),
    ensures
        exists|e: int| section_end_ok(doc, level, from, e),
    decreases doc.len() - from,
{
    if boundary_at(doc, level, from) {
        assert(section_end_ok(doc, level, from, from));
    } else if from == doc.len() {
        assert(section_end_ok(doc, level, from, from));
    } else {
        let next: int = from + 1;
        lemma_section_end_exists(doc, level, next);
        let e = choose|e: int| section_end_ok(doc, level, next, e);
        assert(section_end_ok(doc, level, from, e));
    }
}

/// Presence is consistent across the queries: a heading for `h` has a
/// section span exactly when it has a level, namely exactly when some
/// heading for `h` occurs in the document.
pub proof fn lemma_presence_consistent(doc: Seq<u8>, h: Seq<u8>)
    ensures
        has_header(doc, h) <==> exists|a: int, b: int| is_section_span(doc, h, a, b),
        has_header(doc, h) <==> exists|a: int| found_header(doc, h, a),
{
    if has_header(doc, h) {
        let s = choose|s: int| header_match_at(doc, h, s);
        lemma_first_match_exists(doc, h, s);
        let a = choose|a: int| found_header(doc, h, a);
        lemma_match_end_bounds(doc, h, a);
        let lvl: int = header_level_at(doc, h, a);
        let cs: int = match_end(doc, h, a);
        lemma_section_end_exists(doc, lvl, cs);
        let b = choose|b: int| section_end_ok(doc, lvl, cs, b);
        assert(is_section_span(doc, h, a, b));
    }
    if exists|a: int, b: int| is_section_span(doc, h, a, b) {
        let (a, b) = choose|a: int, b: int| is_section_span(doc, h, a, b);
        assert(header_match_at(doc, h, a));
    }
    if exists|a: int| found_header(doc, h, a) {
        let a = choose|a: int| found_header(doc, h, a);
        assert(header_match_at(doc, h, a));
    }
}

/// The document produced by replacing the section `[a, b)` of `h` in `d`
/// with the insertion `x`: the heading's own lines are kept, the old body
/// goes, `x` takes its place.
pub open spec fn replaced_doc(d: Seq<u8>, h: Seq<u8>, x: Seq<u8>, a: int, b: int) -> Seq<u8> {
    d.subrange(0, match_end(d, h, a)) + x + d.subrange(b, d.len() as int)
}

/// Pointwise description of the replaced document.
pub proof fn lemma_replaced_doc_index(d: Seq<u8>, h: Seq<u8>, x: Seq<u8>, a: int, b: int)
    requires
        is_section_span(d, h, a, b),
    ensures
        ({
            let cs = match_end(d, h, a);
            let d2 = replaced_doc(d, h, x, a, b);
            &&& d2.len() == cs + x.len() + (d.len() - b)
            &&& (forall|i: int| 0 <= i < cs ==> d2[i] == d[i])
            &&& (forall|i: int| cs <= i < cs + x.len() ==> d2[i] == x[i - cs])
            &&& (forall|i: int|
                cs + x.len() <= i < d2.len() ==> d2[i] == d[b + (i - cs - x.len())])
        }),
{
    lemma_match_end_bounds(d, h, a);
    let cs = match_end(d, h, a);
    let d2 = replaced_doc(d, h, x, a, b);
    assert forall|i: int| 0 <= i < cs implies d2[i] == d[i] by {
        assert(d2[i] == d.subrange(0, cs)[i]);
    }
    assert forall|i: int| cs <= i < cs + x.len() implies d2[i] == x[i - cs] by {
        assert(d2[i] == x[i - cs]);
    }
    assert forall|i: int| cs + x.len() <= i < d2.len() implies d2[i] == d[b + (i - cs
        - x.len())] by {
        assert(d2[i] == d.subrange(b, d.len() as int)[i - cs - x.len()]);
    }
}

/// Replacing a section with the very text it already holds is a no-op:
/// once a replacement has put `x` into the section of `h`, the same
/// heading is still the first match of `h`, its section is exactly the
/// inserted body, and replacing it with `x` again reproduces the document
/// unchanged. This holds provided the insertion leaves the heading
/// structure alone: it is empty or line-feed-terminated (unless the
/// section ran to the document end), and no heading of level at most the
/// target's begins inside the inserted body.
pub proof fn lemma_replace_idempotent(d: Seq<u8>, h: Seq<u8>, x: Seq<u8>, a: int, b: int)
    requires
        is_section_span(d, h, a, b),
        x.len() == 0 || x[x.len() - 1] == 10 || b == d.len(),
        forall|j: int|
            match_end(d, h, a) <= j < match_end(d, h, a) + x.len() ==> !boundary_at(
                replaced_doc(d, h, x, a, b),
                header_level_at(d, h, a),
                j,
            ),
    ensures
        ({
            let cs = match_end(d, h, a);
            let d2 = replaced_doc(d, h, x, a, b);
            &&& is_section_span(d2, h, a, cs + x.len())
            &&& match_end(d2, h, a) == cs
            &&& header_level_at(d2, h, a) == header_level_at(d, h, a)
            &&& replaced_doc(d2, h, x, a, cs + x.len()) == d2
        }),
{
    let cs: int = match_end(d, h, a);
    let lvl: int = header_level_at(d, h, a);
    let d2 = replaced_doc(d, h, x, a, b);
    let b2: int = cs + x.len();
    lemma_match_end_bounds(d, h, a);
    lemma_replaced_doc_index(d, h, x, a, b);
    assert(d.subrange(0, cs) == d2.subrange(0, cs)) by {
        assert(d2.subrange(0, cs) =~= d.subrange(0, cs)) by {
            assert forall|i: int| 0 <= i < cs implies #[trigger] d2.subrange(0, cs)[i]
                == d.subrange(0, cs)[i] by {
                assert(d2.subrange(0, cs)[i] == d2[i]);
                assert(d.subrange(0, cs)[i] == d[i]);
            }
        }
    }
    // the heading still matches at `a`, in the same form
    lemma_header_match_agree(d, d2, cs, h, a);
    // the heading line itself ends before the body starts
    assert(line_end(d, a) < cs) by {
        if !atx_match_at(d, h, a) {
            lemma_line_end(d, line_end(d, a) + 1);
        }
    }
    // nothing matches earlier in the replaced document
    assert forall|j: int| 0 <= j < a implies !header_match_at(d2, h, j) by {
        if header_match_at(d2, h, j) {
            assert(d2[a - 1] == d[a - 1]);
            assert(d2[a - 1] == 10);
            lemma_line_end_le(d2, j, a - 1);
            let ej: int = line_end(d2, j);
            if !atx_match_at(d2, h, j) {
                let u: int = ej + 1;
                if u < a {
                    lemma_line_end_le(d2, u, a - 1);
                } else {
                    assert(u == a || u < a);
                    assert(line_end(d2, a) == line_end(d, a));
                }
            }
            lemma_header_match_agree(d2, d, cs, h, j);
            assert(false);
        }
    }
    // the new section ends exactly at the end of the inserted body
    assert(d.subrange(b, d.len() as int) == d2.subrange(b2, d2.len() as int)) by {
        assert(d2.subrange(b2, d2.len() as int) =~= d.subrange(b, d.len() as int)) by {
            assert forall|i: int| 0 <= i < d.len() - b implies #[trigger] d2.subrange(
                b2,
                d2.len() as int,
            )[i] == d.subrange(b, d.len() as int)[i] by {
                assert(d2.subrange(b2, d2.len() as int)[i] == d2[b2 + i]);
                assert(d.subrange(b, d.len() as int)[i] == d[b + i]);
                assert(d2[b2 + i] == d[b + i]);
            }
        }
    }
    if b < d.len() {
        assert(is_line_start(d2, b2)) by {
            if x.len() == 0 {
                assert(d2[b2 - 1] == d[cs - 1]);
                assert(d[cs - 1] == 10);
            } else {
                assert(d2[b2 - 1] == x[x.len() - 1]);
            }
        }
        lemma_boundary_shift(d, d2, lvl, b, b2);
    }
    assert(section_end_ok(d2, lvl, cs, b2)) by {
        assert forall|j: int| cs <= j < b2 implies !boundary_at(d2, lvl, j) by {}
    }
    assert(is_section_span(d2, h, a, b2));
    // replacing the same body again reproduces the document
    assert(replaced_doc(d2, h, x, a, b2) == d2) by {
        assert(d2.subrange(0, cs) + x + d2.subrange(b2, d2.len() as int) == d.subrange(0, cs) + x
            + d.subrange(b, d.len() as int));
    }
}

/// The document produced by the append fallback: the document, a
/// separating line feed, a new top-level `# ` heading line for `h`, and
/// the insertion `x`, all verbatim.
pub open spec fn appended_doc(d: Seq<u8>, h: Seq<u8>, x: Seq<u8>) -> Seq<u8> {
    d + seq![10u8, 35u8, 32u8] + h + seq![10u8] + x
}

/// Pointwise description of the appended document.
pub proof fn lemma_appended_doc_index(d: Seq<u8>, h: Seq<u8>, x: Seq<u8>)
    ensures
        ({
            let d2 = appended_doc(d, h, x);
            &&& d2.len() == d.len() + 4 + h.len() + x.len()
            &&& (forall|i: int| 0 <= i < d.len() ==> d2[i] == d[i])
            &&& d2[d.len() as int] == 10
            &&& d2[d.len() as int + 1] == 35
            &&& d2[d.len() as int + 2] == 32
            &&& (forall|i: int|
                d.len() + 3 <= i < d.len() + 3 + h.len() ==> d2[i] == h[i - d.len() - 3])
            &&& d2[d.len() as int + 3 + h.len()] == 10
            &&& (forall|i: int| d.len() + 4 + h.len() <= i < d2.len() ==> d2[i] == x[i - d.len()
                - 4 - h.len()])
        }),
{
    let d2 = appended_doc(d, h, x);
    assert forall|i: int| 0 <= i < d.len() implies d2[i] == d[i] by {
        assert(d2[i] == (d + seq![10u8, 35u8, 32u8] + h + seq![10u8])[i]);
        assert((d + seq![10u8, 35u8, 32u8] + h + seq![10u8])[i] == (d + seq![10u8, 35u8, 32u8]
            + h)[i]);
        assert((d + seq![10u8, 35u8, 32u8] + h)[i] == (d + seq![10u8, 35u8, 32u8])[i]);
        assert((d + seq![10u8, 35u8, 32u8])[i] == d[i]);
    }
    assert forall|i: int| d.len() + 3 <= i < d.len() + 3 + h.len() implies d2[i] == h[i - d.len()
        - 3] by {
        assert(d2[i] == (d + seq![10u8, 35u8, 32u8] + h + seq![10u8])[i]);
        assert((d + seq![10u8, 35u8, 32u8] + h + seq![10u8])[i] == (d + seq![10u8, 35u8, 32u8]
            + h)[i]);
        assert((d + seq![10u8, 35u8, 32u8] + h)[i] == h[i - d.len() - 3]);
    }
    assert forall|i: int| d.len() + 4 + h.len() <= i < d2.len() implies d2[i] == x[i - d.len() - 4
        - h.len()] by {
        assert(d2[i] == x[i - d.len() - 4 - h.len()]);
    }
    assert(d2[d.len() as int] == (d + seq![10u8, 35u8, 32u8])[d.len() as int]);
    assert(d2[d.len() as int + 1] == (d + seq![10u8, 35u8, 32u8])[d.len() as int + 1]);
    assert(d2[d.len() as int + 2] == (d + seq![10u8, 35u8, 32u8])[d.len() as int + 2]);
    assert(d2[d.len() as int + 3 + h.len()] == (d + seq![10u8, 35u8, 32u8] + h
        + seq![10u8])[d.len() as int + 3 + h.len()]);
}

/// The append fallback writes a level-1 ATX heading for `h` right after
/// the separating line feed, provided the heading text is a single line.
pub proof fn lemma_appended_heading(d: Seq<u8>, h: Seq<u8>, x: Seq<u8>)
    requires
        forall|i: int| 0 <= i < h.len() ==> h[i] != 10,
    ensures
        ({
            let d2 = appended_doc(d, h, x);
            let s0 = d.len() as int + 1;
            &&& header_match_at(d2, h, s0)
            &&& atx_match_at(d2, h, s0)
            &&& line_end(d2, s0) == d.len() + 3 + h.len()
            &&& header_level_at(d2, h, s0) == 1
            &&& match_end(d2, h, s0) == d.len() + 4 + h.len()
        }),
{
    let d2 = appended_doc(d, h, x);
    let s0: int = d.len() as int + 1;
    let e0: int = d.len() as int + 3 + h.len();
    lemma_appended_doc_index(d, h, x);
    // the heading line runs from `# ` to the line feed after `h`
    assert(line_end(d2, s0) == e0) by {
        lemma_line_end_le(d2, s0, e0);
        lemma_line_end(d2, s0);
        if line_end(d2, s0) < e0 {
            assert(d2[line_end(d2, s0)] == 10);
            assert(false);
        }
    }
    // it is an ATX heading of level 1 for `h`
    assert(hash_run_len(d2, s0) == 1) by {
        assert(hash_run_len(d2, s0 + 1) == 0);
    }
    assert(atx_match_at(d2, h, s0)) by {
        assert(d2.subrange(e0 - h.len(), e0) =~= h) by {
            assert forall|i: int| 0 <= i < h.len() implies #[trigger] d2.subrange(
                e0 - h.len(),
                e0,
            )[i] == h[i] by {
                assert(d2.subrange(e0 - h.len(), e0)[i] == d2[e0 - h.len() + i]);
            }
        }
        assert forall|i: int| s0 + 1 <= i < s0 + 2 implies d2[i] == 32 by {}
    }
}

/// When `h` has no heading in a line-feed-terminated (or empty) document,
/// the heading that the append fallback adds is the first match of `h` in
/// the appended document: the seam creates no earlier one.
pub proof fn lemma_append_first_match(d: Seq<u8>, h: Seq<u8>, x: Seq<u8>)
    requires
        forall|i: int| 0 <= i < h.len() ==> h[i] != 10,
        !has_header(d, h),
        d.len() == 0 || d[d.len() - 1] == 10,
    ensures
        found_header(appended_doc(d, h, x), h, d.len() as int + 1),
{
    let d2 = appended_doc(d, h, x);
    let dl: int = d.len() as int;
    let s0: int = dl + 1;
    lemma_appended_doc_index(d, h, x);
    lemma_appended_heading(d, h, x);
    assert(d.subrange(0, dl) == d2.subrange(0, dl)) by {
        assert(d2.subrange(0, dl) =~= d.subrange(0, dl)) by {
            assert forall|i: int| 0 <= i < dl implies #[trigger] d2.subrange(0, dl)[i]
                == d.subrange(0, dl)[i] by {
                assert(d2.subrange(0, dl)[i] == d2[i]);
                assert(d.subrange(0, dl)[i] == d[i]);
            }
        }
    }
    assert forall|j: int| 0 <= j < s0 implies !header_match_at(d2, h, j) by {
        if header_match_at(d2, h, j) {
            if j == dl {
                // the separating line feed makes an empty line: no heading
                assert(line_end(d2, j) == j);
                assert(hash_run_len(d2, j) == 0);
                if setext_match_at(d2, h, j) {
                    // its underline would have to be the `# ` line
                    assert(line_end(d2, s0) > s0);
                    assert(d2[s0] == 35);
                    assert(!underline_at(d2, s0, 61));
                    assert(!underline_at(d2, s0, 45));
                }
                assert(false);
            } else {
                // a match before the seam would have been one in `d`
                assert(d2[dl - 1] == 10);
                lemma_line_end_le(d2, j, dl - 1);
                let ej: int = line_end(d2, j);
                if !atx_match_at(d2, h, j) {
                    let u: int = ej + 1;
                    if u <= dl - 1 {
                        lemma_line_end_le(d2, u, dl - 1);
                    } else {
                        // the line after `j`'s is the empty seam line
                        assert(line_end(d2, u) == u);
                        assert(!underline_at(d2, u, 61));
                        assert(!underline_at(d2, u, 45));
                        assert(false);
                    }
                }
                lemma_header_match_agree(d2, d, dl, h, j);
                assert(false);
            }
        }
    }
}

/// After the append fallback has added a `# `-style section for `h`, that
/// appended heading owns a section that runs to the document end, and
/// replacing it with the very insertion it already holds reproduces the
/// document unchanged. This holds provided the heading text is a single
/// line, no heading for it occurs in the document, the document is empty
/// or line-feed-terminated (else its last line could fuse with the
/// appended heading), and no top-level heading begins inside the inserted
/// body.
pub proof fn lemma_append_then_replace(d: Seq<u8>, h: Seq<u8>, x: Seq<u8>)
    requires
        forall|i: int| 0 <= i < h.len() ==> h[i] != 10,
        !has_header(d, h),
        d.len() == 0 || d[d.len() - 1] == 10,
        forall|j: int|
            d.len() as int + 4 + h.len() <= j < appended_doc(d, h, x).len() ==> !boundary_at(
                appended_doc(d, h, x),
                1,
                j,
            ),
    ensures
        ({
            let d2 = appended_doc(d, h, x);
            let s0 = d.len() as int + 1;
            let cs = d.len() as int + 4 + h.len();
            &&& is_section_span(d2, h, s0, d2.len() as int)
            &&& header_level_at(d2, h, s0) == 1
            &&& match_end(d2, h, s0) == cs
            &&& replaced_doc(d2, h, x, s0, d2.len() as int) == d2
        }),
{
    let d2 = appended_doc(d, h, x);
    let s0: int = d.len() as int + 1;
    let e0: int = d.len() as int + 3 + h.len();
    let cs: int = e0 + 1;
    lemma_appended_doc_index(d, h, x);
    lemma_appended_heading(d, h, x);
    lemma_append_first_match(d, h, x);
    // its section runs to the document end
    assert(section_end_ok(d2, 1, cs, d2.len() as int));
    assert(is_section_span(d2, h, s0, d2.len() as int));
    // replacing the same body again reproduces the document
    assert(replaced_doc(d2, h, x, s0, d2.len() as int) == d2) by {
        assert(d2.subrange(cs, d2.len() as int) =~= x) by {
            assert forall|i: int| 0 <= i < x.len() implies #[trigger] d2.subrange(
                cs,
                d2.len() as int,
            )[i] == x[i] by {
                assert(d2.subrange(cs, d2.len() as int)[i] == d2[cs + i]);
            }
        }
        assert(d2.subrange(d2.len() as int, d2.len() as int) =~= Seq::<u8>::empty());
        assert(d2.subrange(0, cs) + x + d2.subrange(d2.len() as int, d2.len() as int)
            =~= d2.subrange(0, cs) + d2.subrange(cs, d2.len() as int));
        assert(d2.subrange(0, cs) + d2.subrange(cs, d2.len() as int) =~= d2);
    }
}

/// Replacement is local: outside the replaced body, the document is
/// carried over byte for byte. The prefix through the heading's own lines
/// is unchanged, the insertion stands verbatim in the middle (so any
/// sub-headings it reproduces are preserved), and the suffix from the next
/// equal-or-higher heading on - the sibling sections - is unchanged.
pub proof fn lemma_replace_preserves_outside(d: Seq<u8>, h: Seq<u8>, x: Seq<u8>, a: int, b: int)
    requires
        is_section_span(d, h, a, b),
    ensures
        ({
            let cs = match_end(d, h, a);
            let r = d.subrange(0, cs) + x + d.subrange(b, d.len() as int);
            &&& r.len() == x.len() + d.len() - (b - cs)
            &&& r.subrange(0, cs) == d.subrange(0, cs)
            &&& r.subrange(cs, cs + x.len()) == x
            &&& r.subrange(cs + x.len(), r.len() as int) == d.subrange(b, d.len() as int)
        }),
{
    lemma_match_end_bounds(d, h, a);
    let cs = match_end(d, h, a);
    let r = d.subrange(0, cs) + x + d.subrange(b, d.len() as int);
    assert(r.subrange(0, cs) =~= d.subrange(0, cs));
    assert(r.subrange(cs, cs + x.len()) =~= x);
    assert(r.subrange(cs + x.len(), r.len() as int) =~= d.subrange(b, d.len() as int));
}

} // verus!
