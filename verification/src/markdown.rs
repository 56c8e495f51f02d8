//! The section engine: locate a heading by its literal text, compute the
//! section span it owns, and query, replace, or append that section.

use vstd::prelude::*;
use crate::text::{is_ws, is_line_start, line_end, hash_run_len, space_run_end};
use crate::text::{lemma_line_end, lemma_space_run};
use crate::headings::{
    underline_at, atx_match_at, setext_match_at, header_match_at, header_level_at, match_end,
    atx_boundary_at, setext_boundary_at, boundary_at, found_header, has_header, section_end_ok,
    is_section_span, lemma_match_end_bounds,
};

verus! {

/// Exec mirror of the whitespace class.
fn ws_byte(b: u8) -> (r: bool)
    ensures
        r == is_ws(b),
{
    b == 32 || b == 9 || b == 10 || b == 13 || b == 11 || b == 12
}

/// Walk to the line feed that ends the line starting at `s`.
fn find_line_end(doc: &Vec<u8>, s: usize) -> (e: usize)
    requires
        s <= doc@.len(),
    ensures
        e as int == line_end(doc@, s as int),
        s <= e <= doc@.len(),
{
    let mut i: usize = s;
    while i < doc.len()
        invariant
            s <= i <= doc@.len(),
            line_end(doc@, s as int) == line_end(doc@, i as int),
        decreases doc@.len() - i,
    {
        if doc[i] == 10 {
            return i;
        }
        i = i + 1;
    }
    i
}

/// Count the `#` bytes at `s`.
fn find_hash_run(doc: &Vec<u8>, s: usize) -> (n: usize)
    requires
        s <= doc@.len(),
    ensures
        n as int == hash_run_len(doc@, s as int),
        s + n <= doc@.len(),
{
    let mut i: usize = s;
    while i < doc.len() && doc[i] == 35
        invariant
            s <= i <= doc@.len(),
            hash_run_len(doc@, s as int) == i - s + hash_run_len(doc@, i as int),
        decreases doc@.len() - i,
    {
        i = i + 1;
    }
    i - s
}

/// Skip the spaces at `s`.
fn find_space_run_end(doc: &Vec<u8>, s: usize) -> (k: usize)
    requires
        s <= doc@.len(),
    ensures
        k as int == space_run_end(doc@, s as int),
        s <= k <= doc@.len(),
{
    let mut i: usize = s;
    while i < doc.len() && doc[i] == 32
        invariant
            s <= i <= doc@.len(),
            space_run_end(doc@, s as int) == space_run_end(doc@, i as int),
        decreases doc@.len() - i,
    {
        i = i + 1;
    }
    i
}

/// Compare `doc[p .. p + h.len())` with `h`.
fn bytes_eq_at(doc: &Vec<u8>, p: usize, h: &Vec<u8>) -> (r: bool)
    requires
        p <= doc@.len(),
        h@.len() <= doc@.len() - p,
    ensures
        r == (doc@.subrange(p as int, p + h@.len()) == h@),
{
    let dl = doc.len();
    let mut i: usize = 0;
    while i < h.len()
        invariant
            i <= h@.len(),
            p + h@.len() <= doc@.len(),
            doc@.len() == dl,
            forall|k: int| 0 <= k < i ==> doc@[p + k] == #[trigger] h@[k],
        decreases h@.len() - i,
    {
        if doc[p + i] != h[i] {
            proof {
                assert(doc@.subrange(p as int, p + h@.len())[i as int] == doc@[p + i]);
            }
            return false;
        }
        i = i + 1;
    }
    proof {
        assert(doc@.subrange(p as int, p + h@.len()) =~= h@);
    }
    true
}

/// Is the line at `u` a nonempty, line-feed-terminated run of byte `c`?
fn check_underline(doc: &Vec<u8>, u: usize, c: u8) -> (r: bool)
    requires
        u <= doc@.len(),
    ensures
        r == underline_at(doc@, u as int, c),
{
    let f = find_line_end(doc, u);
    if f >= doc.len() || f == u {
        return false;
    }
    let mut i: usize = u;
    while i < f
        invariant
            u <= i <= f,
            f as int == line_end(doc@, u as int),
            f < doc@.len(),
            u < f,
            forall|k: int| u <= k < i ==> doc@[k] == c,
        decreases f - i,
    {
        if doc[i] != c {
            return false;
        }
        i = i + 1;
    }
    true
}

/// Classify the line at `s` against heading text `h`; on a match, return
/// the heading's level and the offset where its section body begins.
fn check_header_at(doc: &Vec<u8>, h: &Vec<u8>, s: usize) -> (r: Option<(usize, usize)>)
    requires
        s <= doc@.len(),
    ensures
        r.is_some() == (atx_match_at(doc@, h@, s as int) || setext_match_at(doc@, h@, s as int)),
        r matches Some((level, me)) ==> {
            &&& level as int == header_level_at(doc@, h@, s as int)
            &&& me as int == match_end(doc@, h@, s as int)
            &&& s < me <= doc@.len()
            &&& 1 <= level <= 6
        },
{
    let dl = doc.len();
    let e = find_line_end(doc, s);
    if e >= dl {
        return None;
    }
    proof {
        lemma_line_end(doc@, s as int);
    }
    let n = find_hash_run(doc, s);
    if 1 <= n && n <= 6 {
        let rest = e - s;
        if rest > n && rest - n > h.len() {
            let j = rest - n - h.len();
            let k = find_space_run_end(doc, s + n);
            proof {
                lemma_space_run(doc@, (s + n) as int);
            }
            if k >= s + n + j {
                if bytes_eq_at(doc, e - h.len(), h) {
                    return Some((n, e + 1));
                } else {
                    return None;
                }
            } else {
                return None;
            }
        }
    }
    if e - s == h.len() && bytes_eq_at(doc, s, h) {
        if check_underline(doc, e + 1, 61) {
            let f = find_line_end(doc, e + 1);
            return Some((1, f + 1));
        }
        if check_underline(doc, e + 1, 45) {
            let f = find_line_end(doc, e + 1);
            return Some((2, f + 1));
        }
    }
    None
}

/// Is the line at `s` a heading (of any text) of level at most `level`?
fn check_boundary_at(doc: &Vec<u8>, level: usize, s: usize) -> (r: bool)
    requires
        s <= doc@.len(),
        level >= 1,
    ensures
        r == (atx_boundary_at(doc@, level as int, s as int)
            || setext_boundary_at(doc@, level as int, s as int)),
{
    let dl = doc.len();
    let e = find_line_end(doc, s);
    if e >= dl {
        return false;
    }
    proof {
        lemma_line_end(doc@, s as int);
    }
    let n = find_hash_run(doc, s);
    if n >= 1 && n <= level && s + n < e {
        if doc[s + n] == 32 {
            let k = find_space_run_end(doc, s + n);
            if k < e {
                if !ws_byte(doc[k]) {
                    return true;
                }
            }
        }
    }
    if e > s {
        if !ws_byte(doc[s]) {
            if check_underline(doc, e + 1, 61) {
                return true;
            }
            if level >= 2 {
                if check_underline(doc, e + 1, 45) {
                    return true;
                }
            }
        }
    }
    false
}

/// Scan line starts in order for the first heading whose text is `h`;
/// return its start, its level, and the offset where its body begins.
fn find_header(doc: &Vec<u8>, h: &Vec<u8>) -> (r: Option<(usize, usize, usize)>)
    ensures
        r.is_some() == has_header(doc@, h@),
        r matches Some((start, level, me)) ==> {
            &&& found_header(doc@, h@, start as int)
            &&& level as int == header_level_at(doc@, h@, start as int)
            &&& me as int == match_end(doc@, h@, start as int)
            &&& start < me <= doc@.len()
            &&& 1 <= level <= 6
        },
{
    let mut s: usize = 0;
    while s < doc.len()
        invariant
            s <= doc@.len(),
            is_line_start(doc@, s as int) || s == doc@.len(),
            forall|j: int| 0 <= j < s ==> !header_match_at(doc@, h@, j),
        decreases doc@.len() - s,
    {
        match check_header_at(doc, h, s) {
            Some((level, me)) => {
                proof {
                    assert(header_match_at(doc@, h@, s as int));
                }
                return Some((s, level, me));
            }
            None => {}
        }
        let e = find_line_end(doc, s);
        proof {
            lemma_line_end(doc@, s as int);
            assert forall|j: int| s < j <= e + 1 && j <= doc@.len() implies !is_line_start(
                doc@,
                j,
            ) || j == e + 1 by {
                if j < e + 1 {
                    assert(doc@[j - 1] != 10);
                }
            }
        }
        if e < doc.len() {
            s = e + 1;
        } else {
            proof {
                assert forall|j: int| 0 <= j implies !header_match_at(doc@, h@, j) by {
                    if s < j && j <= doc@.len() {
                        assert(doc@[j - 1] != 10);
                    }
                    if j == doc@.len() && is_line_start(doc@, j) {
                        assert(line_end(doc@, j) == doc@.len());
                    }
                }
            }
            return None;
        }
    }
    proof {
        assert forall|j: int| 0 <= j implies !header_match_at(doc@, h@, j) by {
            if j == doc@.len() && is_line_start(doc@, j) {
                assert(line_end(doc@, j) == doc@.len());
            }
        }
    }
    None
}

/// Scan line starts from `from` for the first heading of level at most
/// `level`; return its start, or the document length when none occurs.
fn find_boundary_from(doc: &Vec<u8>, from: usize, level: usize) -> (e: usize)
    requires
        is_line_start(doc@, from as int),
        level >= 1,
    ensures
        section_end_ok(doc@, level as int, from as int, e as int),
{
    let mut s: usize = from;
    while s < doc.len()
        invariant
            from <= s <= doc@.len(),
            level >= 1,
            is_line_start(doc@, s as int) || s == doc@.len(),
            forall|j: int| from <= j < s ==> !boundary_at(doc@, level as int, j),
        decreases doc@.len() - s,
    {
        if check_boundary_at(doc, level, s) {
            return s;
        }
        let e = find_line_end(doc, s);
        proof {
            lemma_line_end(doc@, s as int);
            assert forall|j: int| s < j <= e && j < doc@.len() implies !is_line_start(doc@, j) by {
                assert(doc@[j - 1] != 10);
            }
        }
        if e < doc.len() {
            s = e + 1;
        } else {
            proof {
                assert forall|j: int| from <= j < doc@.len() implies !boundary_at(
                    doc@,
                    level as int,
                    j,
                ) by {
                    if s < j {
                        assert(doc@[j - 1] != 10);
                    }
                }
            }
            return doc.len();
        }
    }
    s
}

/// Append `src[lo .. hi)` to `dst`.
fn push_range(dst: &mut Vec<u8>, src: &Vec<u8>, lo: usize, hi: usize)
    requires
        lo <= hi <= src@.len(),
    ensures
        final(dst)@ == old(dst)@ + src@.subrange(lo as int, hi as int),
{
    let ghost orig: Seq<u8> = dst@;
    let mut i: usize = lo;
    while i < hi
        invariant
            lo <= i <= hi,
            hi <= src@.len(),
            dst@ == orig + src@.subrange(lo as int, i as int),
        decreases hi - i,
    {
        dst.push(src[i]);
        i = i + 1;
        proof {
            assert(src@.subrange(lo as int, i as int) =~= src@.subrange(lo as int, i - 1).push(
                src@[i - 1],
            ));
            assert(dst@ =~= orig + src@.subrange(lo as int, i as int));
        }
    }
    proof {
        assert(dst@ =~= orig + src@.subrange(lo as int, i as int));
    }
}

/// Append all of `src` to `dst`.
fn push_all(dst: &mut Vec<u8>, src: &Vec<u8>)
    ensures
        final(dst)@ == old(dst)@ + src@,
{
    push_range(dst, src, 0, src.len());
    proof {
        assert(src@.subrange(0, src@.len() as int) =~= src@);
    }
}

/// Locate the section of the first heading whose text is `header`: the
/// half-open span from the heading line's first byte to the start of the
/// next heading of equal or higher precedence (or the document end).
pub fn find_section(markdown: &Vec<u8>, header: &Vec<u8>) -> (r: Option<(usize, usize)>)
    ensures
        r.is_some() == has_header(markdown@, header@),
        r matches Some((a, b)) ==> {
            &&& is_section_span(markdown@, header@, a as int, b as int)
            &&& a < b <= markdown@.len()
        },
{
    match find_header(markdown, header) {
        None => None,
        Some((start, level, me)) => {
            proof {
                lemma_match_end_bounds(markdown@, header@, start as int);
            }
            let b = find_boundary_from(markdown, me, level);
            Some((start, b))
        },
    }
}

/// Return the exact text of the section owned by the first heading whose
/// text is `header`, or nothing when the heading is absent.
pub fn get_section(markdown: &Vec<u8>, header: &Vec<u8>) -> (r: Option<Vec<u8>>)
    ensures
        r.is_some() == has_header(markdown@, header@),
        r matches Some(sec) ==> exists|a: int, b: int|
            is_section_span(markdown@, header@, a, b) && sec@ == markdown@.subrange(a, b),
{
    match find_section(markdown, header) {
        None => None,
        Some((a, b)) => {
            let mut sec: Vec<u8> = Vec::new();
            push_range(&mut sec, markdown, a, b);
            proof {
                assert(sec@ =~= markdown@.subrange(a as int, b as int));
                assert(is_section_span(markdown@, header@, a as int, b as int)
                    && sec@ == markdown@.subrange(a as int, b as int));
            }
            Some(sec)
        },
    }
}

/// Replace the body of the section owned by the first heading whose text
/// is `header` with `insertion`, keeping the heading's own lines verbatim;
/// nothing when the heading is absent.
pub fn replace_section(markdown: &Vec<u8>, header: &Vec<u8>, insertion: &Vec<u8>) -> (r: Option<
    Vec<u8>,
>)
    ensures
        r.is_some() == has_header(markdown@, header@),
        r matches Some(out) ==> exists|a: int, b: int|
            is_section_span(markdown@, header@, a, b) && out@ == markdown@.subrange(
                0,
                match_end(markdown@, header@, a),
            ) + insertion@ + markdown@.subrange(b, markdown@.len() as int),
{
    match find_header(markdown, header) {
        None => None,
        Some((start, level, me)) => {
            proof {
                lemma_match_end_bounds(markdown@, header@, start as int);
            }
            let b = find_boundary_from(markdown, me, level);
            let mut out: Vec<u8> = Vec::new();
            push_range(&mut out, markdown, 0, me);
            push_all(&mut out, insertion);
            push_range(&mut out, markdown, b, markdown.len());
            proof {
                assert(out@ =~= markdown@.subrange(0, me as int) + insertion@
                    + markdown@.subrange(b as int, markdown@.len() as int));
                assert(is_section_span(markdown@, header@, start as int, b as int) && out@
                    == markdown@.subrange(0, match_end(markdown@, header@, start as int))
                    + insertion@ + markdown@.subrange(b as int, markdown@.len() as int));
            }
            Some(out)
        },
    }
}

/// Replace the section of `header` when it exists; otherwise append a new
/// top-level section: a separating line feed, then `# `, the heading text,
/// a line feed, and the insertion, all verbatim at the document end.
pub fn replace_or_append_section(markdown: &Vec<u8>, header: &Vec<u8>, insertion: &Vec<u8>) -> (r:
    Vec<u8>)
    ensures
        has_header(markdown@, header@) ==> exists|a: int, b: int|
            is_section_span(markdown@, header@, a, b) && r@ == markdown@.subrange(
                0,
                match_end(markdown@, header@, a),
            ) + insertion@ + markdown@.subrange(b, markdown@.len() as int),
        !has_header(markdown@, header@) ==> r@ == markdown@ + seq![10u8, 35u8, 32u8] + header@
            + seq![10u8] + insertion@,
{
    match replace_section(markdown, header, insertion) {
        Some(out) => out,
        None => {
            let mut out: Vec<u8> = Vec::new();
            push_all(&mut out, markdown);
            out.push(10);
            out.push(35);
            out.push(32);
            push_all(&mut out, header);
            out.push(10);
            push_all(&mut out, insertion);
            proof {
                assert(out@ =~= markdown@ + seq![10u8, 35u8, 32u8] + header@ + seq![10u8]
                    + insertion@);
            }
            out
        },
    }
}

/// Return the numeric level of the first heading whose text is `header`:
/// 1 through 6 for ATX by `#` count, 1 for a Setext `=` underline, 2 for a
/// Setext `-` underline; nothing when the heading is absent.
pub fn header_level(markdown: &Vec<u8>, header: &Vec<u8>) -> (r: Option<usize>)
    ensures
        r.is_some() == has_header(markdown@, header@),
        r matches Some(level) ==> exists|a: int|
            found_header(markdown@, header@, a) && level as int == header_level_at(
                markdown@,
                header@,
                a,
            ) && 1 <= level <= 6,
{
    match find_header(markdown, header) {
        None => None,
        Some((start, level, _me)) => {
            proof {
                assert(found_header(markdown@, header@, start as int) && level as int
                    == header_level_at(markdown@, header@, start as int) && 1 <= level <= 6);
            }
            Some(level)
        },
    }
}

} // verus!
