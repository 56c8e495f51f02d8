//! Byte-level line primitives: line boundaries, marker runs, and the
//! whitespace class, together with their basic facts.

use vstd::prelude::*;

verus! {

/// Whitespace bytes, as a text matcher's whitespace class has them:
/// space, tab, line feed, carriage return, vertical tab, form feed.
pub open spec fn is_ws(b: u8) -> bool {
    b == 32 || b == 9 || b == 10 || b == 13 || b == 11 || b == 12
}

/// `s` begins a line: the document start, or the position right after a
/// line feed.
pub open spec fn is_line_start(doc: Seq<u8>, s: int) -> bool {
    0 <= s <= doc.len() && (s == 0 || doc[s - 1] == 10)
}

/// Index of the line feed that ends the line starting at `s`, or
/// `doc.len()` when the final line has no terminator.
pub open spec fn line_end(doc: Seq<u8>, s: int) -> int
    decreases doc.len() - s,
{
    if s < 0 || s >= doc.len() {
        doc.len() as int
    } else if doc[s] == 10 {
        s
    } else {
        line_end(doc, s + 1)
    }
}

/// Count of consecutive `#` bytes at `s`.
pub open spec fn hash_run_len(doc: Seq<u8>, s: int) -> int
    decreases doc.len() - s,
{
    if 0 <= s < doc.len() && doc[s] == 35 {
        1 + hash_run_len(doc, s + 1)
    } else {
        0
    }
}

/// First index at or after `s` whose byte is not a space.
pub open spec fn space_run_end(doc: Seq<u8>, s: int) -> int
    decreases doc.len() - s,
{
    if 0 <= s < doc.len() && doc[s] == 32 {
        space_run_end(doc, s + 1)
    } else {
        s
    }
}

/// The line from `s` runs to `line_end(doc, s)`: nothing before it is a
/// line feed, and the end either carries one or is the document end.
pub proof fn lemma_line_end(doc: Seq<u8>, s: int)
    requires
        0 <= s <= doc.len(),
    ensures
        s <= line_end(doc, s) <= doc.len(),
        forall|i: int| s <= i < line_end(doc, s) ==> doc[i] != 10,
        line_end(doc, s) < doc.len() ==> doc[line_end(doc, s)] == 10,
    decreases doc.len() - s,
{
    if s < doc.len() && doc[s] != 10 {
        lemma_line_end(doc, s + 1);
    }
}

/// A line feed at or after `s` bounds the line end from `s`.
pub proof fn lemma_line_end_le(doc: Seq<u8>, s: int, p: int)
    requires
        0 <= s <= p < doc.len(),
        doc[p] == 10,
    ensures
        line_end(doc, s) <= p,
    decreases p - s,
{
    if s < p && doc[s] != 10 {
        lemma_line_end_le(doc, s + 1, p);
    }
}

/// The `#` run from `s` stays within the document, consists of `#` bytes,
/// and is maximal.
pub proof fn lemma_hash_run(doc: Seq<u8>, s: int)
    requires
        0 <= s <= doc.len(),
    ensures
        0 <= hash_run_len(doc, s),
        s + hash_run_len(doc, s) <= doc.len(),
        forall|i: int| s <= i < s + hash_run_len(doc, s) ==> doc[i] == 35,
        s + hash_run_len(doc, s) < doc.len() ==> doc[s + hash_run_len(doc, s)] != 35,
    decreases doc.len() - s,
{
    if s < doc.len() && doc[s] == 35 {
        lemma_hash_run(doc, s + 1);
    }
}

/// Documents that agree on the prefix `[0, m)` agree on any line that
/// ends within it.
pub proof fn lemma_line_end_agree(d1: Seq<u8>, d2: Seq<u8>, m: int, s: int)
    requires
        m <= d1.len(),
        m <= d2.len(),
        d1.subrange(0, m) == d2.subrange(0, m),
        0 <= s,
        line_end(d1, s) < m,
    ensures
        line_end(d2, s) == line_end(d1, s),
    decreases m - s,
{
    if s >= d1.len() {
        assert(line_end(d1, s) == d1.len());
    } else {
        lemma_line_end(d1, s);
        assert(d1.subrange(0, m)[s] == d1[s]);
        assert(d2.subrange(0, m)[s] == d2[s]);
        if d1[s] != 10 {
            lemma_line_end_agree(d1, d2, m, s + 1);
        }
    }
}

/// Documents that agree on the prefix `[0, m)` agree on a `#` run that
/// stops within it.
pub proof fn lemma_hash_run_agree(d1: Seq<u8>, d2: Seq<u8>, m: int, s: int)
    requires
        m <= d1.len(),
        m <= d2.len(),
        d1.subrange(0, m) == d2.subrange(0, m),
        0 <= s,
        s + hash_run_len(d1, s) < m,
    ensures
        hash_run_len(d2, s) == hash_run_len(d1, s),
    decreases m - s,
{
    if s >= d1.len() {
        assert(hash_run_len(d1, s) == 0);
        assert(false);
    } else {
        lemma_hash_run(d1, s);
        assert(d1.subrange(0, m)[s] == d1[s]);
        assert(d2.subrange(0, m)[s] == d2[s]);
        if d1[s] == 35 {
            lemma_hash_run_agree(d1, d2, m, s + 1);
        }
    }
}

/// Equal suffixes stay equal when both starting points advance together.
pub proof fn lemma_suffix_shift_by(d1: Seq<u8>, d2: Seq<u8>, s1: int, s2: int, t: int)
    requires
        0 <= s1 <= d1.len(),
        0 <= s2 <= d2.len(),
        d1.subrange(s1, d1.len() as int) == d2.subrange(s2, d2.len() as int),
        0 <= t <= d1.len() - s1,
    ensures
        d1.subrange(s1 + t, d1.len() as int) == d2.subrange(s2 + t, d2.len() as int),
{
    assert(d1.subrange(s1, d1.len() as int).len() == d1.len() - s1);
    assert(d2.subrange(s2, d2.len() as int).len() == d2.len() - s2);
    assert(d1.len() - s1 == d2.len() - s2);
    let a1: int = s1 + t;
    let a2: int = s2 + t;
    assert(d1.subrange(a1, d1.len() as int) =~= d2.subrange(a2, d2.len() as int)) by {
        assert forall|i: int| 0 <= i < d1.len() - a1 implies #[trigger] d1.subrange(
            a1,
            d1.len() as int,
        )[i] == d2.subrange(a2, d2.len() as int)[i] by {
            assert(d1.subrange(s1, d1.len() as int)[t + i] == d1[a1 + i]);
            assert(d2.subrange(s2, d2.len() as int)[t + i] == d2[a2 + i]);
        }
    }
}

/// Documents with equal suffixes have lines of equal length there.
pub proof fn lemma_line_end_shift(d1: Seq<u8>, d2: Seq<u8>, s1: int, s2: int)
    requires
        0 <= s1 <= d1.len(),
        0 <= s2 <= d2.len(),
        d1.subrange(s1, d1.len() as int) == d2.subrange(s2, d2.len() as int),
    ensures
        line_end(d1, s1) - s1 == line_end(d2, s2) - s2,
    decreases d1.len() - s1,
{
    assert(d1.subrange(s1, d1.len() as int).len() == d1.len() - s1);
    assert(d2.subrange(s2, d2.len() as int).len() == d2.len() - s2);
    assert(d1.len() - s1 == d2.len() - s2);
    if s1 < d1.len() {
        assert(d1.subrange(s1, d1.len() as int)[0] == d1[s1]);
        assert(d2.subrange(s2, d2.len() as int)[0] == d2[s2]);
        if d1[s1] != 10 {
            lemma_suffix_shift_by(d1, d2, s1, s2, 1);
            lemma_line_end_shift(d1, d2, s1 + 1, s2 + 1);
        }
    }
}

/// Documents with equal suffixes have `#` runs of equal length there.
pub proof fn lemma_hash_run_shift(d1: Seq<u8>, d2: Seq<u8>, s1: int, s2: int)
    requires
        0 <= s1 <= d1.len(),
        0 <= s2 <= d2.len(),
        d1.subrange(s1, d1.len() as int) == d2.subrange(s2, d2.len() as int),
    ensures
        hash_run_len(d1, s1) == hash_run_len(d2, s2),
    decreases d1.len() - s1,
{
    assert(d1.subrange(s1, d1.len() as int).len() == d1.len() - s1);
    assert(d2.subrange(s2, d2.len() as int).len() == d2.len() - s2);
    assert(d1.len() - s1 == d2.len() - s2);
    if s1 < d1.len() {
        assert(d1.subrange(s1, d1.len() as int)[0] == d1[s1]);
        assert(d2.subrange(s2, d2.len() as int)[0] == d2[s2]);
        if d1[s1] == 35 {
            lemma_suffix_shift_by(d1, d2, s1, s2, 1);
            lemma_hash_run_shift(d1, d2, s1 + 1, s2 + 1);
        }
    }
}

/// Documents with equal suffixes have space runs of equal length there.
pub proof fn lemma_space_run_shift(d1: Seq<u8>, d2: Seq<u8>, s1: int, s2: int)
    requires
        0 <= s1 <= d1.len(),
        0 <= s2 <= d2.len(),
        d1.subrange(s1, d1.len() as int) == d2.subrange(s2, d2.len() as int),
    ensures
        space_run_end(d1, s1) - s1 == space_run_end(d2, s2) - s2,
    decreases d1.len() - s1,
{
    assert(d1.subrange(s1, d1.len() as int).len() == d1.len() - s1);
    assert(d2.subrange(s2, d2.len() as int).len() == d2.len() - s2);
    assert(d1.len() - s1 == d2.len() - s2);
    if s1 < d1.len() {
        assert(d1.subrange(s1, d1.len() as int)[0] == d1[s1]);
        assert(d2.subrange(s2, d2.len() as int)[0] == d2[s2]);
        if d1[s1] == 32 {
            lemma_suffix_shift_by(d1, d2, s1, s2, 1);
            lemma_space_run_shift(d1, d2, s1 + 1, s2 + 1);
        }
    }
}

/// The space run from `s` stays within the document, consists of spaces,
/// and is maximal.
pub proof fn lemma_space_run(doc: Seq<u8>, s: int)
    requires
        0 <= s <= doc.len(),
    ensures
        s <= space_run_end(doc, s) <= doc.len(),
        forall|i: int| s <= i < space_run_end(doc, s) ==> doc[i] == 32,
        space_run_end(doc, s) < doc.len() ==> doc[space_run_end(doc, s)] != 32,
    decreases doc.len() - s,
{
    if s < doc.len() && doc[s] == 32 {
        lemma_space_run(doc, s + 1);
    }
}

} // verus!
