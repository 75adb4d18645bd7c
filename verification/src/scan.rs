//! Blank-line evidence scanned from a document's source text.
//!
//! The formatter reproduces blank lines "as in the original" for fields
//! so configured. The original's evidence is read off its lines: a
//! top-level key's line is the first line reading `  "key":` at two
//! spaces of indentation, and a field's direct children sit on lines
//! reading `    "child":` between the field's line and the next
//! top-level line. A line counts as blank when it holds only whitespace.

use vstd::prelude::*;
use crate::render::esc;
use crate::textutil::{is_space, split_on, split_chars, chars_of};
use crate::path::is_space_exec;

verus! {

broadcast use crate::textutil::lemma_char_vec_deep_view;

/// The lines of a text, split at newlines.
pub open spec fn lines_of(t: Seq<char>) -> Seq<Seq<char>> {
    split_on(t, '\n')
}

/// A line holding only whitespace, or nothing.
pub open spec fn is_blank(l: Seq<char>) -> bool {
    forall|i: int| 0 <= i < l.len() ==> is_space(l[i])
}

/// Whether `l` begins with `p`.
pub open spec fn starts_with(l: Seq<char>, p: Seq<char>) -> bool {
    l.len() >= p.len() && l.subrange(0, p.len() as int) == p
}

/// The line prefix that introduces top-level key `k`.
pub open spec fn top_pat(k: Seq<char>) -> Seq<char> {
    seq![' ', ' ', '"'] + esc(k) + seq!['"', ':']
}

/// The line prefix that introduces child key `c` of a top-level field.
pub open spec fn sub_pat(c: Seq<char>) -> Seq<char> {
    seq![' ', ' ', ' ', ' ', '"'] + esc(c) + seq!['"', ':']
}

/// Index of the first line introducing top-level key `k`, or `ls.len()`.
pub open spec fn find_top_line(ls: Seq<Seq<char>>, k: Seq<char>) -> int
    decreases ls.len(),
{
    if ls.len() == 0 {
        0
    } else if starts_with(ls[0], top_pat(k)) {
        0
    } else {
        1 + find_top_line(ls.drop_first(), k)
    }
}

/// Whether a line opens a new top-level entry.
pub open spec fn is_top_start(l: Seq<char>) -> bool {
    starts_with(l, seq![' ', ' ', '"'])
}

/// Whether a line closes the whole document.
pub open spec fn is_doc_close(l: Seq<char>) -> bool {
    l.len() > 0 && l[0] == '}'
}

/// Index of the first line at or after `i` that leaves the block opened
/// before `i`: the next top-level entry line or the document's closer.
pub open spec fn find_block_end(ls: Seq<Seq<char>>, i: int) -> int
    decreases ls.len() - i,
{
    if i < 0 || i >= ls.len() {
        ls.len() as int
    } else if is_top_start(ls[i]) || is_doc_close(ls[i]) {
        i
    } else {
        find_block_end(ls, i + 1)
    }
}

/// Index of the first line in `[lo, hi)` introducing child key `c`, or
/// `hi` when none does.
pub open spec fn find_sub_line(ls: Seq<Seq<char>>, lo: int, hi: int, c: Seq<char>) -> int
    decreases hi - lo,
{
    if lo < 0 || lo >= hi || hi > ls.len() {
        hi
    } else if starts_with(ls[lo], sub_pat(c)) {
        lo
    } else {
        find_sub_line(ls, lo + 1, hi, c)
    }
}

/// Whether a blank line sits immediately before top-level key `k`.
pub open spec fn blank_before_top(ls: Seq<Seq<char>>, k: Seq<char>) -> bool {
    let j = find_top_line(ls, k);
    0 < j < ls.len() && is_blank(ls[j - 1])
}

/// Whether a blank line sits immediately before child `c` inside the
/// block of top-level field `f`.
pub open spec fn blank_before_child(ls: Seq<Seq<char>>, f: Seq<char>, c: Seq<char>) -> bool {
    let j = find_top_line(ls, f);
    if j >= ls.len() {
        false
    } else {
        let e = find_block_end(ls, j + 1);
        let m = find_sub_line(ls, j + 1, e, c);
        m < e && is_blank(ls[m - 1])
    }
}

/// Splits a text into its lines.
pub fn text_lines(text: &str) -> (ls: Vec<Vec<char>>)
    ensures
        ls.deep_view() == lines_of(text@),
{
    let cs = chars_of(text);
    split_chars(&cs, '\n')
}

/// Decides whether a line is blank.
pub fn line_is_blank(l: &Vec<char>) -> (r: bool)
    ensures
        r == is_blank(l@),
{
    let mut i: usize = 0;
    while i < l.len()
        invariant
            i <= l@.len(),
            forall|j: int| 0 <= j < i ==> is_space(l@[j]),
        decreases l@.len() - i,
    {
        if !is_space_exec(l[i]) {
            return false;
        }
        i = i + 1;
    }
    true
}

/// Decides whether `l` begins with `p`.
pub fn starts_with_exec(l: &Vec<char>, p: &Vec<char>) -> (r: bool)
    ensures
        r == starts_with(l@, p@),
{
    if l.len() < p.len() {
        return false;
    }
    let mut i: usize = 0;
    while i < p.len()
        invariant
            p@.len() <= l@.len(),
            i <= p@.len(),
            forall|j: int| 0 <= j < i ==> l@[j] == p@[j],
        decreases p@.len() - i,
    {
        if l[i] != p[i] {
            proof {
                assert(l@.subrange(0, p@.len() as int)[i as int] != p@[i as int]);
            }
            return false;
        }
        i = i + 1;
    }
    proof {
        assert(l@.subrange(0, p@.len() as int) =~= p@);
    }
    true
}

/// Builds the top-level line prefix for key `k`.
fn top_pat_chars(k: &str) -> (v: Vec<char>)
    ensures
        v@ == top_pat(k@),
{
    let mut v: Vec<char> = Vec::new();
    v.push(' ');
    v.push(' ');
    v.push('"');
    let kcs = chars_of(k);
    crate::render::push_esc(&mut v, kcs.as_slice());
    v.push('"');
    v.push(':');
    proof {
        assert(v@ =~= top_pat(k@));
    }
    v
}

/// Builds the child line prefix for key `c`.
fn sub_pat_chars(c: &str) -> (v: Vec<char>)
    ensures
        v@ == sub_pat(c@),
{
    let mut v: Vec<char> = Vec::new();
    v.push(' ');
    v.push(' ');
    v.push(' ');
    v.push(' ');
    v.push('"');
    let kcs = chars_of(c);
    crate::render::push_esc(&mut v, kcs.as_slice());
    v.push('"');
    v.push(':');
    proof {
        assert(v@ =~= sub_pat(c@));
    }
    v
}

/// Finds the line introducing top-level key `k`.
fn find_top_line_exec(ls: &Vec<Vec<char>>, k: &str) -> (r: usize)
    ensures
        r as int == find_top_line(ls.deep_view(), k@),
        r <= ls@.len(),
{
    let pat = top_pat_chars(k);
    let mut i: usize = 0;
    while i < ls.len()
        invariant
            i <= ls@.len(),
            pat@ == top_pat(k@),
            ls.deep_view().len() == ls@.len(),
            forall|j: int| 0 <= j < i ==> !starts_with(ls.deep_view()[j], top_pat(k@)),
        decreases ls@.len() - i,
    {
        if starts_with_exec(&ls[i], &pat) {
            proof {
                lemma_find_first(ls.deep_view(), k@, i as int);
            }
            return i;
        }
        i = i + 1;
    }
    proof {
        lemma_find_none(ls.deep_view(), k@);
    }
    ls.len()
}

/// When every earlier line misses the pattern and line `i` hits it, the
/// finder answers `i`.
proof fn lemma_find_first(ls: Seq<Seq<char>>, k: Seq<char>, i: int)
    requires
        0 <= i < ls.len(),
        forall|j: int| 0 <= j < i ==> !starts_with(ls[j], top_pat(k)),
        starts_with(ls[i], top_pat(k)),
    ensures
        find_top_line(ls, k) == i,
    decreases i,
{
    if i > 0 {
        lemma_find_first(ls.drop_first(), k, i - 1);
    }
}

/// When no line hits the pattern, the finder answers the line count.
proof fn lemma_find_none(ls: Seq<Seq<char>>, k: Seq<char>)
    requires
        forall|j: int| 0 <= j < ls.len() ==> !starts_with(ls[j], top_pat(k)),
    ensures
        find_top_line(ls, k) == ls.len(),
    decreases ls.len(),
{
    if ls.len() > 0 {
        lemma_find_none(ls.drop_first(), k);
    }
}

/// Reads whether a blank line sits before top-level key `k`.
pub fn blank_before_top_exec(ls: &Vec<Vec<char>>, k: &str) -> (r: bool)
    ensures
        r == blank_before_top(ls.deep_view(), k@),
{
    let j = find_top_line_exec(ls, k);
    if 0 < j && j < ls.len() {
        line_is_blank(&ls[j - 1])
    } else {
        false
    }
}

/// Reads whether a blank line sits before child `c` of field `f`.
pub fn blank_before_child_exec(ls: &Vec<Vec<char>>, f: &str, c: &str) -> (r: bool)
    ensures
        r == blank_before_child(ls.deep_view(), f@, c@),
{
    let j = find_top_line_exec(ls, f);
    if j >= ls.len() {
        return false;
    }
    // Walk to the end of the field's block.
    let mut e: usize = j + 1;
    while e < ls.len() && !is_block_boundary(&ls[e])
        invariant
            j + 1 <= e <= ls@.len(),
            ls.deep_view().len() == ls@.len(),
            forall|m: int|
                j + 1 <= m < e ==> !(is_top_start(ls.deep_view()[m]) || is_doc_close(
                    ls.deep_view()[m],
                )),
        decreases ls@.len() - e,
    {
        e = e + 1;
    }
    proof {
        lemma_block_end(ls.deep_view(), j + 1, e as int);
    }
    // Look for the child's line inside the block.
    let pat = sub_pat_chars(c);
    let mut m: usize = j + 1;
    while m < e && !starts_with_exec(&ls[m], &pat)
        invariant
            j + 1 <= m <= e <= ls@.len(),
            pat@ == sub_pat(c@),
            ls.deep_view().len() == ls@.len(),
            forall|x: int| j + 1 <= x < m ==> !starts_with(ls.deep_view()[x], sub_pat(c@)),
        decreases e - m,
    {
        m = m + 1;
    }
    proof {
        lemma_sub_find(ls.deep_view(), j + 1, m as int, e as int, c@);
    }
    if m < e {
        line_is_blank(&ls[m - 1])
    } else {
        false
    }
}

/// Whether a line ends a top-level field's block: the next top-level
/// entry line or the document closer.
fn is_block_boundary(l: &Vec<char>) -> (r: bool)
    ensures
        r == (is_top_start(l@) || is_doc_close(l@)),
{
    let top3 = three_quote_pat();
    if starts_with_exec(l, &top3) {
        true
    } else {
        l.len() > 0 && l[0] == '}'
    }
}

/// The bare prefix of any top-level entry line.
fn three_quote_pat() -> (v: Vec<char>)
    ensures
        v@ == seq![' ', ' ', '"'],
{
    let mut v: Vec<char> = Vec::new();
    v.push(' ');
    v.push(' ');
    v.push('"');
    proof {
        assert(v@ =~= seq![' ', ' ', '"']);
    }
    v
}

proof fn lemma_block_end(ls: Seq<Seq<char>>, lo: int, e: int)
    requires
        0 <= lo <= e <= ls.len(),
        forall|m: int| lo <= m < e ==> !(is_top_start(ls[m]) || is_doc_close(ls[m])),
        e < ls.len() ==> is_top_start(ls[e]) || is_doc_close(ls[e]),
    ensures
        find_block_end(ls, lo) == e,
    decreases e - lo,
{
    if lo < e {
        lemma_block_end(ls, lo + 1, e);
    }
}

proof fn lemma_sub_find(ls: Seq<Seq<char>>, lo: int, m: int, hi: int, c: Seq<char>)
    requires
        0 <= lo <= m <= hi <= ls.len(),
        forall|x: int| lo <= x < m ==> !starts_with(ls[x], sub_pat(c)),
        m < hi ==> starts_with(ls[m], sub_pat(c)),
    ensures
        find_sub_line(ls, lo, hi, c) == m,
    decreases m - lo,
{
    if lo < m {
        lemma_sub_find(ls, lo + 1, m, hi, c);
    }
}

} // verus!
