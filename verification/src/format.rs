//! Inline text: runs of line endings and tabs collapse to a single space.

use vstd::prelude::*;
use crate::chars::{line_ending_at, line_ending_len, push_char, to_chars};

verus! {

/// The length of the piece of a gap that starts at `s[i]`: a tab or a line
/// ending. It is 0 where neither starts.
pub open spec fn gap_step(s: Seq<char>, i: int) -> int {
    if 0 <= i < s.len() && s[i] == '\t' {
        1
    } else {
        line_ending_len(s, i)
    }
}

/// `s[i..]` with every maximal run of tabs and line endings replaced by one
/// space: a piece of a run gives nothing where another piece follows it, and
/// a space where the run ends.
pub open spec fn formatted_from(s: Seq<char>, i: int) -> Seq<char>
    decreases s.len() - i,
{
    if !(0 <= i < s.len()) {
        Seq::empty()
    } else if gap_step(s, i) > 0 {
        let next = i + gap_step(s, i);
        if gap_step(s, next) > 0 {
            formatted_from(s, next)
        } else {
            seq![' '] + formatted_from(s, next)
        }
    } else {
        seq![s[i]] + formatted_from(s, i + 1)
    }
}

/// `s` with every maximal run of tabs and line endings replaced by one space.
pub open spec fn formatted(s: Seq<char>) -> Seq<char> {
    formatted_from(s, 0)
}

/// The length of the piece of a gap that starts at `v[i]`.
fn gap_step_at(v: &Vec<char>, i: usize) -> (n: usize)
    ensures
        n == gap_step(v@, i as int),
{
    if i < v.len() && v[i] == '\t' {
        1
    } else {
        line_ending_at(v, i)
    }
}

/// Collapses every maximal run of line endings and tabs in `v` into a single
/// space.
pub fn format_chars(v: &Vec<char>) -> (out: String)
    ensures
        out@ == formatted(v@),
{
    let mut out = String::new();
    let mut i: usize = 0;
    while i < v.len()
        invariant
            i <= v.len(),
            out@ + formatted_from(v@, i as int) == formatted(v@),
        decreases v.len() - i,
    {
        let ghost before = out@;
        let step = gap_step_at(v, i);
        if step > 0 {
            if gap_step_at(v, i + step) == 0 {
                push_char(&mut out, ' ');
                proof {
                    assert(out@ + formatted_from(v@, i + step) =~= before + (seq![' ']
                        + formatted_from(v@, i + step)));
                }
            }
            i += step;
        } else {
            push_char(&mut out, v[i]);
            proof {
                assert(out@ + formatted_from(v@, i + 1) =~= before + (seq![v@[i as int]]
                    + formatted_from(v@, i + 1)));
            }
            i += 1;
        }
    }
    proof {
        assert(out@ + Seq::<char>::empty() =~= out@);
    }
    out
}

/// Replaces every maximal run of line endings and tabs with a single space.
pub fn format_text(s: &str) -> (out: String)
    ensures
        out@ == formatted(s@),
{
    let v = to_chars(s);
    format_chars(&v)
}

} // verus!
