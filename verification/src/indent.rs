//! Indentation of a text by tabs, line by line.

use vstd::prelude::*;
use crate::chars::{line_ending_at, line_ending_len, push_char, to_chars};

verus! {

/// The first index from `i` on at which a line ends, or the length of `s`.
pub open spec fn line_end(s: Seq<char>, i: int) -> int
    decreases s.len() - i,
{
    if 0 <= i < s.len() && line_ending_len(s, i) == 0 {
        line_end(s, i + 1)
    } else {
        i
    }
}

/// A line ends inside the sequence, not before its start.
pub proof fn lemma_line_end_bounds(s: Seq<char>, i: int)
    requires
        0 <= i <= s.len(),
    ensures
        i <= line_end(s, i) <= s.len(),
        line_end(s, i) + line_ending_len(s, line_end(s, i)) <= s.len(),
        line_end(s, i) < s.len() ==> line_ending_len(s, line_end(s, i)) > 0,
    decreases s.len() - i,
{
    if i < s.len() && line_ending_len(s, i) == 0 {
        lemma_line_end_bounds(s, i + 1);
    }
}

/// `s[i..end]` without its first `amount` tabs.
pub open spec fn tabs_removed(s: Seq<char>, i: int, end: int, amount: nat) -> Seq<char>
    decreases end - i,
{
    if !(0 <= i < end <= s.len()) {
        Seq::empty()
    } else if s[i] == '\t' && amount > 0 {
        tabs_removed(s, i + 1, end, (amount - 1) as nat)
    } else {
        seq![s[i]] + tabs_removed(s, i + 1, end, amount)
    }
}

/// The lines of `s[i..]`, each without its first `amount` tabs and each with
/// a line feed behind it. A last line needs no line ending to count.
pub open spec fn unindented_from(s: Seq<char>, i: int, amount: nat) -> Seq<char>
    decreases s.len() - i,
{
    if !(0 <= i < s.len()) {
        Seq::empty()
    } else {
        let end = line_end(s, i);
        proof {
            lemma_line_end_bounds(s, i);
        }
        tabs_removed(s, i, end, amount) + seq!['\n'] + unindented_from(
            s,
            end + line_ending_len(s, end),
            amount,
        )
    }
}

/// The lines of `s`, each without its first `amount` tabs and each with a
/// line feed behind it.
pub open spec fn unindented(s: Seq<char>, amount: nat) -> Seq<char> {
    unindented_from(s, 0, amount)
}

/// The number of tabs in `s[i..end]`.
pub open spec fn tab_count(s: Seq<char>, i: int, end: int) -> nat
    decreases end - i,
{
    if !(0 <= i < end <= s.len()) {
        0
    } else if s[i] == '\t' {
        1 + tab_count(s, i + 1, end)
    } else {
        tab_count(s, i + 1, end)
    }
}

/// The least number of tabs in a line of `s[i..]`, or `least` where that is
/// less.
pub open spec fn least_indent_from(s: Seq<char>, i: int, least: nat) -> nat
    decreases s.len() - i,
{
    if !(0 <= i < s.len()) {
        least
    } else {
        let end = line_end(s, i);
        proof {
            lemma_line_end_bounds(s, i);
        }
        let here = tab_count(s, i, end);
        least_indent_from(
            s,
            end + line_ending_len(s, end),
            if here < least {
                here
            } else {
                least
            },
        )
    }
}

/// The greatest indent that `base_indent` reports.
pub const INDENT_LIMIT: u32 = 100;

/// The least number of tabs in a line of `s`, and `INDENT_LIMIT` at most.
pub open spec fn least_indent(s: Seq<char>) -> nat {
    least_indent_from(s, 0, INDENT_LIMIT as nat)
}

/// The end of the line that starts at `v[i]`.
fn find_line_end(v: &Vec<char>, i: usize) -> (end: usize)
    requires
        i <= v.len(),
    ensures
        end == line_end(v@, i as int),
        i <= end <= v.len(),
{
    let mut end: usize = i;
    while end < v.len() && line_ending_at(v, end) == 0
        invariant
            i <= end <= v.len(),
            line_end(v@, end as int) == line_end(v@, i as int),
        decreases v.len() - end,
    {
        end += 1;
    }
    end
}

/// Removes the first `amount` tabs of every line of `text`, and ends every
/// line with a line feed.
pub fn remove_indent(text: &str, amount: u32) -> (out: String)
    ensures
        out@ == unindented(text@, amount as nat),
{
    let v = to_chars(text);
    let mut out = String::new();
    let mut i: usize = 0;
    while i < v.len()
        invariant
            i <= v.len(),
            v@ == text@,
            out@ + unindented_from(v@, i as int, amount as nat) == unindented(text@, amount as nat),
        decreases v.len() - i,
    {
        let ghost before = out@;
        let end = find_line_end(&v, i);
        let mut to_remove: u32 = amount;
        let mut k: usize = i;
        while k < end
            invariant
                i <= k <= end <= v.len(),
                out@ + tabs_removed(v@, k as int, end as int, to_remove as nat) == before
                    + tabs_removed(v@, i as int, end as int, amount as nat),
            decreases end - k,
        {
            let ghost sofar = out@;
            if v[k] == '\t' && to_remove > 0 {
                to_remove -= 1;
            } else {
                push_char(&mut out, v[k]);
                proof {
                    let rest = tabs_removed(v@, k + 1, end as int, to_remove as nat);
                    assert(out@ + rest =~= sofar + (seq![v@[k as int]] + rest));
                }
            }
            k += 1;
        }
        push_char(&mut out, '\n');
        proof {
            lemma_line_end_bounds(v@, i as int);
            let line = tabs_removed(v@, i as int, end as int, amount as nat);
            let next = end + line_ending_len(v@, end as int);
            let rest = unindented_from(v@, next, amount as nat);
            assert(out@ =~= before + line + seq!['\n']);
            assert(out@ + rest =~= before + (line + seq!['\n'] + rest));
        }
        i = end + line_ending_at(&v, end);
    }
    proof {
        assert(out@ + Seq::<char>::empty() =~= out@);
    }
    out
}

/// The least number of tabs in a line of `text`, and `INDENT_LIMIT` at most.
pub fn base_indent(text: &str) -> (indent: u32)
    ensures
        indent == least_indent(text@),
        indent <= INDENT_LIMIT,
{
    let v = to_chars(text);
    let mut least: u32 = INDENT_LIMIT;
    let mut i: usize = 0;
    while i < v.len()
        invariant
            i <= v.len(),
            v@ == text@,
            least <= INDENT_LIMIT,
            least_indent_from(v@, i as int, least as nat) == least_indent(text@),
        decreases v.len() - i,
    {
        let end = find_line_end(&v, i);
        let mut here: u32 = 0;
        let mut k: usize = i;
        while k < end && here < least
            invariant
                i <= k <= end <= v.len(),
                here <= least <= INDENT_LIMIT,
                here + tab_count(v@, k as int, end as int) == tab_count(v@, i as int, end as int),
            decreases end - k,
        {
            if v[k] == '\t' {
                here += 1;
            }
            k += 1;
        }
        proof {
            lemma_line_end_bounds(v@, i as int);
        }
        if here < least {
            least = here;
        }
        i = end + line_ending_at(&v, end);
    }
    least
}

/// Removes from every line of `text` as many tabs as its least indented line
/// has, so that the least indent becomes 0.
pub fn squash_indent(text: &str) -> (out: String)
    ensures
        out@ == unindented(text@, least_indent(text@)),
{
    remove_indent(text, base_indent(text))
}

} // verus!
