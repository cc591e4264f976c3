//! The plain text of a document, read again: where the document holds
//! headings, paragraphs and flat lists whose texts the parser leaves as they
//! are, parsing the plain text gives the document back.

use vstd::prelude::*;
use crate::chars::{line_ending_len, trimmed};
use crate::compiler::{
    ordinal, plain_block, plain_blocks, plain_document, plain_items, plain_list, plain_text,
    styled_from, CompileError,
};
use crate::format::{formatted, formatted_from, gap_step};
use crate::list::{
    content_end, enforced_start_at, item_at, item_break_at, item_extent, item_of, item_start_at,
    items_at, lemma_no_sublist, list_at, tabs_at, ListItemView, ListView,
};
use crate::numeral::{decimal, digit_char};
use crate::parse::{
    blank_line_len, block_at, blocks_at, document_from, document_of, first_kept, is_blank,
    is_blank_char, last_kept, lemma_part_end, levels_follow, marker_end, part_end, parts_from,
    parts_of, title_of, BlockView, ParseError,
};
use crate::chars::is_digit;
use crate::token::{
    compatible, digits_end, enumerated_token, enumerator_at, token_at, unnumbered_token,
    ListTokenView, TokenEnumerator,
};

verus! {

/// Whether `text` holds no line feed and no carriage return.
pub open spec fn on_one_line(text: Seq<char>) -> bool {
    forall|k: int| 0 <= k < text.len() ==> text[k] != '\n' && text[k] != '\r'
}

/// Whether `text` holds no carriage return, and no line feed but with a
/// character other than a line feed behind it: no blank line stands in it,
/// and no line ends at its end.
pub open spec fn no_blank_line(text: Seq<char>) -> bool {
    forall|k: int|
        0 <= k < text.len() ==> #[trigger] text[k] != '\r' && (text[k] == '\n' ==> k + 1
            < text.len() && text[k + 1] != '\n')
}

/// Whether `text` holds neither a tab nor an asterisk.
pub open spec fn is_plain(text: Seq<char>) -> bool {
    forall|k: int| 0 <= k < text.len() ==> text[k] != '\t' && text[k] != '*'
}

/// The source text of `block` as the plain text compiler writes it, without
/// the blank line behind it.
pub open spec fn body(block: BlockView) -> Seq<char> {
    match block {
        BlockView::Heading(level, title) => Seq::new(level, |i: int| '#') + seq![' '] + title,
        BlockView::Paragraph(text) => text,
        BlockView::List(list) => tail_of(list, 0),
    }
}

/// Whether `block` is a block that the parser reads from its plain text as it
/// is: a heading of level 1 at least, whose title lies on one line and has no
/// whitespace at its ends; or a paragraph that lies on one line, holds no tab
/// and no asterisk, is not blank, and starts with neither a heading marker nor
/// a list token; or a list that reads back.
pub open spec fn reads_back(block: BlockView) -> bool {
    match block {
        BlockView::Heading(level, title) => level >= 1 && on_one_line(title) && trimmed(title)
            == title,
        BlockView::Paragraph(text) => on_one_line(text) && is_plain(text) && !is_blank(text)
            && text[0] != '#' && token_at(text, 0) is None,
        BlockView::List(list) => list_reads_back(list),
    }
}

/// Whether every block of `document` reads back, and no heading skips a
/// level.
pub open spec fn document_reads_back(document: Seq<BlockView>) -> bool {
    &&& levels_follow(document, 0, 0)
    &&& forall|k: int| 0 <= k < document.len() ==> reads_back(#[trigger] document[k])
}

/// A text without asterisks has no bold spans to mark.
proof fn lemma_plain_text_same(text: Seq<char>, i: int)
    requires
        0 <= i <= text.len(),
        is_plain(text),
    ensures
        styled_from(text, i, false, Seq::empty(), Seq::empty()) == text.subrange(
            i,
            text.len() as int,
        ),
    decreases text.len() - i,
{
    if i < text.len() {
        lemma_plain_text_same(text, i + 1);
        assert(seq![text[i]] + text.subrange(i + 1, text.len() as int) =~= text.subrange(
            i,
            text.len() as int,
        ));
    } else {
        assert(text.subrange(i, text.len() as int) =~= Seq::<char>::empty());
    }
}

/// A text on one line without tabs has no gaps to collapse.
proof fn lemma_formatted_same(text: Seq<char>, i: int)
    requires
        0 <= i <= text.len(),
        is_plain(text),
        on_one_line(text),
    ensures
        formatted_from(text, i) == text.subrange(i, text.len() as int),
    decreases text.len() - i,
{
    if i < text.len() {
        assert(gap_step(text, i) == 0);
        lemma_formatted_same(text, i + 1);
        assert(seq![text[i]] + text.subrange(i + 1, text.len() as int) =~= text.subrange(
            i,
            text.len() as int,
        ));
    } else {
        assert(text.subrange(i, text.len() as int) =~= Seq::<char>::empty());
    }
}

/// Behind `a`, the line endings of `a + r` are those of `r`.
proof fn lemma_line_ending_behind(a: Seq<char>, r: Seq<char>, i: int)
    requires
        0 <= i,
    ensures
        line_ending_len(a + r, a.len() + i) == line_ending_len(r, i),
{
    if i < r.len() {
        assert((a + r)[a.len() + i] == r[i]);
    }
    if i + 1 < r.len() {
        assert((a + r)[a.len() + i + 1] == r[i + 1]);
    }
}

/// Behind `a`, the blank lines of `a + r` are those of `r`.
proof fn lemma_blank_line_behind(a: Seq<char>, r: Seq<char>, i: int)
    requires
        0 <= i,
    ensures
        blank_line_len(a + r, a.len() + i) == blank_line_len(r, i),
{
    lemma_line_ending_behind(a, r, i);
    lemma_line_ending_behind(a, r, i + line_ending_len(r, i));
}

/// Behind `a`, the parts of `a + r` end where those of `r` end.
proof fn lemma_part_end_behind(a: Seq<char>, r: Seq<char>, i: int)
    requires
        0 <= i <= r.len(),
    ensures
        part_end(a + r, a.len() + i) == a.len() + part_end(r, i),
    decreases r.len() - i,
{
    lemma_blank_line_behind(a, r, i);
    if i < r.len() && blank_line_len(r, i) == 0 {
        lemma_part_end_behind(a, r, i + 1);
    }
}

/// Behind `a`, the parts of `a + r` are those of `r`.
proof fn lemma_parts_from_behind(a: Seq<char>, r: Seq<char>, i: int)
    requires
        0 <= i <= r.len(),
    ensures
        parts_from(a + r, a.len() + i) == parts_from(r, i),
    decreases r.len() - i,
{
    let s = a + r;
    let end = part_end(r, i);
    lemma_part_end(r, i);
    lemma_part_end_behind(a, r, i);
    if end < r.len() {
        lemma_blank_line_behind(a, r, end);
        lemma_parts_from_behind(a, r, end + blank_line_len(r, end));
        assert(s.subrange(a.len() + i, a.len() + end) =~= r.subrange(i, end));
    } else {
        assert(s.subrange(a.len() + i, s.len() as int) =~= r.subrange(i, r.len() as int));
    }
}

/// A text without a blank line, with a blank line behind it, is a part of its
/// own.
proof fn lemma_part_end_at_blank_line(p: Seq<char>, rest: Seq<char>, k: int)
    requires
        no_blank_line(p),
        0 <= k <= p.len(),
    ensures
        part_end(p + seq!['\n', '\n'] + rest, k) == p.len(),
        blank_line_len(p + seq!['\n', '\n'] + rest, p.len() as int) == 2,
    decreases p.len() - k,
{
    let s = p + seq!['\n', '\n'] + rest;
    assert(s[p.len() as int] == '\n');
    assert(s[p.len() as int + 1] == '\n');
    if k < p.len() {
        assert(s[k] == p[k]);
        if p[k] == '\n' {
            assert(s[k + 1] == p[k + 1]);
            assert(p[k + 1] != '\r');
            assert(line_ending_len(s, k + 1) == 0);
        } else {
            assert(line_ending_len(s, k) == 0);
        }
        assert(blank_line_len(s, k) == 0);
        lemma_part_end_at_blank_line(p, rest, k + 1);
    }
}

/// The parts of a text without a blank line, a blank line and a rest are the
/// text and the parts of the rest.
proof fn lemma_parts_behind_body(p: Seq<char>, rest: Seq<char>)
    requires
        no_blank_line(p),
    ensures
        parts_from(p + seq!['\n', '\n'] + rest, 0) == seq![p] + parts_from(rest, 0),
{
    let head = p + seq!['\n', '\n'];
    let s = head + rest;
    lemma_part_end_at_blank_line(p, rest, 0);
    lemma_parts_from_behind(head, rest, 0);
    assert(s.subrange(0, p.len() as int) =~= p);
}

/// A decimal numeral is a run of at least one digit.
proof fn lemma_decimal_digits(n: nat)
    ensures
        decimal(n).len() >= 1,
        forall|k: int| 0 <= k < decimal(n).len() ==> is_digit(#[trigger] decimal(n)[k]),
    decreases n,
{
    if n >= 10 {
        lemma_decimal_digits(n / 10);
        assert(is_digit(digit_char(n % 10)));
    } else {
        assert(is_digit(digit_char(n)));
    }
}

/// A run of digits that starts at `s[from]` ends at the first character that
/// is no digit.
proof fn lemma_digits_end(s: Seq<char>, from: int, to: int)
    requires
        0 <= from <= to < s.len(),
        forall|k: int| from <= k < to ==> is_digit(#[trigger] s[k]),
        !is_digit(s[to]),
    ensures
        digits_end(s, from) == to,
    decreases to - from,
{
    if from < to {
        assert(is_digit(s[from]));
        lemma_digits_end(s, from + 1, to);
    }
}

/// The marker that the plain text compiler writes before the item at position
/// `index` of a list marked with `token`, where the list is unnumbered or
/// numbered by decimal numbers.
pub open spec fn mark_of(token: ListTokenView, index: nat) -> Seq<char> {
    if token.enumerator is None {
        seq!['-']
    } else {
        decimal(index).push('.')
    }
}

/// Whether a list marked with `token` is unnumbered or numbered by decimal
/// numbers.
pub open spec fn is_plainly_marked(token: ListTokenView) -> bool {
    token.enumerator is None || token.enumerator == Some(TokenEnumerator::Numerical)
}

/// The token that the parser reads where the plain text compiler wrote the
/// markers of a list marked with `token`: a dash for an unnumbered list, a
/// dot behind the numbers of a numbered one.
pub open spec fn written_token(token: ListTokenView) -> ListTokenView {
    if token.enumerator is None {
        unnumbered_token('-')
    } else {
        enumerated_token(TokenEnumerator::Numerical, '.')
    }
}

/// `list` with the token that the parser reads from its plain text.
pub open spec fn written_list(list: ListView) -> ListView {
    ListView { items: list.items, token: written_token(list.token) }
}

/// `block` as the parser reads it from its plain text: a list has the token
/// that is read there, and a heading or a paragraph is as it was.
pub open spec fn written_block(block: BlockView) -> BlockView {
    match block {
        BlockView::List(list) => BlockView::List(written_list(list)),
        other => other,
    }
}

/// `document` as the parser reads it from its plain text: the same blocks
/// with the same texts, each list with the token that is read there.
pub open spec fn written(document: Seq<BlockView>) -> Seq<BlockView> {
    Seq::new(document.len(), |k: int| written_block(document[k]))
}

/// Where the marker of an item stands in a text, with a character behind it,
/// the recognizer finds the written token there.
proof fn lemma_mark_is_token(s: Seq<char>, at: int, token: ListTokenView, index: nat)
    requires
        is_plainly_marked(token),
        0 <= at,
        at + mark_of(token, index).len() < s.len(),
        forall|k: int|
            0 <= k < mark_of(token, index).len() ==> #[trigger] s[at + k] == mark_of(
                token,
                index,
            )[k],
    ensures
        token_at(s, at) == Some((written_token(token), at + mark_of(token, index).len())),
{
    let mark = mark_of(token, index);
    if token.enumerator is None {
        assert(s[at + 0] == mark[0]);
        assert(s[at] == '-');
    } else {
        let digits = decimal(index);
        lemma_decimal_digits(index);
        let to = at + digits.len();
        assert forall|k: int| at <= k < to implies is_digit(#[trigger] s[k]) by {
            assert(s[at + (k - at)] == mark[k - at]);
            assert(mark[k - at] == digits[k - at]);
        }
        assert(s[at + digits.len()] == mark[digits.len() as int]);
        assert(s[to] == '.');
        lemma_digits_end(s, at, to);
        assert(is_digit(s[at]));
        assert(enumerator_at(s, at) == Some((TokenEnumerator::Numerical, to)));
        assert(mark.len() == digits.len() + 1);
    }
}

/// Whether `item` is an item that the parser reads from its plain text as it
/// is: nothing is nested under it, and its text lies on one line, holds no tab
/// and no asterisk, and is what trimming leaves of it behind a space.
pub open spec fn item_reads_back(item: ListItemView) -> bool {
    &&& item.list is None
    &&& on_one_line(item.text)
    &&& is_plain(item.text)
    &&& trimmed(seq![' '] + item.text) == item.text
}

/// The line that the plain text compiler writes for the item `i` of `list`,
/// without the line feed behind it.
pub open spec fn line_of(list: ListView, i: int) -> Seq<char> {
    mark_of(list.token, (i + 1) as nat) + seq![' '] + list.items[i].text
}

/// Where no item breaks from `from` to `to`, and one breaks at `to` or the
/// text ends there, the content that holds `s[from]` ends at `to`.
proof fn lemma_content_end(
    s: Seq<char>,
    from: int,
    to: int,
    depth: nat,
    token: ListTokenView,
)
    requires
        0 <= from <= to <= s.len(),
        forall|k: int| from <= k < to ==> !#[trigger] item_break_at(s, k, depth, token),
        to == s.len() || item_break_at(s, to, depth, token),
    ensures
        content_end(s, from, depth, token) == to,
    decreases to - from,
{
    if from < to {
        assert(!item_break_at(s, from, depth, token));
        lemma_content_end(s, from + 1, to, depth, token);
    }
}

/// A line that the plain text compiler wrote for an item, with the end of the
/// text or the start of the next item behind it, is read as that item.
proof fn lemma_item_of_line(s: Seq<char>, at: int, list: ListView, i: int)
    requires
        is_plainly_marked(list.token),
        0 <= i < list.items.len(),
        item_reads_back(list.items[i]),
        0 <= at,
        at + line_of(list, i).len() <= s.len(),
        s.subrange(at, at + line_of(list, i).len()) == line_of(list, i),
        at + line_of(list, i).len() == s.len() || (s[at + line_of(list, i).len()] == '\n'
            && enforced_start_at(s, at + line_of(list, i).len() + 1, 0, written_token(list.token)) is Some),
    ensures
        item_at(s, at, 0, written_token(list.token)) == Some(
            (
                list.items[i],
                if at + line_of(list, i).len() == s.len() {
                    s.len() as int
                } else {
                    at + line_of(list, i).len() + 1
                },
            ),
        ),
        item_extent(s, at, 0, written_token(list.token)) is Some,
        item_extent(s, at, 0, written_token(list.token)).unwrap().2 == item_at(
            s,
            at,
            0,
            written_token(list.token),
        ).unwrap().1,
{
    let token = list.token;
    let read = written_token(token);
    let line = line_of(list, i);
    let mark = mark_of(token, (i + 1) as nat);
    let text = list.items[i].text;
    let end = at + line.len();
    let start = at + mark.len();
    lemma_decimal_digits((i + 1) as nat);
    assert(line.len() == mark.len() + 1 + text.len());
    assert forall|k: int| 0 <= k < line.len() implies s[at + k] == line[k] by {
        assert(s.subrange(at, end)[k] == s[at + k]);
    }
    assert forall|k: int| 0 <= k < mark.len() implies #[trigger] s[at + k] == mark[k] by {
        assert(line[k] == mark[k]);
    }
    lemma_mark_is_token(s, at, token, (i + 1) as nat);
    assert(tabs_at(s, at, 0));
    assert(item_start_at(s, at, 0) == Some((read, start)));
    assert(compatible(read.enumerator, read.enumerator));
    assert(enforced_start_at(s, at, 0, read) == Some((read, start)));
    assert forall|k: int| start <= k < end implies !#[trigger] item_break_at(s, k, 0, read) by {
        assert(s[at + (k - at)] == line[k - at]);
        if k > start {
            assert(line[k - at] == text[k - start - 1]);
        } else {
            assert(line[k - at] == ' ');
        }
        assert(line_ending_len(s, k) == 0);
    }
    if end < s.len() {
        assert(line_ending_len(s, end) == 1);
        assert(item_break_at(s, end, 0, read));
    }
    lemma_content_end(s, start, end, 0, read);
    assert forall|j: int| 0 <= j < end - start implies s.subrange(start, end)[j] == (seq![' ']
        + text)[j] by {
        assert(s[at + (mark.len() + j)] == line[mark.len() + j]);
    }
    assert(s.subrange(start, end) =~= seq![' '] + text);
    assert(trimmed(s.subrange(start, end)) == text);
    assert forall|k: int| 0 <= k < text.len() implies item_start_at(text, k, 1) is None by {
        if tabs_at(text, k, 1) {
            assert(text[k] == '\t');
        }
    }
    lemma_no_sublist(text, 0, 1);
    lemma_formatted_same(text, 0);
    assert(text.subrange(0, text.len() as int) =~= text);
    assert(item_of(text, 0) == Some(ListItemView { text: text, list: None }));
    assert(list.items[i] == (ListItemView { text: text, list: None }));
}

/// The lines that the plain text compiler writes for the items of `list` from
/// the item `i` on, with a line feed between them and none behind the last.
pub open spec fn tail_of(list: ListView, i: int) -> Seq<char>
    decreases list.items.len() - i,
{
    if i + 1 >= list.items.len() {
        line_of(list, i)
    } else {
        line_of(list, i) + seq!['\n'] + tail_of(list, i + 1)
    }
}

/// Whether `list` is a list that the parser reads from its plain text with
/// the items that it has: it is unnumbered or numbered by decimal numbers, it
/// has an item, and each of its items reads back.
pub open spec fn list_reads_back(list: ListView) -> bool {
    &&& is_plainly_marked(list.token)
    &&& list.items.len() >= 1
    &&& forall|i: int| 0 <= i < list.items.len() ==> item_reads_back(#[trigger] list.items[i])
}

/// The lines of a list start with the line of their first item.
proof fn lemma_tail_starts_with_line(list: ListView, i: int)
    requires
        0 <= i < list.items.len(),
    ensures
        line_of(list, i).len() <= tail_of(list, i).len(),
        tail_of(list, i).subrange(0, line_of(list, i).len() as int) == line_of(list, i),
        i + 1 < list.items.len() ==> tail_of(list, i) == line_of(list, i) + seq!['\n'] + tail_of(
            list,
            i + 1,
        ),
        i + 1 >= list.items.len() ==> tail_of(list, i) == line_of(list, i),
        line_of(list, i).len() >= mark_of(list.token, (i + 1) as nat).len() + 1,
        mark_of(list.token, (i + 1) as nat).len() >= 1,
{
    let line = line_of(list, i);
    lemma_decimal_digits((i + 1) as nat);
    assert(tail_of(list, i).subrange(0, line.len() as int) =~= line);
}

/// The lines of a list that reads back hold no blank line, start with a
/// character of a marker, and are not blank.
proof fn lemma_tail_shape(list: ListView, i: int)
    requires
        list_reads_back(list),
        0 <= i < list.items.len(),
    ensures
        no_blank_line(tail_of(list, i)),
        tail_of(list, i).len() > 0,
        tail_of(list, i)[0] == '-' || is_digit(tail_of(list, i)[0]),
    decreases list.items.len() - i,
{
    let line = line_of(list, i);
    let mark = mark_of(list.token, (i + 1) as nat);
    let text = list.items[i].text;
    let tail = tail_of(list, i);
    lemma_decimal_digits((i + 1) as nat);
    lemma_tail_starts_with_line(list, i);
    assert(item_reads_back(list.items[i]));
    assert(line[0] == mark[0]);
    if list.token.enumerator is Some {
        assert(mark[0] == decimal((i + 1) as nat)[0]);
    }
    assert forall|k: int| 0 <= k < line.len() implies line[k] != '\n' && line[k] != '\r' by {
        if k < mark.len() {
            assert(line[k] == mark[k]);
            if list.token.enumerator is Some && k < mark.len() - 1 {
                assert(mark[k] == decimal((i + 1) as nat)[k]);
                assert(is_digit(decimal((i + 1) as nat)[k]));
            }
        } else if k > mark.len() {
            assert(line[k] == text[k - mark.len() - 1]);
        }
    }
    if i + 1 < list.items.len() {
        lemma_tail_shape(list, i + 1);
        let rest = tail_of(list, i + 1);
        assert forall|k: int| 0 <= k < tail.len() implies #[trigger] tail[k] != '\r' && (tail[k]
            == '\n' ==> k + 1 < tail.len() && tail[k + 1] != '\n') by {
            if k < line.len() {
                assert(tail[k] == line[k]);
            } else if k == line.len() {
                assert(tail[k + 1] == rest[0]);
            } else {
                let j = k - line.len() - 1;
                assert(tail[k] == rest[j]);
                if rest[j] == '\n' {
                    assert(tail[k + 1] == rest[j + 1]);
                }
            }
        }
        assert(tail[0] == line[0]);
    }
}

/// Behind any text `a`, the lines of a list from the item `i` on start with
/// the line of that item.
proof fn lemma_line_in_text(list: ListView, i: int, a: Seq<char>)
    requires
        0 <= i < list.items.len(),
    ensures
        a.len() as int + line_of(list, i).len() <= (a + tail_of(list, i)).len(),
        (a + tail_of(list, i)).subrange(
            a.len() as int,
            a.len() as int + line_of(list, i).len(),
        ) == line_of(list, i),
{
    let tail = tail_of(list, i);
    let s = a + tail;
    let line = line_of(list, i);
    lemma_tail_starts_with_line(list, i);
    assert forall|k: int| 0 <= k < line.len() implies s.subrange(
        a.len() as int,
        a.len() as int + line.len(),
    )[k] == line[k] by {
        assert(s[a.len() as int + k] == tail[k]);
        assert(tail.subrange(0, line.len() as int)[k] == tail[k]);
    }
    assert(s.subrange(a.len() as int, a.len() as int + line.len()) =~= line);
}

/// Behind the line of an item that is not the last of its list stands a line
/// feed, and behind that the next item starts.
proof fn lemma_next_item_starts(list: ListView, i: int, a: Seq<char>)
    requires
        list_reads_back(list),
        0 <= i,
        i + 1 < list.items.len(),
    ensures
        a.len() as int + line_of(list, i).len() + 1 < (a + tail_of(list, i)).len(),
        (a + tail_of(list, i))[a.len() as int + line_of(list, i).len()] == '\n',
        enforced_start_at(
            a + tail_of(list, i),
            a.len() as int + line_of(list, i).len() + 1,
            0,
            written_token(list.token),
        ) is Some,
{
    let token = list.token;
    let s = a + tail_of(list, i);
    let line = line_of(list, i);
    let rest = tail_of(list, i + 1);
    let next_mark = mark_of(token, (i + 2) as nat);
    let next_line = line_of(list, i + 1);
    let next = a.len() as int + line.len() + 1;
    lemma_tail_starts_with_line(list, i);
    lemma_tail_starts_with_line(list, i + 1);
    assert(s[a.len() as int + line.len()] == '\n');
    assert forall|k: int| 0 <= k < next_mark.len() implies #[trigger] s[next + k]
        == next_mark[k] by {
        assert(s[next + k] == rest[k]);
        assert(rest.subrange(0, next_line.len() as int)[k] == rest[k]);
        assert(next_line[k] == next_mark[k]);
    }
    lemma_mark_is_token(s, next, token, (i + 2) as nat);
    assert(tabs_at(s, next, 0));
    assert(item_start_at(s, next, 0) is Some);
}

/// Behind any text `a`, the first of the lines of a list from the item `i` on
/// is read as that item, up to the next line or the end of the text.
proof fn lemma_item_of_tail(list: ListView, i: int, a: Seq<char>)
    requires
        list_reads_back(list),
        0 <= i < list.items.len(),
    ensures
        item_extent(a + tail_of(list, i), a.len() as int, 0, written_token(list.token)) is Some,
        item_at(a + tail_of(list, i), a.len() as int, 0, written_token(list.token)) == Some(
            (
                list.items[i],
                if i + 1 < list.items.len() {
                    a.len() as int + line_of(list, i).len() + 1
                } else {
                    (a + tail_of(list, i)).len() as int
                },
            ),
        ),
        item_extent(a + tail_of(list, i), a.len() as int, 0, written_token(list.token)).unwrap().2 == item_at(
            a + tail_of(list, i),
            a.len() as int,
            0,
            written_token(list.token),
        ).unwrap().1,
{
    lemma_line_in_text(list, i, a);
    lemma_tail_starts_with_line(list, i);
    assert(item_reads_back(list.items[i]));
    if i + 1 < list.items.len() {
        lemma_next_item_starts(list, i, a);
    }
    lemma_item_of_line(a + tail_of(list, i), a.len() as int, list, i);
}

/// Where an item is read at `s[at]`, the items from there on are that item
/// and the items from behind it on.
proof fn lemma_items_at_step(s: Seq<char>, at: int, depth: nat, token: ListTokenView)
    requires
        item_extent(s, at, depth, token) is Some,
        item_at(s, at, depth, token) is Some,
        item_extent(s, at, depth, token).unwrap().2 == item_at(s, at, depth, token).unwrap().1,
    ensures
        items_at(s, at, depth, token) == (
            seq![item_at(s, at, depth, token).unwrap().0] + items_at(
                s,
                item_at(s, at, depth, token).unwrap().1,
                depth,
                token,
            ).0,
            items_at(s, item_at(s, at, depth, token).unwrap().1, depth, token).1,
        ),
{
}

/// No item is read at the end of a text.
proof fn lemma_items_at_end(s: Seq<char>, token: ListTokenView)
    ensures
        items_at(s, s.len() as int, 0, token) == (Seq::<ListItemView>::empty(), s.len() as int),
{
    assert(token_at(s, s.len() as int) is None);
    assert(item_extent(s, s.len() as int, 0, token) is None);
}

/// The lines of a list that reads back, from the item `i` on and behind any
/// text `a`, are read as the items of the list from the item `i` on.
proof fn lemma_items_of_tail(list: ListView, i: int, a: Seq<char>)
    requires
        list_reads_back(list),
        0 <= i < list.items.len(),
    ensures
        items_at(a + tail_of(list, i), a.len() as int, 0, written_token(list.token)) == (
            list.items.subrange(i, list.items.len() as int),
            (a + tail_of(list, i)).len() as int,
        ),
    decreases list.items.len() - i,
{
    let token = written_token(list.token);
    let m = list.items.len() as int;
    let s = a + tail_of(list, i);
    let at = a.len() as int;
    lemma_item_of_tail(list, i, a);
    lemma_items_at_step(s, at, 0, token);
    if i + 1 < m {
        let longer = a + line_of(list, i) + seq!['\n'];
        lemma_tail_starts_with_line(list, i);
        assert(s =~= longer + tail_of(list, i + 1));
        lemma_items_of_tail(list, i + 1, longer);
        assert(seq![list.items[i]] + list.items.subrange(i + 1, m) =~= list.items.subrange(i, m));
    } else {
        lemma_items_at_end(s, token);
        assert(seq![list.items[i]] + Seq::<ListItemView>::empty() =~= list.items.subrange(i, m));
    }
}

/// The lines of a list that reads back are read as that list, with the
/// written token.
proof fn lemma_list_of_tail(list: ListView)
    requires
        list_reads_back(list),
    ensures
        list_at(tail_of(list, 0), 0, 0) == Some(
            (written_list(list), tail_of(list, 0).len() as int),
        ),
{
    let tail = tail_of(list, 0);
    let mark = mark_of(list.token, 1);
    let line = line_of(list, 0);
    lemma_tail_starts_with_line(list, 0);
    assert forall|k: int| 0 <= k < mark.len() implies #[trigger] tail[0 + k] == mark[k] by {
        assert(tail.subrange(0, line.len() as int)[k] == tail[k]);
        assert(line[k] == mark[k]);
    }
    lemma_mark_is_token(tail, 0, list.token, 1);
    assert(tabs_at(tail, 0, 0));
    lemma_items_of_tail(list, 0, Seq::empty());
    assert(Seq::<char>::empty() + tail =~= tail);
    assert(list.items.subrange(0, list.items.len() as int) =~= list.items);
    assert(line_ending_len(tail, tail.len() as int) == 0);
}

/// One more item of a list that reads back adds its line to the plain text of
/// the list.
proof fn lemma_plain_items_line(list: ListView, n: nat)
    requires
        list_reads_back(list),
        1 <= n <= list.items.len(),
        plain_items(list, (n - 1) as nat, Seq::empty()) is Ok,
    ensures
        plain_items(list, n, Seq::empty()) == Ok::<Seq<char>, CompileError>(
            plain_items(list, (n - 1) as nat, Seq::empty()).unwrap() + line_of(list, n - 1)
                + seq!['\n'],
        ),
{
    let item = list.items[n - 1];
    assert(item_reads_back(item));
    lemma_plain_text_same(item.text, 0);
    assert(item.text.subrange(0, item.text.len() as int) =~= item.text);
    let head = plain_items(list, (n - 1) as nat, Seq::empty()).unwrap();
    let mark = mark_of(list.token, n);
    assert(ordinal(list.token.enumerator, n) == Ok::<Seq<char>, CompileError>(mark));
    let line = Seq::<char>::empty() + mark + seq![' '] + plain_text(item.text) + seq!['\n'];
    assert(head + line =~= head + line_of(list, n - 1) + seq!['\n']);
}

/// Every run of first items of a list that reads back has a plain text.
proof fn lemma_plain_items_ok(list: ListView, n: nat)
    requires
        list_reads_back(list),
        n <= list.items.len(),
    ensures
        plain_items(list, n, Seq::empty()) is Ok,
    decreases n,
{
    if n > 0 {
        lemma_plain_items_ok(list, (n - 1) as nat);
        lemma_plain_items_line(list, n);
    }
}

/// The plain text of a list that reads back is the plain text of its first
/// `i` items, the lines of the others, and a line feed.
proof fn lemma_plain_items_tail(list: ListView, i: int)
    requires
        list_reads_back(list),
        0 <= i < list.items.len(),
    ensures
        plain_items(list, i as nat, Seq::empty()) is Ok,
        plain_items(list, list.items.len(), Seq::empty()) == Ok::<Seq<char>, CompileError>(
            plain_items(list, i as nat, Seq::empty()).unwrap() + tail_of(list, i) + seq!['\n'],
        ),
    decreases list.items.len() - i,
{
    let m = list.items.len();
    lemma_plain_items_ok(list, i as nat);
    lemma_plain_items_line(list, (i + 1) as nat);
    let head = plain_items(list, i as nat, Seq::empty()).unwrap();
    let line = line_of(list, i);
    if i + 1 < m {
        lemma_plain_items_tail(list, i + 1);
        let rest = tail_of(list, i + 1);
        assert((head + line + seq!['\n']) + rest + seq!['\n'] =~= head + (line + seq!['\n']
            + rest) + seq!['\n']);
    }
}

/// The source texts of the first `n` blocks of `document`.
pub open spec fn bodies(document: Seq<BlockView>, n: nat) -> Seq<Seq<char>> {
    Seq::new(n, |k: int| body(document[k]))
}

/// The plain text of a block that reads back is its source text and a blank
/// line; the source text holds no blank line and is not blank.
proof fn lemma_plain_block_body(block: BlockView)
    requires
        reads_back(block),
    ensures
        plain_block(block) == Ok::<Seq<char>, crate::compiler::CompileError>(
            body(block) + seq!['\n', '\n'],
        ),
        no_blank_line(body(block)),
        !is_blank(body(block)),
{
    match block {
        BlockView::Heading(level, title) => {
            let marks = Seq::new(level, |i: int| '#');
            let text = marks + seq![' '] + title;
            assert forall|k: int| 0 <= k < text.len() implies text[k] != '\n' && text[k]
                != '\r' by {
                if k > level {
                    assert(text[k] == title[k - level - 1]);
                }
            }
            assert(text[0] == '#');
            assert(!is_blank_char(text[0]));
        },
        BlockView::Paragraph(text) => {
            lemma_plain_text_same(text, 0);
            assert(text.subrange(0, text.len() as int) =~= text);
        },
        BlockView::List(list) => {
            let tail = tail_of(list, 0);
            lemma_plain_items_tail(list, 0);
            lemma_tail_shape(list, 0);
            assert(plain_list(list, Seq::empty()) == Ok::<Seq<char>, CompileError>(
                tail + seq!['\n'],
            )) by {
                assert(Seq::<char>::empty() + tail + seq!['\n'] =~= tail + seq!['\n']);
            }
            assert(tail + seq!['\n'] + seq!['\n'] =~= tail + seq!['\n', '\n']);
            assert(!is_blank_char(tail[0]));
        },
    }
}

/// The parts of the plain text of blocks that read back, with a rest behind
/// it, are the source texts of the blocks and the parts of the rest.
proof fn lemma_printed_parts(document: Seq<BlockView>, n: nat, rest: Seq<char>)
    requires
        n <= document.len(),
        forall|k: int| 0 <= k < n ==> reads_back(#[trigger] document[k]),
    ensures
        plain_blocks(document, n) is Ok,
        parts_from(plain_blocks(document, n).unwrap() + rest, 0) == bodies(document, n)
            + parts_from(rest, 0),
    decreases n,
{
    if n == 0 {
        assert(Seq::<char>::empty() + rest =~= rest);
        assert(bodies(document, 0) + parts_from(rest, 0) =~= parts_from(rest, 0));
    } else {
        let before = (n - 1) as nat;
        let block = document[n - 1];
        assert(reads_back(block));
        lemma_plain_block_body(block);
        let tail = body(block) + seq!['\n', '\n'] + rest;
        lemma_printed_parts(document, before, tail);
        lemma_parts_behind_body(body(block), rest);
        let head = plain_blocks(document, before).unwrap();
        assert(plain_blocks(document, n).unwrap() + rest =~= head + tail);
        assert(bodies(document, before) + (seq![body(block)] + parts_from(rest, 0)) =~= bodies(
            document,
            n,
        ) + parts_from(rest, 0));
    }
}

/// The parts of the plain text of a document whose blocks read back are the
/// source texts of its blocks.
proof fn lemma_printed_parts_of(document: Seq<BlockView>)
    requires
        forall|k: int| 0 <= k < document.len() ==> reads_back(#[trigger] document[k]),
    ensures
        plain_document(document) is Ok,
        parts_of(plain_document(document).unwrap()) == bodies(document, document.len()),
{
    let n = document.len();
    let kept = bodies(document, n);
    lemma_printed_parts(document, n, Seq::empty());
    let text = plain_document(document).unwrap();
    assert(text + Seq::<char>::empty() =~= text);
    let all = parts_from(text, 0);
    assert(Seq::<char>::empty().subrange(0, 0) =~= Seq::<char>::empty());
    assert(parts_from(Seq::<char>::empty(), 0) =~= seq![Seq::<char>::empty()]);
    assert(all == kept + seq![Seq::<char>::empty()]);
    assert(all.len() == n + 1);
    assert(all[n as int] == Seq::<char>::empty());
    assert(is_blank(all[n as int]));
    if n == 0 {
        assert(first_kept(all, 1) == 1);
        assert(first_kept(all, 0) == 1);
        assert(last_kept(all, 1, 1) == 1);
        assert(all.subrange(1, 1) =~= kept);
    } else {
        assert(all[0] == body(document[0]));
        assert(reads_back(document[0]));
        lemma_plain_block_body(document[0]);
        assert(first_kept(all, 0) == 0);
        assert(all[n - 1] == body(document[n - 1]));
        assert(reads_back(document[n - 1]));
        lemma_plain_block_body(document[n - 1]);
        assert(last_kept(all, 0, n as int) == n);
        assert(last_kept(all, 0, n as int + 1) == n);
        assert(all.subrange(0, n as int) =~= kept);
    }
}

/// The markers of a heading as the plain text compiler writes it end where
/// the space before the title stands.
proof fn lemma_marker_end_of_body(level: nat, title: Seq<char>, j: int)
    requires
        0 <= j <= level,
    ensures
        marker_end(Seq::new(level, |i: int| '#') + seq![' '] + title, j) == level,
    decreases level - j,
{
    let text = Seq::new(level, |i: int| '#') + seq![' '] + title;
    if j < level {
        assert(text[j] == '#');
        lemma_marker_end_of_body(level, title, j + 1);
    } else {
        assert(text[j] == ' ');
    }
}

/// A block that reads back is, as it is written, the one block that its
/// source text holds.
proof fn lemma_block_reads_back(block: BlockView, level: nat)
    requires
        reads_back(block),
        levels_follow(seq![block], 0, level),
    ensures
        blocks_at(body(block), 0, level) == Ok::<(Seq<BlockView>, nat), ParseError>(
            (
                seq![written_block(block)],
                match block {
                    BlockView::Heading(found, _) => found,
                    _ => level,
                },
            ),
        ),
{
    let part = body(block);
    match block {
        BlockView::Heading(found, title) => {
            lemma_marker_end_of_body(found, title, 0);
            assert(part[0] == '#');
            assert(part[found as int] == ' ');
            assert(part.subrange(found as int + 1, part.len() as int) =~= title);
            assert(title_of(part, found as int) == title);
            assert(block_at(part, 0, level) == Ok::<(BlockView, int, nat), ParseError>(
                (block, part.len() as int, found),
            ));
        },
        BlockView::Paragraph(text) => {
            assert(text.len() > 0) by {
                if text.len() == 0 {
                    assert(is_blank(text));
                }
            }
            assert(item_start_at(text, 0, 0) is None);
            assert(list_at(text, 0, 0) is None);
            lemma_formatted_same(text, 0);
            assert(text.subrange(0, text.len() as int) =~= text);
            assert(formatted(text) == text);
            assert(block_at(part, 0, level) == Ok::<(BlockView, int, nat), ParseError>(
                (block, part.len() as int, level),
            ));
        },
        BlockView::List(list) => {
            lemma_tail_shape(list, 0);
            lemma_list_of_tail(list);
            assert(part[0] != '#');
            assert(block_at(part, 0, level) == Ok::<(BlockView, int, nat), ParseError>(
                (written_block(block), part.len() as int, level),
            ));
        },
    }
}

/// The source texts of blocks that read back, from the `k`th on, hold those
/// blocks as they are written.
proof fn lemma_document_from_bodies(document: Seq<BlockView>, k: int, level: nat)
    requires
        0 <= k <= document.len(),
        forall|j: int| 0 <= j < document.len() ==> reads_back(#[trigger] document[j]),
        levels_follow(document, k, level),
    ensures
        document_from(bodies(document, document.len()), k, level) == Ok::<
            Seq<BlockView>,
            ParseError,
        >(written(document).subrange(k, document.len() as int)),
    decreases document.len() - k,
{
    let n = document.len();
    let parts = bodies(document, n);
    if k < n {
        let block = document[k];
        assert(reads_back(block));
        assert(parts[k] == body(block));
        let after = match block {
            BlockView::Heading(found, _) => found,
            _ => level,
        };
        assert(levels_follow(seq![block], 1, after));
        assert(levels_follow(seq![block], 0, level));
        lemma_block_reads_back(block, level);
        lemma_document_from_bodies(document, k + 1, after);
        assert(seq![written_block(block)] + written(document).subrange(k + 1, n as int)
            =~= written(document).subrange(k, n as int));
    } else {
        assert(written(document).subrange(k, n as int) =~= Seq::<BlockView>::empty());
    }
}

/// Numbering a list by its written token gives the same plain text.
proof fn lemma_written_list_plain(list: ListView, n: nat, indent: Seq<char>)
    requires
        is_plainly_marked(list.token),
    ensures
        plain_items(written_list(list), n, indent) == plain_items(list, n, indent),
    decreases n,
{
    if n > 0 && n <= list.items.len() {
        lemma_written_list_plain(list, (n - 1) as nat, indent);
    }
}

/// The first blocks of a document have, as they are written, the same plain
/// text as they have as they are.
proof fn lemma_written_plain(document: Seq<BlockView>, n: nat)
    requires
        n <= document.len(),
        forall|k: int| 0 <= k < document.len() ==> reads_back(#[trigger] document[k]),
    ensures
        plain_blocks(written(document), n) == plain_blocks(document, n),
    decreases n,
{
    if n > 0 {
        lemma_written_plain(document, (n - 1) as nat);
        let block = document[n - 1];
        assert(reads_back(block));
        match block {
            BlockView::List(list) => {
                lemma_written_list_plain(list, list.items.len(), Seq::empty());
            },
            _ => {},
        }
    }
}

/// Parsing the plain text of a document gives the document as it is written:
/// the same blocks with the same texts, each list with the token that its
/// plain text shows. This holds where every block of the document reads back
/// and no heading skips a level. Compiling what was parsed then gives the
/// same plain text again.
pub proof fn lemma_plain_text_reads_back(document: Seq<BlockView>)
    requires
        document_reads_back(document),
    ensures
        plain_document(document) is Ok,
        document_of(plain_document(document).unwrap()) == Ok::<Seq<BlockView>, ParseError>(
            written(document),
        ),
        plain_document(written(document)) == plain_document(document),
{
    lemma_printed_parts_of(document);
    lemma_document_from_bodies(document, 0, 0);
    assert(written(document).subrange(0, document.len() as int) =~= written(document));
    lemma_written_plain(document, document.len());
}

/// A document in which every list is marked with a dash, or with decimal
/// numbers and a dot, is written as it is.
pub proof fn lemma_written_same(document: Seq<BlockView>)
    requires
        forall|k: int|
            0 <= k < document.len() ==> match #[trigger] document[k] {
                BlockView::List(list) => list.token == written_token(list.token),
                _ => true,
            },
    ensures
        written(document) == document,
{
    assert forall|k: int| 0 <= k < document.len() implies written(document)[k]
        == document[k] by {
        match document[k] {
            BlockView::List(list) => {
                assert(written_list(list) == list);
            },
            _ => {},
        }
    }
    assert(written(document) =~= document);
}

} // verus!
