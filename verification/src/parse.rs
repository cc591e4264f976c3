//! Documents: the model of a document, the split of a text into blocks, and
//! the parser that reads each block as a heading, a list or a paragraph.

use vstd::prelude::*;
use crate::chars::{
    line_ending_at, line_ending_len, slice_of, to_chars, to_text, trim_bounds, trimmed,
};
use crate::format::{format_chars, formatted};
use crate::list::{list_at, parse_list_at, List, ListView};
use crate::numeral::{decimal, push_decimal};

verus! {

/// A fault in the structure of a document.
#[derive(Debug, Clone, Copy, PartialEq, Eq, Structural)]
pub enum SyntaxError {
    /// A heading lies more than one level below the heading before it. The
    /// fields are the level before and the level of the heading.
    SkippedHeadingLevel(usize, usize),
}

/// Why a text is no document.
#[derive(Debug, Clone, Copy, PartialEq, Eq, Structural)]
pub enum ParseError {
    SyntaxError(SyntaxError),
}

/// What `error` says to a reader.
pub open spec fn syntax_error_text(error: SyntaxError) -> Seq<char> {
    match error {
        SyntaxError::SkippedHeadingLevel(from, to) => "Skipped a heading level. Went from level "@
            + decimal(from as nat) + " to level "@ + decimal(to as nat),
    }
}

/// What `error` says to a reader.
pub open spec fn parse_error_text(error: ParseError) -> Seq<char> {
    match error {
        ParseError::SyntaxError(inner) => "Syntax error: "@ + syntax_error_text(inner),
    }
}

impl SyntaxError {
    /// The error in words.
    pub fn message(&self) -> (text: String)
        ensures
            text@ == syntax_error_text(*self),
    {
        match self {
            SyntaxError::SkippedHeadingLevel(from, to) => {
                let mut text = String::new();
                text.append("Skipped a heading level. Went from level ");
                push_decimal(&mut text, *from);
                text.append(" to level ");
                push_decimal(&mut text, *to);
                proof {
                    assert(text@ =~= syntax_error_text(*self));
                }
                text
            },
        }
    }
}

impl ParseError {
    /// The error in words.
    pub fn message(&self) -> (text: String)
        ensures
            text@ == parse_error_text(*self),
    {
        match self {
            ParseError::SyntaxError(inner) => {
                let mut text = String::new();
                text.append("Syntax error: ");
                let detail = inner.message();
                text.append(detail.as_str());
                proof {
                    assert(text@ =~= parse_error_text(*self));
                }
                text
            },
        }
    }
}

/// One block of a document.
#[derive(Debug)]
pub enum Block {
    /// A heading: its level and its title.
    Heading(usize, String),
    Paragraph(String),
    List(List),
}

/// What a `Block` stands for.
pub ghost enum BlockView {
    Heading(nat, Seq<char>),
    Paragraph(Seq<char>),
    List(ListView),
}

impl View for Block {
    type V = BlockView;

    open spec fn view(&self) -> BlockView {
        match *self {
            Block::Heading(level, title) => BlockView::Heading(level as nat, title@),
            Block::Paragraph(text) => BlockView::Paragraph(text@),
            Block::List(list) => BlockView::List(list@),
        }
    }
}

impl Clone for Block {
    fn clone(&self) -> (r: Self)
        ensures
            r@ == self@,
    {
        match self {
            Block::Heading(level, title) => Block::Heading(*level, title.clone()),
            Block::Paragraph(text) => Block::Paragraph(text.clone()),
            Block::List(list) => Block::List(list.clone()),
        }
    }
}

/// The views of the blocks of a vector, in order.
pub open spec fn block_views(blocks: Seq<Block>) -> Seq<BlockView> {
    Seq::new(blocks.len(), |i: int| blocks[i]@)
}

/// A document: its blocks in the order of the source.
#[derive(Debug)]
pub struct Document {
    pub blocks: Vec<Block>,
}

impl View for Document {
    type V = Seq<BlockView>;

    open spec fn view(&self) -> Seq<BlockView> {
        block_views(self.blocks@)
    }
}

impl Clone for Document {
    fn clone(&self) -> (r: Self)
        ensures
            r@ == self@,
    {
        let mut blocks: Vec<Block> = Vec::new();
        let mut i: usize = 0;
        while i < self.blocks.len()
            invariant
                i <= self.blocks.len(),
                block_views(blocks@) == self@.subrange(0, i as int),
            decreases self.blocks.len() - i,
        {
            let ghost before = blocks@;
            let copy = self.blocks[i].clone();
            proof {
                assert(block_views(before.push(copy)) =~= block_views(before).push(copy@));
                assert(self@.subrange(0, i + 1) =~= self@.subrange(0, i as int).push(copy@));
            }
            blocks.push(copy);
            i += 1;
        }
        proof {
            assert(self@.subrange(0, self@.len() as int) =~= self@);
        }
        Document { blocks }
    }
}

/// The length of the blank line that starts at `s[i]`: two line endings in a
/// row. It is 0 where none starts.
pub open spec fn blank_line_len(s: Seq<char>, i: int) -> int {
    let n = line_ending_len(s, i);
    if n > 0 && line_ending_len(s, i + n) > 0 {
        n + line_ending_len(s, i + n)
    } else {
        0
    }
}

/// The first index from `i` on at which a blank line starts, or the length of
/// `s`.
pub open spec fn part_end(s: Seq<char>, i: int) -> int
    decreases s.len() - i,
{
    if 0 <= i < s.len() && blank_line_len(s, i) == 0 {
        part_end(s, i + 1)
    } else {
        i
    }
}

/// The pieces of `s[i..]` between blank lines, in order. A blank line at the
/// very end leaves an empty last piece.
pub open spec fn parts_from(s: Seq<char>, i: int) -> Seq<Seq<char>>
    decreases s.len() - i,
{
    let end = part_end(s, i);
    if 0 <= i <= end < s.len() {
        proof {
            lemma_part_end(s, i);
        }
        seq![s.subrange(i, end)] + parts_from(s, end + blank_line_len(s, end))
    } else if 0 <= i <= s.len() {
        seq![s.subrange(i, s.len() as int)]
    } else {
        seq![Seq::empty()]
    }
}

/// A part ends inside the sequence, not before its start, and at a blank line
/// unless it ends with the sequence.
pub proof fn lemma_part_end(s: Seq<char>, i: int)
    requires
        0 <= i <= s.len(),
    ensures
        i <= part_end(s, i) <= s.len(),
        part_end(s, i) < s.len() ==> 2 <= blank_line_len(s, part_end(s, i)) && part_end(s, i)
            + blank_line_len(s, part_end(s, i)) <= s.len(),
    decreases s.len() - i,
{
    if i < s.len() && blank_line_len(s, i) == 0 {
        lemma_part_end(s, i + 1);
    }
}

/// Whether `c` is a space, a tab, a line feed or a carriage return.
pub open spec fn is_blank_char(c: char) -> bool {
    c == ' ' || c == '\t' || c == '\n' || c == '\r'
}

/// Whether `part` holds nothing but spaces, tabs and line endings.
pub open spec fn is_blank(part: Seq<char>) -> bool {
    forall|k: int| 0 <= k < part.len() ==> is_blank_char(#[trigger] part[k])
}

/// The first index from `i` on of a piece that is not blank, or the number of
/// pieces.
pub open spec fn first_kept(parts: Seq<Seq<char>>, i: int) -> int
    decreases parts.len() - i,
{
    if 0 <= i < parts.len() && is_blank(parts[i]) {
        first_kept(parts, i + 1)
    } else {
        i
    }
}

/// The least `k` with `lo <= k <= j` such that the pieces `k..j` are all
/// blank.
pub open spec fn last_kept(parts: Seq<Seq<char>>, lo: int, j: int) -> int
    decreases j,
{
    if 0 <= lo < j <= parts.len() && is_blank(parts[j - 1]) {
        last_kept(parts, lo, j - 1)
    } else {
        j
    }
}

/// The blocks of source text in `s`: its pieces between blank lines, without
/// the blank pieces at the start and at the end.
pub open spec fn parts_of(s: Seq<char>) -> Seq<Seq<char>> {
    let all = parts_from(s, 0);
    let first = first_kept(all, 0);
    all.subrange(first, last_kept(all, first, all.len() as int))
}

/// The end of the run of heading markers that starts at `i`.
pub open spec fn marker_end(s: Seq<char>, i: int) -> int
    decreases s.len() - i,
{
    if 0 <= i < s.len() && s[i] == '#' {
        marker_end(s, i + 1)
    } else {
        i
    }
}

/// The title of the heading whose markers end before `part[end]`: what follows
/// the markers and one space, trimmed.
pub open spec fn title_of(part: Seq<char>, end: int) -> Seq<char> {
    let start = if 0 <= end < part.len() && part[end] == ' ' {
        end + 1
    } else {
        end
    };
    trimmed(part.subrange(start, part.len() as int))
}

/// The error for a heading of level `to` that follows one of level `from`.
pub open spec fn skipped(from: nat, to: nat) -> ParseError {
    ParseError::SyntaxError(SyntaxError::SkippedHeadingLevel(from as usize, to as usize))
}

/// The block that starts at `part[i]` when the last heading had level `level`:
/// the block, the index behind it, and the level of the last heading after it.
/// A heading marker opens a heading, which runs to the end of the part and may
/// lie at most one level below the last one; else a list is read, as far as it
/// goes; else the rest of the part is a paragraph.
pub open spec fn block_at(part: Seq<char>, i: int, level: nat) -> Result<
    (BlockView, int, nat),
    ParseError,
> {
    if 0 <= i < part.len() && part[i] == '#' {
        let found = (marker_end(part, i) - i) as nat;
        if found > level + 1 {
            Err(skipped(level, found))
        } else {
            Ok(
                (
                    BlockView::Heading(found, title_of(part, marker_end(part, i))),
                    part.len() as int,
                    found,
                ),
            )
        }
    } else {
        match list_at(part, i, 0) {
            Some((list, next)) => Ok((BlockView::List(list), next, level)),
            None => Ok(
                (
                    BlockView::Paragraph(formatted(part.subrange(i, part.len() as int))),
                    part.len() as int,
                    level,
                ),
            ),
        }
    }
}

/// The blocks of `part[i..]` when the last heading had level `level`, and the
/// level of the last heading after them; the first error, where one of them
/// fails.
pub open spec fn blocks_at(part: Seq<char>, i: int, level: nat) -> Result<
    (Seq<BlockView>, nat),
    ParseError,
>
    decreases part.len() - i,
{
    match block_at(part, i, level) {
        Ok((block, next, after)) => if i < next < part.len() {
            match blocks_at(part, next, after) {
                Ok((rest, last)) => Ok((seq![block] + rest, last)),
                Err(e) => Err(e),
            }
        } else {
            Ok((seq![block], after))
        },
        Err(e) => Err(e),
    }
}

/// The blocks of the parts `parts[k..]` when the last heading had level
/// `level`; the first error, where one of them fails.
pub open spec fn document_from(parts: Seq<Seq<char>>, k: int, level: nat) -> Result<
    Seq<BlockView>,
    ParseError,
>
    decreases parts.len() - k,
{
    if 0 <= k < parts.len() {
        match blocks_at(parts[k], 0, level) {
            Ok((blocks, after)) => match document_from(parts, k + 1, after) {
                Ok(rest) => Ok(blocks + rest),
                Err(e) => Err(e),
            },
            Err(e) => Err(e),
        }
    } else {
        Ok(Seq::empty())
    }
}

/// The document that the text `s` holds, or why it holds none.
pub open spec fn document_of(s: Seq<char>) -> Result<Seq<BlockView>, ParseError> {
    document_from(parts_of(s), 0, 0)
}

/// Whether each heading among `blocks[i..]` lies at most one level below the
/// heading before it, where the heading before `blocks[i]` had level `level`.
pub open spec fn levels_follow(blocks: Seq<BlockView>, i: int, level: nat) -> bool
    decreases blocks.len() - i,
{
    if !(0 <= i < blocks.len()) {
        true
    } else {
        match blocks[i] {
            BlockView::Heading(found, _) => found <= level + 1 && levels_follow(
                blocks,
                i + 1,
                found,
            ),
            _ => levels_follow(blocks, i + 1, level),
        }
    }
}

/// The level of the last heading among `blocks[i..]`, or `level` where there
/// is none.
pub open spec fn last_level(blocks: Seq<BlockView>, i: int, level: nat) -> nat
    decreases blocks.len() - i,
{
    if !(0 <= i < blocks.len()) {
        level
    } else {
        match blocks[i] {
            BlockView::Heading(found, _) => last_level(blocks, i + 1, found),
            _ => last_level(blocks, i + 1, level),
        }
    }
}

/// Whether no heading of `document` skips a level: the first lies at level 1
/// at most, and each other at most one level below the heading before it.
pub open spec fn no_level_skipped(document: Seq<BlockView>) -> bool {
    levels_follow(document, 0, 0)
}

/// Behind `a`, the levels of `a + b` are those of `b`.
proof fn lemma_levels_behind(a: Seq<BlockView>, b: Seq<BlockView>, j: int, level: nat)
    requires
        0 <= j <= b.len(),
    ensures
        levels_follow(a + b, a.len() + j, level) == levels_follow(b, j, level),
        last_level(a + b, a.len() + j, level) == last_level(b, j, level),
    decreases b.len() - j,
{
    if j < b.len() {
        assert((a + b)[a.len() + j] == b[j]);
        match b[j] {
            BlockView::Heading(found, _) => {
                lemma_levels_behind(a, b, j + 1, found);
            },
            _ => {
                lemma_levels_behind(a, b, j + 1, level);
            },
        }
    }
}

/// The levels of `a + b` follow one another where those of `a` do and those
/// of `b` do behind the last level of `a`.
proof fn lemma_levels_joined(a: Seq<BlockView>, b: Seq<BlockView>, i: int, level: nat)
    requires
        0 <= i <= a.len(),
    ensures
        levels_follow(a + b, i, level) == (levels_follow(a, i, level) && levels_follow(
            b,
            0,
            last_level(a, i, level),
        )),
        last_level(a + b, i, level) == last_level(b, 0, last_level(a, i, level)),
    decreases a.len() - i,
{
    if i < a.len() {
        assert((a + b)[i] == a[i]);
        match a[i] {
            BlockView::Heading(found, _) => {
                lemma_levels_joined(a, b, i + 1, found);
            },
            _ => {
                lemma_levels_joined(a, b, i + 1, level);
            },
        }
    } else {
        lemma_levels_behind(a, b, 0, level);
    }
}

/// The blocks of a part skip no level behind the level that they start from,
/// and the level that they end with is that of their last heading.
proof fn lemma_blocks_at_levels(part: Seq<char>, i: int, level: nat)
    requires
        blocks_at(part, i, level) is Ok,
    ensures
        levels_follow(blocks_at(part, i, level).unwrap().0, 0, level),
        last_level(blocks_at(part, i, level).unwrap().0, 0, level) == blocks_at(
            part,
            i,
            level,
        ).unwrap().1,
    decreases part.len() - i,
{
    let (block, next, after) = block_at(part, i, level).unwrap();
    let one = seq![block];
    assert(levels_follow(one, 1, after));
    assert(last_level(one, 1, after) == after);
    assert(levels_follow(one, 0, level) && last_level(one, 0, level) == after);
    if i < next < part.len() {
        lemma_blocks_at_levels(part, next, after);
        let rest = blocks_at(part, next, after).unwrap().0;
        lemma_levels_joined(one, rest, 0, level);
    }
}

/// The blocks of a run of parts skip no level behind the level that they
/// start from.
proof fn lemma_document_from_levels(parts: Seq<Seq<char>>, k: int, level: nat)
    requires
        document_from(parts, k, level) is Ok,
    ensures
        levels_follow(document_from(parts, k, level).unwrap(), 0, level),
    decreases parts.len() - k,
{
    if 0 <= k < parts.len() {
        let (blocks, after) = blocks_at(parts[k], 0, level).unwrap();
        lemma_blocks_at_levels(parts[k], 0, level);
        lemma_document_from_levels(parts, k + 1, after);
        lemma_levels_joined(blocks, document_from(parts, k + 1, after).unwrap(), 0, level);
    }
}

/// In a document that was read from a text, no heading skips a level.
pub proof fn lemma_parsed_levels(s: Seq<char>)
    requires
        document_of(s) is Ok,
    ensures
        no_level_skipped(document_of(s).unwrap()),
{
    lemma_document_from_levels(parts_of(s), 0, 0);
}

/// The views of the parts of a vector, in order.
pub open spec fn part_views(parts: Seq<Vec<char>>) -> Seq<Seq<char>> {
    Seq::new(parts.len(), |i: int| parts[i]@)
}

/// The views of the strings of a vector, in order.
pub open spec fn text_views(parts: Seq<String>) -> Seq<Seq<char>> {
    Seq::new(parts.len(), |i: int| parts[i]@)
}

/// `head` before the blocks of `rest`, where `rest` holds blocks.
pub open spec fn after_blocks(
    head: Seq<BlockView>,
    rest: Result<(Seq<BlockView>, nat), ParseError>,
) -> Result<(Seq<BlockView>, nat), ParseError> {
    match rest {
        Ok((tail, last)) => Ok((head + tail, last)),
        Err(e) => Err(e),
    }
}

/// `head` before the blocks of `rest`, where `rest` holds blocks.
pub open spec fn after_document(head: Seq<BlockView>, rest: Result<Seq<BlockView>, ParseError>)
    -> Result<Seq<BlockView>, ParseError> {
    match rest {
        Ok(tail) => Ok(head + tail),
        Err(e) => Err(e),
    }
}

/// One step of `blocks_at`: the block at `part[i]` goes behind those already
/// seen.
proof fn lemma_blocks_at_step(part: Seq<char>, i: int, level: nat, seen: Seq<BlockView>)
    requires
        block_at(part, i, level) is Ok,
    ensures
        ({
            let (block, next, after) = block_at(part, i, level).unwrap();
            after_blocks(seen, blocks_at(part, i, level)) == if i < next < part.len() {
                after_blocks(seen.push(block), blocks_at(part, next, after))
            } else {
                Ok((seen.push(block), after))
            }
        }),
{
    let (block, next, after) = block_at(part, i, level).unwrap();
    if i < next < part.len() {
        match blocks_at(part, next, after) {
            Ok((tail, last)) => {
                assert(seen.push(block) + tail =~= seen + (seq![block] + tail));
            },
            Err(e) => {},
        }
    } else {
        assert(seen + seq![block] =~= seen.push(block));
    }
}

/// One step of `document_from`: the blocks of the part `parts[k]` go behind
/// those already seen.
proof fn lemma_document_from_step(
    parts: Seq<Seq<char>>,
    k: int,
    level: nat,
    seen: Seq<BlockView>,
)
    requires
        0 <= k < parts.len(),
    ensures
        after_document(seen, document_from(parts, k, level)) == match blocks_at(
            parts[k],
            0,
            level,
        ) {
            Ok((found, after)) => after_document(seen + found, document_from(parts, k + 1, after)),
            Err(e) => Err(e),
        },
{
    match blocks_at(parts[k], 0, level) {
        Ok((found, after)) => {
            match document_from(parts, k + 1, after) {
                Ok(tail) => {
                    assert((seen + found) + tail =~= seen + (found + tail));
                },
                Err(e) => {},
            }
        },
        Err(e) => {},
    }
}

/// The level of the last heading, which the parser carries from block to
/// block. It is 0 before the first heading.
struct ParseContext {
    current_heading: usize,
}

/// The length of the blank line that starts at `v[i]`, 0 where none starts.
fn blank_line_at(v: &Vec<char>, i: usize) -> (n: usize)
    ensures
        n == blank_line_len(v@, i as int),
{
    let first = line_ending_at(v, i);
    if first == 0 {
        return 0;
    }
    let second = line_ending_at(v, i + first);
    if second == 0 {
        0
    } else {
        first + second
    }
}

/// The pieces of `v` between blank lines, in order.
fn split_parts(v: &Vec<char>) -> (parts: Vec<Vec<char>>)
    ensures
        part_views(parts@) == parts_from(v@, 0),
{
    let mut parts: Vec<Vec<char>> = Vec::new();
    let mut i: usize = 0;
    let mut done = false;
    while !done
        invariant
            i <= v.len(),
            !done ==> part_views(parts@) + parts_from(v@, i as int) == parts_from(v@, 0),
            done ==> part_views(parts@) == parts_from(v@, 0),
        decreases v.len() - i, if done { 0int } else { 1int },
    {
        let ghost before = parts@;
        let mut end: usize = i;
        while end < v.len() && blank_line_at(v, end) == 0
            invariant
                i <= end <= v.len(),
                part_end(v@, end as int) == part_end(v@, i as int),
            decreases v.len() - end,
        {
            end += 1;
        }
        let part = slice_of(v, i, end);
        parts.push(part);
        proof {
            assert(part_views(before.push(part)) =~= part_views(before).push(part@));
        }
        if end < v.len() {
            proof {
                let next = end + blank_line_len(v@, end as int);
                assert(part_views(before).push(part@) + parts_from(v@, next) =~= part_views(before)
                    + (seq![part@] + parts_from(v@, next)));
            }
            i = end + blank_line_at(v, end);
        } else {
            proof {
                assert(part_views(before).push(part@) =~= part_views(before) + seq![part@]);
            }
            done = true;
        }
    }
    parts
}

/// Whether `part` holds nothing but spaces, tabs and line endings.
fn is_blank_part(part: &Vec<char>) -> (b: bool)
    ensures
        b == is_blank(part@),
{
    let mut k: usize = 0;
    while k < part.len()
        invariant
            k <= part.len(),
            forall|j: int| 0 <= j < k ==> is_blank_char(#[trigger] part@[j]),
        decreases part.len() - k,
    {
        let c = part[k];
        if !(c == ' ' || c == '\t' || c == '\n' || c == '\r') {
            return false;
        }
        k += 1;
    }
    true
}

/// The bounds of the parts that remain when the blank parts at the start and
/// at the end are left out.
fn kept_bounds(parts: &Vec<Vec<char>>) -> (r: (usize, usize))
    ensures
        r.0 <= r.1 <= parts.len(),
        r.0 == first_kept(part_views(parts@), 0),
        r.1 == last_kept(part_views(parts@), r.0 as int, parts@.len() as int),
{
    let ghost views = part_views(parts@);
    let mut first: usize = 0;
    while first < parts.len() && is_blank_part(&parts[first])
        invariant
            first <= parts.len(),
            views == part_views(parts@),
            first_kept(views, first as int) == first_kept(views, 0),
        decreases parts.len() - first,
    {
        first += 1;
    }
    let mut last: usize = parts.len();
    while first < last && is_blank_part(&parts[last - 1])
        invariant
            first <= last <= parts.len(),
            views == part_views(parts@),
            last_kept(views, first as int, last as int) == last_kept(
                views,
                first as int,
                parts@.len() as int,
            ),
        decreases last,
    {
        last -= 1;
    }
    (first, last)
}

/// The blocks of source text in `text`: its pieces between blank lines,
/// without the blank pieces at the start and at the end.
pub fn into_parts(text: &str) -> (parts: Vec<String>)
    ensures
        text_views(parts@) == parts_of(text@),
{
    let v = to_chars(text);
    let all = split_parts(&v);
    let (first, last) = kept_bounds(&all);
    let mut parts: Vec<String> = Vec::new();
    let mut k: usize = first;
    while k < last
        invariant
            first <= k <= last <= all.len(),
            text_views(parts@) == part_views(all@).subrange(first as int, k as int),
        decreases last - k,
    {
        let ghost before = parts@;
        let part = to_text(&all[k], 0, all[k].len());
        proof {
            assert(all@[k as int]@.subrange(0, all@[k as int]@.len() as int) =~= all@[k as int]@);
            assert(text_views(before.push(part)) =~= text_views(before).push(part@));
            assert(part_views(all@).subrange(first as int, k + 1) =~= part_views(all@).subrange(
                first as int,
                k as int,
            ).push(part_views(all@)[k as int]));
        }
        parts.push(part);
        k += 1;
    }
    parts
}

/// The heading that starts at `part[i]`, where a heading marker stands. On
/// success the level of the heading becomes the current one.
fn parse_block_heading(context: &mut ParseContext, part: &Vec<char>, i: usize) -> (r: Result<
    Block,
    ParseError,
>)
    requires
        i < part.len(),
        part@[i as int] == '#',
    ensures
        match block_at(part@, i as int, old(context).current_heading as nat) {
            Ok((block, _, after)) => r is Ok && r.unwrap()@ == block && final(context).current_heading == after,
            Err(e) => r == Err::<Block, ParseError>(e) && *final(context) == *old(context),
        },
{
    let mut end: usize = i;
    while end < part.len() && part[end] == '#'
        invariant
            i <= end <= part.len(),
            marker_end(part@, end as int) == marker_end(part@, i as int),
        decreases part.len() - end,
    {
        end += 1;
    }
    let level = end - i;
    let current = context.current_heading;
    if level > current && level - current > 1 {
        return Err(ParseError::SyntaxError(SyntaxError::SkippedHeadingLevel(current, level)));
    }
    let start = if end < part.len() && part[end] == ' ' {
        end + 1
    } else {
        end
    };
    let rest = slice_of(part, start, part.len());
    let (a, b) = trim_bounds(&rest);
    let title = to_text(&rest, a, b);
    context.current_heading = level;
    Ok(Block::Heading(level, title))
}

/// The list that starts at `part[i]`, with the index behind it.
fn parse_block_list(part: &Vec<char>, i: usize) -> (r: Option<(Block, usize)>)
    ensures
        match list_at(part@, i as int, 0) {
            Some((list, next)) => r is Some && r.unwrap().0@ == BlockView::List(list)
                && r.unwrap().1 == next && i < next <= part.len(),
            None => r is None,
        },
{
    match parse_list_at(part, i, 0) {
        Some((list, next)) => Some((Block::List(list), next)),
        None => None,
    }
}

/// The paragraph that `part[i..]` holds.
fn parse_block_paragraph(part: &Vec<char>, i: usize) -> (block: Block)
    requires
        i <= part.len(),
    ensures
        block@ == BlockView::Paragraph(formatted(part@.subrange(i as int, part@.len() as int))),
{
    let rest = slice_of(part, i, part.len());
    Block::Paragraph(format_chars(&rest))
}

/// The block that starts at `part[i]`, with the index behind it: a heading, or
/// else a list, or else a paragraph.
fn parse_block(context: &mut ParseContext, part: &Vec<char>, i: usize) -> (r: Result<
    (Block, usize),
    ParseError,
>)
    requires
        i <= part.len(),
    ensures
        match block_at(part@, i as int, old(context).current_heading as nat) {
            Ok((block, next, after)) => r is Ok && r.unwrap().0@ == block && r.unwrap().1 == next
                && final(context).current_heading == after && i <= next <= part.len() && (i
                < next || i == part.len()),
            Err(e) => r == Err::<(Block, usize), ParseError>(e) && *final(context) == *old(context),
        },
{
    if i < part.len() && part[i] == '#' {
        match parse_block_heading(context, part, i) {
            Ok(block) => Ok((block, part.len())),
            Err(e) => Err(e),
        }
    } else {
        match parse_block_list(part, i) {
            Some(found) => Ok(found),
            None => Ok((parse_block_paragraph(part, i), part.len())),
        }
    }
}

/// Reads the blocks of one part and appends them to `blocks`.
fn parse_part(context: &mut ParseContext, part: &Vec<char>, blocks: &mut Vec<Block>) -> (r: Result<
    (),
    ParseError,
>)
    ensures
        match blocks_at(part@, 0, old(context).current_heading as nat) {
            Ok((found, after)) => r is Ok && block_views(final(blocks)@) == block_views(
                old(blocks)@,
            ) + found && final(context).current_heading == after,
            Err(e) => r == Err::<(), ParseError>(e),
        },
{
    let ghost whole = blocks_at(part@, 0, context.current_heading as nat);
    let ghost mut added: Seq<BlockView> = Seq::empty();
    let mut i: usize = 0;
    let mut done = false;
    proof {
        assert(block_views(blocks@) + added =~= block_views(blocks@));
        match whole {
            Ok((tail, last)) => {
                assert(added + tail =~= tail);
            },
            Err(e) => {},
        }
    }
    while !done
        invariant
            i <= part.len(),
            whole == blocks_at(part@, 0, old(context).current_heading as nat),
            block_views(blocks@) == block_views(old(blocks)@) + added,
            !done ==> after_blocks(added, blocks_at(part@, i as int, context.current_heading as nat))
                == whole,
            done ==> whole == Ok::<(Seq<BlockView>, nat), ParseError>(
                (added, context.current_heading as nat),
            ),
        decreases part.len() - i, if done { 0int } else { 1int },
    {
        let ghost seen = added;
        let ghost before = blocks@;
        let ghost level = context.current_heading as nat;
        match parse_block(context, part, i) {
            Ok((block, next)) => {
                proof {
                    lemma_blocks_at_step(part@, i as int, level, seen);
                    added = seen.push(block@);
                    assert(block_views(before.push(block)) =~= block_views(before).push(block@));
                    assert(block_views(old(blocks)@) + seen.push(block@) =~= (block_views(
                        old(blocks)@,
                    ) + seen).push(block@));
                }
                blocks.push(block);
                if i < next && next < part.len() {
                    i = next;
                } else {
                    done = true;
                }
            },
            Err(e) => {
                return Err(e);
            },
        }
    }
    Ok(())
}

/// What a result of `parse` stands for.
pub open spec fn parsed(r: Result<Document, ParseError>) -> Result<Seq<BlockView>, ParseError> {
    match r {
        Ok(document) => Ok(document@),
        Err(e) => Err(e),
    }
}

/// Reads the document that `v` holds.
pub fn parse_chars(v: &Vec<char>) -> (r: Result<Document, ParseError>)
    ensures
        parsed(r) == document_of(v@),
        r is Ok ==> no_level_skipped(r.unwrap()@),
{
    proof {
        if document_of(v@) is Ok {
            lemma_parsed_levels(v@);
        }
    }
    let all = split_parts(v);
    let (first, last) = kept_bounds(&all);
    let ghost parts = part_views(all@).subrange(first as int, last as int);
    let mut context = ParseContext { current_heading: 0 };
    let mut blocks: Vec<Block> = Vec::new();
    let mut k: usize = first;
    proof {
        assert(parts == parts_of(v@));
        assert(block_views(blocks@) =~= Seq::<BlockView>::empty());
        match document_from(parts, 0, 0) {
            Ok(tail) => {
                assert(Seq::<BlockView>::empty() + tail =~= tail);
            },
            Err(e) => {},
        }
    }
    while k < last
        invariant
            first <= k <= last <= all.len(),
            parts == part_views(all@).subrange(first as int, last as int),
            parts == parts_of(v@),
            after_document(
                block_views(blocks@),
                document_from(parts, k - first, context.current_heading as nat),
            ) == document_from(parts, 0, 0),
        decreases last - k,
    {
        proof {
            assert(parts[k - first] == all@[k as int]@);
            lemma_document_from_step(
                parts,
                k - first,
                context.current_heading as nat,
                block_views(blocks@),
            );
        }
        match parse_part(&mut context, &all[k], &mut blocks) {
            Ok(()) => {},
            Err(e) => {
                return Err(e);
            },
        }
        k += 1;
    }
    proof {
        assert(block_views(blocks@) + Seq::<BlockView>::empty() =~= block_views(blocks@));
    }
    Ok(Document { blocks })
}

/// Parses a text into a document: its blocks in order, or the first error.
pub fn parse(input: &str) -> (r: Result<Document, ParseError>)
    ensures
        parsed(r) == document_of(input@),
        r is Ok ==> no_level_skipped(r.unwrap()@),
{
    let v = to_chars(input);
    parse_chars(&v)
}

} // verus!
