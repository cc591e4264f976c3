//! Lists: the model of a nested list and its parser, which nests by
//! indentation.

use vstd::prelude::*;
use crate::chars::{
    lemma_trim_end_bounds, lemma_trim_start_bounds, line_ending_at, line_ending_len, slice_of,
    to_chars, trim, trim_start, trimmed,
};
use crate::format::{format_chars, formatted};
use crate::token::{
    compatible, found_token, lemma_token_at_bounds, recognize, token_at, ListToken, ListTokenView,
};

verus! {

/// One item of a list: its text, and the list nested under it, if any.
#[derive(Debug)]
pub struct ListItem {
    pub text: String,
    pub list: Option<List>,
}

/// A list: its items in order, and the token that they share.
#[derive(Debug)]
pub struct List {
    pub vec: Vec<ListItem>,
    pub token: ListToken,
}

/// What a `ListItem` stands for.
pub ghost struct ListItemView {
    pub text: Seq<char>,
    pub list: Option<ListView>,
}

/// What a `List` stands for.
pub ghost struct ListView {
    pub items: Seq<ListItemView>,
    pub token: ListTokenView,
}

/// What the item `item` stands for.
pub open spec fn item_model(item: ListItem) -> ListItemView
    decreases item,
{
    ListItemView {
        text: item.text@,
        list: match item.list {
            Some(list) => Some(list_model(list)),
            None => None,
        },
    }
}

/// What the list `list` stands for.
pub open spec fn list_model(list: List) -> ListView
    decreases list,
{
    ListView {
        items: Seq::new(
            list.vec@.len(),
            |i: int|
                if 0 <= i < list.vec@.len() {
                    item_model(list.vec@[i])
                } else {
                    arbitrary()
                },
        ),
        token: list.token@,
    }
}

impl View for ListItem {
    type V = ListItemView;

    open spec fn view(&self) -> ListItemView {
        item_model(*self)
    }
}

impl View for List {
    type V = ListView;

    open spec fn view(&self) -> ListView {
        list_model(*self)
    }
}

/// Whether `s[i..i + n]` is `n` tabs.
pub open spec fn tabs_at(s: Seq<char>, i: int, n: nat) -> bool {
    &&& 0 <= i
    &&& i + n <= s.len()
    &&& forall|k: int| i <= k < i + n ==> s[k] == '\t'
}

/// The token of the item that starts at `s[i]` at nesting depth `depth`, and
/// the index behind the token: `depth` tabs, then a list token.
pub open spec fn item_start_at(s: Seq<char>, i: int, depth: nat) -> Option<(ListTokenView, int)> {
    if tabs_at(s, i, depth) {
        token_at(s, i + depth)
    } else {
        None
    }
}

/// As `item_start_at`, but only a token that may stand in a list marked with
/// `token` counts.
pub open spec fn enforced_start_at(s: Seq<char>, i: int, depth: nat, token: ListTokenView) -> Option<
    (ListTokenView, int),
> {
    match item_start_at(s, i, depth) {
        Some((found, end)) => if compatible(token.enumerator, found.enumerator) {
            Some((found, end))
        } else {
            None
        },
        None => None,
    }
}

/// Whether the content of an item ends before `s[i]`: a line ends there, and
/// behind it stands a second line ending or the start of the next item.
pub open spec fn item_break_at(s: Seq<char>, i: int, depth: nat, token: ListTokenView) -> bool {
    let n = line_ending_len(s, i);
    n > 0 && (line_ending_len(s, i + n) > 0 || enforced_start_at(s, i + n, depth, token) is Some)
}

/// The end of the item content that holds `s[i]`: the first break from `i` on,
/// or the end of `s`.
pub open spec fn content_end(s: Seq<char>, i: int, depth: nat, token: ListTokenView) -> int
    decreases s.len() - i,
{
    if 0 <= i < s.len() && !item_break_at(s, i, depth, token) {
        content_end(s, i + 1, depth, token)
    } else {
        i
    }
}

/// Where the item that starts at `s[i]` lies: the start of its content, the
/// end of its content, and the index behind the item, which is behind the line
/// ending that closes the content, if one does. `None` where no item of the
/// list starts at `s[i]`, or where its content would be empty.
pub open spec fn item_extent(s: Seq<char>, i: int, depth: nat, token: ListTokenView) -> Option<
    (int, int, int),
> {
    match enforced_start_at(s, i, depth, token) {
        Some((_, start)) => {
            let end = content_end(s, start, depth, token);
            if start < end {
                Some((start, end, end + line_ending_len(s, end)))
            } else {
                None
            }
        },
        None => None,
    }
}

/// The first index from `i` on at which an item at `depth` starts, or the
/// length of `content`.
pub open spec fn sublist_start(content: Seq<char>, i: int, depth: nat) -> int
    decreases content.len() - i,
{
    if 0 <= i < content.len() && item_start_at(content, i, depth) is None {
        sublist_start(content, i + 1, depth)
    } else {
        i
    }
}

/// The item whose trimmed content is `content`, in a list at `depth`. From the
/// first index at which an item of the next depth starts, the content is the
/// nested list, and the text is what stands before it; a nested list that does
/// not parse leaves no item.
pub open spec fn item_of(content: Seq<char>, depth: nat) -> Option<ListItemView>
    decreases content.len(), 3int, 0int,
{
    let cut = sublist_start(content, 0, depth + 1);
    if 0 <= cut < content.len() {
        match list_at(content.subrange(cut, content.len() as int), 0, depth + 1) {
            Some((list, _)) => Some(
                ListItemView {
                    text: formatted(trimmed(content.subrange(0, cut))),
                    list: Some(list),
                },
            ),
            None => None,
        }
    } else {
        Some(ListItemView { text: formatted(content), list: None })
    }
}

/// The item of the list at `depth` marked with `token` that starts at `s[i]`,
/// and the index behind it.
pub open spec fn item_at(s: Seq<char>, i: int, depth: nat, token: ListTokenView) -> Option<
    (ListItemView, int),
>
    decreases s.len(), 0int, 0int,
{
    match item_extent(s, i, depth, token) {
        Some((start, end, next)) => {
            proof {
                lemma_item_extent_bounds(s, i, depth, token);
                lemma_trimmed_len(s.subrange(start, end));
            }
            match item_of(trimmed(s.subrange(start, end)), depth) {
                Some(item) => Some((item, next)),
                None => None,
            }
        },
        None => None,
    }
}

/// The items of the list at `depth` marked with `token` from `s[i]` on, as
/// many as follow one another, and the index behind the last of them.
pub open spec fn items_at(s: Seq<char>, i: int, depth: nat, token: ListTokenView) -> (
    Seq<ListItemView>,
    int,
)
    decreases s.len(), 1int, s.len() - i,
{
    match (item_extent(s, i, depth, token), item_at(s, i, depth, token)) {
        (Some((_, _, next)), Some((item, _))) => {
            proof {
                lemma_item_extent_bounds(s, i, depth, token);
            }
            let (rest, end) = items_at(s, next, depth, token);
            (seq![item] + rest, end)
        },
        _ => (Seq::empty(), i),
    }
}

/// The list at `depth` that starts at `s[i]`, and the index behind it: the
/// token of its first item marks it, it holds at least one item, and one line
/// ending behind its last item belongs to it.
pub open spec fn list_at(s: Seq<char>, i: int, depth: nat) -> Option<(ListView, int)>
    decreases s.len(), 2int, 0int,
{
    match item_start_at(s, i, depth) {
        Some((token, _)) => {
            let (items, end) = items_at(s, i, depth, token);
            if items.len() > 0 {
                Some((ListView { items, token }, end + line_ending_len(s, end)))
            } else {
                None
            }
        },
        None => None,
    }
}

/// Trimming does not lengthen.
pub proof fn lemma_trimmed_len(s: Seq<char>)
    ensures
        trimmed(s).len() <= s.len(),
{
    lemma_trim_start_bounds(s, 0);
    lemma_trim_end_bounds(s, trim_start(s, 0), s.len() as int);
}

/// The content of an item ends inside the sequence, not before its start.
pub proof fn lemma_content_end_bounds(s: Seq<char>, i: int, depth: nat, token: ListTokenView)
    requires
        0 <= i <= s.len(),
    ensures
        i <= content_end(s, i, depth, token) <= s.len(),
    decreases s.len() - i,
{
    if i < s.len() && !item_break_at(s, i, depth, token) {
        lemma_content_end_bounds(s, i + 1, depth, token);
    }
}

/// An item lies inside the sequence, and each of its parts is behind the one
/// before.
pub proof fn lemma_item_extent_bounds(s: Seq<char>, i: int, depth: nat, token: ListTokenView)
    requires
        item_extent(s, i, depth, token) is Some,
    ensures
        ({
            let (start, end, next) = item_extent(s, i, depth, token).unwrap();
            0 <= i < start < end <= next <= s.len()
        }),
{
    lemma_token_at_bounds(s, i + depth);
    let start = enforced_start_at(s, i, depth, token).unwrap().1;
    lemma_content_end_bounds(s, start, depth, token);
}

/// The views of the items of a vector, in order.
pub open spec fn item_views(items: Seq<ListItem>) -> Seq<ListItemView> {
    Seq::new(items.len(), |i: int| items[i]@)
}

/// The view of a list holds the views of its items, and its token.
pub proof fn lemma_list_view(list: List)
    ensures
        list@.items == item_views(list.vec@),
        list@.token == list.token@,
{
    assert(list@.items.len() == list.vec@.len());
    assert forall|i: int| 0 <= i < list.vec@.len() implies list@.items[i] == list.vec@[i]@ by {}
    assert(list@.items =~= item_views(list.vec@));
}

/// A copy of `list`, with copies of the lists nested in it.
pub fn copy_list(list: &List) -> (r: List)
    ensures
        r@ == list@,
    decreases list,
{
    let mut items: Vec<ListItem> = Vec::new();
    let mut i: usize = 0;
    while i < list.vec.len()
        invariant
            i <= list.vec.len(),
            item_views(items@) == item_views(list.vec@).subrange(0, i as int),
        decreases list.vec.len() - i,
    {
        let ghost before = items@;
        let item = &list.vec[i];
        let nested = match &item.list {
            Some(nested) => Some(copy_list(nested)),
            None => None,
        };
        let copy = ListItem { text: item.text.clone(), list: nested };
        proof {
            assert(copy@ == item@);
            assert(item_views(before.push(copy)) =~= item_views(before).push(copy@));
            assert(item_views(list.vec@).subrange(0, i + 1) =~= item_views(list.vec@).subrange(
                0,
                i as int,
            ).push(item@));
        }
        items.push(copy);
        i += 1;
    }
    let ghost views = item_views(items@);
    let r = List { vec: items, token: list.token.clone() };
    proof {
        lemma_list_view(r);
        lemma_list_view(*list);
        assert(item_views(list.vec@).subrange(0, list.vec@.len() as int) =~= item_views(
            list.vec@,
        ));
    }
    r
}

impl Clone for List {
    fn clone(&self) -> (r: Self)
        ensures
            r@ == self@,
    {
        copy_list(self)
    }
}

impl Clone for ListItem {
    fn clone(&self) -> (r: Self)
        ensures
            r@ == self@,
    {
        let nested = match &self.list {
            Some(nested) => Some(copy_list(nested)),
            None => None,
        };
        ListItem { text: self.text.clone(), list: nested }
    }
}

/// What an answer of the list parser stands for.
pub open spec fn found_list(r: Option<(List, usize)>) -> Option<(ListView, int)> {
    match r {
        Some((list, end)) => Some((list@, end as int)),
        None => None,
    }
}

/// What an answer of the item parser stands for.
pub open spec fn found_item(r: Option<(ListItem, usize)>) -> Option<(ListItemView, int)> {
    match r {
        Some((item, end)) => Some((item@, end as int)),
        None => None,
    }
}

/// An item start lies inside the sequence, with its tabs and at least one
/// character of the token.
pub proof fn lemma_item_start_bounds(s: Seq<char>, i: int, depth: nat)
    requires
        item_start_at(s, i, depth) is Some,
    ensures
        0 <= i,
        i + depth < item_start_at(s, i, depth).unwrap().1 <= s.len(),
{
    lemma_token_at_bounds(s, i + depth);
}

/// Where no item starts from `i` on, the search for a nested list ends at the
/// end of the content.
pub proof fn lemma_no_sublist(content: Seq<char>, i: int, depth: nat)
    requires
        0 <= i <= content.len(),
        forall|k: int| i <= k < content.len() ==> item_start_at(content, k, depth) is None,
    ensures
        sublist_start(content, i, depth) == content.len(),
    decreases content.len() - i,
{
    if i < content.len() {
        lemma_no_sublist(content, i + 1, depth);
    }
}

/// The token of the item that starts at `v[i]` at nesting depth `depth`, with
/// the index behind the token.
pub fn parse_item_start(v: &Vec<char>, i: usize, depth: usize) -> (r: Option<(ListToken, usize)>)
    ensures
        found_token(r) == item_start_at(v@, i as int, depth as nat),
        r is Some ==> i + depth < r.unwrap().1 <= v.len(),
{
    if i > v.len() || depth > v.len() - i {
        return None;
    }
    let mut k: usize = 0;
    while k < depth
        invariant
            k <= depth,
            i + depth <= v.len(),
            forall|j: int| i <= j < i + k ==> v@[j] == '\t',
        decreases depth - k,
    {
        if v[i + k] != '\t' {
            return None;
        }
        k += 1;
    }
    recognize(v, i + depth)
}

/// As `parse_item_start`, but only a token that may stand in a list marked
/// with `token` counts.
pub fn parse_item_start_and_enforce(v: &Vec<char>, i: usize, depth: usize, token: &ListToken) -> (r:
    Option<(ListToken, usize)>)
    ensures
        found_token(r) == enforced_start_at(v@, i as int, depth as nat, token@),
        r is Some ==> i + depth < r.unwrap().1 <= v.len(),
{
    match parse_item_start(v, i, depth) {
        Some((found, end)) => if token.is_compatible(&found) {
            Some((found, end))
        } else {
            None
        },
        None => None,
    }
}

/// Whether the content of an item of the list ends before `v[i]`.
fn is_item_break(v: &Vec<char>, i: usize, depth: usize, token: &ListToken) -> (b: bool)
    requires
        i < v.len(),
    ensures
        b == item_break_at(v@, i as int, depth as nat, token@),
{
    let n = line_ending_at(v, i);
    if n == 0 {
        false
    } else if line_ending_at(v, i + n) > 0 {
        true
    } else {
        parse_item_start_and_enforce(v, i + n, depth, token).is_some()
    }
}

/// The item whose trimmed content is `content`, in a list at `depth`.
pub fn parse_item_content(content: &Vec<char>, depth: usize) -> (r: Option<ListItem>)
    ensures
        match r {
            Some(item) => item_of(content@, depth as nat) == Some(item@),
            None => item_of(content@, depth as nat) is None,
        },
    decreases content@.len(), 3int, 0int,
{
    let n = content.len();
    if depth >= n {
        proof {
            let deeper = (depth + 1) as nat;
            assert forall|k: int| 0 <= k < n implies item_start_at(content@, k, deeper) is None by {
                if item_start_at(content@, k, deeper) is Some {
                    lemma_item_start_bounds(content@, k, deeper);
                }
            }
            lemma_no_sublist(content@, 0, deeper);
        }
        return Some(ListItem { text: format_chars(content), list: None });
    }
    let mut cut: usize = 0;
    while cut < n && parse_item_start(content, cut, depth + 1).is_none()
        invariant
            cut <= n,
            n == content@.len(),
            depth < n,
            sublist_start(content@, cut as int, (depth + 1) as nat) == sublist_start(
                content@,
                0,
                (depth + 1) as nat,
            ),
        decreases n - cut,
    {
        cut += 1;
    }
    if cut < n {
        let rest = slice_of(content, cut, n);
        match parse_list_at(&rest, 0, depth + 1) {
            Some((list, _)) => {
                let head = slice_of(content, 0, cut);
                let text = format_chars(&trim(&head));
                Some(ListItem { text, list: Some(list) })
            },
            None => None,
        }
    } else {
        Some(ListItem { text: format_chars(content), list: None })
    }
}

/// The item of the list at `depth` marked with `token` that starts at `v[i]`,
/// with the index behind it.
pub fn parse_item(v: &Vec<char>, i: usize, depth: usize, token: &ListToken) -> (r: Option<
    (ListItem, usize),
>)
    ensures
        found_item(r) == item_at(v@, i as int, depth as nat, token@),
        r is Some ==> i < r.unwrap().1 <= v.len(),
    decreases v@.len(), 0int, 0int,
{
    let start = match parse_item_start_and_enforce(v, i, depth, token) {
        Some((_, start)) => start,
        None => {
            return None;
        },
    };
    let mut end: usize = start;
    while end < v.len() && !is_item_break(v, end, depth, token)
        invariant
            start <= end <= v.len(),
            content_end(v@, end as int, depth as nat, token@) == content_end(
                v@,
                start as int,
                depth as nat,
                token@,
            ),
        decreases v.len() - end,
    {
        end += 1;
    }
    if end == start {
        return None;
    }
    let next = end + line_ending_at(v, end);
    let raw = slice_of(v, start, end);
    let content = trim(&raw);
    proof {
        lemma_trimmed_len(raw@);
    }
    match parse_item_content(&content, depth) {
        Some(item) => Some((item, next)),
        None => None,
    }
}

/// The list at `depth` that starts at `v[i]`, with the index behind it.
pub fn parse_list_at(v: &Vec<char>, i: usize, depth: usize) -> (r: Option<(List, usize)>)
    ensures
        found_list(r) == list_at(v@, i as int, depth as nat),
        r is Some ==> i < r.unwrap().1 <= v.len(),
    decreases v@.len(), 2int, 0int,
{
    let token = match parse_item_start(v, i, depth) {
        Some((token, _)) => token,
        None => {
            return None;
        },
    };
    let mut items: Vec<ListItem> = Vec::new();
    let mut pos: usize = i;
    let mut found = parse_item(v, pos, depth, &token);
    while found.is_some()
        invariant
            i <= pos <= v.len(),
            found_item(found) == item_at(v@, pos as int, depth as nat, token@),
            found is Some ==> pos < found.unwrap().1 <= v.len(),
            items@.len() > 0 ==> i < pos,
            items_at(v@, i as int, depth as nat, token@) == (
                item_views(items@) + items_at(v@, pos as int, depth as nat, token@).0,
                items_at(v@, pos as int, depth as nat, token@).1,
            ),
        decreases v.len() - pos,
    {
        let ghost before = items@;
        let ghost here = pos as int;
        let (item, next) = found.unwrap();
        proof {
            let rest = items_at(v@, next as int, depth as nat, token@).0;
            assert(item_views(before.push(item)) =~= item_views(before).push(item@));
            assert(item_views(before).push(item@) + rest =~= item_views(before) + (seq![item@]
                + rest));
        }
        items.push(item);
        pos = next;
        found = parse_item(v, pos, depth, &token);
    }
    if items.len() == 0 {
        return None;
    }
    let end = pos + line_ending_at(v, pos);
    let ghost views = item_views(items@);
    let list = List { vec: items, token };
    proof {
        assert(views + Seq::<ListItemView>::empty() =~= views);
        lemma_list_view(list);
    }
    Some((list, end))
}

/// The list at nesting depth `indent` at the start of `input`, with the number
/// of characters that it takes; `None` where `input` starts with no such list.
pub fn parse_list(input: &str, indent: usize) -> (r: Option<(List, usize)>)
    ensures
        found_list(r) == list_at(input@, 0, indent as nat),
{
    let v = to_chars(input);
    parse_list_at(&v, 0, indent)
}

} // verus!
