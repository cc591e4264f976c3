//! List tokens: the marker that introduces a list item, and its recognition.

use vstd::prelude::*;
use vstd::std_specs::cmp::PartialEqSpecImpl;
use crate::chars::{
    char_is_alphabetic, char_is_uppercase, is_alphabetic, is_digit, is_uppercase, push_char,
    to_chars,
};
use crate::numeral::{is_roman_numeral, roman_char};

verus! {

/// The numbering scheme of an ordered list. The flag of `Roman` and of
/// `Alphabetical` tells whether the numbering is in upper case.
#[derive(Debug, Clone, Copy, PartialEq, Eq, Structural)]
pub enum TokenEnumerator {
    Numerical,
    Roman(bool),
    Alphabetical(bool),
}

/// The name of the LaTeX counter format for `enumerator`.
pub open spec fn counter_name(enumerator: TokenEnumerator) -> Seq<char> {
    match enumerator {
        TokenEnumerator::Numerical => "\\arabic"@,
        TokenEnumerator::Alphabetical(true) => "\\Alph"@,
        TokenEnumerator::Alphabetical(false) => "\\alph"@,
        TokenEnumerator::Roman(true) => "\\Roman"@,
        TokenEnumerator::Roman(false) => "\\roman"@,
    }
}

/// What stands for the number of an item in a LaTeX label: the counter format
/// applied to the counter of the list at hand.
pub open spec fn counter_text(enumerator: TokenEnumerator) -> Seq<char> {
    counter_name(enumerator) + "*"@
}

impl TokenEnumerator {
    /// What stands for the number of an item in a LaTeX label.
    pub fn latex(&self) -> (text: String)
        ensures
            text@ == counter_text(*self),
    {
        let name = match self {
            TokenEnumerator::Numerical => "\\arabic",
            TokenEnumerator::Alphabetical(true) => "\\Alph",
            TokenEnumerator::Alphabetical(false) => "\\alph",
            TokenEnumerator::Roman(true) => "\\Roman",
            TokenEnumerator::Roman(false) => "\\roman",
        };
        let mut text = String::new();
        text.append(name);
        text.append("*");
        proof {
            assert(text@ =~= name@ + "*"@);
        }
        text
    }
}

/// `pattern[i..]` with every `{}` replaced by `with`.
pub open spec fn filled_from(pattern: Seq<char>, i: int, with: Seq<char>) -> Seq<char>
    decreases pattern.len() - i,
{
    if !(0 <= i < pattern.len()) {
        Seq::empty()
    } else if pattern[i] == '{' && i + 1 < pattern.len() && pattern[i + 1] == '}' {
        with + filled_from(pattern, i + 2, with)
    } else {
        seq![pattern[i]] + filled_from(pattern, i + 1, with)
    }
}

/// `pattern` with every `{}` replaced by `with`.
pub open spec fn filled(pattern: Seq<char>, with: Seq<char>) -> Seq<char> {
    filled_from(pattern, 0, with)
}

/// The symbols around the enumerator of a list token, with `{}` standing where
/// the enumerator goes; for an unnumbered list, the bullet symbol itself.
#[derive(Debug)]
pub struct TokenWrapper(String);

impl View for TokenWrapper {
    type V = Seq<char>;

    closed spec fn view(&self) -> Seq<char> {
        self.0@
    }
}

impl Clone for TokenWrapper {
    fn clone(&self) -> (r: Self)
        ensures
            r@ == self@,
    {
        TokenWrapper(self.0.clone())
    }
}

impl PartialEq for TokenWrapper {
    fn eq(&self, other: &Self) -> (r: bool) {
        self.0 == other.0
    }
}

impl Eq for TokenWrapper {

}

impl PartialEqSpecImpl for TokenWrapper {
    open spec fn obeys_eq_spec() -> bool {
        true
    }

    open spec fn eq_spec(&self, other: &Self) -> bool {
        self@ == other@
    }
}

impl TokenWrapper {
    /// The label of an item: the wrapper with `enumerator` in the place of
    /// every `{}`.
    pub fn label(&self, enumerator: &str) -> (text: String)
        ensures
            text@ == filled(self@, enumerator@),
    {
        let pattern = to_chars(self.0.as_str());
        let mut text = String::new();
        let mut i: usize = 0;
        while i < pattern.len()
            invariant
                i <= pattern.len(),
                pattern@ == self@,
                text@ + filled_from(pattern@, i as int, enumerator@) == filled(self@, enumerator@),
            decreases pattern.len() - i,
        {
            let ghost before = text@;
            if pattern[i] == '{' && pattern.len() - i > 1 && pattern[i + 1] == '}' {
                text.append(enumerator);
                proof {
                    assert(text@ + filled_from(pattern@, i + 2, enumerator@) =~= before + (
                    enumerator@ + filled_from(pattern@, i + 2, enumerator@)));
                }
                i += 2;
            } else {
                push_char(&mut text, pattern[i]);
                proof {
                    assert(text@ + filled_from(pattern@, i + 1, enumerator@) =~= before + (
                    seq![pattern@[i as int]] + filled_from(pattern@, i + 1, enumerator@)));
                }
                i += 1;
            }
        }
        proof {
            assert(text@ + Seq::<char>::empty() =~= text@);
        }
        text
    }

    /// The symbol of an unnumbered list: the wrapper as it stands.
    pub fn unnumbered(&self) -> (text: String)
        ensures
            text@ == self@,
    {
        self.0.clone()
    }
}

/// The marker of a list: all the items of one list share it.
#[derive(Debug)]
pub struct ListToken {
    pub wrapper: TokenWrapper,
    /// `None` for an unnumbered list.
    pub enumerator: Option<TokenEnumerator>,
}

/// What a `ListToken` stands for.
pub ghost struct ListTokenView {
    pub wrapper: Seq<char>,
    pub enumerator: Option<TokenEnumerator>,
}

impl View for ListToken {
    type V = ListTokenView;

    open spec fn view(&self) -> ListTokenView {
        ListTokenView { wrapper: self.wrapper@, enumerator: self.enumerator }
    }
}

impl Clone for ListToken {
    fn clone(&self) -> (r: Self)
        ensures
            r@ == self@,
    {
        ListToken { wrapper: self.wrapper.clone(), enumerator: self.enumerator }
    }
}

impl PartialEq for ListToken {
    fn eq(&self, other: &Self) -> (r: bool) {
        self.wrapper == other.wrapper && self.enumerator == other.enumerator
    }
}

impl Eq for ListToken {

}

impl PartialEqSpecImpl for ListToken {
    open spec fn obeys_eq_spec() -> bool {
        true
    }

    open spec fn eq_spec(&self, other: &Self) -> bool {
        self@ == other@
    }
}

/// The token of an unnumbered list whose bullet is `symbol`.
pub open spec fn unnumbered_token(symbol: char) -> ListTokenView {
    ListTokenView { wrapper: seq![symbol], enumerator: None }
}

/// The token of a list numbered by `enumerator`, each number followed by
/// `terminator`.
pub open spec fn enumerated_token(enumerator: TokenEnumerator, terminator: char) -> ListTokenView {
    ListTokenView { wrapper: seq!['{', '}', terminator], enumerator: Some(enumerator) }
}

/// Whether two numbering schemes may stand in one list: equal schemes, and
/// alphabetical beside roman in the same case, since a single roman letter
/// reads as a letter of the alphabet.
pub open spec fn compatible(a: Option<TokenEnumerator>, b: Option<TokenEnumerator>) -> bool {
    a == b || match (a, b) {
        (Some(TokenEnumerator::Alphabetical(u)), Some(TokenEnumerator::Roman(v))) => u == v,
        (Some(TokenEnumerator::Roman(u)), Some(TokenEnumerator::Alphabetical(v))) => u == v,
        _ => false,
    }
}

impl ListToken {
    fn unnumbered(symbol: char) -> (t: ListToken)
        ensures
            t@ == unnumbered_token(symbol),
    {
        let mut wrapper = String::new();
        push_char(&mut wrapper, symbol);
        proof {
            assert(wrapper@ =~= seq![symbol]);
        }
        ListToken { wrapper: TokenWrapper(wrapper), enumerator: None }
    }

    fn enumerated(enumerator: TokenEnumerator, terminator: char) -> (t: ListToken)
        ensures
            t@ == enumerated_token(enumerator, terminator),
    {
        let mut wrapper = String::new();
        push_char(&mut wrapper, '{');
        push_char(&mut wrapper, '}');
        push_char(&mut wrapper, terminator);
        proof {
            assert(wrapper@ =~= seq!['{', '}', terminator]);
        }
        ListToken { wrapper: TokenWrapper(wrapper), enumerator: Some(enumerator) }
    }

    /// The token of a list marked with `*`.
    pub fn bullet() -> (t: ListToken)
        ensures
            t@ == unnumbered_token('*'),
    {
        ListToken::unnumbered('*')
    }

    /// The token of a list marked with `+`.
    pub fn plus() -> (t: ListToken)
        ensures
            t@ == unnumbered_token('+'),
    {
        ListToken::unnumbered('+')
    }

    /// The token of a list marked with `-`.
    pub fn hyphen() -> (t: ListToken)
        ensures
            t@ == unnumbered_token('-'),
    {
        ListToken::unnumbered('-')
    }

    /// Whether an item marked with `other` may stand in a list marked with
    /// `self`.
    pub fn is_compatible(&self, other: &ListToken) -> (b: bool)
        ensures
            b == compatible(self@.enumerator, other@.enumerator),
    {
        match (self.enumerator, other.enumerator) {
            (None, None) => true,
            (Some(a), Some(b)) => a == b || match (a, b) {
                (TokenEnumerator::Alphabetical(u), TokenEnumerator::Roman(v)) => u == v,
                (TokenEnumerator::Roman(u), TokenEnumerator::Alphabetical(v)) => u == v,
                _ => false,
            },
            _ => false,
        }
    }
}

/// Compatibility does not depend on the order of the two schemes, and every
/// scheme is compatible with itself.
pub proof fn lemma_compatible_symmetric(a: Option<TokenEnumerator>, b: Option<TokenEnumerator>)
    ensures
        compatible(a, b) == compatible(b, a),
        compatible(a, a),
{
}

/// Whether `c` can close an enumerator.
pub open spec fn is_terminator(c: char) -> bool {
    c == '.' || c == ')' || c == '-'
}

/// Whether `c` can mark an item of an unnumbered list.
pub open spec fn is_bullet(c: char) -> bool {
    c == '*' || c == '+' || c == '-'
}

/// Whether a terminator stands at `s[i]`.
pub open spec fn terminated_at(s: Seq<char>, i: int) -> bool {
    0 <= i < s.len() && is_terminator(s[i])
}

/// The end of the run of decimal digits that starts at `i`.
pub open spec fn digits_end(s: Seq<char>, i: int) -> int
    decreases s.len() - i,
{
    if 0 <= i < s.len() && is_digit(s[i]) {
        digits_end(s, i + 1)
    } else {
        i
    }
}

/// The end of the run of roman numeral letters that starts at `i`.
pub open spec fn numerals_end(s: Seq<char>, i: int) -> int
    decreases s.len() - i,
{
    if 0 <= i < s.len() && roman_char(s[i]) {
        numerals_end(s, i + 1)
    } else {
        i
    }
}

/// The enumerator that starts at `s[i]` and the index of the terminator that
/// closes it, where `alphabetic` says whether `s[i]` is a letter and
/// `uppercase` whether it is in upper case. A run of digits is tried first,
/// then a single letter, then a run of roman numeral letters; each counts only
/// with a terminator behind it.
pub open spec fn enumerator_given(s: Seq<char>, i: int, alphabetic: bool, uppercase: bool) -> Option<
    (TokenEnumerator, int),
> {
    if !(0 <= i < s.len()) {
        None
    } else if i < digits_end(s, i) && terminated_at(s, digits_end(s, i)) {
        Some((TokenEnumerator::Numerical, digits_end(s, i)))
    } else if alphabetic && terminated_at(s, i + 1) {
        Some((TokenEnumerator::Alphabetical(uppercase), i + 1))
    } else if i < numerals_end(s, i) && terminated_at(s, numerals_end(s, i)) {
        Some((TokenEnumerator::Roman(uppercase), numerals_end(s, i)))
    } else {
        None
    }
}

/// The enumerator that starts at `s[i]` and the index of the terminator that
/// closes it.
pub open spec fn enumerator_at(s: Seq<char>, i: int) -> Option<(TokenEnumerator, int)> {
    if 0 <= i < s.len() {
        enumerator_given(s, i, char_is_alphabetic(s[i]), char_is_uppercase(s[i]))
    } else {
        None
    }
}

/// The list token that starts at `s[i]` and the index behind it, if one starts
/// there: a bullet, or else an enumerator with its terminator.
pub open spec fn token_at(s: Seq<char>, i: int) -> Option<(ListTokenView, int)> {
    if 0 <= i < s.len() && is_bullet(s[i]) {
        Some((unnumbered_token(s[i]), i + 1))
    } else {
        match enumerator_at(s, i) {
            Some((enumerator, end)) => Some((enumerated_token(enumerator, s[end]), end + 1)),
            None => None,
        }
    }
}

/// What a recognizer's answer stands for.
pub open spec fn found_token(r: Option<(ListToken, usize)>) -> Option<(ListTokenView, int)> {
    match r {
        Some((token, end)) => Some((token@, end as int)),
        None => None,
    }
}

/// A token that starts inside the sequence ends inside it, after its start.
pub proof fn lemma_token_at_bounds(s: Seq<char>, i: int)
    requires
        token_at(s, i) is Some,
    ensures
        0 <= i < token_at(s, i).unwrap().1 <= s.len(),
{
}

/// The terminator at `v[i]`, if one stands there.
pub fn parse_terminator(v: &Vec<char>, i: usize) -> (r: Option<char>)
    ensures
        r is Some <==> terminated_at(v@, i as int),
        r is Some ==> r.unwrap() == v@[i as int],
{
    if i < v.len() && (v[i] == '.' || v[i] == ')' || v[i] == '-') {
        Some(v[i])
    } else {
        None
    }
}

/// The token of an unnumbered list at `v[i]`, with the index behind it.
pub fn parse_unnumbered_token(v: &Vec<char>, i: usize) -> (r: Option<(ListToken, usize)>)
    ensures
        found_token(r) == if i < v.len() && is_bullet(v@[i as int]) {
            Some((unnumbered_token(v@[i as int]), i + 1))
        } else {
            None
        },
{
    if i >= v.len() {
        None
    } else if v[i] == '*' {
        Some((ListToken::bullet(), i + 1))
    } else if v[i] == '+' {
        Some((ListToken::plus(), i + 1))
    } else if v[i] == '-' {
        Some((ListToken::hyphen(), i + 1))
    } else {
        None
    }
}

/// The end of the run of decimal digits that starts at `v[i]`.
fn scan_digits(v: &Vec<char>, i: usize) -> (e: usize)
    requires
        i <= v.len(),
    ensures
        i <= e <= v.len(),
        e == digits_end(v@, i as int),
{
    let mut e: usize = i;
    while e < v.len() && '0' <= v[e] && v[e] <= '9'
        invariant
            i <= e <= v.len(),
            digits_end(v@, e as int) == digits_end(v@, i as int),
        decreases v.len() - e,
    {
        e += 1;
    }
    e
}

/// The end of the run of roman numeral letters that starts at `v[i]`.
fn scan_numerals(v: &Vec<char>, i: usize) -> (e: usize)
    requires
        i <= v.len(),
    ensures
        i <= e <= v.len(),
        e == numerals_end(v@, i as int),
{
    let mut e: usize = i;
    while e < v.len() && is_roman_numeral(v[e])
        invariant
            i <= e <= v.len(),
            numerals_end(v@, e as int) == numerals_end(v@, i as int),
        decreases v.len() - e,
    {
        e += 1;
    }
    e
}

/// The enumerator at `v[i]`, with the index of the terminator that closes it,
/// where `alphabetic` says whether `v[i]` is a letter and `uppercase` whether
/// it is in upper case.
pub fn classify_enumerator(v: &Vec<char>, i: usize, alphabetic: bool, uppercase: bool) -> (r:
    Option<(TokenEnumerator, usize)>)
    ensures
        r == match enumerator_given(v@, i as int, alphabetic, uppercase) {
            Some((enumerator, end)) => Some((enumerator, end as usize)),
            None => None,
        },
        r is Some ==> i < r.unwrap().1 < v.len(),
{
    if i >= v.len() {
        return None;
    }
    let digits = scan_digits(v, i);
    if i < digits && parse_terminator(v, digits).is_some() {
        return Some((TokenEnumerator::Numerical, digits));
    }
    if alphabetic && parse_terminator(v, i + 1).is_some() {
        return Some((TokenEnumerator::Alphabetical(uppercase), i + 1));
    }
    let numerals = scan_numerals(v, i);
    if i < numerals && parse_terminator(v, numerals).is_some() {
        return Some((TokenEnumerator::Roman(uppercase), numerals));
    }
    None
}

/// The enumerator at `v[i]`, with the index of the terminator that closes it.
pub fn parse_enumerator(v: &Vec<char>, i: usize) -> (r: Option<(TokenEnumerator, usize)>)
    ensures
        r == match enumerator_at(v@, i as int) {
            Some((enumerator, end)) => Some((enumerator, end as usize)),
            None => None,
        },
        r is Some ==> i < r.unwrap().1 < v.len(),
{
    if i >= v.len() {
        return None;
    }
    classify_enumerator(v, i, is_alphabetic(v[i]), is_uppercase(v[i]))
}

/// The token of a numbered list at `v[i]`, with the index behind it.
pub fn parse_enumerated_token(v: &Vec<char>, i: usize) -> (r: Option<(ListToken, usize)>)
    ensures
        found_token(r) == match enumerator_at(v@, i as int) {
            Some((enumerator, end)) => Some((enumerated_token(enumerator, v@[end]), end + 1)),
            None => None,
        },
{
    match parse_enumerator(v, i) {
        Some((enumerator, end)) => Some((ListToken::enumerated(enumerator, v[end]), end + 1)),
        None => None,
    }
}

/// The list token that starts at `v[i]`, with the index behind it; `None`
/// where no token starts.
pub fn recognize(v: &Vec<char>, i: usize) -> (r: Option<(ListToken, usize)>)
    ensures
        found_token(r) == token_at(v@, i as int),
        r is Some ==> i < r.unwrap().1 <= v.len(),
{
    match parse_unnumbered_token(v, i) {
        Some(found) => Some(found),
        None => parse_enumerated_token(v, i),
    }
}

/// The list token at the start of `input`, with the number of characters that
/// it takes; `None` where `input` starts with no token.
pub fn parse_item_token(input: &str) -> (r: Option<(ListToken, usize)>)
    ensures
        found_token(r) == token_at(input@, 0),
{
    let v = to_chars(input);
    recognize(&v, 0)
}

} // verus!
