use aldoc::token::{parse_item_token, ListToken, TokenEnumerator};

#[test]
fn bullets() {
    assert_eq!(ListToken::bullet().wrapper.unnumbered(), "*");
    assert_eq!(ListToken::plus().wrapper.unnumbered(), "+");
    assert_eq!(ListToken::hyphen().wrapper.unnumbered(), "-");
    assert_eq!(ListToken::bullet().enumerator, None);
    assert_eq!(ListToken::plus().enumerator, None);
    assert_eq!(ListToken::hyphen().enumerator, None);
}

#[test]
fn bullet_tokens_are_recognized() {
    let (token, taken) = parse_item_token("- text").unwrap();
    assert_eq!(token, ListToken::hyphen());
    assert_eq!(taken, 1);
    let (token, taken) = parse_item_token("+text").unwrap();
    assert_eq!(token, ListToken::plus());
    assert_eq!(taken, 1);
    let (token, taken) = parse_item_token("*").unwrap();
    assert_eq!(token, ListToken::bullet());
    assert_eq!(taken, 1);
}

#[test]
fn numbers_are_recognized() {
    let (token, taken) = parse_item_token("12. text").unwrap();
    assert_eq!(token.enumerator, Some(TokenEnumerator::Numerical));
    assert_eq!(token.wrapper.unnumbered(), "{}.");
    assert_eq!(taken, 3);
    let (token, taken) = parse_item_token("7) text").unwrap();
    assert_eq!(token.enumerator, Some(TokenEnumerator::Numerical));
    assert_eq!(token.wrapper.unnumbered(), "{})");
    assert_eq!(taken, 2);
    let (token, taken) = parse_item_token("007-").unwrap();
    assert_eq!(token.enumerator, Some(TokenEnumerator::Numerical));
    assert_eq!(token.wrapper.unnumbered(), "{}-");
    assert_eq!(taken, 4);
}

#[test]
fn letters_are_recognized() {
    let (token, taken) = parse_item_token("a) text").unwrap();
    assert_eq!(token.enumerator, Some(TokenEnumerator::Alphabetical(false)));
    assert_eq!(taken, 2);
    let (token, _) = parse_item_token("Q. text").unwrap();
    assert_eq!(token.enumerator, Some(TokenEnumerator::Alphabetical(true)));
    let (token, _) = parse_item_token("\u{e9}. text").unwrap();
    assert_eq!(token.enumerator, Some(TokenEnumerator::Alphabetical(false)));
    let (token, _) = parse_item_token("\u{c9}. text").unwrap();
    assert_eq!(token.enumerator, Some(TokenEnumerator::Alphabetical(true)));
}

#[test]
fn single_roman_letter_reads_as_a_letter() {
    let (token, taken) = parse_item_token("I. text").unwrap();
    assert_eq!(token.enumerator, Some(TokenEnumerator::Alphabetical(true)));
    assert_eq!(taken, 2);
    let (token, _) = parse_item_token("v) text").unwrap();
    assert_eq!(token.enumerator, Some(TokenEnumerator::Alphabetical(false)));
}

#[test]
fn roman_numerals_are_recognized() {
    let (token, taken) = parse_item_token("XIV. text").unwrap();
    assert_eq!(token.enumerator, Some(TokenEnumerator::Roman(true)));
    assert_eq!(token.wrapper.unnumbered(), "{}.");
    assert_eq!(taken, 4);
    let (token, taken) = parse_item_token("mcmxc- text").unwrap();
    assert_eq!(token.enumerator, Some(TokenEnumerator::Roman(false)));
    assert_eq!(token.wrapper.unnumbered(), "{}-");
    assert_eq!(taken, 6);
    let (token, _) = parse_item_token("iI) text").unwrap();
    assert_eq!(token.enumerator, Some(TokenEnumerator::Roman(false)));
}

#[test]
fn no_token() {
    assert!(parse_item_token("").is_none());
    assert!(parse_item_token("text").is_none());
    assert!(parse_item_token("12 text").is_none());
    assert!(parse_item_token("ab. text").is_none());
    assert!(parse_item_token("XIVa. text").is_none());
    assert!(parse_item_token(" - text").is_none());
    assert!(parse_item_token(". text").is_none());
    assert!(parse_item_token("1").is_none());
    assert!(parse_item_token("#. text").is_none());
}

#[test]
fn compatible_tokens() {
    let (letter, _) = parse_item_token("I.").unwrap();
    let (roman, _) = parse_item_token("II.").unwrap();
    let (lower, _) = parse_item_token("ii)").unwrap();
    let (number, _) = parse_item_token("2)").unwrap();
    let (other_number, _) = parse_item_token("3.").unwrap();
    assert!(letter.is_compatible(&roman));
    assert!(roman.is_compatible(&letter));
    assert!(roman.is_compatible(&roman));
    assert!(!letter.is_compatible(&lower));
    assert!(!lower.is_compatible(&letter));
    assert!(!number.is_compatible(&roman));
    assert!(!number.is_compatible(&ListToken::hyphen()));
    assert!(!ListToken::hyphen().is_compatible(&letter));
    assert!(number.is_compatible(&other_number));
    assert!(ListToken::hyphen().is_compatible(&ListToken::plus()));
}

#[test]
fn latex_counters() {
    assert_eq!(TokenEnumerator::Numerical.latex(), "\\arabic*");
    assert_eq!(TokenEnumerator::Alphabetical(true).latex(), "\\Alph*");
    assert_eq!(TokenEnumerator::Alphabetical(false).latex(), "\\alph*");
    assert_eq!(TokenEnumerator::Roman(true).latex(), "\\Roman*");
    assert_eq!(TokenEnumerator::Roman(false).latex(), "\\roman*");
}

#[test]
fn labels() {
    let (token, _) = parse_item_token("1)").unwrap();
    assert_eq!(token.wrapper.label("x"), "x)");
    assert_eq!(token.wrapper.label(""), ")");
    assert_eq!(token.wrapper.label("\\arabic*"), "\\arabic*)");
    assert_eq!(ListToken::hyphen().wrapper.label("x"), "-");
}

#[test]
fn tokens_are_equal_by_wrapper_and_enumerator() {
    let (first, _) = parse_item_token("1)").unwrap();
    let (second, _) = parse_item_token("22)").unwrap();
    let (third, _) = parse_item_token("1.").unwrap();
    assert_eq!(first, second);
    assert_ne!(first, third);
    assert_eq!(first.clone(), first);
    assert_ne!(ListToken::hyphen(), ListToken::plus());
}
