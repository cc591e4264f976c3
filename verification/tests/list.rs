use aldoc::chars::to_chars;
use aldoc::list::{parse_item, parse_item_start, parse_item_start_and_enforce, parse_list};
use aldoc::token::{ListToken, TokenEnumerator};

#[test]
fn list_ends_at_a_blank_line() {
    let (list, taken) = parse_list("- a\n- b\n\nrest", 0).unwrap();
    assert_eq!(list.vec.len(), 2);
    assert_eq!(list.vec[1].text, "b");
    assert_eq!(taken, 9);
    assert_eq!(list.token, ListToken::hyphen());
}

#[test]
fn list_at_a_depth_needs_its_tabs() {
    assert!(parse_list("- a", 1).is_none());
    let (list, taken) = parse_list("\t- a\n\t- b", 1).unwrap();
    assert_eq!(list.vec.len(), 2);
    assert_eq!(taken, 9);
    assert!(parse_list("\t- a", 0).is_none());
    assert!(parse_list("", 0).is_none());
}

#[test]
fn item_text_runs_over_lines() {
    let (list, _) = parse_list("1. a\nmore\n2. b", 0).unwrap();
    assert_eq!(list.vec.len(), 2);
    assert_eq!(list.vec[0].text, "a more");
    assert_eq!(list.vec[1].text, "b");
}

#[test]
fn nested_list_takes_the_rest_of_the_item() {
    let (list, _) = parse_list("- a\n\t1. b\n\t2. c\n- d", 0).unwrap();
    assert_eq!(list.vec.len(), 2);
    let nested = list.vec[0].list.as_ref().unwrap();
    assert_eq!(nested.token.enumerator, Some(TokenEnumerator::Numerical));
    assert_eq!(nested.vec.len(), 2);
    assert_eq!(nested.vec[1].text, "c");
}

#[test]
fn item_start_with_tabs() {
    let chars = to_chars("x\t\t- a");
    let (token, end) = parse_item_start(&chars, 1, 2).unwrap();
    assert_eq!(token, ListToken::hyphen());
    assert_eq!(end, 4);
    assert!(parse_item_start(&chars, 1, 1).is_none());
    assert!(parse_item_start(&chars, 0, 2).is_none());
    let (_, end) = parse_item_start(&chars, 2, 1).unwrap();
    assert_eq!(end, 4);
    assert!(parse_item_start(&chars, 7, 0).is_none());
}

#[test]
fn item_start_of_another_kind_is_refused() {
    let chars = to_chars("2) a");
    assert!(parse_item_start_and_enforce(&chars, 0, 0, &ListToken::hyphen()).is_none());
    let (number, _) = parse_item_start(&to_chars("1."), 0, 0).unwrap();
    let (found, end) = parse_item_start_and_enforce(&chars, 0, 0, &number).unwrap();
    assert_eq!(found.enumerator, Some(TokenEnumerator::Numerical));
    assert_eq!(end, 2);
}

#[test]
fn one_item() {
    let chars = to_chars("- a *b*\n- c");
    let (item, next) = parse_item(&chars, 0, 0, &ListToken::hyphen()).unwrap();
    assert_eq!(item.text, "a *b*");
    assert!(item.list.is_none());
    assert_eq!(next, 8);
    let (item, next) = parse_item(&chars, 8, 0, &ListToken::hyphen()).unwrap();
    assert_eq!(item.text, "c");
    assert_eq!(next, 11);
    assert!(parse_item(&chars, 11, 0, &ListToken::hyphen()).is_none());
}

#[test]
fn copies_are_deep() {
    let (list, _) = parse_list("- a\n\t1. b\n- d", 0).unwrap();
    let copy = list.clone();
    assert_eq!(copy.vec.len(), 2);
    assert_eq!(copy.vec[0].text, "a");
    assert_eq!(copy.vec[0].list.as_ref().unwrap().vec[0].text, "b");
    assert_eq!(copy.token, list.token);
}
