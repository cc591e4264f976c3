use aldoc::list::List;
use aldoc::parse::{into_parts, parse, Block, ParseError, SyntaxError};
use aldoc::token::{parse_item_token, TokenEnumerator};

fn list_of(block: &Block) -> &List {
    match block {
        Block::List(list) => list,
        other => panic!("not a list: {:?}", other),
    }
}

#[test]
fn heading_levels_one_step_at_a_time() {
    let document = parse("# A\n\n## B\n\n### C").unwrap();
    assert_eq!(document.blocks.len(), 3);
    match &document.blocks[2] {
        Block::Heading(level, title) => {
            assert_eq!(*level, 3);
            assert_eq!(title, "C");
        }
        other => panic!("not a heading: {:?}", other),
    }
}

#[test]
fn heading_level_skipped() {
    let error = parse("# A\n\n### B").unwrap_err();
    assert_eq!(
        error,
        ParseError::SyntaxError(SyntaxError::SkippedHeadingLevel(1, 3))
    );
}

#[test]
fn heading_level_skipped_at_the_start() {
    let error = parse("## A").unwrap_err();
    assert_eq!(
        error,
        ParseError::SyntaxError(SyntaxError::SkippedHeadingLevel(0, 2))
    );
}

#[test]
fn heading_level_may_fall_by_any_amount() {
    let document = parse("# A\n\n## B\n\n### C\n\n# D\n\n## E").unwrap();
    assert_eq!(document.blocks.len(), 5);
}

#[test]
fn heading_title_is_trimmed() {
    let document = parse("#   Title  \n").unwrap();
    match &document.blocks[0] {
        Block::Heading(level, title) => {
            assert_eq!(*level, 1);
            assert_eq!(title, "Title");
        }
        other => panic!("not a heading: {:?}", other),
    }
}

#[test]
fn roman_items_make_one_list() {
    let document = parse("I. one\nII. two\nIII. three").unwrap();
    assert_eq!(document.blocks.len(), 1);
    let list = list_of(&document.blocks[0]);
    assert_eq!(list.vec.len(), 3);
    assert_eq!(list.token.enumerator, Some(TokenEnumerator::Alphabetical(true)));
    let (roman, _) = parse_item_token("II.").unwrap();
    assert_eq!(roman.enumerator, Some(TokenEnumerator::Roman(true)));
    assert!(list.token.is_compatible(&roman));
    assert_eq!(list.vec[0].text, "one");
    assert_eq!(list.vec[1].text, "two");
    assert_eq!(list.vec[2].text, "three");
}

#[test]
fn nested_list() {
    let document = parse("- A\n\t- B\n\t- C\n- D").unwrap();
    assert_eq!(document.blocks.len(), 1);
    let list = list_of(&document.blocks[0]);
    assert_eq!(list.vec.len(), 2);
    assert_eq!(list.vec[0].text, "A");
    let nested = list.vec[0].list.as_ref().unwrap();
    assert_eq!(nested.vec.len(), 2);
    assert_eq!(nested.vec[0].text, "B");
    assert!(nested.vec[0].list.is_none());
    assert_eq!(nested.vec[1].text, "C");
    assert!(nested.vec[1].list.is_none());
    assert_eq!(list.vec[1].text, "D");
    assert!(list.vec[1].list.is_none());
}

#[test]
fn list_of_one_item() {
    let document = parse("1) only").unwrap();
    let list = list_of(&document.blocks[0]);
    assert_eq!(list.vec.len(), 1);
    assert_eq!(list.token.enumerator, Some(TokenEnumerator::Numerical));
    assert_eq!(list.vec[0].text, "only");
}

#[test]
fn list_three_levels_deep() {
    let document = parse("1. a\n\ta) b\n\t\t- c\n2. d").unwrap();
    let list = list_of(&document.blocks[0]);
    assert_eq!(list.vec.len(), 2);
    let second = list.vec[0].list.as_ref().unwrap();
    assert_eq!(second.token.enumerator, Some(TokenEnumerator::Alphabetical(false)));
    assert_eq!(second.vec[0].text, "b");
    let third = second.vec[0].list.as_ref().unwrap();
    assert_eq!(third.token.enumerator, None);
    assert_eq!(third.vec[0].text, "c");
    assert_eq!(list.vec[1].text, "d");
}

#[test]
fn item_of_another_kind_belongs_to_the_text() {
    let document = parse("- A\n1. B").unwrap();
    let list = list_of(&document.blocks[0]);
    assert_eq!(list.vec.len(), 1);
    assert_eq!(list.vec[0].text, "A 1. B");
}

#[test]
fn nested_list_that_fails_leaves_a_paragraph() {
    let document = parse("- A\n\t-").unwrap();
    assert_eq!(document.blocks.len(), 1);
    match &document.blocks[0] {
        Block::Paragraph(text) => assert_eq!(text, "- A -"),
        other => panic!("not a paragraph: {:?}", other),
    }
}

#[test]
fn rest_behind_a_list_is_a_block_of_its_own() {
    let document = parse("- A\n-").unwrap();
    assert_eq!(document.blocks.len(), 2);
    assert_eq!(list_of(&document.blocks[0]).vec.len(), 1);
    match &document.blocks[1] {
        Block::Paragraph(text) => assert_eq!(text, "-"),
        other => panic!("not a paragraph: {:?}", other),
    }
}

#[test]
fn marker_without_content_is_a_paragraph() {
    let document = parse("-").unwrap();
    match &document.blocks[0] {
        Block::Paragraph(text) => assert_eq!(text, "-"),
        other => panic!("not a paragraph: {:?}", other),
    }
}

#[test]
fn paragraph_lines_are_joined() {
    let document = parse("one\ntwo\r\n\tthree").unwrap();
    match &document.blocks[0] {
        Block::Paragraph(text) => assert_eq!(text, "one two three"),
        other => panic!("not a paragraph: {:?}", other),
    }
}

#[test]
fn blocks_keep_their_order() {
    let document = parse("# T\n\nfirst\n\n- x\n- y\n\nlast\n\n").unwrap();
    assert_eq!(document.blocks.len(), 4);
    assert!(matches!(document.blocks[0], Block::Heading(1, _)));
    assert!(matches!(document.blocks[1], Block::Paragraph(_)));
    assert!(matches!(document.blocks[2], Block::List(_)));
    assert!(matches!(document.blocks[3], Block::Paragraph(_)));
}

#[test]
fn first_error_ends_the_parse() {
    let error = parse("# A\n\n### B\n\n##### C").unwrap_err();
    assert_eq!(
        error,
        ParseError::SyntaxError(SyntaxError::SkippedHeadingLevel(1, 3))
    );
}

#[test]
fn parts_are_split_at_blank_lines() {
    assert_eq!(into_parts("a\n\nb\nc\r\n\r\nd"), vec!["a", "b\nc", "d"]);
}

#[test]
fn blank_parts_at_the_ends_are_dropped() {
    assert_eq!(into_parts("\n\n \n\na\n\n\n\nb\n\n\t\n\n"), vec!["a", "", "b"]);
    assert_eq!(into_parts("").len(), 0);
    assert_eq!(into_parts("\n\n").len(), 0);
}

#[test]
fn empty_text_is_an_empty_document() {
    assert_eq!(parse("").unwrap().blocks.len(), 0);
}
