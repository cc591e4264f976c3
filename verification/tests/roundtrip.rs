use aldoc::chars::to_chars;
use aldoc::compiler::{Compiler, IntoPrintable};
use aldoc::parse::{parse, Block, Document};
use aldoc::token::{classify_enumerator, TokenEnumerator};

fn kinds_and_texts(document: &Document) -> Vec<String> {
    let mut all = Vec::new();
    for block in &document.blocks {
        match block {
            Block::Heading(level, title) => all.push(format!("heading {} {}", level, title)),
            Block::Paragraph(text) => all.push(format!("paragraph {}", text)),
            Block::List(list) => {
                all.push(format!("list of {}", list.vec.len()));
                for item in &list.vec {
                    all.push(format!("item {} {}", item.text, item.list.is_some()));
                }
            }
        }
    }
    all
}

#[test]
fn plain_text_reads_back() {
    let source = "# Title\n\nsome text, and more\n\n- a\n- b c\n- d\n\n## Part\n\n1. x\n2. y\n\nend";
    let document = parse(source).unwrap();
    let text = IntoPrintable.compile(&document).unwrap();
    assert_eq!(
        text,
        "# Title\n\nsome text, and more\n\n- a\n- b c\n- d\n\n## Part\n\n1. x\n2. y\n\nend\n\n"
    );
    let again = parse(&text).unwrap();
    assert_eq!(kinds_and_texts(&again), kinds_and_texts(&document));
    assert_eq!(IntoPrintable.compile(&again).unwrap(), text);
    match (&document.blocks[2], &again.blocks[2]) {
        (Block::List(first), Block::List(second)) => assert_eq!(first.token, second.token),
        _ => panic!("not a list"),
    }
}

#[test]
fn numbered_list_of_many_items_reads_back() {
    let mut source = String::new();
    for _ in 0..120 {
        source.push_str("1. item\n");
    }
    let document = parse(&source).unwrap();
    let text = IntoPrintable.compile(&document).unwrap();
    let again = parse(&text).unwrap();
    assert_eq!(kinds_and_texts(&again), kinds_and_texts(&document));
    assert_eq!(IntoPrintable.compile(&again).unwrap(), text);
}

#[test]
fn nested_list_is_read_back_flat() {
    let document = parse("- a\n\t- b").unwrap();
    let text = IntoPrintable.compile(&document).unwrap();
    assert_eq!(text, "- a\n  - b\n\n");
    let again = parse(&text).unwrap();
    match &again.blocks[0] {
        Block::List(list) => {
            assert_eq!(list.vec.len(), 1);
            assert_eq!(list.vec[0].text, "a   - b");
            assert!(list.vec[0].list.is_none());
        }
        other => panic!("not a list: {:?}", other),
    }
}

#[test]
fn enumerator_by_the_class_of_its_first_character() {
    let chars = to_chars("I. x");
    assert_eq!(
        classify_enumerator(&chars, 0, true, true),
        Some((TokenEnumerator::Alphabetical(true), 1))
    );
    assert_eq!(
        classify_enumerator(&chars, 0, false, true),
        Some((TokenEnumerator::Roman(true), 1))
    );
    assert_eq!(
        classify_enumerator(&chars, 0, false, false),
        Some((TokenEnumerator::Roman(false), 1))
    );
    let chars = to_chars("12) x");
    assert_eq!(
        classify_enumerator(&chars, 0, true, true),
        Some((TokenEnumerator::Numerical, 2))
    );
    let chars = to_chars("b) x");
    assert_eq!(classify_enumerator(&chars, 0, false, false), None);
    assert_eq!(classify_enumerator(&chars, 9, true, false), None);
}

#[test]
fn bullets_are_read_back_as_dashes() {
    let document = parse("* a\n* b\n\n3) c\n4) d").unwrap();
    let text = IntoPrintable.compile(&document).unwrap();
    assert_eq!(text, "- a\n- b\n\n1. c\n2. d\n\n");
    let again = parse(&text).unwrap();
    assert_eq!(kinds_and_texts(&again), kinds_and_texts(&document));
    match &again.blocks[0] {
        Block::List(list) => assert_eq!(list.token.wrapper.unnumbered(), "-"),
        other => panic!("not a list: {:?}", other),
    }
    match &again.blocks[1] {
        Block::List(list) => assert_eq!(list.token.wrapper.unnumbered(), "{}."),
        other => panic!("not a list: {:?}", other),
    }
    assert_eq!(IntoPrintable.compile(&again).unwrap(), text);
}
