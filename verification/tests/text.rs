use aldoc::chars::{slice_of, to_chars, to_text, trim};
use aldoc::format::format_text;
use aldoc::indent::{base_indent, remove_indent, squash_indent};
use aldoc::numeral::{letter_at, push_decimal, roman};

#[test]
fn runs_of_line_endings_and_tabs_become_one_space() {
    assert_eq!(format_text("a\nb"), "a b");
    assert_eq!(format_text("a\n\t\t\r\n\nb"), "a b");
    assert_eq!(format_text("\ta\t"), " a ");
    assert_eq!(format_text("a\rb"), "a\rb");
    assert_eq!(format_text("a\r\r\nb"), "a\r b");
    assert_eq!(format_text("a  b"), "a  b");
    assert_eq!(format_text(""), "");
    assert_eq!(format_text("\n"), " ");
}

#[test]
fn characters_and_text() {
    let chars = to_chars("h\u{e9}llo");
    assert_eq!(chars, vec!['h', '\u{e9}', 'l', 'l', 'o']);
    assert_eq!(to_text(&chars, 1, 4), "\u{e9}ll");
    assert_eq!(to_text(&chars, 2, 2), "");
    assert_eq!(slice_of(&chars, 0, 2), vec!['h', '\u{e9}']);
}

#[test]
fn trimming() {
    assert_eq!(trim(&to_chars("  a b\t\n")), to_chars("a b"));
    assert_eq!(trim(&to_chars("\u{a0}a\u{2003}")), to_chars("a"));
    assert_eq!(trim(&to_chars(" \n ")), to_chars(""));
    assert_eq!(trim(&to_chars("")), to_chars(""));
    assert_eq!(trim(&to_chars("a")), to_chars("a"));
}

#[test]
fn decimal_numbers() {
    let mut text = String::from("n=");
    push_decimal(&mut text, 0);
    assert_eq!(text, "n=0");
    let mut text = String::new();
    push_decimal(&mut text, 9);
    push_decimal(&mut text, 10);
    push_decimal(&mut text, 32768);
    assert_eq!(text, "91032768");
}

#[test]
fn letters_of_the_alphabet() {
    assert_eq!(letter_at(1, true), 'A');
    assert_eq!(letter_at(6, true), 'F');
    assert_eq!(letter_at(26, true), 'Z');
    assert_eq!(letter_at(1, false), 'a');
    assert_eq!(letter_at(6, false), 'f');
    assert_eq!(letter_at(26, false), 'z');
}

#[test]
fn roman_numerals() {
    assert_eq!(roman(1, true), "I");
    assert_eq!(roman(4, true), "IV");
    assert_eq!(roman(134, true), "CXXXIV");
    assert_eq!(roman(1990, false), "mcmxc");
    assert_eq!(roman(27, false), "xxvii");
}

#[test]
fn tabs_are_removed_line_by_line() {
    assert_eq!(remove_indent("\t\ta\n\tb", 1), "\ta\nb\n");
    assert_eq!(remove_indent("\ta\tb\tc", 2), "ab\tc\n");
    assert_eq!(remove_indent("a\r\nb\n", 3), "a\nb\n");
    assert_eq!(remove_indent("a\n\nb", 0), "a\n\nb\n");
    assert_eq!(remove_indent("", 1), "");
    assert_eq!(remove_indent("\n", 1), "\n");
}

#[test]
fn least_indent_of_the_lines() {
    assert_eq!(base_indent("\t\ta\n\tb\n\t\t\tc"), 1);
    assert_eq!(base_indent("\t\ta\n\t\tb"), 2);
    assert_eq!(base_indent("a\n\tb"), 0);
    assert_eq!(base_indent(""), 100);
    let deep = "\t".repeat(150);
    assert_eq!(base_indent(&deep), 100);
}

#[test]
fn least_indent_becomes_zero() {
    assert_eq!(squash_indent("\t\ta\n\tb\n\t\t\tc"), "\ta\nb\n\t\tc\n");
    assert_eq!(squash_indent("a\n\tb"), "a\n\tb\n");
}
