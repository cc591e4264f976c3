use aldoc::compiler::{CompileError, Compiler, IntoLatex, IntoPrintable};
use aldoc::parse::{parse, Block, Document};

#[test]
fn bold_span_in_latex() {
    let document = parse("a *b* c").unwrap();
    let text = IntoLatex.compile(&document).unwrap();
    assert_eq!(
        text,
        "\\documentclass{article}\n\n\\usepackage{enumitem}\n\n\\begin{document}\na \\textbf{b} c\n\n\\end{document}"
    );
}

#[test]
fn bold_span_in_plain_text() {
    let document = parse("a *b* c").unwrap();
    let text = IntoPrintable.compile(&document).unwrap();
    assert_eq!(text, "a b c\n\n");
}

#[test]
fn open_bold_span_is_closed_at_the_end() {
    let document = parse("a *b").unwrap();
    let text = IntoLatex.compile(&document).unwrap();
    assert!(text.contains("a \\textbf{b}\n"));
}

#[test]
fn alphabet_ends_at_26() {
    let mut source = String::new();
    for _ in 0..27 {
        source.push_str("a. item\n");
    }
    let document = parse(&source).unwrap();
    let error = IntoPrintable.compile(&document).unwrap_err();
    assert_eq!(error, CompileError::OrdinalOutOfRange(27, 26));
    assert!(IntoLatex.compile(&document).is_ok());
}

#[test]
fn alphabet_reaches_26() {
    let mut source = String::new();
    for _ in 0..26 {
        source.push_str("A) item\n");
    }
    let document = parse(&source).unwrap();
    let text = IntoPrintable.compile(&document).unwrap();
    assert!(text.starts_with("A. item\nB. item\nC. item\nD. item\nE. item\nF. item\n"));
    assert!(text.ends_with("Y. item\nZ. item\n\n"));
}

#[test]
fn compiling_twice_gives_the_same_text() {
    let document = parse("# T\n\ntext *bold*\n\n1. a\n\t- b\n2. c").unwrap();
    let first = IntoLatex.compile(&document).unwrap();
    let second = IntoLatex.compile(&document).unwrap();
    assert_eq!(first, second);
    let first = IntoPrintable.compile(&document).unwrap();
    let second = IntoPrintable.compile(&document).unwrap();
    assert_eq!(first, second);
}

#[test]
fn plain_text_of_a_document() {
    let document = parse("# T\n\n## U\n\ntext\nmore\n\n1. a\n\t- b\n\t- c\n2. d").unwrap();
    let text = IntoPrintable.compile(&document).unwrap();
    assert_eq!(
        text,
        "# T\n\n## U\n\ntext more\n\n1. a\n  - b\n  - c\n2. d\n\n"
    );
}

#[test]
fn latex_of_a_document() {
    let document = parse("# T\n\n## U\n\ntext\n\n1) a\n\t- b\n2) d\n\nii. x\niii. y").unwrap();
    let text = IntoLatex.compile(&document).unwrap();
    assert_eq!(
        text,
        "\\documentclass{article}\n\n\\usepackage{enumitem}\n\n\\begin{document}\n\
\\section{T}\n\n\\subsection{U}\n\ntext\n\n\
\\begin{enumerate}[label=\\arabic*)]\n\\item a\n\\begin{itemize}\n\\item b\n\\end{itemize}\n\\item d\n\\end{enumerate}\n\n\
\\begin{enumerate}[label=\\roman*.]\n\\item x\n\\item y\n\\end{enumerate}\n\n\
\\end{document}"
    );
}

#[test]
fn roman_ordinals_in_plain_text() {
    let document = parse("ii. x\niii. y\niv. z\nv. w").unwrap();
    let text = IntoPrintable.compile(&document).unwrap();
    assert_eq!(text, "i. x\nii. y\niii. z\niv. w\n\n");
    let document = parse("XX- x\nXXI- y").unwrap();
    let text = IntoPrintable.compile(&document).unwrap();
    assert_eq!(text, "I. x\nII. y\n\n");
}

#[test]
fn numbers_in_plain_text() {
    let mut source = String::new();
    for _ in 0..12 {
        source.push_str("1. item\n");
    }
    let document = parse(&source).unwrap();
    let text = IntoPrintable.compile(&document).unwrap();
    assert!(text.starts_with("1. item\n2. item\n"));
    assert!(text.ends_with("10. item\n11. item\n12. item\n\n"));
}

#[test]
fn error_messages() {
    assert_eq!(
        CompileError::OrdinalOutOfRange(27, 26).message(),
        "List item 27 has no ordinal: the numbering of its list ends at 26"
    );
    let error = parse("### A").unwrap_err();
    assert_eq!(
        error.message(),
        "Syntax error: Skipped a heading level. Went from level 0 to level 3"
    );
}

#[test]
fn heading_commands_in_latex() {
    let document = parse("# a\n\n## b\n\n### c\n\n#### d\n\n##### e\n\n###### f").unwrap();
    let text = IntoLatex.compile(&document).unwrap();
    assert!(text.contains("\\section{a}\n\n\\subsection{b}\n\n\\subsubsection{c}\n\n\\paragraph{d}\n\n\\subparagraph{e}\n\n\\heading{f}\n\n"));
}

#[test]
fn nested_lists_in_plain_text_are_indented() {
    let document = parse("a. x\n\t- y\n\t\t1) z\n\t\t2) w\n\t- v\nb. u").unwrap();
    let text = IntoPrintable.compile(&document).unwrap();
    assert_eq!(text, "a. x\n  - y\n    1. z\n    2. w\n  - v\nb. u\n\n");
}

#[test]
fn error_in_a_nested_list() {
    let mut source = String::from("- top\n");
    for _ in 0..27 {
        source.push_str("\tA. item\n");
    }
    let document = parse(&source).unwrap();
    let error = IntoPrintable.compile(&document).unwrap_err();
    assert_eq!(error, CompileError::OrdinalOutOfRange(27, 26));
}

#[test]
fn documents_are_copied() {
    let document = parse("# T\n\n- a\n\t- b").unwrap();
    let copy = document.clone();
    assert_eq!(
        IntoPrintable.compile(&copy).unwrap(),
        IntoPrintable.compile(&document).unwrap()
    );
}

#[test]
fn roman_numerals_end_at_32767() {
    let mut source = String::new();
    for _ in 0..32768 {
        source.push_str("ii. x\n");
    }
    let document = parse(&source).unwrap();
    let error = IntoPrintable.compile(&document).unwrap_err();
    assert_eq!(error, CompileError::OrdinalOutOfRange(32768, 32767));
    assert!(IntoLatex.compile(&document).is_ok());
}

#[test]
fn heading_of_level_zero() {
    let document = Document {
        blocks: vec![Block::Heading(0, String::from("top")), Block::Heading(7, String::from("deep"))],
    };
    let text = IntoLatex.compile(&document).unwrap();
    assert!(text.contains("\\chapter{top}\n\n\\heading{deep}\n\n"));
    let text = IntoPrintable.compile(&document).unwrap();
    assert_eq!(text, " top\n\n####### deep\n\n");
}
