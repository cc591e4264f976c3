//! Compilers: a document rendered as LaTeX source, or as plain text.

use vstd::prelude::*;
use crate::chars::{push_char, to_chars};
use crate::list::{item_views, lemma_list_view, List, ListView};
use crate::numeral::{
    decimal, letter, letter_at, push_decimal, roman, roman_text, ALPHABET_SIZE, ROMAN_LIMIT,
};
use crate::parse::{Block, BlockView, Document};
use crate::token::{counter_text, filled, ListTokenView, TokenEnumerator};

verus! {

/// Why a document cannot be rendered.
#[derive(Debug, Clone, Copy, PartialEq, Eq, Structural)]
pub enum CompileError {
    /// An item of a list has no ordinal in the numbering of the list. The
    /// fields are the position of the item, counted from 1, and the greatest
    /// position that the numbering reaches.
    OrdinalOutOfRange(usize, usize),
}

/// What `error` says to a reader.
pub open spec fn compile_error_text(error: CompileError) -> Seq<char> {
    match error {
        CompileError::OrdinalOutOfRange(index, limit) => "List item "@ + decimal(index as nat)
            + " has no ordinal: the numbering of its list ends at "@ + decimal(limit as nat),
    }
}

impl CompileError {
    /// The error in words.
    pub fn message(&self) -> (text: String)
        ensures
            text@ == compile_error_text(*self),
    {
        match self {
            CompileError::OrdinalOutOfRange(index, limit) => {
                let mut text = String::new();
                text.append("List item ");
                push_decimal(&mut text, *index);
                text.append(" has no ordinal: the numbering of its list ends at ");
                push_decimal(&mut text, *limit);
                proof {
                    assert(text@ =~= compile_error_text(*self));
                }
                text
            },
        }
    }
}

/// `text[i..]` with each `*` replaced in turn by `open` and by `close`, and
/// with a last `close` where a span is still open at the end. `in_bold` says
/// whether a span is open at `i`.
pub open spec fn styled_from(
    text: Seq<char>,
    i: int,
    in_bold: bool,
    open: Seq<char>,
    close: Seq<char>,
) -> Seq<char>
    decreases text.len() - i,
{
    if !(0 <= i < text.len()) {
        if in_bold {
            close
        } else {
            Seq::empty()
        }
    } else if text[i] == '*' {
        (if in_bold {
            close
        } else {
            open
        }) + styled_from(text, i + 1, !in_bold, open, close)
    } else {
        seq![text[i]] + styled_from(text, i + 1, in_bold, open, close)
    }
}

/// `text` with its bold spans, which `*` delimits, put between `open` and
/// `close`.
pub open spec fn styled(text: Seq<char>, open: Seq<char>, close: Seq<char>) -> Seq<char> {
    styled_from(text, 0, false, open, close)
}

/// Appends `text` to `buf`, its bold spans between `open` and `close`.
pub fn push_styled(buf: &mut String, text: &str, open: &str, close: &str)
    ensures
        final(buf)@ == old(buf)@ + styled(text@, open@, close@),
{
    let chars = to_chars(text);
    let mut in_bold = false;
    let mut i: usize = 0;
    while i < chars.len()
        invariant
            i <= chars.len(),
            chars@ == text@,
            buf@ + styled_from(chars@, i as int, in_bold, open@, close@) == old(buf)@ + styled(
                text@,
                open@,
                close@,
            ),
        decreases chars.len() - i,
    {
        let ghost before = buf@;
        let ghost rest = styled_from(chars@, i + 1, !in_bold, open@, close@);
        let ghost same = styled_from(chars@, i + 1, in_bold, open@, close@);
        if chars[i] == '*' {
            if in_bold {
                buf.append(close);
                proof {
                    assert(buf@ + rest =~= before + (close@ + rest));
                }
            } else {
                buf.append(open);
                proof {
                    assert(buf@ + rest =~= before + (open@ + rest));
                }
            }
            in_bold = !in_bold;
        } else {
            push_char(buf, chars[i]);
            proof {
                assert(buf@ + same =~= before + (seq![chars@[i as int]] + same));
            }
        }
        i += 1;
    }
    let ghost before = buf@;
    if in_bold {
        buf.append(close);
    }
    proof {
        assert(buf@ =~= before + styled_from(chars@, i as int, in_bold, open@, close@));
    }
}

/// The LaTeX command that opens a heading of level `level`.
pub open spec fn latex_heading(level: nat) -> Seq<char> {
    if level == 0 {
        "\\chapter{"@
    } else if level == 1 {
        "\\section{"@
    } else if level == 2 {
        "\\subsection{"@
    } else if level == 3 {
        "\\subsubsection{"@
    } else if level == 4 {
        "\\paragraph{"@
    } else if level == 5 {
        "\\subparagraph{"@
    } else {
        "\\heading{"@
    }
}

/// The LaTeX environment of a list marked with `token`.
pub open spec fn latex_environment(token: ListTokenView) -> Seq<char> {
    if token.enumerator is Some {
        "enumerate"@
    } else {
        "itemize"@
    }
}

/// The option that sets the label of a numbered list: the wrapper of the
/// token around the counter format of its enumerator. An unnumbered list has
/// none.
pub open spec fn latex_label(token: ListTokenView) -> Seq<char> {
    match token.enumerator {
        Some(enumerator) => "[label="@ + filled(token.wrapper, counter_text(enumerator)) + "]"@,
        None => Seq::empty(),
    }
}

/// `text` with its bold spans as LaTeX commands.
pub open spec fn latex_text(text: Seq<char>) -> Seq<char> {
    styled(text, "\\textbf{"@, "}"@)
}

/// The LaTeX source of the first `n` items of `list`, each with the list
/// nested under it.
pub open spec fn latex_items(list: ListView, n: nat) -> Seq<char>
    decreases list, n,
{
    if n == 0 || n > list.items.len() {
        Seq::empty()
    } else {
        latex_items(list, (n - 1) as nat) + "\\item "@ + latex_text(list.items[n - 1].text) + seq![
            '\n',
        ] + match list.items[n - 1].list {
            Some(nested) => latex_list(nested),
            None => Seq::empty(),
        }
    }
}

/// The LaTeX source of `list`.
pub open spec fn latex_list(list: ListView) -> Seq<char>
    decreases list, list.items.len() + 1,
{
    "\\begin{"@ + latex_environment(list.token) + "}"@ + latex_label(list.token) + seq!['\n']
        + latex_items(list, list.items.len()) + "\\end{"@ + latex_environment(list.token) + "}"@
        + seq!['\n']
}

/// The LaTeX source of `block`, with the empty line behind it.
pub open spec fn latex_block(block: BlockView) -> Seq<char> {
    match block {
        BlockView::Heading(level, title) => latex_heading(level) + title + "}\n"@ + "\n"@,
        BlockView::Paragraph(text) => latex_text(text) + "\n"@ + "\n"@,
        BlockView::List(list) => latex_list(list) + "\n"@,
    }
}

/// The LaTeX source of the first `n` blocks of `document`.
pub open spec fn latex_blocks(document: Seq<BlockView>, n: nat) -> Seq<char>
    decreases n,
{
    if n == 0 || n > document.len() {
        Seq::empty()
    } else {
        latex_blocks(document, (n - 1) as nat) + latex_block(document[n - 1])
    }
}

/// What opens a LaTeX document.
pub open spec fn latex_preamble() -> Seq<char> {
    "\\documentclass{article}\n\n\\usepackage{enumitem}\n\n\\begin{document}\n"@
}

/// The LaTeX source of `document`.
pub open spec fn latex_document(document: Seq<BlockView>) -> Seq<char> {
    latex_preamble() + latex_blocks(document, document.len()) + "\\end{document}"@
}

/// The marker of the item at position `index`, counted from 1, in a list
/// numbered by `enumerator`: a dash in an unnumbered list, else the ordinal
/// and a dot. The alphabet ends at `ALPHABET_SIZE`, the roman numerals at
/// `ROMAN_LIMIT`.
pub open spec fn ordinal(enumerator: Option<TokenEnumerator>, index: nat) -> Result<
    Seq<char>,
    CompileError,
> {
    match enumerator {
        None => Ok(seq!['-']),
        Some(TokenEnumerator::Numerical) => Ok(decimal(index).push('.')),
        Some(TokenEnumerator::Alphabetical(uppercase)) => if index > ALPHABET_SIZE {
            Err(CompileError::OrdinalOutOfRange(index as usize, ALPHABET_SIZE))
        } else {
            Ok(seq![letter(index, uppercase), '.'])
        },
        Some(TokenEnumerator::Roman(uppercase)) => if index > ROMAN_LIMIT {
            Err(CompileError::OrdinalOutOfRange(index as usize, ROMAN_LIMIT))
        } else {
            Ok(roman_text(index as i16, uppercase).push('.'))
        },
    }
}

/// `text` without the `*` that delimit its bold spans.
pub open spec fn plain_text(text: Seq<char>) -> Seq<char> {
    styled(text, Seq::empty(), Seq::empty())
}

/// The plain text of the first `n` items of `list`, each on a line that
/// starts with `indent` and the item's marker, and each with the list nested
/// under it, which is indented by two spaces more. The first item without an
/// ordinal, in the order of the lines, gives the error.
pub open spec fn plain_items(list: ListView, n: nat, indent: Seq<char>) -> Result<
    Seq<char>,
    CompileError,
>
    decreases list, n,
{
    if n == 0 || n > list.items.len() {
        Ok(Seq::empty())
    } else {
        match plain_items(list, (n - 1) as nat, indent) {
            Ok(head) => match ordinal(list.token.enumerator, n) {
                Ok(mark) => {
                    let line = indent + mark + seq![' '] + plain_text(list.items[n - 1].text)
                        + seq!['\n'];
                    match list.items[n - 1].list {
                        Some(nested) => match plain_list(nested, indent + seq![' ', ' ']) {
                            Ok(below) => Ok(head + line + below),
                            Err(e) => Err(e),
                        },
                        None => Ok(head + line),
                    }
                },
                Err(e) => Err(e),
            },
            Err(e) => Err(e),
        }
    }
}

/// The plain text of `list`, each line behind `indent`.
pub open spec fn plain_list(list: ListView, indent: Seq<char>) -> Result<Seq<char>, CompileError>
    decreases list, list.items.len() + 1,
{
    plain_items(list, list.items.len(), indent)
}

/// The plain text of `block`, with the empty line behind it.
pub open spec fn plain_block(block: BlockView) -> Result<Seq<char>, CompileError> {
    match block {
        BlockView::Heading(level, title) => Ok(
            Seq::new(level, |i: int| '#') + seq![' '] + title + seq!['\n', '\n'],
        ),
        BlockView::Paragraph(text) => Ok(plain_text(text) + seq!['\n', '\n']),
        BlockView::List(list) => match plain_list(list, Seq::empty()) {
            Ok(text) => Ok(text + seq!['\n']),
            Err(e) => Err(e),
        },
    }
}

/// The plain text of the first `n` blocks of `document`; the first error, in
/// the order of the blocks, where one of them has none.
pub open spec fn plain_blocks(document: Seq<BlockView>, n: nat) -> Result<Seq<char>, CompileError>
    decreases n,
{
    if n == 0 || n > document.len() {
        Ok(Seq::empty())
    } else {
        match plain_blocks(document, (n - 1) as nat) {
            Ok(head) => match plain_block(document[n - 1]) {
                Ok(text) => Ok(head + text),
                Err(e) => Err(e),
            },
            Err(e) => Err(e),
        }
    }
}

/// The plain text of `document`.
pub open spec fn plain_document(document: Seq<BlockView>) -> Result<Seq<char>, CompileError> {
    plain_blocks(document, document.len())
}

/// What a result of `compile` stands for.
pub open spec fn compiled(r: Result<String, CompileError>) -> Result<Seq<char>, CompileError> {
    match r {
        Ok(text) => Ok(text@),
        Err(e) => Err(e),
    }
}

/// A rendering of documents as text.
pub trait Compiler {
    /// The text that this compiler gives for `document`, or why it gives none.
    spec fn output(&self, document: Seq<BlockView>) -> Result<Seq<char>, CompileError>;

    /// Renders `document`. The call leaves the compiler such that it gives
    /// the same for `document` again.
    fn compile(&mut self, document: &Document) -> (r: Result<String, CompileError>)
        ensures
            compiled(r) == old(self).output(document@),
            final(self).output(document@) == old(self).output(document@),
    ;
}

/// Compiling a document twice with one compiler gives the same twice: the
/// same text, or the same error. `before` is the compiler at the first call,
/// `between` the compiler as the first call leaves it, and `first` and
/// `second` are what the two calls give.
pub proof fn lemma_compile_twice<C: Compiler>(
    before: C,
    between: C,
    document: Seq<BlockView>,
    first: Result<Seq<char>, CompileError>,
    second: Result<Seq<char>, CompileError>,
)
    requires
        first == before.output(document),
        between.output(document) == before.output(document),
        second == between.output(document),
    ensures
        first == second,
{
}

/// Compiles into LaTeX.
pub struct IntoLatex;

impl IntoLatex {
    /// Appends `text` to `buf`, its bold spans as LaTeX commands.
    pub fn push_text(buf: &mut String, text: &str)
        ensures
            final(buf)@ == old(buf)@ + latex_text(text@),
    {
        push_styled(buf, text, "\\textbf{", "}");
    }

    /// Appends a paragraph to `buf`.
    pub fn print_paragraph(buf: &mut String, paragraph: &str)
        ensures
            final(buf)@ == old(buf)@ + (latex_text(paragraph@) + "\n"@),
    {
        IntoLatex::push_text(buf, paragraph);
        buf.append("\n");
        proof {
            assert(buf@ =~= old(buf)@ + (latex_text(paragraph@) + "\n"@));
        }
    }

    /// Appends a list to `buf`, with the lists nested in it.
    pub fn print_list(buf: &mut String, list: &List)
        ensures
            final(buf)@ == old(buf)@ + latex_list(list@),
        decreases list,
    {
        proof {
            lemma_list_view(*list);
        }
        let ghost token = list@.token;
        buf.append("\\begin{");
        match list.token.enumerator {
            Some(enumerator) => {
                buf.append("enumerate");
                buf.append("}");
                buf.append("[label=");
                let counter = enumerator.latex();
                let label = list.token.wrapper.label(counter.as_str());
                buf.append(label.as_str());
                buf.append("]");
            },
            None => {
                buf.append("itemize");
                buf.append("}");
            },
        }
        push_char(buf, '\n');
        let ghost head = "\\begin{"@ + latex_environment(token) + "}"@ + latex_label(token) + seq![
            '\n',
        ];
        proof {
            assert(buf@ =~= old(buf)@ + head);
        }
        let mut i: usize = 0;
        while i < list.vec.len()
            invariant
                i <= list.vec.len(),
                list@.items == item_views(list.vec@),
                buf@ == old(buf)@ + head + latex_items(list@, i as nat),
            decreases list.vec.len() - i,
        {
            let ghost before = buf@;
            let item = &list.vec[i];
            buf.append("\\item ");
            IntoLatex::push_text(buf, item.text.as_str());
            push_char(buf, '\n');
            let ghost line = before + "\\item "@ + latex_text(item.text@) + seq!['\n'];
            proof {
                assert(buf@ =~= line);
                assert(list@.items[i as int] == item@);
            }
            match &item.list {
                Some(nested) => {
                    IntoLatex::print_list(buf, nested);
                    proof {
                        assert(item@.list == Some(nested@));
                        assert(buf@ =~= old(buf)@ + head + latex_items(list@, (i + 1) as nat));
                    }
                },
                None => {
                    proof {
                        assert(item@.list is None);
                        assert(buf@ =~= old(buf)@ + head + latex_items(list@, (i + 1) as nat));
                    }
                },
            }
            i += 1;
        }
        buf.append("\\end{");
        match list.token.enumerator {
            Some(_) => {
                buf.append("enumerate");
            },
            None => {
                buf.append("itemize");
            },
        }
        buf.append("}");
        push_char(buf, '\n');
        proof {
            assert(buf@ =~= old(buf)@ + latex_list(list@));
        }
    }

    /// Appends a block to `buf`, with the empty line behind it.
    pub fn print_block(buf: &mut String, block: &Block)
        ensures
            final(buf)@ == old(buf)@ + latex_block(block@),
    {
        match block {
            Block::Heading(level, title) => {
                let command = match *level {
                    0 => "\\chapter{",
                    1 => "\\section{",
                    2 => "\\subsection{",
                    3 => "\\subsubsection{",
                    4 => "\\paragraph{",
                    5 => "\\subparagraph{",
                    _ => "\\heading{",
                };
                buf.append(command);
                buf.append(title.as_str());
                buf.append("}\n");
            },
            Block::Paragraph(text) => {
                IntoLatex::print_paragraph(buf, text.as_str());
            },
            Block::List(list) => {
                IntoLatex::print_list(buf, list);
            },
        }
        buf.append("\n");
        proof {
            assert(buf@ =~= old(buf)@ + latex_block(block@));
        }
    }
}

impl Compiler for IntoLatex {
    open spec fn output(&self, document: Seq<BlockView>) -> Result<Seq<char>, CompileError> {
        Ok(latex_document(document))
    }

    fn compile(&mut self, document: &Document) -> (r: Result<String, CompileError>) {
        let mut text = String::new();
        text.append("\\documentclass{article}\n\n\\usepackage{enumitem}\n\n\\begin{document}\n");
        let mut i: usize = 0;
        while i < document.blocks.len()
            invariant
                i <= document.blocks.len(),
                text@ == latex_preamble() + latex_blocks(document@, i as nat),
            decreases document.blocks.len() - i,
        {
            let ghost before = text@;
            IntoLatex::print_block(&mut text, &document.blocks[i]);
            proof {
                assert(document@[i as int] == document.blocks@[i as int]@);
                assert(text@ =~= latex_preamble() + latex_blocks(document@, (i + 1) as nat));
            }
            i += 1;
        }
        text.append("\\end{document}");
        proof {
            assert(text@ =~= latex_document(document@));
        }
        Ok(text)
    }
}

/// The marker of the item at position `index`, counted from 1, in a list
/// numbered by `enumerator`.
pub fn ordinal_text(enumerator: Option<TokenEnumerator>, index: usize) -> (r: Result<
    String,
    CompileError,
>)
    requires
        index >= 1,
    ensures
        match r {
            Ok(text) => ordinal(enumerator, index as nat) == Ok::<Seq<char>, CompileError>(text@),
            Err(e) => ordinal(enumerator, index as nat) == Err::<Seq<char>, CompileError>(e),
        },
{
    let mut text = String::new();
    match enumerator {
        None => {
            push_char(&mut text, '-');
            proof {
                assert(text@ =~= seq!['-']);
            }
        },
        Some(TokenEnumerator::Numerical) => {
            push_decimal(&mut text, index);
            push_char(&mut text, '.');
            proof {
                assert(text@ =~= decimal(index as nat).push('.'));
            }
        },
        Some(TokenEnumerator::Alphabetical(uppercase)) => {
            if index > ALPHABET_SIZE {
                return Err(CompileError::OrdinalOutOfRange(index, ALPHABET_SIZE));
            }
            push_char(&mut text, letter_at(index, uppercase));
            push_char(&mut text, '.');
            proof {
                assert(text@ =~= seq![letter(index as nat, uppercase), '.']);
            }
        },
        Some(TokenEnumerator::Roman(uppercase)) => {
            if index > ROMAN_LIMIT {
                return Err(CompileError::OrdinalOutOfRange(index, ROMAN_LIMIT));
            }
            let numeral = roman(index as i16, uppercase);
            text.append(numeral.as_str());
            push_char(&mut text, '.');
            proof {
                assert(text@ =~= roman_text(index as i16, uppercase).push('.'));
            }
        },
    }
    Ok(text)
}

/// Compiles into plain text, fit for a terminal.
pub struct IntoPrintable;

impl IntoPrintable {
    /// Appends a paragraph to `buf`.
    pub fn print_paragraph(buf: &mut String, paragraph: &str)
        ensures
            final(buf)@ == old(buf)@ + (plain_text(paragraph@) + seq!['\n']),
    {
        push_styled(buf, paragraph, "", "");
        push_char(buf, '\n');
        proof {
            reveal_strlit("");
            assert(""@ =~= Seq::<char>::empty());
            assert(buf@ =~= old(buf)@ + (plain_text(paragraph@) + seq!['\n']));
        }
    }

    /// Appends a list to `buf`, each line behind `indent`, with the lists
    /// nested in it.
    pub fn print_list(buf: &mut String, list: &List, indent: &str) -> (r: Result<(), CompileError>)
        ensures
            match plain_list(list@, indent@) {
                Ok(text) => r is Ok && final(buf)@ == old(buf)@ + text,
                Err(e) => r == Err::<(), CompileError>(e),
            },
        decreases list,
    {
        proof {
            lemma_list_view(*list);
            assert(old(buf)@ + Seq::<char>::empty() =~= old(buf)@);
        }
        let mut deeper = String::new();
        deeper.append(indent);
        deeper.append("  ");
        proof {
            reveal_strlit("  ");
            assert(deeper@ =~= indent@ + seq![' ', ' ']);
        }
        let mut i: usize = 0;
        while i < list.vec.len()
            invariant
                i <= list.vec.len(),
                list@.items == item_views(list.vec@),
                deeper@ == indent@ + seq![' ', ' '],
                plain_items(list@, i as nat, indent@) is Ok,
                buf@ == old(buf)@ + plain_items(list@, i as nat, indent@).unwrap(),
            decreases list.vec.len() - i,
        {
            let ghost before = buf@;
            let ghost head = plain_items(list@, i as nat, indent@).unwrap();
            let item = &list.vec[i];
            proof {
                assert(list@.items[i as int] == item@);
            }
            let mark = match ordinal_text(list.token.enumerator, i + 1) {
                Ok(mark) => mark,
                Err(e) => {
                    proof {
                        lemma_plain_items_error(
                            list@,
                            (i + 1) as nat,
                            list@.items.len(),
                            indent@,
                        );
                    }
                    return Err(e);
                },
            };
            buf.append(indent);
            buf.append(mark.as_str());
            push_char(buf, ' ');
            push_styled(buf, item.text.as_str(), "", "");
            push_char(buf, '\n');
            let ghost line = indent@ + mark@ + seq![' '] + plain_text(item.text@) + seq!['\n'];
            proof {
                reveal_strlit("");
                assert(""@ =~= Seq::<char>::empty());
                assert(buf@ =~= before + line);
            }
            match &item.list {
                Some(nested) => {
                    proof {
                        assert(item@.list == Some(nested@));
                    }
                    match IntoPrintable::print_list(buf, nested, deeper.as_str()) {
                        Ok(()) => {
                            proof {
                                let below = plain_list(nested@, deeper@).unwrap();
                                assert(buf@ =~= old(buf)@ + (head + line + below));
                            }
                        },
                        Err(e) => {
                            proof {
                                lemma_plain_items_error(
                                    list@,
                                    (i + 1) as nat,
                                    list@.items.len(),
                                    indent@,
                                );
                            }
                            return Err(e);
                        },
                    }
                },
                None => {
                    proof {
                        assert(item@.list is None);
                        assert(buf@ =~= old(buf)@ + (head + line));
                    }
                },
            }
            i += 1;
        }
        Ok(())
    }

    /// Appends a block to `buf`, with the empty line behind it.
    pub fn print_block(buf: &mut String, block: &Block) -> (r: Result<(), CompileError>)
        ensures
            match plain_block(block@) {
                Ok(text) => r is Ok && final(buf)@ == old(buf)@ + text,
                Err(e) => r == Err::<(), CompileError>(e),
            },
    {
        match block {
            Block::Heading(level, title) => {
                let mut k: usize = 0;
                while k < *level
                    invariant
                        k <= *level,
                        buf@ == old(buf)@ + Seq::new(k as nat, |i: int| '#'),
                    decreases *level - k,
                {
                    let ghost before = buf@;
                    push_char(buf, '#');
                    proof {
                        assert(buf@ =~= old(buf)@ + Seq::new((k + 1) as nat, |i: int| '#'));
                    }
                    k += 1;
                }
                push_char(buf, ' ');
                buf.append(title.as_str());
                buf.append("\n");
                buf.append("\n");
                proof {
                    reveal_strlit("\n");
                    assert("\n"@ =~= seq!['\n']);
                    assert(buf@ =~= old(buf)@ + (Seq::new(*level as nat, |i: int| '#') + seq![' ']
                        + title@ + seq!['\n', '\n']));
                }
                Ok(())
            },
            Block::Paragraph(text) => {
                IntoPrintable::print_paragraph(buf, text.as_str());
                push_char(buf, '\n');
                proof {
                    assert(buf@ =~= old(buf)@ + (plain_text(text@) + seq!['\n', '\n']));
                }
                Ok(())
            },
            Block::List(list) => {
                match IntoPrintable::print_list(buf, list, "") {
                    Ok(()) => {
                        push_char(buf, '\n');
                        proof {
                            reveal_strlit("");
                            assert(""@ =~= Seq::<char>::empty());
                            let text = plain_list(list@, Seq::empty()).unwrap();
                            assert(buf@ =~= old(buf)@ + (text + seq!['\n']));
                        }
                        Ok(())
                    },
                    Err(e) => {
                        proof {
                            reveal_strlit("");
                            assert(""@ =~= Seq::<char>::empty());
                        }
                        Err(e)
                    },
                }
            },
        }
    }
}

impl Compiler for IntoPrintable {
    open spec fn output(&self, document: Seq<BlockView>) -> Result<Seq<char>, CompileError> {
        plain_document(document)
    }

    fn compile(&mut self, document: &Document) -> (r: Result<String, CompileError>) {
        let mut text = String::new();
        let mut i: usize = 0;
        proof {
            assert(text@ =~= Seq::<char>::empty());
        }
        while i < document.blocks.len()
            invariant
                i <= document.blocks.len(),
                plain_blocks(document@, i as nat) == Ok::<Seq<char>, CompileError>(text@),
            decreases document.blocks.len() - i,
        {
            proof {
                assert(document@[i as int] == document.blocks@[i as int]@);
            }
            match IntoPrintable::print_block(&mut text, &document.blocks[i]) {
                Ok(()) => {},
                Err(e) => {
                    proof {
                        lemma_plain_blocks_error(document@, (i + 1) as nat, document@.len());
                    }
                    return Err(e);
                },
            }
            i += 1;
        }
        Ok(text)
    }
}

/// An error among the first `n` blocks is the error of any longer run of
/// blocks.
proof fn lemma_plain_blocks_error(document: Seq<BlockView>, n: nat, m: nat)
    requires
        n <= m <= document.len(),
        plain_blocks(document, n) is Err,
    ensures
        plain_blocks(document, m) == plain_blocks(document, n),
    decreases m,
{
    if n < m {
        lemma_plain_blocks_error(document, n, (m - 1) as nat);
    }
}

/// An error among the first `n` items of a list is the error of any longer
/// run of its items.
proof fn lemma_plain_items_error(list: ListView, n: nat, m: nat, indent: Seq<char>)
    requires
        n <= m <= list.items.len(),
        plain_items(list, n, indent) is Err,
    ensures
        plain_items(list, m, indent) == plain_items(list, n, indent),
    decreases m,
{
    if n < m {
        lemma_plain_items_error(list, n, (m - 1) as nat, indent);
    }
}

} // verus!
