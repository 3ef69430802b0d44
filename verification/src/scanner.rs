//! Lexical scanning of configuration text. The text is cut into lexemes
//! (words, quoted strings, braces, other marks) with white space and comments
//! dropped; a declaration is a `resource` or `module` header found outside
//! every brace pair.
//!
//! The scanner does not evaluate the configuration language. A quoted string
//! runs to the next quote that no backslash precedes, and a heredoc to the
//! line that holds its marker alone, so braces and keywords inside strings,
//! heredocs and comments are never taken for structure.

use vstd::prelude::*;
use crate::text::{chars_of, string_of, views};
use crate::types::{Resource, ResourceView};

verus! {

/// The kinds of lexeme.
#[derive(Clone, Copy, Debug, PartialEq, Eq, Structural)]
pub enum TokenKind {
    /// A run of word characters: a keyword, an attribute name, a number.
    Word,
    /// A quoted string; its span is what stands between the quotes.
    Quoted,
    /// An opening brace.
    Open,
    /// A closing brace.
    Close,
    /// Any other single character.
    Other,
}

/// A lexeme: its kind and the span of text it covers, as positions counted in
/// characters.
#[derive(Clone, Copy, Debug, PartialEq, Eq, Structural)]
pub struct Token {
    pub kind: TokenKind,
    pub start: usize,
    pub end: usize,
}

/// A `Token` as a mathematical value.
pub struct Lexeme {
    pub kind: TokenKind,
    pub start: int,
    pub end: int,
}

impl View for Token {
    type V = Lexeme;

    open spec fn view(&self) -> Lexeme {
        Lexeme { kind: self.kind, start: self.start as int, end: self.end as int }
    }
}

/// White space between lexemes.
pub open spec fn is_space(c: char) -> bool {
    c == ' ' || c == '\t' || c == '\n' || c == '\r'
}

/// The characters that words and labels are made of: ASCII letters and
/// digits, the underscore, the hyphen, and every character beyond ASCII.
pub open spec fn is_word_char(c: char) -> bool {
    ||| 'a' <= c <= 'z'
    ||| 'A' <= c <= 'Z'
    ||| '0' <= c <= '9'
    ||| c == '_'
    ||| c == '-'
    ||| c > '\x7f'
}

/// The position of the first line break at or after `pos`, or the end of the text.
pub open spec fn line_end(text: Seq<char>, pos: int) -> int
    decreases text.len() - pos,
{
    if pos >= text.len() {
        text.len() as int
    } else if text[pos] == '\n' {
        pos
    } else {
        line_end(text, pos + 1)
    }
}

/// The position just after the first `*/` that starts at or after `pos`, or
/// the end of the text.
pub open spec fn block_end(text: Seq<char>, pos: int) -> int
    decreases text.len() - pos,
{
    if pos + 1 >= text.len() {
        text.len() as int
    } else if text[pos] == '*' && text[pos + 1] == '/' {
        pos + 2
    } else {
        block_end(text, pos + 1)
    }
}

/// The position of the quote that closes a string whose content starts at
/// `pos`, or the end of the text. A backslash takes the next character with it.
pub open spec fn quote_end(text: Seq<char>, pos: int) -> int
    decreases text.len() - pos,
{
    if pos >= text.len() {
        text.len() as int
    } else if text[pos] == '"' {
        pos
    } else if text[pos] == '\\' {
        if pos + 1 >= text.len() {
            text.len() as int
        } else {
            quote_end(text, pos + 2)
        }
    } else {
        quote_end(text, pos + 1)
    }
}

/// The position of the first character at or after `pos` that is no word
/// character, or the end of the text.
pub open spec fn word_end(text: Seq<char>, pos: int) -> int
    decreases text.len() - pos,
{
    if pos >= text.len() {
        text.len() as int
    } else if !is_word_char(text[pos]) {
        pos
    } else {
        word_end(text, pos + 1)
    }
}

/// White space inside a line.
pub open spec fn is_blank(c: char) -> bool {
    c == ' ' || c == '\t' || c == '\r'
}

/// The position of the first character at or after `pos` and before `to`
/// that is not blank, or `to`.
pub open spec fn blank_end(text: Seq<char>, pos: int, to: int) -> int
    decreases to - pos,
{
    if 0 <= pos < to && pos < text.len() && is_blank(text[pos]) {
        blank_end(text, pos + 1, to)
    } else {
        pos
    }
}

/// Whether the line from `from` to `to` holds `marker` and nothing but
/// blanks around it.
pub open spec fn is_marker_line(text: Seq<char>, from: int, to: int, marker: Seq<char>) -> bool {
    let start = blank_end(text, from, to);
    &&& start + marker.len() <= to
    &&& text.subrange(start, start + marker.len()) == marker
    &&& blank_end(text, start + marker.len(), to) == to
}

/// The position where a heredoc ends whose first line starts at `from`: the
/// end of the first line that holds the marker alone, or the end of the text.
pub open spec fn heredoc_end(text: Seq<char>, from: int, marker: Seq<char>) -> int
    decreases text.len() - from,
{
    if from < 0 || from >= text.len() {
        text.len() as int
    } else {
        proof {
            lemma_ends_in_range(text, from);
        }
        let end = line_end(text, from);
        if is_marker_line(text, from, end, marker) {
            end
        } else if end >= text.len() {
            text.len() as int
        } else {
            heredoc_end(text, end + 1, marker)
        }
    }
}

/// Where the marker of a heredoc that opens at `pos` starts: behind `<<` or
/// `<<-`.
pub open spec fn marker_start(text: Seq<char>, pos: int) -> int {
    if pos + 2 < text.len() && text[pos + 2] == '-' {
        pos + 3
    } else {
        pos + 2
    }
}

/// Whether a heredoc opens at `pos`: `<<` or `<<-`, and a marker made of
/// word characters.
pub open spec fn opens_heredoc(text: Seq<char>, pos: int) -> bool {
    &&& pos + 1 < text.len()
    &&& text[pos] == '<'
    &&& text[pos + 1] == '<'
    &&& word_end(text, marker_start(text, pos)) > marker_start(text, pos)
}

/// The position where the heredoc that opens at `pos` ends. Its text starts
/// on the line after the marker.
pub open spec fn heredoc_skip(text: Seq<char>, pos: int) -> int {
    let start = marker_start(text, pos);
    let end = word_end(text, start);
    let line = line_end(text, end);
    if line >= text.len() {
        text.len() as int
    } else {
        heredoc_end(text, line + 1, text.subrange(start, end))
    }
}

/// What starts at `pos`: white space, a comment, a heredoc, or a lexeme.
pub enum Piece {
    /// White space, a comment or a heredoc, up to the given position.
    Skip(int),
    /// A lexeme, and the position where scanning goes on.
    Found(Lexeme, int),
}

/// The piece of text that starts at `pos`, a position inside the text.
pub open spec fn piece_at(text: Seq<char>, pos: int) -> Piece {
    let c = text[pos];
    let single = Lexeme { kind: TokenKind::Other, start: pos, end: pos + 1 };
    if is_space(c) {
        Piece::Skip(pos + 1)
    } else if c == '#' {
        Piece::Skip(line_end(text, pos + 1))
    } else if c == '/' && pos + 1 < text.len() && text[pos + 1] == '/' {
        Piece::Skip(line_end(text, pos + 2))
    } else if c == '/' && pos + 1 < text.len() && text[pos + 1] == '*' {
        Piece::Skip(block_end(text, pos + 2))
    } else if opens_heredoc(text, pos) {
        Piece::Skip(heredoc_skip(text, pos))
    } else if c == '"' {
        let close = quote_end(text, pos + 1);
        Piece::Found(
            Lexeme { kind: TokenKind::Quoted, start: pos + 1, end: close },
            if close < text.len() {
                close + 1
            } else {
                close
            },
        )
    } else if c == '{' {
        Piece::Found(Lexeme { kind: TokenKind::Open, ..single }, pos + 1)
    } else if c == '}' {
        Piece::Found(Lexeme { kind: TokenKind::Close, ..single }, pos + 1)
    } else if is_word_char(c) {
        let end = word_end(text, pos);
        Piece::Found(Lexeme { kind: TokenKind::Word, start: pos, end }, end)
    } else {
        Piece::Found(single, pos + 1)
    }
}

/// The position where scanning goes on after a piece.
pub open spec fn piece_next(piece: Piece) -> int {
    match piece {
        Piece::Skip(next) => next,
        Piece::Found(_, next) => next,
    }
}

/// The scanning helpers never go back and never leave the text.
pub proof fn lemma_ends_in_range(text: Seq<char>, pos: int)
    requires
        0 <= pos <= text.len(),
    ensures
        pos <= line_end(text, pos) <= text.len(),
        pos <= block_end(text, pos) <= text.len(),
        pos <= quote_end(text, pos) <= text.len(),
        pos <= word_end(text, pos) <= text.len(),
    decreases text.len() - pos,
{
    if pos < text.len() {
        lemma_ends_in_range(text, pos + 1);
        if pos + 1 < text.len() {
            lemma_ends_in_range(text, pos + 2);
        }
    }
}

/// A heredoc never ends before it starts, and never behind the text.
pub proof fn lemma_heredoc_in_range(text: Seq<char>, from: int, marker: Seq<char>)
    requires
        0 <= from <= text.len(),
    ensures
        from <= heredoc_end(text, from, marker) <= text.len(),
    decreases text.len() - from,
{
    if from < text.len() {
        lemma_ends_in_range(text, from);
        let end = line_end(text, from);
        if !is_marker_line(text, from, end, marker) && end < text.len() {
            lemma_heredoc_in_range(text, end + 1, marker);
        }
    }
}

/// Every piece is at least one character long and ends inside the text.
pub proof fn lemma_piece_advances(text: Seq<char>, pos: int)
    requires
        0 <= pos < text.len(),
    ensures
        pos < piece_next(piece_at(text, pos)) <= text.len(),
        piece_at(text, pos) matches Piece::Found(l, _) ==> pos <= l.start <= l.end <= text.len(),
{
    lemma_ends_in_range(text, pos);
    lemma_ends_in_range(text, pos + 1);
    if pos + 1 < text.len() {
        lemma_ends_in_range(text, pos + 2);
    }
    if opens_heredoc(text, pos) {
        let start = marker_start(text, pos);
        let end = word_end(text, start);
        lemma_ends_in_range(text, end);
        let line = line_end(text, end);
        if line < text.len() {
            lemma_heredoc_in_range(text, line + 1, text.subrange(start, end));
        }
    }
}

/// The lexemes of `text` from position `pos` on.
pub open spec fn lexemes_from(text: Seq<char>, pos: int) -> Seq<Lexeme>
    decreases text.len() - pos,
{
    if pos < 0 || pos >= text.len() {
        Seq::empty()
    } else {
        proof {
            lemma_piece_advances(text, pos);
        }
        match piece_at(text, pos) {
            Piece::Skip(next) => lexemes_from(text, next),
            Piece::Found(l, next) => seq![l] + lexemes_from(text, next),
        }
    }
}

/// The lexemes of `text`.
pub open spec fn lexemes(text: Seq<char>) -> Seq<Lexeme> {
    lexemes_from(text, 0)
}

/// The text that a lexeme covers.
pub open spec fn lexeme_text(text: Seq<char>, l: Lexeme) -> Seq<char> {
    text.subrange(l.start, l.end)
}

/// Whether `s` can name a block: it is nonempty and made of word characters.
pub open spec fn is_identifier(s: Seq<char>) -> bool {
    s.len() > 0 && forall|k: int| 0 <= k < s.len() ==> is_word_char(#[trigger] s[k])
}

/// Whether `l` is the bare word `word`.
pub open spec fn is_keyword(text: Seq<char>, l: Lexeme, word: Seq<char>) -> bool {
    l.kind == TokenKind::Word && lexeme_text(text, l) == word
}

/// Whether `l` is a quoted identifier.
pub open spec fn is_label(text: Seq<char>, l: Lexeme) -> bool {
    l.kind == TokenKind::Quoted && is_identifier(lexeme_text(text, l))
}

/// How many braces are open before lexeme `i`. A closing brace that closes
/// nothing is passed over.
pub open spec fn depth_before(lex: Seq<Lexeme>, i: int) -> nat
    decreases i,
{
    if i <= 0 || i > lex.len() {
        0
    } else {
        let d = depth_before(lex, i - 1);
        match lex[i - 1].kind {
            TokenKind::Open => d + 1,
            TokenKind::Close => if d > 0 {
                (d - 1) as nat
            } else {
                0
            },
            _ => d,
        }
    }
}

/// Whether a resource header starts at lexeme `i`: the word `resource`, two
/// labels and an opening brace.
pub open spec fn resource_header_at(text: Seq<char>, lex: Seq<Lexeme>, i: int) -> bool {
    &&& 0 <= i && i + 3 < lex.len()
    &&& is_keyword(text, lex[i], "resource"@)
    &&& is_label(text, lex[i + 1])
    &&& is_label(text, lex[i + 2])
    &&& lex[i + 3].kind == TokenKind::Open
}

/// Whether a module header starts at lexeme `i`: the word `module`, one label
/// and an opening brace.
pub open spec fn module_header_at(text: Seq<char>, lex: Seq<Lexeme>, i: int) -> bool {
    &&& 0 <= i && i + 2 < lex.len()
    &&& is_keyword(text, lex[i], "module"@)
    &&& is_label(text, lex[i + 1])
    &&& lex[i + 2].kind == TokenKind::Open
}

/// The declaration whose header starts at lexeme `i`, if one does and no
/// brace is open there.
pub open spec fn declaration_at(text: Seq<char>, lex: Seq<Lexeme>, i: int) -> Option<ResourceView> {
    if depth_before(lex, i) != 0 {
        None
    } else if resource_header_at(text, lex, i) {
        Some(
            ResourceView {
                resource_type: lexeme_text(text, lex[i + 1]),
                name: lexeme_text(text, lex[i + 2]),
                is_module: false,
            },
        )
    } else if module_header_at(text, lex, i) {
        Some(
            ResourceView {
                resource_type: Seq::empty(),
                name: lexeme_text(text, lex[i + 1]),
                is_module: true,
            },
        )
    } else {
        None
    }
}

/// The declarations whose headers start among the first `n` lexemes, in order.
pub open spec fn declarations_upto(text: Seq<char>, lex: Seq<Lexeme>, n: int) -> Seq<ResourceView>
    decreases n,
{
    if n <= 0 {
        Seq::empty()
    } else {
        let before = declarations_upto(text, lex, n - 1);
        match declaration_at(text, lex, n - 1) {
            Some(r) => before.push(r),
            None => before,
        }
    }
}

/// The declarations of a configuration text, in the order of their headers.
pub open spec fn declarations(text: Seq<char>) -> Seq<ResourceView> {
    declarations_upto(text, lexemes(text), lexemes(text).len() as int)
}

/// Whether a declared entry is well formed: its name is an identifier, and
/// its type is an identifier for a resource and empty for a module call.
pub open spec fn is_declared_form(r: ResourceView) -> bool {
    &&& is_identifier(r.name)
    &&& if r.is_module {
        r.resource_type.len() == 0
    } else {
        is_identifier(r.resource_type)
    }
}

/// A declaration whose header starts before lexeme `n` is among the
/// declarations collected up to `n`.
pub proof fn lemma_declaration_collected(text: Seq<char>, lex: Seq<Lexeme>, i: int, n: int)
    requires
        0 <= i < n,
        declaration_at(text, lex, i) is Some,
    ensures
        declarations_upto(text, lex, n).contains(declaration_at(text, lex, i)->0),
    decreases n,
{
    let r = declaration_at(text, lex, i)->0;
    let before = declarations_upto(text, lex, n - 1);
    if i == n - 1 {
        assert(before.push(r)[before.len() as int] == r);
    } else {
        lemma_declaration_collected(text, lex, i, n - 1);
        let k = choose|k: int| 0 <= k < before.len() && before[k] == r;
        match declaration_at(text, lex, n - 1) {
            Some(last) => {
                assert(before.push(last)[k] == r);
            },
            None => {},
        }
    }
}

/// Every collected declaration comes from a header outside all braces.
pub proof fn lemma_declaration_has_header(
    text: Seq<char>,
    lex: Seq<Lexeme>,
    n: int,
    r: ResourceView,
)
    requires
        declarations_upto(text, lex, n).contains(r),
    ensures
        exists|i: int| 0 <= i < n && declaration_at(text, lex, i) == Some(r),
    decreases n,
{
    if n <= 0 {
        assert(false);
    } else {
        let before = declarations_upto(text, lex, n - 1);
        if declaration_at(text, lex, n - 1) == Some(r) {
        } else {
            let all = declarations_upto(text, lex, n);
            let k = choose|k: int| 0 <= k < all.len() && all[k] == r;
            assert(before.contains(r)) by {
                match declaration_at(text, lex, n - 1) {
                    Some(last) => {
                        assert(k < before.len());
                        assert(before[k] == r);
                    },
                    None => {},
                }
            }
            lemma_declaration_has_header(text, lex, n - 1, r);
        }
    }
}

/// A file that holds, outside all braces, a resource block of type `t` and
/// name `n` declares the resource `t.n`.
pub proof fn lemma_resource_block_declared(text: Seq<char>, i: int)
    requires
        depth_before(lexemes(text), i) == 0,
        resource_header_at(text, lexemes(text), i),
    ensures
        declarations(text).contains(
            ResourceView {
                resource_type: lexeme_text(text, lexemes(text)[i + 1]),
                name: lexeme_text(text, lexemes(text)[i + 2]),
                is_module: false,
            },
        ),
{
    lemma_declaration_collected(text, lexemes(text), i, lexemes(text).len() as int);
}

/// A file that holds, outside all braces, a module block of name `n` declares
/// the module call `n`.
pub proof fn lemma_module_block_declared(text: Seq<char>, i: int)
    requires
        depth_before(lexemes(text), i) == 0,
        module_header_at(text, lexemes(text), i),
    ensures
        declarations(text).contains(
            ResourceView {
                resource_type: Seq::empty(),
                name: lexeme_text(text, lexemes(text)[i + 1]),
                is_module: true,
            },
        ),
{
    reveal_strlit("resource");
    reveal_strlit("module");
    let lex = lexemes(text);
    assert(!resource_header_at(text, lex, i)) by {
        if resource_header_at(text, lex, i) {
            assert("resource"@.len() == "module"@.len());
        }
    }
    lemma_declaration_collected(text, lex, i, lex.len() as int);
}

/// Every declaration of a text is well formed.
pub proof fn lemma_declarations_well_formed(text: Seq<char>, r: ResourceView)
    requires
        declarations(text).contains(r),
    ensures
        is_declared_form(r),
{
    lemma_declaration_has_header(text, lexemes(text), lexemes(text).len() as int, r);
}

/// The text of a resource header: the keyword, the type and the name in
/// quotes, and the opening brace, with one space between them.
pub open spec fn resource_header(resource_type: Seq<char>, name: Seq<char>) -> Seq<char> {
    "resource"@ + seq![' ', '"'] + resource_type + seq!['"', ' ', '"'] + name + seq!['"', ' ', '{']
}

/// The text of a module header: the keyword, the name in quotes, and the
/// opening brace, with one space between them.
pub open spec fn module_header(name: Seq<char>) -> Seq<char> {
    "module"@ + seq![' ', '"'] + name + seq!['"', ' ', '{']
}

/// A run of word characters that ends at `end` is one word.
proof fn lemma_word_run(text: Seq<char>, start: int, end: int)
    requires
        0 <= start <= end <= text.len(),
        forall|j: int| start <= j < end ==> is_word_char(#[trigger] text[j]),
        end < text.len() ==> !is_word_char(text[end]),
    ensures
        word_end(text, start) == end,
    decreases end - start,
{
    if start < end {
        lemma_word_run(text, start + 1, end);
    }
}

/// A run of word characters that a quote follows is the content of one string.
proof fn lemma_quote_run(text: Seq<char>, start: int, end: int)
    requires
        0 <= start <= end < text.len(),
        forall|j: int| start <= j < end ==> is_word_char(#[trigger] text[j]),
        text[end] == '"',
    ensures
        quote_end(text, start) == end,
    decreases end - start,
{
    if start < end {
        assert(is_word_char(text[start]));
        lemma_quote_run(text, start + 1, end);
    }
}

/// A declaration whose header is the first lexeme is the first declaration.
proof fn lemma_first_declaration(text: Seq<char>, lex: Seq<Lexeme>, n: int)
    requires
        n >= 1,
        declaration_at(text, lex, 0) is Some,
    ensures
        declarations_upto(text, lex, n).len() >= 1,
        declarations_upto(text, lex, n)[0] == declaration_at(text, lex, 0)->0,
    decreases n,
{
    if n > 1 {
        lemma_first_declaration(text, lex, n - 1);
    } else {
        assert(declarations_upto(text, lex, 0).len() == 0);
    }
}

/// A quoted identifier that starts at `pos` is one lexeme, and scanning goes
/// on behind its closing quote.
proof fn lemma_quoted_label(text: Seq<char>, pos: int, label: Seq<char>)
    requires
        0 <= pos,
        pos + label.len() + 1 < text.len(),
        is_identifier(label),
        text[pos] == '"',
        text.subrange(pos + 1, pos + 1 + label.len()) == label,
        text[pos + 1 + label.len()] == '"',
    ensures
        lexemes_from(text, pos) == seq![
            Lexeme { kind: TokenKind::Quoted, start: pos + 1, end: pos + 1 + label.len() },
        ] + lexemes_from(text, pos + 2 + label.len()),
{
    assert forall|j: int| pos + 1 <= j < pos + 1 + label.len() implies is_word_char(
        #[trigger] text[j],
    ) by {
        assert(text[j] == text.subrange(pos + 1, pos + 1 + label.len())[j - pos - 1]);
        assert(is_word_char(label[j - pos - 1]));
    }
    lemma_quote_run(text, pos + 1, pos + 1 + label.len());
}

/// A text that begins with a resource header declares that resource first,
/// whatever follows the header.
pub proof fn lemma_leading_resource_header(
    resource_type: Seq<char>,
    name: Seq<char>,
    rest: Seq<char>,
)
    requires
        is_identifier(resource_type),
        is_identifier(name),
    ensures
        declarations(resource_header(resource_type, name) + rest).len() >= 1,
        declarations(resource_header(resource_type, name) + rest)[0] == (ResourceView {
            resource_type,
            name,
            is_module: false,
        }),
{
    reveal_strlit("resource");
    let text = resource_header(resource_type, name) + rest;
    let a = resource_type.len() as int;
    let b = name.len() as int;
    let lex = lexemes(text);
    assert(text.len() == 16 + a + b + rest.len());
    assert(text.subrange(0, 8) =~= "resource"@);
    assert(text.subrange(10, 10 + a) =~= resource_type);
    assert(text.subrange(13 + a, 13 + a + b) =~= name);
    assert(text[8] == ' ' && text[9] == '"' && text[10 + a] == '"' && text[11 + a] == ' ');
    assert(text[12 + a] == '"' && text[13 + a + b] == '"' && text[14 + a + b] == ' ');
    assert(text[15 + a + b] == '{');
    assert forall|j: int| 0 <= j < 8 implies is_word_char(#[trigger] text[j]) by {
        assert(text[j] == "resource"@[j]);
    }
    lemma_word_run(text, 0, 8);
    lemma_quoted_label(text, 9, resource_type);
    lemma_quoted_label(text, 12 + a, name);
    lemma_piece_advances(text, 15 + a + b);
    let word = Lexeme { kind: TokenKind::Word, start: 0, end: 8 };
    let first = Lexeme { kind: TokenKind::Quoted, start: 10, end: 10 + a };
    let second = Lexeme { kind: TokenKind::Quoted, start: 13 + a, end: 13 + a + b };
    let brace = Lexeme { kind: TokenKind::Open, start: 15 + a + b, end: 16 + a + b };
    assert(lexemes_from(text, 0) == seq![word] + lexemes_from(text, 8));
    assert(lexemes_from(text, 8) == lexemes_from(text, 9));
    assert(lexemes_from(text, 11 + a) == lexemes_from(text, 12 + a));
    assert(lexemes_from(text, 14 + a + b) == lexemes_from(text, 15 + a + b));
    assert(lexemes_from(text, 15 + a + b) == seq![brace] + lexemes_from(text, 16 + a + b));
    assert(lex =~= seq![word, first, second, brace] + lexemes_from(text, 16 + a + b));
    assert(lex[0] == word && lex[1] == first && lex[2] == second && lex[3] == brace);
    assert(resource_header_at(text, lex, 0));
    lemma_first_declaration(text, lex, lex.len() as int);
}

/// A text that begins with a module header declares that module call first,
/// whatever follows the header.
pub proof fn lemma_leading_module_header(name: Seq<char>, rest: Seq<char>)
    requires
        is_identifier(name),
    ensures
        declarations(module_header(name) + rest).len() >= 1,
        declarations(module_header(name) + rest)[0] == (ResourceView {
            resource_type: Seq::empty(),
            name,
            is_module: true,
        }),
{
    reveal_strlit("module");
    reveal_strlit("resource");
    let text = module_header(name) + rest;
    let b = name.len() as int;
    let lex = lexemes(text);
    assert(text.len() == 11 + b + rest.len());
    assert(text.subrange(0, 6) =~= "module"@);
    assert(text.subrange(8, 8 + b) =~= name);
    assert(text[6] == ' ' && text[7] == '"' && text[8 + b] == '"' && text[9 + b] == ' ');
    assert(text[10 + b] == '{');
    assert forall|j: int| 0 <= j < 6 implies is_word_char(#[trigger] text[j]) by {
        assert(text[j] == "module"@[j]);
    }
    lemma_word_run(text, 0, 6);
    lemma_quoted_label(text, 7, name);
    lemma_piece_advances(text, 10 + b);
    let word = Lexeme { kind: TokenKind::Word, start: 0, end: 6 };
    let label = Lexeme { kind: TokenKind::Quoted, start: 8, end: 8 + b };
    let brace = Lexeme { kind: TokenKind::Open, start: 10 + b, end: 11 + b };
    assert(lexemes_from(text, 0) == seq![word] + lexemes_from(text, 6));
    assert(lexemes_from(text, 6) == lexemes_from(text, 7));
    assert(lexemes_from(text, 9 + b) == lexemes_from(text, 10 + b));
    assert(lexemes_from(text, 10 + b) == seq![brace] + lexemes_from(text, 11 + b));
    assert(lex =~= seq![word, label, brace] + lexemes_from(text, 11 + b));
    assert(lex[0] == word && lex[1] == label && lex[2] == brace);
    assert(module_header_at(text, lex, 0));
    assert(!resource_header_at(text, lex, 0)) by {
        if resource_header_at(text, lex, 0) {
            assert("resource"@.len() == "module"@.len());
        }
    }
    lemma_first_declaration(text, lex, lex.len() as int);
}

fn space_char(c: char) -> (out: bool)
    ensures
        out == is_space(c),
{
    c == ' ' || c == '\t' || c == '\n' || c == '\r'
}

fn word_char(c: char) -> (out: bool)
    ensures
        out == is_word_char(c),
{
    ('a' <= c && c <= 'z') || ('A' <= c && c <= 'Z') || ('0' <= c && c <= '9') || c == '_' || c
        == '-' || c > '\x7f'
}

fn find_line_end(chars: &Vec<char>, pos: usize) -> (end: usize)
    requires
        pos <= chars.len(),
    ensures
        end == line_end(chars@, pos as int),
        pos <= end <= chars.len(),
{
    let mut end: usize = pos;
    while end < chars.len() && chars[end] != '\n'
        invariant
            pos <= end <= chars.len(),
            line_end(chars@, pos as int) == line_end(chars@, end as int),
        decreases chars.len() - end,
    {
        end = end + 1;
    }
    end
}

fn find_block_end(chars: &Vec<char>, pos: usize) -> (end: usize)
    requires
        pos <= chars.len(),
    ensures
        end == block_end(chars@, pos as int),
        pos <= end <= chars.len(),
{
    let n = chars.len();
    let mut at: usize = pos;
    while at < n && at + 1 < n && !(chars[at] == '*' && chars[at + 1] == '/')
        invariant
            n == chars.len(),
            pos <= at <= n,
            block_end(chars@, pos as int) == block_end(chars@, at as int),
        decreases n - at,
    {
        at = at + 1;
    }
    if at < n && at + 1 < n {
        at + 2
    } else {
        n
    }
}

fn find_quote_end(chars: &Vec<char>, pos: usize) -> (end: usize)
    requires
        pos <= chars.len(),
    ensures
        end == quote_end(chars@, pos as int),
        pos <= end <= chars.len(),
{
    let n = chars.len();
    let mut at: usize = pos;
    while at < n && chars[at] != '"'
        invariant
            n == chars.len(),
            pos <= at <= n,
            quote_end(chars@, pos as int) == quote_end(chars@, at as int),
        decreases n - at,
    {
        if chars[at] == '\\' {
            if at + 1 >= n {
                return n;
            }
            at = at + 2;
        } else {
            at = at + 1;
        }
    }
    at
}

fn find_word_end(chars: &Vec<char>, pos: usize) -> (end: usize)
    requires
        pos <= chars.len(),
    ensures
        end == word_end(chars@, pos as int),
        pos <= end <= chars.len(),
{
    let mut end: usize = pos;
    while end < chars.len() && word_char(chars[end])
        invariant
            pos <= end <= chars.len(),
            word_end(chars@, pos as int) == word_end(chars@, end as int),
        decreases chars.len() - end,
    {
        end = end + 1;
    }
    end
}

fn find_blank_end(chars: &Vec<char>, pos: usize, to: usize) -> (end: usize)
    requires
        pos <= to <= chars.len(),
    ensures
        end == blank_end(chars@, pos as int, to as int),
        pos <= end <= to,
{
    let mut end: usize = pos;
    while end < to && (chars[end] == ' ' || chars[end] == '\t' || chars[end] == '\r')
        invariant
            pos <= end <= to <= chars.len(),
            blank_end(chars@, pos as int, to as int) == blank_end(chars@, end as int, to as int),
        decreases to - end,
    {
        end = end + 1;
    }
    end
}

/// Whether the `n` characters from `a` equal the `n` characters from `b`.
fn spans_equal(chars: &Vec<char>, a: usize, b: usize, n: usize) -> (out: bool)
    requires
        a + n <= chars.len(),
        b + n <= chars.len(),
    ensures
        out == (chars@.subrange(a as int, a + n) == chars@.subrange(b as int, b + n)),
{
    let ghost left = chars@.subrange(a as int, a + n);
    let ghost right = chars@.subrange(b as int, b + n);
    let mut k: usize = 0;
    while k < n
        invariant
            a + n <= chars.len(),
            b + n <= chars.len(),
            k <= n,
            left == chars@.subrange(a as int, a + n),
            right == chars@.subrange(b as int, b + n),
            forall|j: int| 0 <= j < k ==> #[trigger] left[j] == right[j],
        decreases n - k,
    {
        if chars[a + k] != chars[b + k] {
            assert(left[k as int] != right[k as int]);
            return false;
        }
        k = k + 1;
    }
    assert(left =~= right);
    true
}

fn marker_line(chars: &Vec<char>, from: usize, to: usize, start: usize, end: usize) -> (out: bool)
    requires
        from <= to <= chars.len(),
        start <= end <= chars.len(),
    ensures
        out == is_marker_line(
            chars@,
            from as int,
            to as int,
            chars@.subrange(start as int, end as int),
        ),
{
    let at = find_blank_end(chars, from, to);
    let n = end - start;
    if to - at < n {
        return false;
    }
    if !spans_equal(chars, at, start, n) {
        return false;
    }
    find_blank_end(chars, at + n, to) == to
}

fn find_heredoc_end(chars: &Vec<char>, from: usize, start: usize, end: usize) -> (out: usize)
    requires
        from <= chars.len(),
        start <= end <= chars.len(),
    ensures
        out == heredoc_end(chars@, from as int, chars@.subrange(start as int, end as int)),
        from <= out <= chars.len(),
{
    let n = chars.len();
    let ghost marker = chars@.subrange(start as int, end as int);
    let mut line: usize = from;
    while line < n
        invariant
            n == chars.len(),
            from <= line <= n,
            start <= end <= n,
            marker == chars@.subrange(start as int, end as int),
            heredoc_end(chars@, from as int, marker) == heredoc_end(chars@, line as int, marker),
        decreases n - line,
    {
        let stop = find_line_end(chars, line);
        if marker_line(chars, line, stop, start, end) {
            return stop;
        }
        if stop >= n {
            return n;
        }
        line = stop + 1;
    }
    n
}

/// The position behind the heredoc that opens at `pos`, if one opens there.
fn heredoc_at(chars: &Vec<char>, pos: usize) -> (out: Option<usize>)
    requires
        pos < chars.len(),
    ensures
        match out {
            Some(next) => opens_heredoc(chars@, pos as int) && next == heredoc_skip(
                chars@,
                pos as int,
            ),
            None => !opens_heredoc(chars@, pos as int),
        },
{
    let n = chars.len();
    if chars[pos] != '<' || n - pos < 2 || chars[pos + 1] != '<' {
        return None;
    }
    let start = if n - pos > 2 && chars[pos + 2] == '-' {
        pos + 3
    } else {
        pos + 2
    };
    let end = find_word_end(chars, start);
    if end == start {
        return None;
    }
    let line = find_line_end(chars, end);
    if line >= n {
        Some(n)
    } else {
        Some(find_heredoc_end(chars, line + 1, start, end))
    }
}

/// Cuts the text into its lexemes, in the order in which they stand.
pub fn tokenize(chars: &Vec<char>) -> (out: Vec<Token>)
    ensures
        views(out@) == lexemes(chars@),
{
    let n = chars.len();
    let mut out: Vec<Token> = Vec::new();
    let mut pos: usize = 0;
    assert(views(out@) + lexemes_from(chars@, 0) =~= lexemes(chars@));
    while pos < n
        invariant
            n == chars.len(),
            pos <= n,
            views(out@) + lexemes_from(chars@, pos as int) == lexemes(chars@),
        decreases n - pos,
    {
        proof {
            lemma_piece_advances(chars@, pos as int);
        }
        let ghost before = views(out@);
        let ghost piece = piece_at(chars@, pos as int);
        let c = chars[pos];
        if space_char(c) {
            pos = pos + 1;
        } else if c == '#' {
            pos = find_line_end(chars, pos + 1);
        } else if c == '/' && pos + 1 < n && chars[pos + 1] == '/' {
            pos = find_line_end(chars, pos + 2);
        } else if c == '/' && pos + 1 < n && chars[pos + 1] == '*' {
            pos = find_block_end(chars, pos + 2);
        } else if let Some(next) = heredoc_at(chars, pos) {
            pos = next;
        } else {
            let token = if c == '"' {
                let close = find_quote_end(chars, pos + 1);
                let token = Token { kind: TokenKind::Quoted, start: pos + 1, end: close };
                pos = if close < n {
                    close + 1
                } else {
                    close
                };
                token
            } else if c == '{' {
                pos = pos + 1;
                Token { kind: TokenKind::Open, start: pos - 1, end: pos }
            } else if c == '}' {
                pos = pos + 1;
                Token { kind: TokenKind::Close, start: pos - 1, end: pos }
            } else if word_char(c) {
                let end = find_word_end(chars, pos);
                let token = Token { kind: TokenKind::Word, start: pos, end };
                pos = end;
                token
            } else {
                pos = pos + 1;
                Token { kind: TokenKind::Other, start: pos - 1, end: pos }
            };
            out.push(token);
            assert(piece == Piece::Found(token@, pos as int));
            assert(views(out@) =~= before.push(token@));
            assert(before.push(token@) + lexemes_from(chars@, pos as int) =~= before + (seq![
                token@,
            ] + lexemes_from(chars@, pos as int)));
        }
    }
    assert(views(out@) + lexemes_from(chars@, pos as int) =~= views(out@));
    out
}

/// Whether the characters from `start` to `end` spell `word`.
fn span_is(chars: &Vec<char>, start: usize, end: usize, word: &Vec<char>) -> (out: bool)
    requires
        start <= end <= chars.len(),
    ensures
        out == (chars@.subrange(start as int, end as int) == word@),
{
    if end - start != word.len() {
        return false;
    }
    let mut k: usize = 0;
    while k < word.len()
        invariant
            start <= end <= chars.len(),
            end - start == word.len(),
            k <= word.len(),
            forall|j: int| 0 <= j < k ==> chars@[start + j] == word@[j],
        decreases word.len() - k,
    {
        if chars[start + k] != word[k] {
            assert(chars@.subrange(start as int, end as int)[k as int] != word@[k as int]);
            return false;
        }
        k = k + 1;
    }
    assert(chars@.subrange(start as int, end as int) =~= word@);
    true
}

/// Whether the characters from `start` to `end` form an identifier.
fn span_is_identifier(chars: &Vec<char>, start: usize, end: usize) -> (out: bool)
    requires
        start <= end <= chars.len(),
    ensures
        out == is_identifier(chars@.subrange(start as int, end as int)),
{
    let ghost span = chars@.subrange(start as int, end as int);
    if start == end {
        return false;
    }
    let mut k: usize = start;
    while k < end
        invariant
            start <= k <= end <= chars.len(),
            span == chars@.subrange(start as int, end as int),
            forall|j: int| 0 <= j < k - start ==> is_word_char(#[trigger] span[j]),
        decreases end - k,
    {
        if !word_char(chars[k]) {
            assert(!is_word_char(span[k - start]));
            return false;
        }
        k = k + 1;
    }
    true
}

fn label_token(chars: &Vec<char>, token: &Token) -> (out: bool)
    requires
        token.start <= token.end <= chars.len(),
    ensures
        out == is_label(chars@, token@),
{
    token.kind == TokenKind::Quoted && span_is_identifier(chars, token.start, token.end)
}

fn keyword_token(chars: &Vec<char>, token: &Token, word: &Vec<char>) -> (out: bool)
    requires
        token.start <= token.end <= chars.len(),
    ensures
        out == is_keyword(chars@, token@, word@),
{
    token.kind == TokenKind::Word && span_is(chars, token.start, token.end, word)
}

/// Every lexeme covers a span inside the text.
pub proof fn lemma_lexemes_in_range(text: Seq<char>, pos: int, k: int)
    requires
        0 <= pos,
        0 <= k < lexemes_from(text, pos).len(),
    ensures
        pos <= lexemes_from(text, pos)[k].start <= lexemes_from(text, pos)[k].end <= text.len(),
    decreases text.len() - pos,
{
    if pos < text.len() {
        lemma_piece_advances(text, pos);
        match piece_at(text, pos) {
            Piece::Skip(next) => {
                lemma_lexemes_in_range(text, next, k);
            },
            Piece::Found(l, next) => {
                if k > 0 {
                    lemma_lexemes_in_range(text, next, k - 1);
                }
            },
        }
    }
}

/// Finds the declarations of a configuration text: the resource blocks and
/// module calls whose headers stand outside every brace pair, in the order
/// in which they stand.
pub fn scan_declarations(content: &str) -> (out: Vec<Resource>)
    ensures
        views(out@) == declarations(content@),
{
    let chars = chars_of(content);
    let tokens = tokenize(&chars);
    let resource_word = chars_of("resource");
    let module_word = chars_of("module");
    let ghost text = content@;
    let ghost lex = lexemes(text);
    let n = tokens.len();
    assert(lex.len() == n);
    assert forall|k: int| 0 <= k < n implies (#[trigger] tokens@[k]).start <= tokens@[k].end
        <= chars.len() by {
        lemma_lexemes_in_range(text, 0, k);
        assert(lex[k] == tokens@[k]@);
    }
    let mut out: Vec<Resource> = Vec::new();
    let mut depth: usize = 0;
    let mut i: usize = 0;
    assert(views(out@) =~= declarations_upto(text, lex, 0));
    while i < n
        invariant
            n == tokens.len(),
            n == lex.len(),
            i <= n,
            text == content@,
            text == chars@,
            lex == views(tokens@),
            resource_word@ == "resource"@,
            module_word@ == "module"@,
            forall|k: int| 0 <= k < n ==> (#[trigger] tokens@[k]).start <= tokens@[k].end
                <= chars.len(),
            depth == depth_before(lex, i as int),
            depth <= i,
            views(out@) == declarations_upto(text, lex, i as int),
        decreases n - i,
    {
        let ghost before = views(out@);
        let token = &tokens[i];
        assert(lex[i as int] == token@);
        if depth == 0 {
            if n - i > 3 && keyword_token(&chars, token, &resource_word) && label_token(
                &chars,
                &tokens[i + 1],
            ) && label_token(&chars, &tokens[i + 2]) && tokens[i + 3].kind == TokenKind::Open {
                assert(lex[i + 1] == tokens@[i + 1]@);
                assert(lex[i + 2] == tokens@[i + 2]@);
                assert(lex[i + 3] == tokens@[i + 3]@);
                let resource = Resource {
                    resource_type: string_of(&chars, tokens[i + 1].start, tokens[i + 1].end),
                    name: string_of(&chars, tokens[i + 2].start, tokens[i + 2].end),
                    is_module: false,
                };
                assert(declaration_at(text, lex, i as int) == Some(resource@));
                out.push(resource);
                assert(views(out@) =~= before.push(resource@));
            } else if n - i > 2 && keyword_token(&chars, token, &module_word) && label_token(
                &chars,
                &tokens[i + 1],
            ) && tokens[i + 2].kind == TokenKind::Open {
                assert(lex[i + 1] == tokens@[i + 1]@);
                assert(lex[i + 2] == tokens@[i + 2]@);
                if i + 3 < n {
                    assert(lex[i + 3] == tokens@[i + 3]@);
                }
                let resource = Resource {
                    resource_type: String::new(),
                    name: string_of(&chars, tokens[i + 1].start, tokens[i + 1].end),
                    is_module: true,
                };
                assert(!resource_header_at(text, lex, i as int));
                assert(declaration_at(text, lex, i as int) == Some(resource@));
                out.push(resource);
                assert(views(out@) =~= before.push(resource@));
            } else {
                proof {
                    if i + 1 < n {
                        assert(lex[i + 1] == tokens@[i + 1]@);
                    }
                    if i + 2 < n {
                        assert(lex[i + 2] == tokens@[i + 2]@);
                    }
                    if i + 3 < n {
                        assert(lex[i + 3] == tokens@[i + 3]@);
                    }
                    assert(declaration_at(text, lex, i as int) is None);
                }
            }
        }
        match token.kind {
            TokenKind::Open => {
                depth = depth + 1;
            },
            TokenKind::Close => {
                if depth > 0 {
                    depth = depth - 1;
                }
            },
            _ => {},
        }
        i = i + 1;
    }
    out
}

} // verus!
