//! Splits source text into tokens: identifiers, keywords, literals and the
//! keyword, ASCII and Unicode spellings of every operator.

use vstd::prelude::*;

use crate::diagnostics::{concat_strs, concat_views, is_parse_err, CaelumError, Result, Span};

verus! {

#[derive(Debug, Clone, PartialEq, Eq)]
pub enum TokenKind {
    Ident(String),
    /// A decimal literal; `None` when it does not fit in 64 bits.
    Int(Option<i64>),
    /// A string literal, escapes already resolved.
    Str(String),
    // keywords
    Module,
    Import,
    Type,
    Const,
    Let,
    Init,
    Transition,
    Property,
    Invalid,
    Fairness,
    Enum,
    Bool,
    True,
    False,
    Unchanged,
    Except,
    // operators and punctuation
    Not,
    And,
    Or,
    Implies,
    Iff,
    Always,
    Eventually,
    Next,
    Until,
    Forall,
    Exists,
    Mod,
    Plus,
    Minus,
    Star,
    Slash,
    EqSign,
    Ne,
    Lt,
    Le,
    Gt,
    Ge,
    LParen,
    RParen,
    LBrace,
    RBrace,
    LBracket,
    RBracket,
    Comma,
    Colon,
    In,
    Dot,
    DotDot,
    Prime,
    Eof,
}

/// A token and the characters it spans, `start` inclusive and `end` exclusive.
#[derive(Debug, Clone)]
pub struct Token {
    pub kind: TokenKind,
    pub start: usize,
    pub end: usize,
}

pub open spec fn is_ident_start(c: char) -> bool {
    ('a' <= c && c <= 'z') || ('A' <= c && c <= 'Z') || c == '_'
}

pub open spec fn is_ident_char(c: char) -> bool {
    is_ident_start(c) || ('0' <= c && c <= '9')
}

/// `[A-Za-z_][A-Za-z0-9_]*`
pub open spec fn is_ident_shape(s: Seq<char>) -> bool {
    s.len() > 0 && is_ident_start(s[0]) && forall|i: int| 1 <= i < s.len() ==> is_ident_char(#[trigger] s[i])
}

/// The words that spell keywords or operators and cannot name anything.
pub open spec fn is_reserved(s: Seq<char>) -> bool {
    s == "module"@ || s == "import"@ || s == "type"@ || s == "const"@ || s == "let"@
    || s == "init"@ || s == "transition"@ || s == "property"@ || s == "invalid"@
    || s == "fairness"@ || s == "enum"@ || s == "bool"@ || s == "true"@ || s == "false"@
    || s == "unchanged"@ || s == "except"@ || s == "not"@ || s == "and"@ || s == "or"@
    || s == "always"@ || s == "eventually"@ || s == "next"@ || s == "until"@ || s == "U"@
    || s == "forall"@ || s == "exists"@ || s == "mod"@
}

/// A name that can be declared or referenced.
pub open spec fn is_identifier(s: Seq<char>) -> bool {
    is_ident_shape(s) && !is_reserved(s)
}

/// Tokens in source order, each within the text and after the one before,
/// every identifier a valid name, and a final end-of-input token.
pub open spec fn tokens_wf(toks: Seq<Token>, n: int) -> bool {
    &&& 0 < toks.len() <= n + 1
    &&& toks.last().kind is Eof
    &&& toks.last().start == n && toks.last().end == n
    &&& forall|i: int| 0 <= i < toks.len() ==> (#[trigger] toks[i]).start <= toks[i].end <= n
    &&& forall|i: int| 0 <= i < toks.len() ==> ((#[trigger] toks[i]).kind is Eof ==> i == toks.len() - 1)
    &&& forall|i: int, j: int| 0 <= i < j < toks.len() ==> (#[trigger] toks[i]).end <= (#[trigger] toks[j]).start
    &&& forall|i: int| 0 <= i < toks.len() ==> ((#[trigger] toks[i]).kind matches TokenKind::Ident(s) ==> is_identifier(s@))
}

fn str_is(w: &String, lit: &str) -> (r: bool)
    ensures
        r == (w@ == lit@),
{
    *w == lit.to_owned()
}

/// The keyword or operator a word spells, or `None` for a plain identifier.
pub open spec fn keyword_kind(w: Seq<char>) -> Option<TokenKind> {
    if w == "module"@ { Some(TokenKind::Module) }
    else if w == "import"@ { Some(TokenKind::Import) }
    else if w == "type"@ { Some(TokenKind::Type) }
    else if w == "const"@ { Some(TokenKind::Const) }
    else if w == "let"@ { Some(TokenKind::Let) }
    else if w == "init"@ { Some(TokenKind::Init) }
    else if w == "transition"@ { Some(TokenKind::Transition) }
    else if w == "property"@ { Some(TokenKind::Property) }
    else if w == "invalid"@ { Some(TokenKind::Invalid) }
    else if w == "fairness"@ { Some(TokenKind::Fairness) }
    else if w == "enum"@ { Some(TokenKind::Enum) }
    else if w == "bool"@ { Some(TokenKind::Bool) }
    else if w == "true"@ { Some(TokenKind::True) }
    else if w == "false"@ { Some(TokenKind::False) }
    else if w == "unchanged"@ { Some(TokenKind::Unchanged) }
    else if w == "except"@ { Some(TokenKind::Except) }
    else if w == "not"@ { Some(TokenKind::Not) }
    else if w == "and"@ { Some(TokenKind::And) }
    else if w == "or"@ { Some(TokenKind::Or) }
    else if w == "always"@ { Some(TokenKind::Always) }
    else if w == "eventually"@ { Some(TokenKind::Eventually) }
    else if w == "next"@ { Some(TokenKind::Next) }
    else if w == "until"@ { Some(TokenKind::Until) }
    else if w == "U"@ { Some(TokenKind::Until) }
    else if w == "forall"@ { Some(TokenKind::Forall) }
    else if w == "exists"@ { Some(TokenKind::Exists) }
    else if w == "mod"@ { Some(TokenKind::Mod) }
    else { None }
}

/// The keyword or operator a word spells, or `None` for a plain identifier.
fn classify_word(w: &String) -> (r: Option<TokenKind>)
    ensures
        r == keyword_kind(w@),
        r is None <==> !is_reserved(w@),
        r matches Some(k) ==> !(k is Int) && !(k is Str),
        r matches Some(k) ==> !(k is Ident) && !(k is Eof),
{
    if str_is(w, "module") { Some(TokenKind::Module) }
    else if str_is(w, "import") { Some(TokenKind::Import) }
    else if str_is(w, "type") { Some(TokenKind::Type) }
    else if str_is(w, "const") { Some(TokenKind::Const) }
    else if str_is(w, "let") { Some(TokenKind::Let) }
    else if str_is(w, "init") { Some(TokenKind::Init) }
    else if str_is(w, "transition") { Some(TokenKind::Transition) }
    else if str_is(w, "property") { Some(TokenKind::Property) }
    else if str_is(w, "invalid") { Some(TokenKind::Invalid) }
    else if str_is(w, "fairness") { Some(TokenKind::Fairness) }
    else if str_is(w, "enum") { Some(TokenKind::Enum) }
    else if str_is(w, "bool") { Some(TokenKind::Bool) }
    else if str_is(w, "true") { Some(TokenKind::True) }
    else if str_is(w, "false") { Some(TokenKind::False) }
    else if str_is(w, "unchanged") { Some(TokenKind::Unchanged) }
    else if str_is(w, "except") { Some(TokenKind::Except) }
    else if str_is(w, "not") { Some(TokenKind::Not) }
    else if str_is(w, "and") { Some(TokenKind::And) }
    else if str_is(w, "or") { Some(TokenKind::Or) }
    else if str_is(w, "always") { Some(TokenKind::Always) }
    else if str_is(w, "eventually") { Some(TokenKind::Eventually) }
    else if str_is(w, "next") { Some(TokenKind::Next) }
    else if str_is(w, "until") { Some(TokenKind::Until) }
    else if str_is(w, "U") { Some(TokenKind::Until) }
    else if str_is(w, "forall") { Some(TokenKind::Forall) }
    else if str_is(w, "exists") { Some(TokenKind::Exists) }
    else if str_is(w, "mod") { Some(TokenKind::Mod) }
    else { None }
}

/// The number of bytes UTF-8 uses for a character.
pub open spec fn utf8_width(c: char) -> nat {
    if (c as u32) < 0x80 { 1 } else if (c as u32) < 0x800 { 2 } else if (c as u32) < 0x10000 { 3 } else { 4 }
}

/// The byte offset of character position `pos`.
pub open spec fn byte_offset(s: Seq<char>, pos: int) -> nat
    decreases pos,
{
    if pos <= 0 { 0 } else { byte_offset(s, pos - 1) + utf8_width(s[pos - 1]) }
}

/// The 1-based line of character position `pos`.
pub open spec fn line_of(s: Seq<char>, pos: int) -> nat
    decreases pos,
{
    if pos <= 0 { 1 } else { line_of(s, pos - 1) + (if s[pos - 1] == '\n' { 1nat } else { 0nat }) }
}

/// The 1-based column (in characters) of character position `pos`.
pub open spec fn col_of(s: Seq<char>, pos: int) -> nat
    decreases pos,
{
    if pos <= 0 { 1 } else if s[pos - 1] == '\n' { 1 } else { col_of(s, pos - 1) + 1 }
}

proof fn lemma_positions_bounded(s: Seq<char>, pos: int)
    requires
        0 <= pos <= s.len(),
    ensures
        line_of(s, pos) <= pos + 1,
        col_of(s, pos) <= pos + 1,
        byte_offset(s, pos) <= 4 * pos,
        line_of(s, pos) >= 1,
        col_of(s, pos) >= 1,
    decreases pos,
{
    if pos > 0 {
        lemma_positions_bounded(s, pos - 1);
    }
}

/// The byte offset, line and column of character position `pos`.
pub fn locate(chars: &Vec<char>, pos: usize) -> (r: (usize, usize, usize))
    requires
        pos <= chars@.len(),
        chars@.len() < usize::MAX / 4,
    ensures
        r.0 == byte_offset(chars@, pos as int),
        r.1 == line_of(chars@, pos as int),
        r.2 == col_of(chars@, pos as int),
{
    let mut i: usize = 0;
    let mut byte: usize = 0;
    let mut line: usize = 1;
    let mut col: usize = 1;
    while i < pos
        invariant
            i <= pos <= chars@.len() < usize::MAX / 4,
            byte == byte_offset(chars@, i as int),
            line == line_of(chars@, i as int),
            col == col_of(chars@, i as int),
        decreases pos - i,
    {
        proof { lemma_positions_bounded(chars@, i as int + 1); }
        let c = chars[i];
        let w: usize = if (c as u32) < 0x80 { 1 } else if (c as u32) < 0x800 { 2 } else if (c as u32) < 0x10000 { 3 } else { 4 };
        byte = byte + w;
        if c == '\n' {
            line = line + 1;
            col = 1;
        } else {
            col = col + 1;
        }
        i = i + 1;
    }
    (byte, line, col)
}

/// The span from character position `start` to `end`.
pub fn span_between(chars: &Vec<char>, start: usize, end: usize) -> (r: Span)
    requires
        start <= end <= chars@.len(),
        chars@.len() < usize::MAX / 4,
    ensures
        r.byte_start == byte_offset(chars@, start as int),
        r.byte_end == byte_offset(chars@, end as int),
        r.start_line == line_of(chars@, start as int),
        r.start_col == col_of(chars@, start as int),
        r.end_line == line_of(chars@, end as int),
        r.end_col == col_of(chars@, end as int),
{
    let (bs, ls, cs) = locate(chars, start);
    let (be, le, ce) = locate(chars, end);
    Span { byte_start: bs, byte_end: be, start_line: ls, start_col: cs, end_line: le, end_col: ce }
}

/// A span that starts and ends at character position `pos`.
pub open spec fn at_position(sp: Span, chars: Seq<char>, pos: int) -> bool {
    &&& sp.byte_start == byte_offset(chars, pos)
    &&& sp.byte_end == byte_offset(chars, pos)
    &&& sp.start_line == line_of(chars, pos)
    &&& sp.start_col == col_of(chars, pos)
    &&& sp.end_line == line_of(chars, pos)
    &&& sp.end_col == col_of(chars, pos)
}

/// A parse error located at character position `pos`.
pub fn error_at(chars: &Vec<char>, pos: usize, path: &String, parts: &[&str]) -> (r: CaelumError)
    requires
        pos <= chars@.len(),
        chars@.len() < usize::MAX / 4,
    ensures
        r matches CaelumError::Parse { path: p, message: m, span: Some(sp) } && p@ == path@
            && m@ == concat_views(parts@) && at_position(sp, chars@, pos as int)
            && sp.start_line >= 1 && sp.start_col >= 1,
{
    proof {
        lemma_positions_bounded(chars@, pos as int);
    }
    let span = span_between(chars, pos, pos);
    CaelumError::Parse { path: path.clone(), message: concat_strs(parts), span: Some(span) }
}

fn is_digit(c: char) -> (r: bool)
    ensures
        r == ('0' <= c && c <= '9'),
{
    '0' <= c && c <= '9'
}

fn is_start(c: char) -> (r: bool)
    ensures
        r == is_ident_start(c),
{
    ('a' <= c && c <= 'z') || ('A' <= c && c <= 'Z') || c == '_'
}

fn is_word_char(c: char) -> (r: bool)
    ensures
        r == is_ident_char(c),
{
    is_start(c) || is_digit(c)
}

/// The characters of `s` at `pos` spell `lit`.
pub open spec fn spells_at(s: Seq<char>, pos: int, lit: Seq<char>) -> bool {
    0 <= pos && pos + lit.len() <= s.len() && s.subrange(pos, pos + lit.len()) == lit
}

/// Whether the characters at `pos` are `a` then `b`.
fn at2(chars: &Vec<char>, pos: usize, a: char, b: char) -> (r: bool)
    requires
        pos <= chars@.len(),
    ensures
        r == spells_at(chars@, pos as int, seq![a, b]),
{
    let r = pos < chars.len() && chars.len() - pos > 1 && chars[pos] == a && chars[pos + 1] == b;
    proof {
        if r {
            assert(chars@.subrange(pos as int, pos + 2) =~= seq![a, b]);
        } else if pos + 2 <= chars@.len() {
            let w = chars@.subrange(pos as int, pos + 2);
            assert(w[0] == chars@[pos as int] && w[1] == chars@[pos + 1]);
            assert(w != seq![a, b]);
        }
    }
    r
}

/// Whether the characters at `pos` are `a`, `b`, then `c`.
fn at3(chars: &Vec<char>, pos: usize, a: char, b: char, c: char) -> (r: bool)
    requires
        pos <= chars@.len(),
    ensures
        r == spells_at(chars@, pos as int, seq![a, b, c]),
{
    let r = pos < chars.len() && chars.len() - pos > 2 && chars[pos] == a && chars[pos + 1] == b && chars[pos + 2] == c;
    proof {
        if r {
            assert(chars@.subrange(pos as int, pos + 3) =~= seq![a, b, c]);
        } else if pos + 3 <= chars@.len() {
            let w = chars@.subrange(pos as int, pos + 3);
            assert(w[0] == chars@[pos as int] && w[1] == chars@[pos + 1] && w[2] == chars@[pos + 2]);
            assert(w != seq![a, b, c]);
        }
    }
    r
}

/// The one-character operator or punctuation `c` spells.
pub open spec fn single_symbol(c: char) -> Option<TokenKind> {
    if c == '<' { Some(TokenKind::Lt) }
    else if c == '>' { Some(TokenKind::Gt) }
    else if c == '=' { Some(TokenKind::EqSign) }
    else if c == '+' { Some(TokenKind::Plus) }
    else if c == '-' { Some(TokenKind::Minus) }
    else if c == '*' { Some(TokenKind::Star) }
    else if c == '/' { Some(TokenKind::Slash) }
    else if c == '~' { Some(TokenKind::Not) }
    else if c == '(' { Some(TokenKind::LParen) }
    else if c == ')' { Some(TokenKind::RParen) }
    else if c == '{' { Some(TokenKind::LBrace) }
    else if c == '}' { Some(TokenKind::RBrace) }
    else if c == '[' { Some(TokenKind::LBracket) }
    else if c == ']' { Some(TokenKind::RBracket) }
    else if c == ',' { Some(TokenKind::Comma) }
    else if c == ':' { Some(TokenKind::Colon) }
    else if c == '.' { Some(TokenKind::Dot) }
    else if c == '\'' { Some(TokenKind::Prime) }
    else if c == '¬' { Some(TokenKind::Not) }
    else if c == '∧' { Some(TokenKind::And) }
    else if c == '∨' { Some(TokenKind::Or) }
    else if c == '→' { Some(TokenKind::Implies) }
    else if c == '↔' { Some(TokenKind::Iff) }
    else if c == '□' { Some(TokenKind::Always) }
    else if c == '◇' { Some(TokenKind::Eventually) }
    else if c == '◯' { Some(TokenKind::Next) }
    else if c == '𝒰' { Some(TokenKind::Until) }
    else if c == '∀' { Some(TokenKind::Forall) }
    else if c == '∃' { Some(TokenKind::Exists) }
    else if c == '∈' { Some(TokenKind::In) }
    else if c == '≠' { Some(TokenKind::Ne) }
    else if c == '≤' { Some(TokenKind::Le) }
    else if c == '≥' { Some(TokenKind::Ge) }
    else { None }
}

/// The operator or punctuation at `pos` and its length, longest spelling first.
pub open spec fn symbol_spec(s: Seq<char>, pos: int) -> Option<(TokenKind, int)> {
    if spells_at(s, pos, seq!['<', '-', '>']) { Some((TokenKind::Iff, 3)) }
    else if spells_at(s, pos, seq!['-', '>']) { Some((TokenKind::Implies, 2)) }
    else if spells_at(s, pos, seq!['<', '=']) { Some((TokenKind::Le, 2)) }
    else if spells_at(s, pos, seq!['>', '=']) { Some((TokenKind::Ge, 2)) }
    else if spells_at(s, pos, seq!['!', '=']) { Some((TokenKind::Ne, 2)) }
    else if spells_at(s, pos, seq!['<', '>']) { Some((TokenKind::Eventually, 2)) }
    else if spells_at(s, pos, seq!['[', ']']) { Some((TokenKind::Always, 2)) }
    else if spells_at(s, pos, seq!['(', ')']) { Some((TokenKind::Next, 2)) }
    else if spells_at(s, pos, seq!['/', '\\']) { Some((TokenKind::And, 2)) }
    else if spells_at(s, pos, seq!['\\', '/']) { Some((TokenKind::Or, 2)) }
    else if spells_at(s, pos, seq!['.', '.']) { Some((TokenKind::DotDot, 2)) }
    else {
        match single_symbol(s[pos]) {
            Some(k) => Some((k, 1)),
            None => None,
        }
    }
}

/// The operator or punctuation at `pos` and its length in characters.
fn symbol_at(chars: &Vec<char>, pos: usize) -> (r: Option<(TokenKind, usize)>)
    requires
        pos < chars@.len(),
    ensures
        match r {
            Some((k, w)) => symbol_spec(chars@, pos as int) == Some((k, w as int)),
            None => symbol_spec(chars@, pos as int) is None,
        },
        r matches Some((k, w)) ==> !(k is Int) && !(k is Str),
        r matches Some((k, w)) ==> 1 <= w && pos + w <= chars@.len() && !(k is Ident) && !(k is Eof),
{
    if at3(chars, pos, '<', '-', '>') { return Some((TokenKind::Iff, 3)); }
    if at2(chars, pos, '-', '>') { return Some((TokenKind::Implies, 2)); }
    if at2(chars, pos, '<', '=') { return Some((TokenKind::Le, 2)); }
    if at2(chars, pos, '>', '=') { return Some((TokenKind::Ge, 2)); }
    if at2(chars, pos, '!', '=') { return Some((TokenKind::Ne, 2)); }
    if at2(chars, pos, '<', '>') { return Some((TokenKind::Eventually, 2)); }
    if at2(chars, pos, '[', ']') { return Some((TokenKind::Always, 2)); }
    if at2(chars, pos, '(', ')') { return Some((TokenKind::Next, 2)); }
    if at2(chars, pos, '/', '\\') { return Some((TokenKind::And, 2)); }
    if at2(chars, pos, '\\', '/') { return Some((TokenKind::Or, 2)); }
    if at2(chars, pos, '.', '.') { return Some((TokenKind::DotDot, 2)); }
    let c = chars[pos];
    let k = match c {
        '<' => TokenKind::Lt,
        '>' => TokenKind::Gt,
        '=' => TokenKind::EqSign,
        '+' => TokenKind::Plus,
        '-' => TokenKind::Minus,
        '*' => TokenKind::Star,
        '/' => TokenKind::Slash,
        '~' => TokenKind::Not,
        '(' => TokenKind::LParen,
        ')' => TokenKind::RParen,
        '{' => TokenKind::LBrace,
        '}' => TokenKind::RBrace,
        '[' => TokenKind::LBracket,
        ']' => TokenKind::RBracket,
        ',' => TokenKind::Comma,
        ':' => TokenKind::Colon,
        '.' => TokenKind::Dot,
        '\'' => TokenKind::Prime,
        '¬' => TokenKind::Not,
        '∧' => TokenKind::And,
        '∨' => TokenKind::Or,
        '→' => TokenKind::Implies,
        '↔' => TokenKind::Iff,
        '□' => TokenKind::Always,
        '◇' => TokenKind::Eventually,
        '◯' => TokenKind::Next,
        '𝒰' => TokenKind::Until,
        '∀' => TokenKind::Forall,
        '∃' => TokenKind::Exists,
        '∈' => TokenKind::In,
        '≠' => TokenKind::Ne,
        '≤' => TokenKind::Le,
        '≥' => TokenKind::Ge,
        _ => { return None; },
    };
    Some((k, 1))
}

pub open spec fn is_space(c: char) -> bool {
    c == ' ' || c == '\t' || c == '\n' || c == '\r'
}

/// The end of a line comment whose text starts at `i`: the next newline, or the end of input.
pub open spec fn line_end(s: Seq<char>, i: int) -> int
    decreases s.len() - i,
{
    if i >= s.len() || s[i] == '\n' { i } else { line_end(s, i + 1) }
}

/// The position after the `*/` that closes a block comment whose text starts at `i`.
pub open spec fn block_end(s: Seq<char>, i: int) -> Option<int>
    decreases s.len() - i,
{
    if i < 0 || i + 1 >= s.len() {
        None
    } else if s[i] == '*' && s[i + 1] == '/' {
        Some(i + 2)
    } else {
        block_end(s, i + 1)
    }
}

/// The characters from `i` to `j` are whitespace, `//` line comments and
/// closed `/* */` block comments.
pub open spec fn is_trivia(s: Seq<char>, i: int, j: int) -> bool
    decreases j - i,
{
    if i >= j {
        i == j
    } else if is_space(s[i]) {
        is_trivia(s, i + 1, j)
    } else if spells_at(s, i, seq!['/', '/']) {
        let e = line_end(s, i + 2);
        i < e <= j && is_trivia(s, e, j)
    } else if spells_at(s, i, seq!['/', '*']) {
        match block_end(s, i + 2) {
            Some(e) => i < e <= j && is_trivia(s, e, j),
            None => false,
        }
    } else {
        false
    }
}

proof fn lemma_line_end(s: Seq<char>, i: int)
    requires
        0 <= i <= s.len(),
    ensures
        i <= line_end(s, i) <= s.len(),
    decreases s.len() - i,
{
    if i < s.len() && s[i] != '\n' {
        lemma_line_end(s, i + 1);
    }
}

proof fn lemma_block_end(s: Seq<char>, i: int)
    requires
        0 <= i,
    ensures
        block_end(s, i) matches Some(e) ==> i + 2 <= e <= s.len(),
    decreases s.len() - i,
{
    if i + 1 < s.len() && !(s[i] == '*' && s[i + 1] == '/') {
        lemma_block_end(s, i + 1);
    }
}

/// Trivia followed by trivia is trivia.
proof fn lemma_trivia_join(s: Seq<char>, i: int, j: int, k: int)
    requires
        0 <= i <= j <= k <= s.len(),
        is_trivia(s, i, j),
        is_trivia(s, j, k),
    ensures
        is_trivia(s, i, k),
    decreases j - i,
{
    if i < j {
        if is_space(s[i]) {
            lemma_trivia_join(s, i + 1, j, k);
        } else if spells_at(s, i, seq!['/', '/']) {
            lemma_line_end(s, i + 2);
            lemma_trivia_join(s, line_end(s, i + 2), j, k);
        } else {
            lemma_block_end(s, i + 2);
            lemma_trivia_join(s, block_end(s, i + 2)->Some_0, j, k);
        }
    }
}

/// The position after the whitespace and comments at `pos`.
fn skip_trivia(chars: &Vec<char>, pos: usize) -> (r: usize)
    requires
        pos <= chars@.len(),
    ensures
        pos <= r <= chars@.len(),
        is_trivia(chars@, pos as int, r as int),
        r < chars@.len() ==> !is_space(chars@[r as int]) && !spells_at(chars@, r as int, seq!['/', '/'])
            && (spells_at(chars@, r as int, seq!['/', '*']) ==> block_end(chars@, r + 2) is None),
{
    let n = chars.len();
    let mut i = pos;
    while i < n
        invariant
            pos <= i <= n,
            n == chars@.len(),
            is_trivia(chars@, pos as int, i as int),
        decreases n - i,
    {
        let ghost i0 = i as int;
        let c = chars[i];
        if c == ' ' || c == '\t' || c == '\n' || c == '\r' {
            i = i + 1;
            proof {
                assert(is_trivia(chars@, i as int, i as int));
                lemma_trivia_join(chars@, pos as int, i0, i as int);
            }
        } else if at2(chars, i, '/', '/') {
            i = i + 2;
            while i < n && chars[i] != '\n'
                invariant
                    pos <= i0 < i <= n,
                    i == i0 + 2 || i0 + 2 < i,
                    n == chars@.len(),
                    line_end(chars@, i0 + 2) == line_end(chars@, i as int),
                decreases n - i,
            {
                i = i + 1;
            }
            proof {
                assert(line_end(chars@, i as int) == i);
                assert(is_trivia(chars@, i as int, i as int));
                lemma_trivia_join(chars@, pos as int, i0, i as int);
            }
        } else if at2(chars, i, '/', '*') {
            let start = i;
            i = i + 2;
            let mut closed = false;
            while i < n
                invariant_except_break
                    block_end(chars@, i0 + 2) == block_end(chars@, i as int),
                    !closed,
                invariant
                    pos <= start < i <= n,
                    start == i0,
                    i >= i0 + 2,
                    n == chars@.len(),
                ensures
                    closed ==> block_end(chars@, i0 + 2) == Some(i as int),
                    !closed ==> block_end(chars@, i0 + 2) is None,
                decreases n - i,
            {
                if at2(chars, i, '*', '/') {
                    proof {
                        assert(chars@[i as int] == chars@.subrange(i as int, i + 2)[0]);
                        assert(chars@[i + 1] == chars@.subrange(i as int, i + 2)[1]);
                        assert(block_end(chars@, i as int) == Some(i + 2));
                    }
                    i = i + 2;
                    closed = true;
                    break;
                }
                proof {
                    if i + 1 < n && chars@[i as int] == '*' && chars@[i + 1] == '/' {
                        assert(chars@.subrange(i as int, i + 2) =~= seq!['*', '/']);
                    }
                }
                i = i + 1;
            }
            if !closed {
                // an unterminated block comment is left for the lexer to reject
                return start;
            }
            proof { assert(is_trivia(chars@, i as int, i as int)); }
            proof { lemma_trivia_join(chars@, pos as int, i0, i as int); }
        } else {
            return i;
        }
    }
    i
}

/// The value of a run of decimal digits.
pub open spec fn decimal(s: Seq<char>) -> int
    decreases s.len(),
{
    if s.len() == 0 {
        0
    } else {
        decimal(s.drop_last()) * 10 + (s.last() as int - '0' as int)
    }
}

proof fn lemma_decimal_nonneg(s: Seq<char>)
    requires
        forall|k: int| 0 <= k < s.len() ==> is_digit_spec(#[trigger] s[k]),
    ensures
        decimal(s) >= 0,
    decreases s.len(),
{
    if s.len() > 0 {
        lemma_decimal_nonneg(s.drop_last());
    }
}

/// The characters from `start` to `end` form a whole run of decimal digits.
pub open spec fn digits_at(s: Seq<char>, start: int, end: int) -> bool {
    &&& 0 <= start < end <= s.len()
    &&& forall|k: int| start <= k < end ==> is_digit_spec(#[trigger] s[k])
    &&& end == s.len() || !is_digit_spec(s[end])
}

/// A decimal literal's value, `None` when it exceeds the largest 64-bit integer.
pub open spec fn literal_value(v: Option<i64>, digits: Seq<char>) -> bool {
    match v {
        Some(x) => x == decimal(digits),
        None => decimal(digits) > i64::MAX,
    }
}

/// Reads the decimal digits at `pos`: the value (if it fits) and where they end.
fn read_int(chars: &Vec<char>, pos: usize) -> (r: (Option<i64>, usize))
    requires
        pos < chars@.len(),
        '0' <= chars@[pos as int] <= '9',
    ensures
        pos < r.1 <= chars@.len(),
        digits_at(chars@, pos as int, r.1 as int),
        literal_value(r.0, chars@.subrange(pos as int, r.1 as int)),
{
    let n = chars.len();
    let mut i = pos;
    let mut value: Option<i64> = Some(0);
    proof { assert(chars@.subrange(pos as int, pos as int).len() == 0); }
    while i < n && is_digit(chars[i])
        invariant
            pos <= i <= n,
            n == chars@.len(),
            i == pos ==> is_digit_spec(chars@[pos as int]),
            forall|k: int| pos <= k < i ==> is_digit_spec(#[trigger] chars@[k]),
            literal_value(value, chars@.subrange(pos as int, i as int)),
        decreases n - i,
    {
        let d = (chars[i] as u32 - '0' as u32) as i64;
        let ghost cur = chars@.subrange(pos as int, i as int);
        let ghost next = chars@.subrange(pos as int, i + 1);
        proof {
            assert(next.drop_last() =~= cur);
            assert(next.last() == chars@[i as int]);
            assert(decimal(next) == decimal(cur) * 10 + d);
            lemma_decimal_nonneg(cur);
        }
        value = match value {
            Some(v) => match v.checked_mul(10) {
                Some(t) => t.checked_add(d),
                None => None,
            },
            None => None,
        };
        i = i + 1;
    }
    (value, i)
}

pub open spec fn is_digit_spec(c: char) -> bool {
    '0' <= c <= '9'
}

/// The characters from `start` to `end` form a whole word: identifier-shaped,
/// and not followed by another word character.
pub open spec fn word_at(s: Seq<char>, start: int, end: int) -> bool {
    &&& 0 <= start < end <= s.len()
    &&& is_ident_shape(s.subrange(start, end))
    &&& end == s.len() || !is_ident_char(s[end])
}

/// Reads the identifier-shaped word at `pos`.
fn read_word(chars: &Vec<char>, pos: usize) -> (r: (String, usize))
    requires
        pos < chars@.len(),
        is_ident_start(chars@[pos as int]),
    ensures
        pos < r.1 <= chars@.len(),
        is_ident_shape(r.0@),
        word_at(chars@, pos as int, r.1 as int),
        r.0@ == chars@.subrange(pos as int, r.1 as int),
{
    let n = chars.len();
    let mut w = String::new();
    let mut i = pos;
    while i < n && is_word_char(chars[i])
        invariant
            pos <= i <= n,
            n == chars@.len(),
            w@.len() == i - pos,
            w@ == chars@.subrange(pos as int, i as int),
            i > pos ==> is_ident_start(w@[0]),
            forall|k: int| 0 <= k < w@.len() ==> is_ident_char(#[trigger] w@[k]),
            is_ident_start(chars@[pos as int]),
        decreases n - i,
    {
        let ghost old = w@;
        w.push(chars[i]);
        proof { assert(w@ =~= chars@.subrange(pos as int, i + 1)); }
        i = i + 1;
    }
    (w, i)
}

/// The character an escape `\\c` stands for.
pub open spec fn escape_of(c: char) -> Option<char> {
    if c == '\\' {
        Some('\\')
    } else if c == '"' {
        Some('"')
    } else if c == 'n' {
        Some('\n')
    } else if c == 'r' {
        Some('\r')
    } else if c == 't' {
        Some('\t')
    } else {
        None
    }
}

/// The text a string literal's body stands for, with its escapes resolved;
/// `None` when the body holds a bare quote, a dangling `\\` or an unknown escape.
pub open spec fn unescape(t: Seq<char>) -> Option<Seq<char>>
    decreases t.len(),
{
    if t.len() == 0 {
        Some(Seq::empty())
    } else if t[0] == '"' {
        None
    } else if t[0] == '\\' {
        if t.len() < 2 {
            None
        } else {
            match (escape_of(t[1]), unescape(t.subrange(2, t.len() as int))) {
                (Some(c), Some(rest)) => Some(seq![c] + rest),
                _ => None,
            }
        }
    } else {
        match unescape(t.subrange(1, t.len() as int)) {
            Some(rest) => Some(seq![t[0]] + rest),
            None => None,
        }
    }
}

proof fn lemma_unescape_append(a: Seq<char>, b: Seq<char>)
    requires
        unescape(a) is Some,
    ensures
        unescape(a + b) == (match unescape(b) {
            Some(r) => Some(unescape(a)->Some_0 + r),
            None => None::<Seq<char>>,
        }),
    decreases a.len(),
{
    if a.len() == 0 {
        assert(a + b =~= b);
        if unescape(b) is Some {
            assert(unescape(a)->Some_0 + unescape(b)->Some_0 =~= unescape(b)->Some_0);
        }
    } else {
        let ab = a + b;
        assert(ab[0] == a[0]);
        if a[0] == '\\' {
            assert(ab[1] == a[1]);
            assert(ab.subrange(2, ab.len() as int) =~= a.subrange(2, a.len() as int) + b);
            lemma_unescape_append(a.subrange(2, a.len() as int), b);
            if unescape(b) is Some {
                let c = escape_of(a[1])->Some_0;
                let ra = unescape(a.subrange(2, a.len() as int))->Some_0;
                assert(seq![c] + (ra + unescape(b)->Some_0) =~= (seq![c] + ra) + unescape(b)->Some_0);
            }
        } else {
            assert(ab.subrange(1, ab.len() as int) =~= a.subrange(1, a.len() as int) + b);
            lemma_unescape_append(a.subrange(1, a.len() as int), b);
            if unescape(b) is Some {
                let ra = unescape(a.subrange(1, a.len() as int))->Some_0;
                assert(seq![a[0]] + (ra + unescape(b)->Some_0) =~= (seq![a[0]] + ra) + unescape(b)->Some_0);
            }
        }
    }
}

/// Reads the string literal whose opening quote is at `pos`, resolving escapes.
fn read_string(chars: &Vec<char>, pos: usize, path: &String) -> (r: Result<(String, usize)>)
    requires
        pos < chars@.len(),
        chars@.len() < usize::MAX / 4,
    ensures
        r matches Ok((s, e)) ==> pos + 2 <= e <= chars@.len() && chars@[e - 1] == '"'
            && unescape(chars@.subrange(pos + 1, e - 1)) == Some(s@),
        r is Err ==> is_parse_err(r),
{
    let n = chars.len();
    let mut out = String::new();
    let mut i = pos + 1;
    proof { assert(out@ =~= Seq::<char>::empty()); }
    while i < n
        invariant
            pos < i <= n,
            n == chars@.len() < usize::MAX / 4,
            unescape(chars@.subrange(pos + 1, i as int)) == Some(out@),
        decreases n - i,
    {
        let c = chars[i];
        if c == '"' {
            return Ok((out, i + 1));
        }
        let ghost done = chars@.subrange(pos + 1, i as int);
        let ghost before = out@;
        if c == '\\' {
            if i + 1 >= n {
                return Err(error_at(chars, i, path, &["unterminated string escape"]));
            }
            let e = chars[i + 1];
            if e == '\\' {
                out.push('\\');
            } else if e == '"' {
                out.push('"');
            } else if e == 'n' {
                out.push('\n');
            } else if e == 'r' {
                out.push('\r');
            } else if e == 't' {
                out.push('\t');
            } else {
                return Err(error_at(chars, i, path, &["unsupported string escape"]));
            }
            proof {
                let piece = chars@.subrange(i as int, i + 2);
                assert(piece[0] == c && piece[1] == e);
                assert(piece.subrange(2, 2) =~= Seq::<char>::empty());
                assert(unescape(piece.subrange(2, 2)) == Some(Seq::<char>::empty()));
                assert(escape_of(e) is Some);
                assert(unescape(piece) == Some(seq![escape_of(e)->Some_0] + Seq::<char>::empty()));
                lemma_unescape_append(done, piece);
                assert(done + piece =~= chars@.subrange(pos + 1, i + 2));
                assert(out@ =~= before + (seq![escape_of(e)->Some_0] + Seq::<char>::empty()));
            }
            i = i + 2;
        } else {
            out.push(c);
            proof {
                let piece = chars@.subrange(i as int, i + 1);
                assert(piece[0] == c);
                assert(piece.subrange(1, 1) =~= Seq::<char>::empty());
                assert(unescape(piece.subrange(1, 1)) == Some(Seq::<char>::empty()));
                assert(unescape(piece) == Some(seq![c] + Seq::<char>::empty()));
                lemma_unescape_append(done, piece);
                assert(done + piece =~= chars@.subrange(pos + 1, i + 1));
                assert(out@ =~= before + (seq![c] + Seq::<char>::empty()));
            }
            i = i + 1;
        }
    }
    Err(error_at(chars, pos, path, &["unterminated string literal"]))
}

/// What the characters of a token spell: a whole word (an identifier or a
/// keyword), a whole run of digits and its value, a quoted string and the text
/// it stands for, or the longest operator at its start.
pub open spec fn token_spells(s: Seq<char>, t: Token) -> bool {
    let text = s.subrange(t.start as int, t.end as int);
    match t.kind {
        TokenKind::Eof => t.start == s.len() && t.end == s.len(),
        TokenKind::Ident(w) => word_at(s, t.start as int, t.end as int) && w@ == text
            && keyword_kind(text) is None,
        TokenKind::Int(v) => digits_at(s, t.start as int, t.end as int) && literal_value(v, text),
        TokenKind::Str(x) => t.start + 2 <= t.end <= s.len() && s[t.start as int] == '"'
            && s[t.end - 1] == '"' && unescape(s.subrange(t.start + 1, t.end - 1)) == Some(x@),
        k => (word_at(s, t.start as int, t.end as int) && keyword_kind(text) == Some(k))
            || symbol_spec(s, t.start as int) == Some((k, t.end - t.start)),
    }
}

/// No whitespace or comment starts at `p`: trivia read as far as it goes
/// stops there.
pub open spec fn trivia_stops(s: Seq<char>, p: int) -> bool {
    p >= s.len() || (!is_space(s[p]) && !spells_at(s, p, seq!['/', '/'])
        && !(spells_at(s, p, seq!['/', '*']) && block_end(s, p + 2) is Some))
}

/// `toks` is how `s` reads: tokens in order, each spelled by its characters
/// and starting where whitespace and comments stop, with only whitespace and
/// comments before, between and after them.
pub open spec fn lexes(s: Seq<char>, toks: Seq<Token>) -> bool {
    &&& tokens_wf(toks, s.len() as int)
    &&& forall|i: int| 0 <= i < toks.len() ==> token_spells(s, #[trigger] toks[i])
    &&& forall|i: int| 0 <= i < toks.len() ==> trivia_stops(s, (#[trigger] toks[i]).start as int)
    &&& is_trivia(s, 0, toks[0].start as int)
    &&& forall|i: int| 0 <= i < toks.len() - 1 ==> is_trivia(s, (#[trigger] toks[i]).end as int, toks[i + 1].start as int)
}

/// Splits `chars` into tokens.
pub fn tokenize(chars: &Vec<char>, path: &String) -> (r: Result<Vec<Token>>)
    requires
        chars@.len() < usize::MAX / 4,
    ensures
        r matches Ok(toks) ==> lexes(chars@, toks@),
        r is Err ==> is_parse_err(r),
{
    let n = chars.len();
    let mut toks: Vec<Token> = Vec::new();
    let mut pos: usize = 0;
    proof { assert(is_trivia(chars@, 0, 0)); }
    loop
        invariant
            pos <= n,
            toks@.len() <= pos,
            n == chars@.len() < usize::MAX / 4,
            forall|i: int| 0 <= i < toks@.len() ==> (#[trigger] toks@[i]).start <= toks@[i].end <= pos,
            forall|i: int| 0 <= i < toks@.len() ==> !((#[trigger] toks@[i]).kind is Eof),
            forall|i: int, j: int| 0 <= i < j < toks@.len() ==> (#[trigger] toks@[i]).end <= (#[trigger] toks@[j]).start,
            forall|i: int| 0 <= i < toks@.len() ==> ((#[trigger] toks@[i]).kind matches TokenKind::Ident(s) ==> is_identifier(s@)),
            forall|i: int| 0 <= i < toks@.len() ==> token_spells(chars@, #[trigger] toks@[i]),
            forall|i: int| 0 <= i < toks@.len() ==> trivia_stops(chars@, (#[trigger] toks@[i]).start as int),
            toks@.len() == 0 ==> is_trivia(chars@, 0, pos as int),
            toks@.len() > 0 ==> is_trivia(chars@, 0, toks@[0].start as int) && toks@.last().end == pos,
            forall|i: int| 0 <= i < toks@.len() - 1 ==> is_trivia(chars@, (#[trigger] toks@[i]).end as int, toks@[i + 1].start as int),
        decreases n - pos,
    {
        let ghost before = pos as int;
        pos = skip_trivia(chars, pos);
        proof {
            if toks@.len() == 0 {
                lemma_trivia_join(chars@, 0, before, pos as int);
            }
        }
        if pos >= n {
            let eof = Token { kind: TokenKind::Eof, start: n, end: n };
            let ghost old = toks@;
            toks.push(eof);
            proof {
                assert(toks@.last() == eof);
                assert(toks@ == old.push(eof));
                assert forall|i: int, j: int| 0 <= i < j < toks@.len() implies (#[trigger] toks@[i]).end <= (#[trigger] toks@[j]).start by {
                    if j < toks@.len() - 1 {
                    } else {
                        assert(toks@[j] == eof);
                    }
                }
                assert forall|i: int| 0 <= i < toks@.len() implies token_spells(chars@, #[trigger] toks@[i]) by {
                    if i < old.len() { assert(toks@[i] == old[i]); }
                }
                assert forall|i: int| 0 <= i < toks@.len() implies trivia_stops(chars@, (#[trigger] toks@[i]).start as int) by {
                    if i < old.len() { assert(toks@[i] == old[i]); }
                }
                assert forall|i: int| 0 <= i < toks@.len() - 1 implies is_trivia(chars@, (#[trigger] toks@[i]).end as int, toks@[i + 1].start as int) by {
                    assert(toks@[i] == old[i]);
                    if i + 1 < old.len() { assert(toks@[i + 1] == old[i + 1]); }
                }
                if old.len() > 0 {
                    assert(toks@[0] == old[0]);
                }
            }
            return Ok(toks);
        }
        let c = chars[pos];
        let (kind, end): (TokenKind, usize) = if is_start(c) {
            let (w, e) = read_word(chars, pos);
            match classify_word(&w) {
                Some(k) => (k, e),
                None => (TokenKind::Ident(w), e),
            }
        } else if is_digit(c) {
            let (v, e) = read_int(chars, pos);
            (TokenKind::Int(v), e)
        } else if c == '"' {
            let (s, e) = read_string(chars, pos, path)?;
            (TokenKind::Str(s), e)
        } else if at2(chars, pos, '/', '*') {
            return Err(error_at(chars, pos, path, &["unterminated block comment"]));
        } else {
            match symbol_at(chars, pos) {
                Some((k, w)) => (k, pos + w),
                None => {
                    return Err(error_at(chars, pos, path, &["unexpected character"]));
                },
            }
        };
        assert(end > pos);
        let tok = Token { kind, start: pos, end };
        proof {
            assert(token_spells(chars@, tok));
            assert(trivia_stops(chars@, tok.start as int));
        }
        let ghost old_toks = toks@;
        toks.push(tok);
        proof {
            assert(toks@ == old_toks.push(tok));
            assert forall|i: int| 0 <= i < toks@.len() - 1 implies is_trivia(chars@, (#[trigger] toks@[i]).end as int, toks@[i + 1].start as int) by {
                assert(toks@[i] == old_toks[i]);
                if i + 1 < old_toks.len() { assert(toks@[i + 1] == old_toks[i + 1]); }
            }
            if old_toks.len() > 0 {
                assert(toks@[0] == old_toks[0]);
            }
        }
        pos = end;
    }
}

} // verus!
