//! Splits SQL text into tokens.
use vstd::prelude::*;

use crate::text::push_char;

verus! {

#[derive(Debug, Clone, Copy, PartialEq, Eq, Structural)]
pub enum TokenKind {
    Select,
    From,
    Where,
    Insert,
    Into,
    Values,
    Create,
    Table,
    Drop,
    Delete,
    Update,
    SetKw,
    And,
    Or,
    Not,
    Identifier,
    IntLiteral,
    StringLiteral,
    FloatLiteral,
    BoolLiteral,
    Eq,
    Neq,
    Lt,
    Gt,
    Lte,
    Gte,
    Comma,
    LParen,
    RParen,
    Star,
    Semicolon,
    Eof,
}

#[derive(Debug)]
pub struct Token {
    pub kind: TokenKind,
    pub lexeme: String,
}

/// A token as a kind and the characters of its lexeme.
pub struct TokenView {
    pub kind: TokenKind,
    pub lexeme: Seq<char>,
}

impl View for Token {
    type V = TokenView;

    open spec fn view(&self) -> TokenView {
        TokenView { kind: self.kind, lexeme: self.lexeme@ }
    }
}

/// The views of a sequence of tokens.
pub open spec fn token_views(ts: Seq<Token>) -> Seq<TokenView> {
    ts.map_values(|t: Token| t@)
}

/// `c` is white space in Unicode's sense (`char::is_whitespace`).
pub uninterp spec fn unicode_whitespace(c: char) -> bool;

/// `c` is alphabetic in Unicode's sense (`char::is_alphabetic`).
pub uninterp spec fn unicode_alphabetic(c: char) -> bool;

/// `c` is numeric in Unicode's sense (`char::is_numeric`).
pub uninterp spec fn unicode_numeric(c: char) -> bool;

/// An ASCII character: code point below 128.
pub open spec fn is_ascii_char(c: char) -> bool {
    (c as u32) < 128
}

/// White space: on ASCII, the space and tab to carriage return; elsewhere Unicode's
/// White_Space property.
pub open spec fn space_char(c: char) -> bool {
    if is_ascii_char(c) {
        c == ' ' || ('\t' <= c && c <= '\r')
    } else {
        unicode_whitespace(c)
    }
}

/// Alphabetic: on ASCII, the letters; elsewhere Unicode's Alphabetic property.
pub open spec fn alpha_char(c: char) -> bool {
    if is_ascii_char(c) {
        ('a' <= c && c <= 'z') || ('A' <= c && c <= 'Z')
    } else {
        unicode_alphabetic(c)
    }
}

/// Numeric: on ASCII, the digits; elsewhere Unicode's numeric general categories.
pub open spec fn numeric_char(c: char) -> bool {
    if is_ascii_char(c) {
        '0' <= c && c <= '9'
    } else {
        unicode_numeric(c)
    }
}

/// `char::is_whitespace`; its result is named `unicode_whitespace`. Its documentation lists
/// the ASCII white space: the space, and tab, line feed, vertical tab, form feed and
/// carriage return.
#[verifier::external_body]
pub(crate) fn is_space(c: char) -> (r: bool)
    ensures
        r == unicode_whitespace(c),
        r == space_char(c),
{
    c.is_whitespace()
}

/// `char::is_alphabetic`; its result is named `unicode_alphabetic`. Of ASCII characters
/// only the letters are alphabetic.
#[verifier::external_body]
fn is_alpha(c: char) -> (r: bool)
    ensures
        r == unicode_alphabetic(c),
        r == alpha_char(c),
{
    c.is_alphabetic()
}

/// `char::is_numeric`; its result is named `unicode_numeric`. Of ASCII characters only the
/// digits are numeric.
#[verifier::external_body]
fn is_num(c: char) -> (r: bool)
    ensures
        r == unicode_numeric(c),
        r == numeric_char(c),
{
    c.is_numeric()
}

/// `c` with an ASCII upper-case letter made lower-case.
pub open spec fn ascii_lower(c: char) -> char {
    if 'A' <= c <= 'Z' {
        ((c as u32) + 32) as char
    } else {
        c
    }
}

/// `c` with an ASCII upper-case letter made lower-case.
fn lower_ascii(c: char) -> (r: char)
    ensures
        r == ascii_lower(c),
{
    if 'A' <= c && c <= 'Z' {
        let b = (c as u8) + 32;
        b as char
    } else {
        c
    }
}

/// The characters of `s`, in order (`str::chars` collected).
#[verifier::external_body]
pub(crate) fn chars_of(s: &str) -> (r: Vec<char>)
    ensures
        r@ == s@,
{
    s.chars().collect()
}

/// A character that continues a word.
pub open spec fn word_char(c: char) -> bool {
    alpha_char(c) || numeric_char(c) || c == '_'
}

/// A character that continues a number.
pub open spec fn number_char(c: char) -> bool {
    numeric_char(c) || c == '.'
}

/// The end of the run of word characters that starts at `i`.
pub open spec fn word_end(cs: Seq<char>, i: int) -> int
    decreases cs.len() - i,
{
    if 0 <= i < cs.len() && word_char(cs[i]) {
        word_end(cs, i + 1)
    } else {
        i
    }
}

/// The end of the run of number characters that starts at `i`.
pub open spec fn number_end(cs: Seq<char>, i: int) -> int
    decreases cs.len() - i,
{
    if 0 <= i < cs.len() && number_char(cs[i]) {
        number_end(cs, i + 1)
    } else {
        i
    }
}

/// The first index from `i` on that holds `stop`, or the end of the text.
pub open spec fn stop_at(cs: Seq<char>, i: int, stop: char) -> int
    decreases cs.len() - i,
{
    if 0 <= i < cs.len() && cs[i] != stop {
        stop_at(cs, i + 1, stop)
    } else {
        i
    }
}

pub proof fn lemma_word_end(cs: Seq<char>, i: int)
    ensures
        word_end(cs, i) >= i,
        i <= cs.len() ==> word_end(cs, i) <= cs.len(),
    decreases cs.len() - i,
{
    if 0 <= i < cs.len() && word_char(cs[i]) {
        lemma_word_end(cs, i + 1);
    }
}

pub proof fn lemma_number_end(cs: Seq<char>, i: int)
    ensures
        number_end(cs, i) >= i,
        i <= cs.len() ==> number_end(cs, i) <= cs.len(),
    decreases cs.len() - i,
{
    if 0 <= i < cs.len() && number_char(cs[i]) {
        lemma_number_end(cs, i + 1);
    }
}

pub proof fn lemma_stop_at(cs: Seq<char>, i: int, stop: char)
    ensures
        stop_at(cs, i, stop) >= i,
        i <= cs.len() ==> stop_at(cs, i, stop) <= cs.len(),
    decreases cs.len() - i,
{
    if 0 <= i < cs.len() && cs[i] != stop {
        lemma_stop_at(cs, i + 1, stop);
    }
}

/// The kind of a lower-case word: a keyword, a truth value, or an identifier.
pub open spec fn keyword_kind(w: Seq<char>) -> TokenKind {
    if w == "select"@ {
        TokenKind::Select
    } else if w == "from"@ {
        TokenKind::From
    } else if w == "where"@ {
        TokenKind::Where
    } else if w == "insert"@ {
        TokenKind::Insert
    } else if w == "into"@ {
        TokenKind::Into
    } else if w == "values"@ {
        TokenKind::Values
    } else if w == "create"@ {
        TokenKind::Create
    } else if w == "table"@ {
        TokenKind::Table
    } else if w == "drop"@ {
        TokenKind::Drop
    } else if w == "delete"@ {
        TokenKind::Delete
    } else if w == "update"@ {
        TokenKind::Update
    } else if w == "set"@ {
        TokenKind::SetKw
    } else if w == "and"@ {
        TokenKind::And
    } else if w == "or"@ {
        TokenKind::Or
    } else if w == "not"@ {
        TokenKind::Not
    } else if w == "true"@ || w == "false"@ {
        TokenKind::BoolLiteral
    } else {
        TokenKind::Identifier
    }
}

/// A token view.
pub open spec fn tv(kind: TokenKind, lexeme: Seq<char>) -> TokenView {
    TokenView { kind, lexeme }
}

/// The character after `pos` is `c`.
pub open spec fn next_is(cs: Seq<char>, pos: int, c: char) -> bool {
    pos + 1 < cs.len() && cs[pos + 1] == c
}

/// The tokens of `cs` from `pos` on. White space, `--` comments and unknown characters
/// are skipped; quoted text runs to the matching quote or the end; a word is lower-cased
/// and classified; a run of digits and dots is a number, fractional when it holds a dot.
pub open spec fn lex(cs: Seq<char>, pos: int) -> Seq<TokenView>
    decreases cs.len() + 1 - pos,
{
    if pos < 0 || pos >= cs.len() {
        Seq::empty()
    } else {
        let ch = cs[pos];
        if space_char(ch) {
            lex(cs, pos + 1)
        } else if ch == '-' && next_is(cs, pos, '-') {
            proof {
                lemma_stop_at(cs, pos + 2, '\n');
            }
            lex(cs, stop_at(cs, pos + 2, '\n'))
        } else if ch == '=' {
            seq![tv(TokenKind::Eq, "="@)] + lex(cs, pos + 1)
        } else if ch == '!' && next_is(cs, pos, '=') {
            seq![tv(TokenKind::Neq, "!="@)] + lex(cs, pos + 2)
        } else if ch == '<' && next_is(cs, pos, '=') {
            seq![tv(TokenKind::Lte, "<="@)] + lex(cs, pos + 2)
        } else if ch == '>' && next_is(cs, pos, '=') {
            seq![tv(TokenKind::Gte, ">="@)] + lex(cs, pos + 2)
        } else if ch == '<' {
            seq![tv(TokenKind::Lt, "<"@)] + lex(cs, pos + 1)
        } else if ch == '>' {
            seq![tv(TokenKind::Gt, ">"@)] + lex(cs, pos + 1)
        } else if ch == ',' {
            seq![tv(TokenKind::Comma, ","@)] + lex(cs, pos + 1)
        } else if ch == '(' {
            seq![tv(TokenKind::LParen, "("@)] + lex(cs, pos + 1)
        } else if ch == ')' {
            seq![tv(TokenKind::RParen, ")"@)] + lex(cs, pos + 1)
        } else if ch == '*' {
            seq![tv(TokenKind::Star, "*"@)] + lex(cs, pos + 1)
        } else if ch == ';' {
            seq![tv(TokenKind::Semicolon, ";"@)] + lex(cs, pos + 1)
        } else if ch == '\'' || ch == '"' {
            proof {
                lemma_stop_at(cs, pos + 1, ch);
            }
            let e = stop_at(cs, pos + 1, ch);
            seq![tv(TokenKind::StringLiteral, cs.subrange(pos + 1, e))] + lex(cs, e + 1)
        } else if alpha_char(ch) || ch == '_' {
            proof {
                lemma_word_end(cs, pos + 1);
            }
            let e = word_end(cs, pos);
            let w = cs.subrange(pos, e).map_values(|c: char| ascii_lower(c));
            seq![tv(keyword_kind(w), w)] + lex(cs, e)
        } else if numeric_char(ch) {
            proof {
                lemma_number_end(cs, pos + 1);
            }
            let e = number_end(cs, pos);
            let t = cs.subrange(pos, e);
            seq![
                tv(
                    if t.contains('.') {
                        TokenKind::FloatLiteral
                    } else {
                        TokenKind::IntLiteral
                    },
                    t,
                ),
            ] + lex(cs, e)
        } else {
            lex(cs, pos + 1)
        }
    }
}

/// `w` reads exactly `lit`.
fn word_is(w: &Vec<char>, lit: &str) -> (r: bool)
    ensures
        r == (w@ == lit@),
{
    let l = chars_of(lit);
    if w.len() != l.len() {
        return false;
    }
    let mut i: usize = 0;
    while i < w.len()
        invariant
            i <= w@.len(),
            w@.len() == l@.len(),
            l@ == lit@,
            forall|j: int| 0 <= j < i ==> w@[j] == l@[j],
        decreases w@.len() - i,
    {
        if w[i] != l[i] {
            return false;
        }
        i = i + 1;
    }
    assert(w@ =~= l@);
    true
}

/// The kind of a lower-case word.
fn keyword_of(w: &Vec<char>) -> (r: TokenKind)
    ensures
        r == keyword_kind(w@),
{
    if word_is(w, "select") {
        TokenKind::Select
    } else if word_is(w, "from") {
        TokenKind::From
    } else if word_is(w, "where") {
        TokenKind::Where
    } else if word_is(w, "insert") {
        TokenKind::Insert
    } else if word_is(w, "into") {
        TokenKind::Into
    } else if word_is(w, "values") {
        TokenKind::Values
    } else if word_is(w, "create") {
        TokenKind::Create
    } else if word_is(w, "table") {
        TokenKind::Table
    } else if word_is(w, "drop") {
        TokenKind::Drop
    } else if word_is(w, "delete") {
        TokenKind::Delete
    } else if word_is(w, "update") {
        TokenKind::Update
    } else if word_is(w, "set") {
        TokenKind::SetKw
    } else if word_is(w, "and") {
        TokenKind::And
    } else if word_is(w, "or") {
        TokenKind::Or
    } else if word_is(w, "not") {
        TokenKind::Not
    } else if word_is(w, "true") || word_is(w, "false") {
        TokenKind::BoolLiteral
    } else {
        TokenKind::Identifier
    }
}

/// A token with a fixed lexeme.
fn fixed(kind: TokenKind, lexeme: &str) -> (r: Token)
    ensures
        r@ == tv(kind, lexeme@),
{
    Token { kind, lexeme: lexeme.to_owned() }
}

proof fn lemma_views_push(ts: Seq<Token>, t: Token)
    ensures
        token_views(ts.push(t)) == token_views(ts).push(t@),
{
    assert(token_views(ts.push(t)) =~= token_views(ts).push(t@));
}

proof fn lemma_contains_push(s: Seq<char>, a: char, x: char)
    ensures
        s.push(a).contains(x) <==> (s.contains(x) || a == x),
{
    if s.push(a).contains(x) {
        let j = choose|j: int| 0 <= j < s.push(a).len() && s.push(a)[j] == x;
        if j < s.len() {
            assert(s[j] == x);
        }
    }
    if s.contains(x) {
        let j = choose|j: int| 0 <= j < s.len() && s[j] == x;
        assert(s.push(a)[j] == x);
    }
    if a == x {
        assert(s.push(a)[s.len() as int] == x);
    }
}

/// The tokens of `input`, ended by an end-of-input token.
pub fn tokenize(input: &str) -> (r: Vec<Token>)
    ensures
        token_views(r@) == lex(input@, 0).push(tv(TokenKind::Eof, ""@)),
{
    let cs = chars_of(input);
    let n = cs.len();
    let mut tokens: Vec<Token> = Vec::new();
    let mut pos: usize = 0;
    assert(token_views(tokens@) =~= Seq::<TokenView>::empty());
    while pos < n
        invariant
            n == cs@.len(),
            cs@ == input@,
            pos <= n,
            token_views(tokens@) + lex(cs@, pos as int) == lex(cs@, 0),
        decreases n - pos,
    {
        let ghost before = token_views(tokens@);
        let ghost p0 = pos as int;
        let ch = cs[pos];
        let mut tok: Option<Token> = None;
        let next_eq = pos + 1 < n && cs[pos + 1] == '=';
        if is_space(ch) {
            pos = pos + 1;
            assert(lex(cs@, p0) == lex(cs@, pos as int));
        } else if ch == '-' && pos + 1 < n && cs[pos + 1] == '-' {
            pos = pos + 2;
            let ghost start = pos as int;
            while pos < n && cs[pos] != '\n'
                invariant
                    n == cs@.len(),
                    0 <= start <= pos <= n,
                    stop_at(cs@, pos as int, '\n') == stop_at(cs@, start, '\n'),
                decreases n - pos,
            {
                pos = pos + 1;
            }
            assert(lex(cs@, p0) == lex(cs@, pos as int));
        } else if ch == '=' {
            tok = Some(fixed(TokenKind::Eq, "="));
            pos = pos + 1;
            assert(lex(cs@, p0) =~= seq![tv(TokenKind::Eq, "="@)] + lex(cs@, pos as int));
        } else if ch == '!' && next_eq {
            tok = Some(fixed(TokenKind::Neq, "!="));
            pos = pos + 2;
            assert(lex(cs@, p0) =~= seq![tv(TokenKind::Neq, "!="@)] + lex(cs@, pos as int));
        } else if ch == '<' && next_eq {
            tok = Some(fixed(TokenKind::Lte, "<="));
            pos = pos + 2;
            assert(lex(cs@, p0) =~= seq![tv(TokenKind::Lte, "<="@)] + lex(cs@, pos as int));
        } else if ch == '>' && next_eq {
            tok = Some(fixed(TokenKind::Gte, ">="));
            pos = pos + 2;
            assert(lex(cs@, p0) =~= seq![tv(TokenKind::Gte, ">="@)] + lex(cs@, pos as int));
        } else if ch == '<' {
            tok = Some(fixed(TokenKind::Lt, "<"));
            pos = pos + 1;
            assert(lex(cs@, p0) =~= seq![tv(TokenKind::Lt, "<"@)] + lex(cs@, pos as int));
        } else if ch == '>' {
            tok = Some(fixed(TokenKind::Gt, ">"));
            pos = pos + 1;
            assert(lex(cs@, p0) =~= seq![tv(TokenKind::Gt, ">"@)] + lex(cs@, pos as int));
        } else if ch == ',' {
            tok = Some(fixed(TokenKind::Comma, ","));
            pos = pos + 1;
            assert(lex(cs@, p0) =~= seq![tv(TokenKind::Comma, ","@)] + lex(cs@, pos as int));
        } else if ch == '(' {
            tok = Some(fixed(TokenKind::LParen, "("));
            pos = pos + 1;
            assert(lex(cs@, p0) =~= seq![tv(TokenKind::LParen, "("@)] + lex(cs@, pos as int));
        } else if ch == ')' {
            tok = Some(fixed(TokenKind::RParen, ")"));
            pos = pos + 1;
            assert(lex(cs@, p0) =~= seq![tv(TokenKind::RParen, ")"@)] + lex(cs@, pos as int));
        } else if ch == '*' {
            tok = Some(fixed(TokenKind::Star, "*"));
            pos = pos + 1;
            assert(lex(cs@, p0) =~= seq![tv(TokenKind::Star, "*"@)] + lex(cs@, pos as int));
        } else if ch == ';' {
            tok = Some(fixed(TokenKind::Semicolon, ";"));
            pos = pos + 1;
            assert(lex(cs@, p0) =~= seq![tv(TokenKind::Semicolon, ";"@)] + lex(cs@, pos as int));
        } else if ch == '\'' || ch == '"' {
            let quote = ch;
            let mut text = String::new();
            pos = pos + 1;
            let ghost start = pos as int;
            while pos < n && cs[pos] != quote
                invariant
                    n == cs@.len(),
                    0 <= start <= pos <= n,
                    stop_at(cs@, pos as int, quote) == stop_at(cs@, start, quote),
                    text@ == cs@.subrange(start, pos as int),
                decreases n - pos,
            {
                push_char(&mut text, cs[pos]);
                pos = pos + 1;
                assert(text@ =~= cs@.subrange(start, pos as int));
            }
            let ghost e = pos as int;
            tok = Some(Token { kind: TokenKind::StringLiteral, lexeme: text });
            if pos < n {
                pos = pos + 1;
            }
            assert(lex(cs@, e + 1) == lex(cs@, pos as int));
            assert(lex(cs@, p0) =~= seq![tv(TokenKind::StringLiteral, cs@.subrange(p0 + 1, e))] + lex(cs@, pos as int));
        } else if is_alpha(ch) || ch == '_' {
            let mut text = String::new();
            let mut word: Vec<char> = Vec::new();
            let ghost start = pos as int;
            while pos < n && (is_alpha(cs[pos]) || is_num(cs[pos]) || cs[pos] == '_')
                invariant
                    n == cs@.len(),
                    0 <= start <= pos <= n,
                    word_end(cs@, pos as int) == word_end(cs@, start),
                    word@ == cs@.subrange(start, pos as int).map_values(|c: char| ascii_lower(c)),
                    text@ == word@,
                decreases n - pos,
            {
                let c = lower_ascii(cs[pos]);
                push_char(&mut text, c);
                word.push(c);
                pos = pos + 1;
                assert(word@ =~= cs@.subrange(start, pos as int).map_values(
                    |c: char| ascii_lower(c),
                ));
            }
            let kind = keyword_of(&word);
            assert(lex(cs@, p0) =~= seq![tv(kind, word@)] + lex(cs@, pos as int));
            tok = Some(Token { kind, lexeme: text });
        } else if is_num(ch) {
            let mut text = String::new();
            let mut is_float = false;
            let ghost start = pos as int;
            while pos < n && (is_num(cs[pos]) || cs[pos] == '.')
                invariant
                    n == cs@.len(),
                    0 <= start <= pos <= n,
                    number_end(cs@, pos as int) == number_end(cs@, start),
                    text@ == cs@.subrange(start, pos as int),
                    is_float == text@.contains('.'),
                decreases n - pos,
            {
                if cs[pos] == '.' {
                    is_float = true;
                }
                proof {
                    lemma_contains_push(text@, cs@[pos as int], '.');
                }
                push_char(&mut text, cs[pos]);
                pos = pos + 1;
                assert(text@ =~= cs@.subrange(start, pos as int));
            }
            let kind = if is_float {
                TokenKind::FloatLiteral
            } else {
                TokenKind::IntLiteral
            };
            assert(lex(cs@, p0) =~= seq![tv(kind, text@)] + lex(cs@, pos as int));
            tok = Some(Token { kind, lexeme: text });
        } else {
            pos = pos + 1;
            assert(lex(cs@, p0) == lex(cs@, pos as int));
        }
        match tok {
            Some(t) => {
                proof {
                    lemma_views_push(tokens@, t);
                }
                tokens.push(t);
            },
            None => {},
        }
        proof {
            assert(token_views(tokens@) + lex(cs@, pos as int) =~= before + lex(cs@, p0));
        }
    }
    let eof = fixed(TokenKind::Eof, "");
    proof {
        lemma_views_push(tokens@, eof);
        assert(token_views(tokens@) =~= lex(cs@, 0));
    }
    tokens.push(eof);
    tokens
}

/// The text of an operator or punctuation token of kind `k`; none for other kinds.
pub open spec fn operator_text(k: TokenKind) -> Option<Seq<char>> {
    match k {
        TokenKind::Eq => Some("="@),
        TokenKind::Neq => Some("!="@),
        TokenKind::Lt => Some("<"@),
        TokenKind::Gt => Some(">"@),
        TokenKind::Lte => Some("<="@),
        TokenKind::Gte => Some(">="@),
        TokenKind::Comma => Some(","@),
        TokenKind::LParen => Some("("@),
        TokenKind::RParen => Some(")"@),
        TokenKind::Star => Some("*"@),
        TokenKind::Semicolon => Some(";"@),
        _ => None,
    }
}

/// The token's kind agrees with its text: an operator or punctuation token carries exactly
/// the characters of that operator.
pub open spec fn kind_matches_text(t: TokenView) -> bool {
    match operator_text(t.kind) {
        Some(x) => t.lexeme == x,
        None => true,
    }
}

proof fn lemma_cons_tokens(t: TokenView, rest: Seq<TokenView>)
    requires
        kind_matches_text(t),
        forall|i: int| 0 <= i < rest.len() ==> kind_matches_text(#[trigger] rest[i]),
    ensures
        forall|i: int| 0 <= i < (seq![t] + rest).len() ==> kind_matches_text(#[trigger] (seq![t] + rest)[i]),
{
    assert forall|i: int| 0 <= i < (seq![t] + rest).len() implies kind_matches_text(#[trigger] (seq![t] + rest)[i]) by {
        if i > 0 {
            assert((seq![t] + rest)[i] == rest[i - 1]);
        }
    }
}

/// Every comparison operator and punctuation token the lexer makes names exactly its text:
/// `<=` is read as one `Lte` token, never as `Lt`, and likewise `>=` as `Gte`, `!=` as `Neq`,
/// `<` as `Lt`, `>` as `Gt` and `=` as `Eq`.
pub proof fn lemma_operator_tokens(cs: Seq<char>, pos: int)
    ensures
        forall|i: int| 0 <= i < lex(cs, pos).len() ==> kind_matches_text(#[trigger] lex(cs, pos)[i]),
    decreases cs.len() + 1 - pos,
{
    if pos < 0 || pos >= cs.len() {
    } else {
        let ch = cs[pos];
        if space_char(ch) {
            lemma_operator_tokens(cs, pos + 1);
            assert(lex(cs, pos) == lex(cs, pos + 1));
        } else if ch == '-' && next_is(cs, pos, '-') {
            lemma_stop_at(cs, pos + 2, '\n');
            lemma_operator_tokens(cs, stop_at(cs, pos + 2, '\n'));
            assert(lex(cs, pos) == lex(cs, stop_at(cs, pos + 2, '\n')));
        } else if ch == '=' || ch == '<' || ch == '>' || ch == ',' || ch == '(' || ch == ')' || ch == '*' || ch == ';' {
            lemma_operator_tokens(cs, pos + 1);
            if (ch == '<' || ch == '>') && next_is(cs, pos, '=') {
                lemma_operator_tokens(cs, pos + 2);
                assert(lex(cs, pos) =~= seq![lex(cs, pos)[0]] + lex(cs, pos + 2));
                lemma_cons_tokens(lex(cs, pos)[0], lex(cs, pos + 2));
            } else {
                assert(lex(cs, pos) =~= seq![lex(cs, pos)[0]] + lex(cs, pos + 1));
                lemma_cons_tokens(lex(cs, pos)[0], lex(cs, pos + 1));
            }
        } else if ch == '!' && next_is(cs, pos, '=') {
            lemma_operator_tokens(cs, pos + 2);
            assert(lex(cs, pos) =~= seq![lex(cs, pos)[0]] + lex(cs, pos + 2));
            lemma_cons_tokens(lex(cs, pos)[0], lex(cs, pos + 2));
        } else if ch == '\'' || ch == '"' {
            lemma_stop_at(cs, pos + 1, ch);
            let e = stop_at(cs, pos + 1, ch);
            lemma_operator_tokens(cs, e + 1);
            assert(lex(cs, pos) =~= seq![lex(cs, pos)[0]] + lex(cs, e + 1));
            lemma_cons_tokens(lex(cs, pos)[0], lex(cs, e + 1));
        } else if alpha_char(ch) || ch == '_' {
            lemma_word_end(cs, pos + 1);
            let e = word_end(cs, pos);
            lemma_operator_tokens(cs, e);
            let w = cs.subrange(pos, e).map_values(|c: char| ascii_lower(c));
            lemma_keyword_not_operator(w);
            assert(lex(cs, pos) =~= seq![lex(cs, pos)[0]] + lex(cs, e));
            lemma_cons_tokens(lex(cs, pos)[0], lex(cs, e));
        } else if numeric_char(ch) {
            lemma_number_end(cs, pos + 1);
            let e = number_end(cs, pos);
            lemma_operator_tokens(cs, e);
            assert(lex(cs, pos) =~= seq![lex(cs, pos)[0]] + lex(cs, e));
            lemma_cons_tokens(lex(cs, pos)[0], lex(cs, e));
        } else {
            lemma_operator_tokens(cs, pos + 1);
            assert(lex(cs, pos) == lex(cs, pos + 1));
        }
    }
}

proof fn lemma_keyword_not_operator(w: Seq<char>)
    ensures
        operator_text(keyword_kind(w)) is None,
{
}

/// Tokenizing any text gives operator and punctuation tokens that carry exactly their text.
pub proof fn lemma_tokenize_operator_kinds(input: Seq<char>, r: Seq<TokenView>)
    requires
        r == lex(input, 0).push(tv(TokenKind::Eof, ""@)),
    ensures
        forall|i: int| 0 <= i < r.len() ==> kind_matches_text(#[trigger] r[i]),
{
    lemma_operator_tokens(input, 0);
    assert forall|i: int| 0 <= i < r.len() implies kind_matches_text(#[trigger] r[i]) by {
        if i < lex(input, 0).len() {
            assert(r[i] == lex(input, 0)[i]);
        }
    }
}

proof fn lemma_word_end_shift(p: Seq<char>, s: Seq<char>, i: int)
    requires
        0 <= i,
    ensures
        word_end(p + s, p.len() + i) == p.len() + word_end(s, i),
    decreases s.len() - i,
{
    if i < s.len() {
        assert((p + s)[p.len() + i] == s[i]);
        if word_char(s[i]) {
            lemma_word_end_shift(p, s, i + 1);
        }
    }
}

proof fn lemma_number_end_shift(p: Seq<char>, s: Seq<char>, i: int)
    requires
        0 <= i,
    ensures
        number_end(p + s, p.len() + i) == p.len() + number_end(s, i),
    decreases s.len() - i,
{
    if i < s.len() {
        assert((p + s)[p.len() + i] == s[i]);
        if number_char(s[i]) {
            lemma_number_end_shift(p, s, i + 1);
        }
    }
}

proof fn lemma_stop_at_shift(p: Seq<char>, s: Seq<char>, i: int, stop: char)
    requires
        0 <= i,
    ensures
        stop_at(p + s, p.len() + i, stop) == p.len() + stop_at(s, i, stop),
    decreases s.len() - i,
{
    if i < s.len() {
        assert((p + s)[p.len() + i] == s[i]);
        if s[i] != stop {
            lemma_stop_at_shift(p, s, i + 1, stop);
        }
    }
}

/// Lexing never looks back: the tokens of `p + s` from a position inside `s` are the
/// tokens of `s` from that position.
proof fn lemma_lex_shift(p: Seq<char>, s: Seq<char>, k: int)
    requires
        0 <= k,
    ensures
        lex(p + s, p.len() + k) == lex(s, k),
    decreases s.len() + 1 - k,
{
    let cs = p + s;
    let n = p.len() as int;
    if k >= s.len() {
    } else {
        let ch = s[k];
        assert(cs[n + k] == ch);
        assert(next_is(cs, n + k, '=') == next_is(s, k, '='));
        assert(next_is(cs, n + k, '-') == next_is(s, k, '-'));
        if space_char(ch) {
            lemma_lex_shift(p, s, k + 1);
        } else if ch == '-' && next_is(s, k, '-') {
            lemma_stop_at(s, k + 2, '\n');
            lemma_stop_at_shift(p, s, k + 2, '\n');
            lemma_lex_shift(p, s, stop_at(s, k + 2, '\n'));
        } else if ch == '=' || ch == ',' || ch == '(' || ch == ')' || ch == '*' || ch == ';' {
            lemma_lex_shift(p, s, k + 1);
        } else if (ch == '!' || ch == '<' || ch == '>') && next_is(s, k, '=') {
            lemma_lex_shift(p, s, k + 2);
        } else if ch == '<' || ch == '>' {
            lemma_lex_shift(p, s, k + 1);
        } else if ch == '\'' || ch == '"' {
            lemma_stop_at(s, k + 1, ch);
            lemma_stop_at_shift(p, s, k + 1, ch);
            let e = stop_at(s, k + 1, ch);
            lemma_lex_shift(p, s, e + 1);
            assert(cs.subrange(n + k + 1, n + e) =~= s.subrange(k + 1, e));
        } else if alpha_char(ch) || ch == '_' {
            lemma_word_end(s, k + 1);
            lemma_word_end_shift(p, s, k + 1);
            let e = word_end(s, k);
            assert(word_end(cs, n + k) == n + e);
            lemma_lex_shift(p, s, e);
            assert(cs.subrange(n + k, n + e) =~= s.subrange(k, e));
        } else if numeric_char(ch) {
            lemma_number_end(s, k + 1);
            lemma_number_end_shift(p, s, k + 1);
            let e = number_end(s, k);
            assert(number_end(cs, n + k) == n + e);
            lemma_lex_shift(p, s, e);
            assert(cs.subrange(n + k, n + e) =~= s.subrange(k, e));
        } else {
            lemma_lex_shift(p, s, k + 1);
        }
    }
}

/// Tokenizing a two-character comparison followed by any text gives one token for the two
/// characters, then exactly the tokens of the rest: `<` and `=` make an `Lte` token, `>` and
/// `=` a `Gte` token, `!` and `=` an `Neq` token, each with those two characters as its text.
pub proof fn lemma_tokenize_two_char_operator(
    first: char,
    rest: Seq<char>,
    whole: Seq<TokenView>,
    tail: Seq<TokenView>,
)
    requires
        first == '<' || first == '>' || first == '!',
        whole == lex(seq![first, '='] + rest, 0).push(tv(TokenKind::Eof, ""@)),
        tail == lex(rest, 0).push(tv(TokenKind::Eof, ""@)),
    ensures
        whole == seq![
            TokenView {
                kind: if first == '<' {
                    TokenKind::Lte
                } else if first == '>' {
                    TokenKind::Gte
                } else {
                    TokenKind::Neq
                },
                lexeme: seq![first, '='],
            },
        ] + tail,
{
    let cs = seq![first, '='] + rest;
    lemma_lex_shift(seq![first, '='], rest, 0);
    assert(cs[0] == first && cs[1] == '=');
    assert(next_is(cs, 0, '='));
    reveal_strlit("<=");
    reveal_strlit(">=");
    reveal_strlit("!=");
    assert("<="@ =~= seq!['<', '=']);
    assert(">="@ =~= seq!['>', '=']);
    assert("!="@ =~= seq!['!', '=']);
    assert(lex(cs, 0) =~= seq![lex(cs, 0)[0]] + lex(cs, 2));
    assert(whole[0] == lex(cs, 0)[0]);
    assert(whole =~= seq![whole[0]] + tail);
}

/// Tokenizing a lone comparison character (a `<` or `>` not followed by `=`, or an `=`) gives
/// one token for it, then exactly the tokens of the rest: `<` makes an `Lt` token, `>` a `Gt`
/// token and `=` an `Eq` token, each with that one character as its text.
pub proof fn lemma_tokenize_one_char_operator(
    first: char,
    rest: Seq<char>,
    whole: Seq<TokenView>,
    tail: Seq<TokenView>,
)
    requires
        first == '<' || first == '>' || first == '=',
        first != '=' ==> rest.len() == 0 || rest[0] != '=',
        whole == lex(seq![first] + rest, 0).push(tv(TokenKind::Eof, ""@)),
        tail == lex(rest, 0).push(tv(TokenKind::Eof, ""@)),
    ensures
        whole == seq![
            TokenView {
                kind: if first == '<' {
                    TokenKind::Lt
                } else if first == '>' {
                    TokenKind::Gt
                } else {
                    TokenKind::Eq
                },
                lexeme: seq![first],
            },
        ] + tail,
{
    let cs = seq![first] + rest;
    lemma_lex_shift(seq![first], rest, 0);
    assert(cs[0] == first);
    assert(first != '=' ==> !next_is(cs, 0, '='));
    reveal_strlit("<");
    reveal_strlit(">");
    reveal_strlit("=");
    assert("<"@ =~= seq!['<']);
    assert(">"@ =~= seq!['>']);
    assert("="@ =~= seq!['=']);
    assert(lex(cs, 0) =~= seq![lex(cs, 0)[0]] + lex(cs, 1));
    assert(whole[0] == lex(cs, 0)[0]);
    assert(whole =~= seq![whole[0]] + tail);
}

} // verus!
