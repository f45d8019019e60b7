//! Recursive-descent parsing of one SQL statement from its tokens.
use vstd::prelude::*;

use crate::sql::ast::{
    create_view, delete_view, drop_view, exprs_view, insert_view, select_column_view, select_view,
    update_view,
    where_view, ColumnDef,
    CreateStmt, DeleteStmt, DropStmt, ExprV, Expression, InsertStmt, SelectColumn, SelectStmt,
    Statement, StatementV, UpdateStmt,
};
use crate::sql::catalog::ColumnType;
use crate::sql::lexer::{chars_of, lex, token_views, tokenize, tv, Token, TokenKind, TokenView};
use crate::text::{ascii_digit, digits_value, joined, text_is};

verus! {

// ---------------------------------------------------------------------------
// What the parser accepts, as functions on token values.
// ---------------------------------------------------------------------------
/// The name a token kind is printed with.
pub open spec fn kind_name(k: TokenKind) -> Seq<char> {
    match k {
        TokenKind::Select => "Select"@,
        TokenKind::From => "From"@,
        TokenKind::Where => "Where"@,
        TokenKind::Insert => "Insert"@,
        TokenKind::Into => "Into"@,
        TokenKind::Values => "Values"@,
        TokenKind::Create => "Create"@,
        TokenKind::Table => "Table"@,
        TokenKind::Drop => "Drop"@,
        TokenKind::Delete => "Delete"@,
        TokenKind::Update => "Update"@,
        TokenKind::SetKw => "Set"@,
        TokenKind::And => "And"@,
        TokenKind::Or => "Or"@,
        TokenKind::Not => "Not"@,
        TokenKind::Identifier => "Identifier"@,
        TokenKind::IntLiteral => "IntLiteral"@,
        TokenKind::StringLiteral => "StringLiteral"@,
        TokenKind::FloatLiteral => "FloatLiteral"@,
        TokenKind::BoolLiteral => "BoolLiteral"@,
        TokenKind::Eq => "Eq"@,
        TokenKind::Neq => "Neq"@,
        TokenKind::Lt => "Lt"@,
        TokenKind::Gt => "Gt"@,
        TokenKind::Lte => "Lte"@,
        TokenKind::Gte => "Gte"@,
        TokenKind::Comma => "Comma"@,
        TokenKind::LParen => "LParen"@,
        TokenKind::RParen => "RParen"@,
        TokenKind::Star => "Star"@,
        TokenKind::Semicolon => "Semicolon"@,
        TokenKind::Eof => "Eof"@,
    }
}

/// The kind of the token at `pos`; past either end, the end of input.
pub open spec fn kind_at(ts: Seq<TokenView>, pos: int) -> TokenKind {
    if 0 <= pos < ts.len() {
        ts[pos].kind
    } else {
        TokenKind::Eof
    }
}

pub open spec fn expected_message(want: TokenKind, got: TokenKind) -> Seq<char> {
    "Expected "@ + kind_name(want) + ", got "@ + kind_name(got)
}

pub open spec fn unexpected_message(got: TokenKind) -> Seq<char> {
    "Unexpected token: "@ + kind_name(got)
}

/// The position after a token of kind `k` at `pos`, or the complaint about what stands there.
pub open spec fn expect_at(ts: Seq<TokenView>, pos: int, k: TokenKind) -> Result<int, Seq<char>> {
    if kind_at(ts, pos) == k {
        Ok(pos + 1)
    } else {
        Err(expected_message(k, kind_at(ts, pos)))
    }
}

/// The `i64` that `s` denotes, read as an optional sign and one or more ASCII digits.
pub open spec fn int_text_value(s: Seq<char>) -> Option<i64> {
    let signed = s.len() > 0 && (s[0] == '+' || s[0] == '-');
    let body = if signed {
        s.drop_first()
    } else {
        s
    };
    let v: int = if s.len() > 0 && s[0] == '-' {
        -digits_value(body)
    } else {
        digits_value(body) as int
    };
    if body.len() > 0 && (forall|i: int| 0 <= i < body.len() ==> ascii_digit(#[trigger] body[i]))
        && i64::MIN <= v <= i64::MAX {
        Some(v as i64)
    } else {
        None
    }
}

/// The message with which parsing `s` as an `i64` is refused.
pub uninterp spec fn int_parse_error_text(s: Seq<char>) -> Seq<char>;

/// `str::parse::<i64>`, the error shown as text. The value is stated; the text of the
/// refusal is named `int_parse_error_text`.
#[verifier::external_body]
fn parse_i64(s: &str) -> (r: Result<i64, String>)
    ensures
        match r {
            Ok(v) => int_text_value(s@) == Some(v),
            Err(m) => int_text_value(s@) is None && m@ == int_parse_error_text(s@),
        },
{
    match s.parse::<i64>() {
        Ok(v) => Ok(v),
        Err(e) => Err(e.to_string()),
    }
}

/// The number of dots in `s`.
pub open spec fn dot_count(s: Seq<char>) -> nat
    decreases s.len(),
{
    if s.len() == 0 {
        0
    } else {
        dot_count(s.drop_last()) + if s.last() == '.' {
            1nat
        } else {
            0nat
        }
    }
}

/// A fractional number literal (a run of digits and dots) that reads as a float: one dot,
/// ASCII digits elsewhere, and at least one digit.
pub open spec fn float_text_ok(s: Seq<char>) -> bool {
    &&& s.len() >= 2
    &&& dot_count(s) == 1
    &&& forall|i: int| 0 <= i < s.len() ==> ascii_digit(#[trigger] s[i]) || s[i] == '.'
}

/// The comparison operators.
pub open spec fn is_comparison(k: TokenKind) -> bool {
    k == TokenKind::Eq || k == TokenKind::Neq || k == TokenKind::Lt || k == TokenKind::Gt || k
        == TokenKind::Lte || k == TokenKind::Gte
}

/// The comparison `op` of `l` and `r`.
pub open spec fn comparison_of(op: TokenKind, l: ExprV, r: ExprV) -> ExprV {
    if op == TokenKind::Eq {
        ExprV::Eq(Box::new(l), Box::new(r))
    } else if op == TokenKind::Neq {
        ExprV::Neq(Box::new(l), Box::new(r))
    } else if op == TokenKind::Lt {
        ExprV::Lt(Box::new(l), Box::new(r))
    } else if op == TokenKind::Gt {
        ExprV::Gt(Box::new(l), Box::new(r))
    } else if op == TokenKind::Lte {
        ExprV::Lte(Box::new(l), Box::new(r))
    } else {
        ExprV::Gte(Box::new(l), Box::new(r))
    }
}

/// A literal, a column, or a parenthesised expression at `pos`, with the position after it.
pub open spec fn primary_at(ts: Seq<TokenView>, pos: int) -> Result<(ExprV, int), Seq<char>>
    decreases ts.len() - pos, 0int,
{
    if pos < 0 || pos >= ts.len() {
        Err(unexpected_message(TokenKind::Eof))
    } else {
        let t = ts[pos];
        match t.kind {
            TokenKind::IntLiteral => match int_text_value(t.lexeme) {
                Some(v) => Ok((ExprV::IntLiteral(v), pos + 1)),
                None => Err("Invalid integer literal: "@ + int_parse_error_text(t.lexeme)),
            },
            TokenKind::StringLiteral => Ok((ExprV::StringLiteral(t.lexeme), pos + 1)),
            TokenKind::FloatLiteral => if float_text_ok(t.lexeme) {
                Ok((ExprV::FloatLiteral(t.lexeme), pos + 1))
            } else {
                Err("Invalid float literal: invalid float literal"@)
            },
            TokenKind::BoolLiteral => Ok((ExprV::BoolLiteral(t.lexeme == "true"@), pos + 1)),
            TokenKind::Identifier => Ok((ExprV::Column(t.lexeme), pos + 1)),
            TokenKind::LParen => match expression_at(ts, pos + 1) {
                Ok((e, q)) => if kind_at(ts, q) == TokenKind::RParen {
                    Ok((e, q + 1))
                } else {
                    Err(expected_message(TokenKind::RParen, kind_at(ts, q)))
                },
                Err(m) => Err(m),
            },
            _ => Err(unexpected_message(t.kind)),
        }
    }
}

/// A primary, optionally compared with a second one.
pub open spec fn comparison_at(ts: Seq<TokenView>, pos: int) -> Result<(ExprV, int), Seq<char>>
    decreases ts.len() - pos, 1int,
{
    match primary_at(ts, pos) {
        Err(m) => Err(m),
        Ok((left, q)) => {
            let op = kind_at(ts, q);
            if !is_comparison(op) {
                Ok((left, q))
            } else if q < pos {
                Err(unexpected_message(op))
            } else {
                match primary_at(ts, q + 1) {
                    Ok((right, r)) => Ok((comparison_of(op, left, right), r)),
                    Err(m) => Err(m),
                }
            }
        },
    }
}

/// Further `AND` operands after `left`, which ends at `pos`.
pub open spec fn conjuncts_after(ts: Seq<TokenView>, left: ExprV, pos: int) -> Result<(ExprV, int), Seq<char>>
    decreases ts.len() - pos, 1int,
{
    if kind_at(ts, pos) != TokenKind::And {
        Ok((left, pos))
    } else {
        match comparison_at(ts, pos + 1) {
            Err(m) => Err(m),
            Ok((right, r)) => if pos < r <= ts.len() {
                conjuncts_after(ts, ExprV::And(Box::new(left), Box::new(right)), r)
            } else {
                Err(unexpected_message(TokenKind::And))
            },
        }
    }
}

/// Comparisons joined by `AND`, grouped to the left.
pub open spec fn conjunction_at(ts: Seq<TokenView>, pos: int) -> Result<(ExprV, int), Seq<char>>
    decreases ts.len() - pos, 2int,
{
    match comparison_at(ts, pos) {
        Err(m) => Err(m),
        Ok((left, q)) => if pos <= q <= ts.len() {
            conjuncts_after(ts, left, q)
        } else {
            Err(unexpected_message(TokenKind::Eof))
        },
    }
}

/// An expression at `pos`, with the position after it.
pub open spec fn expression_at(ts: Seq<TokenView>, pos: int) -> Result<(ExprV, int), Seq<char>>
    decreases ts.len() - pos, 3int,
{
    conjunction_at(ts, pos)
}

/// Each part of an expression that parses takes at least one token, and `AND` operands
/// that follow take none or more.
pub proof fn lemma_expression_advances(ts: Seq<TokenView>, pos: int, left: ExprV)
    ensures
        primary_at(ts, pos) matches Ok((_, q)) ==> 0 <= pos < q <= ts.len(),
        comparison_at(ts, pos) matches Ok((_, q)) ==> 0 <= pos < q <= ts.len(),
        conjunction_at(ts, pos) matches Ok((_, q)) ==> 0 <= pos < q <= ts.len(),
        expression_at(ts, pos) matches Ok((_, q)) ==> 0 <= pos < q <= ts.len(),
        conjuncts_after(ts, left, pos) matches Ok((_, q)) ==> pos <= q && (pos <= ts.len() ==> q
            <= ts.len()),
    decreases ts.len() - pos,
{
    if 0 <= pos < ts.len() {
        if ts[pos].kind == TokenKind::LParen {
            lemma_expression_advances(ts, pos + 1, left);
        }
        if let Ok((l, q)) = primary_at(ts, pos) {
            if is_comparison(kind_at(ts, q)) {
                lemma_expression_advances(ts, q + 1, left);
            }
        }
        if let Ok((l, q)) = comparison_at(ts, pos) {
            lemma_expression_advances(ts, q, l);
        }
        if kind_at(ts, pos) == TokenKind::And {
            lemma_expression_advances(ts, pos + 1, left);
            if let Ok((right, r)) = comparison_at(ts, pos + 1) {
                lemma_expression_advances(ts, r, ExprV::And(Box::new(left), Box::new(right)));
            }
        }
    }
}

/// An optional `WHERE` condition at `pos`.
pub open spec fn where_at(ts: Seq<TokenView>, pos: int) -> Result<(Option<ExprV>, int), Seq<char>> {
    if kind_at(ts, pos) == TokenKind::Where {
        match expression_at(ts, pos + 1) {
            Ok((e, q)) => Ok((Some(e), q)),
            Err(m) => Err(m),
        }
    } else {
        Ok((None, pos))
    }
}

/// `rest` with `prefix` put in front of its list.
pub open spec fn with_prefix<T>(prefix: Seq<T>, rest: Result<(Seq<T>, int), Seq<char>>) -> Result<
    (Seq<T>, int),
    Seq<char>,
> {
    match rest {
        Ok((xs, q)) => Ok((prefix + xs, q)),
        Err(m) => Err(m),
    }
}

/// Comma-separated column names.
pub open spec fn names_at(ts: Seq<TokenView>, pos: int) -> Result<(Seq<Option<Seq<char>>>, int), Seq<char>>
    decreases ts.len() - pos,
{
    if kind_at(ts, pos) != TokenKind::Identifier {
        Err(expected_message(TokenKind::Identifier, kind_at(ts, pos)))
    } else if kind_at(ts, pos + 1) == TokenKind::Comma {
        with_prefix(seq![Some(ts[pos].lexeme)], names_at(ts, pos + 2))
    } else {
        Ok((seq![Some(ts[pos].lexeme)], pos + 1))
    }
}

/// Comma-separated expressions.
pub open spec fn values_at(ts: Seq<TokenView>, pos: int) -> Result<(Seq<ExprV>, int), Seq<char>>
    decreases ts.len() - pos,
{
    match expression_at(ts, pos) {
        Err(m) => Err(m),
        Ok((e, q)) => if kind_at(ts, q) == TokenKind::Comma {
            proof {
                lemma_expression_advances(ts, pos, e);
            }
            with_prefix(seq![e], values_at(ts, q + 1))
        } else {
            Ok((seq![e], q))
        },
    }
}

/// The column type a type name in a table definition stands for.
pub open spec fn type_named(s: Seq<char>) -> Option<ColumnType> {
    if s == "int"@ || s == "integer"@ {
        Some(ColumnType::Int)
    } else if s == "text"@ || s == "varchar"@ || s == "string"@ {
        Some(ColumnType::Text)
    } else if s == "float"@ || s == "real"@ || s == "double"@ {
        Some(ColumnType::Float)
    } else if s == "bool"@ || s == "boolean"@ {
        Some(ColumnType::Bool)
    } else {
        None
    }
}

/// Comma-separated column definitions, each a name and a type name.
pub open spec fn column_defs_at(ts: Seq<TokenView>, pos: int) -> Result<(Seq<(Seq<char>, ColumnType)>, int), Seq<char>>
    decreases ts.len() - pos,
{
    if kind_at(ts, pos) != TokenKind::Identifier {
        Err(expected_message(TokenKind::Identifier, kind_at(ts, pos)))
    } else if kind_at(ts, pos + 1) != TokenKind::Identifier {
        Err(expected_message(TokenKind::Identifier, kind_at(ts, pos + 1)))
    } else {
        match type_named(ts[pos + 1].lexeme) {
            None => Err("Unknown type: "@ + ts[pos + 1].lexeme),
            Some(t) => if kind_at(ts, pos + 2) == TokenKind::Comma {
                with_prefix(seq![(ts[pos].lexeme, t)], column_defs_at(ts, pos + 3))
            } else {
                Ok((seq![(ts[pos].lexeme, t)], pos + 2))
            },
        }
    }
}

/// Comma-separated assignments `column = expression`.
pub open spec fn assignments_at(ts: Seq<TokenView>, pos: int) -> Result<(Seq<(Seq<char>, ExprV)>, int), Seq<char>>
    decreases ts.len() - pos,
{
    if kind_at(ts, pos) != TokenKind::Identifier {
        Err(expected_message(TokenKind::Identifier, kind_at(ts, pos)))
    } else if kind_at(ts, pos + 1) != TokenKind::Eq {
        Err(expected_message(TokenKind::Eq, kind_at(ts, pos + 1)))
    } else {
        match expression_at(ts, pos + 2) {
            Err(m) => Err(m),
            Ok((v, q)) => if kind_at(ts, q) == TokenKind::Comma {
                proof {
                    lemma_expression_advances(ts, pos + 2, v);
                }
                with_prefix(seq![(ts[pos].lexeme, v)], assignments_at(ts, q + 1))
            } else {
                Ok((seq![(ts[pos].lexeme, v)], q))
            },
        }
    }
}

/// `SELECT * | names FROM table [WHERE condition]` at `pos`.
pub open spec fn select_at(ts: Seq<TokenView>, pos: int) -> Result<StatementV, Seq<char>> {
    match expect_at(ts, pos, TokenKind::Select) {
        Err(m) => Err(m),
        Ok(p1) => {
            let columns = if kind_at(ts, p1) == TokenKind::Star {
                Ok((seq![None], p1 + 1))
            } else {
                names_at(ts, p1)
            };
            match columns {
                Err(m) => Err(m),
                Ok((cols, p2)) => match expect_at(ts, p2, TokenKind::From) {
                    Err(m) => Err(m),
                    Ok(p3) => match expect_at(ts, p3, TokenKind::Identifier) {
                        Err(m) => Err(m),
                        Ok(p4) => match where_at(ts, p4) {
                            Err(m) => Err(m),
                            Ok((w, _)) => Ok(
                                StatementV::Select { columns: cols, table: ts[p3].lexeme, where_clause: w },
                            ),
                        },
                    },
                },
            }
        },
    }
}

/// `INSERT INTO table VALUES (values)` at `pos`.
pub open spec fn insert_at(ts: Seq<TokenView>, pos: int) -> Result<StatementV, Seq<char>> {
    match expect_at(ts, pos, TokenKind::Insert) {
        Err(m) => Err(m),
        Ok(p1) => match expect_at(ts, p1, TokenKind::Into) {
            Err(m) => Err(m),
            Ok(p2) => match expect_at(ts, p2, TokenKind::Identifier) {
                Err(m) => Err(m),
                Ok(p3) => match expect_at(ts, p3, TokenKind::Values) {
                    Err(m) => Err(m),
                    Ok(p4) => match expect_at(ts, p4, TokenKind::LParen) {
                        Err(m) => Err(m),
                        Ok(p5) => match values_at(ts, p5) {
                            Err(m) => Err(m),
                            Ok((vals, q)) => match expect_at(ts, q, TokenKind::RParen) {
                                Err(m) => Err(m),
                                Ok(_) => Ok(
                                    StatementV::Insert { table: ts[p2].lexeme, columns: None, values: vals },
                                ),
                            },
                        },
                    },
                },
            },
        },
    }
}

/// `CREATE TABLE table (definitions)` at `pos`.
pub open spec fn create_at(ts: Seq<TokenView>, pos: int) -> Result<StatementV, Seq<char>> {
    match expect_at(ts, pos, TokenKind::Create) {
        Err(m) => Err(m),
        Ok(p1) => match expect_at(ts, p1, TokenKind::Table) {
            Err(m) => Err(m),
            Ok(p2) => match expect_at(ts, p2, TokenKind::Identifier) {
                Err(m) => Err(m),
                Ok(p3) => match expect_at(ts, p3, TokenKind::LParen) {
                    Err(m) => Err(m),
                    Ok(p4) => match column_defs_at(ts, p4) {
                        Err(m) => Err(m),
                        Ok((cols, q)) => match expect_at(ts, q, TokenKind::RParen) {
                            Err(m) => Err(m),
                            Ok(_) => Ok(StatementV::Create { table: ts[p2].lexeme, columns: cols }),
                        },
                    },
                },
            },
        },
    }
}

/// `DROP TABLE table` at `pos`.
pub open spec fn drop_at(ts: Seq<TokenView>, pos: int) -> Result<StatementV, Seq<char>> {
    match expect_at(ts, pos, TokenKind::Drop) {
        Err(m) => Err(m),
        Ok(p1) => match expect_at(ts, p1, TokenKind::Table) {
            Err(m) => Err(m),
            Ok(p2) => match expect_at(ts, p2, TokenKind::Identifier) {
                Err(m) => Err(m),
                Ok(_) => Ok(StatementV::Drop { table: ts[p2].lexeme }),
            },
        },
    }
}

/// `DELETE FROM table [WHERE condition]` at `pos`.
pub open spec fn delete_at(ts: Seq<TokenView>, pos: int) -> Result<StatementV, Seq<char>> {
    match expect_at(ts, pos, TokenKind::Delete) {
        Err(m) => Err(m),
        Ok(p1) => match expect_at(ts, p1, TokenKind::From) {
            Err(m) => Err(m),
            Ok(p2) => match expect_at(ts, p2, TokenKind::Identifier) {
                Err(m) => Err(m),
                Ok(p3) => match where_at(ts, p3) {
                    Err(m) => Err(m),
                    Ok((w, _)) => Ok(StatementV::Delete { table: ts[p2].lexeme, where_clause: w }),
                },
            },
        },
    }
}

/// `UPDATE table SET assignments [WHERE condition]` at `pos`.
pub open spec fn update_at(ts: Seq<TokenView>, pos: int) -> Result<StatementV, Seq<char>> {
    match expect_at(ts, pos, TokenKind::Update) {
        Err(m) => Err(m),
        Ok(p1) => match expect_at(ts, p1, TokenKind::Identifier) {
            Err(m) => Err(m),
            Ok(p2) => match expect_at(ts, p2, TokenKind::SetKw) {
                Err(m) => Err(m),
                Ok(p3) => match assignments_at(ts, p3) {
                    Err(m) => Err(m),
                    Ok((assigns, q)) => match where_at(ts, q) {
                        Err(m) => Err(m),
                        Ok((w, _)) => Ok(
                            StatementV::Update { table: ts[p1].lexeme, assignments: assigns, where_clause: w },
                        ),
                    },
                },
            },
        },
    }
}

/// The statement that the tokens begin with; what follows it is not looked at.
pub open spec fn statement_of(ts: Seq<TokenView>) -> Result<StatementV, Seq<char>> {
    let k = kind_at(ts, 0);
    if k == TokenKind::Select {
        select_at(ts, 0)
    } else if k == TokenKind::Insert {
        insert_at(ts, 0)
    } else if k == TokenKind::Create {
        create_at(ts, 0)
    } else if k == TokenKind::Drop {
        drop_at(ts, 0)
    } else if k == TokenKind::Delete {
        delete_at(ts, 0)
    } else if k == TokenKind::Update {
        update_at(ts, 0)
    } else {
        Err(unexpected_message(k))
    }
}

/// The statement that SQL text `input` begins with, or why it does not parse.
pub open spec fn sql_statement(input: Seq<char>) -> Result<StatementV, Seq<char>> {
    statement_of(lex(input, 0).push(tv(TokenKind::Eof, ""@)))
}

/// The value of a parse outcome.
pub open spec fn outcome_view(r: Result<Statement, String>) -> Result<StatementV, Seq<char>> {
    match r {
        Ok(s) => Ok(s@),
        Err(m) => Err(m@),
    }
}

// ---------------------------------------------------------------------------
// The parser.
// ---------------------------------------------------------------------------
/// The name a token kind is printed with.
fn kind_text(k: TokenKind) -> (r: String)
    ensures
        r@ == kind_name(k),
{
    match k {
        TokenKind::Select => "Select".to_owned(),
        TokenKind::From => "From".to_owned(),
        TokenKind::Where => "Where".to_owned(),
        TokenKind::Insert => "Insert".to_owned(),
        TokenKind::Into => "Into".to_owned(),
        TokenKind::Values => "Values".to_owned(),
        TokenKind::Create => "Create".to_owned(),
        TokenKind::Table => "Table".to_owned(),
        TokenKind::Drop => "Drop".to_owned(),
        TokenKind::Delete => "Delete".to_owned(),
        TokenKind::Update => "Update".to_owned(),
        TokenKind::SetKw => "Set".to_owned(),
        TokenKind::And => "And".to_owned(),
        TokenKind::Or => "Or".to_owned(),
        TokenKind::Not => "Not".to_owned(),
        TokenKind::Identifier => "Identifier".to_owned(),
        TokenKind::IntLiteral => "IntLiteral".to_owned(),
        TokenKind::StringLiteral => "StringLiteral".to_owned(),
        TokenKind::FloatLiteral => "FloatLiteral".to_owned(),
        TokenKind::BoolLiteral => "BoolLiteral".to_owned(),
        TokenKind::Eq => "Eq".to_owned(),
        TokenKind::Neq => "Neq".to_owned(),
        TokenKind::Lt => "Lt".to_owned(),
        TokenKind::Gt => "Gt".to_owned(),
        TokenKind::Lte => "Lte".to_owned(),
        TokenKind::Gte => "Gte".to_owned(),
        TokenKind::Comma => "Comma".to_owned(),
        TokenKind::LParen => "LParen".to_owned(),
        TokenKind::RParen => "RParen".to_owned(),
        TokenKind::Star => "Star".to_owned(),
        TokenKind::Semicolon => "Semicolon".to_owned(),
        TokenKind::Eof => "Eof".to_owned(),
    }
}

fn expected_text(want: TokenKind, got: TokenKind) -> (r: String)
    ensures
        r@ == expected_message(want, got),
{
    let mut m = "Expected ".to_owned();
    let w = kind_text(want);
    m.append(w.as_str());
    m.append(", got ");
    let g = kind_text(got);
    m.append(g.as_str());
    m
}

fn unexpected_text(got: TokenKind) -> (r: String)
    ensures
        r@ == unexpected_message(got),
{
    let g = kind_text(got);
    joined("Unexpected token: ", g.as_str())
}

/// Whether a fractional number literal reads as a float.
fn float_text(s: &String) -> (r: bool)
    ensures
        r == float_text_ok(s@),
{
    let cs = chars_of(s.as_str());
    let mut dots: usize = 0;
    let mut digits_only = true;
    let mut i: usize = 0;
    while i < cs.len()
        invariant
            cs@ == s@,
            i <= cs@.len(),
            dots as nat == dot_count(cs@.subrange(0, i as int)),
            dots <= i,
            digits_only == forall|j: int| 0 <= j < i ==> ascii_digit(#[trigger] cs@[j]) || cs@[j] == '.',
        decreases cs@.len() - i,
    {
        let c = cs[i];
        assert(cs@.subrange(0, i as int + 1).drop_last() =~= cs@.subrange(0, i as int));
        if c == '.' {
            dots = dots + 1;
        } else if !(c >= '0' && c <= '9') {
            digits_only = false;
        }
        i = i + 1;
    }
    assert(cs@.subrange(0, cs@.len() as int) =~= cs@);
    digits_only && dots == 1 && cs.len() >= 2
}

/// The column type a type name stands for.
fn type_of_name(s: &String) -> (r: Option<ColumnType>)
    ensures
        r == type_named(s@),
{
    if text_is(s, "int") || text_is(s, "integer") {
        Some(ColumnType::Int)
    } else if text_is(s, "text") || text_is(s, "varchar") || text_is(s, "string") {
        Some(ColumnType::Text)
    } else if text_is(s, "float") || text_is(s, "real") || text_is(s, "double") {
        Some(ColumnType::Float)
    } else if text_is(s, "bool") || text_is(s, "boolean") {
        Some(ColumnType::Bool)
    } else {
        None
    }
}

/// The comparison `op` of `left` and `right`.
fn comparison(op: TokenKind, left: Expression, right: Expression) -> (r: Expression)
    requires
        is_comparison(op),
    ensures
        r@ == comparison_of(op, left@, right@),
{
    match op {
        TokenKind::Eq => Expression::Eq(Box::new(left), Box::new(right)),
        TokenKind::Neq => Expression::Neq(Box::new(left), Box::new(right)),
        TokenKind::Lt => Expression::Lt(Box::new(left), Box::new(right)),
        TokenKind::Gt => Expression::Gt(Box::new(left), Box::new(right)),
        TokenKind::Lte => Expression::Lte(Box::new(left), Box::new(right)),
        // the one comparison left: `>=`
        _ => Expression::Gte(Box::new(left), Box::new(right)),
    }
}

proof fn lemma_with_prefix_assoc<T>(a: Seq<T>, b: Seq<T>, r: Result<(Seq<T>, int), Seq<char>>)
    ensures
        with_prefix(a, with_prefix(b, r)) == with_prefix(a + b, r),
{
    if let Ok((xs, q)) = r {
        assert(a + (b + xs) =~= (a + b) + xs);
    }
}

/// An expression outcome `r`, leaving the parser at `pos`, agrees with `s`.
spec fn expr_outcome(r: Result<Expression, String>, s: Result<(ExprV, int), Seq<char>>, pos: int) -> bool {
    match s {
        Ok((e, q)) => r matches Ok(x) && x@ == e && pos == q,
        Err(m) => r matches Err(x) && x@ == m,
    }
}

/// The values of selected columns.
spec fn columns_view(cs: Seq<SelectColumn>) -> Seq<Option<Seq<char>>> {
    cs.map_values(|c: SelectColumn| select_column_view(c))
}

/// The values of column definitions.
spec fn defs_view(cs: Seq<ColumnDef>) -> Seq<(Seq<char>, ColumnType)> {
    cs.map_values(|c: ColumnDef| (c.name@, c.col_type))
}

/// The values of assignments.
spec fn assignments_view(cs: Seq<(String, Expression)>) -> Seq<(Seq<char>, ExprV)> {
    cs.map_values(|a: (String, Expression)| (a.0@, a.1@))
}

/// Tokens and the position of the next one to read.
struct Parser {
    tokens: Vec<Token>,
    pos: usize,
}

impl Parser {
    spec fn ts(&self) -> Seq<TokenView> {
        token_views(self.tokens@)
    }

    /// The tokens end with the end of input and the position is on a token.
    spec fn ready(&self) -> bool {
        &&& self.tokens@.len() > 0
        &&& self.tokens@.last().kind == TokenKind::Eof
        &&& self.pos < self.tokens@.len()
    }

    fn new(tokens: Vec<Token>) -> (r: Self)
        requires
            tokens@.len() > 0,
            tokens@.last().kind == TokenKind::Eof,
        ensures
            r.ready(),
            r.pos == 0,
            r.tokens@ == tokens@,
    {
        Parser { tokens, pos: 0 }
    }

    fn peek(&self) -> (r: &Token)
        requires
            self.ready(),
        ensures
            r@ == self.ts()[self.pos as int],
            r.kind == kind_at(self.ts(), self.pos as int),
    {
        &self.tokens[self.pos]
    }

    /// Steps past the current token, which is not the end of input; returns its index.
    fn advance(&mut self) -> (i: usize)
        requires
            old(self).ready(),
            kind_at(old(self).ts(), old(self).pos as int) != TokenKind::Eof,
        ensures
            final(self).ready(),
            final(self).tokens@ == old(self).tokens@,
            i == old(self).pos,
            final(self).pos == old(self).pos + 1,
    {
        let i = self.pos;
        let n = self.tokens.len();
        assert(self.tokens@[i as int].kind != TokenKind::Eof);
        self.pos = self.pos + 1;
        i
    }

    /// Steps past a token of kind `kind` and returns its lexeme, or says what stands there.
    fn expect_token(&mut self, kind: TokenKind) -> (r: Result<String, String>)
        requires
            old(self).ready(),
            kind != TokenKind::Eof,
        ensures
            final(self).ready(),
            final(self).tokens@ == old(self).tokens@,
            match expect_at(old(self).ts(), old(self).pos as int, kind) {
                Ok(p) => r matches Ok(l) && l@ == old(self).ts()[old(self).pos as int].lexeme
                    && final(self).pos == p,
                Err(m) => r matches Err(e) && e@ == m,
            },
    {
        if self.peek().kind == kind {
            let i = self.advance();
            Ok(self.tokens[i].lexeme.clone())
        } else {
            let got = self.peek().kind;
            Err(expected_text(kind, got))
        }
    }
}


impl Parser {
    fn parse_expression(&mut self) -> (r: Result<Expression, String>)
        requires
            old(self).ready(),
        ensures
            final(self).ready(),
            final(self).tokens@ == old(self).tokens@,
            expr_outcome(r, expression_at(old(self).ts(), old(self).pos as int), final(self).pos as int),
        decreases old(self).tokens@.len() - old(self).pos, 3int,
    {
        self.parse_and()
    }

    fn parse_and(&mut self) -> (r: Result<Expression, String>)
        requires
            old(self).ready(),
        ensures
            final(self).ready(),
            final(self).tokens@ == old(self).tokens@,
            expr_outcome(r, conjunction_at(old(self).ts(), old(self).pos as int), final(self).pos as int),
        decreases old(self).tokens@.len() - old(self).pos, 2int,
    {
        let ghost toks = self.tokens@;
        let ghost ts = self.ts();
        let ghost start = self.pos as int;
        let mut left = match self.parse_comparison() {
            Ok(e) => e,
            Err(m) => {
                return Err(m);
            },
        };
        proof {
            lemma_expression_advances(ts, start, left@);
        }
        while self.peek().kind == TokenKind::And
            invariant
                self.ready(),
                self.tokens@ == toks,
                toks == old(self).tokens@,
                start == old(self).pos,
                ts == token_views(toks),
                start < self.pos,
                conjunction_at(ts, start) == conjuncts_after(ts, left@, self.pos as int),
            decreases ts.len() - self.pos,
        {
            let ghost p = self.pos as int;
            self.advance();
            let right = match self.parse_comparison() {
                Ok(e) => e,
                Err(m) => {
                    return Err(m);
                },
            };
            proof {
                lemma_expression_advances(ts, p + 1, left@);
            }
            left = Expression::And(Box::new(left), Box::new(right));
        }
        Ok(left)
    }

    fn parse_comparison(&mut self) -> (r: Result<Expression, String>)
        requires
            old(self).ready(),
        ensures
            final(self).ready(),
            final(self).tokens@ == old(self).tokens@,
            expr_outcome(r, comparison_at(old(self).ts(), old(self).pos as int), final(self).pos as int),
        decreases old(self).tokens@.len() - old(self).pos, 1int,
    {
        let ghost ts = self.ts();
        let ghost start = self.pos as int;
        let left = match self.parse_primary() {
            Ok(e) => e,
            Err(m) => {
                return Err(m);
            },
        };
        proof {
            lemma_expression_advances(ts, start, left@);
        }
        let op = self.peek().kind;
        if op == TokenKind::Eq || op == TokenKind::Neq || op == TokenKind::Lt || op == TokenKind::Gt
            || op == TokenKind::Lte || op == TokenKind::Gte {
            self.advance();
            let right = match self.parse_primary() {
                Ok(e) => e,
                Err(m) => {
                    return Err(m);
                },
            };
            Ok(comparison(op, left, right))
        } else {
            Ok(left)
        }
    }

    fn parse_primary(&mut self) -> (r: Result<Expression, String>)
        requires
            old(self).ready(),
        ensures
            final(self).ready(),
            final(self).tokens@ == old(self).tokens@,
            expr_outcome(r, primary_at(old(self).ts(), old(self).pos as int), final(self).pos as int),
        decreases old(self).tokens@.len() - old(self).pos, 0int,
    {
        let kind = self.peek().kind;
        match kind {
            TokenKind::IntLiteral => {
                let i = self.advance();
                match parse_i64(self.tokens[i].lexeme.as_str()) {
                    Ok(v) => Ok(Expression::IntLiteral(v)),
                    Err(e) => Err(joined("Invalid integer literal: ", e.as_str())),
                }
            },
            TokenKind::StringLiteral => {
                let i = self.advance();
                Ok(Expression::StringLiteral(self.tokens[i].lexeme.clone()))
            },
            TokenKind::FloatLiteral => {
                let i = self.advance();
                if float_text(&self.tokens[i].lexeme) {
                    Ok(Expression::FloatLiteral(self.tokens[i].lexeme.clone()))
                } else {
                    Err("Invalid float literal: invalid float literal".to_owned())
                }
            },
            TokenKind::BoolLiteral => {
                let i = self.advance();
                Ok(Expression::BoolLiteral(text_is(&self.tokens[i].lexeme, "true")))
            },
            TokenKind::Identifier => {
                let i = self.advance();
                Ok(Expression::Column(self.tokens[i].lexeme.clone()))
            },
            TokenKind::LParen => {
                self.advance();
                let expr = match self.parse_expression() {
                    Ok(e) => e,
                    Err(m) => {
                        return Err(m);
                    },
                };
                match self.expect_token(TokenKind::RParen) {
                    Ok(_) => Ok(expr),
                    Err(m) => Err(m),
                }
            },
            _ => Err(unexpected_text(kind)),
        }
    }
}


impl Parser {
    /// Comma-separated column names.
    fn parse_names(&mut self) -> (r: Result<Vec<SelectColumn>, String>)
        requires
            old(self).ready(),
        ensures
            final(self).ready(),
            final(self).tokens@ == old(self).tokens@,
            match names_at(old(self).ts(), old(self).pos as int) {
                Ok((xs, q)) => r matches Ok(v) && columns_view(v@) == xs && final(self).pos == q,
                Err(m) => r matches Err(e) && e@ == m,
            },
    {
        let ghost toks = self.tokens@;
        let ghost ts = self.ts();
        let ghost start = self.pos as int;
        let mut items: Vec<SelectColumn> = Vec::new();
        assert(columns_view(items@) =~= Seq::<Option<Seq<char>>>::empty());
        assert(with_prefix(Seq::<Option<Seq<char>>>::empty(), names_at(ts, start)) == names_at(ts, start)) by {
            if let Ok((xs, q)) = names_at(ts, start) {
                assert(Seq::<Option<Seq<char>>>::empty() + xs =~= xs);
            }
        }
        loop
            invariant_except_break
                self.ready(),
                self.tokens@ == toks,
                toks == old(self).tokens@,
                ts == token_views(toks),
                start == old(self).pos,
                start <= self.pos,
                names_at(ts, start) == with_prefix(columns_view(items@), names_at(ts, self.pos as int)),
            ensures
                self.ready(),
                self.tokens@ == toks,
                names_at(ts, start) == Ok::<(Seq<Option<Seq<char>>>, int), Seq<char>>((columns_view(items@), self.pos as int)),
            decreases ts.len() - self.pos,
        {
            let ghost before = columns_view(items@);
            let name = match self.expect_token(TokenKind::Identifier) {
                Ok(x) => x,
                Err(m) => {
                    return Err(m);
                },
            };
            let ghost item = Some(name@);
            items.push(SelectColumn::Named(name));
            assert(columns_view(items@) =~= before + seq![item]);

            if self.peek().kind != TokenKind::Comma {
                break;
            }
            let ghost q = self.pos as int;
            self.advance();
            proof {
                lemma_with_prefix_assoc(before, seq![item], names_at(ts, q + 1));
            }
        }
        Ok(items)
    }

    /// Comma-separated expressions.
    fn parse_values(&mut self) -> (r: Result<Vec<Expression>, String>)
        requires
            old(self).ready(),
        ensures
            final(self).ready(),
            final(self).tokens@ == old(self).tokens@,
            match values_at(old(self).ts(), old(self).pos as int) {
                Ok((xs, q)) => r matches Ok(v) && exprs_view(v@) == xs && final(self).pos == q,
                Err(m) => r matches Err(e) && e@ == m,
            },
    {
        let ghost toks = self.tokens@;
        let ghost ts = self.ts();
        let ghost start = self.pos as int;
        let mut items: Vec<Expression> = Vec::new();
        assert(exprs_view(items@) =~= Seq::<ExprV>::empty());
        assert(with_prefix(Seq::<ExprV>::empty(), values_at(ts, start)) == values_at(ts, start)) by {
            if let Ok((xs, q)) = values_at(ts, start) {
                assert(Seq::<ExprV>::empty() + xs =~= xs);
            }
        }
        loop
            invariant_except_break
                self.ready(),
                self.tokens@ == toks,
                toks == old(self).tokens@,
                ts == token_views(toks),
                start == old(self).pos,
                start <= self.pos,
                values_at(ts, start) == with_prefix(exprs_view(items@), values_at(ts, self.pos as int)),
            ensures
                self.ready(),
                self.tokens@ == toks,
                values_at(ts, start) == Ok::<(Seq<ExprV>, int), Seq<char>>((exprs_view(items@), self.pos as int)),
            decreases ts.len() - self.pos,
        {
            let ghost p = self.pos as int;
            let ghost before = exprs_view(items@);
            let e = match self.parse_expression() {
                Ok(x) => x,
                Err(m) => {
                    return Err(m);
                },
            };
            proof {
                lemma_expression_advances(ts, p, e@);
            }
            let ghost item = e@;
            items.push(e);
            assert(exprs_view(items@) =~= before + seq![item]);

            if self.peek().kind != TokenKind::Comma {
                break;
            }
            let ghost q = self.pos as int;
            self.advance();
            proof {
                lemma_with_prefix_assoc(before, seq![item], values_at(ts, q + 1));
            }
        }
        Ok(items)
    }

    /// Comma-separated column definitions.
    fn parse_column_defs(&mut self) -> (r: Result<Vec<ColumnDef>, String>)
        requires
            old(self).ready(),
        ensures
            final(self).ready(),
            final(self).tokens@ == old(self).tokens@,
            match column_defs_at(old(self).ts(), old(self).pos as int) {
                Ok((xs, q)) => r matches Ok(v) && defs_view(v@) == xs && final(self).pos == q,
                Err(m) => r matches Err(e) && e@ == m,
            },
    {
        let ghost toks = self.tokens@;
        let ghost ts = self.ts();
        let ghost start = self.pos as int;
        let mut items: Vec<ColumnDef> = Vec::new();
        assert(defs_view(items@) =~= Seq::<(Seq<char>, ColumnType)>::empty());
        assert(with_prefix(Seq::<(Seq<char>, ColumnType)>::empty(), column_defs_at(ts, start)) == column_defs_at(ts, start)) by {
            if let Ok((xs, q)) = column_defs_at(ts, start) {
                assert(Seq::<(Seq<char>, ColumnType)>::empty() + xs =~= xs);
            }
        }
        loop
            invariant_except_break
                self.ready(),
                self.tokens@ == toks,
                toks == old(self).tokens@,
                ts == token_views(toks),
                start == old(self).pos,
                start <= self.pos,
                column_defs_at(ts, start) == with_prefix(defs_view(items@), column_defs_at(ts, self.pos as int)),
            ensures
                self.ready(),
                self.tokens@ == toks,
                column_defs_at(ts, start) == Ok::<(Seq<(Seq<char>, ColumnType)>, int), Seq<char>>((defs_view(items@), self.pos as int)),
            decreases ts.len() - self.pos,
        {
            let ghost before = defs_view(items@);
            let name = match self.expect_token(TokenKind::Identifier) {
                Ok(x) => x,
                Err(m) => {
                    return Err(m);
                },
            };
            let type_word = match self.expect_token(TokenKind::Identifier) {
                Ok(x) => x,
                Err(m) => {
                    return Err(m);
                },
            };
            let col_type = match type_of_name(&type_word) {
                Some(t) => t,
                None => {
                    return Err(joined("Unknown type: ", type_word.as_str()));
                },
            };
            let ghost item = (name@, col_type);
            items.push(ColumnDef { name, col_type });
            assert(defs_view(items@) =~= before + seq![item]);

            if self.peek().kind != TokenKind::Comma {
                break;
            }
            let ghost q = self.pos as int;
            self.advance();
            proof {
                lemma_with_prefix_assoc(before, seq![item], column_defs_at(ts, q + 1));
            }
        }
        Ok(items)
    }

    /// Comma-separated assignments.
    fn parse_assignments(&mut self) -> (r: Result<Vec<(String, Expression)>, String>)
        requires
            old(self).ready(),
        ensures
            final(self).ready(),
            final(self).tokens@ == old(self).tokens@,
            match assignments_at(old(self).ts(), old(self).pos as int) {
                Ok((xs, q)) => r matches Ok(v) && assignments_view(v@) == xs && final(self).pos == q,
                Err(m) => r matches Err(e) && e@ == m,
            },
    {
        let ghost toks = self.tokens@;
        let ghost ts = self.ts();
        let ghost start = self.pos as int;
        let mut items: Vec<(String, Expression)> = Vec::new();
        assert(assignments_view(items@) =~= Seq::<(Seq<char>, ExprV)>::empty());
        assert(with_prefix(Seq::<(Seq<char>, ExprV)>::empty(), assignments_at(ts, start)) == assignments_at(ts, start)) by {
            if let Ok((xs, q)) = assignments_at(ts, start) {
                assert(Seq::<(Seq<char>, ExprV)>::empty() + xs =~= xs);
            }
        }
        loop
            invariant_except_break
                self.ready(),
                self.tokens@ == toks,
                toks == old(self).tokens@,
                ts == token_views(toks),
                start == old(self).pos,
                start <= self.pos,
                assignments_at(ts, start) == with_prefix(assignments_view(items@), assignments_at(ts, self.pos as int)),
            ensures
                self.ready(),
                self.tokens@ == toks,
                assignments_at(ts, start) == Ok::<(Seq<(Seq<char>, ExprV)>, int), Seq<char>>((assignments_view(items@), self.pos as int)),
            decreases ts.len() - self.pos,
        {
            let ghost p = self.pos as int;
            let ghost before = assignments_view(items@);
            let col = match self.expect_token(TokenKind::Identifier) {
                Ok(x) => x,
                Err(m) => {
                    return Err(m);
                },
            };
            match self.expect_token(TokenKind::Eq) {
                Ok(_) => {},
                Err(m) => {
                    return Err(m);
                },
            }
            let val = match self.parse_expression() {
                Ok(x) => x,
                Err(m) => {
                    return Err(m);
                },
            };
            proof {
                lemma_expression_advances(ts, p + 2, val@);
            }
            let ghost item = (col@, val@);
            items.push((col, val));
            assert(assignments_view(items@) =~= before + seq![item]);

            if self.peek().kind != TokenKind::Comma {
                break;
            }
            let ghost q = self.pos as int;
            self.advance();
            proof {
                lemma_with_prefix_assoc(before, seq![item], assignments_at(ts, q + 1));
            }
        }
        Ok(items)
    }
}

impl Parser {
    /// An optional `WHERE` condition.
    fn parse_where(&mut self) -> (r: Result<Option<Expression>, String>)
        requires
            old(self).ready(),
        ensures
            final(self).ready(),
            final(self).tokens@ == old(self).tokens@,
            match where_at(old(self).ts(), old(self).pos as int) {
                Ok((w, q)) => r matches Ok(x) && where_view(x) == w && final(self).pos == q,
                Err(m) => r matches Err(e) && e@ == m,
            },
    {
        if self.peek().kind == TokenKind::Where {
            self.advance();
            match self.parse_expression() {
                Ok(e) => Ok(Some(e)),
                Err(m) => Err(m),
            }
        } else {
            Ok(None)
        }
    }

    fn parse_select(&mut self) -> (r: Result<SelectStmt, String>)
        requires
            old(self).ready(),
        ensures
            final(self).ready(),
            final(self).tokens@ == old(self).tokens@,
            match select_at(old(self).ts(), old(self).pos as int) {
                Ok(v) => r matches Ok(s) && select_view(s) == v,
                Err(m) => r matches Err(e) && e@ == m,
            },
    {
        match self.expect_token(TokenKind::Select) {
            Ok(_) => {},
            Err(m) => {
                return Err(m);
            },
        }
        let columns: Vec<SelectColumn> = if self.peek().kind == TokenKind::Star {
            self.advance();
            let cols = vec![SelectColumn::All];
            assert(columns_view(cols@) =~= seq![None]);
            cols
        } else {
            match self.parse_names() {
                Ok(cols) => cols,
                Err(m) => {
                    return Err(m);
                },
            }
        };
        match self.expect_token(TokenKind::From) {
            Ok(_) => {},
            Err(m) => {
                return Err(m);
            },
        }
        let table = match self.expect_token(TokenKind::Identifier) {
            Ok(t) => t,
            Err(m) => {
                return Err(m);
            },
        };
        let where_clause = match self.parse_where() {
            Ok(w) => w,
            Err(m) => {
                return Err(m);
            },
        };
        Ok(SelectStmt { columns, table, where_clause })
    }

    fn parse_insert(&mut self) -> (r: Result<InsertStmt, String>)
        requires
            old(self).ready(),
        ensures
            final(self).ready(),
            final(self).tokens@ == old(self).tokens@,
            match insert_at(old(self).ts(), old(self).pos as int) {
                Ok(v) => r matches Ok(s) && insert_view(s) == v,
                Err(m) => r matches Err(e) && e@ == m,
            },
    {
        match self.expect_token(TokenKind::Insert) {
            Ok(_) => {},
            Err(m) => {
                return Err(m);
            },
        }
        match self.expect_token(TokenKind::Into) {
            Ok(_) => {},
            Err(m) => {
                return Err(m);
            },
        }
        let table = match self.expect_token(TokenKind::Identifier) {
            Ok(t) => t,
            Err(m) => {
                return Err(m);
            },
        };
        match self.expect_token(TokenKind::Values) {
            Ok(_) => {},
            Err(m) => {
                return Err(m);
            },
        }
        match self.expect_token(TokenKind::LParen) {
            Ok(_) => {},
            Err(m) => {
                return Err(m);
            },
        }
        let values = match self.parse_values() {
            Ok(v) => v,
            Err(m) => {
                return Err(m);
            },
        };
        match self.expect_token(TokenKind::RParen) {
            Ok(_) => {},
            Err(m) => {
                return Err(m);
            },
        }
        Ok(InsertStmt { table, columns: None, values })
    }

    fn parse_create(&mut self) -> (r: Result<CreateStmt, String>)
        requires
            old(self).ready(),
        ensures
            final(self).ready(),
            final(self).tokens@ == old(self).tokens@,
            match create_at(old(self).ts(), old(self).pos as int) {
                Ok(v) => r matches Ok(s) && create_view(s) == v,
                Err(m) => r matches Err(e) && e@ == m,
            },
    {
        match self.expect_token(TokenKind::Create) {
            Ok(_) => {},
            Err(m) => {
                return Err(m);
            },
        }
        match self.expect_token(TokenKind::Table) {
            Ok(_) => {},
            Err(m) => {
                return Err(m);
            },
        }
        let table = match self.expect_token(TokenKind::Identifier) {
            Ok(t) => t,
            Err(m) => {
                return Err(m);
            },
        };
        match self.expect_token(TokenKind::LParen) {
            Ok(_) => {},
            Err(m) => {
                return Err(m);
            },
        }
        let columns = match self.parse_column_defs() {
            Ok(c) => c,
            Err(m) => {
                return Err(m);
            },
        };
        match self.expect_token(TokenKind::RParen) {
            Ok(_) => {},
            Err(m) => {
                return Err(m);
            },
        }
        Ok(CreateStmt { table, columns })
    }

    fn parse_drop(&mut self) -> (r: Result<DropStmt, String>)
        requires
            old(self).ready(),
        ensures
            final(self).ready(),
            final(self).tokens@ == old(self).tokens@,
            match drop_at(old(self).ts(), old(self).pos as int) {
                Ok(v) => r matches Ok(s) && drop_view(s) == v,
                Err(m) => r matches Err(e) && e@ == m,
            },
    {
        match self.expect_token(TokenKind::Drop) {
            Ok(_) => {},
            Err(m) => {
                return Err(m);
            },
        }
        match self.expect_token(TokenKind::Table) {
            Ok(_) => {},
            Err(m) => {
                return Err(m);
            },
        }
        match self.expect_token(TokenKind::Identifier) {
            Ok(table) => Ok(DropStmt { table }),
            Err(m) => Err(m),
        }
    }

    fn parse_delete(&mut self) -> (r: Result<DeleteStmt, String>)
        requires
            old(self).ready(),
        ensures
            final(self).ready(),
            final(self).tokens@ == old(self).tokens@,
            match delete_at(old(self).ts(), old(self).pos as int) {
                Ok(v) => r matches Ok(s) && delete_view(s) == v,
                Err(m) => r matches Err(e) && e@ == m,
            },
    {
        match self.expect_token(TokenKind::Delete) {
            Ok(_) => {},
            Err(m) => {
                return Err(m);
            },
        }
        match self.expect_token(TokenKind::From) {
            Ok(_) => {},
            Err(m) => {
                return Err(m);
            },
        }
        let table = match self.expect_token(TokenKind::Identifier) {
            Ok(t) => t,
            Err(m) => {
                return Err(m);
            },
        };
        let where_clause = match self.parse_where() {
            Ok(w) => w,
            Err(m) => {
                return Err(m);
            },
        };
        Ok(DeleteStmt { table, where_clause })
    }

    fn parse_update(&mut self) -> (r: Result<UpdateStmt, String>)
        requires
            old(self).ready(),
        ensures
            final(self).ready(),
            final(self).tokens@ == old(self).tokens@,
            match update_at(old(self).ts(), old(self).pos as int) {
                Ok(v) => r matches Ok(s) && update_view(s) == v,
                Err(m) => r matches Err(e) && e@ == m,
            },
    {
        match self.expect_token(TokenKind::Update) {
            Ok(_) => {},
            Err(m) => {
                return Err(m);
            },
        }
        let table = match self.expect_token(TokenKind::Identifier) {
            Ok(t) => t,
            Err(m) => {
                return Err(m);
            },
        };
        match self.expect_token(TokenKind::SetKw) {
            Ok(_) => {},
            Err(m) => {
                return Err(m);
            },
        }
        let assignments = match self.parse_assignments() {
            Ok(a) => a,
            Err(m) => {
                return Err(m);
            },
        };
        let where_clause = match self.parse_where() {
            Ok(w) => w,
            Err(m) => {
                return Err(m);
            },
        };
        Ok(UpdateStmt { table, assignments, where_clause })
    }

    /// The statement the tokens begin with.
    fn parse_statement(&mut self) -> (r: Result<Statement, String>)
        requires
            old(self).ready(),
            old(self).pos == 0,
        ensures
            outcome_view(r) == statement_of(old(self).ts()),
    {
        let kind = self.peek().kind;
        match kind {
            TokenKind::Select => match self.parse_select() {
                Ok(s) => Ok(Statement::Select(s)),
                Err(m) => Err(m),
            },
            TokenKind::Insert => match self.parse_insert() {
                Ok(s) => Ok(Statement::Insert(s)),
                Err(m) => Err(m),
            },
            TokenKind::Create => match self.parse_create() {
                Ok(s) => Ok(Statement::Create(s)),
                Err(m) => Err(m),
            },
            TokenKind::Drop => match self.parse_drop() {
                Ok(s) => Ok(Statement::Drop(s)),
                Err(m) => Err(m),
            },
            TokenKind::Delete => match self.parse_delete() {
                Ok(s) => Ok(Statement::Delete(s)),
                Err(m) => Err(m),
            },
            TokenKind::Update => match self.parse_update() {
                Ok(s) => Ok(Statement::Update(s)),
                Err(m) => Err(m),
            },
            _ => Err(unexpected_text(kind)),
        }
    }
}

/// Parses the statement that SQL text `input` begins with.
pub fn parse_sql(input: &str) -> (r: Result<Statement, String>)
    ensures
        outcome_view(r) == sql_statement(input@),
{
    let tokens = tokenize(input);
    let ghost views = token_views(tokens@);
    assert(views.last() == tokens@.last()@);
    let mut parser = Parser::new(tokens);
    parser.parse_statement()
}

} // verus!
