use super::ast::{
    assignments_view, columns_view, exprs_view, filter_view, items_view, statements_view, Assignment,
    BinaryOperator, ColumnDefinition, CreateTableStatement, DeleteStatement, Expression,
    InsertStatement, SelectItem, SelectStatement, SpecAssignment, SpecColumnDefinition, SpecExpr,
    SpecSelectItem, SpecStatement, Statement, UnaryOperator, UpdateStatement,
};
use super::lexer::{lex_all, lex_message, lex_token, upper_seq, word_end, LexError, Lexer, SpecLexError};
use super::binder::binary_symbol;
use super::token::{token_text, tokens_view, SpecToken, Token};
use crate::text::{decimal, push_decimal, push_str};
use crate::value::{DataType, SpecValue, Value};
use vstd::prelude::*;

verus! {

/// A grammatical problem in an otherwise successfully tokenized SQL query.
#[derive(Debug, Clone, PartialEq, Eq)]
pub enum ParseError {
    UnexpectedToken { expected: String, found: Token, position: usize },
    UnexpectedEnd { expected: String, position: usize },
}

/// An error from either stage of the SQL front end.
#[derive(Debug, Clone, PartialEq, Eq)]
pub enum SqlError {
    Lex(LexError),
    Parse(ParseError),
}

impl From<LexError> for SqlError {
    fn from(value: LexError) -> (r: Self) {
        SqlError::Lex(value)
    }
}

impl vstd::std_specs::convert::FromSpecImpl<LexError> for SqlError {
    open spec fn obeys_from_spec() -> bool {
        true
    }

    open spec fn from_spec(v: LexError) -> SqlError {
        SqlError::Lex(v)
    }
}

impl From<ParseError> for SqlError {
    fn from(value: ParseError) -> (r: Self) {
        SqlError::Parse(value)
    }
}

impl vstd::std_specs::convert::FromSpecImpl<ParseError> for SqlError {
    open spec fn obeys_from_spec() -> bool {
        true
    }

    open spec fn from_spec(v: ParseError) -> SqlError {
        SqlError::Parse(v)
    }
}

/// The content of a parse error.
pub enum SpecParseError {
    UnexpectedToken { expected: Seq<char>, found: SpecToken, position: usize },
    UnexpectedEnd { expected: Seq<char>, position: usize },
}

impl View for ParseError {
    type V = SpecParseError;

    open spec fn view(&self) -> SpecParseError {
        match self {
            ParseError::UnexpectedToken { expected, found, position } => SpecParseError::UnexpectedToken {
                expected: expected@,
                found: found@,
                position: *position,
            },
            ParseError::UnexpectedEnd { expected, position } => SpecParseError::UnexpectedEnd {
                expected: expected@,
                position: *position,
            },
        }
    }
}

pub enum SpecSqlError {
    Lex(SpecLexError),
    Parse(SpecParseError),
}

impl View for SqlError {
    type V = SpecSqlError;

    open spec fn view(&self) -> SpecSqlError {
        match self {
            SqlError::Lex(e) => SpecSqlError::Lex(e@),
            SqlError::Parse(e) => SpecSqlError::Parse(e@),
        }
    }
}

/// The text that describes a parse error to a person.
pub open spec fn parse_message(e: SpecParseError) -> Seq<char> {
    match e {
        SpecParseError::UnexpectedToken { expected, found, position } => "expected "@ + expected
            + " at token "@ + decimal(position as nat) + ", but found "@ + token_text(found),
        SpecParseError::UnexpectedEnd { expected, position } => "expected "@ + expected + " at token "@
            + decimal(position as nat) + ", but reached the end of input"@,
    }
}

/// The text that describes an error of the SQL front end to a person.
pub open spec fn sql_message(e: SpecSqlError) -> Seq<char> {
    match e {
        SpecSqlError::Lex(l) => "lexer error: "@ + lex_message(l),
        SpecSqlError::Parse(p) => "parser error: "@ + parse_message(p),
    }
}

impl ParseError {
    /// The text that describes this error to a person.
    pub fn message(&self) -> (r: String)
        ensures
            r@ == parse_message(self@),
    {
        let mut s = String::new();
        match self {
            ParseError::UnexpectedToken { expected, found, position } => {
                push_str(&mut s, "expected ");
                push_str(&mut s, expected.as_str());
                push_str(&mut s, " at token ");
                push_decimal(&mut s, *position as u64);
                push_str(&mut s, ", but found ");
                push_str(&mut s, found.describe().as_str());
            },
            ParseError::UnexpectedEnd { expected, position } => {
                push_str(&mut s, "expected ");
                push_str(&mut s, expected.as_str());
                push_str(&mut s, " at token ");
                push_decimal(&mut s, *position as u64);
                push_str(&mut s, ", but reached the end of input");
            },
        }
        s
    }
}

impl SqlError {
    /// The text that describes this error to a person.
    pub fn message(&self) -> (r: String)
        ensures
            r@ == sql_message(self@),
    {
        let mut s = String::new();
        match self {
            SqlError::Lex(e) => {
                push_str(&mut s, "lexer error: ");
                push_str(&mut s, e.message().as_str());
            },
            SqlError::Parse(e) => {
                push_str(&mut s, "parser error: ");
                push_str(&mut s, e.message().as_str());
            },
        }
        s
    }
}

/// A parse result in the model: the value read and the position after it.
pub type Parsed<T> = Result<(T, int), SpecParseError>;

/// The token at `pos`; past the end, the parser sees `EndOfInput`.
pub open spec fn cur(toks: Seq<SpecToken>, pos: int) -> SpecToken {
    if 0 <= pos < toks.len() {
        toks[pos]
    } else {
        SpecToken::EndOfInput
    }
}

/// The position after reading one token: `EndOfInput` is never passed.
pub open spec fn step(toks: Seq<SpecToken>, pos: int) -> int {
    if cur(toks, pos) is EndOfInput {
        pos
    } else {
        pos + 1
    }
}

/// Whether `p` lies after `pos` and within the tokens.
pub open spec fn advances(toks: Seq<SpecToken>, pos: int, p: int) -> bool {
    pos < p <= toks.len()
}

/// The error reported at `pos` when `expected` was wanted there.
pub open spec fn perr(toks: Seq<SpecToken>, pos: int, expected: Seq<char>) -> SpecParseError {
    if cur(toks, pos) is EndOfInput {
        SpecParseError::UnexpectedEnd { expected, position: pos as usize }
    } else {
        SpecParseError::UnexpectedToken { expected, found: cur(toks, pos), position: pos as usize }
    }
}

/// Reads the token `t`, or reports `expected`.
pub open spec fn expect_tok(toks: Seq<SpecToken>, pos: int, t: SpecToken, expected: Seq<char>) -> Result<
    int,
    SpecParseError,
> {
    if cur(toks, pos) == t {
        Ok(step(toks, pos))
    } else {
        Err(perr(toks, pos, expected))
    }
}

/// Reads an identifier, or reports `expected`.
pub open spec fn expect_ident(toks: Seq<SpecToken>, pos: int, expected: Seq<char>) -> Parsed<Seq<char>> {
    match cur(toks, pos) {
        SpecToken::Identifier(name) => Ok((name, pos + 1)),
        _ => Err(perr(toks, pos, expected)),
    }
}

pub open spec fn binary(left: SpecExpr, operator: BinaryOperator, right: SpecExpr) -> SpecExpr {
    SpecExpr::Binary { left: Box::new(left), operator, right: Box::new(right) }
}

/// `OR` binds loosest: an expression is a chain of `AND` terms joined by `OR`.
pub open spec fn p_or(toks: Seq<SpecToken>, pos: int) -> Parsed<SpecExpr>
    decreases toks.len() - pos, 8int,
{
    match p_and(toks, pos) {
        Err(e) => Err(e),
        Ok((left, p)) => if advances(toks, pos, p) {
            or_tail(toks, left, p)
        } else {
            Ok((left, p))
        },
    }
}

pub open spec fn or_tail(toks: Seq<SpecToken>, left: SpecExpr, pos: int) -> Parsed<SpecExpr>
    decreases toks.len() - pos, 8int,
{
    if cur(toks, pos) is Or {
        match p_and(toks, pos + 1) {
            Err(e) => Err(e),
            Ok((right, p)) => {
                let e = binary(left, BinaryOperator::Or, right);
                if advances(toks, pos + 1, p) {
                    or_tail(toks, e, p)
                } else {
                    Ok((e, p))
                }
            },
        }
    } else {
        Ok((left, pos))
    }
}

pub open spec fn p_and(toks: Seq<SpecToken>, pos: int) -> Parsed<SpecExpr>
    decreases toks.len() - pos, 7int,
{
    match p_cmp(toks, pos) {
        Err(e) => Err(e),
        Ok((left, p)) => if advances(toks, pos, p) {
            and_tail(toks, left, p)
        } else {
            Ok((left, p))
        },
    }
}

pub open spec fn and_tail(toks: Seq<SpecToken>, left: SpecExpr, pos: int) -> Parsed<SpecExpr>
    decreases toks.len() - pos, 7int,
{
    if cur(toks, pos) is And {
        match p_cmp(toks, pos + 1) {
            Err(e) => Err(e),
            Ok((right, p)) => {
                let e = binary(left, BinaryOperator::And, right);
                if advances(toks, pos + 1, p) {
                    and_tail(toks, e, p)
                } else {
                    Ok((e, p))
                }
            },
        }
    } else {
        Ok((left, pos))
    }
}

/// The comparison operator that a token names.
pub open spec fn cmp_operator(t: SpecToken) -> Option<BinaryOperator> {
    match t {
        SpecToken::Equal => Some(BinaryOperator::Equal),
        SpecToken::NotEqual => Some(BinaryOperator::NotEqual),
        SpecToken::LessThan => Some(BinaryOperator::LessThan),
        SpecToken::LessThanOrEqual => Some(BinaryOperator::LessThanOrEqual),
        SpecToken::GreaterThan => Some(BinaryOperator::GreaterThan),
        SpecToken::GreaterThanOrEqual => Some(BinaryOperator::GreaterThanOrEqual),
        _ => None,
    }
}

pub open spec fn p_cmp(toks: Seq<SpecToken>, pos: int) -> Parsed<SpecExpr>
    decreases toks.len() - pos, 6int,
{
    match p_add(toks, pos) {
        Err(e) => Err(e),
        Ok((left, p)) => if advances(toks, pos, p) {
            cmp_tail(toks, left, p)
        } else {
            Ok((left, p))
        },
    }
}

pub open spec fn cmp_tail(toks: Seq<SpecToken>, left: SpecExpr, pos: int) -> Parsed<SpecExpr>
    decreases toks.len() - pos, 6int,
{
    match cmp_operator(cur(toks, pos)) {
        Some(op) => match p_add(toks, pos + 1) {
            Err(e) => Err(e),
            Ok((right, p)) => {
                let e = binary(left, op, right);
                if advances(toks, pos + 1, p) {
                    cmp_tail(toks, e, p)
                } else {
                    Ok((e, p))
                }
            },
        },
        None => Ok((left, pos)),
    }
}

/// The additive operator that a token names.
pub open spec fn add_operator(t: SpecToken) -> Option<BinaryOperator> {
    match t {
        SpecToken::Plus => Some(BinaryOperator::Add),
        SpecToken::Minus => Some(BinaryOperator::Subtract),
        _ => None,
    }
}

pub open spec fn p_add(toks: Seq<SpecToken>, pos: int) -> Parsed<SpecExpr>
    decreases toks.len() - pos, 5int,
{
    match p_mul(toks, pos) {
        Err(e) => Err(e),
        Ok((left, p)) => if advances(toks, pos, p) {
            add_tail(toks, left, p)
        } else {
            Ok((left, p))
        },
    }
}

pub open spec fn add_tail(toks: Seq<SpecToken>, left: SpecExpr, pos: int) -> Parsed<SpecExpr>
    decreases toks.len() - pos, 5int,
{
    match add_operator(cur(toks, pos)) {
        Some(op) => match p_mul(toks, pos + 1) {
            Err(e) => Err(e),
            Ok((right, p)) => {
                let e = binary(left, op, right);
                if advances(toks, pos + 1, p) {
                    add_tail(toks, e, p)
                } else {
                    Ok((e, p))
                }
            },
        },
        None => Ok((left, pos)),
    }
}

/// The multiplicative operator that a token names.
pub open spec fn mul_operator(t: SpecToken) -> Option<BinaryOperator> {
    match t {
        SpecToken::Asterisk => Some(BinaryOperator::Multiply),
        SpecToken::Slash => Some(BinaryOperator::Divide),
        _ => None,
    }
}

pub open spec fn p_mul(toks: Seq<SpecToken>, pos: int) -> Parsed<SpecExpr>
    decreases toks.len() - pos, 4int,
{
    match p_unary(toks, pos) {
        Err(e) => Err(e),
        Ok((left, p)) => if advances(toks, pos, p) {
            mul_tail(toks, left, p)
        } else {
            Ok((left, p))
        },
    }
}

pub open spec fn mul_tail(toks: Seq<SpecToken>, left: SpecExpr, pos: int) -> Parsed<SpecExpr>
    decreases toks.len() - pos, 4int,
{
    match mul_operator(cur(toks, pos)) {
        Some(op) => match p_unary(toks, pos + 1) {
            Err(e) => Err(e),
            Ok((right, p)) => {
                let e = binary(left, op, right);
                if advances(toks, pos + 1, p) {
                    mul_tail(toks, e, p)
                } else {
                    Ok((e, p))
                }
            },
        },
        None => Ok((left, pos)),
    }
}

/// `NOT` and `-` apply to the operand after them; a leading `+` is dropped.
pub open spec fn p_unary(toks: Seq<SpecToken>, pos: int) -> Parsed<SpecExpr>
    decreases toks.len() - pos, 3int,
{
    if cur(toks, pos) is Not {
        match p_unary(toks, pos + 1) {
            Err(e) => Err(e),
            Ok((e, p)) => Ok(
                (SpecExpr::Unary { operator: UnaryOperator::Not, expression: Box::new(e) }, p),
            ),
        }
    } else if cur(toks, pos) is Minus {
        match p_unary(toks, pos + 1) {
            Err(e) => Err(e),
            Ok((e, p)) => Ok(
                (SpecExpr::Unary { operator: UnaryOperator::Negate, expression: Box::new(e) }, p),
            ),
        }
    } else if cur(toks, pos) is Plus {
        p_unary(toks, pos + 1)
    } else {
        p_primary(toks, pos)
    }
}

/// A literal, a column name, or an expression in parentheses.
pub open spec fn p_primary(toks: Seq<SpecToken>, pos: int) -> Parsed<SpecExpr>
    decreases toks.len() - pos, 2int,
{
    match cur(toks, pos) {
        SpecToken::Integer(v) => Ok((SpecExpr::Literal(SpecValue::Integer(v)), pos + 1)),
        SpecToken::StringLiteral(s) => Ok((SpecExpr::Literal(SpecValue::Text(s)), pos + 1)),
        SpecToken::True => Ok((SpecExpr::Literal(SpecValue::Boolean(true)), pos + 1)),
        SpecToken::False => Ok((SpecExpr::Literal(SpecValue::Boolean(false)), pos + 1)),
        SpecToken::Null => Ok((SpecExpr::Literal(SpecValue::Null), pos + 1)),
        SpecToken::Identifier(name) => Ok((SpecExpr::Column(name), pos + 1)),
        SpecToken::LeftParen => match p_or(toks, pos + 1) {
            Err(e) => Err(e),
            Ok((inner, p)) => match expect_tok(toks, p, SpecToken::RightParen, "')'"@) {
                Err(e) => Err(e),
                Ok(q) => Ok((inner, q)),
            },
        },
        _ => Err(perr(toks, pos, "a literal, column name, or parenthesized expression"@)),
    }
}

/// A column type keyword.
pub open spec fn p_data_type(toks: Seq<SpecToken>, pos: int) -> Parsed<DataType> {
    match cur(toks, pos) {
        SpecToken::IntegerType => Ok((DataType::Integer, pos + 1)),
        SpecToken::BooleanType => Ok((DataType::Boolean, pos + 1)),
        SpecToken::TextType => Ok((DataType::Text, pos + 1)),
        _ => Err(perr(toks, pos, "INT, BOOL, or TEXT"@)),
    }
}

/// Column definitions separated by commas, appended to `acc`.
pub open spec fn column_list(toks: Seq<SpecToken>, pos: int, acc: Seq<SpecColumnDefinition>) -> Parsed<
    Seq<SpecColumnDefinition>,
>
    decreases toks.len() - pos,
{
    match expect_ident(toks, pos, "column name"@) {
        Err(e) => Err(e),
        Ok((name, p1)) => match p_data_type(toks, p1) {
            Err(e) => Err(e),
            Ok((data_type, p2)) => {
                let acc2 = acc.push(SpecColumnDefinition { name, data_type });
                if cur(toks, p2) is Comma && advances(toks, pos, p2 + 1) {
                    column_list(toks, p2 + 1, acc2)
                } else {
                    Ok((acc2, p2))
                }
            },
        },
    }
}

pub open spec fn p_create(toks: Seq<SpecToken>, pos: int) -> Parsed<SpecStatement> {
    match expect_tok(toks, pos, SpecToken::Create, "CREATE"@) {
        Err(e) => Err(e),
        Ok(p1) => match expect_tok(toks, p1, SpecToken::Table, "TABLE"@) {
            Err(e) => Err(e),
            Ok(p2) => match expect_ident(toks, p2, "table name"@) {
                Err(e) => Err(e),
                Ok((table, p3)) => match expect_tok(toks, p3, SpecToken::LeftParen, "'('"@) {
                    Err(e) => Err(e),
                    Ok(p4) => match column_list(toks, p4, Seq::empty()) {
                        Err(e) => Err(e),
                        Ok((columns, p5)) => match expect_tok(
                            toks,
                            p5,
                            SpecToken::RightParen,
                            "')'"@,
                        ) {
                            Err(e) => Err(e),
                            Ok(p6) => Ok((SpecStatement::CreateTable { table, columns }, p6)),
                        },
                    },
                },
            },
        },
    }
}

/// Expressions separated by commas, appended to `acc`.
pub open spec fn value_list(toks: Seq<SpecToken>, pos: int, acc: Seq<SpecExpr>) -> Parsed<Seq<SpecExpr>>
    decreases toks.len() - pos,
{
    match p_or(toks, pos) {
        Err(e) => Err(e),
        Ok((e, p)) => {
            let acc2 = acc.push(e);
            if cur(toks, p) is Comma && advances(toks, pos, p + 1) {
                value_list(toks, p + 1, acc2)
            } else {
                Ok((acc2, p))
            }
        },
    }
}

/// The values between the parentheses of `INSERT ... VALUES (...)`: none when
/// the list is empty.
pub open spec fn insert_values(toks: Seq<SpecToken>, pos: int) -> Parsed<Seq<SpecExpr>> {
    if cur(toks, pos) is RightParen {
        Ok((Seq::empty(), pos))
    } else {
        value_list(toks, pos, Seq::empty())
    }
}

pub open spec fn p_insert(toks: Seq<SpecToken>, pos: int) -> Parsed<SpecStatement> {
    match expect_tok(toks, pos, SpecToken::Insert, "INSERT"@) {
        Err(e) => Err(e),
        Ok(p1) => match expect_tok(toks, p1, SpecToken::Into, "INTO"@) {
            Err(e) => Err(e),
            Ok(p2) => match expect_ident(toks, p2, "table name"@) {
                Err(e) => Err(e),
                Ok((table, p3)) => match expect_tok(toks, p3, SpecToken::Values, "VALUE"@) {
                    Err(e) => Err(e),
                    Ok(p4) => match expect_tok(toks, p4, SpecToken::LeftParen, "'('"@) {
                        Err(e) => Err(e),
                        Ok(p5) => match insert_values(toks, p5) {
                            Err(e) => Err(e),
                            Ok((values, p6)) => match expect_tok(
                                toks,
                                p6,
                                SpecToken::RightParen,
                                "')'"@,
                            ) {
                                Err(e) => Err(e),
                                Ok(p7) => Ok((SpecStatement::Insert { table, values }, p7)),
                            },
                        },
                    },
                },
            },
        },
    }
}

/// One projection: `*`, or an expression.
pub open spec fn p_select_item(toks: Seq<SpecToken>, pos: int) -> Parsed<SpecSelectItem> {
    if cur(toks, pos) is Asterisk {
        Ok((SpecSelectItem::Wildcard, pos + 1))
    } else {
        match p_or(toks, pos) {
            Err(e) => Err(e),
            Ok((e, p)) => Ok((SpecSelectItem::Expression(e), p)),
        }
    }
}

/// Projections separated by commas, appended to `acc`.
pub open spec fn projection_list(toks: Seq<SpecToken>, pos: int, acc: Seq<SpecSelectItem>) -> Parsed<
    Seq<SpecSelectItem>,
>
    decreases toks.len() - pos,
{
    match p_select_item(toks, pos) {
        Err(e) => Err(e),
        Ok((item, p)) => {
            let acc2 = acc.push(item);
            if cur(toks, p) is Comma && advances(toks, pos, p + 1) {
                projection_list(toks, p + 1, acc2)
            } else {
                Ok((acc2, p))
            }
        },
    }
}

/// An optional `WHERE` clause.
pub open spec fn p_filter(toks: Seq<SpecToken>, pos: int) -> Parsed<Option<SpecExpr>> {
    if cur(toks, pos) is Where {
        match p_or(toks, pos + 1) {
            Err(e) => Err(e),
            Ok((e, p)) => Ok((Some(e), p)),
        }
    } else {
        Ok((None, pos))
    }
}

pub open spec fn p_select(toks: Seq<SpecToken>, pos: int) -> Parsed<SpecStatement> {
    match expect_tok(toks, pos, SpecToken::Select, "SELECT"@) {
        Err(e) => Err(e),
        Ok(p1) => match projection_list(toks, p1, Seq::empty()) {
            Err(e) => Err(e),
            Ok((projections, p2)) => match expect_tok(toks, p2, SpecToken::From, "FROM"@) {
                Err(e) => Err(e),
                Ok(p3) => match expect_ident(toks, p3, "table name"@) {
                    Err(e) => Err(e),
                    Ok((table, p4)) => match p_filter(toks, p4) {
                        Err(e) => Err(e),
                        Ok((filter, p5)) => Ok(
                            (SpecStatement::Select { projections, table, filter }, p5),
                        ),
                    },
                },
            },
        },
    }
}

/// One `column = expression` assignment.
pub open spec fn p_assignment(toks: Seq<SpecToken>, pos: int) -> Parsed<SpecAssignment> {
    match expect_ident(toks, pos, "column name"@) {
        Err(e) => Err(e),
        Ok((column, p1)) => match expect_tok(toks, p1, SpecToken::Equal, "'='"@) {
            Err(e) => Err(e),
            Ok(p2) => match p_or(toks, p2) {
                Err(e) => Err(e),
                Ok((value, p3)) => Ok((SpecAssignment { column, value }, p3)),
            },
        },
    }
}

/// Assignments separated by commas, appended to `acc`.
pub open spec fn assignment_list(toks: Seq<SpecToken>, pos: int, acc: Seq<SpecAssignment>) -> Parsed<
    Seq<SpecAssignment>,
>
    decreases toks.len() - pos,
{
    match p_assignment(toks, pos) {
        Err(e) => Err(e),
        Ok((a, p)) => {
            let acc2 = acc.push(a);
            if cur(toks, p) is Comma && advances(toks, pos, p + 1) {
                assignment_list(toks, p + 1, acc2)
            } else {
                Ok((acc2, p))
            }
        },
    }
}

pub open spec fn p_update(toks: Seq<SpecToken>, pos: int) -> Parsed<SpecStatement> {
    match expect_tok(toks, pos, SpecToken::Update, "UPDATE"@) {
        Err(e) => Err(e),
        Ok(p1) => match expect_ident(toks, p1, "table name"@) {
            Err(e) => Err(e),
            Ok((table, p2)) => match expect_tok(toks, p2, SpecToken::SetKeyword, "SET"@) {
                Err(e) => Err(e),
                Ok(p3) => match assignment_list(toks, p3, Seq::empty()) {
                    Err(e) => Err(e),
                    Ok((assignments, p4)) => match p_filter(toks, p4) {
                        Err(e) => Err(e),
                        Ok((filter, p5)) => Ok(
                            (SpecStatement::Update { table, assignments, filter }, p5),
                        ),
                    },
                },
            },
        },
    }
}

pub open spec fn p_delete(toks: Seq<SpecToken>, pos: int) -> Parsed<SpecStatement> {
    match expect_tok(toks, pos, SpecToken::Delete, "DELETE"@) {
        Err(e) => Err(e),
        Ok(p1) => match expect_tok(toks, p1, SpecToken::From, "FROM"@) {
            Err(e) => Err(e),
            Ok(p2) => match expect_ident(toks, p2, "table name"@) {
                Err(e) => Err(e),
                Ok((table, p3)) => match p_filter(toks, p3) {
                    Err(e) => Err(e),
                    Ok((filter, p4)) => Ok((SpecStatement::Delete { table, filter }, p4)),
                },
            },
        },
    }
}

/// One statement, chosen by its first keyword.
#[verifier::opaque]
pub open spec fn p_statement(toks: Seq<SpecToken>, pos: int) -> Parsed<SpecStatement> {
    match cur(toks, pos) {
        SpecToken::Create => p_create(toks, pos),
        SpecToken::Insert => p_insert(toks, pos),
        SpecToken::Select => p_select(toks, pos),
        SpecToken::Update => p_update(toks, pos),
        SpecToken::Delete => p_delete(toks, pos),
        _ => Err(perr(toks, pos, "CREATE, INSERT, SELECT, UPdate, or DELETE"@)),
    }
}

/// Exactly one statement, optionally followed by `;`, then the end of input.
pub open spec fn p_single(toks: Seq<SpecToken>, pos: int) -> Result<SpecStatement, SpecParseError> {
    match p_statement(toks, pos) {
        Err(e) => Err(e),
        Ok((s, p)) => {
            let q = if cur(toks, p) is Semicolon {
                step(toks, p)
            } else {
                p
            };
            match expect_tok(toks, q, SpecToken::EndOfInput, "end of input"@) {
                Err(e) => Err(e),
                Ok(_) => Ok(s),
            }
        },
    }
}

/// Statements separated by `;` until the end of input, appended to `acc`.
pub open spec fn p_statements(toks: Seq<SpecToken>, pos: int, acc: Seq<SpecStatement>) -> Result<
    Seq<SpecStatement>,
    SpecParseError,
>
    decreases toks.len() - pos,
{
    if cur(toks, pos) is EndOfInput {
        Ok(acc)
    } else {
        match p_statement(toks, pos) {
            Err(e) => Err(e),
            Ok((s, p)) => {
                let acc2 = acc.push(s);
                if cur(toks, p) is Semicolon {
                    if advances(toks, pos, p + 1) {
                        p_statements(toks, p + 1, acc2)
                    } else {
                        Ok(acc2)
                    }
                } else if cur(toks, p) is EndOfInput {
                    Ok(acc2)
                } else {
                    Err(perr(toks, p, "; between SQL statements"@))
                }
            },
        }
    }
}

/// The tokens the parser works on: those given, with `EndOfInput` appended
/// when they do not already end with it.
pub open spec fn with_end(toks: Seq<SpecToken>) -> Seq<SpecToken> {
    if toks.len() > 0 && toks.last() is EndOfInput {
        toks
    } else {
        toks.push(SpecToken::EndOfInput)
    }
}

/// Whether an exec parse result `r`, with the parser now at `p`, is the
/// model's result `s`.
pub open spec fn parsed<T: View>(r: Result<T, ParseError>, s: Parsed<T::V>, p: int) -> bool {
    match r {
        Ok(v) => s == Ok::<(T::V, int), SpecParseError>((v@, p)),
        Err(e) => s == Err::<(T::V, int), SpecParseError>(e@),
    }
}

/// Whether a list result `r`, viewed by `view`, with the parser now at `p`,
/// is the model's result `s`.
pub open spec fn list_parsed<T, V>(
    r: Result<Vec<T>, ParseError>,
    view: spec_fn(Seq<T>) -> Seq<V>,
    s: Parsed<Seq<V>>,
    p: int,
) -> bool {
    match r {
        Ok(v) => s == Ok::<(Seq<V>, int), SpecParseError>((view(v@), p)),
        Err(e) => s == Err::<(Seq<V>, int), SpecParseError>(e@),
    }
}

/// A statement result as plain values.
pub open spec fn statement_result(r: Result<Statement, ParseError>) -> Result<SpecStatement, SpecParseError> {
    match r {
        Ok(s) => Ok(s@),
        Err(e) => Err(e@),
    }
}

/// A result of several statements as plain values.
pub open spec fn statements_result(r: Result<Vec<Statement>, ParseError>) -> Result<
    Seq<SpecStatement>,
    SpecParseError,
> {
    match r {
        Ok(s) => Ok(statements_view(s@)),
        Err(e) => Err(e@),
    }
}

/// What `parse_sql` gives for the text `input`.
pub open spec fn spec_parse_sql(input: Seq<char>) -> Result<SpecStatement, SpecSqlError> {
    match lex_all(input, 0) {
        Err(e) => Err(SpecSqlError::Lex(e)),
        Ok(ts) => match p_single(with_end(ts), 0) {
            Ok(s) => Ok(s),
            Err(e) => Err(SpecSqlError::Parse(e)),
        },
    }
}

/// What `parse_sql_statements` gives for the text `input`.
pub open spec fn spec_parse_sql_statements(input: Seq<char>) -> Result<Seq<SpecStatement>, SpecSqlError> {
    match lex_all(input, 0) {
        Err(e) => Err(SpecSqlError::Lex(e)),
        Ok(ts) => match p_statements(with_end(ts), 0, Seq::empty()) {
            Ok(s) => Ok(s),
            Err(e) => Err(SpecSqlError::Parse(e)),
        },
    }
}

/// Lexes and parses exactly one SQL statement.
pub fn parse_sql(input: &str) -> (r: Result<Statement, SqlError>)
    ensures
        spec_parse_sql(input@) == match r {
            Ok(s) => Ok::<SpecStatement, SpecSqlError>(s@),
            Err(e) => Err(e@),
        },
{
    let tokens = match Lexer::new(input).tokenize() {
        Ok(t) => t,
        Err(e) => {
            return Err(SqlError::Lex(e));
        },
    };
    match Parser::new(tokens).parse() {
        Ok(s) => Ok(s),
        Err(e) => Err(SqlError::Parse(e)),
    }
}

/// Lexes and parses several statements separated by semicolons.
pub fn parse_sql_statements(input: &str) -> (r: Result<Vec<Statement>, SqlError>)
    ensures
        spec_parse_sql_statements(input@) == match r {
            Ok(s) => Ok::<Seq<SpecStatement>, SpecSqlError>(statements_view(s@)),
            Err(e) => Err(e@),
        },
{
    let tokens = match Lexer::new(input).tokenize() {
        Ok(t) => t,
        Err(e) => {
            return Err(SqlError::Lex(e));
        },
    };
    match Parser::new(tokens).parse_all() {
        Ok(s) => Ok(s),
        Err(e) => Err(SqlError::Parse(e)),
    }
}

/// Reads statements from a sequence of tokens.
#[derive(Debug)]
pub struct Parser {
    tokens: Vec<Token>,
    position: usize,
}

impl Parser {
    #[verifier::type_invariant]
    spec fn well_formed(&self) -> bool {
        &&& self.position < self.tokens@.len()
        &&& self.tokens@.last() is EndOfInput
    }

    /// The tokens being read.
    pub closed spec fn toks(&self) -> Seq<SpecToken> {
        tokens_view(self.tokens@)
    }

    /// The position of the next token to read.
    pub closed spec fn pos(&self) -> int {
        self.position as int
    }

    /// A parser at the first of `tokens`; `EndOfInput` is appended when the
    /// tokens do not already end with it.
    pub fn new(tokens: Vec<Token>) -> (r: Self)
        ensures
            r.toks() == with_end(tokens_view(tokens@)),
            r.pos() == 0,
    {
        let mut tokens = tokens;
        let ghost given = tokens_view(tokens@);
        let n = tokens.len();
        let ends = if n > 0 {
            match &tokens[n - 1] {
                Token::EndOfInput => true,
                _ => false,
            }
        } else {
            false
        };
        if !ends {
            tokens.push(Token::EndOfInput);
            assert(tokens_view(tokens@) =~= given.push(SpecToken::EndOfInput));
        }
        Parser { tokens, position: 0 }
    }

    /// Exactly one statement, optionally followed by `;`, then the end of input.
    pub fn parse(self) -> (r: Result<Statement, ParseError>)
        ensures
            statement_result(r) == p_single(self.toks(), self.pos()),
    {
        let mut parser = self;
        let ghost toks = parser.toks();
        let statement = match parser.parse_statement() {
            Ok(s) => s,
            Err(e) => {
                return Err(e);
            },
        };
        parser.consume(&Token::Semicolon);
        match parser.expect(&Token::EndOfInput, "end of input") {
            Ok(()) => Ok(statement),
            Err(e) => Err(e),
        }
    }

    /// Statements separated by `;` up to the end of input.
    pub fn parse_all(self) -> (r: Result<Vec<Statement>, ParseError>)
        ensures
            statements_result(r) == p_statements(self.toks(), self.pos(), Seq::empty()),
    {
        let mut parser = self;
        let ghost toks = parser.toks();
        let ghost start = parser.pos();
        let mut statements: Vec<Statement> = Vec::new();
        assert(statements_view(statements@) =~= Seq::<SpecStatement>::empty());
        loop
            invariant
                parser.toks() == toks,
                toks == self.toks(),
                start == self.pos(),
                p_statements(toks, start, Seq::empty()) == p_statements(
                    toks,
                    parser.pos(),
                    statements_view(statements@),
                ),
            decreases toks.len() - parser.pos(),
        {
            proof {
                use_type_invariant(&parser);
            }
            if parser.check(&Token::EndOfInput) {
                return Ok(statements);
            }
            let ghost at = parser.pos();
            let ghost before = statements_view(statements@);
            let statement = match parser.parse_statement() {
                Ok(s) => s,
                Err(e) => {
                    return Err(e);
                },
            };
            let ghost sv = statement@;
            statements.push(statement);
            assert(statements_view(statements@) =~= before.push(sv));
            proof {
                use_type_invariant(&parser);
            }
            if !parser.consume(&Token::Semicolon) {
                if !parser.check(&Token::EndOfInput) {
                    return Err(parser.error("; between SQL statements"));
                }
                return Ok(statements);
            }
        }
    }

    /// One statement, chosen by its first keyword.
    pub fn parse_statement(&mut self) -> (r: Result<Statement, ParseError>)
        ensures
            final(self).toks() == old(self).toks(),
            parsed(r, p_statement(old(self).toks(), old(self).pos()), final(self).pos()),
            r is Ok ==> old(self).pos() < final(self).pos(),
    {
        proof {
            reveal(p_statement);
        }
        match self.current() {
            Token::Create => self.parse_create_table(),
            Token::Insert => self.parse_insert(),
            Token::Select => self.parse_select(),
            Token::Update => self.parse_update(),
            Token::Delete => self.parse_delete(),
            _ => Err(self.error("CREATE, INSERT, SELECT, UPdate, or DELETE")),
        }
    }

    fn parse_create_table(&mut self) -> (r: Result<Statement, ParseError>)
        ensures
            final(self).toks() == old(self).toks(),
            parsed(r, p_create(old(self).toks(), old(self).pos()), final(self).pos()),
            r is Ok ==> old(self).pos() < final(self).pos(),
    {
        match self.expect(&Token::Create, "CREATE") {
            Ok(()) => {},
            Err(e) => {
                return Err(e);
            },
        }
        match self.expect(&Token::Table, "TABLE") {
            Ok(()) => {},
            Err(e) => {
                return Err(e);
            },
        }
        let table = match self.expect_identifier("table name") {
            Ok(t) => t,
            Err(e) => {
                return Err(e);
            },
        };
        match self.expect(&Token::LeftParen, "'('") {
            Ok(()) => {},
            Err(e) => {
                return Err(e);
            },
        }
        let columns = match self.parse_column_list() {
            Ok(c) => c,
            Err(e) => {
                return Err(e);
            },
        };
        match self.expect(&Token::RightParen, "')'") {
            Ok(()) => {},
            Err(e) => {
                return Err(e);
            },
        }
        Ok(Statement::CreateTable(CreateTableStatement { table, columns }))
    }

    fn parse_column_list(&mut self) -> (r: Result<Vec<ColumnDefinition>, ParseError>)
        ensures
            final(self).toks() == old(self).toks(),
            list_parsed(
                r,
                |cs: Seq<ColumnDefinition>| columns_view(cs),
                column_list(old(self).toks(), old(self).pos(), Seq::empty()),
                final(self).pos(),
            ),
            r is Ok ==> old(self).pos() < final(self).pos(),
    {
        let ghost toks = self.toks();
        let ghost start = self.pos();
        let mut columns: Vec<ColumnDefinition> = Vec::new();
        assert(columns_view(columns@) =~= Seq::<SpecColumnDefinition>::empty());
        loop
            invariant
                self.toks() == toks,
                toks == old(self).toks(),
                start == old(self).pos(),
                start <= self.pos(),
                columns@.len() > 0 ==> start < self.pos(),
                column_list(toks, start, Seq::empty()) == column_list(
                    toks,
                    self.pos(),
                    columns_view(columns@),
                ),
            decreases toks.len() - self.pos(),
        {
            let ghost at = self.pos();
            let ghost before = columns_view(columns@);
            let name = match self.expect_identifier("column name") {
                Ok(n) => n,
                Err(e) => {
                    return Err(e);
                },
            };
            let data_type = match self.parse_data_type() {
                Ok(t) => t,
                Err(e) => {
                    return Err(e);
                },
            };
            let column = ColumnDefinition { name, data_type };
            let ghost cv = column@;
            columns.push(column);
            assert(columns_view(columns@) =~= before.push(cv));
            proof {
                use_type_invariant(&*self);
            }
            if !self.consume(&Token::Comma) {
                return Ok(columns);
            }
        }
    }

    fn parse_data_type(&mut self) -> (r: Result<DataType, ParseError>)
        ensures
            final(self).toks() == old(self).toks(),
            match r {
                Ok(t) => p_data_type(old(self).toks(), old(self).pos()) == Ok::<
                    (DataType, int),
                    SpecParseError,
                >((t, final(self).pos())),
                Err(e) => p_data_type(old(self).toks(), old(self).pos()) == Err::<
                    (DataType, int),
                    SpecParseError,
                >(e@),
            },
            r is Ok ==> old(self).pos() < final(self).pos(),
    {
        let data_type = match self.current() {
            Token::IntegerType => DataType::Integer,
            Token::BooleanType => DataType::Boolean,
            Token::TextType => DataType::Text,
            _ => {
                return Err(self.error("INT, BOOL, or TEXT"));
            },
        };
        self.advance();
        Ok(data_type)
    }

    fn parse_insert(&mut self) -> (r: Result<Statement, ParseError>)
        ensures
            final(self).toks() == old(self).toks(),
            parsed(r, p_insert(old(self).toks(), old(self).pos()), final(self).pos()),
            r is Ok ==> old(self).pos() < final(self).pos(),
    {
        match self.expect(&Token::Insert, "INSERT") {
            Ok(()) => {},
            Err(e) => {
                return Err(e);
            },
        }
        match self.expect(&Token::Into, "INTO") {
            Ok(()) => {},
            Err(e) => {
                return Err(e);
            },
        }
        let table = match self.expect_identifier("table name") {
            Ok(t) => t,
            Err(e) => {
                return Err(e);
            },
        };
        match self.expect(&Token::Values, "VALUE") {
            Ok(()) => {},
            Err(e) => {
                return Err(e);
            },
        }
        match self.expect(&Token::LeftParen, "'('") {
            Ok(()) => {},
            Err(e) => {
                return Err(e);
            },
        }
        let values = if !self.check(&Token::RightParen) {
            match self.parse_value_list() {
                Ok(v) => v,
                Err(e) => {
                    return Err(e);
                },
            }
        } else {
            let v: Vec<Expression> = Vec::new();
            assert(exprs_view(v@) =~= Seq::<SpecExpr>::empty());
            v
        };
        match self.expect(&Token::RightParen, "')'") {
            Ok(()) => {},
            Err(e) => {
                return Err(e);
            },
        }
        Ok(Statement::Insert(InsertStatement { table, values }))
    }

    fn parse_value_list(&mut self) -> (r: Result<Vec<Expression>, ParseError>)
        ensures
            final(self).toks() == old(self).toks(),
            list_parsed(
                r,
                |es: Seq<Expression>| exprs_view(es),
                value_list(old(self).toks(), old(self).pos(), Seq::empty()),
                final(self).pos(),
            ),
            r is Ok ==> old(self).pos() < final(self).pos(),
    {
        let ghost toks = self.toks();
        let ghost start = self.pos();
        let mut values: Vec<Expression> = Vec::new();
        assert(exprs_view(values@) =~= Seq::<SpecExpr>::empty());
        loop
            invariant
                self.toks() == toks,
                toks == old(self).toks(),
                start == old(self).pos(),
                start <= self.pos(),
                values@.len() > 0 ==> start < self.pos(),
                value_list(toks, start, Seq::empty()) == value_list(
                    toks,
                    self.pos(),
                    exprs_view(values@),
                ),
            decreases toks.len() - self.pos(),
        {
            let ghost before = exprs_view(values@);
            let value = match self.parse_expression() {
                Ok(v) => v,
                Err(e) => {
                    return Err(e);
                },
            };
            let ghost vv = value@;
            values.push(value);
            assert(exprs_view(values@) =~= before.push(vv));
            proof {
                use_type_invariant(&*self);
            }
            if !self.consume(&Token::Comma) {
                return Ok(values);
            }
        }
    }

    fn parse_select(&mut self) -> (r: Result<Statement, ParseError>)
        ensures
            final(self).toks() == old(self).toks(),
            parsed(r, p_select(old(self).toks(), old(self).pos()), final(self).pos()),
            r is Ok ==> old(self).pos() < final(self).pos(),
    {
        match self.expect(&Token::Select, "SELECT") {
            Ok(()) => {},
            Err(e) => {
                return Err(e);
            },
        }
        let projections = match self.parse_projection_list() {
            Ok(p) => p,
            Err(e) => {
                return Err(e);
            },
        };
        match self.expect(&Token::From, "FROM") {
            Ok(()) => {},
            Err(e) => {
                return Err(e);
            },
        }
        let table = match self.expect_identifier("table name") {
            Ok(t) => t,
            Err(e) => {
                return Err(e);
            },
        };
        let filter = match self.parse_filter() {
            Ok(f) => f,
            Err(e) => {
                return Err(e);
            },
        };
        Ok(Statement::Select(SelectStatement { projections, table, filter }))
    }

    fn parse_projection_list(&mut self) -> (r: Result<Vec<SelectItem>, ParseError>)
        ensures
            final(self).toks() == old(self).toks(),
            list_parsed(
                r,
                |ps: Seq<SelectItem>| items_view(ps),
                projection_list(old(self).toks(), old(self).pos(), Seq::empty()),
                final(self).pos(),
            ),
            r is Ok ==> old(self).pos() < final(self).pos(),
    {
        let ghost toks = self.toks();
        let ghost start = self.pos();
        let mut projections: Vec<SelectItem> = Vec::new();
        assert(items_view(projections@) =~= Seq::<SpecSelectItem>::empty());
        loop
            invariant
                self.toks() == toks,
                toks == old(self).toks(),
                start == old(self).pos(),
                start <= self.pos(),
                projections@.len() > 0 ==> start < self.pos(),
                projection_list(toks, start, Seq::empty()) == projection_list(
                    toks,
                    self.pos(),
                    items_view(projections@),
                ),
            decreases toks.len() - self.pos(),
        {
            proof {
                use_type_invariant(&*self);
            }
            let ghost before = items_view(projections@);
            let item = if self.consume(&Token::Asterisk) {
                SelectItem::Wildcard
            } else {
                match self.parse_expression() {
                    Ok(e) => SelectItem::Expression(e),
                    Err(e) => {
                        return Err(e);
                    },
                }
            };
            let ghost iv = item@;
            projections.push(item);
            assert(items_view(projections@) =~= before.push(iv));
            proof {
                use_type_invariant(&*self);
            }
            if !self.consume(&Token::Comma) {
                return Ok(projections);
            }
        }
    }

    fn parse_filter(&mut self) -> (r: Result<Option<Expression>, ParseError>)
        ensures
            final(self).toks() == old(self).toks(),
            match r {
                Ok(f) => p_filter(old(self).toks(), old(self).pos()) == Ok::<
                    (Option<SpecExpr>, int),
                    SpecParseError,
                >((filter_view(f), final(self).pos())),
                Err(e) => p_filter(old(self).toks(), old(self).pos()) == Err::<
                    (Option<SpecExpr>, int),
                    SpecParseError,
                >(e@),
            },
            r is Ok ==> old(self).pos() <= final(self).pos(),
    {
        if self.consume(&Token::Where) {
            match self.parse_expression() {
                Ok(e) => Ok(Some(e)),
                Err(e) => Err(e),
            }
        } else {
            Ok(None)
        }
    }

    fn parse_update(&mut self) -> (r: Result<Statement, ParseError>)
        ensures
            final(self).toks() == old(self).toks(),
            parsed(r, p_update(old(self).toks(), old(self).pos()), final(self).pos()),
            r is Ok ==> old(self).pos() < final(self).pos(),
    {
        match self.expect(&Token::Update, "UPDATE") {
            Ok(()) => {},
            Err(e) => {
                return Err(e);
            },
        }
        let table = match self.expect_identifier("table name") {
            Ok(t) => t,
            Err(e) => {
                return Err(e);
            },
        };
        match self.expect(&Token::SetKeyword, "SET") {
            Ok(()) => {},
            Err(e) => {
                return Err(e);
            },
        }
        let assignments = match self.parse_assignment_list() {
            Ok(a) => a,
            Err(e) => {
                return Err(e);
            },
        };
        let filter = match self.parse_filter() {
            Ok(f) => f,
            Err(e) => {
                return Err(e);
            },
        };
        Ok(Statement::Update(UpdateStatement { table, assignments, filter }))
    }

    fn parse_assignment_list(&mut self) -> (r: Result<Vec<Assignment>, ParseError>)
        ensures
            final(self).toks() == old(self).toks(),
            list_parsed(
                r,
                |a: Seq<Assignment>| assignments_view(a),
                assignment_list(old(self).toks(), old(self).pos(), Seq::empty()),
                final(self).pos(),
            ),
            r is Ok ==> old(self).pos() < final(self).pos(),
    {
        let ghost toks = self.toks();
        let ghost start = self.pos();
        let mut assignments: Vec<Assignment> = Vec::new();
        assert(assignments_view(assignments@) =~= Seq::<SpecAssignment>::empty());
        loop
            invariant
                self.toks() == toks,
                toks == old(self).toks(),
                start == old(self).pos(),
                start <= self.pos(),
                assignments@.len() > 0 ==> start < self.pos(),
                assignment_list(toks, start, Seq::empty()) == assignment_list(
                    toks,
                    self.pos(),
                    assignments_view(assignments@),
                ),
            decreases toks.len() - self.pos(),
        {
            let ghost before = assignments_view(assignments@);
            let column = match self.expect_identifier("column name") {
                Ok(c) => c,
                Err(e) => {
                    return Err(e);
                },
            };
            match self.expect(&Token::Equal, "'='") {
                Ok(()) => {},
                Err(e) => {
                    return Err(e);
                },
            }
            let value = match self.parse_expression() {
                Ok(v) => v,
                Err(e) => {
                    return Err(e);
                },
            };
            let assignment = Assignment { column, value };
            let ghost av = assignment@;
            assignments.push(assignment);
            assert(assignments_view(assignments@) =~= before.push(av));
            proof {
                use_type_invariant(&*self);
            }
            if !self.consume(&Token::Comma) {
                return Ok(assignments);
            }
        }
    }

    fn parse_delete(&mut self) -> (r: Result<Statement, ParseError>)
        ensures
            final(self).toks() == old(self).toks(),
            parsed(r, p_delete(old(self).toks(), old(self).pos()), final(self).pos()),
            r is Ok ==> old(self).pos() < final(self).pos(),
    {
        match self.expect(&Token::Delete, "DELETE") {
            Ok(()) => {},
            Err(e) => {
                return Err(e);
            },
        }
        match self.expect(&Token::From, "FROM") {
            Ok(()) => {},
            Err(e) => {
                return Err(e);
            },
        }
        let table = match self.expect_identifier("table name") {
            Ok(t) => t,
            Err(e) => {
                return Err(e);
            },
        };
        let filter = match self.parse_filter() {
            Ok(f) => f,
            Err(e) => {
                return Err(e);
            },
        };
        Ok(Statement::Delete(DeleteStatement { table, filter }))
    }

    /// An expression, with the usual precedence: `OR`, then `AND`, then
    /// comparisons, then `+ -`, then `* /`, then unary operators.
    pub fn parse_expression(&mut self) -> (r: Result<Expression, ParseError>)
        ensures
            final(self).toks() == old(self).toks(),
            parsed(r, p_or(old(self).toks(), old(self).pos()), final(self).pos()),
            r is Ok ==> old(self).pos() < final(self).pos(),
        decreases old(self).toks().len() - old(self).pos(), 9int,
    {
        self.parse_or()
    }

    fn parse_or(&mut self) -> (r: Result<Expression, ParseError>)
        ensures
            final(self).toks() == old(self).toks(),
            parsed(r, p_or(old(self).toks(), old(self).pos()), final(self).pos()),
            r is Ok ==> old(self).pos() < final(self).pos(),
        decreases old(self).toks().len() - old(self).pos(), 8int,
    {
        let ghost toks = self.toks();
        let ghost start = self.pos();
        let mut expression = match self.parse_and() {
            Ok(e) => e,
            Err(e) => {
                return Err(e);
            },
        };
        proof {
            use_type_invariant(&*self);
        }
        loop
            invariant
                self.toks() == toks,
                toks == old(self).toks(),
                start == old(self).pos(),
                start < self.pos(),
                p_or(toks, start) == or_tail(toks, expression@, self.pos()),
            decreases toks.len() - self.pos(),
        {
            proof {
                use_type_invariant(&*self);
            }
            if !self.consume(&Token::Or) {
                return Ok(expression);
            }
            let right = match self.parse_and() {
                Ok(e) => e,
                Err(e) => {
                    return Err(e);
                },
            };
            proof {
                use_type_invariant(&*self);
            }
            expression = Self::binary(expression, BinaryOperator::Or, right);
        }
    }

    fn parse_and(&mut self) -> (r: Result<Expression, ParseError>)
        ensures
            final(self).toks() == old(self).toks(),
            parsed(r, p_and(old(self).toks(), old(self).pos()), final(self).pos()),
            r is Ok ==> old(self).pos() < final(self).pos(),
        decreases old(self).toks().len() - old(self).pos(), 7int,
    {
        let ghost toks = self.toks();
        let ghost start = self.pos();
        let mut expression = match self.parse_comparison() {
            Ok(e) => e,
            Err(e) => {
                return Err(e);
            },
        };
        proof {
            use_type_invariant(&*self);
        }
        loop
            invariant
                self.toks() == toks,
                toks == old(self).toks(),
                start == old(self).pos(),
                start < self.pos(),
                p_and(toks, start) == and_tail(toks, expression@, self.pos()),
            decreases toks.len() - self.pos(),
        {
            proof {
                use_type_invariant(&*self);
            }
            if !self.consume(&Token::And) {
                return Ok(expression);
            }
            let right = match self.parse_comparison() {
                Ok(e) => e,
                Err(e) => {
                    return Err(e);
                },
            };
            proof {
                use_type_invariant(&*self);
            }
            expression = Self::binary(expression, BinaryOperator::And, right);
        }
    }

    fn parse_comparison(&mut self) -> (r: Result<Expression, ParseError>)
        ensures
            final(self).toks() == old(self).toks(),
            parsed(r, p_cmp(old(self).toks(), old(self).pos()), final(self).pos()),
            r is Ok ==> old(self).pos() < final(self).pos(),
        decreases old(self).toks().len() - old(self).pos(), 6int,
    {
        let ghost toks = self.toks();
        let ghost start = self.pos();
        let mut expression = match self.parse_additive() {
            Ok(e) => e,
            Err(e) => {
                return Err(e);
            },
        };
        proof {
            use_type_invariant(&*self);
        }
        loop
            invariant
                self.toks() == toks,
                toks == old(self).toks(),
                start == old(self).pos(),
                start < self.pos(),
                p_cmp(toks, start) == cmp_tail(toks, expression@, self.pos()),
            decreases toks.len() - self.pos(),
        {
            proof {
                use_type_invariant(&*self);
            }
            let operator = match self.current() {
                Token::Equal => BinaryOperator::Equal,
                Token::NotEqual => BinaryOperator::NotEqual,
                Token::LessThan => BinaryOperator::LessThan,
                Token::LessThanOrEqual => BinaryOperator::LessThanOrEqual,
                Token::GreaterThan => BinaryOperator::GreaterThan,
                Token::GreaterThanOrEqual => BinaryOperator::GreaterThanOrEqual,
                _ => {
                    return Ok(expression);
                },
            };
            self.advance();
            let right = match self.parse_additive() {
                Ok(e) => e,
                Err(e) => {
                    return Err(e);
                },
            };
            proof {
                use_type_invariant(&*self);
            }
            expression = Self::binary(expression, operator, right);
        }
    }

    fn parse_additive(&mut self) -> (r: Result<Expression, ParseError>)
        ensures
            final(self).toks() == old(self).toks(),
            parsed(r, p_add(old(self).toks(), old(self).pos()), final(self).pos()),
            r is Ok ==> old(self).pos() < final(self).pos(),
        decreases old(self).toks().len() - old(self).pos(), 5int,
    {
        let ghost toks = self.toks();
        let ghost start = self.pos();
        let mut expression = match self.parse_multiplicative() {
            Ok(e) => e,
            Err(e) => {
                return Err(e);
            },
        };
        proof {
            use_type_invariant(&*self);
        }
        loop
            invariant
                self.toks() == toks,
                toks == old(self).toks(),
                start == old(self).pos(),
                start < self.pos(),
                p_add(toks, start) == add_tail(toks, expression@, self.pos()),
            decreases toks.len() - self.pos(),
        {
            proof {
                use_type_invariant(&*self);
            }
            let operator = match self.current() {
                Token::Plus => BinaryOperator::Add,
                Token::Minus => BinaryOperator::Subtract,
                _ => {
                    return Ok(expression);
                },
            };
            self.advance();
            let right = match self.parse_multiplicative() {
                Ok(e) => e,
                Err(e) => {
                    return Err(e);
                },
            };
            proof {
                use_type_invariant(&*self);
            }
            expression = Self::binary(expression, operator, right);
        }
    }

    fn parse_multiplicative(&mut self) -> (r: Result<Expression, ParseError>)
        ensures
            final(self).toks() == old(self).toks(),
            parsed(r, p_mul(old(self).toks(), old(self).pos()), final(self).pos()),
            r is Ok ==> old(self).pos() < final(self).pos(),
        decreases old(self).toks().len() - old(self).pos(), 4int,
    {
        let ghost toks = self.toks();
        let ghost start = self.pos();
        let mut expression = match self.parse_unary() {
            Ok(e) => e,
            Err(e) => {
                return Err(e);
            },
        };
        proof {
            use_type_invariant(&*self);
        }
        loop
            invariant
                self.toks() == toks,
                toks == old(self).toks(),
                start == old(self).pos(),
                start < self.pos(),
                p_mul(toks, start) == mul_tail(toks, expression@, self.pos()),
            decreases toks.len() - self.pos(),
        {
            proof {
                use_type_invariant(&*self);
            }
            let operator = match self.current() {
                Token::Asterisk => BinaryOperator::Multiply,
                Token::Slash => BinaryOperator::Divide,
                _ => {
                    return Ok(expression);
                },
            };
            self.advance();
            let right = match self.parse_unary() {
                Ok(e) => e,
                Err(e) => {
                    return Err(e);
                },
            };
            proof {
                use_type_invariant(&*self);
            }
            expression = Self::binary(expression, operator, right);
        }
    }

    fn parse_unary(&mut self) -> (r: Result<Expression, ParseError>)
        ensures
            final(self).toks() == old(self).toks(),
            parsed(r, p_unary(old(self).toks(), old(self).pos()), final(self).pos()),
            r is Ok ==> old(self).pos() < final(self).pos(),
        decreases old(self).toks().len() - old(self).pos(), 3int,
    {
        proof {
            use_type_invariant(&*self);
        }
        if self.consume(&Token::Not) {
            let inner = match self.parse_unary() {
                Ok(e) => e,
                Err(e) => {
                    return Err(e);
                },
            };
            return Ok(Expression::Unary { operator: UnaryOperator::Not, expression: Box::new(inner) });
        }
        if self.consume(&Token::Minus) {
            let inner = match self.parse_unary() {
                Ok(e) => e,
                Err(e) => {
                    return Err(e);
                },
            };
            return Ok(
                Expression::Unary { operator: UnaryOperator::Negate, expression: Box::new(inner) },
            );
        }
        // A unary plus changes no value, so the tree leaves it out.
        if self.consume(&Token::Plus) {
            return self.parse_unary();
        }
        self.parse_primary()
    }

    fn parse_primary(&mut self) -> (r: Result<Expression, ParseError>)
        ensures
            final(self).toks() == old(self).toks(),
            parsed(r, p_primary(old(self).toks(), old(self).pos()), final(self).pos()),
            r is Ok ==> old(self).pos() < final(self).pos(),
        decreases old(self).toks().len() - old(self).pos(), 2int,
    {
        proof {
            use_type_invariant(&*self);
        }
        let expression = match self.current().clone() {
            Token::Integer(value) => Expression::Literal(Value::Integer(value)),
            Token::StringLiteral(value) => Expression::Literal(Value::Text(value)),
            Token::True => Expression::Literal(Value::Boolean(true)),
            Token::False => Expression::Literal(Value::Boolean(false)),
            Token::Null => Expression::Literal(Value::Null),
            Token::Identifier(name) => Expression::Column(name),
            Token::LeftParen => {
                self.advance();
                let inner = match self.parse_expression() {
                    Ok(e) => e,
                    Err(e) => {
                        return Err(e);
                    },
                };
                return match self.expect(&Token::RightParen, "')'") {
                    Ok(()) => Ok(inner),
                    Err(e) => Err(e),
                };
            },
            _ => {
                return Err(self.error("a literal, column name, or parenthesized expression"));
            },
        };
        self.advance();
        Ok(expression)
    }

    fn binary(left: Expression, operator: BinaryOperator, right: Expression) -> (r: Expression)
        ensures
            r@ == binary(left@, operator, right@),
    {
        // The children are boxed: a recursive enum needs a fixed size.
        Expression::Binary { left: Box::new(left), operator, right: Box::new(right) }
    }

    fn consume(&mut self, expected: &Token) -> (r: bool)
        ensures
            final(self).toks() == old(self).toks(),
            r == (cur(old(self).toks(), old(self).pos()) == expected@),
            final(self).pos() == if r {
                step(old(self).toks(), old(self).pos())
            } else {
                old(self).pos()
            },
    {
        if self.check(expected) {
            self.advance();
            true
        } else {
            false
        }
    }

    fn check(&self, expected: &Token) -> (r: bool)
        ensures
            r == (cur(self.toks(), self.pos()) == expected@),
    {
        self.current().same_as(expected)
    }

    fn current(&self) -> (r: &Token)
        ensures
            r@ == cur(self.toks(), self.pos()),
    {
        proof {
            use_type_invariant(self);
        }
        &self.tokens[self.position]
    }

    fn advance(&mut self) -> (r: Token)
        ensures
            final(self).toks() == old(self).toks(),
            final(self).pos() == step(old(self).toks(), old(self).pos()),
            r@ == cur(old(self).toks(), old(self).pos()),
    {
        proof {
            use_type_invariant(&*self);
        }
        let token = self.current().clone();
        let at_end = match &token {
            Token::EndOfInput => true,
            _ => false,
        };
        if !at_end {
            let n = self.tokens.len();
            assert(self.position + 1 < n);
            self.position = self.position + 1;
        }
        token
    }

    fn expect(&mut self, expected: &Token, description: &str) -> (r: Result<(), ParseError>)
        ensures
            final(self).toks() == old(self).toks(),
            match r {
                Ok(_) => expect_tok(old(self).toks(), old(self).pos(), expected@, description@) == Ok::<
                    int,
                    SpecParseError,
                >(final(self).pos()),
                Err(e) => expect_tok(old(self).toks(), old(self).pos(), expected@, description@)
                    == Err::<int, SpecParseError>(e@),
            },
    {
        if self.consume(expected) {
            Ok(())
        } else {
            Err(self.error(description))
        }
    }

    fn expect_identifier(&mut self, description: &str) -> (r: Result<String, ParseError>)
        ensures
            final(self).toks() == old(self).toks(),
            parsed(r, expect_ident(old(self).toks(), old(self).pos(), description@), final(self).pos()),
            r is Ok ==> old(self).pos() < final(self).pos(),
    {
        match self.current().clone() {
            Token::Identifier(name) => {
                self.advance();
                Ok(name)
            },
            _ => Err(self.error(description)),
        }
    }

    fn error(&self, expected: &str) -> (r: ParseError)
        ensures
            r@ == perr(self.toks(), self.pos(), expected@),
    {
        let at_end = match self.current() {
            Token::EndOfInput => true,
            _ => false,
        };
        if at_end {
            ParseError::UnexpectedEnd { expected: expected.to_owned(), position: self.position }
        } else {
            ParseError::UnexpectedToken {
                expected: expected.to_owned(),
                found: self.current().clone(),
                position: self.position,
            }
        }
    }
}

/// `AND` binds tighter than `OR`: when the tokens from `pos` are three
/// comparisons `a`, `b`, `c` written `a OR b AND c`, followed by a token that
/// is neither `AND` nor `OR`, the expression is `a OR (b AND c)`.
pub proof fn lemma_and_binds_tighter_after_or(toks: Seq<SpecToken>, pos: int, p1: int, p2: int, p3: int)
    requires
        0 <= pos,
        p_cmp(toks, pos) matches Ok((_, q)) && q == p1,
        p_cmp(toks, p1 + 1) matches Ok((_, q)) && q == p2,
        p_cmp(toks, p2 + 1) matches Ok((_, q)) && q == p3,
        pos < p1,
        p1 + 1 < p2,
        p2 + 1 < p3 <= toks.len(),
        cur(toks, p1) is Or,
        cur(toks, p2) is And,
        !(cur(toks, p3) is And),
        !(cur(toks, p3) is Or),
    ensures
        p_or(toks, pos) == Ok::<(SpecExpr, int), SpecParseError>(
            (
                binary(
                    p_cmp(toks, pos)->Ok_0.0,
                    BinaryOperator::Or,
                    binary(p_cmp(toks, p1 + 1)->Ok_0.0, BinaryOperator::And, p_cmp(toks, p2 + 1)->Ok_0.0),
                ),
                p3,
            ),
        ),
{
    let a = p_cmp(toks, pos)->Ok_0.0;
    let b = p_cmp(toks, p1 + 1)->Ok_0.0;
    let c = p_cmp(toks, p2 + 1)->Ok_0.0;
    let bc = binary(b, BinaryOperator::And, c);
    assert(and_tail(toks, a, p1) == Ok::<(SpecExpr, int), SpecParseError>((a, p1)));
    assert(p_and(toks, pos) == Ok::<(SpecExpr, int), SpecParseError>((a, p1)));
    assert(and_tail(toks, bc, p3) == Ok::<(SpecExpr, int), SpecParseError>((bc, p3)));
    assert(and_tail(toks, b, p2) == Ok::<(SpecExpr, int), SpecParseError>((bc, p3)));
    assert(p_and(toks, p1 + 1) == Ok::<(SpecExpr, int), SpecParseError>((bc, p3)));
    let e = binary(a, BinaryOperator::Or, bc);
    assert(or_tail(toks, e, p3) == Ok::<(SpecExpr, int), SpecParseError>((e, p3)));
    assert(or_tail(toks, a, p1) == Ok::<(SpecExpr, int), SpecParseError>((e, p3)));
}

/// `AND` binds tighter than `OR`: `a AND b OR c`, followed by a token that
/// is neither `AND` nor `OR`, is `(a AND b) OR c`.
pub proof fn lemma_and_binds_tighter_before_or(toks: Seq<SpecToken>, pos: int, p1: int, p2: int, p3: int)
    requires
        0 <= pos,
        p_cmp(toks, pos) matches Ok((_, q)) && q == p1,
        p_cmp(toks, p1 + 1) matches Ok((_, q)) && q == p2,
        p_cmp(toks, p2 + 1) matches Ok((_, q)) && q == p3,
        pos < p1,
        p1 + 1 < p2,
        p2 + 1 < p3 <= toks.len(),
        cur(toks, p1) is And,
        cur(toks, p2) is Or,
        !(cur(toks, p3) is And),
        !(cur(toks, p3) is Or),
    ensures
        p_or(toks, pos) == Ok::<(SpecExpr, int), SpecParseError>(
            (
                binary(
                    binary(p_cmp(toks, pos)->Ok_0.0, BinaryOperator::And, p_cmp(toks, p1 + 1)->Ok_0.0),
                    BinaryOperator::Or,
                    p_cmp(toks, p2 + 1)->Ok_0.0,
                ),
                p3,
            ),
        ),
{
    let a = p_cmp(toks, pos)->Ok_0.0;
    let b = p_cmp(toks, p1 + 1)->Ok_0.0;
    let c = p_cmp(toks, p2 + 1)->Ok_0.0;
    let ab = binary(a, BinaryOperator::And, b);
    assert(and_tail(toks, ab, p2) == Ok::<(SpecExpr, int), SpecParseError>((ab, p2)));
    assert(and_tail(toks, a, p1) == Ok::<(SpecExpr, int), SpecParseError>((ab, p2)));
    assert(p_and(toks, pos) == Ok::<(SpecExpr, int), SpecParseError>((ab, p2)));
    assert(and_tail(toks, c, p3) == Ok::<(SpecExpr, int), SpecParseError>((c, p3)));
    assert(p_and(toks, p2 + 1) == Ok::<(SpecExpr, int), SpecParseError>((c, p3)));
    let e = binary(ab, BinaryOperator::Or, c);
    assert(or_tail(toks, e, p3) == Ok::<(SpecExpr, int), SpecParseError>((e, p3)));
    assert(or_tail(toks, ab, p2) == Ok::<(SpecExpr, int), SpecParseError>((e, p3)));
}

/// `*` and `/` bind tighter than `+` and `-`: operands `a`, `b`, `c` written
/// `a + b * c` (any additive then any multiplicative operator), followed by a
/// token that is neither, form `a + (b * c)`.
pub proof fn lemma_product_binds_tighter_after_sum(toks: Seq<SpecToken>, pos: int, p1: int, p2: int, p3: int)
    requires
        0 <= pos,
        p_unary(toks, pos) matches Ok((_, q)) && q == p1,
        p_unary(toks, p1 + 1) matches Ok((_, q)) && q == p2,
        p_unary(toks, p2 + 1) matches Ok((_, q)) && q == p3,
        pos < p1,
        p1 + 1 < p2,
        p2 + 1 < p3 <= toks.len(),
        mul_operator(cur(toks, p1)) is None,
        add_operator(cur(toks, p1)) is Some,
        mul_operator(cur(toks, p2)) is Some,
        mul_operator(cur(toks, p3)) is None,
        add_operator(cur(toks, p3)) is None,
    ensures
        p_add(toks, pos) == Ok::<(SpecExpr, int), SpecParseError>(
            (
                binary(
                    p_unary(toks, pos)->Ok_0.0,
                    add_operator(cur(toks, p1))->0,
                    binary(
                        p_unary(toks, p1 + 1)->Ok_0.0,
                        mul_operator(cur(toks, p2))->0,
                        p_unary(toks, p2 + 1)->Ok_0.0,
                    ),
                ),
                p3,
            ),
        ),
{
    let a = p_unary(toks, pos)->Ok_0.0;
    let b = p_unary(toks, p1 + 1)->Ok_0.0;
    let c = p_unary(toks, p2 + 1)->Ok_0.0;
    let bc = binary(b, mul_operator(cur(toks, p2))->0, c);
    assert(mul_tail(toks, a, p1) == Ok::<(SpecExpr, int), SpecParseError>((a, p1)));
    assert(p_mul(toks, pos) == Ok::<(SpecExpr, int), SpecParseError>((a, p1)));
    assert(mul_tail(toks, bc, p3) == Ok::<(SpecExpr, int), SpecParseError>((bc, p3)));
    assert(mul_tail(toks, b, p2) == Ok::<(SpecExpr, int), SpecParseError>((bc, p3)));
    assert(p_mul(toks, p1 + 1) == Ok::<(SpecExpr, int), SpecParseError>((bc, p3)));
    let e = binary(a, add_operator(cur(toks, p1))->0, bc);
    assert(add_tail(toks, e, p3) == Ok::<(SpecExpr, int), SpecParseError>((e, p3)));
    assert(add_tail(toks, a, p1) == Ok::<(SpecExpr, int), SpecParseError>((e, p3)));
}

/// `*` and `/` bind tighter than `+` and `-`: `a * b + c` forms `(a * b) + c`.
pub proof fn lemma_product_binds_tighter_before_sum(toks: Seq<SpecToken>, pos: int, p1: int, p2: int, p3: int)
    requires
        0 <= pos,
        p_unary(toks, pos) matches Ok((_, q)) && q == p1,
        p_unary(toks, p1 + 1) matches Ok((_, q)) && q == p2,
        p_unary(toks, p2 + 1) matches Ok((_, q)) && q == p3,
        pos < p1,
        p1 + 1 < p2,
        p2 + 1 < p3 <= toks.len(),
        mul_operator(cur(toks, p1)) is Some,
        mul_operator(cur(toks, p2)) is None,
        add_operator(cur(toks, p2)) is Some,
        mul_operator(cur(toks, p3)) is None,
        add_operator(cur(toks, p3)) is None,
    ensures
        p_add(toks, pos) == Ok::<(SpecExpr, int), SpecParseError>(
            (
                binary(
                    binary(
                        p_unary(toks, pos)->Ok_0.0,
                        mul_operator(cur(toks, p1))->0,
                        p_unary(toks, p1 + 1)->Ok_0.0,
                    ),
                    add_operator(cur(toks, p2))->0,
                    p_unary(toks, p2 + 1)->Ok_0.0,
                ),
                p3,
            ),
        ),
{
    let a = p_unary(toks, pos)->Ok_0.0;
    let b = p_unary(toks, p1 + 1)->Ok_0.0;
    let c = p_unary(toks, p2 + 1)->Ok_0.0;
    let ab = binary(a, mul_operator(cur(toks, p1))->0, b);
    assert(mul_tail(toks, ab, p2) == Ok::<(SpecExpr, int), SpecParseError>((ab, p2)));
    assert(mul_tail(toks, a, p1) == Ok::<(SpecExpr, int), SpecParseError>((ab, p2)));
    assert(p_mul(toks, pos) == Ok::<(SpecExpr, int), SpecParseError>((ab, p2)));
    assert(mul_tail(toks, c, p3) == Ok::<(SpecExpr, int), SpecParseError>((c, p3)));
    assert(p_mul(toks, p2 + 1) == Ok::<(SpecExpr, int), SpecParseError>((c, p3)));
    let e = binary(ab, add_operator(cur(toks, p2))->0, c);
    assert(add_tail(toks, e, p3) == Ok::<(SpecExpr, int), SpecParseError>((e, p3)));
    assert(add_tail(toks, ab, p2) == Ok::<(SpecExpr, int), SpecParseError>((e, p3)));
}

/// `+` and `-` group from the left: `a - b - c` (any two additive operators)
/// forms `(a - b) - c`.
pub proof fn lemma_sums_group_left(toks: Seq<SpecToken>, pos: int, p1: int, p2: int, p3: int)
    requires
        0 <= pos,
        p_mul(toks, pos) matches Ok((_, q)) && q == p1,
        p_mul(toks, p1 + 1) matches Ok((_, q)) && q == p2,
        p_mul(toks, p2 + 1) matches Ok((_, q)) && q == p3,
        pos < p1,
        p1 + 1 < p2,
        p2 + 1 < p3 <= toks.len(),
        add_operator(cur(toks, p1)) is Some,
        add_operator(cur(toks, p2)) is Some,
        add_operator(cur(toks, p3)) is None,
    ensures
        p_add(toks, pos) == Ok::<(SpecExpr, int), SpecParseError>(
            (
                binary(
                    binary(p_mul(toks, pos)->Ok_0.0, add_operator(cur(toks, p1))->0, p_mul(toks, p1 + 1)->Ok_0.0),
                    add_operator(cur(toks, p2))->0,
                    p_mul(toks, p2 + 1)->Ok_0.0,
                ),
                p3,
            ),
        ),
{
    let a = p_mul(toks, pos)->Ok_0.0;
    let b = p_mul(toks, p1 + 1)->Ok_0.0;
    let c = p_mul(toks, p2 + 1)->Ok_0.0;
    let ab = binary(a, add_operator(cur(toks, p1))->0, b);
    let e = binary(ab, add_operator(cur(toks, p2))->0, c);
    assert(add_tail(toks, e, p3) == Ok::<(SpecExpr, int), SpecParseError>((e, p3)));
    assert(add_tail(toks, ab, p2) == Ok::<(SpecExpr, int), SpecParseError>((e, p3)));
    assert(add_tail(toks, a, p1) == Ok::<(SpecExpr, int), SpecParseError>((e, p3)));
}

/// A comparison takes whole sums as operands: additive expressions `a` and
/// `b` written `a = b` (any comparison operator), followed by a token that is
/// no comparison operator, form the comparison of `a` with `b`.
pub proof fn lemma_comparison_of_sums(toks: Seq<SpecToken>, pos: int, p1: int, p2: int)
    requires
        0 <= pos,
        p_add(toks, pos) matches Ok((_, q)) && q == p1,
        p_add(toks, p1 + 1) matches Ok((_, q)) && q == p2,
        pos < p1,
        p1 + 1 < p2 <= toks.len(),
        cmp_operator(cur(toks, p1)) is Some,
        cmp_operator(cur(toks, p2)) is None,
    ensures
        p_cmp(toks, pos) == Ok::<(SpecExpr, int), SpecParseError>(
            (
                binary(p_add(toks, pos)->Ok_0.0, cmp_operator(cur(toks, p1))->0, p_add(toks, p1 + 1)->Ok_0.0),
                p2,
            ),
        ),
{
    let a = p_add(toks, pos)->Ok_0.0;
    let b = p_add(toks, p1 + 1)->Ok_0.0;
    let e = binary(a, cmp_operator(cur(toks, p1))->0, b);
    assert(cmp_tail(toks, e, p2) == Ok::<(SpecExpr, int), SpecParseError>((e, p2)));
    assert(cmp_tail(toks, a, p1) == Ok::<(SpecExpr, int), SpecParseError>((e, p2)));
}

/// The binary operator that the parser reads for a token, if any.
pub open spec fn operator_of(t: SpecToken) -> Option<BinaryOperator> {
    if t is Or {
        Some(BinaryOperator::Or)
    } else if t is And {
        Some(BinaryOperator::And)
    } else if cmp_operator(t) is Some {
        cmp_operator(t)
    } else if add_operator(t) is Some {
        add_operator(t)
    } else {
        mul_operator(t)
    }
}

/// Every binary operator reads back as itself: its symbol, as written in
/// SQL, lexes to one token over the whole symbol, and the parser reads that
/// token as the same operator.
pub proof fn lemma_operator_symbols_read_back(op: BinaryOperator)
    ensures
        lex_token(binary_symbol(op), 0) matches Ok((t, e)) && e == binary_symbol(op).len() && operator_of(t)
            == Some(op),
{
    let s = binary_symbol(op);
    match op {
        BinaryOperator::Or => {
            reveal_strlit("OR");
            assert(word_end(s, 2) == 2);
            assert(word_end(s, 1) == 2);
            assert(word_end(s, 0) == 2);
            assert(upper_seq(s.subrange(0, 2)) =~= seq!['O', 'R']);
        },
        BinaryOperator::And => {
            reveal_strlit("AND");
            assert(word_end(s, 3) == 3);
            assert(word_end(s, 2) == 3);
            assert(word_end(s, 1) == 3);
            assert(word_end(s, 0) == 3);
            assert(upper_seq(s.subrange(0, 3)) =~= seq!['A', 'N', 'D']);
        },
        BinaryOperator::Equal => {
            reveal_strlit("=");
        },
        BinaryOperator::NotEqual => {
            reveal_strlit("!=");
        },
        BinaryOperator::LessThan => {
            reveal_strlit("<");
        },
        BinaryOperator::LessThanOrEqual => {
            reveal_strlit("<=");
        },
        BinaryOperator::GreaterThan => {
            reveal_strlit(">");
        },
        BinaryOperator::GreaterThanOrEqual => {
            reveal_strlit(">=");
        },
        BinaryOperator::Add => {
            reveal_strlit("+");
        },
        BinaryOperator::Subtract => {
            reveal_strlit("-");
        },
        BinaryOperator::Multiply => {
            reveal_strlit("*");
        },
        BinaryOperator::Divide => {
            reveal_strlit("/");
        },
    }
}

} // verus!
