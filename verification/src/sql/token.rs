use crate::text::{debug_quoted, debug_text, push_signed, push_str, signed_decimal};
use vstd::prelude::*;

verus! {

/// One meaningful piece of SQL source text.
///
/// Keywords have their own variants because the parser needs to
/// distinguish `SELECT` from a user-chosen name such as `users`.
#[derive(Debug, PartialEq, Eq)]
pub enum Token {
    Select,
    Insert,
    Update,
    Delete,
    Create,
    Table,
    From,
    Where,
    Into,
    Values,
    SetKeyword,
    And,
    Or,
    Not,
    True,
    False,
    Null,
    IntegerType,
    BooleanType,
    TextType,
    Identifier(String),
    Integer(i64),
    StringLiteral(String),
    LeftParen,
    RightParen,
    Comma,
    Semicolon,
    Equal,
    NotEqual,
    LessThan,
    LessThanOrEqual,
    GreaterThan,
    GreaterThanOrEqual,
    Asterisk,
    Plus,
    Minus,
    Slash,
    EndOfInput,
}

/// The content of a token, with names and text as character sequences.
pub enum SpecToken {
    Select,
    Insert,
    Update,
    Delete,
    Create,
    Table,
    From,
    Where,
    Into,
    Values,
    SetKeyword,
    And,
    Or,
    Not,
    True,
    False,
    Null,
    IntegerType,
    BooleanType,
    TextType,
    Identifier(Seq<char>),
    Integer(i64),
    StringLiteral(Seq<char>),
    LeftParen,
    RightParen,
    Comma,
    Semicolon,
    Equal,
    NotEqual,
    LessThan,
    LessThanOrEqual,
    GreaterThan,
    GreaterThanOrEqual,
    Asterisk,
    Plus,
    Minus,
    Slash,
    EndOfInput,
}

impl View for Token {
    type V = SpecToken;

    open spec fn view(&self) -> SpecToken {
        match self {
            Token::Select => SpecToken::Select,
            Token::Insert => SpecToken::Insert,
            Token::Update => SpecToken::Update,
            Token::Delete => SpecToken::Delete,
            Token::Create => SpecToken::Create,
            Token::Table => SpecToken::Table,
            Token::From => SpecToken::From,
            Token::Where => SpecToken::Where,
            Token::Into => SpecToken::Into,
            Token::Values => SpecToken::Values,
            Token::SetKeyword => SpecToken::SetKeyword,
            Token::And => SpecToken::And,
            Token::Or => SpecToken::Or,
            Token::Not => SpecToken::Not,
            Token::True => SpecToken::True,
            Token::False => SpecToken::False,
            Token::Null => SpecToken::Null,
            Token::IntegerType => SpecToken::IntegerType,
            Token::BooleanType => SpecToken::BooleanType,
            Token::TextType => SpecToken::TextType,
            Token::Identifier(s) => SpecToken::Identifier(s@),
            Token::Integer(i) => SpecToken::Integer(*i),
            Token::StringLiteral(s) => SpecToken::StringLiteral(s@),
            Token::LeftParen => SpecToken::LeftParen,
            Token::RightParen => SpecToken::RightParen,
            Token::Comma => SpecToken::Comma,
            Token::Semicolon => SpecToken::Semicolon,
            Token::Equal => SpecToken::Equal,
            Token::NotEqual => SpecToken::NotEqual,
            Token::LessThan => SpecToken::LessThan,
            Token::LessThanOrEqual => SpecToken::LessThanOrEqual,
            Token::GreaterThan => SpecToken::GreaterThan,
            Token::GreaterThanOrEqual => SpecToken::GreaterThanOrEqual,
            Token::Asterisk => SpecToken::Asterisk,
            Token::Plus => SpecToken::Plus,
            Token::Minus => SpecToken::Minus,
            Token::Slash => SpecToken::Slash,
            Token::EndOfInput => SpecToken::EndOfInput,
        }
    }
}

/// The contents of a sequence of tokens.
pub open spec fn tokens_view(tokens: Seq<Token>) -> Seq<SpecToken> {
    tokens.map_values(|t: Token| t@)
}

/// How a token is shown in messages: its variant name (the SET keyword
/// shows as `Set`), followed by its content in brackets.
pub open spec fn token_text(t: SpecToken) -> Seq<char> {
    match t {
        SpecToken::Select => "Select"@,
        SpecToken::Insert => "Insert"@,
        SpecToken::Update => "Update"@,
        SpecToken::Delete => "Delete"@,
        SpecToken::Create => "Create"@,
        SpecToken::Table => "Table"@,
        SpecToken::From => "From"@,
        SpecToken::Where => "Where"@,
        SpecToken::Into => "Into"@,
        SpecToken::Values => "Values"@,
        SpecToken::SetKeyword => "Set"@,
        SpecToken::And => "And"@,
        SpecToken::Or => "Or"@,
        SpecToken::Not => "Not"@,
        SpecToken::True => "True"@,
        SpecToken::False => "False"@,
        SpecToken::Null => "Null"@,
        SpecToken::IntegerType => "IntegerType"@,
        SpecToken::BooleanType => "BooleanType"@,
        SpecToken::TextType => "TextType"@,
        SpecToken::LeftParen => "LeftParen"@,
        SpecToken::RightParen => "RightParen"@,
        SpecToken::Comma => "Comma"@,
        SpecToken::Semicolon => "Semicolon"@,
        SpecToken::Equal => "Equal"@,
        SpecToken::NotEqual => "NotEqual"@,
        SpecToken::LessThan => "LessThan"@,
        SpecToken::LessThanOrEqual => "LessThanOrEqual"@,
        SpecToken::GreaterThan => "GreaterThan"@,
        SpecToken::GreaterThanOrEqual => "GreaterThanOrEqual"@,
        SpecToken::Asterisk => "Asterisk"@,
        SpecToken::Plus => "Plus"@,
        SpecToken::Minus => "Minus"@,
        SpecToken::Slash => "Slash"@,
        SpecToken::EndOfInput => "EndOfInput"@,
        SpecToken::Identifier(name) => "Identifier("@ + debug_quoted(name) + ")"@,
        SpecToken::Integer(i) => "Integer("@ + signed_decimal(i as int) + ")"@,
        SpecToken::StringLiteral(text) => "StringLiteral("@ + debug_quoted(text) + ")"@,
    }
}

impl Token {
    /// The token as it is shown in messages.
    pub fn describe(&self) -> (r: String)
        ensures
            r@ == token_text(self@),
    {
        let mut s = String::new();
        match self {
            Token::Select => push_str(&mut s, "Select"),
            Token::Insert => push_str(&mut s, "Insert"),
            Token::Update => push_str(&mut s, "Update"),
            Token::Delete => push_str(&mut s, "Delete"),
            Token::Create => push_str(&mut s, "Create"),
            Token::Table => push_str(&mut s, "Table"),
            Token::From => push_str(&mut s, "From"),
            Token::Where => push_str(&mut s, "Where"),
            Token::Into => push_str(&mut s, "Into"),
            Token::Values => push_str(&mut s, "Values"),
            Token::SetKeyword => push_str(&mut s, "Set"),
            Token::And => push_str(&mut s, "And"),
            Token::Or => push_str(&mut s, "Or"),
            Token::Not => push_str(&mut s, "Not"),
            Token::True => push_str(&mut s, "True"),
            Token::False => push_str(&mut s, "False"),
            Token::Null => push_str(&mut s, "Null"),
            Token::IntegerType => push_str(&mut s, "IntegerType"),
            Token::BooleanType => push_str(&mut s, "BooleanType"),
            Token::TextType => push_str(&mut s, "TextType"),
            Token::LeftParen => push_str(&mut s, "LeftParen"),
            Token::RightParen => push_str(&mut s, "RightParen"),
            Token::Comma => push_str(&mut s, "Comma"),
            Token::Semicolon => push_str(&mut s, "Semicolon"),
            Token::Equal => push_str(&mut s, "Equal"),
            Token::NotEqual => push_str(&mut s, "NotEqual"),
            Token::LessThan => push_str(&mut s, "LessThan"),
            Token::LessThanOrEqual => push_str(&mut s, "LessThanOrEqual"),
            Token::GreaterThan => push_str(&mut s, "GreaterThan"),
            Token::GreaterThanOrEqual => push_str(&mut s, "GreaterThanOrEqual"),
            Token::Asterisk => push_str(&mut s, "Asterisk"),
            Token::Plus => push_str(&mut s, "Plus"),
            Token::Minus => push_str(&mut s, "Minus"),
            Token::Slash => push_str(&mut s, "Slash"),
            Token::EndOfInput => push_str(&mut s, "EndOfInput"),
            Token::Identifier(name) => {
                push_str(&mut s, "Identifier(");
                push_str(&mut s, debug_text(name.as_str()).as_str());
                push_str(&mut s, ")");
            },
            Token::Integer(i) => {
                push_str(&mut s, "Integer(");
                push_signed(&mut s, *i);
                push_str(&mut s, ")");
            },
            Token::StringLiteral(text) => {
                push_str(&mut s, "StringLiteral(");
                push_str(&mut s, debug_text(text.as_str()).as_str());
                push_str(&mut s, ")");
            },
        }
        s
    }
}

impl Clone for Token {
    fn clone(&self) -> (r: Self)
        ensures
            r@ == self@,
    {
        match self {
            Token::Select => Token::Select,
            Token::Insert => Token::Insert,
            Token::Update => Token::Update,
            Token::Delete => Token::Delete,
            Token::Create => Token::Create,
            Token::Table => Token::Table,
            Token::From => Token::From,
            Token::Where => Token::Where,
            Token::Into => Token::Into,
            Token::Values => Token::Values,
            Token::SetKeyword => Token::SetKeyword,
            Token::And => Token::And,
            Token::Or => Token::Or,
            Token::Not => Token::Not,
            Token::True => Token::True,
            Token::False => Token::False,
            Token::Null => Token::Null,
            Token::IntegerType => Token::IntegerType,
            Token::BooleanType => Token::BooleanType,
            Token::TextType => Token::TextType,
            Token::Identifier(s) => Token::Identifier(s.clone()),
            Token::Integer(i) => Token::Integer(*i),
            Token::StringLiteral(s) => Token::StringLiteral(s.clone()),
            Token::LeftParen => Token::LeftParen,
            Token::RightParen => Token::RightParen,
            Token::Comma => Token::Comma,
            Token::Semicolon => Token::Semicolon,
            Token::Equal => Token::Equal,
            Token::NotEqual => Token::NotEqual,
            Token::LessThan => Token::LessThan,
            Token::LessThanOrEqual => Token::LessThanOrEqual,
            Token::GreaterThan => Token::GreaterThan,
            Token::GreaterThanOrEqual => Token::GreaterThanOrEqual,
            Token::Asterisk => Token::Asterisk,
            Token::Plus => Token::Plus,
            Token::Minus => Token::Minus,
            Token::Slash => Token::Slash,
            Token::EndOfInput => Token::EndOfInput,
        }
    }
}

impl Token {
    /// Whether two tokens are the same token.
    pub fn same_as(&self, other: &Token) -> (r: bool)
        ensures
            r == (self@ == other@),
    {
        match (self, other) {
            (Token::Identifier(a), Token::Identifier(b)) => *a == *b,
            (Token::StringLiteral(a), Token::StringLiteral(b)) => *a == *b,
            (Token::Integer(a), Token::Integer(b)) => *a == *b,
            (Token::Identifier(_), _) | (_, Token::Identifier(_)) => false,
            (Token::StringLiteral(_), _) | (_, Token::StringLiteral(_)) => false,
            (Token::Integer(_), _) | (_, Token::Integer(_)) => false,
            _ => self.tag() == other.tag(),
        }
    }

    /// A number that tells the variants apart.
    fn tag(&self) -> (r: u8)
        ensures
            r == self.tag_spec(),
    {
        match self {
            Token::Select => 0,
            Token::Insert => 1,
            Token::Update => 2,
            Token::Delete => 3,
            Token::Create => 4,
            Token::Table => 5,
            Token::From => 6,
            Token::Where => 7,
            Token::Into => 8,
            Token::Values => 9,
            Token::SetKeyword => 10,
            Token::And => 11,
            Token::Or => 12,
            Token::Not => 13,
            Token::True => 14,
            Token::False => 15,
            Token::Null => 16,
            Token::IntegerType => 17,
            Token::BooleanType => 18,
            Token::TextType => 19,
            Token::Identifier(_) => 20,
            Token::Integer(_) => 21,
            Token::StringLiteral(_) => 22,
            Token::LeftParen => 23,
            Token::RightParen => 24,
            Token::Comma => 25,
            Token::Semicolon => 26,
            Token::Equal => 27,
            Token::NotEqual => 28,
            Token::LessThan => 29,
            Token::LessThanOrEqual => 30,
            Token::GreaterThan => 31,
            Token::GreaterThanOrEqual => 32,
            Token::Asterisk => 33,
            Token::Plus => 34,
            Token::Minus => 35,
            Token::Slash => 36,
            Token::EndOfInput => 37,
        }
    }

    /// The number of the variant.
    pub open spec fn tag_spec(&self) -> u8 {
        match self {
            Token::Select => 0,
            Token::Insert => 1,
            Token::Update => 2,
            Token::Delete => 3,
            Token::Create => 4,
            Token::Table => 5,
            Token::From => 6,
            Token::Where => 7,
            Token::Into => 8,
            Token::Values => 9,
            Token::SetKeyword => 10,
            Token::And => 11,
            Token::Or => 12,
            Token::Not => 13,
            Token::True => 14,
            Token::False => 15,
            Token::Null => 16,
            Token::IntegerType => 17,
            Token::BooleanType => 18,
            Token::TextType => 19,
            Token::Identifier(_) => 20,
            Token::Integer(_) => 21,
            Token::StringLiteral(_) => 22,
            Token::LeftParen => 23,
            Token::RightParen => 24,
            Token::Comma => 25,
            Token::Semicolon => 26,
            Token::Equal => 27,
            Token::NotEqual => 28,
            Token::LessThan => 29,
            Token::LessThanOrEqual => 30,
            Token::GreaterThan => 31,
            Token::GreaterThanOrEqual => 32,
            Token::Asterisk => 33,
            Token::Plus => 34,
            Token::Minus => 35,
            Token::Slash => 36,
            Token::EndOfInput => 37,
        }
    }
}

} // verus!
