use super::token::{SpecToken, Token};
use crate::text::{decimal, push_char, push_decimal, push_str};
use vstd::prelude::*;

verus! {

/// A problem that stops the source text from being split into tokens.
#[derive(Debug, Clone, PartialEq, Eq)]
pub enum LexError {
    UnterminatedString { position: usize },
    InvalidInteger { literal: String, position: usize },
    UnexpectedCharacter { character: char, position: usize },
}

pub type LexerError = LexError;

/// The content of a lexing error.
pub enum SpecLexError {
    UnterminatedString { position: usize },
    InvalidInteger { literal: Seq<char>, position: usize },
    UnexpectedCharacter { character: char, position: usize },
}

impl View for LexError {
    type V = SpecLexError;

    open spec fn view(&self) -> SpecLexError {
        match self {
            LexError::UnterminatedString { position } => SpecLexError::UnterminatedString {
                position: *position,
            },
            LexError::InvalidInteger { literal, position } => SpecLexError::InvalidInteger {
                literal: literal@,
                position: *position,
            },
            LexError::UnexpectedCharacter { character, position } => SpecLexError::UnexpectedCharacter {
                character: *character,
                position: *position,
            },
        }
    }
}

/// The text that describes a lexing error to a person.
pub open spec fn lex_message(e: SpecLexError) -> Seq<char> {
    match e {
        SpecLexError::UnterminatedString { position } => "unterminated string starting at character "@
            + decimal(position as nat),
        SpecLexError::InvalidInteger { literal, position } => "integer '"@ + literal + "' at character "@
            + decimal(position as nat) + " is outside the i64 range"@,
        SpecLexError::UnexpectedCharacter { character, position } => "unexpected character '"@
            + seq![character] + "' at character "@ + decimal(position as nat),
    }
}

impl LexError {
    /// The text that describes this error to a person.
    pub fn message(&self) -> (r: String)
        ensures
            r@ == lex_message(self@),
    {
        let mut s = String::new();
        match self {
            LexError::UnterminatedString { position } => {
                push_str(&mut s, "unterminated string starting at character ");
                push_decimal(&mut s, *position as u64);
            },
            LexError::InvalidInteger { literal, position } => {
                push_str(&mut s, "integer '");
                push_str(&mut s, literal.as_str());
                push_str(&mut s, "' at character ");
                push_decimal(&mut s, *position as u64);
                push_str(&mut s, " is outside the i64 range");
            },
            LexError::UnexpectedCharacter { character, position } => {
                push_str(&mut s, "unexpected character '");
                push_char(&mut s, *character);
                push_str(&mut s, "' at character ");
                push_decimal(&mut s, *position as u64);
            },
        }
        s
    }
}

/// Unicode white space, as `char::is_whitespace` defines it (the White_Space property).
pub open spec fn is_ws(c: char) -> bool {
    let u = c as u32;
    (0x09 <= u <= 0x0d) || u == 0x20 || u == 0x85 || u == 0xa0 || u == 0x1680 || (0x2000 <= u
        <= 0x200a) || u == 0x2028 || u == 0x2029 || u == 0x202f || u == 0x205f || u == 0x3000
}

pub open spec fn is_alpha(c: char) -> bool {
    ('a' <= c <= 'z') || ('A' <= c <= 'Z')
}

pub open spec fn is_digit(c: char) -> bool {
    '0' <= c <= '9'
}

/// A character that may continue a word: a letter, a digit or `_`.
pub open spec fn is_word_char(c: char) -> bool {
    is_alpha(c) || is_digit(c) || c == '_'
}

/// The first position at or after `pos` that is not white space.
pub open spec fn skip_ws(input: Seq<char>, pos: int) -> int
    decreases input.len() - pos,
{
    if 0 <= pos < input.len() && is_ws(input[pos]) {
        skip_ws(input, pos + 1)
    } else {
        pos
    }
}

/// The end of the run of word characters that starts at `pos`.
pub open spec fn word_end(input: Seq<char>, pos: int) -> int
    decreases input.len() - pos,
{
    if 0 <= pos < input.len() && is_word_char(input[pos]) {
        word_end(input, pos + 1)
    } else {
        pos
    }
}

/// The end of the run of digits that starts at `pos`.
pub open spec fn digits_end(input: Seq<char>, pos: int) -> int
    decreases input.len() - pos,
{
    if 0 <= pos < input.len() && is_digit(input[pos]) {
        digits_end(input, pos + 1)
    } else {
        pos
    }
}

/// The number written by the decimal digits `s`.
pub open spec fn digits_value(s: Seq<char>) -> nat
    decreases s.len(),
{
    if s.len() == 0 {
        0
    } else {
        10 * digits_value(s.drop_last()) + ((s.last() as u32) - ('0' as u32)) as nat
    }
}

/// The ASCII upper-case form of a character.
pub open spec fn upper(c: char) -> char {
    if 'a' <= c <= 'z' {
        ((c as u32) - 32) as char
    } else {
        c
    }
}

pub open spec fn upper_seq(s: Seq<char>) -> Seq<char> {
    s.map_values(|c: char| upper(c))
}

/// The keyword token that a word names, ignoring case.
pub open spec fn keyword(word: Seq<char>) -> Option<SpecToken> {
    let w = upper_seq(word);
    if w == seq!['S', 'E', 'L', 'E', 'C', 'T'] {
        Some(SpecToken::Select)
    } else if w == seq!['I', 'N', 'S', 'E', 'R', 'T'] {
        Some(SpecToken::Insert)
    } else if w == seq!['U', 'P', 'D', 'A', 'T', 'E'] {
        Some(SpecToken::Update)
    } else if w == seq!['D', 'E', 'L', 'E', 'T', 'E'] {
        Some(SpecToken::Delete)
    } else if w == seq!['C', 'R', 'E', 'A', 'T', 'E'] {
        Some(SpecToken::Create)
    } else if w == seq!['T', 'A', 'B', 'L', 'E'] {
        Some(SpecToken::Table)
    } else if w == seq!['F', 'R', 'O', 'M'] {
        Some(SpecToken::From)
    } else if w == seq!['W', 'H', 'E', 'R', 'E'] {
        Some(SpecToken::Where)
    } else if w == seq!['I', 'N', 'T', 'O'] {
        Some(SpecToken::Into)
    } else if w == seq!['V', 'A', 'L', 'U', 'E', 'S'] {
        Some(SpecToken::Values)
    } else if w == seq!['S', 'E', 'T'] {
        Some(SpecToken::SetKeyword)
    } else if w == seq!['A', 'N', 'D'] {
        Some(SpecToken::And)
    } else if w == seq!['O', 'R'] {
        Some(SpecToken::Or)
    } else if w == seq!['N', 'O', 'T'] {
        Some(SpecToken::Not)
    } else if w == seq!['T', 'R', 'U', 'E'] {
        Some(SpecToken::True)
    } else if w == seq!['F', 'A', 'L', 'S', 'E'] {
        Some(SpecToken::False)
    } else if w == seq!['N', 'U', 'L', 'L'] {
        Some(SpecToken::Null)
    } else if w == seq!['I', 'N', 'T', 'E', 'G', 'E', 'R'] {
        Some(SpecToken::IntegerType)
    } else if w == seq!['B', 'O', 'O', 'L', 'E', 'A', 'N'] {
        Some(SpecToken::BooleanType)
    } else if w == seq!['T', 'E', 'X', 'T'] {
        Some(SpecToken::TextType)
    } else {
        None
    }
}

/// Keywords ignore case: two words that differ only in the case of ASCII
/// letters name the same keyword, or none.
pub proof fn lemma_keywords_ignore_case(a: Seq<char>, b: Seq<char>)
    requires
        upper_seq(a) == upper_seq(b),
    ensures
        keyword(a) == keyword(b),
{
}

/// The token for a word: a keyword, or else an identifier that keeps its case.
pub open spec fn word_token(word: Seq<char>) -> SpecToken {
    match keyword(word) {
        Some(t) => t,
        None => SpecToken::Identifier(word),
    }
}

/// The text of a string literal whose body starts at `pos` (after the opening
/// quote), with `''` standing for one quote, and the position after the
/// closing quote; `None` when the literal is not closed.
pub open spec fn scan_string(input: Seq<char>, pos: int, acc: Seq<char>) -> Option<(Seq<char>, int)>
    decreases input.len() - pos,
{
    if pos < 0 || pos >= input.len() {
        None
    } else if input[pos] != '\'' {
        scan_string(input, pos + 1, acc.push(input[pos]))
    } else if pos + 1 < input.len() && input[pos + 1] == '\'' {
        scan_string(input, pos + 2, acc.push('\''))
    } else {
        Some((acc, pos + 1))
    }
}

/// The character at `pos`, if there is one.
pub open spec fn char_at(input: Seq<char>, pos: int) -> Option<char> {
    if 0 <= pos < input.len() {
        Some(input[pos])
    } else {
        None
    }
}

/// The operator or punctuation token that starts with `c` at `p`.
pub open spec fn symbol_token(input: Seq<char>, p: int, c: char) -> Result<(SpecToken, int), SpecLexError> {
    let next = char_at(input, p + 1);
    if c == '(' {
        Ok((SpecToken::LeftParen, p + 1))
    } else if c == ')' {
        Ok((SpecToken::RightParen, p + 1))
    } else if c == ',' {
        Ok((SpecToken::Comma, p + 1))
    } else if c == ';' {
        Ok((SpecToken::Semicolon, p + 1))
    } else if c == '=' {
        Ok((SpecToken::Equal, p + 1))
    } else if c == '!' && next == Some('=') {
        Ok((SpecToken::NotEqual, p + 2))
    } else if c == '<' && next == Some('>') {
        Ok((SpecToken::NotEqual, p + 2))
    } else if c == '<' && next == Some('=') {
        Ok((SpecToken::LessThanOrEqual, p + 2))
    } else if c == '<' {
        Ok((SpecToken::LessThan, p + 1))
    } else if c == '>' && next == Some('=') {
        Ok((SpecToken::GreaterThanOrEqual, p + 2))
    } else if c == '>' {
        Ok((SpecToken::GreaterThan, p + 1))
    } else if c == '*' {
        Ok((SpecToken::Asterisk, p + 1))
    } else if c == '+' {
        Ok((SpecToken::Plus, p + 1))
    } else if c == '-' {
        Ok((SpecToken::Minus, p + 1))
    } else if c == '/' {
        Ok((SpecToken::Slash, p + 1))
    } else {
        Err(SpecLexError::UnexpectedCharacter { character: c, position: p as usize })
    }
}

/// The token that starts at or after `pos` (after white space), and the
/// position just after it.
pub open spec fn lex_token(input: Seq<char>, pos: int) -> Result<(SpecToken, int), SpecLexError> {
    let p = skip_ws(input, pos);
    if p < 0 || p >= input.len() {
        Ok((SpecToken::EndOfInput, p))
    } else {
        let c = input[p];
        if is_alpha(c) || c == '_' {
            let e = word_end(input, p);
            Ok((word_token(input.subrange(p, e)), e))
        } else if is_digit(c) {
            let e = digits_end(input, p);
            let literal = input.subrange(p, e);
            if digits_value(literal) <= i64::MAX {
                Ok((SpecToken::Integer(digits_value(literal) as i64), e))
            } else {
                Err(SpecLexError::InvalidInteger { literal, position: p as usize })
            }
        } else if c == '\'' {
            match scan_string(input, p + 1, Seq::empty()) {
                Some((text, e)) => Ok((SpecToken::StringLiteral(text), e)),
                None => Err(SpecLexError::UnterminatedString { position: p as usize }),
            }
        } else {
            symbol_token(input, p, c)
        }
    }
}

/// All tokens from `pos` on, ending with `EndOfInput`, or the first error.
pub open spec fn lex_all(input: Seq<char>, pos: int) -> Result<Seq<SpecToken>, SpecLexError>
    decreases input.len() - pos,
{
    match lex_token(input, pos) {
        Err(e) => Err(e),
        Ok((t, p)) => if t is EndOfInput || !(pos < p <= input.len()) {
            Ok(seq![t])
        } else {
            match lex_all(input, p) {
                Ok(rest) => Ok(seq![t] + rest),
                Err(e) => Err(e),
            }
        },
    }
}


/// Skipping white space never moves back.
proof fn lemma_skip_ws_forward(input: Seq<char>, pos: int)
    requires
        0 <= pos,
    ensures
        pos <= skip_ws(input, pos),
    decreases input.len() - pos,
{
    if 0 <= pos < input.len() && is_ws(input[pos]) {
        lemma_skip_ws_forward(input, pos + 1);
    }
}

/// A run of word characters ends inside the input.
proof fn lemma_word_end_bound(input: Seq<char>, pos: int)
    requires
        0 <= pos <= input.len(),
    ensures
        pos <= word_end(input, pos) <= input.len(),
    decreases input.len() - pos,
{
    if pos < input.len() && is_word_char(input[pos]) {
        lemma_word_end_bound(input, pos + 1);
    }
}

/// A run of digits ends inside the input.
proof fn lemma_digits_end_bound(input: Seq<char>, pos: int)
    requires
        0 <= pos <= input.len(),
    ensures
        pos <= digits_end(input, pos) <= input.len(),
    decreases input.len() - pos,
{
    if pos < input.len() && is_digit(input[pos]) {
        lemma_digits_end_bound(input, pos + 1);
    }
}

/// A closed string literal ends after its body starts and inside the input.
proof fn lemma_scan_string_bound(input: Seq<char>, pos: int, acc: Seq<char>)
    requires
        scan_string(input, pos, acc) is Some,
    ensures
        scan_string(input, pos, acc) matches Some((_, e)) && pos < e <= input.len(),
    decreases input.len() - pos,
{
    if pos < 0 || pos >= input.len() {
    } else if input[pos] != '\'' {
        lemma_scan_string_bound(input, pos + 1, acc.push(input[pos]));
    } else if pos + 1 < input.len() && input[pos + 1] == '\'' {
        lemma_scan_string_bound(input, pos + 2, acc.push('\''));
    }
}

/// Every token but the end of input consumes at least one character.
proof fn lemma_token_progress(input: Seq<char>, pos: int)
    requires
        0 <= pos,
        lex_token(input, pos) matches Ok((t, _)) && !(t is EndOfInput),
    ensures
        lex_token(input, pos) matches Ok((_, p)) && pos < p <= input.len(),
{
    lemma_skip_ws_forward(input, pos);
    let p = skip_ws(input, pos);
    let c = input[p];
    if is_alpha(c) || c == '_' {
        lemma_word_end_bound(input, p + 1);
    } else if is_digit(c) {
        lemma_digits_end_bound(input, p + 1);
    } else if c == '\'' {
        lemma_scan_string_bound(input, p + 1, Seq::empty());
    }
}

/// An ASCII letter, an ASCII digit or `_`: the characters a word is made of.
pub open spec fn ascii_word_char(c: char) -> bool {
    ('a' <= c && c <= 'z') || ('A' <= c && c <= 'Z') || ('0' <= c && c <= '9') || c == '_'
}

/// The run of word characters from `pos` ends inside the input, holds only
/// word characters, and stops before a character that is not one.
proof fn lemma_word_end_maximal(input: Seq<char>, pos: int)
    requires
        0 <= pos <= input.len(),
    ensures
        pos <= word_end(input, pos) <= input.len(),
        forall|k: int| pos <= k < word_end(input, pos) ==> ascii_word_char(#[trigger] input[k]),
        word_end(input, pos) < input.len() ==> !ascii_word_char(input[word_end(input, pos)]),
    decreases input.len() - pos,
{
    if pos < input.len() && is_word_char(input[pos]) {
        lemma_word_end_maximal(input, pos + 1);
    }
}

/// A word runs over every following ASCII letter, digit and `_`: the token
/// that starts with a letter or `_` at `pos` ends at the first character that
/// is none of these (or at the end of the input), every character it covers is
/// one of them, and a word that is no keyword is an identifier spelled as
/// written.
pub proof fn lemma_word_is_maximal(input: Seq<char>, pos: int)
    requires
        0 <= pos < input.len(),
        ('a' <= input[pos] && input[pos] <= 'z') || ('A' <= input[pos] && input[pos] <= 'Z') || input[pos]
            == '_',
    ensures
        lex_token(input, pos) matches Ok((t, e)) && {
            &&& pos < e <= input.len()
            &&& forall|k: int| pos <= k < e ==> ascii_word_char(#[trigger] input[k])
            &&& e < input.len() ==> !ascii_word_char(input[e])
            &&& t is Identifier ==> t->Identifier_0 == input.subrange(pos, e)
        },
{
    assert(!is_ws(input[pos]));
    assert(skip_ws(input, pos) == pos);
    lemma_word_end_maximal(input, pos + 1);
}

/// An ASCII digit.
pub open spec fn ascii_digit(c: char) -> bool {
    '0' <= c && c <= '9'
}

/// The run of digits from `pos` ends inside the input, holds only digits, and
/// stops before a character that is no digit.
proof fn lemma_digits_end_maximal(input: Seq<char>, pos: int)
    requires
        0 <= pos <= input.len(),
    ensures
        pos <= digits_end(input, pos) <= input.len(),
        forall|k: int| pos <= k < digits_end(input, pos) ==> ascii_digit(#[trigger] input[k]),
        digits_end(input, pos) < input.len() ==> !ascii_digit(input[digits_end(input, pos)]),
    decreases input.len() - pos,
{
    if pos < input.len() && is_digit(input[pos]) {
        lemma_digits_end_maximal(input, pos + 1);
    }
}

/// Digits that do not start with `0` name a positive number.
proof fn lemma_digits_value_positive(s: Seq<char>)
    requires
        s.len() >= 1,
        forall|k: int| 0 <= k < s.len() ==> ascii_digit(#[trigger] s[k]),
        s[0] != '0',
    ensures
        digits_value(s) >= 1,
    decreases s.len(),
{
    if s.len() > 1 {
        let init = s.drop_last();
        assert forall|k: int| 0 <= k < init.len() implies ascii_digit(#[trigger] init[k]) by {
            assert(init[k] == s[k]);
        }
        lemma_digits_value_positive(init);
    }
}

/// The number that digits without a leading `0` name is written back as
/// exactly those digits.
proof fn lemma_digits_print_back(s: Seq<char>)
    requires
        s.len() >= 1,
        forall|k: int| 0 <= k < s.len() ==> ascii_digit(#[trigger] s[k]),
        s[0] != '0',
    ensures
        decimal(digits_value(s)) == s,
    decreases s.len(),
{
    let init = s.drop_last();
    let c = s.last();
    let d = ((c as u32) - ('0' as u32)) as nat;
    assert(ascii_digit(c));
    assert(d < 10);
    assert(crate::text::digit_char(d) == c);
    if s.len() == 1 {
        assert(digits_value(init) == 0);
        assert(digits_value(s) == d);
        assert(d >= 1);
        assert(decimal(d) =~= seq![c]);
        assert(s =~= seq![c]);
    } else {
        assert forall|k: int| 0 <= k < init.len() implies ascii_digit(#[trigger] init[k]) by {
            assert(init[k] == s[k]);
        }
        lemma_digits_print_back(init);
        lemma_digits_value_positive(init);
        let x = digits_value(init);
        let n = digits_value(s);
        assert(n == 10 * x + d);
        assert(n / 10 == x && n % 10 == d) by (nonlinear_arith)
            requires
                n == 10 * x + d,
                d < 10,
                x >= 1,
        ;
        assert(n >= 10);
        assert(decimal(n) == decimal(x).push(crate::text::digit_char(d)));
        assert(init.push(c) =~= s);
    }
}

/// An integer literal runs over every following digit. When it does not start
/// with `0`, the number it gives is written back as exactly those digits, and
/// a literal too large for 64 bits is refused with its text and position.
pub proof fn lemma_integer_literal(input: Seq<char>, pos: int)
    requires
        0 <= pos < input.len() <= usize::MAX,
        ascii_digit(input[pos]),
    ensures
        ({
            let e = digits_end(input, pos);
            &&& pos < e <= input.len()
            &&& forall|k: int| pos <= k < e ==> ascii_digit(#[trigger] input[k])
            &&& e < input.len() ==> !ascii_digit(input[e])
            &&& match lex_token(input, pos) {
                Ok((SpecToken::Integer(v), p)) => p == e && v >= 0 && (input[pos] != '0' ==> decimal(
                    v as nat,
                ) == input.subrange(pos, e)),
                Err(SpecLexError::InvalidInteger { literal, position }) => position == pos && literal
                    == input.subrange(pos, e) && (input[pos] != '0' ==> exists|n: nat|
                    n > i64::MAX && #[trigger] decimal(n) == literal),
                _ => false,
            }
        }),
{
    assert(!is_ws(input[pos]));
    assert(skip_ws(input, pos) == pos);
    lemma_digits_end_maximal(input, pos);
    let e = digits_end(input, pos);
    let lit = input.subrange(pos, e);
    if input[pos] != '0' {
        assert forall|k: int| 0 <= k < lit.len() implies ascii_digit(#[trigger] lit[k]) by {
            assert(lit[k] == input[pos + k]);
        }
        lemma_digits_print_back(lit);
        let n = digits_value(lit);
        assert(decimal(n) == lit);
        if n > i64::MAX {
            assert(lex_token(input, pos) == Err::<(SpecToken, int), SpecLexError>(
                SpecLexError::InvalidInteger { literal: lit, position: pos as usize },
            ));
        } else {
            assert(lex_token(input, pos) == Ok::<(SpecToken, int), SpecLexError>((SpecToken::Integer(n as i64), e)));
            assert((n as i64) as nat == n);
        }
    }
}

/// How text is written inside a string literal: every quote doubled.
pub open spec fn doubled_quotes(text: Seq<char>) -> Seq<char>
    decreases text.len(),
{
    if text.len() == 0 {
        Seq::empty()
    } else if text[0] == '\'' {
        seq!['\'', '\''] + doubled_quotes(text.drop_first())
    } else {
        seq![text[0]] + doubled_quotes(text.drop_first())
    }
}

/// A closed literal body from `p`: the text read after `acc` is written in
/// the input, quotes doubled, up to the closing quote.
proof fn lemma_scan_string_text(input: Seq<char>, p: int, acc: Seq<char>)
    requires
        0 <= p,
        scan_string(input, p, acc) is Some,
    ensures
        ({
            let (text, e) = scan_string(input, p, acc)->0;
            &&& p < e <= input.len()
            &&& acc.len() <= text.len()
            &&& text.subrange(0, acc.len() as int) == acc
            &&& input.subrange(p, e) == doubled_quotes(text.subrange(acc.len() as int, text.len() as int)).push(
                '\'',
            )
        }),
    decreases input.len() - p,
{
    let (text, e) = scan_string(input, p, acc)->0;
    if input[p] != '\'' {
        let a2 = acc.push(input[p]);
        lemma_scan_string_text(input, p + 1, a2);
        let rest = text.subrange(a2.len() as int, text.len() as int);
        let mine = text.subrange(acc.len() as int, text.len() as int);
        assert(text.subrange(0, acc.len() as int) =~= text.subrange(0, a2.len() as int).drop_last());
        assert(text[acc.len() as int] == text.subrange(0, a2.len() as int)[acc.len() as int]);
        assert(a2[acc.len() as int] == input[p]);
        assert(mine[0] == input[p]);
        assert(mine.drop_first() =~= rest);
        assert(doubled_quotes(mine) == seq![input[p]] + doubled_quotes(rest));
        assert(input.subrange(p, e) =~= seq![input[p]] + input.subrange(p + 1, e));
    } else if p + 1 < input.len() && input[p + 1] == '\'' {
        let a2 = acc.push('\'');
        lemma_scan_string_text(input, p + 2, a2);
        let rest = text.subrange(a2.len() as int, text.len() as int);
        let mine = text.subrange(acc.len() as int, text.len() as int);
        assert(text.subrange(0, acc.len() as int) =~= text.subrange(0, a2.len() as int).drop_last());
        assert(text[acc.len() as int] == text.subrange(0, a2.len() as int)[acc.len() as int]);
        assert(a2[acc.len() as int] == '\'');
        assert(mine[0] == '\'');
        assert(mine.drop_first() =~= rest);
        assert(doubled_quotes(mine) == seq!['\'', '\''] + doubled_quotes(rest));
        assert(input.subrange(p, e) =~= seq!['\'', '\''] + input.subrange(p + 2, e));
    } else {
        assert(text.subrange(acc.len() as int, text.len() as int) =~= Seq::<char>::empty());
        assert(input.subrange(p, e) =~= seq!['\'']);
        assert(text.subrange(0, acc.len() as int) =~= acc);
    }
}

/// A string literal that starts with a quote at `pos` is either refused as
/// unterminated, or gives the text whose quoted form, every quote doubled,
/// is exactly what the input holds from the opening to the closing quote.
pub proof fn lemma_string_literal(input: Seq<char>, pos: int)
    requires
        0 <= pos < input.len() <= usize::MAX,
        input[pos] == '\'',
    ensures
        match lex_token(input, pos) {
            Ok((SpecToken::StringLiteral(text), e)) => pos < e <= input.len() && input.subrange(pos, e)
                == seq!['\''] + doubled_quotes(text).push('\''),
            Err(SpecLexError::UnterminatedString { position }) => position == pos,
            _ => false,
        },
{
    assert(!is_ws(input[pos]));
    assert(skip_ws(input, pos) == pos);
    if scan_string(input, pos + 1, Seq::empty()) is Some {
        lemma_scan_string_text(input, pos + 1, Seq::empty());
        let (text, e) = scan_string(input, pos + 1, Seq::empty())->0;
        assert(text.subrange(0, text.len() as int) =~= text);
        assert(input.subrange(pos, e) =~= seq!['\''] + input.subrange(pos + 1, e));
    }
}

/// The decimal form of a number is made of digits and reads back as it.
proof fn lemma_decimal_reads_back(n: nat)
    ensures
        decimal(n).len() >= 1,
        forall|k: int| 0 <= k < decimal(n).len() ==> ascii_digit(#[trigger] decimal(n)[k]),
        digits_value(decimal(n)) == n,
    decreases n,
{
    if n < 10 {
        assert(decimal(n).drop_last() =~= Seq::<char>::empty());
        assert(crate::text::digit_char(n) as u32 == ('0' as u32) + n);
        assert(decimal(n).last() == crate::text::digit_char(n));
        assert(digits_value(decimal(n)) == 10 * digits_value(Seq::<char>::empty()) + n);
    } else {
        assert(crate::text::digit_char(n % 10) as u32 == ('0' as u32) + n % 10);
        lemma_decimal_reads_back(n / 10);
        let d = decimal(n);
        let init = decimal(n / 10);
        assert(d.drop_last() =~= init);
        assert forall|k: int| 0 <= k < d.len() implies ascii_digit(#[trigger] d[k]) by {
            if k < init.len() {
                assert(d[k] == init[k]);
            }
        }
        assert(d.last() == crate::text::digit_char(n % 10));
        assert(((d.last() as u32) - ('0' as u32)) as nat == n % 10);
        assert(digits_value(d) == 10 * digits_value(init) + n % 10);
        assert(n == 10 * (n / 10) + n % 10) by (nonlinear_arith);
    }
}

/// Integers read back: lexing the decimal form of a number that fits 64 bits
/// gives one integer token with that value, covering the whole text.
pub proof fn lemma_integer_text_reads_back(v: i64)
    requires
        v >= 0,
    ensures
        lex_token(decimal(v as nat), 0) == Ok::<(SpecToken, int), SpecLexError>(
            (SpecToken::Integer(v), decimal(v as nat).len() as int),
        ),
{
    let d = decimal(v as nat);
    lemma_decimal_reads_back(v as nat);
    lemma_digits_end_maximal(d, 0);
    assert(ascii_digit(d[0]));
    assert(!is_ws(d[0]));
    assert(skip_ws(d, 0) == 0);
    let e = digits_end(d, 0);
    if e < d.len() {
        assert(ascii_digit(d[e]));
    }
    assert(e == d.len());
    assert(d.subrange(0, e) =~= d);
}

/// The token that writes a non-text literal value in SQL.
pub open spec fn literal_token(v: crate::value::SpecValue) -> SpecToken {
    match v {
        crate::value::SpecValue::Null => SpecToken::Null,
        crate::value::SpecValue::Boolean(true) => SpecToken::True,
        crate::value::SpecValue::Boolean(false) => SpecToken::False,
        crate::value::SpecValue::Integer(i) => SpecToken::Integer(i),
        crate::value::SpecValue::Text(_) => SpecToken::EndOfInput,
    }
}

/// Values read back: the text that shows NULL, a boolean, or an integer that
/// is not negative lexes to the one literal token of that value, covering the
/// whole text.
pub proof fn lemma_shown_value_reads_back(v: crate::value::SpecValue)
    requires
        !(v is Text),
        v matches crate::value::SpecValue::Integer(i) ==> i >= 0,
    ensures
        lex_token(crate::value::value_text(v), 0) == Ok::<(SpecToken, int), SpecLexError>(
            (literal_token(v), crate::value::value_text(v).len() as int),
        ),
{
    let s = crate::value::value_text(v);
    match v {
        crate::value::SpecValue::Integer(i) => {
            lemma_integer_text_reads_back(i);
        },
        crate::value::SpecValue::Null => {
            reveal_strlit("NULL");
            assert(word_end(s, 4) == 4);
            assert(word_end(s, 3) == 4);
            assert(word_end(s, 2) == 4);
            assert(word_end(s, 1) == 4);
            assert(upper_seq(s.subrange(0, 4)) =~= seq!['N', 'U', 'L', 'L']);
        },
        crate::value::SpecValue::Boolean(true) => {
            assert(word_end(s, 4) == 4);
            assert(word_end(s, 3) == 4);
            assert(word_end(s, 2) == 4);
            assert(word_end(s, 1) == 4);
            assert(upper_seq(s.subrange(0, 4)) =~= seq!['T', 'R', 'U', 'E']);
        },
        crate::value::SpecValue::Boolean(false) => {
            assert(word_end(s, 5) == 5);
            assert(word_end(s, 4) == 5);
            assert(word_end(s, 3) == 5);
            assert(word_end(s, 2) == 5);
            assert(word_end(s, 1) == 5);
            assert(upper_seq(s.subrange(0, 5)) =~= seq!['F', 'A', 'L', 'S', 'E']);
        },
        _ => {},
    }
}

/// A successful tokenization (`tokenize` gives `lex_all(input, 0)`) ends with
/// exactly one `EndOfInput`: it is the last token, and no earlier token is one.
pub proof fn lemma_tokens_end_once(input: Seq<char>, pos: int)
    requires
        0 <= pos,
        lex_all(input, pos) is Ok,
    ensures
        ({
            let ts = lex_all(input, pos)->Ok_0;
            &&& ts.len() >= 1
            &&& ts.last() is EndOfInput
            &&& forall|i: int| 0 <= i < ts.len() - 1 ==> !(#[trigger] ts[i] is EndOfInput)
        }),
    decreases input.len() - pos,
{
    if let Ok((t, p)) = lex_token(input, pos) {
        if !(t is EndOfInput) {
            lemma_token_progress(input, pos);
            lemma_tokens_end_once(input, p);
            let rest = lex_all(input, p)->Ok_0;
            let ts = seq![t] + rest;
            assert forall|i: int| 0 <= i < ts.len() - 1 implies !(#[trigger] ts[i] is EndOfInput) by {
                if i > 0 {
                    assert(ts[i] == rest[i - 1]);
                }
            }
        }
    }
}

/// Whether `c` is white space (`char::is_whitespace`).
pub fn is_whitespace(c: char) -> (r: bool)
    ensures
        r == is_ws(c),
{
    let u = c as u32;
    (0x09 <= u && u <= 0x0d) || u == 0x20 || u == 0x85 || u == 0xa0 || u == 0x1680 || (0x2000 <= u
        && u <= 0x200a) || u == 0x2028 || u == 0x2029 || u == 0x202f || u == 0x205f || u == 0x3000
}

/// A string holding the characters `cs`.
pub fn string_from_chars(cs: &[char]) -> (r: String)
    ensures
        r@ == cs@,
{
    let mut s = String::new();
    let mut i: usize = 0;
    while i < cs.len()
        invariant
            i <= cs@.len(),
            s@ == cs@.take(i as int),
        decreases cs@.len() - i,
    {
        crate::text::push_char(&mut s, cs[i]);
        i += 1;
        assert(s@ =~= cs@.take(i as int));
    }
    assert(cs@.take(cs@.len() as int) =~= cs@);
    s
}

fn upper_char(c: char) -> (r: char)
    ensures
        r == upper(c),
{
    if 'a' <= c && c <= 'z' {
        ((c as u8) - 32) as char
    } else {
        c
    }
}

/// Whether the upper-case form of `word` is `keyword`.
fn word_is(word: &[char], kw: &[char]) -> (r: bool)
    ensures
        r == (upper_seq(word@) == kw@),
{
    if word.len() != kw.len() {
        return false;
    }
    let mut i: usize = 0;
    while i < word.len()
        invariant
            word@.len() == kw@.len(),
            i <= word@.len(),
            forall|j: int| 0 <= j < i ==> upper(word@[j]) == kw@[j],
        decreases word@.len() - i,
    {
        if upper_char(word[i]) != kw[i] {
            assert(upper_seq(word@)[i as int] != kw@[i as int]);
            return false;
        }
        i += 1;
    }
    assert(upper_seq(word@) =~= kw@);
    true
}

/// The token for a word: a keyword, or else an identifier.
fn word_to_token(word: &[char]) -> (r: Token)
    ensures
        r@ == word_token(word@),
{
    if word_is(word, &['S', 'E', 'L', 'E', 'C', 'T']) {
        Token::Select
    } else if word_is(word, &['I', 'N', 'S', 'E', 'R', 'T']) {
        Token::Insert
    } else if word_is(word, &['U', 'P', 'D', 'A', 'T', 'E']) {
        Token::Update
    } else if word_is(word, &['D', 'E', 'L', 'E', 'T', 'E']) {
        Token::Delete
    } else if word_is(word, &['C', 'R', 'E', 'A', 'T', 'E']) {
        Token::Create
    } else if word_is(word, &['T', 'A', 'B', 'L', 'E']) {
        Token::Table
    } else if word_is(word, &['F', 'R', 'O', 'M']) {
        Token::From
    } else if word_is(word, &['W', 'H', 'E', 'R', 'E']) {
        Token::Where
    } else if word_is(word, &['I', 'N', 'T', 'O']) {
        Token::Into
    } else if word_is(word, &['V', 'A', 'L', 'U', 'E', 'S']) {
        Token::Values
    } else if word_is(word, &['S', 'E', 'T']) {
        Token::SetKeyword
    } else if word_is(word, &['A', 'N', 'D']) {
        Token::And
    } else if word_is(word, &['O', 'R']) {
        Token::Or
    } else if word_is(word, &['N', 'O', 'T']) {
        Token::Not
    } else if word_is(word, &['T', 'R', 'U', 'E']) {
        Token::True
    } else if word_is(word, &['F', 'A', 'L', 'S', 'E']) {
        Token::False
    } else if word_is(word, &['N', 'U', 'L', 'L']) {
        Token::Null
    } else if word_is(word, &['I', 'N', 'T', 'E', 'G', 'E', 'R']) {
        Token::IntegerType
    } else if word_is(word, &['B', 'O', 'O', 'L', 'E', 'A', 'N']) {
        Token::BooleanType
    } else if word_is(word, &['T', 'E', 'X', 'T']) {
        Token::TextType
    } else {
        Token::Identifier(string_from_chars(word))
    }
}


/// Splits SQL source text into tokens.
#[derive(Debug)]
pub struct Lexer {
    input: Vec<char>,
    position: usize,
}

/// A lexing result as plain tokens.
pub open spec fn tokens_result(r: Result<Vec<Token>, LexError>) -> Result<Seq<SpecToken>, SpecLexError> {
    match r {
        Ok(ts) => Ok(super::token::tokens_view(ts@)),
        Err(e) => Err(e@),
    }
}

/// Convenience wrapper for callers that do not need to keep a `Lexer` value.
pub fn tokenize(input: &str) -> (r: Result<Vec<Token>, LexError>)
    ensures
        tokens_result(r) == lex_all(input@, 0),
{
    Lexer::new(input).tokenize()
}

impl Lexer {
    #[verifier::type_invariant]
    spec fn position_in_input(&self) -> bool {
        self.position <= self.input@.len()
    }

    /// The characters being split.
    pub closed spec fn chars(&self) -> Seq<char> {
        self.input@
    }

    /// The position of the next character to read.
    pub closed spec fn pos(&self) -> int {
        self.position as int
    }

    pub fn new(input: &str) -> (r: Self)
        ensures
            r.chars() == input@,
            r.pos() == 0,
    {
        let mut chars: Vec<char> = Vec::new();
        for c in it: input.chars()
            invariant
                chars@ == it.seq().take(it.index() as int),
                it.seq() == input@,
        {
            chars.push(c);
        }
        Lexer { input: chars, position: 0 }
    }

    /// All tokens of the input, ending with `EndOfInput`.
    pub fn tokenize(self) -> (r: Result<Vec<Token>, LexError>)
        ensures
            tokens_result(r) == lex_all(self.chars(), self.pos()),
    {
        let ghost start = self.pos();
        let ghost input = self.chars();
        let mut lexer = self;
        let mut tokens: Vec<Token> = Vec::new();
        loop
            invariant
                lexer.chars() == input,
                input == self.chars(),
                start == self.pos(),
                lex_all(input, start) == match lex_all(input, lexer.pos()) {
                    Ok(rest) => Ok(super::token::tokens_view(tokens@) + rest),
                    Err(e) => Err(e),
                },
            decreases input.len() - lexer.pos(),
        {
            proof {
                use_type_invariant(&lexer);
            }
            let ghost at = lexer.pos();
            let token = match lexer.next_token() {
                Ok(t) => t,
                Err(e) => {
                    assert(lex_all(input, at) == Err::<Seq<SpecToken>, SpecLexError>(e@));
                    return Err(e);
                },
            };
            let is_end = match &token {
                Token::EndOfInput => true,
                _ => false,
            };
            let ghost tv = token@;
            let ghost before = super::token::tokens_view(tokens@);
            tokens.push(token);
            assert(super::token::tokens_view(tokens@) =~= before.push(tv));
            if is_end {
                assert(before.push(tv) =~= before + seq![tv]);
                return Ok(tokens);
            }
            proof {
                use_type_invariant(&lexer);
                assert(at < lexer.pos() <= input.len());
                match lex_all(input, lexer.pos()) {
                    Ok(rest) => {
                        assert(before + (seq![tv] + rest) =~= before.push(tv) + rest);
                    },
                    Err(_) => {},
                }
            }
        }
    }

    fn current_char(&self) -> (r: Option<char>)
        ensures
            r == char_at(self.chars(), self.pos()),
    {
        if self.position < self.input.len() {
            Some(self.input[self.position])
        } else {
            None
        }
    }

    fn peek_char(&self) -> (r: Option<char>)
        ensures
            r == char_at(self.chars(), self.pos() + 1),
    {
        proof {
            use_type_invariant(self);
        }
        if self.position < self.input.len() && self.position + 1 < self.input.len() {
            Some(self.input[self.position + 1])
        } else {
            None
        }
    }

    fn advance(&mut self)
        requires
            old(self).pos() < old(self).chars().len(),
        ensures
            final(self).chars() == old(self).chars(),
            final(self).pos() == old(self).pos() + 1,
    {
        proof {
            use_type_invariant(&*self);
        }
        let n = self.input.len();
        assert(self.position < n);
        self.position = self.position + 1;
    }

    fn skip_whitespace(&mut self)
        ensures
            final(self).chars() == old(self).chars(),
            final(self).pos() == skip_ws(old(self).chars(), old(self).pos()),
            final(self).pos() >= old(self).pos(),
    {
        loop
            invariant
                self.chars() == old(self).chars(),
                self.pos() >= old(self).pos(),
                skip_ws(self.chars(), old(self).pos()) == skip_ws(self.chars(), self.pos()),
            decreases self.chars().len() - self.pos(),
        {
            proof {
                use_type_invariant(&*self);
            }
            match self.current_char() {
                Some(c) => {
                    if is_whitespace(c) {
                        self.advance();
                    } else {
                        return;
                    }
                },
                None => {
                    return;
                },
            }
        }
    }

    fn read_word(&mut self) -> (r: Token)
        requires
            old(self).pos() < old(self).chars().len(),
            is_word_char(old(self).chars()[old(self).pos()]),
        ensures
            final(self).chars() == old(self).chars(),
            final(self).pos() > old(self).pos(),
            final(self).pos() == word_end(old(self).chars(), old(self).pos()),
            r@ == word_token(old(self).chars().subrange(old(self).pos(), final(self).pos())),
    {
        let start = self.position;
        loop
            invariant
                self.chars() == old(self).chars(),
                start == old(self).pos(),
                start <= self.pos(),
                word_end(self.chars(), start as int) == word_end(self.chars(), self.pos()),
                start < self.chars().len(),
                is_word_char(self.chars()[start as int]),
            ensures
                self.pos() == word_end(self.chars(), start as int),
                self.pos() > start,
            decreases self.chars().len() - self.pos(),
        {
            proof {
                use_type_invariant(&*self);
            }
            match self.current_char() {
                Some(c) => {
                    if ('a' <= c && c <= 'z') || ('A' <= c && c <= 'Z') || ('0' <= c && c <= '9')
                        || c == '_' {
                        self.advance();
                    } else {
                        break;
                    }
                },
                None => {
                    break;
                },
            }
        }
        proof {
            use_type_invariant(&*self);
        }
        let word = &self.input.as_slice()[start..self.position];
        word_to_token(word)
    }

    fn read_integer(&mut self) -> (r: Result<Token, LexError>)
        requires
            old(self).pos() < old(self).chars().len(),
            is_digit(old(self).chars()[old(self).pos()]),
        ensures
            final(self).chars() == old(self).chars(),
            final(self).pos() > old(self).pos(),
            final(self).pos() == digits_end(old(self).chars(), old(self).pos()),
            ({
                let literal = old(self).chars().subrange(old(self).pos(), final(self).pos());
                match r {
                    Ok(t) => digits_value(literal) <= i64::MAX && t@ == SpecToken::Integer(
                        digits_value(literal) as i64,
                    ),
                    Err(e) => digits_value(literal) > i64::MAX && e@ == (SpecLexError::InvalidInteger {
                        literal,
                        position: old(self).pos() as usize,
                    }),
                }
            }),
    {
        let start = self.position;
        let mut value: u64 = 0;
        let mut overflow = false;
        loop
            invariant
                self.chars() == old(self).chars(),
                start == old(self).pos(),
                start <= self.pos() <= self.chars().len(),
                start < self.chars().len(),
                is_digit(self.chars()[start as int]),
                digits_end(self.chars(), start as int) == digits_end(self.chars(), self.pos()),
                forall|j: int| start <= j < self.pos() ==> is_digit(#[trigger] self.chars()[j]),
                !overflow ==> value == digits_value(self.chars().subrange(start as int, self.pos()))
                    && value <= i64::MAX,
                overflow ==> digits_value(self.chars().subrange(start as int, self.pos())) > i64::MAX,
            ensures
                self.pos() == digits_end(self.chars(), start as int),
                self.pos() > start,
            decreases self.chars().len() - self.pos(),
        {
            proof {
                use_type_invariant(&*self);
            }
            let ghost at = self.pos();
            match self.current_char() {
                Some(c) => {
                    if '0' <= c && c <= '9' {
                        let digit = (c as u32 - '0' as u32) as u64;
                        let ghost prefix = self.chars().subrange(start as int, at);
                        assert(self.chars().subrange(start as int, at + 1).drop_last() =~= prefix);
                        if !overflow {
                            let next = value as u128 * 10 + digit as u128;
                            if next > i64::MAX as u128 {
                                overflow = true;
                            } else {
                                value = next as u64;
                            }
                        }
                        self.advance();
                    } else {
                        break;
                    }
                },
                None => {
                    break;
                },
            }
        }
        proof {
            use_type_invariant(&*self);
        }
        if overflow {
            let literal = string_from_chars(&self.input.as_slice()[start..self.position]);
            Err(LexError::InvalidInteger { literal, position: start })
        } else {
            Ok(Token::Integer(value as i64))
        }
    }

    fn read_string_literal(&mut self) -> (r: Result<Token, LexError>)
        requires
            old(self).pos() < old(self).chars().len(),
        ensures
            final(self).chars() == old(self).chars(),
            match scan_string(old(self).chars(), old(self).pos() + 1, Seq::empty()) {
                Some((text, e)) => r matches Ok(t) && t@ == SpecToken::StringLiteral(text)
                    && final(self).pos() == e && e > old(self).pos(),
                None => r matches Err(e) && e@ == (SpecLexError::UnterminatedString {
                    position: old(self).pos() as usize,
                }),
            },
    {
        let start = self.position;
        self.advance();
        let mut value: Vec<char> = Vec::new();
        loop
            invariant
                self.chars() == old(self).chars(),
                start == old(self).pos(),
                self.pos() > start,
                scan_string(self.chars(), start + 1, Seq::empty()) == scan_string(
                    self.chars(),
                    self.pos(),
                    value@,
                ),
            decreases self.chars().len() - self.pos(),
        {
            proof {
                use_type_invariant(&*self);
            }
            match self.current_char() {
                None => {
                    return Err(LexError::UnterminatedString { position: start });
                },
                Some(c) => {
                    if c != '\'' {
                        value.push(c);
                        self.advance();
                    } else if self.peek_char() == Some('\'') {
                        value.push('\'');
                        self.advance();
                        self.advance();
                    } else {
                        self.advance();
                        return Ok(Token::StringLiteral(string_from_chars(value.as_slice())));
                    }
                },
            }
        }
    }

    /// The next token, skipping white space first.
    pub fn next_token(&mut self) -> (r: Result<Token, LexError>)
        ensures
            final(self).chars() == old(self).chars(),
            match r {
                Ok(t) => lex_token(old(self).chars(), old(self).pos()) == Ok::<
                    (SpecToken, int),
                    SpecLexError,
                >((t@, final(self).pos())),
                Err(e) => lex_token(old(self).chars(), old(self).pos()) == Err::<
                    (SpecToken, int),
                    SpecLexError,
                >(e@),
            },
            r matches Ok(t) && !(t is EndOfInput) ==> old(self).pos() < final(self).pos(),
    {
        self.skip_whitespace();
        let ghost p = self.pos();
        let c = match self.current_char() {
            Some(c) => c,
            None => {
                return Ok(Token::EndOfInput);
            },
        };
        if ('a' <= c && c <= 'z') || ('A' <= c && c <= 'Z') || c == '_' {
            return Ok(self.read_word());
        }
        if '0' <= c && c <= '9' {
            return self.read_integer();
        }
        if c == '\'' {
            return self.read_string_literal();
        }
        let next = self.peek_char();
        let position = self.position;
        if c == '(' {
            self.advance();
            Ok(Token::LeftParen)
        } else if c == ')' {
            self.advance();
            Ok(Token::RightParen)
        } else if c == ',' {
            self.advance();
            Ok(Token::Comma)
        } else if c == ';' {
            self.advance();
            Ok(Token::Semicolon)
        } else if c == '=' {
            self.advance();
            Ok(Token::Equal)
        } else if c == '!' && next == Some('=') {
            self.advance();
            self.advance();
            Ok(Token::NotEqual)
        } else if c == '<' && next == Some('>') {
            // SQL accepts both `<>` and `!=` for "not equal".
            self.advance();
            self.advance();
            Ok(Token::NotEqual)
        } else if c == '<' && next == Some('=') {
            self.advance();
            self.advance();
            Ok(Token::LessThanOrEqual)
        } else if c == '<' {
            self.advance();
            Ok(Token::LessThan)
        } else if c == '>' && next == Some('=') {
            self.advance();
            self.advance();
            Ok(Token::GreaterThanOrEqual)
        } else if c == '>' {
            self.advance();
            Ok(Token::GreaterThan)
        } else if c == '*' {
            self.advance();
            Ok(Token::Asterisk)
        } else if c == '+' {
            self.advance();
            Ok(Token::Plus)
        } else if c == '-' {
            self.advance();
            Ok(Token::Minus)
        } else if c == '/' {
            self.advance();
            Ok(Token::Slash)
        } else {
            Err(LexError::UnexpectedCharacter { character: c, position })
        }
    }
}

} // verus!
