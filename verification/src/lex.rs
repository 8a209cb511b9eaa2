//! Tokens, and the lexer that reads them from bytes.
use vstd::prelude::*;
use vstd::string::{StrSliceExecFns, StringSliceAdditionalSpecFns};
use crate::number::{digits_value, is_digit, law_reduce_keeps_number, pow10, Decimal};
use crate::value::bytes_eq;
use crate::vhash::ValueHashMap;

verus! {

/// A token, with names and strings held as `S`: as `Vec<u8>` where the lexer
/// hands them out ([`Token`]) and as `Seq<u8>` in contracts
/// ([`TokenModel`]).
#[derive(Debug)]
pub enum Tok<S> {
    // keywords
    And,
    Break,
    Do,
    Else,
    Elseif,
    End,
    False,
    For,
    Function,
    Goto,
    If,
    In,
    Local,
    Nil,
    Not,
    Or,
    Repeat,
    Return,
    Then,
    True,
    Until,
    While,
    /// `+`
    Add,
    /// `-`
    Sub,
    /// `*`
    Mul,
    /// `/`
    Div,
    /// `%`
    Mod,
    /// `^`
    Pow,
    /// `#`
    Len,
    /// `&`
    BitAnd,
    /// `~`
    BitXor,
    /// `|`
    BitOr,
    /// `<<`
    ShiftL,
    /// `>>`
    ShiftR,
    /// `//`
    Idiv,
    /// `==`
    Equal,
    /// `~=`
    NotEq,
    /// `<=`
    LesEq,
    /// `>=`
    GreEq,
    /// `<`
    Less,
    /// `>`
    Greater,
    /// `=`
    Assign,
    /// `(`
    ParL,
    /// `)`
    ParR,
    /// `{`
    CurlyL,
    /// `}`
    CurlyR,
    /// `[`
    SqurL,
    /// `]`
    SqurR,
    /// `::`
    DoubColon,
    /// `;`
    SemiColon,
    /// `:`
    Colon,
    /// `,`
    Comma,
    /// `.`
    Dot,
    /// `..`
    Concat,
    /// `...`
    Dots,
    /// A whole number.
    Integer(i64),
    /// A number written with a point.
    Float(Decimal),
    /// The bytes of a quoted string, escapes resolved.
    String(S),
    /// A name that is no keyword.
    Name(S),
}

/// A token as the lexer hands it out.
pub type Token = Tok<Vec<u8>>;

/// What a [`Token`] is, as contracts speak of it.
pub type TokenModel = Tok<Seq<u8>>;

impl View for Tok<Vec<u8>> {
    type V = Tok<Seq<u8>>;

    open spec fn view(&self) -> Tok<Seq<u8>> {
        match *self {
            Tok::And => Tok::And,
            Tok::Break => Tok::Break,
            Tok::Do => Tok::Do,
            Tok::Else => Tok::Else,
            Tok::Elseif => Tok::Elseif,
            Tok::End => Tok::End,
            Tok::False => Tok::False,
            Tok::For => Tok::For,
            Tok::Function => Tok::Function,
            Tok::Goto => Tok::Goto,
            Tok::If => Tok::If,
            Tok::In => Tok::In,
            Tok::Local => Tok::Local,
            Tok::Nil => Tok::Nil,
            Tok::Not => Tok::Not,
            Tok::Or => Tok::Or,
            Tok::Repeat => Tok::Repeat,
            Tok::Return => Tok::Return,
            Tok::Then => Tok::Then,
            Tok::True => Tok::True,
            Tok::Until => Tok::Until,
            Tok::While => Tok::While,
            Tok::Add => Tok::Add,
            Tok::Sub => Tok::Sub,
            Tok::Mul => Tok::Mul,
            Tok::Div => Tok::Div,
            Tok::Mod => Tok::Mod,
            Tok::Pow => Tok::Pow,
            Tok::Len => Tok::Len,
            Tok::BitAnd => Tok::BitAnd,
            Tok::BitXor => Tok::BitXor,
            Tok::BitOr => Tok::BitOr,
            Tok::ShiftL => Tok::ShiftL,
            Tok::ShiftR => Tok::ShiftR,
            Tok::Idiv => Tok::Idiv,
            Tok::Equal => Tok::Equal,
            Tok::NotEq => Tok::NotEq,
            Tok::LesEq => Tok::LesEq,
            Tok::GreEq => Tok::GreEq,
            Tok::Less => Tok::Less,
            Tok::Greater => Tok::Greater,
            Tok::Assign => Tok::Assign,
            Tok::ParL => Tok::ParL,
            Tok::ParR => Tok::ParR,
            Tok::CurlyL => Tok::CurlyL,
            Tok::CurlyR => Tok::CurlyR,
            Tok::SqurL => Tok::SqurL,
            Tok::SqurR => Tok::SqurR,
            Tok::DoubColon => Tok::DoubColon,
            Tok::SemiColon => Tok::SemiColon,
            Tok::Colon => Tok::Colon,
            Tok::Comma => Tok::Comma,
            Tok::Dot => Tok::Dot,
            Tok::Concat => Tok::Concat,
            Tok::Dots => Tok::Dots,
            Tok::Integer(i) => Tok::Integer(i),
            Tok::Float(d) => Tok::Float(d),
            Tok::String(s) => Tok::String(s@),
            Tok::Name(s) => Tok::Name(s@),
        }
    }
}

/// Equality of tokens is equality of their views: the same variant with the
/// same contents.
impl PartialEq for Tok<Vec<u8>> {
    fn eq(&self, other: &Self) -> (r: bool) {
        match (self, other) {
            (Tok::And, Tok::And) => true,
            (Tok::Break, Tok::Break) => true,
            (Tok::Do, Tok::Do) => true,
            (Tok::Else, Tok::Else) => true,
            (Tok::Elseif, Tok::Elseif) => true,
            (Tok::End, Tok::End) => true,
            (Tok::False, Tok::False) => true,
            (Tok::For, Tok::For) => true,
            (Tok::Function, Tok::Function) => true,
            (Tok::Goto, Tok::Goto) => true,
            (Tok::If, Tok::If) => true,
            (Tok::In, Tok::In) => true,
            (Tok::Local, Tok::Local) => true,
            (Tok::Nil, Tok::Nil) => true,
            (Tok::Not, Tok::Not) => true,
            (Tok::Or, Tok::Or) => true,
            (Tok::Repeat, Tok::Repeat) => true,
            (Tok::Return, Tok::Return) => true,
            (Tok::Then, Tok::Then) => true,
            (Tok::True, Tok::True) => true,
            (Tok::Until, Tok::Until) => true,
            (Tok::While, Tok::While) => true,
            (Tok::Add, Tok::Add) => true,
            (Tok::Sub, Tok::Sub) => true,
            (Tok::Mul, Tok::Mul) => true,
            (Tok::Div, Tok::Div) => true,
            (Tok::Mod, Tok::Mod) => true,
            (Tok::Pow, Tok::Pow) => true,
            (Tok::Len, Tok::Len) => true,
            (Tok::BitAnd, Tok::BitAnd) => true,
            (Tok::BitXor, Tok::BitXor) => true,
            (Tok::BitOr, Tok::BitOr) => true,
            (Tok::ShiftL, Tok::ShiftL) => true,
            (Tok::ShiftR, Tok::ShiftR) => true,
            (Tok::Idiv, Tok::Idiv) => true,
            (Tok::Equal, Tok::Equal) => true,
            (Tok::NotEq, Tok::NotEq) => true,
            (Tok::LesEq, Tok::LesEq) => true,
            (Tok::GreEq, Tok::GreEq) => true,
            (Tok::Less, Tok::Less) => true,
            (Tok::Greater, Tok::Greater) => true,
            (Tok::Assign, Tok::Assign) => true,
            (Tok::ParL, Tok::ParL) => true,
            (Tok::ParR, Tok::ParR) => true,
            (Tok::CurlyL, Tok::CurlyL) => true,
            (Tok::CurlyR, Tok::CurlyR) => true,
            (Tok::SqurL, Tok::SqurL) => true,
            (Tok::SqurR, Tok::SqurR) => true,
            (Tok::DoubColon, Tok::DoubColon) => true,
            (Tok::SemiColon, Tok::SemiColon) => true,
            (Tok::Colon, Tok::Colon) => true,
            (Tok::Comma, Tok::Comma) => true,
            (Tok::Dot, Tok::Dot) => true,
            (Tok::Concat, Tok::Concat) => true,
            (Tok::Dots, Tok::Dots) => true,
            (Tok::Integer(a), Tok::Integer(b)) => *a == *b,
            (Tok::Float(a), Tok::Float(b)) => a.whole == b.whole && a.frac == b.frac && a.scale
                == b.scale,
            (Tok::String(a), Tok::String(b)) => bytes_eq(a, b),
            (Tok::Name(a), Tok::Name(b)) => bytes_eq(a, b),
            _ => false,
        }
    }
}

impl vstd::std_specs::cmp::PartialEqSpecImpl for Tok<Vec<u8>> {
    open spec fn obeys_eq_spec() -> bool {
        true
    }

    open spec fn eq_spec(&self, other: &Self) -> bool {
        self@ == other@
    }
}

impl Clone for Tok<Vec<u8>> {
    fn clone(&self) -> (r: Self)
        ensures
            r@ == self@,
    {
        match self {
            Tok::And => Tok::And,
            Tok::Break => Tok::Break,
            Tok::Do => Tok::Do,
            Tok::Else => Tok::Else,
            Tok::Elseif => Tok::Elseif,
            Tok::End => Tok::End,
            Tok::False => Tok::False,
            Tok::For => Tok::For,
            Tok::Function => Tok::Function,
            Tok::Goto => Tok::Goto,
            Tok::If => Tok::If,
            Tok::In => Tok::In,
            Tok::Local => Tok::Local,
            Tok::Nil => Tok::Nil,
            Tok::Not => Tok::Not,
            Tok::Or => Tok::Or,
            Tok::Repeat => Tok::Repeat,
            Tok::Return => Tok::Return,
            Tok::Then => Tok::Then,
            Tok::True => Tok::True,
            Tok::Until => Tok::Until,
            Tok::While => Tok::While,
            Tok::Add => Tok::Add,
            Tok::Sub => Tok::Sub,
            Tok::Mul => Tok::Mul,
            Tok::Div => Tok::Div,
            Tok::Mod => Tok::Mod,
            Tok::Pow => Tok::Pow,
            Tok::Len => Tok::Len,
            Tok::BitAnd => Tok::BitAnd,
            Tok::BitXor => Tok::BitXor,
            Tok::BitOr => Tok::BitOr,
            Tok::ShiftL => Tok::ShiftL,
            Tok::ShiftR => Tok::ShiftR,
            Tok::Idiv => Tok::Idiv,
            Tok::Equal => Tok::Equal,
            Tok::NotEq => Tok::NotEq,
            Tok::LesEq => Tok::LesEq,
            Tok::GreEq => Tok::GreEq,
            Tok::Less => Tok::Less,
            Tok::Greater => Tok::Greater,
            Tok::Assign => Tok::Assign,
            Tok::ParL => Tok::ParL,
            Tok::ParR => Tok::ParR,
            Tok::CurlyL => Tok::CurlyL,
            Tok::CurlyR => Tok::CurlyR,
            Tok::SqurL => Tok::SqurL,
            Tok::SqurR => Tok::SqurR,
            Tok::DoubColon => Tok::DoubColon,
            Tok::SemiColon => Tok::SemiColon,
            Tok::Colon => Tok::Colon,
            Tok::Comma => Tok::Comma,
            Tok::Dot => Tok::Dot,
            Tok::Concat => Tok::Concat,
            Tok::Dots => Tok::Dots,
            Tok::Integer(i) => Tok::Integer(*i),
            Tok::Float(d) => Tok::Float(*d),
            Tok::String(s) => Tok::String(s.clone()),
            Tok::Name(s) => Tok::Name(s.clone()),
        }
    }
}

/// The view of a token that may be absent.
pub open spec fn token_view(t: Option<Token>) -> Option<TokenModel> {
    match t {
        Some(t) => Some(t@),
        None => None,
    }
}


/// Why the bytes at some place are no token.
#[derive(Clone, Copy, Debug, PartialEq, Eq, Structural)]
pub enum LexError {
    /// The byte starts no token.
    InvalidByte(u8),
    /// A string runs into the end of its line or of the input.
    UnfinishedString,
    /// A backslash in a string is followed by something that is no escape.
    InvalidEscape,
    /// A decimal escape in a string names a number above 255.
    EscapeTooLarge,
    /// A letter follows the digits of a number.
    MalformedNumber,
    /// The digits of a number spell more than a 64-bit signed integer holds.
    NumberTooLarge,
    /// A number starts with `0x`: hexadecimal numbers are not read.
    HexNumber,
    /// An `e` follows the digits of a number: exponents are not read.
    Exponent,
    /// A comment starts with `--[`: long comments are not read.
    LongComment,
}

/// The byte at place `i`, and 0 past the end.
pub open spec fn byte_at(s: Seq<u8>, i: int) -> u8 {
    if 0 <= i < s.len() {
        s[i]
    } else {
        0
    }
}

/// Line feed, carriage return, tab or space.
pub open spec fn is_space(b: u8) -> bool {
    b == '\n' as u8 || b == '\r' as u8 || b == '\t' as u8 || b == ' ' as u8
}

/// A letter of the ASCII alphabet.
pub open spec fn is_letter(b: u8) -> bool {
    ('A' as u8 <= b <= 'Z' as u8) || ('a' as u8 <= b <= 'z' as u8)
}

/// A byte that may start a name: a letter or an underscore.
pub open spec fn is_name_start(b: u8) -> bool {
    is_letter(b) || b == '_' as u8
}

/// A byte that may go on a name: a letter, a digit or an underscore.
pub open spec fn is_name_part(b: u8) -> bool {
    is_name_start(b) || is_digit(b)
}

/// The first place at or after `from` that holds no digit.
pub open spec fn digits_end(s: Seq<u8>, from: int) -> int
    decreases s.len() - from,
{
    if 0 <= from < s.len() && is_digit(s[from]) {
        digits_end(s, from + 1)
    } else {
        from
    }
}

/// The first place at or after `from` that holds no byte of a name.
pub open spec fn name_end(s: Seq<u8>, from: int) -> int
    decreases s.len() - from,
{
    if 0 <= from < s.len() && is_name_part(s[from]) {
        name_end(s, from + 1)
    } else {
        from
    }
}

/// The place where the next token starts, at or after `from`: white space is
/// passed over, and so is a comment, from `--` through the end of its line.
/// With `in_comment`, `from` lies inside such a comment. A comment that
/// starts with `--[` is not passed over.
pub open spec fn skip_blank(s: Seq<u8>, from: int, in_comment: bool) -> int
    decreases s.len() - from,
{
    if from < 0 || from >= s.len() {
        from
    } else if in_comment {
        skip_blank(s, from + 1, s[from] != '\n' as u8)
    } else if is_space(s[from]) {
        skip_blank(s, from + 1, false)
    } else if s[from] == '-' as u8 && byte_at(s, from + 1) == '-' as u8 && byte_at(s, from + 2)
        != '[' as u8 {
        skip_blank(s, from + 2, true)
    } else {
        from
    }
}

/// The keywords, each with its spelling.
pub open spec fn keyword_table() -> Seq<(Seq<u8>, TokenModel)> {
    seq![
        ("and".spec_bytes(), Tok::And),
        ("break".spec_bytes(), Tok::Break),
        ("do".spec_bytes(), Tok::Do),
        ("else".spec_bytes(), Tok::Else),
        ("elseif".spec_bytes(), Tok::Elseif),
        ("end".spec_bytes(), Tok::End),
        ("false".spec_bytes(), Tok::False),
        ("for".spec_bytes(), Tok::For),
        ("function".spec_bytes(), Tok::Function),
        ("goto".spec_bytes(), Tok::Goto),
        ("if".spec_bytes(), Tok::If),
        ("in".spec_bytes(), Tok::In),
        ("local".spec_bytes(), Tok::Local),
        ("nil".spec_bytes(), Tok::Nil),
        ("not".spec_bytes(), Tok::Not),
        ("or".spec_bytes(), Tok::Or),
        ("repeat".spec_bytes(), Tok::Repeat),
        ("return".spec_bytes(), Tok::Return),
        ("then".spec_bytes(), Tok::Then),
        ("true".spec_bytes(), Tok::True),
        ("until".spec_bytes(), Tok::Until),
        ("while".spec_bytes(), Tok::While),
    ]
}

/// The token of the first entry of `table`, from entry `i` on, whose spelling
/// is `word`.
pub open spec fn lookup_from(table: Seq<(Seq<u8>, TokenModel)>, word: Seq<u8>, i: int) -> Option<
    TokenModel,
>
    decreases table.len() - i,
{
    if i < 0 || i >= table.len() {
        None
    } else if table[i].0 == word {
        Some(table[i].1)
    } else {
        lookup_from(table, word, i + 1)
    }
}

/// The keyword that `word` spells, if it spells one.
pub open spec fn keyword(word: Seq<u8>) -> Option<TokenModel> {
    lookup_from(keyword_table(), word, 0)
}

/// The value of a hexadecimal digit.
pub open spec fn hex_value(b: u8) -> Option<int> {
    if is_digit(b) {
        Some(b - '0' as u8)
    } else if 'a' as u8 <= b <= 'f' as u8 {
        Some(b - 'a' as u8 + 10)
    } else if 'A' as u8 <= b <= 'F' as u8 {
        Some(b - 'A' as u8 + 10)
    } else {
        None
    }
}

/// The byte that the escape after a backslash stands for, and the place
/// after the escape. `p` is the place after the backslash.
pub open spec fn escape_at(s: Seq<u8>, p: int) -> Result<(u8, int), LexError> {
    let c = byte_at(s, p);
    if p < 0 || p >= s.len() {
        Err(LexError::UnfinishedString)
    } else if c == 'a' as u8 {
        Ok((0x07, p + 1))
    } else if c == 'b' as u8 {
        Ok((0x08, p + 1))
    } else if c == 'f' as u8 {
        Ok((0x0c, p + 1))
    } else if c == 'v' as u8 {
        Ok((0x0b, p + 1))
    } else if c == 'n' as u8 {
        Ok(('\n' as u8, p + 1))
    } else if c == 'r' as u8 {
        Ok(('\r' as u8, p + 1))
    } else if c == 't' as u8 {
        Ok(('\t' as u8, p + 1))
    } else if c == '\\' as u8 || c == '"' as u8 || c == '\'' as u8 {
        Ok((c, p + 1))
    } else if c == 'x' as u8 {
        if p + 1 >= s.len() {
            Err(LexError::UnfinishedString)
        } else if hex_value(s[p + 1]) is None {
            Err(LexError::InvalidEscape)
        } else if p + 2 >= s.len() {
            Err(LexError::UnfinishedString)
        } else if hex_value(s[p + 2]) is None {
            Err(LexError::InvalidEscape)
        } else {
            Ok(((hex_value(s[p + 1])->0 * 16 + hex_value(s[p + 2])->0) as u8, p + 3))
        }
    } else if is_digit(c) {
        let end = if !is_digit(byte_at(s, p + 1)) {
            p + 1
        } else if !is_digit(byte_at(s, p + 2)) {
            p + 2
        } else {
            p + 3
        };
        if digits_value(s, p, end) > 255 {
            Err(LexError::EscapeTooLarge)
        } else {
            Ok((digits_value(s, p, end) as u8, end))
        }
    } else {
        Err(LexError::InvalidEscape)
    }
}

/// The bytes of the string whose rest starts at `p`, after the bytes `acc`
/// that were read of it, and the place after its closing quote.
pub open spec fn string_at(s: Seq<u8>, p: int, quote: u8, acc: Seq<u8>) -> Result<
    (Seq<u8>, int),
    LexError,
>
    decreases s.len() - p,
{
    if p < 0 || p >= s.len() {
        Err(LexError::UnfinishedString)
    } else if s[p] == '\n' as u8 {
        Err(LexError::UnfinishedString)
    } else if s[p] == '\\' as u8 {
        match escape_at(s, p + 1) {
            Ok((b, q)) => if q > p {
                string_at(s, q, quote, acc.push(b))
            } else {
                Err(LexError::InvalidEscape)
            },
            Err(e) => Err(e),
        }
    } else if s[p] == quote {
        Ok((acc, p + 1))
    } else {
        string_at(s, p + 1, quote, acc.push(s[p]))
    }
}

/// The number whose fraction's digits start at `p`, after the point, and
/// the place after them. `whole` is what stands before the point.
pub open spec fn fraction_at(s: Seq<u8>, whole: nat, p: int) -> Result<(TokenModel, int), LexError> {
    let end = digits_end(s, p);
    let frac = digits_value(s, p, end);
    if frac > i64::MAX {
        Err(LexError::NumberTooLarge)
    } else {
        Ok((Tok::Float(Decimal::of(whole, frac, (end - p) as nat)), end))
    }
}

/// The number that starts with the digit at `p`, and the place after it.
pub open spec fn number_at(s: Seq<u8>, p: int) -> Result<(TokenModel, int), LexError> {
    let end = digits_end(s, p);
    let n = digits_value(s, p, end);
    let after = byte_at(s, end);
    if byte_at(s, p) == '0' as u8 && (byte_at(s, p + 1) == 'x' as u8 || byte_at(s, p + 1)
        == 'X' as u8) {
        Err(LexError::HexNumber)
    } else if n > i64::MAX {
        Err(LexError::NumberTooLarge)
    } else if after == '.' as u8 {
        fraction_at(s, n, end + 1)
    } else if after == 'e' as u8 || after == 'E' as u8 {
        Err(LexError::Exponent)
    } else if is_letter(after) {
        Err(LexError::MalformedNumber)
    } else {
        Ok((Tok::Integer(n as i64), end))
    }
}

/// The keyword or name that starts at `p`, and the place after it.
pub open spec fn name_at(s: Seq<u8>, p: int) -> (TokenModel, int) {
    let end = name_end(s, p + 1);
    let word = s.subrange(p, end);
    (
        match keyword(word) {
            Some(t) => t,
            None => Tok::Name(word),
        },
        end,
    )
}

/// The token that a byte by itself makes, whatever follows it.
pub open spec fn single(b: u8) -> Option<TokenModel> {
    if b == '+' as u8 {
        Some(Tok::Add)
    } else if b == '*' as u8 {
        Some(Tok::Mul)
    } else if b == '%' as u8 {
        Some(Tok::Mod)
    } else if b == '^' as u8 {
        Some(Tok::Pow)
    } else if b == '#' as u8 {
        Some(Tok::Len)
    } else if b == '&' as u8 {
        Some(Tok::BitAnd)
    } else if b == '|' as u8 {
        Some(Tok::BitOr)
    } else if b == '(' as u8 {
        Some(Tok::ParL)
    } else if b == ')' as u8 {
        Some(Tok::ParR)
    } else if b == '{' as u8 {
        Some(Tok::CurlyL)
    } else if b == '}' as u8 {
        Some(Tok::CurlyR)
    } else if b == '[' as u8 {
        Some(Tok::SqurL)
    } else if b == ']' as u8 {
        Some(Tok::SqurR)
    } else if b == ';' as u8 {
        Some(Tok::SemiColon)
    } else if b == ',' as u8 {
        Some(Tok::Comma)
    } else {
        None
    }
}

/// `long` after its two bytes where `ahead` follows the byte at `p`, else
/// `short` after its one.
pub open spec fn two_way(s: Seq<u8>, p: int, ahead: u8, long: TokenModel, short: TokenModel) -> (
    TokenModel,
    int,
) {
    if byte_at(s, p + 1) == ahead {
        (long, p + 2)
    } else {
        (short, p + 1)
    }
}

/// The operator that starts at `p` and may take a second or third byte, and
/// the place after it.
pub open spec fn operator_at(s: Seq<u8>, p: int) -> Option<(TokenModel, int)> {
    let b = byte_at(s, p);
    let c = byte_at(s, p + 1);
    if b == '/' as u8 {
        Some(two_way(s, p, '/' as u8, Tok::Idiv, Tok::Div))
    } else if b == '=' as u8 {
        Some(two_way(s, p, '=' as u8, Tok::Equal, Tok::Assign))
    } else if b == '~' as u8 {
        Some(two_way(s, p, '=' as u8, Tok::NotEq, Tok::BitXor))
    } else if b == ':' as u8 {
        Some(two_way(s, p, ':' as u8, Tok::DoubColon, Tok::Colon))
    } else if b == '<' as u8 {
        Some(
            if c == '=' as u8 {
                (Tok::LesEq, p + 2)
            } else {
                two_way(s, p, '<' as u8, Tok::ShiftL, Tok::Less)
            },
        )
    } else if b == '>' as u8 {
        Some(
            if c == '=' as u8 {
                (Tok::GreEq, p + 2)
            } else {
                two_way(s, p, '>' as u8, Tok::ShiftR, Tok::Greater)
            },
        )
    } else if b == '.' as u8 && c == '.' as u8 {
        Some(two_way(s, p + 1, '.' as u8, Tok::Dots, Tok::Concat))
    } else if b == '.' as u8 && !is_digit(c) {
        Some((Tok::Dot, p + 1))
    } else {
        None
    }
}

/// The first token at or after `from` and the place after it; no token at
/// the end of the input; or why the bytes there are no token.
pub open spec fn token_at(s: Seq<u8>, from: int) -> Result<(Option<TokenModel>, int), LexError> {
    let p = skip_blank(s, from, false);
    let b = byte_at(s, p);
    if p < 0 || p >= s.len() {
        Ok((None, p))
    } else if single(b) is Some {
        Ok((single(b), p + 1))
    } else if let Some((t, q)) = operator_at(s, p) {
        Ok((Some(t), q))
    } else if b == '.' as u8 {
        match fraction_at(s, 0, p + 1) {
            Ok((t, q)) => Ok((Some(t), q)),
            Err(e) => Err(e),
        }
    } else if b == '\'' as u8 || b == '"' as u8 {
        match string_at(s, p + 1, b, Seq::empty()) {
            Ok((bytes, q)) => Ok((Some(Tok::String(bytes)), q)),
            Err(e) => Err(e),
        }
    } else if b == '-' as u8 {
        if byte_at(s, p + 1) == '-' as u8 {
            Err(LexError::LongComment)
        } else {
            Ok((Some(Tok::Sub), p + 1))
        }
    } else if is_digit(b) {
        match number_at(s, p) {
            Ok((t, q)) => Ok((Some(t), q)),
            Err(e) => Err(e),
        }
    } else if is_name_start(b) {
        Ok((Some(name_at(s, p).0), name_at(s, p).1))
    } else {
        Err(LexError::InvalidByte(b))
    }
}

/// The tokens of some input in their order, and why the bytes after the
/// last of them are no token, if they are none.
pub struct Stream {
    pub tokens: Seq<TokenModel>,
    pub error: Option<LexError>,
}

impl Stream {
    /// This stream with `t` in front of it.
    pub open spec fn after(self, t: TokenModel) -> Stream {
        Stream { tokens: seq![t] + self.tokens, error: self.error }
    }

    /// What a reader of this stream meets first: its first token; no token
    /// where it ends without an error; else its error.
    pub open spec fn first(self) -> Result<Option<TokenModel>, LexError> {
        if self.tokens.len() > 0 {
            Ok(Some(self.tokens[0]))
        } else {
            match self.error {
                Some(e) => Err(e),
                None => Ok(None),
            }
        }
    }

    /// This stream without its first token, and this stream itself where it
    /// has no token.
    pub open spec fn rest(self) -> Stream {
        if self.tokens.len() > 0 {
            Stream { tokens: self.tokens.drop_first(), error: self.error }
        } else {
            self
        }
    }
}

/// The tokens of `s` from place `from` on. (A token ends after the place
/// where it starts; the test on `next` only makes that plain.)
pub open spec fn stream_from(s: Seq<u8>, from: int) -> Stream
    decreases s.len() - from,
{
    match token_at(s, from) {
        Err(e) => Stream { tokens: Seq::empty(), error: Some(e) },
        Ok((None, _)) => Stream { tokens: Seq::empty(), error: None },
        Ok((Some(t), next)) => if 0 <= from < next <= s.len() {
            stream_from(s, next).after(t)
        } else {
            Stream { tokens: Seq::empty(), error: None }
        },
    }
}

/// The tokens of the input `s`.
pub open spec fn stream_of(s: Seq<u8>) -> Stream {
    stream_from(s, 0)
}


/// The digits from `from` on end at or after `from`, within the input.
pub proof fn lemma_digits_end(s: Seq<u8>, from: int)
    requires
        0 <= from <= s.len(),
    ensures
        from <= digits_end(s, from) <= s.len(),
    decreases s.len() - from,
{
    if from < s.len() && is_digit(s[from]) {
        lemma_digits_end(s, from + 1);
    }
}

/// Every byte between `from` and the end of the digits from `from` on is a
/// digit.
pub proof fn lemma_digits_before_end(s: Seq<u8>, from: int, i: int)
    requires
        0 <= from <= i < digits_end(s, from),
    ensures
        i < s.len(),
        is_digit(s[i]),
    decreases s.len() - from,
{
    if from < s.len() && is_digit(s[from]) && from < i {
        lemma_digits_before_end(s, from + 1, i);
    }
}

/// The number that some digits spell is less than the power of ten with
/// as many zeros as there are digits.
pub proof fn lemma_digits_value_bound(s: Seq<u8>, from: int, to: int)
    requires
        0 <= from <= to <= digits_end(s, from),
    ensures
        digits_value(s, from, to) < pow10((to - from) as nat),
    decreases to - from,
{
    if from < to {
        lemma_digits_value_bound(s, from, to - 1);
        lemma_digits_before_end(s, from, to - 1);
    }
}

/// The number of a fraction that the lexer reads is reduced, and its
/// fraction is less than one: of two such numbers, the equal ones are
/// those that are the same number.
pub proof fn law_fraction_is_canonical(s: Seq<u8>, whole: nat, p: int)
    requires
        0 <= p <= s.len() <= usize::MAX,
    ensures
        fraction_at(s, whole, p) matches Ok((Tok::Float(d), _)) ==> d.reduced() && d.proper(),
{
    lemma_digits_end(s, p);
    let end = digits_end(s, p);
    let frac = digits_value(s, p, end);
    lemma_digits_value_bound(s, p, end);
    law_reduce_keeps_number(frac, (end - p) as nat);
}

/// The name bytes from `from` on end at or after `from`, within the input.
pub proof fn lemma_name_end(s: Seq<u8>, from: int)
    requires
        0 <= from <= s.len(),
    ensures
        from <= name_end(s, from) <= s.len(),
    decreases s.len() - from,
{
    if from < s.len() && is_name_part(s[from]) {
        lemma_name_end(s, from + 1);
    }
}

/// The next token starts at or after `from`, within the input.
pub proof fn lemma_skip_blank(s: Seq<u8>, from: int, in_comment: bool)
    requires
        0 <= from <= s.len(),
    ensures
        from <= skip_blank(s, from, in_comment) <= s.len(),
    decreases s.len() - from,
{
    if from < s.len() {
        if in_comment {
            lemma_skip_blank(s, from + 1, s[from] != '\n' as u8);
        } else if is_space(s[from]) {
            lemma_skip_blank(s, from + 1, false);
        } else if s[from] == '-' as u8 && byte_at(s, from + 1) == '-' as u8 && byte_at(s, from + 2)
            != '[' as u8 {
            lemma_skip_blank(s, from + 2, true);
        }
    }
}

/// A string ends after the place where its rest starts, within the input.
pub proof fn lemma_string_at(s: Seq<u8>, p: int, quote: u8, acc: Seq<u8>)
    requires
        0 <= p <= s.len(),
    ensures
        string_at(s, p, quote, acc) matches Ok((_, q)) ==> p < q <= s.len(),
    decreases s.len() - p,
{
    if p < s.len() && s[p] != '\n' as u8 {
        if s[p] == '\\' as u8 {
            if let Ok((b, q)) = escape_at(s, p + 1) {
                lemma_string_at(s, q, quote, acc.push(b));
            }
        } else if s[p] != quote {
            lemma_string_at(s, p + 1, quote, acc.push(s[p]));
        }
    }
}

/// A token ends after the place where the search for it starts, within the
/// input: the lexer never stands still on a token.
pub proof fn law_token_advances(s: Seq<u8>, from: int)
    requires
        0 <= from <= s.len(),
    ensures
        token_at(s, from) matches Ok((Some(_), q)) ==> from < q <= s.len(),
        token_at(s, from) matches Ok((None, q)) ==> q == s.len(),
{
    lemma_skip_blank(s, from, false);
    let p = skip_blank(s, from, false);
    if p < s.len() {
        lemma_digits_end(s, p);
        lemma_digits_end(s, p + 1);
        let end = digits_end(s, p);
        if end < s.len() {
            lemma_digits_end(s, end + 1);
        }
        lemma_name_end(s, p + 1);
        lemma_string_at(s, p + 1, s[p], Seq::empty());
    }
}

/// The stream of an input from some place on is its first token and the
/// stream from the place after that token: the test in `stream_from` never
/// fails.
pub proof fn law_stream_unfolds(s: Seq<u8>, from: int)
    requires
        0 <= from <= s.len(),
    ensures
        token_at(s, from) matches Ok((Some(t), next)) ==> stream_from(s, from) == stream_from(
            s,
            next,
        ).after(t),
{
    law_token_advances(s, from);
}

/// The views of the entries of a keyword table, one for one.
pub open spec fn table_view(table: Seq<(Vec<u8>, Token)>) -> Seq<(Seq<u8>, TokenModel)> {
    table.map_values(|e: (Vec<u8>, Token)| (e.0@, e.1@))
}

/// The keywords with their spellings, in the order of the keyword table.
pub fn keyword_list() -> (keywords: Vec<(Vec<u8>, Token)>)
    ensures
        table_view(keywords@) == keyword_table(),
{
    let mut keywords: Vec<(Vec<u8>, Token)> = Vec::new();
    keywords.push(("and".as_bytes_vec(), Tok::And));
    keywords.push(("break".as_bytes_vec(), Tok::Break));
    keywords.push(("do".as_bytes_vec(), Tok::Do));
    keywords.push(("else".as_bytes_vec(), Tok::Else));
    keywords.push(("elseif".as_bytes_vec(), Tok::Elseif));
    keywords.push(("end".as_bytes_vec(), Tok::End));
    keywords.push(("false".as_bytes_vec(), Tok::False));
    keywords.push(("for".as_bytes_vec(), Tok::For));
    keywords.push(("function".as_bytes_vec(), Tok::Function));
    keywords.push(("goto".as_bytes_vec(), Tok::Goto));
    keywords.push(("if".as_bytes_vec(), Tok::If));
    keywords.push(("in".as_bytes_vec(), Tok::In));
    keywords.push(("local".as_bytes_vec(), Tok::Local));
    keywords.push(("nil".as_bytes_vec(), Tok::Nil));
    keywords.push(("not".as_bytes_vec(), Tok::Not));
    keywords.push(("or".as_bytes_vec(), Tok::Or));
    keywords.push(("repeat".as_bytes_vec(), Tok::Repeat));
    keywords.push(("return".as_bytes_vec(), Tok::Return));
    keywords.push(("then".as_bytes_vec(), Tok::Then));
    keywords.push(("true".as_bytes_vec(), Tok::True));
    keywords.push(("until".as_bytes_vec(), Tok::Until));
    keywords.push(("while".as_bytes_vec(), Tok::While));
    assert(table_view(keywords@) =~= keyword_table());
    keywords
}

/// The number that the bytes of `word` spell in base 256, the first byte
/// first: the key of the word in the keyword map.
pub open spec fn packed(word: Seq<u8>) -> nat
    decreases word.len(),
{
    if word.len() == 0 {
        0
    } else {
        packed(word.drop_last()) * 256 + word.last() as nat
    }
}

/// Whether `word` has a key in the keyword map: whether it has at most 8
/// bytes, none of them 0, so that its number fits in 64 bits and is the
/// number of no other such word.
pub open spec fn packs(word: Seq<u8>) -> bool {
    word.len() <= 8 && forall|i: int| 0 <= i < word.len() ==> word[i] != 0
}

/// The token of the first of the first `n` entries of `table` whose
/// spelling is `word`.
pub open spec fn lookup_until(table: Seq<(Seq<u8>, TokenModel)>, word: Seq<u8>, n: int) -> Option<
    TokenModel,
>
    decreases n,
{
    if n <= 0 {
        None
    } else {
        match lookup_until(table, word, n - 1) {
            Some(t) => Some(t),
            None => if table[n - 1].0 == word {
                Some(table[n - 1].1)
            } else {
                None
            },
        }
    }
}

/// The token that the map `m` holds for `word`.
pub open spec fn held(m: Map<u64, Token>, word: Seq<u8>) -> Option<TokenModel> {
    if m.contains_key(packed(word) as u64) {
        Some(m[packed(word) as u64]@)
    } else {
        None
    }
}

/// A word of a few bytes spells a number of as many bytes.
pub proof fn lemma_packed_bound(word: Seq<u8>)
    ensures
        word.len() == 0 ==> packed(word) == 0,
        word.len() > 0 && word[0] != 0 ==> packed(word) > 0,
        word.len() <= 8 ==> packed(word) <= u64::MAX,
    decreases word.len(),
{
    if word.len() > 0 {
        lemma_packed_bound(word.drop_last());
        if word.len() > 1 {
            assert(word.drop_last()[0] == word[0]);
        }
        lemma_packed_below(word.drop_last());
        lemma_packed_below(word);
    }
}

/// The power of 256 with `n` as its exponent.
pub open spec fn pow256(n: nat) -> nat
    decreases n,
{
    if n == 0 {
        1
    } else {
        256 * pow256((n - 1) as nat)
    }
}

/// A word spells a number below the power of 256 with its length as the
/// exponent.
pub proof fn lemma_packed_below(word: Seq<u8>)
    ensures
        packed(word) < pow256(word.len()),
        word.len() <= 8 ==> pow256(word.len()) <= 0x1_0000_0000_0000_0000,
    decreases word.len(),
{
    reveal_with_fuel(pow256, 9);
    if word.len() > 0 {
        lemma_packed_below(word.drop_last());
    }
}

/// Two words that have keys have the same key only where they are the
/// same word.
pub proof fn lemma_packed_injective(a: Seq<u8>, b: Seq<u8>)
    requires
        packs(a),
        packs(b),
        packed(a) == packed(b),
    ensures
        a == b,
    decreases a.len(),
{
    lemma_packed_bound(a);
    lemma_packed_bound(b);
    if a.len() == 0 || b.len() == 0 {
        assert(a.len() == 0 && b.len() == 0);
        assert(a =~= b);
    } else {
        let (fa, fb) = (a.drop_last(), b.drop_last());
        assert(packed(fa) == packed(fb) && a.last() == b.last()) by {
            let (x, y) = (packed(fa), packed(fb));
            let (u, v) = (a.last() as nat, b.last() as nat);
            assert(x == y && u == v) by (nonlinear_arith)
                requires
                    x * 256 + u == y * 256 + v,
                    u < 256,
                    v < 256,
            ;
        }
        lemma_packed_injective(fa, fb);
        assert(a =~= fa.push(a.last()));
        assert(b =~= fb.push(b.last()));
    }
}

/// The first match among all the entries is the first match from the
/// first entry on.
pub proof fn lemma_lookup_until(table: Seq<(Seq<u8>, TokenModel)>, word: Seq<u8>, from: int)
    requires
        0 <= from <= table.len(),
    ensures
        lookup_from(table, word, 0) == match lookup_until(table, word, from) {
            Some(t) => Some(t),
            None => lookup_from(table, word, from),
        },
    decreases from,
{
    if from > 0 {
        lemma_lookup_until(table, word, from - 1);
    }
}

/// A word that is the spelling of no entry from entry `from` on is found in
/// none of them.
pub proof fn lemma_no_keyword(table: Seq<(Seq<u8>, TokenModel)>, word: Seq<u8>, from: int)
    ensures
        (forall|i: int| from <= i < table.len() ==> (#[trigger] table[i]).0 != word)
            ==> lookup_from(table, word, from) is None,
    decreases table.len() - from,
{
    if 0 <= from < table.len() {
        lemma_no_keyword(table, word, from + 1);
    }
}

/// The bytes of a text of at most 8 ASCII characters, none of them the
/// character 0, have a key in the keyword map.
pub proof fn lemma_text_packs(text: &str)
    requires
        text@.len() <= 8,
        forall|i: int| 0 <= i < text@.len() ==> '\u{1}' <= #[trigger] text@[i] <= '\u{7f}',
    ensures
        packs(text.spec_bytes()),
{
    assert(text.is_ascii());
    vstd::string::is_ascii_spec_bytes(text);
    let bytes = text.spec_bytes();
    assert forall|i: int| 0 <= i < bytes.len() implies bytes[i] != 0 by {
        assert(bytes[i] == text@[i] as u8);
        assert('\u{1}' <= text@[i] <= '\u{7f}');
    }
}

/// Every keyword has a key in the keyword map.
pub proof fn lemma_keywords_pack()
    ensures
        keyword_table().len() == 22,
        forall|i: int| 0 <= i < 22 ==> packs(#[trigger] keyword_table()[i].0),
{
    reveal_strlit("and");
    lemma_text_packs("and");
    reveal_strlit("break");
    lemma_text_packs("break");
    reveal_strlit("do");
    lemma_text_packs("do");
    reveal_strlit("else");
    lemma_text_packs("else");
    reveal_strlit("elseif");
    lemma_text_packs("elseif");
    reveal_strlit("end");
    lemma_text_packs("end");
    reveal_strlit("false");
    lemma_text_packs("false");
    reveal_strlit("for");
    lemma_text_packs("for");
    reveal_strlit("function");
    lemma_text_packs("function");
    reveal_strlit("goto");
    lemma_text_packs("goto");
    reveal_strlit("if");
    lemma_text_packs("if");
    reveal_strlit("in");
    lemma_text_packs("in");
    reveal_strlit("local");
    lemma_text_packs("local");
    reveal_strlit("nil");
    lemma_text_packs("nil");
    reveal_strlit("not");
    lemma_text_packs("not");
    reveal_strlit("or");
    lemma_text_packs("or");
    reveal_strlit("repeat");
    lemma_text_packs("repeat");
    reveal_strlit("return");
    lemma_text_packs("return");
    reveal_strlit("then");
    lemma_text_packs("then");
    reveal_strlit("true");
    lemma_text_packs("true");
    reveal_strlit("until");
    lemma_text_packs("until");
    reveal_strlit("while");
    lemma_text_packs("while");
}

/// The key of `word` in the keyword map, if it has one.
fn pack(word: &Vec<u8>) -> (r: Option<u64>)
    ensures
        match r {
            Some(k) => packs(word@) && k == packed(word@),
            None => !packs(word@),
        },
{
    if word.len() > 8 {
        return None;
    }
    let mut k: u64 = 0;
    let mut i: usize = 0;
    while i < word.len()
        invariant
            i <= word.len() <= 8,
            k == packed(word@.subrange(0, i as int)),
            packs(word@.subrange(0, i as int)),
        decreases word.len() - i,
    {
        if word[i] == 0 {
            return None;
        }
        proof {
            let now = word@.subrange(0, i + 1);
            assert(now.drop_last() =~= word@.subrange(0, i as int));
            lemma_packed_bound(now);
        }
        k = k * 256 + word[i] as u64;
        i += 1;
    }
    assert(word@.subrange(0, i as int) =~= word@);
    Some(k)
}

/// Builds the keyword map: for every word that has a key, the map holds
/// under that key the token of the keyword that the word spells, and holds
/// nothing where it spells none.
pub fn get_keyword_map() -> (keywords: ValueHashMap<u64, Token>)
    ensures
        forall|word: Seq<u8>| packs(word) ==> #[trigger] held(keywords@, word) == keyword(word),
{
    broadcast use vstd::std_specs::hash::group_hash_axioms;

    let list = keyword_list();
    let mut keywords: ValueHashMap<u64, Token> = ValueHashMap::new();
    let mut i: usize = 0;
    while i < list.len()
        invariant
            i <= list.len(),
            table_view(list@) == keyword_table(),
            forall|word: Seq<u8>|
                packs(word) ==> #[trigger] held(keywords@, word) == lookup_until(
                    keyword_table(),
                    word,
                    i as int,
                ),
        decreases list.len() - i,
    {
        let ghost before = keywords@;
        let ghost spelling = list@[i as int].0@;
        assert(table_view(list@)[i as int] == (list@[i as int].0@, list@[i as int].1@));
        if let Some(k) = pack(&list[i].0) {
            if keywords.get_value(k).is_none() {
                keywords.insert(k, list[i].1.clone());
            }
        }
        proof {
            assert forall|word: Seq<u8>| packs(word) implies #[trigger] held(keywords@, word)
                == lookup_until(keyword_table(), word, i + 1) by {
                assert(held(before, word) == lookup_until(keyword_table(), word, i as int));
                if packs(spelling) {
                    lemma_packed_bound(spelling);
                    lemma_packed_bound(word);
                    if packed(word) == packed(spelling) {
                        lemma_packed_injective(word, spelling);
                    }
                }
            }
        }
        i += 1;
    }
    proof {
        assert forall|word: Seq<u8>| packs(word) implies #[trigger] held(keywords@, word)
            == keyword(word) by {
            lemma_lookup_until(keyword_table(), word, keyword_table().len() as int);
        }
    }
    keywords
}

/// What a scan gave, held against what the grammar gives: the same
/// token and place, or the same error.
pub open spec fn scanned<T: View>(r: Result<(T, usize), LexError>, m: Result<(T::V, int), LexError>) -> bool {
    match (r, m) {
        (Ok((t, q)), Ok((tm, qm))) => t@ == tm && q == qm,
        (Err(e), Err(em)) => e == em,
        _ => false,
    }
}

/// The view of what `next` and `peek` give.
pub open spec fn met(r: Result<Option<Token>, LexError>) -> Result<Option<TokenModel>, LexError> {
    match r {
        Ok(t) => Ok(token_view(t)),
        Err(e) => Err(e),
    }
}

fn byte_is_space(b: u8) -> (r: bool)
    ensures
        r == is_space(b),
{
    b == '\n' as u8 || b == '\r' as u8 || b == '\t' as u8 || b == ' ' as u8
}

fn byte_is_digit(b: u8) -> (r: bool)
    ensures
        r == is_digit(b),
{
    '0' as u8 <= b && b <= '9' as u8
}

fn byte_is_letter(b: u8) -> (r: bool)
    ensures
        r == is_letter(b),
{
    ('A' as u8 <= b && b <= 'Z' as u8) || ('a' as u8 <= b && b <= 'z' as u8)
}

fn byte_is_name_part(b: u8) -> (r: bool)
    ensures
        r == is_name_part(b),
{
    byte_is_letter(b) || b == '_' as u8 || byte_is_digit(b)
}

fn hex_digit(b: u8) -> (r: Option<u8>)
    ensures
        match r {
            Some(v) => hex_value(b) == Some(v as int) && v < 16,
            None => hex_value(b) is None,
        },
{
    if byte_is_digit(b) {
        Some(b - '0' as u8)
    } else if 'a' as u8 <= b && b <= 'f' as u8 {
        Some(b - 'a' as u8 + 10)
    } else if 'A' as u8 <= b && b <= 'F' as u8 {
        Some(b - 'A' as u8 + 10)
    } else {
        None
    }
}

fn single_token(b: u8) -> (r: Option<Token>)
    ensures
        token_view(r) == single(b),
{
    if b == '+' as u8 {
        Some(Tok::Add)
    } else if b == '*' as u8 {
        Some(Tok::Mul)
    } else if b == '%' as u8 {
        Some(Tok::Mod)
    } else if b == '^' as u8 {
        Some(Tok::Pow)
    } else if b == '#' as u8 {
        Some(Tok::Len)
    } else if b == '&' as u8 {
        Some(Tok::BitAnd)
    } else if b == '|' as u8 {
        Some(Tok::BitOr)
    } else if b == '(' as u8 {
        Some(Tok::ParL)
    } else if b == ')' as u8 {
        Some(Tok::ParR)
    } else if b == '{' as u8 {
        Some(Tok::CurlyL)
    } else if b == '}' as u8 {
        Some(Tok::CurlyR)
    } else if b == '[' as u8 {
        Some(Tok::SqurL)
    } else if b == ']' as u8 {
        Some(Tok::SqurR)
    } else if b == ';' as u8 {
        Some(Tok::SemiColon)
    } else if b == ',' as u8 {
        Some(Tok::Comma)
    } else {
        None
    }
}

/// A lexer over a buffer of bytes, with one token of lookahead.
///
/// What it has yet to hand out is its stream, [`Lex::remaining`]: `next`
/// takes the stream's first token, `peek` shows it.
#[derive(Debug)]
pub struct Lex {
    input: Vec<u8>,
    pos: usize,
    ahead: Option<Token>,
}

impl Lex {
    /// The bytes that the lexer reads.
    pub closed spec fn source(&self) -> Seq<u8> {
        self.input@
    }

    /// The tokens that the lexer has yet to hand out.
    pub closed spec fn remaining(&self) -> Stream {
        match self.ahead {
            Some(t) => stream_from(self.input@, self.pos as int).after(t@),
            None => stream_from(self.input@, self.pos as int),
        }
    }

    /// A lexer at the start of `input`.
    pub fn new(input: Vec<u8>) -> (lex: Lex)
        ensures
            lex.source() == input@,
            lex.remaining() == stream_of(input@),
    {
        Lex { input, pos: 0, ahead: None }
    }

    /// Takes the next token: `Ok(None)` at the end of the input.
    pub fn next(&mut self) -> (r: Result<Option<Token>, LexError>)
        ensures
            met(r) == old(self).remaining().first(),
            final(self).remaining() == old(self).remaining().rest(),
            final(self).source() == old(self).source(),
    {
        match self.ahead.take() {
            Some(t) => {
                proof {
                    let s = stream_from(self.input@, self.pos as int);
                    assert(s.after(t@).tokens.drop_first() =~= s.tokens);
                }
                Ok(Some(t))
            },
            None => {
                match self.scan(self.pos) {
                    Ok((t, q)) => {
                        proof {
                            if t is Some {
                                let s = stream_from(self.input@, q as int);
                                assert(s.after(t->0@).tokens.drop_first() =~= s.tokens);
                            }
                        }
                        self.pos = q;
                        Ok(t)
                    },
                    Err(e) => Err(e),
                }
            },
        }
    }

    /// Shows the next token without taking it.
    pub fn peek(&mut self) -> (r: Result<Option<&Token>, LexError>)
        ensures
            match r {
                Ok(Some(t)) => old(self).remaining().first() == Ok::<Option<TokenModel>, LexError>(Some(t@)),
                Ok(None) => old(self).remaining().first() == Ok::<Option<TokenModel>, LexError>(None),
                Err(e) => old(self).remaining().first() == Err::<Option<TokenModel>, LexError>(e),
            },
            final(self).remaining() == old(self).remaining(),
            final(self).source() == old(self).source(),
    {
        if self.ahead.is_none() {
            match self.scan(self.pos) {
                Ok((t, q)) => {
                    if t.is_some() {
                        self.pos = q;
                        self.ahead = t;
                    }
                },
                Err(e) => {
                    return Err(e);
                },
            }
        }
        Ok(self.ahead.as_ref())
    }

    /// Reads the first token at or after `from`; gives it with the place
    /// after it, and no token at the end of the input.
    pub fn scan(&self, from: usize) -> (r: Result<(Option<Token>, usize), LexError>)
        ensures
            match (r, token_at(self.source(), from as int)) {
                (Ok((t, q)), Ok((tm, qm))) => token_view(t) == tm && q == qm,
                (Err(e), Err(em)) => e == em,
                _ => false,
            },
            r matches Ok((t, q)) ==> from <= q && (t is Some ==> from < q <= self.source().len()),
    {
        let len = self.input.len();
        if from >= len {
            return Ok((None, from));
        }
        let p = self.next_start(from);
        if p >= len {
            return Ok((None, p));
        }
        let b = self.input[p];
        let c = self.peek_byte(p + 1);
        if let Some(t) = single_token(b) {
            Ok((Some(t), p + 1))
        } else if b == '/' as u8 {
            let (t, q) = self.check_ahead(p, '/' as u8, Tok::Idiv, Tok::Div);
            Ok((Some(t), q))
        } else if b == '=' as u8 {
            let (t, q) = self.check_ahead(p, '=' as u8, Tok::Equal, Tok::Assign);
            Ok((Some(t), q))
        } else if b == '~' as u8 {
            let (t, q) = self.check_ahead(p, '=' as u8, Tok::NotEq, Tok::BitXor);
            Ok((Some(t), q))
        } else if b == ':' as u8 {
            let (t, q) = self.check_ahead(p, ':' as u8, Tok::DoubColon, Tok::Colon);
            Ok((Some(t), q))
        } else if b == '<' as u8 {
            let (t, q) = self.check_ahead2(
                p,
                '=' as u8,
                Tok::LesEq,
                '<' as u8,
                Tok::ShiftL,
                Tok::Less,
            );
            Ok((Some(t), q))
        } else if b == '>' as u8 {
            let (t, q) = self.check_ahead2(
                p,
                '=' as u8,
                Tok::GreEq,
                '>' as u8,
                Tok::ShiftR,
                Tok::Greater,
            );
            Ok((Some(t), q))
        } else if b == '.' as u8 {
            if c == '.' as u8 {
                let (t, q) = self.check_ahead(p + 1, '.' as u8, Tok::Dots, Tok::Concat);
                Ok((Some(t), q))
            } else if byte_is_digit(c) {
                match self.read_number_fraction(0, p + 1) {
                    Ok((t, q)) => Ok((Some(t), q)),
                    Err(e) => Err(e),
                }
            } else {
                Ok((Some(Tok::Dot), p + 1))
            }
        } else if b == '\'' as u8 || b == '"' as u8 {
            match self.read_string(p + 1, b) {
                Ok((t, q)) => Ok((Some(t), q)),
                Err(e) => Err(e),
            }
        } else if b == '-' as u8 {
            if c == '-' as u8 {
                Err(LexError::LongComment)
            } else {
                Ok((Some(Tok::Sub), p + 1))
            }
        } else if byte_is_digit(b) {
            match self.read_number(p) {
                Ok((t, q)) => Ok((Some(t), q)),
                Err(e) => Err(e),
            }
        } else if byte_is_letter(b) || b == '_' as u8 {
            let (t, q) = self.read_name(p);
            Ok((Some(t), q))
        } else {
            Err(LexError::InvalidByte(b))
        }
    }

    /// The byte at place `p`, and 0 past the end.
    fn peek_byte(&self, p: usize) -> (b: u8)
        ensures
            b == byte_at(self.input@, p as int),
    {
        if p < self.input.len() {
            self.input[p]
        } else {
            0
        }
    }

    /// The place after the end of the line that `p` lies in.
    fn read_comment(&self, p: usize) -> (q: usize)
        requires
            p <= self.input.len(),
        ensures
            p <= q <= self.input.len(),
            skip_blank(self.input@, p as int, true) == skip_blank(self.input@, q as int, false),
    {
        let mut i: usize = p;
        while i < self.input.len()
            invariant
                p <= i <= self.input.len(),
                skip_blank(self.input@, p as int, true) == skip_blank(self.input@, i as int, true),
            decreases self.input.len() - i,
        {
            let b = self.input[i];
            i += 1;
            if b == '\n' as u8 {
                return i;
            }
        }
        i
    }

    /// The place where the next token starts, at or after `from`.
    fn next_start(&self, from: usize) -> (p: usize)
        requires
            from <= self.input.len(),
        ensures
            from <= p <= self.input.len(),
            p == skip_blank(self.input@, from as int, false),
    {
        let mut p: usize = from;
        while p < self.input.len()
            invariant
                from <= p <= self.input.len(),
                skip_blank(self.input@, from as int, false) == skip_blank(
                    self.input@,
                    p as int,
                    false,
                ),
            ensures
                from <= p <= self.input.len(),
                p == skip_blank(self.input@, from as int, false),
            decreases self.input.len() - p,
        {
            let b = self.input[p];
            if byte_is_space(b) {
                p += 1;
            } else if b == '-' as u8 && self.peek_byte(p + 1) == '-' as u8 && self.peek_byte(p + 2)
                != '[' as u8 {
                p = self.read_comment(p + 2);
            } else {
                break ;
            }
        }
        p
    }

    /// `long` where `ahead` follows the byte at `p`, else `short`, each with
    /// the place after it.
    fn check_ahead(&self, p: usize, ahead: u8, long: Token, short: Token) -> (r: (Token, usize))
        requires
            p < self.input.len(),
            ahead != 0,
        ensures
            (r.0@, r.1 as int) == two_way(self.input@, p as int, ahead, long@, short@),
            p < r.1 <= self.input.len(),
    {
        if self.peek_byte(p + 1) == ahead {
            (long, p + 2)
        } else {
            (short, p + 1)
        }
    }

    /// As `check_ahead`, with two bytes that may follow.
    fn check_ahead2(
        &self,
        p: usize,
        ahead1: u8,
        long1: Token,
        ahead2: u8,
        long2: Token,
        short: Token,
    ) -> (r: (Token, usize))
        requires
            p < self.input.len(),
            ahead1 != 0,
            ahead2 != 0,
        ensures
            (r.0@, r.1 as int) == if byte_at(self.input@, p + 1) == ahead1 {
                (long1@, p + 2)
            } else {
                two_way(self.input@, p as int, ahead2, long2@, short@)
            },
            p < r.1 <= self.input.len(),
    {
        let b = self.peek_byte(p + 1);
        if b == ahead1 {
            (long1, p + 2)
        } else if b == ahead2 {
            (long2, p + 2)
        } else {
            (short, p + 1)
        }
    }

    /// The number that the digits from `p` on spell, unless it is above
    /// `i64::MAX`, and the place after the digits.
    fn read_digits(&self, p: usize) -> (r: (Option<u64>, usize))
        requires
            p <= self.input.len(),
        ensures
            r.1 == digits_end(self.input@, p as int),
            p <= r.1 <= self.input.len(),
            is_digit(byte_at(self.input@, p as int)) ==> p < r.1,
            match r.0 {
                Some(n) => n == digits_value(self.input@, p as int, r.1 as int) && n <= i64::MAX,
                None => digits_value(self.input@, p as int, r.1 as int) > i64::MAX,
            },
    {
        let mut i: usize = p;
        let mut n: u64 = 0;
        let mut over: bool = false;
        while i < self.input.len() && byte_is_digit(self.input[i])
            invariant
                p <= i <= self.input.len(),
                digits_end(self.input@, p as int) == digits_end(self.input@, i as int),
                !over ==> n == digits_value(self.input@, p as int, i as int) && n <= i64::MAX,
                over ==> digits_value(self.input@, p as int, i as int) > i64::MAX,
            decreases self.input.len() - i,
        {
            let d: u64 = (self.input[i] - '0' as u8) as u64;
            if !over {
                if n > (9223372036854775807u64 - d) / 10 {
                    over = true;
                } else {
                    n = n * 10 + d;
                }
            }
            i += 1;
        }
        if over {
            (None, i)
        } else {
            (Some(n), i)
        }
    }

    /// Reads the fraction whose digits start at `p`, after the point.
    fn read_number_fraction(&self, whole: u64, p: usize) -> (r: Result<(Token, usize), LexError>)
        requires
            p <= self.input.len(),
        ensures
            scanned(r, fraction_at(self.input@, whole as nat, p as int)),
            r matches Ok((_, q)) ==> p <= q <= self.input.len(),
    {
        let (frac, end) = self.read_digits(p);
        match frac {
            Some(f) => Ok((Tok::Float(Decimal::new(whole, f, (end - p) as u64)), end)),
            None => Err(LexError::NumberTooLarge),
        }
    }

    /// Reads the number that starts with the digit at `p`.
    fn read_number(&self, p: usize) -> (r: Result<(Token, usize), LexError>)
        requires
            p < self.input.len(),
            is_digit(self.input@[p as int]),
        ensures
            scanned(r, number_at(self.input@, p as int)),
            r matches Ok((_, q)) ==> p < q <= self.input.len(),
    {
        if self.input[p] == '0' as u8 {
            let second = self.peek_byte(p + 1);
            if second == 'x' as u8 || second == 'X' as u8 {
                return Err(LexError::HexNumber);
            }
        }
        let (whole, end) = self.read_digits(p);
        match whole {
            None => Err(LexError::NumberTooLarge),
            Some(n) => {
                let after = self.peek_byte(end);
                if after == '.' as u8 {
                    self.read_number_fraction(n, end + 1)
                } else if after == 'e' as u8 || after == 'E' as u8 {
                    Err(LexError::Exponent)
                } else if byte_is_letter(after) {
                    Err(LexError::MalformedNumber)
                } else {
                    Ok((Tok::Integer(n as i64), end))
                }
            },
        }
    }

    /// Reads the escape that follows a backslash; `p` is the place after
    /// the backslash.
    fn read_escape(&self, p: usize) -> (r: Result<(u8, usize), LexError>)
        requires
            p <= self.input.len(),
        ensures
            match (r, escape_at(self.input@, p as int)) {
                (Ok((b, q)), Ok((bm, qm))) => b == bm && q == qm && p < q <= self.input.len(),
                (Err(e), Err(em)) => e == em,
                _ => false,
            },
    {
        if p >= self.input.len() {
            return Err(LexError::UnfinishedString);
        }
        let c = self.input[p];
        if c == 'a' as u8 {
            Ok((0x07, p + 1))
        } else if c == 'b' as u8 {
            Ok((0x08, p + 1))
        } else if c == 'f' as u8 {
            Ok((0x0c, p + 1))
        } else if c == 'v' as u8 {
            Ok((0x0b, p + 1))
        } else if c == 'n' as u8 {
            Ok(('\n' as u8, p + 1))
        } else if c == 'r' as u8 {
            Ok(('\r' as u8, p + 1))
        } else if c == 't' as u8 {
            Ok(('\t' as u8, p + 1))
        } else if c == '\\' as u8 || c == '"' as u8 || c == '\'' as u8 {
            Ok((c, p + 1))
        } else if c == 'x' as u8 {
            if p + 1 >= self.input.len() {
                return Err(LexError::UnfinishedString);
            }
            let h1 = match hex_digit(self.input[p + 1]) {
                Some(h) => h,
                None => {
                    return Err(LexError::InvalidEscape);
                },
            };
            if p + 2 >= self.input.len() {
                return Err(LexError::UnfinishedString);
            }
            let h2 = match hex_digit(self.input[p + 2]) {
                Some(h) => h,
                None => {
                    return Err(LexError::InvalidEscape);
                },
            };
            Ok((h1 * 16 + h2, p + 3))
        } else if byte_is_digit(c) {
            let mut n: u32 = (c - '0' as u8) as u32;
            let mut end: usize = p + 1;
            proof {
                reveal_with_fuel(digits_value, 4);
            }
            let d2 = self.peek_byte(p + 1);
            if byte_is_digit(d2) {
                n = n * 10 + (d2 - '0' as u8) as u32;
                end = p + 2;
                let d3 = self.peek_byte(p + 2);
                if byte_is_digit(d3) {
                    n = n * 10 + (d3 - '0' as u8) as u32;
                    end = p + 3;
                }
            }
            if n > 255 {
                Err(LexError::EscapeTooLarge)
            } else {
                Ok((n as u8, end))
            }
        } else {
            Err(LexError::InvalidEscape)
        }
    }

    /// Reads the rest of a string up to its closing `quote`; `p` is the
    /// place after the opening quote.
    fn read_string(&self, p: usize, quote: u8) -> (r: Result<(Token, usize), LexError>)
        requires
            p <= self.input.len(),
        ensures
            match (r, string_at(self.input@, p as int, quote, Seq::empty())) {
                (Ok((t, q)), Ok((bytes, qm))) => t@ == Tok::<Seq<u8>>::String(bytes) && q == qm && p
                    < q <= self.input.len(),
                (Err(e), Err(em)) => e == em,
                _ => false,
            },
    {
        let mut out: Vec<u8> = Vec::new();
        let mut i: usize = p;
        loop
            invariant
                p <= i <= self.input.len(),
                string_at(self.input@, p as int, quote, Seq::empty()) == string_at(
                    self.input@,
                    i as int,
                    quote,
                    out@,
                ),
            decreases self.input.len() - i,
        {
            if i >= self.input.len() {
                return Err(LexError::UnfinishedString);
            }
            let b = self.input[i];
            if b == '\n' as u8 {
                return Err(LexError::UnfinishedString);
            } else if b == '\\' as u8 {
                match self.read_escape(i + 1) {
                    Ok((c, q)) => {
                        out.push(c);
                        i = q;
                    },
                    Err(e) => {
                        return Err(e);
                    },
                }
            } else if b == quote {
                return Ok((Tok::String(out), i + 1));
            } else {
                out.push(b);
                i += 1;
            }
        }
    }

    /// Reads the keyword or name that starts at `p`.
    fn read_name(&self, p: usize) -> (r: (Token, usize))
        requires
            p < self.input.len(),
            is_name_start(self.input@[p as int]),
        ensures
            (r.0@, r.1 as int) == name_at(self.input@, p as int),
            p < r.1 <= self.input.len(),
    {
        let mut word: Vec<u8> = Vec::new();
        word.push(self.input[p]);
        let mut i: usize = p + 1;
        while i < self.input.len() && byte_is_name_part(self.input[i])
            invariant
                p < i <= self.input.len(),
                name_end(self.input@, p + 1) == name_end(self.input@, i as int),
                word@ == self.input@.subrange(p as int, i as int),
            decreases self.input.len() - i,
        {
            word.push(self.input[i]);
            i += 1;
            assert(word@ =~= self.input@.subrange(p as int, i as int));
        }
        proof {
            lemma_keywords_pack();
            lemma_no_keyword(keyword_table(), word@, 0);
        }
        let mut keywords = get_keyword_map();
        let found = match pack(&word) {
            Some(k) => keywords.get_value(k),
            None => None,
        };
        if let Some(t) = found {
            assert(held(keywords@, word@) == keyword(word@));
            return (t, i);
        }
        (Tok::Name(word), i)
    }
}

} // verus!
