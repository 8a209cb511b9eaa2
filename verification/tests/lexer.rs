use luar::lex::{Lex, LexError, Token};
use luar::number::Decimal;

fn all(input: &str) -> Result<Vec<Token>, LexError> {
    let mut lex = Lex::new(input.as_bytes().to_vec());
    let mut out = Vec::new();
    loop {
        match lex.next()? {
            Some(t) => out.push(t),
            None => return Ok(out),
        }
    }
}

fn name(s: &str) -> Token {
    Token::Name(s.as_bytes().to_vec())
}

fn string(s: &[u8]) -> Token {
    Token::String(s.to_vec())
}

fn float(whole: u64, frac: u64, scale: u64) -> Token {
    Token::Float(Decimal { whole, frac, scale })
}

#[test]
fn a_local_declaration() {
    assert_eq!(
        all("local a = 1"),
        Ok(vec![Token::Local, name("a"), Token::Assign, Token::Integer(1)])
    );
}

#[test]
fn empty_input_has_no_token() {
    assert_eq!(all(""), Ok(vec![]));
    assert_eq!(all(" \t\r\n  "), Ok(vec![]));
}

#[test]
fn every_keyword() {
    assert_eq!(
        all("and break do else elseif end false for function goto if in local nil not or repeat return then true until while"),
        Ok(vec![
            Token::And, Token::Break, Token::Do, Token::Else, Token::Elseif, Token::End,
            Token::False, Token::For, Token::Function, Token::Goto, Token::If, Token::In,
            Token::Local, Token::Nil, Token::Not, Token::Or, Token::Repeat, Token::Return,
            Token::Then, Token::True, Token::Until, Token::While,
        ])
    );
}

#[test]
fn a_keyword_is_matched_by_its_whole_spelling_only() {
    assert_eq!(
        all("and andy an And _and end1 nil_"),
        Ok(vec![
            Token::And, name("andy"), name("an"), name("And"), name("_and"), name("end1"),
            name("nil_"),
        ])
    );
}

#[test]
fn every_operator() {
    assert_eq!(
        all("+ - * / % ^ # & ~ | << >> // == ~= <= >= < > = ( ) { } [ ] :: ; : , . .. ..."),
        Ok(vec![
            Token::Add, Token::Sub, Token::Mul, Token::Div, Token::Mod, Token::Pow, Token::Len,
            Token::BitAnd, Token::BitXor, Token::BitOr, Token::ShiftL, Token::ShiftR, Token::Idiv,
            Token::Equal, Token::NotEq, Token::LesEq, Token::GreEq, Token::Less, Token::Greater,
            Token::Assign, Token::ParL, Token::ParR, Token::CurlyL, Token::CurlyR, Token::SqurL,
            Token::SqurR, Token::DoubColon, Token::SemiColon, Token::Colon, Token::Comma,
            Token::Dot, Token::Concat, Token::Dots,
        ])
    );
}

#[test]
fn operators_without_space_take_the_longest_spelling() {
    assert_eq!(all("<<="), Ok(vec![Token::ShiftL, Token::Assign]));
    assert_eq!(all("<=="), Ok(vec![Token::LesEq, Token::Assign]));
    assert_eq!(all(">>>"), Ok(vec![Token::ShiftR, Token::Greater]));
    assert_eq!(all("...."), Ok(vec![Token::Dots, Token::Dot]));
    assert_eq!(all("///"), Ok(vec![Token::Idiv, Token::Div]));
    assert_eq!(all(":::"), Ok(vec![Token::DoubColon, Token::Colon]));
    assert_eq!(all("~=="), Ok(vec![Token::NotEq, Token::Assign]));
    assert_eq!(all("a-b"), Ok(vec![name("a"), Token::Sub, name("b")]));
}

#[test]
fn integers() {
    assert_eq!(all("0"), Ok(vec![Token::Integer(0)]));
    assert_eq!(all("007"), Ok(vec![Token::Integer(7)]));
    assert_eq!(all("123 456"), Ok(vec![Token::Integer(123), Token::Integer(456)]));
    assert_eq!(all("9223372036854775807"), Ok(vec![Token::Integer(i64::MAX)]));
    assert_eq!(all("12)"), Ok(vec![Token::Integer(12), Token::ParR]));
}

#[test]
fn an_integer_above_the_greatest_is_refused() {
    assert_eq!(all("9223372036854775808"), Err(LexError::NumberTooLarge));
    assert_eq!(all("99999999999999999999999999"), Err(LexError::NumberTooLarge));
    assert_eq!(all("1.9223372036854775808"), Err(LexError::NumberTooLarge));
}

#[test]
fn numbers_with_a_fraction() {
    assert_eq!(all("2.5"), Ok(vec![float(2, 5, 1)]));
    assert_eq!(all("3.14"), Ok(vec![float(3, 14, 2)]));
    assert_eq!(all("0.05"), Ok(vec![float(0, 5, 2)]));
    assert_eq!(all(".5"), Ok(vec![float(0, 5, 1)]));
    assert_eq!(all("3."), Ok(vec![float(3, 0, 0)]));
    assert_eq!(all("1.0"), Ok(vec![float(1, 0, 0)]));
    assert_eq!(all("1.9223372036854775807"), Ok(vec![float(1, 9223372036854775807, 19)]));
}

#[test]
fn equal_numbers_give_equal_tokens() {
    assert_eq!(all("2.5"), all("2.50"));
    assert_eq!(all("2.5"), all("2.5000000000"));
    assert_eq!(all("2.0"), all("2."));
    assert_eq!(all("0.000"), all(".0"));
    assert_ne!(all("2.5"), all("2.05"));
    assert_ne!(all("2"), all("2.0"));
}

#[test]
fn what_follows_a_fraction_is_the_next_token() {
    assert_eq!(all("1.5abc"), Ok(vec![float(1, 5, 1), name("abc")]));
    assert_eq!(all("1.5.25"), Ok(vec![float(1, 5, 1), float(0, 25, 2)]));
    assert_eq!(all("1..2"), Ok(vec![float(1, 0, 0), float(0, 2, 1)]));
}

#[test]
fn numbers_that_are_not_read() {
    assert_eq!(all("0x10"), Err(LexError::HexNumber));
    assert_eq!(all("0X1F"), Err(LexError::HexNumber));
    assert_eq!(all("1e5"), Err(LexError::Exponent));
    assert_eq!(all("12E3"), Err(LexError::Exponent));
    assert_eq!(all("12abc"), Err(LexError::MalformedNumber));
    assert_eq!(all("1x"), Err(LexError::MalformedNumber));
    assert_eq!(all("12_"), Ok(vec![Token::Integer(12), name("_")]));
}

#[test]
fn strings_in_both_quotes() {
    assert_eq!(all("\"hello\""), Ok(vec![string(b"hello")]));
    assert_eq!(all("'hello'"), Ok(vec![string(b"hello")]));
    assert_eq!(all("\"it's\""), Ok(vec![string(b"it's")]));
    assert_eq!(all("'say \"hi\"'"), Ok(vec![string(b"say \"hi\"")]));
    assert_eq!(all("\"\""), Ok(vec![string(b"")]));
    assert_eq!(all("\"a\"\"b\""), Ok(vec![string(b"a"), string(b"b")]));
}

#[test]
fn escapes_in_strings() {
    assert_eq!(
        all(r#""\a\b\f\v\n\r\t\\\"\'""#),
        Ok(vec![string(&[0x07, 0x08, 0x0c, 0x0b, b'\n', b'\r', b'\t', b'\\', b'"', b'\''])])
    );
    assert_eq!(all(r#""\x41\x6a\xFf\x00""#), Ok(vec![string(&[0x41, 0x6a, 0xff, 0x00])]));
    assert_eq!(all(r#""\65\066\0671\255\0""#), Ok(vec![string(&[65, 66, 67, b'1', 255, 0])]));
    assert_eq!(all(r#""\9z""#), Ok(vec![string(&[9, b'z'])]));
}

#[test]
fn escapes_that_are_none() {
    assert_eq!(all(r#""\q""#), Err(LexError::InvalidEscape));
    assert_eq!(all(r#""\xg1""#), Err(LexError::InvalidEscape));
    assert_eq!(all(r#""\x1g""#), Err(LexError::InvalidEscape));
    assert_eq!(all(r#""\256""#), Err(LexError::EscapeTooLarge));
    assert_eq!(all(r#""\999""#), Err(LexError::EscapeTooLarge));
}

#[test]
fn unfinished_strings() {
    assert_eq!(all("\"abc"), Err(LexError::UnfinishedString));
    assert_eq!(all("\"abc'"), Err(LexError::UnfinishedString));
    assert_eq!(all("\"a\nb\""), Err(LexError::UnfinishedString));
    assert_eq!(all("\"abc\\"), Err(LexError::UnfinishedString));
    assert_eq!(all("\"abc\\x"), Err(LexError::UnfinishedString));
    assert_eq!(all("\"abc\\x4"), Err(LexError::UnfinishedString));
    assert_eq!(all("'"), Err(LexError::UnfinishedString));
}

#[test]
fn comments_run_through_the_end_of_the_line() {
    assert_eq!(all("-- hello\nprint"), Ok(vec![name("print")]));
    assert_eq!(all("a -- b c d\n-- e\n  f"), Ok(vec![name("a"), name("f")]));
    assert_eq!(all("a --"), Ok(vec![name("a")]));
    assert_eq!(all("a -- no end of line"), Ok(vec![name("a")]));
    assert_eq!(all("--\nprint"), Ok(vec![name("print")]));
    assert_eq!(all("--x[[\nprint"), Ok(vec![name("print")]));
}

#[test]
fn long_comments_are_not_read() {
    assert_eq!(all("--[[ x ]]"), Err(LexError::LongComment));
    assert_eq!(all("a --[ x"), Err(LexError::LongComment));
}

#[test]
fn bytes_that_start_no_token() {
    assert_eq!(all("@"), Err(LexError::InvalidByte(b'@')));
    assert_eq!(all("a $"), Err(LexError::InvalidByte(b'$')));
    assert_eq!(all("!"), Err(LexError::InvalidByte(b'!')));
    assert_eq!(all("`"), Err(LexError::InvalidByte(b'`')));
    let mut lex = Lex::new(vec![b'a', 0, b'b']);
    assert_eq!(lex.next(), Ok(Some(name("a"))));
    assert_eq!(lex.next(), Err(LexError::InvalidByte(0)));
    let mut lex = Lex::new(vec![b'a', 0xc3, 0xa9]);
    assert_eq!(lex.next(), Ok(Some(name("a"))));
    assert_eq!(lex.next(), Err(LexError::InvalidByte(0xc3)));
}

#[test]
fn the_tokens_before_an_error_are_handed_out() {
    let mut lex = Lex::new(b"local a = @".to_vec());
    assert_eq!(lex.next(), Ok(Some(Token::Local)));
    assert_eq!(lex.next(), Ok(Some(name("a"))));
    assert_eq!(lex.next(), Ok(Some(Token::Assign)));
    assert_eq!(lex.next(), Err(LexError::InvalidByte(b'@')));
    assert_eq!(lex.next(), Err(LexError::InvalidByte(b'@')));
    assert_eq!(lex.peek(), Err(LexError::InvalidByte(b'@')));
}

#[test]
fn peek_shows_what_next_takes() {
    let mut lex = Lex::new(b"a = 1".to_vec());
    assert_eq!(lex.peek(), Ok(Some(&name("a"))));
    assert_eq!(lex.peek(), Ok(Some(&name("a"))));
    assert_eq!(lex.next(), Ok(Some(name("a"))));
    assert_eq!(lex.next(), Ok(Some(Token::Assign)));
    assert_eq!(lex.peek(), Ok(Some(&Token::Integer(1))));
    assert_eq!(lex.next(), Ok(Some(Token::Integer(1))));
    assert_eq!(lex.peek(), Ok(None));
    assert_eq!(lex.next(), Ok(None));
    assert_eq!(lex.next(), Ok(None));
    assert_eq!(lex.peek(), Ok(None));
}

#[test]
fn scan_reads_from_a_place() {
    let lex = Lex::new(b"ab  cd".to_vec());
    assert_eq!(lex.scan(0), Ok((Some(name("ab")), 2)));
    assert_eq!(lex.scan(1), Ok((Some(name("b")), 2)));
    assert_eq!(lex.scan(2), Ok((Some(name("cd")), 6)));
    assert_eq!(lex.scan(6), Ok((None, 6)));
    assert_eq!(lex.scan(60), Ok((None, 60)));
}

#[test]
fn the_keyword_list_has_each_keyword_once() {
    let table = luar::lex::keyword_list();
    assert_eq!(table.len(), 22);
    for i in 0..table.len() {
        for j in 0..i {
            assert_ne!(table[i].0, table[j].0);
            assert_ne!(table[i].1, table[j].1);
        }
    }
    assert_eq!(table[0], (b"and".to_vec(), Token::And));
    assert_eq!(table[21], (b"while".to_vec(), Token::While));
}

fn key(word: &str) -> u64 {
    word.bytes().fold(0, |k, b| k * 256 + b as u64)
}

#[test]
fn the_keyword_map_holds_each_keyword_under_its_key() {
    let mut map = luar::lex::get_keyword_map();
    for (spelling, token) in luar::lex::keyword_list() {
        let word = String::from_utf8(spelling).unwrap();
        assert_eq!(map.get_value(key(&word)), Some(token));
    }
    assert_eq!(key("do"), 25711);
    assert_eq!(map.get_value(25711), Some(Token::Do));
    assert_eq!(map.get_value(key("function")), Some(Token::Function));
    assert_eq!(map.get_value(key("functio")), None);
    assert_eq!(map.get_value(key("Do")), None);
    assert_eq!(map.get_value(key("d")), None);
    assert_eq!(map.get_value(0), None);
}

#[test]
fn long_names_and_names_near_keywords() {
    assert_eq!(
        all("functions function_ afunction function9 averyveryverylongname12345678901234567890"),
        Ok(vec![
            name("functions"),
            name("function_"),
            name("afunction"),
            name("function9"),
            name("averyveryverylongname12345678901234567890"),
        ])
    );
    assert_eq!(all("elseif else if elsei elseiff"), Ok(vec![Token::Elseif, Token::Else, Token::If, name("elsei"), name("elseiff")]));
}
