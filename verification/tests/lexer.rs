use carcara::error::{Error, ParserError};
use carcara::parser::lexer::{Lexer, Reserved, Token};

fn lex_one(input: &str) -> Result<Token, Error> {
    Lexer::new(input, "test").next_token().map(|(tk, _)| tk)
}

fn lex_all(input: &str) -> Vec<Token> {
    let mut lex = Lexer::new(input, "test");
    let mut result = Vec::new();
    loop {
        let tk = lex.next_token().expect("lexer error during test").0;
        if tk == Token::Eof {
            break;
        }
        result.push(tk);
    }
    result
}

/// The integer numeral `v`: its sign and its decimal digits.
fn numeral(v: i64) -> Token {
    Token::Numeral(v < 0, v.unsigned_abs().to_string())
}

/// The fraction `n/d`: its sign and the decimal digits of its numerator and denominator.
fn fraction(n: i64, d: u64) -> Token {
    Token::Decimal(n < 0, n.unsigned_abs().to_string(), d.to_string())
}

fn bitvector(digits: &str, base: u32, width: usize) -> Token {
    Token::Bitvector(digits.to_owned(), base, width)
}

#[test]
fn test_empty_input() {
    assert_eq!(lex_all(""), vec![]);
    assert_eq!(lex_all("   \n  \n\n "), vec![]);
    assert_eq!(lex_all("; comment\n"), vec![]);
}

#[test]
fn test_comments() {
    assert_eq!(lex_all("; comment\n symbol\n ; comment"), vec![Token::Symbol("symbol".into())]);
    assert_eq!(
        lex_all(";\n;\nsymbol ;\n symbol"),
        vec![Token::Symbol("symbol".into()), Token::Symbol("symbol".into())]
    );
}

#[test]
fn test_simple_symbols_and_keywords() {
    let input = "foo123 :foo123 :a:b +-/*=%?!.$_~&^<>@ -starts-with-dash --double-dash";
    let expected = vec![
        Token::Symbol("foo123".into()),
        Token::Keyword("foo123".into()),
        Token::Keyword("a".into()),
        Token::Keyword("b".into()),
        Token::Symbol("+-/*=%?!.$_~&^<>@".into()),
        Token::Symbol("-starts-with-dash".into()),
        Token::Symbol("--double-dash".into()),
    ];
    assert_eq!(expected, lex_all(input));
}

#[test]
fn test_quoted_symbols() {
    let input = "|abc| abc |:abc| || |\n\t |";
    let expected = vec![
        Token::Symbol("abc".into()),
        Token::Symbol("abc".into()),
        Token::Symbol(":abc".into()),
        Token::Symbol("".into()),
        Token::Symbol("\n\t ".into()),
    ];
    assert_eq!(expected, lex_all(input));

    assert!(matches!(lex_one("|\\|"), Err(Error::Parser(ParserError::BackslashInQuotedSymbol, _, _))));

    assert!(matches!(lex_one("|"), Err(Error::Parser(ParserError::EofInQuotedSymbol, _, _))));
}

#[test]
fn test_numerals_and_decimals() {
    let input = "42 3.14159 -137 8/3 -5/2 1/1 0/2";
    let expected = vec![
        numeral(42),
        fraction(314_159, 100_000),
        numeral(-137),
        fraction(8, 3),
        fraction(-5, 2),
        fraction(1, 1),
        fraction(0, 2),
    ];
    assert_eq!(expected, lex_all(input));

    assert!(matches!(lex_one("0123"), Err(Error::Parser(ParserError::LeadingZero(_), _, _))));
    assert!(matches!(lex_one("1.2.3"), Err(Error::Parser(ParserError::UnexpectedChar(_), _, _))));
    assert!(matches!(lex_one("1/2.3"), Err(Error::Parser(ParserError::UnexpectedChar(_), _, _))));
    assert!(matches!(lex_one("1.2/3"), Err(Error::Parser(ParserError::UnexpectedChar(_), _, _))));
    assert!(matches!(lex_one("1/0"), Err(Error::Parser(ParserError::DivisionByZeroInLiteral(_), _, _))));
}

#[test]
fn test_bitvectors() {
    let input = "#b101010 #xdeadbeef #b1 #x0";
    let expected = vec![
        bitvector("101010", 2, 6),
        bitvector("deadbeef", 16, 32),
        bitvector("1", 2, 1),
        bitvector("0", 16, 4),
    ];
    assert_eq!(expected, lex_all(input));

    assert!(matches!(lex_one("#o123"), Err(Error::Parser(ParserError::UnexpectedChar('o'), _, _)),));

    assert!(matches!(lex_one("#"), Err(Error::Parser(ParserError::EmptyBitvector, _, _)),));

    assert!(matches!(lex_one("#b"), Err(Error::Parser(ParserError::EmptyBitvector, _, _)),));
}

#[test]
fn test_strings() {
    let input = r#" "string" "escaped quote: """ """" """""" "\u0061" "\u{0061}" "#;
    let expected = vec![
        Token::String("string".into()),
        Token::String("escaped quote: \"".into()),
        Token::String("\"".into()),
        Token::String("\"\"".into()),
        Token::String("a".into()),
        Token::String("a".into()),
    ];
    assert_eq!(expected, lex_all(input));

    assert!(matches!(lex_one("\""), Err(Error::Parser(ParserError::EofInString, _, _))));
    assert!(matches!(lex_one("\"\\u{de01}\""), Err(Error::Parser(ParserError::InvalidUnicode(_), _, _))));
}

#[test]
fn test_weird_unicode_escape_sequences() {
    let input = r#"
            "\u{61}" "\u{00061}" "\u{000061}" "\u00061" "\u61"
            "\u" "\u{12x4}" "\u{123" "\u{}" "\u{30000}" "#;
    let expected = [
        "a",
        "a",
        "\\u{000061}",
        "\u{0006}1",
        "\\u61",
        "\\u",
        "\\u{12x4}",
        "\\u{123",
        "\\u{}",
        "\\u{30000}",
    ]
    .map(str::to_owned)
    .map(Token::String);
    assert_eq!(expected.as_slice(), lex_all(input));
}

#[test]
fn test_reserved_words() {
    let input = "_ ! as let exists |_| |!| |as| |let| |exists|";
    let expected = vec![
        Token::ReservedWord(Reserved::Underscore),
        Token::ReservedWord(Reserved::Bang),
        Token::ReservedWord(Reserved::As),
        Token::ReservedWord(Reserved::Let),
        Token::ReservedWord(Reserved::Exists),
        Token::Symbol("_".into()),
        Token::Symbol("!".into()),
        Token::Symbol("as".into()),
        Token::Symbol("let".into()),
        Token::Symbol("exists".into()),
    ];
    assert_eq!(expected, lex_all(input));
}

#[test]
fn tokens_carry_their_start_positions() {
    let mut lex = Lexer::new("(foo\n  :bar)", "test");
    assert_eq!(lex.next_token().unwrap(), (Token::OpenParen, (1, 1)));
    assert_eq!(lex.next_token().unwrap(), (Token::Symbol("foo".into()), (1, 2)));
    assert_eq!(lex.next_token().unwrap(), (Token::Keyword("bar".into()), (2, 3)));
    assert_eq!(lex.next_token().unwrap(), (Token::CloseParen, (2, 7)));
    assert_eq!(lex.next_token().unwrap(), (Token::Eof, (2, 8)));
}

#[test]
fn lexer_errors_carry_their_positions() {
    match lex_one("  \u{1}") {
        Err(Error::Parser(ParserError::UnexpectedChar(c), pos, _)) => {
            assert_eq!(c, '\u{1}');
            assert_eq!(pos, (1, 3));
        }
        other => panic!("{:?}", other),
    }
    match lex_one("1/00") {
        Err(Error::Parser(ParserError::DivisionByZeroInLiteral(m), pos, _)) => {
            assert_eq!(m, "1/0");
            assert_eq!(pos, (1, 5));
        }
        other => panic!("{:?}", other),
    }
    assert!(matches!(lex_one("-"), Ok(Token::Symbol(s)) if s == "-"));
    assert_eq!(lex_one("-0.50").unwrap(), Token::Decimal(true, "050".into(), "100".into()));
}

/// Reads the escape sequence at the start of `rest`, after `\u`, into an empty string.
fn escape(rest: &str) -> (Result<(), Error>, String, Option<char>) {
    let mut lexer = Lexer::new(rest, "input");
    let mut result = String::new();
    let res = lexer.read_unicode_escape_sequence(&mut result);
    (res, result, lexer.current())
}

#[test]
fn characters_and_positions() {
    let mut lexer = Lexer::new("ab\ncé\n", "input");
    assert_eq!(lexer.position(), (1, 1));
    assert_eq!(lexer.next_char(), Some('a'));
    assert_eq!(lexer.position(), (1, 2));
    lexer.next_char();
    assert_eq!(lexer.next_char(), Some('\n'));
    assert_eq!(lexer.position(), (2, 1));
    assert_eq!(lexer.next_char(), Some('c'));
    assert_eq!(lexer.current(), Some('é'));
    lexer.next_char();
    // columns count bytes: 'é' takes two
    assert_eq!(lexer.position(), (2, 4));
    lexer.next_char();
    assert_eq!(lexer.next_char(), None);
    assert_eq!(lexer.current(), None);
}

#[test]
fn next_line_and_whitespace() {
    let mut lexer = Lexer::new("skip this\n  ; comment\n  x", "input");
    lexer.next_line();
    assert_eq!(lexer.position(), (2, 1));
    lexer.consume_whitespace();
    assert_eq!(lexer.current(), Some('x'));
    assert_eq!(lexer.position(), (3, 3));
    let mut other = Lexer::new(" \t\r\n y", "input");
    other.drop_while_whitespace();
    assert_eq!(other.current(), Some('y'));
}

#[test]
fn read_chars_while_a_predicate_holds() {
    let mut lexer = Lexer::new("abc123", "input");
    let letters = lexer.read_chars_while(|c| c.is_ascii_alphabetic());
    assert_eq!(letters, "abc");
    assert_eq!(lexer.current(), Some('1'));
}

#[test]
fn error_carries_position_and_name() {
    let mut lexer = Lexer::new("ab", "file.smt2");
    lexer.next_char();
    match lexer.err(ParserError::EofInString) {
        Error::Parser(inner, pos, name) => {
            assert_eq!(inner, ParserError::EofInString);
            assert_eq!(pos, (1, 2));
            assert_eq!(name, "file.smt2");
        }
        _ => panic!("not a parser error"),
    }
}

#[test]
fn braced_unicode_escapes() {
    let (res, out, next) = escape("{0061}rest");
    assert!(res.is_ok());
    assert_eq!(out, "a");
    assert_eq!(next, Some('r'));
    let (res, out, _) = escape("{1F600}");
    assert!(res.is_ok());
    assert_eq!(out, "\u{1F600}");
    // beyond the planes 0 to 2, the sequence is kept as written
    let (res, out, _) = escape("{30000}");
    assert!(res.is_ok());
    assert_eq!(out, "\\u{30000}");
    let (res, out, _) = escape("{}");
    assert!(res.is_ok());
    assert_eq!(out, "\\u{}");
    // not closed after five digits: kept as written, without the brace
    let (res, out, next) = escape("{123456}");
    assert!(res.is_ok());
    assert_eq!(out, "\\u{12345");
    assert_eq!(next, Some('6'));
}

#[test]
fn short_unicode_escapes() {
    let (res, out, _) = escape("0061");
    assert!(res.is_ok());
    assert_eq!(out, "a");
    let (res, out, next) = escape("61x");
    assert!(res.is_ok());
    assert_eq!(out, "\\u61");
    assert_eq!(next, Some('x'));
}

#[test]
fn unicode_escape_errors() {
    let (res, out, _) = escape("D800");
    assert!(matches!(res, Err(Error::Parser(ParserError::InvalidUnicode(ref d), _, _)) if d == "D800"));
    assert_eq!(out, "");
    let (res, _, _) = escape("{D800}");
    assert!(matches!(res, Err(Error::Parser(ParserError::InvalidUnicode(ref d), _, _)) if d == "D800"));
    let (res, _, _) = escape("");
    assert!(matches!(res, Err(Error::Parser(ParserError::EofInString, _, _))));
    let (res, _, _) = escape("{12");
    assert!(matches!(res, Err(Error::Parser(ParserError::EofInString, _, _))));
    let (res, _, _) = escape("00");
    assert!(matches!(res, Err(Error::Parser(ParserError::EofInString, _, _))));
}

#[test]
fn parser_error_messages() {
    assert_eq!(carcara::error::ParserError::InvalidUnicode("d800".to_string()).message(), "invalid unicode value: 'd800'");
    assert_eq!(carcara::error::ParserError::UnexpectedChar('#').message(), "unexpected character: '#'");
    assert_eq!(carcara::error::ParserError::LeadingZero("01".to_string()).message(), "leading zero in numeral '01'");
    assert_eq!(carcara::error::ParserError::EofInString.message(), "unexpected end of input in string literal");
}

#[test]
fn cli_error_messages() {
    assert_eq!(carcara::cli::CliError::InvalidSliceId("t3".to_string()).message(), Some("invalid id for slice: t3".to_string()));
    assert_eq!(carcara::cli::CliError::BothFilesStdin.message(), Some("problem and proof files can't both be `-`".to_string()));
    assert_eq!(carcara::cli::CliError::CantInferProblemFile("a.alethe".to_string()).message(), Some("can't infer problem file: a.alethe".to_string()));
}
