use taskflow::parser::config_parser::lexer::{lex_line, Token};
use taskflow::text::{chars_of, lowercase_chars, parse_i64};

fn cs(s: &str) -> Vec<char> {
    s.chars().collect()
}

#[test]
fn parse_i64_reads_like_from_str() {
    for text in ["0", "42", "-7", "+13", "007", "-0", "9223372036854775807", "-9223372036854775808"] {
        assert_eq!(parse_i64(&cs(text)), text.parse::<i64>().ok(), "{}", text);
    }
    for text in ["", "-", "+", "1.5", "12x", " 1", "--1", "9223372036854775808", "-9223372036854775809", "99999999999999999999999"] {
        assert_eq!(parse_i64(&cs(text)), None, "{}", text);
        assert!(text.parse::<i64>().is_err());
    }
}

#[test]
fn chars_of_keeps_every_character() {
    assert_eq!(chars_of("aé✓"), vec!['a', 'é', '✓']);
    assert!(chars_of("").is_empty());
}

#[test]
fn lowercase_touches_ascii_letters_only() {
    assert_eq!(lowercase_chars(&cs("LiSt_Of_NUMBER-9")), cs("list_of_number-9"));
}

#[test]
fn lexer_splits_words_quotes_and_punctuation() {
    let toks = lex_line(&cs("k = \"a b\", x:y # rest")).unwrap();
    assert_eq!(toks.len(), 7);
    assert!(matches!(&toks[0], Token::Word(w) if *w == cs("k")));
    assert!(matches!(&toks[1], Token::Punct('=')));
    assert!(matches!(&toks[2], Token::Quoted(q) if *q == cs("a b")));
    assert!(matches!(&toks[3], Token::Punct(',')));
    assert!(matches!(&toks[4], Token::Word(w) if *w == cs("x")));
    assert!(matches!(&toks[5], Token::Punct(':')));
    assert!(matches!(&toks[6], Token::Word(w) if *w == cs("y")));
}

#[test]
fn lexer_refuses_unknown_characters_and_open_quotes() {
    assert!(lex_line(&cs("a ! b")).is_none());
    assert!(lex_line(&cs("\"open")).is_none());
    assert!(lex_line(&cs("   ")).unwrap().is_empty());
}
