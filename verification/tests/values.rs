use lolcode_lexer::{is_space, Token, Tokenizer, Value};

#[test]
fn default_is_noob() {
    assert_eq!(Value::default(), Value::Noob);
}

#[test]
fn cast_yarn_renders_values() {
    assert_eq!(Value::Noob.cast_yarn(), None);
    assert_eq!(
        Value::Yarn("hi".to_string()).cast_yarn(),
        Some("hi".to_string())
    );
    assert_eq!(Value::Numbr(12).cast_yarn(), Some("12".to_string()));
    assert_eq!(Value::Numbr(0).cast_yarn(), Some("0".to_string()));
    assert_eq!(Value::Numbr(-5).cast_yarn(), Some("-5".to_string()));
    assert_eq!(
        Value::Numbr(i64::MIN).cast_yarn(),
        Some("-9223372036854775808".to_string())
    );
    assert_eq!(
        Value::Numbar("4.2".to_string()).cast_yarn(),
        Some("4.2".to_string())
    );
    assert_eq!(Value::Troof(true).cast_yarn(), Some("true".to_string()));
    assert_eq!(Value::Troof(false).cast_yarn(), Some("false".to_string()));
}

#[test]
fn cast_numbr_parses_and_truncates() {
    assert_eq!(Value::Noob.cast_numbr(), None);
    assert_eq!(Value::Numbr(7).cast_numbr(), Some(7));
    assert_eq!(Value::Troof(true).cast_numbr(), Some(1));
    assert_eq!(Value::Troof(false).cast_numbr(), Some(0));
    assert_eq!(Value::Yarn("42".to_string()).cast_numbr(), Some(42));
    assert_eq!(Value::Yarn("-7".to_string()).cast_numbr(), Some(-7));
    assert_eq!(
        Value::Yarn("-9223372036854775808".to_string()).cast_numbr(),
        Some(i64::MIN)
    );
    assert_eq!(Value::Yarn("abc".to_string()).cast_numbr(), Some(0));
    assert_eq!(Value::Yarn("4.2".to_string()).cast_numbr(), Some(0));
    assert_eq!(Value::Numbar("4.9".to_string()).cast_numbr(), Some(4));
    assert_eq!(Value::Numbar("0.9".to_string()).cast_numbr(), Some(0));
    assert_eq!(Value::Numbar("1e3".to_string()).cast_numbr(), Some(1000));
    assert_eq!(Value::Numbar("2.5e2".to_string()).cast_numbr(), Some(250));
    assert_eq!(Value::Numbar("123.456e1".to_string()).cast_numbr(), Some(1234));
    assert_eq!(Value::Numbar("1e-5".to_string()).cast_numbr(), Some(0));
    assert_eq!(
        Value::Numbar("1e30".to_string()).cast_numbr(),
        Some(i64::MAX)
    );
}

#[test]
fn cast_troof_follows_the_value() {
    assert_eq!(Value::Noob.cast_troof(), false);
    assert_eq!(Value::Yarn(String::new()).cast_troof(), true);
    assert_eq!(Value::Yarn("x".to_string()).cast_troof(), false);
    assert_eq!(Value::Numbr(0).cast_troof(), false);
    assert_eq!(Value::Numbr(3).cast_troof(), true);
    assert_eq!(Value::Numbar("0.0".to_string()).cast_troof(), false);
    assert_eq!(Value::Numbar("0e5".to_string()).cast_troof(), false);
    assert_eq!(Value::Numbar("0.1".to_string()).cast_troof(), true);
    assert_eq!(Value::Troof(true).cast_troof(), true);
    assert_eq!(Value::Troof(false).cast_troof(), false);
}

#[test]
fn is_numbar_checks_the_float_grammar() {
    assert!(Value::Numbar("4.2".to_string()).is_numbar());
    assert!(Value::Yarn("4.2".to_string()).is_numbar());
    assert!(Value::Yarn("-1.5e-3".to_string()).is_numbar());
    assert!(Value::Yarn("inf".to_string()).is_numbar());
    assert!(Value::Yarn("Infinity".to_string()).is_numbar());
    assert!(Value::Yarn("NaN".to_string()).is_numbar());
    assert!(!Value::Yarn("x".to_string()).is_numbar());
    assert!(!Value::Yarn("1.2.3".to_string()).is_numbar());
    assert!(!Value::Yarn("1e".to_string()).is_numbar());
    assert!(!Value::Numbr(4).is_numbar());
    assert!(!Value::Noob.is_numbar());
    assert!(!Value::Troof(true).is_numbar());
}

#[test]
fn spaces_are_horizontal_only() {
    assert!(is_space(' '));
    assert!(is_space('\t'));
    assert!(!is_space('\n'));
    assert!(!is_space(','));
}

#[test]
fn scanner_words_and_peeking() {
    let mut tk = Tokenizer::new("AB  CD");
    assert_eq!(tk.word(), "AB".to_string());
    assert_eq!(tk.peek(), Some('C'));
    assert_eq!(tk.word(), "CD".to_string());
    assert_eq!(tk.peek(), None);
}

#[test]
fn scanner_steps_one_token_at_a_time() {
    let mut tk = Tokenizer::new("SUM OF 1");
    assert_eq!(tk.next(), Ok(Some(Token::SumOf)));
    assert_eq!(tk.next(), Ok(Some(Token::Value(Value::Numbr(1)))));
    assert_eq!(tk.next(), Ok(None));
}

#[test]
fn trim_consumes_horizontal_whitespace_only() {
    let mut tk = Tokenizer::new(" \t X");
    tk.trim();
    assert_eq!(tk.word(), "X".to_string());
    let mut tk2 = Tokenizer::new("\nX");
    tk2.trim();
    assert_eq!(tk2.peek(), Some('\n'));
}

#[test]
fn word_stops_at_separators() {
    let mut tk = Tokenizer::new("AB,CD");
    assert_eq!(tk.word(), "AB".to_string());
    assert_eq!(tk.peek(), Some(','));
}
