use lolcode_lexer::{tokenize, Error, Token, Value};

#[test]
fn strings() {
    assert_eq!(
        tokenize(r#" "Hello World :) How are you :>? I'm:: :"fine:"" "#).unwrap(),
        &[Token::Value(Value::Yarn(
            "Hello World \n How are you \t? I'm: \"fine\"".to_string()
        ))]
    );
}

#[test]
fn assign() {
    assert_eq!(
        tokenize("I HAS A VAR ITZ 12           BTW this is a comment").unwrap(),
        &[
            Token::IHasA,
            Token::Ident("VAR".to_string()),
            Token::Itz,
            Token::Value(Value::Numbr(12))
        ]
    );
}

#[test]
fn sum_of() {
    assert_eq!(
        tokenize("SUM OF OBTW hi TLDR 2 AN 4").unwrap(),
        &[
            Token::SumOf,
            Token::Value(Value::Numbr(2)),
            Token::An,
            Token::Value(Value::Numbr(4))
        ]
    );
}

#[test]
fn ifs() {
    assert_eq!(
        tokenize(
            "\
                BOTH SAEM 1 AN 1, O RLY?
                    YA RLY, RESULT R \"YES\"
                    MEBBE BOTH SAEM 1 AN 2, RESULT R \"CLOSE\"
                    NO WAI, RESULT R \"NO\"
                OIC\
            "
        )
        .unwrap(),
        &[
            Token::BothSaem,
            Token::Value(Value::Numbr(1)),
            Token::An,
            Token::Value(Value::Numbr(1)),
            Token::Separator,
            Token::ORly,
            Token::Separator,
            Token::YaRly,
            Token::Separator,
            Token::Ident("RESULT".to_string()),
            Token::R,
            Token::Value(Value::Yarn("YES".to_string())),
            Token::Separator,
            Token::Mebbe,
            Token::BothSaem,
            Token::Value(Value::Numbr(1)),
            Token::An,
            Token::Value(Value::Numbr(2)),
            Token::Separator,
            Token::Ident("RESULT".to_string()),
            Token::R,
            Token::Value(Value::Yarn("CLOSE".to_string())),
            Token::Separator,
            Token::NoWai,
            Token::Separator,
            Token::Ident("RESULT".to_string()),
            Token::R,
            Token::Value(Value::Yarn("NO".to_string())),
            Token::Separator,
            Token::Oic
        ]
    );
}

#[test]
fn sum_alone_is_ident() {
    assert_eq!(
        tokenize("SUM").unwrap(),
        &[Token::Ident("SUM".to_string())]
    );
}

#[test]
fn sum_of_two_an_four() {
    assert_eq!(
        tokenize("SUM OF 2 AN 4").unwrap(),
        &[
            Token::SumOf,
            Token::Value(Value::Numbr(2)),
            Token::An,
            Token::Value(Value::Numbr(4))
        ]
    );
}

#[test]
fn i_has_a_var_itz_12() {
    assert_eq!(
        tokenize("I HAS A VAR ITZ 12").unwrap(),
        &[
            Token::IHasA,
            Token::Ident("VAR".to_string()),
            Token::Itz,
            Token::Value(Value::Numbr(12))
        ]
    );
}

#[test]
fn string_escapes() {
    assert_eq!(
        tokenize("\"Hi:) :>there:o:\"end:\"\"").unwrap(),
        &[Token::Value(Value::Yarn(
            "Hi\n \tthere\x07\"end\"".to_string()
        ))]
    );
}

#[test]
fn numeric_classification() {
    assert_eq!(
        tokenize("42").unwrap(),
        &[Token::Value(Value::Numbr(42))]
    );
    assert_eq!(
        tokenize("4.2").unwrap(),
        &[Token::Value(Value::Numbar("4.2".to_string()))]
    );
    assert_eq!(tokenize("4a"), Err(Error::InvalidNumber("4a".to_string())));
}

#[test]
fn number_too_big_for_integer_is_float() {
    assert_eq!(
        tokenize("9223372036854775808").unwrap(),
        &[Token::Value(Value::Numbar("9223372036854775808".to_string()))]
    );
    assert_eq!(
        tokenize("9223372036854775807").unwrap(),
        &[Token::Value(Value::Numbr(9223372036854775807))]
    );
}

#[test]
fn separators() {
    assert_eq!(
        tokenize("A\nB").unwrap(),
        &[
            Token::Ident("A".to_string()),
            Token::Separator,
            Token::Ident("B".to_string())
        ]
    );
    assert_eq!(
        tokenize("A,B").unwrap(),
        &[
            Token::Ident("A".to_string()),
            Token::Separator,
            Token::Ident("B".to_string())
        ]
    );
    assert_eq!(
        tokenize("A B").unwrap(),
        &[Token::Ident("A".to_string()), Token::Ident("B".to_string())]
    );
}

#[test]
fn invalid_ident() {
    assert_eq!(tokenize("FOO-BAR"), Err(Error::InvalidIdent('-')));
}

#[test]
fn unclosed_comment() {
    assert_eq!(tokenize("OBTW nothing ends this"), Err(Error::UnclosedComment));
}

#[test]
fn unclosed_string() {
    assert_eq!(tokenize("\"abc"), Err(Error::UnclosedString));
    assert_eq!(tokenize("\"abc:"), Err(Error::UnclosedString));
}

#[test]
fn unknown_escape() {
    assert_eq!(tokenize("\"a:z\""), Err(Error::UnknownEscape('z')));
}

#[test]
fn unknown_token() {
    assert_eq!(tokenize("#"), Err(Error::UnknownToken));
}

#[test]
fn block_comment_closer_must_stand_alone() {
    // After a word that begins with `T` but is not `TLDR`, the scanner
    // drops one further character, so the real `TLDR` here is never seen.
    assert_eq!(tokenize("OBTW TLDRX TLDR 1"), Err(Error::UnclosedComment));
    // The same comment without the decoy closes fine.
    assert_eq!(
        tokenize("OBTW x TLDR 1").unwrap(),
        &[Token::Value(Value::Numbr(1))]
    );
}

#[test]
fn line_comment_is_invisible() {
    assert_eq!(
        tokenize("MKAY BTW what follows is ignored").unwrap(),
        tokenize("MKAY").unwrap()
    );
    assert_eq!(
        tokenize("A BTW hidden\nB").unwrap(),
        &[
            Token::Ident("A".to_string()),
            Token::Ident("B".to_string())
        ]
    );
}

#[test]
fn compound_keywords() {
    assert_eq!(
        tokenize("BOTH SAEM BOTH OF EITHER OF ANY OF ALL OF WON OF").unwrap(),
        &[
            Token::BothSaem,
            Token::BothOf,
            Token::EitherOf,
            Token::AnyOf,
            Token::AllOf,
            Token::WonOf
        ]
    );
    assert_eq!(
        tokenize("DIFF OF PRODUKT OF QUOSHUNT OF MOD OF BIGGR OF SMALLR OF").unwrap(),
        &[
            Token::DiffOf,
            Token::ProduktOf,
            Token::QuoshuntOf,
            Token::ModOf,
            Token::BiggrOf,
            Token::SmallrOf
        ]
    );
}

#[test]
fn single_keywords() {
    assert_eq!(
        tokenize("NOT DIFFRINT AN MKAY MEBBE OIC VISIBLE ! GIMMEH ITZ R").unwrap(),
        &[
            Token::Not,
            Token::Diffrint,
            Token::An,
            Token::Mkay,
            Token::Mebbe,
            Token::Oic,
            Token::Visible,
            Token::Exclamation,
            Token::Gimmeh,
            Token::Itz,
            Token::R
        ]
    );
}

#[test]
fn lookahead_falls_back_to_ident() {
    assert_eq!(
        tokenize("I O YA NO").unwrap(),
        &[
            Token::Ident("I".to_string()),
            Token::Ident("O".to_string()),
            Token::Ident("YA".to_string()),
            Token::Ident("NO".to_string())
        ]
    );
    assert_eq!(
        tokenize("O RLY? YA RLY NO WAI").unwrap(),
        &[Token::ORly, Token::YaRly, Token::NoWai]
    );
}

#[test]
fn empty_input() {
    assert_eq!(tokenize("").unwrap(), &[]);
    assert_eq!(tokenize("   \t  ").unwrap(), &[]);
}
