use rs_bson::error::BsonError;
use rs_bson::lexer::Token;
use rs_bson::lexer::TokenType;
use rs_bson::lexer::count_whitespaces_at_start;
use rs_bson::lexer::lex;
use rs_bson::lexer::tokenize_value;

fn doc(lines: &[&str]) -> Vec<String> {
    let mut out: Vec<String> = Vec::new();
    for l in lines {
        out.push((*l).to_string());
    }
    out
}

#[test]
fn fail_invalid_header() {
    let input = doc(&["VULPIX!", "app_name ~> 1"]);
    let r = lex(&input);
    assert_eq!(r, Err(BsonError::BadHeader));
    assert_eq!(r.unwrap_err().message(), "Status: Fainted");
}

#[test]
fn fail_tab_character() {
    let input = doc(&["BULBA!", "app_name\t~> 1"]);
    let r = lex(&input);
    assert_eq!(r, Err(BsonError::TabChar));
    assert_eq!(r.unwrap_err().message(), "Poison Type: Tab character detected");
}

#[test]
fn fail_wrong_indentation() {
    let input = doc(&["BULBA!", "  app_name ~> 1"]);
    let r = lex(&input);
    assert_eq!(r, Err(BsonError::BadIndent));
    assert_eq!(r.unwrap_err().message(), "The attack missed!");
}

#[test]
fn fail_invalid_type() {
    let input = doc(&["BULBA!", "app_name ~> Pikachu"]);
    let r = lex(&input);
    assert_eq!(r, Err(BsonError::BadValue));
    assert_eq!(r.unwrap_err().message(), "Target is immune!");
}

#[test]
fn lex_array_tokens() {
    let input = doc(&["BULBA!", "k ~> <| 1, 2, 3 |>"]);
    let tokens = lex(&input).unwrap();
    let kinds: Vec<TokenType> = tokens.iter().map(|t| t.ttype).collect();
    assert_eq!(
        kinds,
        vec![
            TokenType::Header,
            TokenType::Indent,
            TokenType::Identifier,
            TokenType::VineWhip,
            TokenType::ArrayStart,
            TokenType::Number,
            TokenType::Comma,
            TokenType::Number,
            TokenType::Comma,
            TokenType::Number,
            TokenType::ArrayEnd,
            TokenType::Eof,
        ]
    );
    assert_eq!(tokens[5].literal, "1");
    assert_eq!(tokens[7].literal, "2");
    assert_eq!(tokens[9].literal, "3");
}

#[test]
fn lex_comments_and_blank_lines() {
    let input = doc(&[
        "BULBA!",
        "zZz a comment-only line",
        "",
        "   ",
        "a ~> 1 zZz trailing comment with a tab\there",
        "zZzb ~> 2",
    ]);
    let tokens = lex(&input).unwrap();
    let kinds: Vec<TokenType> = tokens.iter().map(|t| t.ttype).collect();
    assert_eq!(
        kinds,
        vec![
            TokenType::Header,
            TokenType::Indent,
            TokenType::Identifier,
            TokenType::VineWhip,
            TokenType::Number,
            TokenType::Eof,
        ]
    );
    assert_eq!(tokens[2].literal, "a");
}

#[test]
fn lex_scalar_kinds() {
    let input = doc(&[
        "BULBA!",
        "s ~> \"hello world\"",
        "t ~~~> SuperEffective",
        "f ~> NotVeryEffective",
        "n ~> MissingNo",
        "x ~> -1.5e3",
    ]);
    let tokens = lex(&input).unwrap();
    let picks: Vec<(TokenType, String)> = tokens
        .iter()
        .filter(|t| {
            matches!(
                t.ttype,
                TokenType::TString | TokenType::Bool | TokenType::Null | TokenType::Number
            )
        })
        .map(|t| (t.ttype, t.literal.clone()))
        .collect();
    assert_eq!(
        picks,
        vec![
            (TokenType::TString, "hello world".to_string()),
            (TokenType::Bool, "true".to_string()),
            (TokenType::Bool, "false".to_string()),
            (TokenType::Null, String::new()),
            (TokenType::Number, "-1.5e3".to_string()),
        ]
    );
}

#[test]
fn lex_section_styles() {
    let input = doc(&[
        "BULBA!",
        "(o) one (o)",
        "    (O) two (O)",
        "        (@) three (@)",
    ]);
    let tokens = lex(&input).unwrap();
    let sections: Vec<(String, usize)> = tokens
        .iter()
        .filter(|t| t.ttype == TokenType::Identifier && t.level > 0)
        .map(|t| (t.literal.clone(), t.level))
        .collect();
    assert_eq!(
        sections,
        vec![
            ("one".to_string(), 1),
            ("two".to_string(), 2),
            ("three".to_string(), 3),
        ]
    );
}

#[test]
fn lex_number_grammar() {
    for good in ["0", "1.5", "100", ".5", "5.", "1e3", "1.2e-3", "+1", "-0.5", "inf", "NaN",
        "Infinity"] {
        let input = doc(&["BULBA!", &format!("k ~> {}", good)]);
        assert!(lex(&input).is_ok(), "{} should lex as a number", good);
    }
    for bad in ["1.2.3", "--1", "1e", "e3", ".", "0x10", "1_000"] {
        let input = doc(&["BULBA!", &format!("k ~> {}", bad)]);
        assert_eq!(lex(&input), Err(BsonError::BadValue), "{} should be refused", bad);
    }
}

#[test]
fn fail_bad_line_shape() {
    let input = doc(&["BULBA!", "no separator here"]);
    let r = lex(&input);
    assert_eq!(r, Err(BsonError::BadSyntax));
    assert_eq!(r.unwrap_err().message(), "It hurt itself in its confusion!");
}

#[test]
fn empty_input_lexes_to_end_marker() {
    let tokens = lex(&Vec::new()).unwrap();
    assert_eq!(tokens.len(), 1);
    assert_eq!(tokens[0].ttype, TokenType::Eof);
}

#[test]
fn count_leading_whitespace_bytes() {
    assert_eq!(count_whitespaces_at_start("    x"), 4);
    assert_eq!(count_whitespaces_at_start("x"), 0);
    assert_eq!(count_whitespaces_at_start("  "), 2);
    assert_eq!(count_whitespaces_at_start(""), 0);
    // a no-break space is two bytes long in UTF-8
    assert_eq!(count_whitespaces_at_start("\u{a0}x"), 2);
}

#[test]
fn tokenize_value_directly() {
    let mut tokens: Vec<Token> = Vec::new();
    tokenize_value("<| \"a\", MissingNo |>", 7, &mut tokens).unwrap();
    let kinds: Vec<TokenType> = tokens.iter().map(|t| t.ttype).collect();
    assert_eq!(
        kinds,
        vec![
            TokenType::ArrayStart,
            TokenType::TString,
            TokenType::Comma,
            TokenType::Null,
            TokenType::ArrayEnd,
        ]
    );
    let mut empty_out: Vec<Token> = Vec::new();
    tokenize_value("", 1, &mut empty_out).unwrap();
    assert!(empty_out.is_empty());
    let mut bad_out: Vec<Token> = Vec::new();
    assert_eq!(tokenize_value("Pikachu", 1, &mut bad_out), Err(BsonError::BadValue));
}
