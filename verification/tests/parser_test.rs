use rs_bson::error::BsonError;
use rs_bson::lexer::lex;
use rs_bson::parser::BsonValue;
use rs_bson::parser::parse;
use rs_bson::parser::validate_key;

fn doc(lines: &[&str]) -> Vec<String> {
    let mut out: Vec<String> = Vec::new();
    for l in lines {
        out.push((*l).to_string());
    }
    out
}

fn parsed(lines: &[&str]) -> Result<BsonValue, BsonError> {
    parse(&lex(&doc(lines)).unwrap())
}

#[test]
fn parse_valid() {
    let input = doc(&[
        "BULBA!",
        "app_name ~~~> \"Pokedex_API\"",
        "(o) database (o)",
        "    host ~> \"127.0.0.1\"",
        "    (O) pool (O)",
        "        max_connections ~> 100",
        "        (@) KERNEL_FLAGS (@)",
        "            panic_on_fail ~> SuperEffective",
        "is_production ~> NotVeryEffective",
        "missing_data ~> MissingNo",
        "version ~> 1.5",
        "whitelist ~> <| \"Prof_Oak\", \"Mom\" |>",
    ]);
    let tokens = lex(&input).unwrap();
    let parsed = parse(&tokens).unwrap();
    let expected = "app_name: Pokedex_API
database:
    host: 127.0.0.1
    pool:
        KERNEL_FLAGS:
            panic_on_fail: true
        max_connections: 100
is_production: false
missing_data:
version: 1.5
whitelist:
- Prof_Oak
- Mom
";
    assert_eq!(parsed.to_string(), expected);
}

#[test]
fn fail_charizard() {
    let r = parsed(&["BULBA!", "Charizard ~> 1"]);
    assert_eq!(r, Err(BsonError::ReservedKey));
    assert_eq!(r.unwrap_err().message(), "It burns the bulb");
}

#[test]
fn fail_invalid_nesting() {
    let r = parsed(&["BULBA!", "    (O) pool (O)"]);
    assert_eq!(r, Err(BsonError::MissingAncestors));
    assert_eq!(r.unwrap_err().message(), "Not enough badges!");
}

#[test]
fn reserved_key_as_section_name() {
    let r = parsed(&["BULBA!", "(o) Charizard (o)"]);
    assert_eq!(r, Err(BsonError::ReservedKey));
}

#[test]
fn reserved_key_at_depth() {
    let r = parsed(&["BULBA!", "(o) a (o)", "    Charizard ~> 1"]);
    assert_eq!(r, Err(BsonError::ReservedKey));
}

#[test]
fn validate_key_directly() {
    assert_eq!(validate_key("Charizard"), Err(BsonError::ReservedKey));
    assert!(validate_key("Bulbasaur").is_ok());
    assert!(validate_key("").is_ok());
}

#[test]
fn parse_array_of_numbers() {
    let r = parsed(&["BULBA!", "k ~> <| 1, 2, 3 |>"]).unwrap();
    let expected = BsonValue::BMap(vec![(
        "k".to_string(),
        BsonValue::Array(vec![
            BsonValue::Number("1".to_string()),
            BsonValue::Number("2".to_string()),
            BsonValue::Number("3".to_string()),
        ]),
    )]);
    assert_eq!(r, expected);
}

#[test]
fn parse_empty_array() {
    let r = parsed(&["BULBA!", "k ~> <||>"]).unwrap();
    let expected = BsonValue::BMap(vec![("k".to_string(), BsonValue::Array(Vec::new()))]);
    assert_eq!(r, expected);
}

#[test]
fn parse_nested_single_element_array() {
    let r = parsed(&["BULBA!", "k ~> <| <| 5 |> |>"]).unwrap();
    let expected = BsonValue::BMap(vec![(
        "k".to_string(),
        BsonValue::Array(vec![BsonValue::Array(vec![BsonValue::Number("5".to_string())])]),
    )]);
    assert_eq!(r, expected);
}

#[test]
fn flat_key_too_deep_is_rejected() {
    let r = parsed(&["BULBA!", "        x ~> 1"]);
    assert_eq!(r, Err(BsonError::BadHierarchy));
    assert_eq!(r.unwrap_err().message(), "The attack missed!");
}

#[test]
fn section_wrong_indent_is_rejected() {
    let r = parsed(&["BULBA!", "(O) pool (O)"]);
    assert_eq!(r, Err(BsonError::BadHierarchy));
}

#[test]
fn dedent_returns_to_outer_scope() {
    let r = parsed(&[
        "BULBA!",
        "(o) a (o)",
        "    x ~> 1",
        "top ~> 2",
    ])
    .unwrap();
    let expected = BsonValue::BMap(vec![
        (
            "a".to_string(),
            BsonValue::BMap(vec![("x".to_string(), BsonValue::Number("1".to_string()))]),
        ),
        ("top".to_string(), BsonValue::Number("2".to_string())),
    ]);
    assert_eq!(r, expected);
}

#[test]
fn sibling_section_closes_previous() {
    let r = parsed(&[
        "BULBA!",
        "(o) a (o)",
        "    x ~> 1",
        "(o) b (o)",
        "    y ~> 2",
    ])
    .unwrap();
    let expected = BsonValue::BMap(vec![
        (
            "a".to_string(),
            BsonValue::BMap(vec![("x".to_string(), BsonValue::Number("1".to_string()))]),
        ),
        (
            "b".to_string(),
            BsonValue::BMap(vec![("y".to_string(), BsonValue::Number("2".to_string()))]),
        ),
    ]);
    assert_eq!(r, expected);
}

#[test]
fn duplicate_key_keeps_last_value() {
    let r = parsed(&["BULBA!", "a ~> 1", "a ~> 2"]).unwrap();
    let expected = BsonValue::BMap(vec![("a".to_string(), BsonValue::Number("2".to_string()))]);
    assert_eq!(r, expected);
}

#[test]
fn empty_value_is_rejected_at_parse() {
    // a key with an empty value emits no value token; the parser then finds
    // the end-of-input token where a value was expected
    let r = parsed(&["BULBA!", "a ~>"]);
    assert_eq!(r, Err(BsonError::BadValue));
}

#[test]
fn empty_document_parses_to_empty_map() {
    let r = parsed(&["BULBA!"]).unwrap();
    assert_eq!(r, BsonValue::BMap(Vec::new()));
    assert_eq!(r.to_string(), "");
}
