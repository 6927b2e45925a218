use rs_bson::lexer::lex;
use rs_bson::parser::parse;

fn doc(lines: &[&str]) -> Vec<String> {
    let mut out: Vec<String> = Vec::new();
    for l in lines {
        out.push((*l).to_string());
    }
    out
}

fn render(lines: &[&str]) -> String {
    parse(&lex(&doc(lines)).unwrap()).unwrap().to_string()
}

#[test]
fn pipeline_is_deterministic() {
    let input = &[
        "BULBA!",
        "b ~> 2",
        "(o) a (o)",
        "    x ~> \"v\"",
        "list ~> <| 1, SuperEffective, MissingNo |>",
    ];
    let first = render(input);
    let second = render(input);
    assert_eq!(first, second);
}

#[test]
fn serialization_order_is_lexicographic() {
    let out = render(&["BULBA!", "zebra ~> 1", "Alpha ~> 2", "apple ~> 3"]);
    assert_eq!(out, "Alpha: 2\napple: 3\nzebra: 1\n");
}

#[test]
fn example_flat_key_and_section() {
    let out = render(&[
        "BULBA!",
        "app_name ~~~> \"Pokedex_API\"",
        "(o) database (o)",
        "    host ~> \"localhost\"",
        "    port ~> 5432",
    ]);
    assert_eq!(
        out,
        "app_name: Pokedex_API\ndatabase:\n    host: localhost\n    port: 5432\n"
    );
}

#[test]
fn empty_document_round_trips() {
    let out = render(&["BULBA!"]);
    assert_eq!(out, "");
    let again = render(&["BULBA!"]);
    assert_eq!(out, again);
}

#[test]
fn number_text_is_kept_verbatim() {
    let out = render(&["BULBA!", "a ~> 1.5", "b ~> 100", "c ~> 1e3"]);
    assert_eq!(out, "a: 1.5\nb: 100\nc: 1e3\n");
}

#[test]
fn nested_array_dash_lines_use_key_indentation() {
    // an array under a key keeps that key's indentation for its dash lines
    let out = render(&["BULBA!", "(o) s (o)", "    l ~> <| 1, 2 |>"]);
    assert_eq!(out, "s:\n    l:\n    - 1\n    - 2\n");
}

#[test]
fn top_level_array_dash_lines_stay_at_column_zero() {
    let out = render(&["BULBA!", "l ~> <| 1, 2 |>"]);
    assert_eq!(out, "l:\n- 1\n- 2\n");
}

#[test]
fn strings_keep_inner_spacing() {
    let out = render(&["BULBA!", "a ~> \" padded text \""]);
    assert_eq!(out, "a:  padded text \n");
}
