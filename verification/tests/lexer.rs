use michelledb::json::{JsonObject, JsonValue};
use michelledb::lexer::{lexString, QueryComparison, QueryOp};
use michelledb::matching::NumOrder;
use michelledb::parser::parseQuery;
use michelledb::paths::get_path_values;

fn num(text: &str) -> JsonValue {
    JsonValue::Number(String::from(text))
}

fn text(s: &str) -> JsonValue {
    JsonValue::Str(String::from(s))
}

fn object(members: Vec<(&str, JsonValue)>) -> JsonObject {
    let mut o = JsonObject::new();
    for (k, v) in members {
        o.insert(String::from(k), v);
    }
    o
}

/// How the numbers on both sides compare, as the server computes it.
fn numeric_order(leaf: &JsonValue, value: &str) -> Option<NumOrder> {
    let doc_side = match leaf {
        JsonValue::Number(t) => t.parse::<f64>().ok(),
        JsonValue::Str(s) => s.parse::<f64>().ok(),
        _ => None,
    };
    let query_side = value.parse::<f64>().ok();
    match (doc_side, query_side) {
        (Some(a), Some(b)) => Some(if a < b {
            NumOrder::Less
        } else if a > b {
            NumOrder::Greater
        } else if a == b {
            NumOrder::Equal
        } else {
            NumOrder::Unordered
        }),
        _ => None,
    }
}

#[test]
fn test_lexing() {
    let cases: [(&str, usize, Result<(&str, usize), (&str, usize)>); 4] = [
        ("a.b:c", 0, Ok(("a.b", 3))),
        ("\"a b : . 2\":12`", 0, Ok(("a b : . 2", 11))),
        (" a:2", 0, Err(("No string found", 0))),
        (" a:2", 1, Ok(("a", 2))),
    ];
    for (input, index, expected) in cases {
        let result = lexString(input.as_bytes(), index);
        assert_eq!(result, expected)
    }
}

#[test]
fn test_parsing() {
    let cases: [(&[u8], Result<Vec<QueryComparison>, String>); 2] = [
        (
            "a.b:1 c:>2".as_bytes(),
            Ok(vec![
                QueryComparison { key: vec!["a", "b"], value: "1", op: QueryOp::Equal },
                QueryComparison { key: vec!["c"], value: "2", op: QueryOp::Greater },
            ]),
        ),
        (
            "a.c:@2".as_bytes(),
            Err(String::from("Expected valid value for a.c, got `@2` instead")),
        ),
    ];
    for (query, expected) in &cases {
        assert_eq!(parseQuery(query), *expected)
    }
}

#[test]
fn test_query_comparison_matcher() {
    let query_comparison = QueryComparison { key: vec!["a", "b"], value: "2", op: QueryOp::Greater };
    let document = object(vec![("a", JsonValue::Object(object(vec![("b", num("3"))])))]);
    let numeric = query_comparison.lookup(&document).and_then(|leaf| numeric_order(leaf, query_comparison.value));
    let result = query_comparison.matches_document(&document, numeric);
    println!("{}", result);
}

#[test]
fn test_get_path_values() {
    let json_value = object(vec![
        ("a", num("1")),
        (
            "b",
            JsonValue::Object(object(vec![
                (
                    "c",
                    JsonValue::Object(object(vec![(
                        "d",
                        JsonValue::Object(object(vec![("e", num("1")), ("f", num("3"))])),
                    )])),
                ),
                ("g", text("2")),
            ])),
        ),
    ]);
    let result = get_path_values(&json_value, String::new());
    let expected_result: Vec<String> =
        vec!["a=1", "b.c.d.e=1", "b.c.d.f=3", "b.g=2"].iter().map(|x| String::from(*x)).collect();
    assert_eq!(expected_result, result);

    let json_value = object(vec![
        ("a", num("1")),
        ("b", text("2")),
        ("c", JsonValue::Object(object(vec![("d", text("3"))]))),
    ]);
    let result = get_path_values(&json_value, String::new());
    let expected_result: Vec<String> = vec!["a=1", "b=2", "c.d=3"].iter().map(|x| String::from(*x)).collect();
    assert_eq!(expected_result, result);
}
