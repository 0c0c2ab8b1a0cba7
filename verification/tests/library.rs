use michelledb::db::DB;
use michelledb::index::{add_id, split_ids, EqualityMatches};
use michelledb::json::{JsonObject, JsonValue};
use michelledb::lexer::{lexString, lex_would_abort, QueryComparison, QueryOp};
use michelledb::matching::{range_terms, NumOrder};
use michelledb::parser::{parseQuery, parse_query_aborts};
use michelledb::paths::get_path_values;
use michelledb::search::{all_terms_hold, select_documents};
use michelledb::service::{QueryParams, Service};
use michelledb::stored::document_from_bytes;
use michelledb::text::{split_str, str_eq, usize_decimal};

fn object(members: Vec<(&str, JsonValue)>) -> JsonObject {
    let mut o = JsonObject::new();
    for (k, v) in members {
        o.insert(String::from(k), v);
    }
    o
}

fn s(t: &str) -> JsonValue {
    JsonValue::Str(String::from(t))
}

fn n(t: &str) -> JsonValue {
    JsonValue::Number(String::from(t))
}

#[test]
fn lex_failures_and_positions() {
    assert_eq!(lexString(b"ab", 2), Err(("empty string", 2)));
    assert_eq!(lexString(b"ab", 7), Err(("empty string", 7)));
    assert_eq!(lexString(b"\"abc", 0), Err(("Expected end of quoted string", 4)));
    assert_eq!(lexString(b"\"\"x", 0), Ok(("", 2)));
    assert_eq!(lexString(b"x1.Y2-z", 0), Ok(("x1.Y2", 5)));
    assert_eq!(lexString("\"é\":1".as_bytes(), 0), Ok(("é", 4)));
    assert!(lex_would_abort(b"\"\xff\"", 0));
    assert!(!lex_would_abort(b"\"ok\"", 0));
}

#[test]
fn parse_errors_name_the_fault() {
    assert_eq!(parseQuery(b"abc;1"), Err(String::from("Expected colon at index : 3")));
    assert_eq!(parseQuery(b"abcdefghijkl;1"), Err(String::from("Expected colon at index : 12")));
    assert_eq!(parseQuery(b"@x:1"), Err(String::from("Expected valid key, got `\"@x:1\"` instead")));
    assert_eq!(parseQuery(b"a:<"), Err(String::from("Expected valid value for a, got `` instead")));
    assert_eq!(parseQuery(b""), Ok(vec![]));
}

#[test]
fn parse_quoted_terms_and_less() {
    let q = "  \"x y\":<3 k:\"v w\"".as_bytes();
    assert_eq!(
        parseQuery(q),
        Ok(vec![
            QueryComparison { key: vec!["x y"], value: "3", op: QueryOp::Less },
            QueryComparison { key: vec!["k"], value: "v w", op: QueryOp::Equal },
        ])
    );
    assert_eq!(
        parseQuery(b"a..b:1"),
        Ok(vec![QueryComparison { key: vec!["a", "", "b"], value: "1", op: QueryOp::Equal }])
    );
}

#[test]
fn parse_aborts_where_lexing_runs_past_the_end() {
    assert!(parse_query_aborts(b"a:1 "));
    assert!(parse_query_aborts(b"abc"));
    assert!(parse_query_aborts(b"a:"));
    assert!(parse_query_aborts(b"\"\xff\":1"));
    assert!(!parse_query_aborts(b"a:1"));
    assert!(!parse_query_aborts(b"a;1"));
    assert!(!parse_query_aborts(b""));
}

#[test]
fn decimal_and_split_helpers() {
    assert_eq!(usize_decimal(0), "0");
    assert_eq!(usize_decimal(9), "9");
    assert_eq!(usize_decimal(1204), "1204");
    assert_eq!(split_str("a,,b", ','), vec!["a", "", "b"]);
    assert_eq!(split_str("", ','), vec![""]);
    assert_eq!(split_str("é.x", '.'), vec!["é", "x"]);
    assert!(str_eq("abc", "abc"));
    assert!(!str_eq("abc", "abd"));
    assert!(!str_eq("ab", "abc"));
}

#[test]
fn index_texts_list_each_id_once() {
    assert_eq!(add_id(String::new(), "d1"), "d1");
    assert_eq!(add_id(String::from("d1"), "d2"), "d1,d2");
    assert_eq!(add_id(String::from("d1,d2"), "d1"), "d1,d2");
    let once = add_id(String::from("d1,d2"), "d3");
    let twice = add_id(once.clone(), "d3");
    assert_eq!(once, twice);
    assert_eq!(split_ids("d1,d2,d3"), vec!["d1", "d2", "d3"]);
    assert_eq!(split_ids(""), vec![""]);
    assert_eq!(Service::index_entry(String::from("x"), "y"), "x,y");
}

#[test]
fn equality_terms_select_the_ids_listed_for_each() {
    let mut m = EqualityMatches::new();
    assert!(m.use_scan(true));
    assert!(!m.use_scan(false));
    m.begin_equality();
    assert!(m.fits("d1,d2,d3"));
    m.record("d1,d2,d3");
    let mut first = m.matched().clone();
    first.sort();
    assert_eq!(first, vec!["d1", "d2", "d3"]);
    m.begin_equality();
    m.record("d2,d4,d3");
    let mut both = m.matched().clone();
    both.sort();
    assert_eq!(both, vec!["d2", "d3"]);
    assert_eq!(m.equal_query_count(), 2);
    // a failed lookup counts the term but leaves the selection as it was
    m.begin_equality();
    let mut stale = m.matched().clone();
    stale.sort();
    assert_eq!(stale, vec!["d2", "d3"]);
    m.record("d9");
    assert!(m.matched().is_empty());
    assert!(m.use_scan(true));
}

#[test]
fn index_key_joins_the_key_path() {
    let c = QueryComparison { key: vec!["a", "b"], value: "1", op: QueryOp::Equal };
    assert_eq!(c.index_key(), "a.b=1");
    let c = QueryComparison { key: vec!["k"], value: "v w", op: QueryOp::Equal };
    assert_eq!(c.index_key(), "k=v w");
}

#[test]
fn an_equal_string_term_is_found_under_its_index_key() {
    let doc = object(vec![
        ("name", s("Ogechi")),
        ("age", s("45")),
        ("address", JsonValue::Object(object(vec![("city", s("Lagos")), ("zip", n("100001"))]))),
    ]);
    let pvs = get_path_values(&doc, String::new());
    let query = b"address.city:Lagos name:Ogechi";
    let comps = parseQuery(query).unwrap();
    for c in &comps {
        assert!(pvs.contains(&c.index_key()));
        assert!(c.matches_document(&doc, None));
    }
}

#[test]
fn an_equal_number_term_is_found_under_its_index_key() {
    let doc = object(vec![
        ("age", n("45")),
        ("address", JsonValue::Object(object(vec![("zip", n("100001")), ("lat", n("6.5"))]))),
    ]);
    let pvs = get_path_values(&doc, String::new());
    let comps = parseQuery(b"age:45 address.zip:100001 address.lat:6.5").unwrap();
    for c in &comps {
        assert!(pvs.contains(&c.index_key()));
        assert!(c.matches_document(&doc, Some(NumOrder::Equal)));
        assert!(!c.matches_document(&doc, Some(NumOrder::Less)));
    }
}

#[test]
fn matching_strings_numbers_and_nulls() {
    let doc = object(vec![
        ("a", JsonValue::Null),
        ("b", n("5")),
        ("c", s("7.5")),
        ("d", JsonValue::Bool(true)),
        ("e", JsonValue::Array(vec![n("1")])),
    ]);
    // a null member sends the next key back to the document itself
    let through_null = QueryComparison { key: vec!["a", "b"], value: "5", op: QueryOp::Equal };
    assert!(through_null.lookup(&doc).is_some());
    assert!(through_null.matches_document(&doc, Some(NumOrder::Equal)));
    let null_leaf = QueryComparison { key: vec!["a"], value: "x", op: QueryOp::Equal };
    assert!(null_leaf.lookup(&doc).is_none());
    assert!(!null_leaf.matches_document(&doc, None));
    let less = QueryComparison { key: vec!["c"], value: "8", op: QueryOp::Less };
    assert!(less.matches_document(&doc, Some(NumOrder::Less)));
    assert!(!less.matches_document(&doc, None));
    let eq_string = QueryComparison { key: vec!["c"], value: "7.5", op: QueryOp::Equal };
    assert!(eq_string.matches_document(&doc, None));
    let boolean = QueryComparison { key: vec!["d"], value: "true", op: QueryOp::Equal };
    assert!(!boolean.matches_document(&doc, None));
    let array = QueryComparison { key: vec!["e"], value: "1", op: QueryOp::Equal };
    assert!(!array.matches_document(&doc, None));
    let missing = QueryComparison { key: vec!["z"], value: "1", op: QueryOp::Greater };
    assert!(!missing.matches_document(&doc, Some(NumOrder::Greater)));
    let nan = QueryComparison { key: vec!["b"], value: "NaN", op: QueryOp::Greater };
    assert!(!nan.matches_document(&doc, Some(NumOrder::Unordered)));
}

#[test]
fn range_terms_keep_order() {
    let comps = parseQuery(b"a:1 b:>2 c:3 d:<4").unwrap();
    let r = range_terms(&comps);
    assert_eq!(r.len(), 2);
    assert_eq!(r[0].key, vec!["b"]);
    assert_eq!(r[0].op, QueryOp::Greater);
    assert_eq!(r[1].key, vec!["d"]);
    assert_eq!(r[1].op, QueryOp::Less);
}

#[test]
fn path_values_write_scalars_and_skip_arrays() {
    let doc = object(vec![
        ("n", JsonValue::Null),
        ("t", JsonValue::Bool(true)),
        ("f", JsonValue::Bool(false)),
        ("x", n("1.5")),
        ("arr", JsonValue::Array(vec![s("q")])),
        ("o", JsonValue::Object(object(vec![("in", s("v"))]))),
    ]);
    assert_eq!(get_path_values(&doc, String::new()), vec!["f=false", "n=null", "o.in=v", "t=true", "x=1.5"]);
    assert_eq!(get_path_values(&doc, String::from("p")), vec!["p.f=false", "p.n=null", "p.o.in=v", "p.t=true", "p.x=1.5"]);
}

#[test]
fn json_objects_keep_one_member_per_name() {
    let mut o = JsonObject::new();
    o.insert(String::from("a"), s("1"));
    o.insert(String::from("b"), s("2"));
    o.insert(String::from("a"), s("3"));
    assert_eq!(o.entries.len(), 2);
    assert_eq!(o.entries[0].0, "a");
    assert!(matches!(o.get("a"), Some(JsonValue::Str(v)) if v == "3"));
    assert!(o.get("c").is_none());
}

#[test]
fn json_object_members_come_in_name_order() {
    let mut o = JsonObject::new();
    o.insert(String::from("b"), JsonValue::Null);
    o.insert(String::from("a"), JsonValue::Null);
    o.insert(String::from("ab"), JsonValue::Null);
    o.insert(String::from("B"), JsonValue::Null);
    o.insert(String::from("\u{e9}"), JsonValue::Null);
    o.insert(String::from("z"), JsonValue::Null);
    let names: Vec<&str> = o.entries.iter().map(|e| e.0.as_str()).collect();
    assert_eq!(names, vec!["B", "a", "ab", "b", "z", "\u{e9}"]);
    assert_eq!(get_path_values(&o, String::new()), vec!["B=null", "a=null", "ab=null", "b=null", "z=null", "\u{e9}=null"]);
}

#[test]
fn database_paths_and_entry_names() {
    let db = DB::with_dir(String::from("/home/u/.michelleDB"));
    assert_eq!(db.dbDir, "/home/u/.michelleDB");
    assert_eq!(db.indexDir, "/home/u/.michelleDB.index");
    assert_eq!(DB::encode("abc"), "a9993e364706816aba3e25717850c26c9cd0d89d");
    assert_eq!(DB::encode("name=Ogechi").len(), 40);
}

#[test]
fn document_ids_are_version_4_uuids() {
    let id = Service::new_document_id();
    assert_eq!(id.len(), 36);
    for (i, c) in id.chars().enumerate() {
        if i == 8 || i == 13 || i == 18 || i == 23 {
            assert_eq!(c, '-');
        } else {
            assert!(c.is_ascii_digit() || ('a'..='f').contains(&c));
        }
    }
    assert_eq!(id.chars().nth(14), Some('4'));
    assert_ne!(id, Service::new_document_id());
    assert!(!id.contains(','));
}

#[test]
fn query_params_skip_and_check() {
    let p = QueryParams { q: String::from("a:1"), skipIndex: None };
    assert!(!p.skip_index());
    let p2 = QueryParams { q: String::from("a:1"), skipIndex: Some(true) };
    assert!(p2.skip_index());
    let doc = JsonObject::new();
    assert_eq!(p.matchDocument(&doc), Ok(true));
    let bad = QueryParams { q: String::from("a;1"), skipIndex: Some(false) };
    assert_eq!(bad.matchDocument(&doc), Err(String::from("Expected colon at index : 1")));
}

#[test]
fn equality_terms_give_their_index_keys_in_order() {
    let comps = parseQuery(b"a.b:1 c:>2 \"d e\":x").unwrap();
    assert_eq!(michelledb::matching::equality_index_keys(&comps), vec!["a.b=1", "d e=x"]);
}

#[test]
fn path_values_below_a_prefix_carry_it_in_front() {
    let doc = object(vec![
        ("a", n("1")),
        ("", s("e")),
        ("o", JsonValue::Object(object(vec![("", s("x")), ("i", JsonValue::Bool(false))]))),
    ]);
    let plain = get_path_values(&doc, String::new());
    assert_eq!(plain, vec!["=e", "a=1", "o.=x", "o.i=false"]);
    let under: Vec<String> = plain.iter().map(|v| format!("p.{}", v)).collect();
    assert_eq!(get_path_values(&doc, String::from("p")), under);
}

#[test]
fn an_object_with_the_empty_name_breaks_the_prefix_rule() {
    let doc = object(vec![("", JsonValue::Object(object(vec![("a", n("1"))])))]);
    assert_eq!(get_path_values(&doc, String::new()), vec!["a=1"]);
    assert_eq!(get_path_values(&doc, String::from("p")), vec!["p..a=1"]);
}

#[test]
fn all_terms_hold_in_order_and_stop_on_a_number_without_a_query_number() {
    let doc = object(vec![("a", n("5")), ("b", s("x"))]);
    let a_gt = QueryComparison { key: vec!["a"], value: "3", op: QueryOp::Greater };
    let b_eq = QueryComparison { key: vec!["b"], value: "x", op: QueryOp::Equal };
    let b_ne = QueryComparison { key: vec!["b"], value: "y", op: QueryOp::Equal };
    let a_bad = QueryComparison { key: vec!["a"], value: "q", op: QueryOp::Equal };
    let both = vec![&a_gt, &b_eq];
    assert_eq!(all_terms_hold(&both, &doc, &vec![Some(NumOrder::Greater), None]), Some(true));
    assert_eq!(all_terms_hold(&both, &doc, &vec![Some(NumOrder::Less), None]), Some(false));
    assert_eq!(all_terms_hold(&vec![], &doc, &vec![]), Some(true));
    // the failing term comes first: the unreadable number is never reached
    assert_eq!(all_terms_hold(&vec![&b_ne, &a_bad], &doc, &vec![None, None]), Some(false));
    assert_eq!(all_terms_hold(&vec![&b_eq, &a_bad], &doc, &vec![None, None]), None);
    // a missing comparison counts as none
    assert_eq!(all_terms_hold(&both, &doc, &vec![]), None);
}

#[test]
fn selection_keeps_found_documents_that_satisfy_every_term() {
    let small = object(vec![("a", n("1"))]);
    let big = object(vec![("a", n("9"))]);
    let text = object(vec![("a", s("x"))]);
    let a_gt = QueryComparison { key: vec!["a"], value: "3", op: QueryOp::Greater };
    let terms = vec![&a_gt];
    let candidates = vec![
        (String::from("s"), Some(small)),
        (String::from("gone"), None),
        (String::from("b"), Some(big)),
        (String::from("t"), Some(text)),
    ];
    let numeric = vec![vec![Some(NumOrder::Less)], vec![], vec![Some(NumOrder::Greater)], vec![None]];
    let found = select_documents(candidates, &terms, &numeric).unwrap();
    assert_eq!(found.len(), 1);
    assert_eq!(found[0].id, "b");
    assert!(matches!(found[0].body.get("a"), Some(JsonValue::Number(t)) if t == "9"));
    // no terms: every found document, in order
    let all = select_documents(
        vec![(String::from("x"), Some(object(vec![]))), (String::from("y"), None), (String::from("z"), Some(object(vec![])))],
        &vec![],
        &vec![],
    )
    .unwrap();
    let ids: Vec<&str> = all.iter().map(|d| d.id.as_str()).collect();
    assert_eq!(ids, vec!["x", "z"]);
}

#[test]
fn selection_stops_where_a_term_cannot_read_its_number() {
    let doc = object(vec![("a", n("1"))]);
    let a_eq = QueryComparison { key: vec!["a"], value: "one", op: QueryOp::Equal };
    let terms = vec![&a_eq];
    let candidates = vec![(String::from("d"), Some(doc)), (String::from("e"), None)];
    assert!(select_documents(candidates, &terms, &vec![vec![None]]).is_none());
}

#[test]
fn stored_documents_are_read_in_name_order() {
    let doc = document_from_bytes(br#"{"name":"Ogechi","age":45,"ratio":0.5,"tags":["a"],"home":{"city":"Lagos","zip":null},"ok":true}"#).unwrap();
    let names: Vec<&str> = doc.entries.iter().map(|e| e.0.as_str()).collect();
    assert_eq!(names, vec!["age", "home", "name", "ok", "ratio", "tags"]);
    assert!(matches!(doc.get("age"), Some(JsonValue::Number(t)) if t == "45"));
    assert!(matches!(doc.get("ratio"), Some(JsonValue::Number(t)) if t == "0.5"));
    assert!(matches!(doc.get("name"), Some(JsonValue::Str(t)) if t == "Ogechi"));
    assert!(matches!(doc.get("ok"), Some(JsonValue::Bool(true))));
    assert!(matches!(doc.get("tags"), Some(JsonValue::Array(a)) if a.len() == 1));
    assert_eq!(
        get_path_values(&doc, String::new()),
        vec!["age=45", "home.city=Lagos", "home.zip=null", "name=Ogechi", "ok=true", "ratio=0.5"]
    );
}

#[test]
fn stored_bytes_that_are_no_json_object_give_no_document() {
    assert!(document_from_bytes(b"[1, 2]").is_none());
    assert!(document_from_bytes(b"{\"a\": ").is_none());
    assert!(document_from_bytes(b"").is_none());
    assert!(document_from_bytes(&[0x7b, 0xff, 0x7d]).is_none());
    assert_eq!(document_from_bytes(b" {} ").unwrap().entries.len(), 0);
}

#[test]
fn a_new_document_gets_an_id_its_text_and_its_path_values() {
    let doc = document_from_bytes(br#"{"b":{"c":"x y"},"a":1.25,"n":null}"#).unwrap();
    let new = Service::prepare_document(&doc).unwrap();
    assert_eq!(new.content, r#"{"a":1.25,"b":{"c":"x y"},"n":null}"#);
    assert_eq!(new.path_values, vec!["a=1.25", "b.c=x y", "n=null"]);
    assert_eq!(new.id.len(), 36);
    assert_eq!(&new.id[14..15], "4");
    // the stored text reads back as the same document
    let again = document_from_bytes(new.content.as_bytes()).unwrap();
    assert_eq!(get_path_values(&again, String::new()), new.path_values);
}

#[test]
fn a_number_that_reads_as_no_number_cannot_be_written() {
    let doc = object(vec![("a", n("twelve"))]);
    assert!(Service::prepare_document(&doc).is_none());
}
