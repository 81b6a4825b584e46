use png_db::codec::{parse_row_keyword, row_keyword, EntryFault, StoredEntry};
use png_db::container::{read_container, write_container};
use png_db::error::PngDbError;
use png_db::filter::{
    compare_json_values, compare_numbers, parse_decimal, parse_query, Axis, ComparisonOp,
    Condition,
};
use png_db::store::{parse_schema, DataRow, PngDatabase, Schema};
use png_db::value::{Number, Value};

fn num(n: i64) -> Value {
    Value::Number(Number::from_i64(n))
}

fn text(s: &str) -> Value {
    Value::Str(s.to_string())
}

fn record(name: &str, score: i64) -> Value {
    Value::Object(vec![("name".to_string(), text(name)), ("score".to_string(), num(score))])
}

fn sample() -> PngDatabase {
    let mut db = PngDatabase::new(10, 10, Schema { fields: vec![] });
    db.insert(1, 2, record("a", 5)).unwrap();
    db.insert(3, 4, record("b", 9)).unwrap();
    db
}

fn coords(rows: &[&DataRow]) -> Vec<(u32, u32)> {
    rows.iter().map(|r| (r.x, r.y)).collect()
}

#[test]
fn query_examples_select_expected_rows() {
    let db = sample();
    assert_eq!(coords(&db.query("WHERE score > 4").unwrap()), vec![(1, 2), (3, 4)]);
    assert_eq!(coords(&db.query("WHERE name=\"a\"").unwrap()), vec![(1, 2)]);
    assert_eq!(coords(&db.query("WHERE x=3 AND score<10").unwrap()), vec![(3, 4)]);
}

#[test]
fn two_char_operator_wins() {
    let q = parse_query("WHERE score>=5").unwrap();
    assert_eq!(q.conditions.len(), 1);
    assert_eq!(
        q.conditions[0],
        Condition::JsonField {
            field: "score".to_string(),
            op: ComparisonOp::GreaterThanOrEqual,
            value: num(5),
        }
    );
    let q = parse_query("where y <= 7").unwrap();
    assert_eq!(
        q.conditions[0],
        Condition::Coordinate { field: Axis::Y, op: ComparisonOp::LessThanOrEqual, value: 7 }
    );
}

#[test]
fn string_against_number_is_type_mismatch() {
    let db = sample();
    for q in ["WHERE name=3", "WHERE name!=3", "WHERE name>3", "WHERE name<=3"] {
        assert_eq!(db.query(q).unwrap_err(), PngDbError::TypeMismatch);
    }
}

#[test]
fn absent_field_never_matches() {
    let db = sample();
    assert!(db.query("WHERE missing=1").unwrap().is_empty());
}

#[test]
fn nothing_matching_gives_empty_list() {
    let db = sample();
    assert!(db.query("WHERE score>100").unwrap().is_empty());
}

#[test]
fn numbers_within_tolerance_are_equal() {
    let a = Value::Number(Number { units: 5_000_000_000_000_000_000 });
    let b = Value::Number(Number { units: 5_000_000_000_000_000_222 });
    let c = Value::Number(Number { units: 5_000_000_000_000_000_223 });
    assert_eq!(compare_json_values(&a, &b, &ComparisonOp::Equal), Ok(true));
    assert_eq!(compare_json_values(&a, &b, &ComparisonOp::NotEqual), Ok(false));
    assert_eq!(compare_json_values(&a, &c, &ComparisonOp::Equal), Ok(false));
    assert_eq!(compare_json_values(&a, &c, &ComparisonOp::NotEqual), Ok(true));
    assert_eq!(compare_json_values(&b, &a, &ComparisonOp::GreaterThan), Ok(true));
    let x: Vec<char> = "0.30000000000000004".chars().collect();
    let y: Vec<char> = "0.3".chars().collect();
    let x = Value::Number(Number { units: parse_decimal(&x).unwrap() });
    let y = Value::Number(Number { units: parse_decimal(&y).unwrap() });
    assert_eq!(compare_json_values(&x, &y, &ComparisonOp::Equal), Ok(true));
    let db = sample();
    assert_eq!(coords(&db.query("WHERE score=5.0").unwrap()), vec![(1, 2)]);
}

#[test]
fn decimal_literals() {
    let cs: Vec<char> = "-1.25".chars().collect();
    assert_eq!(parse_decimal(&cs), Some(-1_250_000_000_000_000_000));
    let cs: Vec<char> = ".5".chars().collect();
    assert_eq!(parse_decimal(&cs), Some(500_000_000_000_000_000));
    let cs: Vec<char> = "1.2.3".chars().collect();
    assert_eq!(parse_decimal(&cs), None);
    let cs: Vec<char> = "1e3".chars().collect();
    assert_eq!(parse_decimal(&cs), Some(1_000_000_000_000_000_000_000));
    let cs: Vec<char> = "2.5E-1".chars().collect();
    assert_eq!(parse_decimal(&cs), Some(250_000_000_000_000_000));
    let cs: Vec<char> = "1.0000000000000000001".chars().collect();
    assert_eq!(parse_decimal(&cs), Some(1_000_000_000_000_000_000));
    let cs: Vec<char> = "99999999999999999999".chars().collect();
    assert_eq!(parse_decimal(&cs), Some(99_999_999_999_999_999_999_000_000_000_000_000_000));
    let cs: Vec<char> = "1e300".chars().collect();
    assert_eq!(parse_decimal(&cs), None);
    let cs: Vec<char> = "1e".chars().collect();
    assert_eq!(parse_decimal(&cs), None);
    let q = parse_query("WHERE score>1e0").unwrap();
    assert!(matches!(&q.conditions[0], Condition::JsonField { value: Value::Number(_), .. }));
    let db = sample();
    assert_eq!(coords(&db.query("WHERE score<5.5").unwrap()), vec![(1, 2)]);
}

#[test]
fn value_literal_kinds() {
    let q = parse_query("WHERE a=\"x y\" AND b=true AND c=false AND d=word").unwrap();
    let values: Vec<&Value> = q
        .conditions
        .iter()
        .map(|c| match c {
            Condition::JsonField { value, .. } => value,
            _ => panic!("coordinate condition"),
        })
        .collect();
    assert_eq!(values, vec![&text("x y"), &Value::Bool(true), &Value::Bool(false), &text("word")]);
}

#[test]
fn unsupported_operators() {
    let db = sample();
    assert_eq!(
        db.query("WHERE name>\"a\"").unwrap_err(),
        PngDbError::UnsupportedOperator(ComparisonOp::GreaterThan)
    );
    let a = Value::Bool(true);
    assert_eq!(
        compare_json_values(&a, &a, &ComparisonOp::LessThan),
        Err(PngDbError::UnsupportedOperator(ComparisonOp::LessThan))
    );
}

#[test]
fn query_parse_errors() {
    let db = sample();
    assert!(matches!(db.query("SELECT score=1"), Err(PngDbError::QueryParse(_))));
    assert!(matches!(db.query("WHERE score"), Err(PngDbError::QueryParse(_))));
    assert!(matches!(db.query("WHERE x=abc"), Err(PngDbError::QueryParse(_))));
    assert!(matches!(db.query("WHERE x=-1"), Err(PngDbError::QueryParse(_))));
}

#[test]
fn compare_numbers_all_operators() {
    assert!(compare_numbers(3, 3, &ComparisonOp::Equal));
    assert!(compare_numbers(3, 4, &ComparisonOp::NotEqual));
    assert!(compare_numbers(5, 4, &ComparisonOp::GreaterThan));
    assert!(compare_numbers(-5, 4, &ComparisonOp::LessThan));
    assert!(compare_numbers(4, 4, &ComparisonOp::GreaterThanOrEqual));
    assert!(!compare_numbers(5, 4, &ComparisonOp::LessThanOrEqual));
}

#[test]
fn insert_out_of_bounds() {
    let mut db = sample();
    assert_eq!(db.insert(10, 0, num(1)), Err(PngDbError::OutOfBounds { x: 10, y: 0 }));
    assert_eq!(db.insert(0, 10, num(1)), Err(PngDbError::OutOfBounds { x: 0, y: 10 }));
    assert_eq!(db.rows.len(), 2);
    assert_eq!(db.insert(9, 9, num(1)), Ok(()));
    assert_eq!(db.rows.len(), 3);
}

#[test]
fn row_keywords() {
    assert_eq!(row_keyword(1, 2), "row_1_2");
    assert_eq!(row_keyword(0, 4294967295), "row_0_4294967295");
    assert_eq!(parse_row_keyword("row_12_7"), Some((12, 7)));
    assert_eq!(parse_row_keyword("row_x_5"), Some((0, 5)));
    assert_eq!(parse_row_keyword("row_abc"), None);
    assert_eq!(parse_row_keyword("row_1_2_3"), None);
}

fn stored(keyword: &str, content: Result<Value, EntryFault>) -> StoredEntry {
    StoredEntry { keyword: keyword.to_string(), content }
}

fn schema_json(pairs: &[(&str, &str)]) -> Value {
    Value::Object(pairs.iter().map(|(k, v)| (k.to_string(), text(v))).collect())
}

#[test]
fn malformed_row_keyword_is_skipped() {
    let entries = vec![
        stored("row_abc", Ok(num(1))),
        stored("row_1_2_3", Err(EntryFault::BadJson("not json".to_string()))),
        stored("row_", Err(EntryFault::Unreadable("inflate".to_string()))),
        stored("schema", Ok(schema_json(&[("name", "string")]))),
        stored("row_1_2", Ok(record("a", 5))),
        stored("other", Err(EntryFault::BadJson("ignored".to_string()))),
    ];
    let db = PngDatabase::decode(10, 20, entries).unwrap();
    assert_eq!((db.width, db.height), (10, 20));
    assert_eq!(db.schema.fields, vec![("name".to_string(), "string".to_string())]);
    assert_eq!(db.rows, vec![DataRow { x: 1, y: 2, data: record("a", 5) }]);
}

#[test]
fn decode_errors() {
    let bad_row = vec![stored("row_1_1", Err(EntryFault::BadJson("eof".to_string())))];
    assert_eq!(PngDatabase::decode(1, 1, bad_row).unwrap_err(), PngDbError::RowParse("eof".to_string()));
    let bad_schema = vec![stored("schema", Err(EntryFault::BadJson("eof".to_string())))];
    assert_eq!(
        PngDatabase::decode(1, 1, bad_schema).unwrap_err(),
        PngDbError::SchemaParse("eof".to_string())
    );
    let wrong_shape = vec![stored("schema", Ok(num(3)))];
    assert_eq!(PngDatabase::decode(1, 1, wrong_shape).unwrap_err(), PngDbError::InvalidSchema);
    let not_text = vec![stored("schema", Ok(Value::Object(vec![("a".to_string(), num(1))])))];
    assert_eq!(PngDatabase::decode(1, 1, not_text).unwrap_err(), PngDbError::InvalidSchema);
    let twice = vec![stored("schema", Ok(schema_json(&[("a", "x"), ("a", "y")])))];
    assert_eq!(PngDatabase::decode(1, 1, twice).unwrap_err(), PngDbError::InvalidSchema);
    let unreadable = vec![stored("row_0_0", Err(EntryFault::Unreadable("inflate".to_string())))];
    assert_eq!(
        PngDatabase::decode(1, 1, unreadable).unwrap_err(),
        PngDbError::ContainerFormat("inflate".to_string())
    );
    let none = PngDatabase::decode(4, 4, vec![]).unwrap();
    assert!(none.schema.fields.is_empty() && none.rows.is_empty());
}

#[test]
fn encode_then_decode_round_trip() {
    let mut db = PngDatabase::new(
        10,
        10,
        Schema { fields: vec![("name".to_string(), "string".to_string())] },
    );
    db.insert(1, 2, record("a", 5)).unwrap();
    db.insert(1, 2, record("dup", 6)).unwrap();
    let enc = db.encode();
    assert_eq!(enc.schema, schema_json(&[("name", "string")]));
    let keywords: Vec<&str> = enc.rows.iter().map(|(k, _)| k.as_str()).collect();
    assert_eq!(keywords, vec!["row_1_2", "row_1_2"]);
    let mut entries = vec![stored("schema", Ok(schema_json(&[("name", "string")])))];
    entries.push(stored(&enc.rows[0].0, Ok(record("a", 5))));
    entries.push(stored(&enc.rows[1].0, Ok(record("dup", 6))));
    let back = PngDatabase::decode(enc.width, enc.height, entries).unwrap();
    assert_eq!(back.schema, db.schema);
    assert_eq!(back.rows, db.rows);
}

#[test]
fn container_round_trip() {
    let entries = vec![
        ("schema".to_string(), "{}".to_string()),
        ("row_1_0".to_string(), "{\"a\":1}".to_string()),
    ];
    let bytes = write_container(3, 2, &entries).unwrap();
    assert_eq!(&bytes[1..4], b"PNG");
    let back = read_container(&bytes).unwrap();
    assert_eq!((back.width, back.height), (3, 2));
    let texts: Vec<(String, String)> =
        back.entries.into_iter().map(|(k, t)| (k, t.unwrap())).collect();
    assert_eq!(texts, entries);
}

#[test]
fn container_refuses_empty_keyword() {
    let entries = vec![(String::new(), "1".to_string())];
    assert!(matches!(write_container(1, 1, &entries), Err(PngDbError::ContainerFormat(_))));
}

#[test]
fn schema_uniqueness() {
    assert!(Schema { fields: vec![("a".to_string(), "x".to_string())] }.has_unique_names());
    let twice = vec![("a".to_string(), "x".to_string()), ("a".to_string(), "y".to_string())];
    assert!(!Schema { fields: twice }.has_unique_names());
}

#[test]
fn corrupt_container_is_rejected() {
    assert!(matches!(read_container(b"not an image"), Err(PngDbError::ContainerFormat(_))));
}

#[test]
fn schema_text() {
    let fields = parse_schema("name:string, score : number,bad,x:y:z,name:text").unwrap();
    assert_eq!(
        fields,
        vec![
            ("name".to_string(), "text".to_string()),
            ("score".to_string(), "number".to_string())
        ]
    );
    assert!(parse_schema("").unwrap().is_empty());
}
