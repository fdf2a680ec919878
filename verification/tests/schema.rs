//! Schemas.

use bunnymeshdb::json::{read_json, Json};
use bunnymeshdb::schema::{check_supported, numbers_in, validate_schema};

fn v(s: &str) -> Json {
    read_json(s).unwrap()
}

/// The pairs of a number and a step of which the number is no multiple, by their bits.
fn odd_pairs(schema: &Json, value: &Json) -> Vec<(u64, u64)> {
    let mut steps = Vec::new();
    let mut numbers = Vec::new();
    numbers_in(schema, &mut steps);
    numbers_in(value, &mut numbers);
    let mut out = Vec::new();
    for n in &numbers {
        for m in &steps {
            let q = f64::from_bits(*n) / f64::from_bits(*m);
            if q.fract().abs() > 1e-9 {
                out.push((*n, *m));
            }
        }
    }
    out
}

fn check(schema: &Json, value: &Json) -> Result<(), String> {
    validate_schema(schema, value, &odd_pairs(schema, value))
}

#[test]
fn rejects_unsupported_keywords() {
    assert!(check_supported(&v(r##"{"pattern":"^a"}"##)).is_err());
    assert!(check_supported(&v(r##"{"$ref":"#"}"##)).is_err());
}

#[test]
fn object_shape_enforced() {
    let schema = v(r#"{"type":"object","properties":{"title":{"type":"string","minLength":1}},"required":["title"],"additionalProperties":false}"#);
    assert!(check(&schema, &v(r#"{"title":"hi"}"#)).is_ok());
    assert!(check(&schema, &v(r#"{"title":""}"#)).is_err());
    assert!(check(&schema, &v(r#"{"title":"ok","extra":1}"#)).is_err());
    assert!(check(&schema, &v(r#"{"other":1}"#)).is_err());
    assert!(check(&schema, &v("[1,2]")).is_err());
}

#[test]
fn arrays_and_numbers() {
    let schema = v(r#"{"type":"array","items":{"type":"integer"},"minItems":1,"uniqueItems":true}"#);
    assert!(check(&schema, &v("[1,2,3]")).is_ok());
    assert!(check(&schema, &v("[]")).is_err());
    assert!(check(&schema, &v("[1,1]")).is_err());
    assert!(check(&schema, &v("[1,2.5]")).is_err());

    let n = v(r#"{"type":"number","minimum":0,"exclusiveMaximum":100,"multipleOf":5}"#);
    assert!(check(&n, &v("50")).is_ok());
    assert!(check(&n, &v("3")).is_err());
    assert!(check(&n, &v("-1")).is_err());
    assert!(check(&n, &v("100")).is_err());
}

#[test]
fn enum_and_const() {
    let e = v(r#"{"enum":["a","b",5]}"#);
    assert!(check(&e, &v(r#""a""#)).is_ok());
    assert!(check(&e, &v("5")).is_ok());
    assert!(check(&e, &v(r#""c""#)).is_err());
}

#[test]
fn combinators() {
    let s = v(r#"{"anyOf":[{"type":"string"},{"type":"integer"}]}"#);
    assert!(check(&s, &v(r#""x""#)).is_ok());
    assert!(check(&s, &v("5")).is_ok());
    assert!(check(&s, &v("true")).is_err());

    let n = v(r#"{"type":"string","not":{"enum":["blocked"]}}"#);
    assert!(check(&n, &v(r#""ok""#)).is_ok());
    assert!(check(&n, &v(r#""blocked""#)).is_err());
}

#[test]
fn boolean_and_empty_schemas() {
    assert!(check(&v("true"), &v("1")).is_ok());
    assert!(check(&v("false"), &v("1")).is_err());
    assert!(check(&v("{}"), &v("[null]")).is_ok());
    assert!(check_supported(&v("{}")).is_ok());
    assert!(check_supported(&v(r#"{"items":{"pattern":"x"}}"#)).is_err());
}

#[test]
fn no_json_reads_as_none() {
    assert!(read_json("{").is_none());
    assert!(matches!(read_json("[1, \"a\", null]"), Some(Json::Arr(l)) if l.len() == 3));
}

#[test]
fn keywords_that_are_not_enforced_are_refused() {
    assert!(check_supported(&v(r#"{"prefixItems":[{"type":"string"}]}"#)).is_err());
    assert!(check_supported(&v(r#"{"items":{"prefixItems":[true]}}"#)).is_err());
    assert!(check_supported(&v(r#"{"anyOf":[{"type":"string"},{"prefixItems":[]}]}"#)).is_err());
    assert!(check_supported(&v(r#"{"title":"t","description":"d","default":1}"#)).is_ok());
}

#[test]
fn combinators_count_the_schemas_that_are_met() {
    let list = r#"[{"type":"integer"},{"minimum":3},{"enum":[1,5]}]"#;
    let one = v(&format!(r#"{{"oneOf":{list}}}"#));
    let any = v(&format!(r#"{{"anyOf":{list}}}"#));
    let all = v(&format!(r#"{{"allOf":{list}}}"#));
    for (value, met) in [("5", 3), ("4", 2), ("1", 2), ("2", 1), ("2.5", 0), ("\"x\"", 1)] {
        assert_eq!(check(&one, &v(value)).is_ok(), met == 1, "{value}");
        assert_eq!(check(&any, &v(value)).is_ok(), met >= 1, "{value}");
        assert_eq!(check(&all, &v(value)).is_ok(), met == 3, "{value}");
    }
    assert!(check(&v(r#"{"oneOf":[]}"#), &v("1")).is_err());
    assert!(check(&v(r#"{"anyOf":[]}"#), &v("1")).is_err());
    assert!(check(&v(r#"{"allOf":[]}"#), &v("1")).is_ok());
}
