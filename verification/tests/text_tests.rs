use quantumseal::json::{Json, JsonObject};
use quantumseal::text::{push_int, push_nat, push_signed, text_equal, text_less};

#[test]
fn text_order_matches_string_order() {
    let words = ["", "a", "ab", "b", "B", "é", "abc", "aa", "z", "ñandú"];
    for x in words {
        for y in words {
            assert_eq!(text_less(x, y), x < y, "{x:?} < {y:?}");
            assert_eq!(text_equal(x, y), x == y, "{x:?} == {y:?}");
        }
    }
}

#[test]
fn decimal_rendering() {
    let mut s = String::new();
    push_nat(&mut s, 0);
    s.push(' ');
    push_nat(&mut s, 1234567890);
    s.push(' ');
    push_nat(&mut s, u64::MAX);
    assert_eq!(s, "0 1234567890 18446744073709551615");

    let mut s = String::new();
    push_int(&mut s, -42);
    s.push(' ');
    push_int(&mut s, i64::MIN);
    s.push(' ');
    push_int(&mut s, 7);
    assert_eq!(s, "-42 -9223372036854775808 7");

    let mut s = String::new();
    push_signed(&mut s, 0);
    s.push(' ');
    push_signed(&mut s, 11);
    s.push(' ');
    push_signed(&mut s, -1);
    assert_eq!(s, format!("{:+} {:+} {:+}", 0, 11, -1));
}

#[test]
fn json_accessors() {
    let mut o = JsonObject::new();
    o.insert("b".to_string(), Json::String("x".to_string()));
    o.insert("a".to_string(), Json::Number(1));
    o.insert("c".to_string(), Json::Null);
    o.insert("a".to_string(), Json::Number(2));
    assert_eq!(o.len(), 3);
    let keys: Vec<&str> = o.members().iter().map(|(k, _)| k.as_str()).collect();
    assert_eq!(keys, vec!["a", "b", "c"]);
    assert!(matches!(o.get("a"), Some(Json::Number(2))));
    assert!(matches!(o.get("b").and_then(|v| v.as_str()), Some("x")));
    assert!(o.get("d").is_none());
    let sorted = JsonObject::from_sorted(vec![("x".to_string(), Json::Null), ("y".to_string(), Json::Bool(false))]);
    assert_eq!(sorted.len(), 2);
    assert!(matches!(sorted.get("y"), Some(Json::Bool(false))));
    assert!(Json::Object(JsonObject::new()).as_object().is_some());
    assert_eq!(Json::from_i64(-3).as_i64(), Some(-3));
    assert_eq!(Json::OtherNumber.as_i64(), None);
    assert_eq!(Json::Null.as_str(), None);
    assert!(Json::Array(vec![Json::Null]).as_array().is_some());
    assert!(Json::Bool(true).as_object().is_none());
}
