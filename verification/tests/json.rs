use iomon::binary64::Binary64;
use iomon::json::{json_str, parse_object, parse_string, push_num, Value};

fn num(x: f64) -> Value {
    Value::Num(Binary64::from_bits(x.to_bits()))
}

#[test]
fn escapes() {
    assert_eq!(json_str("a\"b\\c"), "\"a\\\"b\\\\c\"");
    assert_eq!(json_str("行\n"), "\"行\\n\"");
    assert_eq!(json_str("\u{1}"), "\"\\u0001\"");
}

#[test]
fn numbers() {
    let mut s = String::new();
    push_num(&mut s, &Binary64::from_bits(f64::NAN.to_bits()));
    assert_eq!(s, "0");
    s.clear();
    push_num(&mut s, &Binary64::from_bits(1.5f64.to_bits()));
    assert_eq!(s, "1.5000");
}

#[test]
fn infinite_numbers_are_written_as_zero() {
    let mut s = String::new();
    push_num(&mut s, &Binary64::from_bits(f64::INFINITY.to_bits()));
    push_num(&mut s, &Binary64::from_bits(f64::NEG_INFINITY.to_bits()));
    assert_eq!(s, "00");
}

#[test]
fn parse_simple_object() {
    let f = parse_object("{\"a\":1,\"b\":\"x\",\"c\":true,\"d\":null}").unwrap();
    assert_eq!(f[0], ("a".into(), num(1.0)));
    assert_eq!(f[1], ("b".into(), Value::Str("x".into())));
    assert_eq!(f[2], ("c".into(), Value::Bool(true)));
    assert_eq!(f[3], ("d".into(), Value::Null));
    assert_eq!(parse_object("{}").unwrap(), Vec::new());
}

#[test]
fn parse_escapes_and_unicode() {
    let f = parse_object(&format!("{{\"k\":{}}}", json_str("引\"文\\换\n\u{1}"))).unwrap();
    assert_eq!(f[0].1, Value::Str("引\"文\\换\n\u{1}".into()));
    let f = parse_object("{\"k\":\"\\u4e2d\\u6587\"}").unwrap();
    assert_eq!(f[0].1, Value::Str("中文".into()));
    let f = parse_object("{\"k\":-12.5e2}").unwrap();
    assert_eq!(f[0].1, num(-1250.0));
}

#[test]
fn parse_fake_field_in_value() {
    let line = format!("{{\"a\":{},\"pid\":7}}", json_str("x = {\"pid\": 1}"));
    let f = parse_object(&line).unwrap();
    assert_eq!(f[0].1, Value::Str("x = {\"pid\": 1}".into()));
    assert_eq!(f[1], ("pid".into(), num(7.0)));
}

#[test]
fn parse_rejects_malformed() {
    assert!(parse_object("{\"a\":").is_none());
    assert!(parse_object("{\"a\":1").is_none());
    assert!(parse_object("{\"a\":\"x").is_none());
    assert!(parse_object("{\"a\":1,}").is_none());
    assert!(parse_object("{\"a\" 1}").is_none());
    assert!(parse_object("{\"a\":,}").is_none());
    assert!(parse_object("{\"a\":1}x").is_none());
    assert!(parse_object("{\"a\":\"\\ud800\"}").is_none());
    assert!(parse_object("{\"a\":\"\\q\"}").is_none());
    assert!(parse_object("{\"a\":12x3}").is_none());
    assert!(parse_object("").is_none());
    assert!(parse_object("[1,2]").is_none());
}

#[test]
fn all_escapes_are_read() {
    let f = parse_object(" {\t\"k\" :\r\n \"\\\"\\\\\\/\\n\\r\\t\\b\\f\\u00e9\\u0041\" , \"b\":false } \n")
        .unwrap();
    assert_eq!(f[0].1, Value::Str("\"\\/\n\r\t\u{8}\u{c}éA".into()));
    assert_eq!(f[1], ("b".into(), Value::Bool(false)));
    assert!(parse_object("{\"k\":\"\\u00g0\"}").is_none());
    assert!(parse_object("{\"k\":\"\\u+041\"}").is_none());
    assert!(parse_object("{\"k\":\"\\u00").is_none());
    assert!(parse_object("{\"k\":\"\\u中文中文\"}").is_none());
    assert!(parse_object("{\"k\":\"a\nb\"}").is_none());
    assert!(parse_object("{\"k\":\"a\u{7f}b\"}").is_some());
    assert!(parse_object("{\"k\":tru}").is_none());
    assert!(parse_object("{\"k\":nul").is_none());
    assert!(parse_object("{\"k\":--1}").is_none());
    assert!(parse_object("{\"k\":+1}").is_none());
    assert!(parse_object("{\"k\":.5}").is_none());
    assert!(parse_object("{,}").is_none());
    assert!(parse_object("{\"a\":1}}").is_none());
}

#[test]
fn numbers_are_read_as_the_machine_reads_them() {
    for text in ["0", "-0", "1.0", "-0.5", "10", "-12.5e2", "0e0", "0.0E+0", "1e3", "1E-3", "123456789.0123", "9007199254740993", "1e400", "-1e-400"] {
        let f = parse_object(&format!("{{\"n\":{}}}", text)).unwrap();
        assert_eq!(f[0].1, num(text.parse::<f64>().unwrap()), "{}", text);
    }
    for text in [
        "1e", "-", "1.2.3", "1e+", "-e5", "1-2", "1.", "-.5", "007", "-01", "00", "0.", "1.e5", "1e5.0", "1e5e5", "1e+-5", "--1",
    ] {
        assert!(parse_object(&format!("{{\"n\":{}}}", text)).is_none(), "{}", text);
    }
}

#[test]
fn strings_read_back() {
    let nasty = "\u{0}\u{1f}\u{7f}\u{9f}\u{a0}\"\\/\n\r\t 中\u{10ffff}{}[]:,";
    let line = format!("{{{}:{}}}", json_str(nasty), json_str(nasty));
    let f = parse_object(&line).unwrap();
    assert_eq!(f.len(), 1);
    assert_eq!(f[0].0, nasty);
    assert_eq!(f[0].1, Value::Str(nasty.into()));
}

#[test]
fn strings_end_behind_their_quote() {
    for x in ["", "a", "\"\\\n\u{1}\u{9f}中"] {
        let written: Vec<char> = json_str(x).chars().collect();
        let all: Vec<char> = "ab\"".chars().chain(written.clone()).chain("\"\\,".chars()).collect();
        assert_eq!(parse_string(&all, 3), Some((x.to_string(), 3 + written.len())));
    }
    let plus: Vec<char> = "\"\\u+041\"".chars().collect();
    assert_eq!(parse_string(&plus, 0), None);
    let open: Vec<char> = "\"ab".chars().collect();
    assert_eq!(parse_string(&open, 0), None);
}
