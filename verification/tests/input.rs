use iq::engine::{latest, reject, render_value, summarize, to_json, Document};
use iq::history::{history_entry, load_history};
use iq::json::Json;
use iq::load::{finish, load, LoadError};
use iq::text::{decimal_text, trim};
use std::sync::Arc;

fn parse(s: &str) -> Document {
    match Document::parse(s) {
        Ok(d) => d,
        Err(e) => panic!("{}", e),
    }
}

fn strip(s: &str) -> String {
    let mut out = String::new();
    let mut skip = false;
    for c in s.chars() {
        if c == '\u{1b}' {
            skip = true;
        } else if skip && c == 'm' {
            skip = false;
        } else if !skip {
            out.push(c);
        }
    }
    out
}

#[test]
fn documents_are_read_as_plain_data() {
    let d = parse("{\"b\": [1, null, true], \"a\": \"x\", \"d\": 1.50}");
    match d.json() {
        Json::Object(o) => {
            assert_eq!(o.len(), 3);
            assert_eq!(o[0].0, "b");
            assert!(matches!(&o[0].1, Json::Array(a) if a.len() == 3
                && matches!(a[0], Json::Int(1)) && matches!(a[1], Json::Null)
                && matches!(a[2], Json::Bool(true))));
            assert!(matches!(&o[1].1, Json::Text(s) if s == "x"));
            assert!(matches!(&o[2].1, Json::Double(bits, Some(raw))
                if f64::from_bits(*bits) == 1.5 && raw == "1.50"));
        }
        other => panic!("{:?}", other),
    }
}

#[test]
fn kinds_have_the_names_of_jq() {
    let names: Vec<&str> = ["null", "true", "1", "1.5", "\"s\"", "[]", "{}"]
        .iter()
        .map(|s| parse(s).json().kind())
        .collect();
    assert_eq!(
        names,
        vec!["null", "boolean", "number", "number", "string", "array", "object"]
    );
}

#[test]
fn broken_documents_are_refused() {
    match Document::parse("{") {
        Err(message) => assert!(message.starts_with("simdjson error code ")),
        Ok(_) => panic!("not refused"),
    }
    assert!(Document::parse("").is_err());
}

#[test]
fn values_of_the_engine_become_plain_data() {
    let v = qj::value::Value::Object(Arc::new(vec![(
        "k".to_string(),
        qj::value::Value::Array(Arc::new(vec![
            qj::value::Value::Double(0.5, None),
            qj::value::Value::String("t".to_string()),
        ])),
    )]));
    match to_json(&v) {
        Json::Object(o) => match &o[0].1 {
            Json::Array(a) => {
                assert!(matches!(a[0], Json::Double(bits, None) if bits == (0.5f64).to_bits()));
                assert!(matches!(&a[1], Json::Text(s) if s == "t"));
            }
            other => panic!("{:?}", other),
        },
        other => panic!("{:?}", other),
    }
}

#[test]
fn values_are_written_in_colour() {
    assert_eq!(render_value(&qj::value::Value::Null, 4), "\u{1b}[90mnull\u{1b}[0m");
    assert_eq!(render_value(&qj::value::Value::Int(-7), 4), "\u{1b}[33m-7\u{1b}[0m");
    assert_eq!(render_value(&qj::value::Value::Bool(true), 0), "\u{1b}[33mtrue\u{1b}[0m");
    let list = qj::value::Value::Array(Arc::new(vec![qj::value::Value::Int(1)]));
    assert_eq!(strip(&render_value(&list, 3)), "[\n   1\n]");
    assert_eq!(strip(&render_value(&list, 0)), "[\n1\n]");
}

#[test]
fn nothing_typed_shows_the_document() {
    let d = parse("[1, 2, 3]");
    let e = d.evaluate("  ", 2);
    assert_eq!(strip(&e.text), "[\n  1,\n  2,\n  3\n]");
    assert_eq!(e.count, 3);
    assert_eq!(e.error, None);
    assert_eq!(parse("{}").show(4).count, 1);
    assert_eq!(parse("7").show(4).text, "\u{1b}[33m7\u{1b}[0m");
}

#[test]
fn a_filter_shows_its_outputs() {
    let d = parse("{\"a\": [1, 2]}");
    let e = d.evaluate(" .a[] ", 2);
    assert_eq!(strip(&e.text), "1\n2");
    assert_eq!(e.count, 2);
    assert_eq!(e.error, None);
    let e = d.evaluate("empty", 2);
    assert_eq!(e.text, "");
    assert_eq!(e.count, 0);
    assert_eq!(e.error, None);
}

#[test]
fn what_is_no_filter_is_rejected() {
    let e = parse("1").evaluate(".a |", 2);
    assert_eq!(e.text, "");
    assert_eq!(e.count, 0);
    assert!(matches!(&e.error, Some(m) if !m.is_empty()));
    let e = reject("why".to_string());
    assert_eq!((e.text.as_str(), e.count, e.error), ("", 0, Some("why".to_string())));
}

#[test]
fn an_error_of_a_filter_is_shown() {
    let e = parse("1").evaluate("error(\"boom\")", 2);
    assert_eq!(e.error, Some("runtime error: String(\"boom\")".to_string()));
    let e = parse("1").evaluate(".", 2);
    assert_eq!(e.error, None);
}

#[test]
fn outputs_are_summed_up() {
    let outputs = vec![qj::value::Value::Int(1), qj::value::Value::Null];
    let e = summarize(&outputs, Some(qj::value::Value::Int(5)), 4);
    assert_eq!(e.text, "\u{1b}[33m1\u{1b}[0m\n\u{1b}[90mnull\u{1b}[0m");
    assert_eq!(e.count, 2);
    assert_eq!(e.error, Some("runtime error: Int(5)".to_string()));
    let e = summarize(&Vec::new(), None, 4);
    assert_eq!((e.text.as_str(), e.count, e.error), ("", 0, None));
}

#[test]
fn only_the_last_filter_is_run() {
    assert_eq!(latest("a".to_string(), vec![]), "a");
    assert_eq!(latest("a".to_string(), vec!["b".to_string(), "c".to_string()]), "c");
}

#[test]
fn of_each_batch_the_last_filter_is_answered() {
    let d = parse("[1, 2]");
    let batches = [vec![".[0]"], vec![".", "nonsense |", ".[1]"], vec!["", " "]];
    let shown: Vec<String> = batches
        .iter()
        .map(|b| {
            let newer = b[1..].iter().map(|s| s.to_string()).collect();
            strip(&d.evaluate_latest(b[0].to_string(), newer, 0).text)
        })
        .collect();
    assert_eq!(shown, vec!["1", "2", "[\n1,\n2\n]"]);
}

#[test]
fn a_parse_is_finished() {
    match finish("abc", Err("why".to_string())) {
        Err(LoadError::Malformed { bytes, first, cause }) => {
            assert_eq!((bytes, first, cause), (3, b"abc".to_vec(), "why".to_string()));
        }
        _ => panic!("not refused"),
    }
    let d = Document::new(qj::value::Value::Bool(true));
    match finish("true", Ok(d)) {
        Ok(l) => {
            assert_eq!(l.preview, "true");
            assert!(matches!(l.document.json(), Json::Bool(true)));
        }
        Err(e) => panic!("{:?}", e),
    }
}

#[test]
fn input_is_trimmed_and_parsed() {
    match load(b" \n [1, 2] \t\n") {
        Ok(l) => {
            assert_eq!(l.preview, "[1, 2]");
            assert!(matches!(l.document.json(), Json::Array(a) if a.len() == 2));
        }
        Err(e) => panic!("{:?}", e),
    }
    let long = format!("\"{}\"", "x".repeat(100));
    match load(long.as_bytes()) {
        Ok(l) => assert_eq!(l.preview, format!("\"{}", "x".repeat(59))),
        Err(e) => panic!("{:?}", e),
    }
}

#[test]
fn bytes_that_are_not_text_are_replaced() {
    match load(b"\"\xff\"") {
        Ok(l) => assert!(matches!(l.document.json(), Json::Text(s) if s == "\u{fffd}")),
        Err(e) => panic!("{:?}", e),
    }
}

#[test]
fn no_input_is_an_error() {
    assert!(matches!(load(b""), Err(LoadError::Empty)));
}

#[test]
fn input_that_is_no_json_is_an_error() {
    match load(b"  {\"a\": ") {
        Err(LoadError::Malformed { bytes, first, cause }) => {
            assert_eq!(bytes, 5);
            assert_eq!(first, b"{\"a\":".to_vec());
            assert!(!cause.is_empty());
        }
        _ => panic!("not refused"),
    }
    match load(format!("[{}", "1,".repeat(50)).as_bytes()) {
        Err(LoadError::Malformed { bytes, first, .. }) => {
            assert_eq!(bytes, 101);
            assert_eq!(first.len(), 40);
        }
        _ => panic!("not refused"),
    }
    match load(b"   ") {
        Err(LoadError::Malformed { bytes, first, .. }) => {
            assert_eq!(bytes, 0);
            assert!(first.is_empty());
        }
        _ => panic!("not refused"),
    }
}

#[test]
fn history_is_read_line_by_line() {
    assert!(load_history(b"").is_empty());
    assert_eq!(load_history(b".a\n.b\n"), vec![".a", ".b"]);
    assert_eq!(load_history(b".a\r\n\n\r\n.b\r"), vec![".a", ".b\r"]);
    assert_eq!(load_history(b"\n\nx"), vec!["x"]);
    assert_eq!(load_history(b"a\xffb\n"), vec!["a\u{fffd}b"]);
}

#[test]
fn what_is_remembered_is_read_back() {
    let mut file = b"first\n".to_vec();
    file.extend_from_slice(history_entry(".a | .b").as_bytes());
    assert_eq!(load_history(&file), vec!["first", ".a | .b"]);
}

#[test]
fn what_is_remembered_is_read_back_whatever_stood_before() {
    let mut file = b"a\xe2\x82\nb\xff\r\n".to_vec();
    let before = load_history(&file);
    assert_eq!(before, vec!["a\u{fffd}", "b\u{fffd}"]);
    file.extend_from_slice(history_entry("é | .x").as_bytes());
    let mut expected = before;
    expected.push("é | .x".to_string());
    assert_eq!(load_history(&file), expected);
}

#[test]
fn white_space_is_trimmed() {
    assert_eq!(trim("  a b\t\n"), "a b");
    assert_eq!(trim(" \u{3000} "), "");
    assert_eq!(trim("x"), "x");
    assert_eq!(trim("\u{85}\u{a0}\u{1680}x\u{200b}\u{2028}\u{205f}\u{b}"), "x\u{200b}");
    assert_eq!(trim("\u{feff}x"), "\u{feff}x");
}

#[test]
fn numbers_are_written_in_decimal() {
    assert_eq!(decimal_text(0), "0");
    assert_eq!(decimal_text(9), "9");
    assert_eq!(decimal_text(10), "10");
    assert_eq!(decimal_text(u128::MAX), u128::MAX.to_string());
}
