use neki_lang::extensions::get_extension_info;
use neki_lang::util::json5::parse;
use neki_lang::util::json_patch::{generate_patch, PatchData};
use neki_lang::util::patterns::{PatternConfig, PatternSet, RawPatternConfig};
use neki_lang::util::value::{Num, Value};

fn config(ext: &str, patterns: Vec<&str>) -> PatternConfig {
    let raw = RawPatternConfig {
        patterns: vec![(
            ext.to_string(),
            patterns.into_iter().map(|p| p.to_string()).collect(),
        )],
    };
    PatternConfig::from_raw_config(raw).unwrap()
}

fn replace_op(path: &str, value: Value) -> Value {
    Value::Object(vec![
        ("op".to_string(), Value::Str("replace".to_string())),
        ("path".to_string(), Value::Str(path.to_string())),
        ("value".to_string(), value),
    ])
}

fn test_op(path: &str) -> Value {
    Value::Object(vec![
        ("op".to_string(), Value::Str("test".to_string())),
        ("path".to_string(), Value::Str(path.to_string())),
    ])
}

#[test]
fn string_path_matching_emits_one_replace() {
    let cfg = config("json", vec!["^/name$"]);
    let v = parse("{\"name\":\"Foo\",\"desc\":\"Bar\"}").unwrap();
    let out = generate_patch(false, &v, "json", &cfg, false);
    match out {
        PatchData::CommonPatch(ops) => {
            assert_eq!(ops.len(), 1);
            assert_eq!(ops[0], replace_op("/name", Value::Str("(T) Foo".to_string())));
        }
        _ => panic!("expected a flat patch"),
    }
}

#[test]
fn matched_array_is_replaced_as_a_unit() {
    let cfg = config("json", vec!["^/tags$"]);
    let v = parse("{\"tags\":[\"a\",\"b\",1]}").unwrap();
    let out = generate_patch(false, &v, "json", &cfg, false);
    match out {
        PatchData::CommonPatch(ops) => {
            assert_eq!(ops.len(), 1);
            let expected = replace_op(
                "/tags",
                Value::Array(vec![
                    Value::Str("(T) a".to_string()),
                    Value::Str("(T) b".to_string()),
                    Value::Num(Num::Int(1)),
                ]),
            );
            assert_eq!(ops[0], expected);
        }
        _ => panic!("expected a flat patch"),
    }
}

#[test]
fn unmatched_array_recurses_per_element() {
    let cfg = config("json", vec!["^/tags/1$"]);
    let v = parse("{\"tags\":[\"a\",\"b\"]}").unwrap();
    let out = generate_patch(false, &v, "json", &cfg, false);
    match out {
        PatchData::CommonPatch(ops) => {
            assert_eq!(ops.len(), 1);
            assert_eq!(ops[0], replace_op("/tags/1", Value::Str("(T) b".to_string())));
        }
        _ => panic!("expected a flat patch"),
    }
}

#[test]
fn existing_patch_traversal_roots_at_operation_path() {
    let cfg = config("json.patch", vec!["^/title$"]);
    let v = parse("[{\"op\":\"replace\",\"path\":\"/title\",\"value\":\"Hello\"}]").unwrap();
    let out = generate_patch(true, &v, "json.patch", &cfg, false);
    match out {
        PatchData::CommonPatch(ops) => {
            assert_eq!(ops.len(), 1);
            assert_eq!(ops[0], replace_op("/title", Value::Str("(T) Hello".to_string())));
        }
        _ => panic!("expected a flat patch"),
    }
}

#[test]
fn test_guard_batches_each_replace() {
    let cfg = config("json.patch", vec!["^/title$"]);
    let v = parse("[{\"op\":\"replace\",\"path\":\"/title\",\"value\":\"Hello\"}]").unwrap();
    let out = generate_patch(true, &v, "json.patch", &cfg, true);
    match out {
        PatchData::BatchesPatch(batches) => {
            assert_eq!(batches.len(), 1);
            assert_eq!(batches[0].len(), 2);
            assert_eq!(batches[0][0], test_op("/title"));
            assert_eq!(
                batches[0][1],
                replace_op("/title", Value::Str("(T) Hello".to_string()))
            );
        }
        _ => panic!("expected batches"),
    }
}

#[test]
fn patch_mode_resets_path_at_plain_object_fields() {
    let cfg = config("json.patch", vec!["^title$"]);
    let v = parse("{\"title\":\"Hello\"}").unwrap();
    let out = generate_patch(true, &v, "json.patch", &cfg, false);
    match out {
        PatchData::CommonPatch(ops) => {
            assert_eq!(ops.len(), 1);
            assert_eq!(ops[0], replace_op("title", Value::Str("(T) Hello".to_string())));
        }
        _ => panic!("expected a flat patch"),
    }
}

#[test]
fn unknown_extension_yields_empty_result() {
    let cfg = config("json", vec!["^/name$"]);
    let v = parse("{\"name\":\"Foo\"}").unwrap();
    let out = generate_patch(false, &v, "txt", &cfg, false);
    assert!(out.is_empty());
    match out {
        PatchData::CommonPatch(ops) => assert_eq!(ops.len(), 0),
        _ => panic!("expected a flat patch"),
    }
}

#[test]
fn empty_pattern_list_matches_nothing() {
    let cfg = config("json", vec![]);
    let v = parse("{\"name\":\"Foo\"}").unwrap();
    let out = generate_patch(false, &v, "json", &cfg, false);
    assert!(out.is_empty());
}

#[test]
fn all_empty_batches_count_as_empty() {
    let cfg = config("json", vec![]);
    let v = parse("{\"name\":\"Foo\"}").unwrap();
    let out = generate_patch(false, &v, "json", &cfg, true);
    assert!(out.is_empty());
    let nonempty = PatchData::BatchesPatch(vec![vec![], vec![test_op("/a")]]);
    assert!(!nonempty.is_empty());
    let empty = PatchData::BatchesPatch(vec![vec![], vec![]]);
    assert!(empty.is_empty());
}

#[test]
fn invalid_pattern_fails_configuration() {
    let set = PatternSet::new(vec!["([".to_string()]);
    assert!(set.is_err());
    let raw = RawPatternConfig {
        patterns: vec![("json".to_string(), vec!["([".to_string()])],
    };
    assert!(PatternConfig::from_raw_config(raw).is_err());
}

#[test]
fn numbers_and_booleans_produce_no_operations() {
    let cfg = config("json", vec!["^/a$"]);
    let v = parse("{\"a\": 5, \"b\": true}").unwrap();
    let out = generate_patch(false, &v, "json", &cfg, false);
    assert!(out.is_empty());
}

#[test]
fn extension_info_recognizes_plain_and_patch_names() {
    assert_eq!(get_extension_info("a.json"), ("json".to_string(), false));
    assert_eq!(
        get_extension_info("a.json.patch"),
        ("json.patch".to_string(), true)
    );
    assert_eq!(get_extension_info("noext"), ("".to_string(), false));
    assert_eq!(get_extension_info(".gitignore"), ("".to_string(), false));
    assert_eq!(get_extension_info("x.patch"), ("patch".to_string(), true));
}
