use balpan::config::{get_name, is_valid, merge_language_layers, merge_toml_values, Value};
use balpan::paths::config_dir;

fn from_toml(v: toml::Value) -> Value {
    match v {
        toml::Value::String(s) => Value::String(s),
        toml::Value::Integer(i) => Value::Integer(i),
        toml::Value::Float(f) => Value::Float(f.to_bits()),
        toml::Value::Boolean(b) => Value::Boolean(b),
        toml::Value::Datetime(d) => Value::Datetime(d.to_string()),
        toml::Value::Array(a) => Value::Array(a.into_iter().map(from_toml).collect()),
        toml::Value::Table(t) => {
            Value::Table(t.into_iter().map(|(k, v)| (k, from_toml(v))).collect())
        }
    }
}

fn parse(text: &str) -> Value {
    from_toml(toml::from_str::<toml::Value>(text).unwrap())
}

fn get<'a>(v: &'a Value, key: &str) -> Option<&'a Value> {
    match v {
        Value::Table(es) => es.iter().find(|(k, _)| k == key).map(|(_, v)| v),
        _ => None,
    }
}

fn as_str(v: &Value) -> Option<&str> {
    match v {
        Value::String(s) => Some(s.as_str()),
        _ => None,
    }
}

fn as_integer(v: &Value) -> Option<i64> {
    match v {
        Value::Integer(i) => Some(*i),
        _ => None,
    }
}

fn as_array(v: &Value) -> Option<&Vec<Value>> {
    match v {
        Value::Array(a) => Some(a),
        _ => None,
    }
}

fn table(entries: Vec<(&str, Value)>) -> Value {
    Value::Table(entries.into_iter().map(|(k, v)| (k.to_string(), v)).collect())
}

fn s(text: &str) -> Value {
    Value::String(text.to_string())
}

const BUILTIN: &str = "
[[language]]
name = \"rust\"
comment-token = \"//\"

[[language]]
name = \"nix\"
comment-token = \"#\"
indent = { tab-width = 2, unit = \"  \" }

[[language]]
name = \"typescript\"
comment-token = \"//\"
language-server = { command = \"typescript-language-server\", args = [\"--stdio\"] }
";

#[test]
fn language_toml_map_merges() {
    const USER: &str = "
    [[language]]
    name = \"nix\"
    test = \"bbb\"
    indent = { tab-width = 4, unit = \"    \", test = \"aaa\" }
    ";

    let base = parse(BUILTIN);
    let user = parse(USER);

    let merged = merge_toml_values(base, user, 3);
    let languages = as_array(get(&merged, "language").unwrap()).unwrap();
    let nix = languages
        .iter()
        .find(|v| as_str(get(v, "name").unwrap()).unwrap() == "nix")
        .unwrap();
    let nix_indent = get(nix, "indent").unwrap();

    assert_eq!(as_integer(get(nix_indent, "tab-width").unwrap()).unwrap(), 4);
    assert_eq!(as_str(get(nix_indent, "unit").unwrap()).unwrap(), "    ");
    assert_eq!(as_str(get(nix, "test").unwrap()).unwrap(), "bbb");
    assert_eq!(as_str(get(nix_indent, "test").unwrap()).unwrap(), "aaa");
    assert_eq!(as_str(get(nix, "comment-token").unwrap()).unwrap(), "#");
}

#[test]
fn language_toml_nested_array_merges() {
    const USER: &str = "
    [[language]]
    name = \"typescript\"
    language-server = { command = \"deno\", args = [\"lsp\"] }
    ";

    let base = parse(BUILTIN);
    let user = parse(USER);

    let merged = merge_toml_values(base, user, 3);
    let languages = as_array(get(&merged, "language").unwrap()).unwrap();
    let ts = languages
        .iter()
        .find(|v| as_str(get(v, "name").unwrap()).unwrap() == "typescript")
        .unwrap();
    assert_eq!(
        as_array(get(get(ts, "language-server").unwrap(), "args").unwrap()).unwrap(),
        &vec![Value::String("lsp".into())]
    )
}

#[test]
fn merge_keeps_language_order_and_count() {
    let user = parse("[[language]]\nname = \"nix\"\ntest = 1\n");
    let merged = merge_toml_values(parse(BUILTIN), user, 3);
    let languages = as_array(get(&merged, "language").unwrap()).unwrap();
    let mut names = Vec::new();
    for l in languages {
        names.push(as_str(get(l, "name").unwrap()).unwrap().to_string());
    }
    assert_eq!(names, vec!["rust", "nix", "typescript"]);
}

#[test]
fn overlay_scalar_replaces_base_value() {
    let base = table(vec![("a", Value::Integer(1)), ("b", s("x"))]);
    let overlay = table(vec![("a", Value::Boolean(true))]);
    let merged = merge_toml_values(base, overlay, 1);
    assert_eq!(get(&merged, "a"), Some(&Value::Boolean(true)));
    assert_eq!(get(&merged, "b"), Some(&s("x")));
}

#[test]
fn key_absent_from_overlay_keeps_base_value() {
    let base = table(vec![("keep", Value::Integer(7)), ("other", Value::Integer(1))]);
    let overlay = table(vec![("other", Value::Integer(2)), ("new", Value::Integer(3))]);
    let merged = merge_toml_values(base, overlay, 2);
    assert_eq!(
        merged,
        table(vec![
            ("keep", Value::Integer(7)),
            ("other", Value::Integer(2)),
            ("new", Value::Integer(3)),
        ])
    );
}

#[test]
fn array_merge_matches_by_name() {
    let left = Value::Array(vec![table(vec![("name", s("nix")), ("a", Value::Integer(1))])]);
    let right = Value::Array(vec![table(vec![("name", s("nix")), ("b", Value::Integer(2))])]);
    let merged = merge_toml_values(left, right, 2);
    assert_eq!(
        merged,
        Value::Array(vec![table(vec![
            ("name", s("nix")),
            ("a", Value::Integer(1)),
            ("b", Value::Integer(2)),
        ])])
    );
}

#[test]
fn array_merge_matches_in_place_and_appends_rest() {
    let left = Value::Array(vec![
        table(vec![("name", s("a")), ("v", Value::Integer(1))]),
        table(vec![("name", s("b")), ("v", Value::Integer(1))]),
    ]);
    let right = Value::Array(vec![
        table(vec![("name", s("a")), ("v", Value::Integer(2))]),
        table(vec![("name", s("c")), ("v", Value::Integer(3))]),
        Value::Integer(9),
        Value::Integer(9),
    ]);
    let merged = merge_toml_values(left, right, 2);
    assert_eq!(
        merged,
        Value::Array(vec![
            table(vec![("name", s("a")), ("v", Value::Integer(2))]),
            table(vec![("name", s("b")), ("v", Value::Integer(1))]),
            table(vec![("name", s("c")), ("v", Value::Integer(3))]),
            Value::Integer(9),
            Value::Integer(9),
        ])
    );
}

#[test]
fn array_merge_at_depth_zero_replaces() {
    let left = Value::Array(vec![table(vec![("name", s("nix")), ("a", Value::Integer(1))])]);
    let right = Value::Array(vec![Value::Integer(5)]);
    assert_eq!(merge_toml_values(left, right, 0), Value::Array(vec![Value::Integer(5)]));
}

#[test]
fn table_merge_at_depth_zero_unions_keys() {
    let left = table(vec![("a", Value::Integer(1)), ("c", Value::Integer(3))]);
    let right = table(vec![("b", Value::Integer(2)), ("c", Value::Integer(4))]);
    assert_eq!(
        merge_toml_values(left, right, 0),
        table(vec![("a", Value::Integer(1)), ("c", Value::Integer(4)), ("b", Value::Integer(2))])
    );
}

#[test]
fn empty_overlay_table_keeps_base_at_depth_zero() {
    let left = table(vec![("x", Value::Integer(1))]);
    assert_eq!(merge_toml_values(left, table(vec![]), 0), table(vec![("x", Value::Integer(1))]));
}

#[test]
fn nested_tables_below_depth_zero_still_union() {
    let left = table(vec![("t", table(vec![("a", Value::Integer(1)), ("arr", Value::Array(vec![Value::Integer(1)]))]))]);
    let right = table(vec![("t", table(vec![("b", Value::Integer(2)), ("arr", Value::Array(vec![Value::Integer(2)]))]))]);
    assert_eq!(
        merge_toml_values(left, right, 1),
        table(vec![(
            "t",
            table(vec![
                ("a", Value::Integer(1)),
                ("arr", Value::Array(vec![Value::Integer(2)])),
                ("b", Value::Integer(2)),
            ])
        )])
    );
}

#[test]
fn array_merge_matches_by_name_at_depth_one() {
    let left = Value::Array(vec![table(vec![("name", s("nix")), ("a", Value::Integer(1))])]);
    let right = Value::Array(vec![table(vec![("name", s("nix")), ("b", Value::Integer(2))])]);
    assert_eq!(
        merge_toml_values(left, right, 1),
        Value::Array(vec![table(vec![
            ("name", s("nix")),
            ("a", Value::Integer(1)),
            ("b", Value::Integer(2)),
        ])])
    );
}

#[test]
fn mismatched_kinds_take_right() {
    let left = table(vec![("a", Value::Integer(1))]);
    assert_eq!(merge_toml_values(left, Value::Float(0), 3), Value::Float(0));
    assert_eq!(
        merge_toml_values(Value::Integer(1), Value::Array(vec![]), 3),
        Value::Array(vec![])
    );
}

#[test]
fn name_of_table_value() {
    let v = table(vec![("name", s("rust")), ("x", Value::Integer(1))]);
    assert_eq!(get_name(&v).map(|n| n.as_str()), Some("rust"));
    assert_eq!(get_name(&table(vec![("name", Value::Integer(1))])), None);
    assert_eq!(get_name(&Value::Array(vec![])), None);
}

#[test]
fn layers_apply_user_then_workspace() {
    let builtin = parse(BUILTIN);
    let user = parse("[[language]]\nname = \"rust\"\ncomment-token = \"#\"\n");
    let workspace = parse("[[language]]\nname = \"rust\"\ncomment-token = \"--\"\n");
    let merged = merge_language_layers(builtin, Some(user), Some(workspace));
    let languages = as_array(get(&merged, "language").unwrap()).unwrap();
    assert_eq!(as_str(get(&languages[0], "comment-token").unwrap()), Some("--"));
    assert_eq!(languages.len(), 3);
}

#[test]
fn layers_without_overrides_keep_builtin() {
    let merged = merge_language_layers(parse(BUILTIN), None, None);
    assert_eq!(merged, parse(BUILTIN));
}

#[test]
fn allow_env_variable_override() {
    const USER: &str = "
    [[language]]
    name = \"typescript\"
    language-server = { command = \"deno\", args = [\"lsp\"] }
    ";

    let base = parse(BUILTIN);
    let user = parse(USER);

    // the override is handed in as a value instead of read from the process environment
    assert_eq!(config_dir(Some("/tmp".to_string())), Some("/tmp".to_string()));
    let merged = merge_toml_values(base, user, 3);

    let languages = as_array(get(&merged, "language").unwrap()).unwrap();
    let ts = languages
        .iter()
        .find(|v| as_str(get(v, "name").unwrap()).unwrap() == "typescript")
        .unwrap();
    assert_eq!(
        as_array(get(get(ts, "language-server").unwrap(), "args").unwrap()).unwrap(),
        &vec![Value::String("lsp".into())]
    )
}

#[test]
fn repeated_key_is_not_valid() {
    assert!(is_valid(&parse(BUILTIN)));
    assert!(is_valid(&table(vec![("a", Value::Integer(1)), ("b", Value::Integer(2))])));
    assert!(!is_valid(&table(vec![("a", Value::Integer(1)), ("a", Value::Integer(2))])));
    let nested = Value::Array(vec![table(vec![("k", s("x")), ("k", s("y"))])]);
    assert!(!is_valid(&nested));
}

#[test]
fn scalar_at_end_of_key_path_wins_at_any_depth() {
    for depth in 0..4 {
        let base = table(vec![("a", table(vec![("b", Value::Integer(1)), ("c", Value::Integer(2))]))]);
        let overlay = table(vec![("a", table(vec![("b", Value::Boolean(true))]))]);
        let merged = merge_toml_values(base, overlay, depth);
        let a = get(&merged, "a").unwrap();
        assert_eq!(get(a, "b"), Some(&Value::Boolean(true)));
        assert_eq!(get(a, "c"), Some(&Value::Integer(2)));
    }
}
