use structpath::access::get;
use structpath::format::to_string;
use structpath::iter::iter_variables;
use structpath::parse::parse;
use structpath::walk::new_walker;
use structpath::{Bindings, Segment, SegmentKey, Structpath, StructpathError, Value};

fn vs(x: &str) -> Value {
    Value::String(x.to_string())
}

fn vn(x: i64) -> Value {
    Value::Number(x)
}

fn obj(pairs: Vec<(&str, Value)>) -> Value {
    Value::Object(pairs.into_iter().map(|(k, v)| (k.to_string(), v)).collect())
}

fn arr(items: Vec<Value>) -> Value {
    Value::Array(items)
}

fn bound<'a>(vars: &'a [(String, Value)], name: &str) -> Option<&'a Value> {
    vars.iter().find(|(k, _)| k == name).map(|(_, v)| v)
}

fn collect_walk(data: &Value) -> Vec<(Structpath, Value)> {
    let mut w = new_walker(data);
    let mut out = Vec::new();
    while let Some(pv) = w.next() {
        out.push(pv);
    }
    out
}

fn collect_iter(path: &Structpath, data: &Value) -> Vec<(Value, Vec<(String, Value)>)> {
    let mut it = iter_variables(path, data);
    let mut out = Vec::new();
    while let Some(r) = it.next() {
        out.push(r);
    }
    out
}

// ---- parsing ----

#[test]
fn test_parse_simple_path() {
    let path = parse("$a.b.c").unwrap();

    let mut expected = Structpath::new();
    expected.push_string_key("a");
    expected.push_string_key("b");
    expected.push_string_key("c");

    assert_eq!(path, expected);
}

#[test]
fn test_parse_with_key_variables() {
    let path = parse("$a.#var.c").unwrap();

    let mut expected = Structpath::new();
    expected.push_string_key("a");
    let _ = expected.push_key_variable("var");
    expected.push_string_key("c");

    assert_eq!(path, expected);
}

#[test]
fn test_parse_with_index_variables() {
    let path = parse("$a[#idx].b").unwrap();

    let mut expected = Structpath::new();
    expected.push_string_key("a");
    let _ = expected.push_index_variable("idx");
    expected.push_string_key("b");

    assert_eq!(path, expected);
}

#[test]
fn test_parse_with_multiple_variable_types() {
    let path = parse("$teams[#idx].members.#name").unwrap();

    let mut expected = Structpath::new();
    expected.push_string_key("teams");
    let _ = expected.push_index_variable("idx");
    expected.push_string_key("members");
    let _ = expected.push_key_variable("name");

    assert_eq!(path, expected);
}

#[test]
fn test_parse_with_variables() {
    let path = parse("$a.#var.c").unwrap();

    let mut expected = Structpath::new();
    expected.push_string_key("a");
    let _ = expected.push_key_variable("var");
    expected.push_string_key("c");

    assert_eq!(path, expected);
}

#[test]
fn test_parse_with_array_variable() {
    let path = parse("$a[#idx].b").unwrap();

    let mut expected = Structpath::new();
    expected.push_string_key("a");
    let _ = expected.push_index_variable("idx");
    expected.push_string_key("b");

    assert_eq!(path, expected);
}

#[test]
fn test_parse_with_multiple_unique_variables() {
    let path = parse("$teams.#teamId.members.#userId").unwrap();

    let mut expected = Structpath::new();
    expected.push_string_key("teams");
    let _ = expected.push_key_variable("teamId");
    expected.push_string_key("members");
    let _ = expected.push_key_variable("userId");

    assert_eq!(path, expected);
}

#[test]
fn test_parse_with_duplicate_variables() {
    let result = parse("$teams.#var.members.#var");

    assert!(matches!(result, Err(StructpathError::DuplicateVariable(_))));
}

#[test]
fn test_parse_with_array_indices() {
    let path = parse("$a[0].b[1].c").unwrap();

    let mut expected = Structpath::new();
    expected.push_string_key("a");
    expected.push_index(0);
    expected.push_string_key("b");
    expected.push_index(1);
    expected.push_string_key("c");

    assert_eq!(path, expected);
}

#[test]
fn test_parse_with_escaped_characters() {
    let path = parse(r"$a\.b\[0\].c").unwrap();

    let mut expected = Structpath::new();
    expected.push_string_key("a.b[0]");
    expected.push_string_key("c");

    assert_eq!(path, expected);
}

#[test]
fn test_parse_with_int_keys() {
    let path = parse("$123.456.789").unwrap();

    let mut expected = Structpath::new();
    expected.push_int_key(123);
    expected.push_int_key(456);
    expected.push_int_key(789);

    assert_eq!(path, expected);
}

#[test]
fn test_parse_with_escaped_hash() {
    let path = parse(r"$a.\#notvar.c").unwrap();

    let mut expected = Structpath::new();
    expected.push_string_key("a");
    expected.push_string_key("#notvar");
    expected.push_string_key("c");

    assert_eq!(path, expected);
}

// ---- formatting ----

#[test]
fn test_to_string() {
    let mut path = Structpath::new();
    path.push_string_key("a");
    path.push_index(0);
    path.push_string_key("b.c");
    path.push_string_key("d[e]");
    path.push_string_key("123");
    path.push_int_key(456);

    let path_str = to_string(&path);
    assert_eq!(path_str, r"$a[0].b\.c.d\[e\].\123.456");
}

#[test]
fn test_with_key_variable() {
    let mut path = Structpath::new();
    path.push_string_key("a");
    let _ = path.push_key_variable("var");
    path.push_string_key("c");

    let path_str = to_string(&path);
    assert_eq!(path_str, "$a.#var.c");
}

#[test]
fn test_with_index_variable() {
    let mut path = Structpath::new();
    path.push_string_key("a");
    let _ = path.push_index_variable("idx");
    path.push_string_key("b");

    let path_str = to_string(&path);
    assert_eq!(path_str, "$a[#idx].b");
}

#[test]
fn test_with_mixed_variables() {
    let mut path = Structpath::new();
    path.push_string_key("teams");
    let _ = path.push_index_variable("idx");
    path.push_string_key("members");
    let _ = path.push_key_variable("name");

    let path_str = to_string(&path);
    assert_eq!(path_str, "$teams[#idx].members.#name");
}

#[test]
fn test_with_hash_in_key() {
    let mut path = Structpath::new();
    path.push_string_key("a");
    path.push_string_key("#notvar");
    path.push_string_key("c");

    let path_str = to_string(&path);
    assert_eq!(path_str, r"$a.\#notvar.c");
}

#[test]
fn test_roundtrip() {
    let path_strs = vec![
        "$a.b.c",
        "$a[0].b[1].c",
        r"$a\.b.c",
        r"$a.b\[0\].c",
        r"$a\.b\.c",
        r"$123.456.abc",
        r"$\123.\456.abc",
        "$a.#var.c",
        "$teams.#teamId.members.#userId",
        "$items[#idx].value",
    ];

    for path_str in path_strs {
        let path = parse(path_str).unwrap();
        let new_path_str = path.to_string();
        let new_path = parse(&new_path_str).unwrap();
        assert_eq!(path, new_path);
    }
}

// ---- reading ----

#[test]
fn test_get_value() {
    let data = obj(vec![
        (
            "a",
            arr(vec![
                obj(vec![("b", obj(vec![("c", vn(42))]))]),
                obj(vec![("d", vs("hello"))]),
            ]),
        ),
        ("e.f", vs("escaped key")),
        ("123", vs("integer key")),
    ]);

    let path = parse("$a[0].b.c").unwrap();
    let value = get(&path, &data, None).unwrap();
    assert_eq!(*value, vn(42));

    let path = parse("$a[1].d").unwrap();
    let value = get(&path, &data, None).unwrap();
    assert_eq!(*value, vs("hello"));

    let path = parse(r"$e\.f").unwrap();
    let value = get(&path, &data, None).unwrap();
    assert_eq!(*value, vs("escaped key"));

    let path = parse("$123").unwrap();
    let value = get(&path, &data, None).unwrap();
    assert_eq!(*value, vs("integer key"));
}

#[test]
fn test_get_not_found() {
    let data = obj(vec![("a", obj(vec![("b", vn(1))]))]);
    let path = parse("$a.c").unwrap();
    let result = get(&path, &data, None);
    assert!(matches!(result, Err(StructpathError::NotFound)));
}

#[test]
fn test_get_invalid_type() {
    let data = obj(vec![("a", vn(1))]);
    let path = parse("$a.b").unwrap();
    let result = get(&path, &data, None);
    assert!(matches!(result, Err(StructpathError::InvalidPath { .. })));
}

#[test]
fn test_get_index_out_of_bounds() {
    let data = obj(vec![("a", arr(vec![vn(1), vn(2)]))]);
    let path = parse("$a[5]").unwrap();
    let result = get(&path, &data, None);
    assert!(matches!(result, Err(StructpathError::IndexOutOfBounds(_))));
}

// ---- walking ----

#[test]
fn test_walker_with_scalar() {
    let data = vn(42);
    let mut walker = new_walker(&data);

    let result = walker.next().unwrap();
    assert_eq!(result.0.to_string(), "$");
    assert_eq!(result.1, vn(42));

    assert!(walker.next().is_none());
}

#[test]
fn test_walker_with_array() {
    let data = arr(vec![vn(1), vn(2), vn(3)]);
    let results = collect_walk(&data);

    assert_eq!(results.len(), 4);

    let paths: Vec<String> = results.iter().map(|(path, _)| path.to_string()).collect();
    let values: Vec<&Value> = results.iter().map(|(_, value)| value).collect();

    assert!(paths.contains(&"$".to_string()));
    assert!(paths.contains(&"$[0]".to_string()));
    assert!(paths.contains(&"$[1]".to_string()));
    assert!(paths.contains(&"$[2]".to_string()));

    assert!(values.contains(&&arr(vec![vn(1), vn(2), vn(3)])));
    assert!(values.contains(&&vn(1)));
    assert!(values.contains(&&vn(2)));
    assert!(values.contains(&&vn(3)));
}

#[test]
fn test_walker_with_object() {
    let data = obj(vec![("a", vn(1)), ("b", vn(2))]);
    let results = collect_walk(&data);

    assert_eq!(results.len(), 3);

    let paths: Vec<String> = results.iter().map(|(path, _)| path.to_string()).collect();
    let values: Vec<&Value> = results.iter().map(|(_, value)| value).collect();

    assert!(paths.contains(&"$".to_string()));
    assert!(paths.contains(&"$a".to_string()));
    assert!(paths.contains(&"$b".to_string()));

    assert!(values.contains(&&obj(vec![("a", vn(1)), ("b", vn(2))])));
    assert!(values.contains(&&vn(1)));
    assert!(values.contains(&&vn(2)));
}

#[test]
fn test_walker_with_nested_structure() {
    let data = obj(vec![
        (
            "users",
            arr(vec![
                obj(vec![("name", vs("Alice")), ("age", vn(30))]),
                obj(vec![("name", vs("Bob")), ("age", vn(25))]),
            ]),
        ),
        (
            "metadata",
            obj(vec![("version", vs("1.0")), ("created", vs("2023-01-01"))]),
        ),
    ]);

    let results = collect_walk(&data);
    let paths: Vec<String> = results.iter().map(|(path, _)| path.to_string()).collect();

    assert!(paths.contains(&"$".to_string()));
    assert!(paths.contains(&"$users".to_string()));
    assert!(paths.contains(&"$metadata".to_string()));
    assert!(paths.contains(&"$users[0]".to_string()));
    assert!(paths.contains(&"$users[1]".to_string()));
    assert!(paths.contains(&"$users[0].name".to_string()));
    assert!(paths.contains(&"$users[0].age".to_string()));
    assert!(paths.contains(&"$users[1].name".to_string()));
    assert!(paths.contains(&"$users[1].age".to_string()));
    assert!(paths.contains(&"$metadata.version".to_string()));
    assert!(paths.contains(&"$metadata.created".to_string()));

    let find = |p: &str| -> &Value {
        &results
            .iter()
            .find(|(path, _)| path.to_string() == p)
            .unwrap()
            .1
    };
    assert_eq!(find("$users[0].name"), &vs("Alice"));
    assert_eq!(find("$users[1].age"), &vn(25));
    assert_eq!(find("$metadata.version"), &vs("1.0"));
}

#[test]
fn test_walker_with_int_keys() {
    let data = obj(vec![
        ("123", vs("integer key value")),
        ("normal", vs("string key value")),
    ]);

    let results = collect_walk(&data);
    let paths: Vec<String> = results.iter().map(|(path, _)| path.to_string()).collect();

    assert!(paths.contains(&"$123".to_string()));
    assert!(paths.contains(&"$normal".to_string()));

    let found = results
        .iter()
        .find(|(path, _)| path.to_string() == "$123")
        .unwrap();
    assert_eq!(found.1, vs("integer key value"));
}

#[test]
fn test_walker_with_empty_structures() {
    let data = obj(vec![]);
    let results = collect_walk(&data);
    assert_eq!(results.len(), 1);
    assert_eq!(results[0].0.to_string(), "$");

    let data = arr(vec![]);
    let results = collect_walk(&data);
    assert_eq!(results.len(), 1);
    assert_eq!(results[0].0.to_string(), "$");
}

#[test]
fn test_walker_depth_first_traversal() {
    let data = obj(vec![("a", obj(vec![("b", obj(vec![("c", vn(1))]))]))]);

    let results = collect_walk(&data);
    let paths: Vec<String> = results.iter().map(|(path, _)| path.to_string()).collect();

    let root_idx = paths.iter().position(|p| p == "$").unwrap();
    let a_idx = paths.iter().position(|p| p == "$a").unwrap();
    let a_b_idx = paths.iter().position(|p| p == "$a.b").unwrap();
    let a_b_c_idx = paths.iter().position(|p| p == "$a.b.c").unwrap();

    assert!(a_b_c_idx < a_b_idx);
    assert!(a_b_idx < a_idx);
    assert!(a_idx < root_idx);
}

#[test]
fn test_walker_with_complex_nested_structure() {
    let data = obj(vec![
        (
            "products",
            arr(vec![
                obj(vec![
                    ("id", vs("p1")),
                    ("name", vs("Product 1")),
                    (
                        "variants",
                        arr(vec![
                            obj(vec![("color", vs("red")), ("size", vs("S"))]),
                            obj(vec![("color", vs("blue")), ("size", vs("M"))]),
                        ]),
                    ),
                ]),
                obj(vec![
                    ("id", vs("p2")),
                    ("name", vs("Product 2")),
                    (
                        "variants",
                        arr(vec![obj(vec![("color", vs("green")), ("size", vs("L"))])]),
                    ),
                ]),
            ]),
        ),
        (
            "stats",
            obj(vec![
                ("total", vn(2)),
                (
                    "categories",
                    obj(vec![("clothing", vn(1)), ("accessories", vn(1))]),
                ),
            ]),
        ),
    ]);

    let results = collect_walk(&data);
    let paths: Vec<String> = results.iter().map(|(path, _)| path.to_string()).collect();

    assert!(paths.contains(&"$products[0].variants[0].color".to_string()));
    assert!(paths.contains(&"$products[0].variants[1].size".to_string()));
    assert!(paths.contains(&"$products[1].variants[0].color".to_string()));
    assert!(paths.contains(&"$stats.categories.clothing".to_string()));

    let find = |p: &str| -> &Value {
        &results
            .iter()
            .find(|(path, _)| path.to_string() == p)
            .unwrap()
            .1
    };
    assert_eq!(find("$products[0].variants[1].color"), &vs("blue"));
    assert_eq!(find("$stats.categories.accessories"), &vn(1));
}

// ---- variable search ----

#[test]
fn test_iter_variables() {
    let data = obj(vec![(
        "users",
        obj(vec![
            ("user1", obj(vec![("name", vs("Alice")), ("score", vn(85))])),
            ("user2", obj(vec![("name", vs("Bob")), ("score", vn(92))])),
        ]),
    )]);

    let path = parse("$users.#userId.score").unwrap();
    let results = collect_iter(&path, &data);

    assert_eq!(results.len(), 2);

    let mut found_user1 = false;
    let mut found_user2 = false;

    for (value, vars) in &results {
        if let Some(Value::String(user_id)) = bound(vars, "userId") {
            match user_id.as_str() {
                "user1" => {
                    assert_eq!(*value, vn(85));
                    found_user1 = true;
                }
                "user2" => {
                    assert_eq!(*value, vn(92));
                    found_user2 = true;
                }
                _ => panic!("Unexpected userId: {}", user_id),
            }
        }
    }

    assert!(found_user1, "Did not find user1 in results");
    assert!(found_user2, "Did not find user2 in results");
}

#[test]
fn test_iter_with_multiple_variables() {
    let data = obj(vec![(
        "teams",
        obj(vec![
            (
                "team1",
                obj(vec![(
                    "members",
                    obj(vec![("user1", vn(85)), ("user2", vn(92))]),
                )]),
            ),
            (
                "team2",
                obj(vec![(
                    "members",
                    obj(vec![("user3", vn(78)), ("user4", vn(88))]),
                )]),
            ),
        ]),
    )]);

    let path = parse("$teams.#teamId.members.#userId").unwrap();
    let results = collect_iter(&path, &data);

    assert_eq!(results.len(), 4);

    let expected_results = [
        (vn(85), "team1", "user1"),
        (vn(92), "team1", "user2"),
        (vn(78), "team2", "user3"),
        (vn(88), "team2", "user4"),
    ];

    for (expected_value, expected_team, expected_user) in &expected_results {
        let found = results.iter().any(|(value, vars)| {
            value == expected_value
                && bound(vars, "teamId") == Some(&vs(expected_team))
                && bound(vars, "userId") == Some(&vs(expected_user))
        });

        assert!(
            found,
            "Missing expected result: teamId={}, userId={}",
            expected_team, expected_user
        );
    }
}

#[test]
fn test_iter_with_index_variables() {
    let data = obj(vec![(
        "items",
        arr(vec![
            obj(vec![("id", vs("item1")), ("tags", arr(vec![vs("red"), vs("large")]))]),
            obj(vec![("id", vs("item2")), ("tags", arr(vec![vs("blue"), vs("small")]))]),
        ]),
    )]);

    let path = parse("$items[#idx].id").unwrap();
    let results = collect_iter(&path, &data);

    assert_eq!(results.len(), 2);

    let item1_found = results
        .iter()
        .any(|(value, vars)| *value == vs("item1") && bound(vars, "idx") == Some(&vn(0)));
    let item2_found = results
        .iter()
        .any(|(value, vars)| *value == vs("item2") && bound(vars, "idx") == Some(&vn(1)));

    assert!(item1_found, "Did not find item1 with idx=0");
    assert!(item2_found, "Did not find item2 with idx=1");
}

#[test]
fn test_iter_with_mixed_variable_types() {
    let data = obj(vec![(
        "teams",
        arr(vec![
            obj(vec![
                ("name", vs("Team A")),
                ("members", obj(vec![("user1", vs("Alice")), ("user2", vs("Bob"))])),
            ]),
            obj(vec![
                ("name", vs("Team B")),
                ("members", obj(vec![("user3", vs("Charlie")), ("user4", vs("Dave"))])),
            ]),
        ]),
    )]);

    let path = parse("$teams[#teamIdx].members.#userId").unwrap();
    let results = collect_iter(&path, &data);

    assert_eq!(results.len(), 4);

    let alice_found = results.iter().any(|(value, vars)| {
        *value == vs("Alice")
            && bound(vars, "teamIdx") == Some(&vn(0))
            && bound(vars, "userId") == Some(&vs("user1"))
    });
    let dave_found = results.iter().any(|(value, vars)| {
        *value == vs("Dave")
            && bound(vars, "teamIdx") == Some(&vn(1))
            && bound(vars, "userId") == Some(&vs("user4"))
    });

    assert!(alice_found, "Did not find Alice with teamIdx=0, userId=user1");
    assert!(dave_found, "Did not find Dave with teamIdx=1, userId=user4");
}

// ---- whole-library scenarios ----

#[test]
fn test_full_api() {
    let path1 = Structpath::parse("$users[0].name").unwrap();

    let mut path2 = Structpath::new();
    path2.push_string_key("users");
    path2.push_index(0);
    path2.push_string_key("name");

    assert_eq!(path1, path2);
    assert_eq!(path1.to_string(), "$users[0].name");

    let data = obj(vec![(
        "users",
        arr(vec![
            obj(vec![("name", vs("Alice")), ("email", vs("alice@example.com"))]),
            obj(vec![("name", vs("Bob")), ("email", vs("bob@example.com"))]),
        ]),
    )]);

    let value = path1.get(&data, None).unwrap();
    assert_eq!(*value, vs("Alice"));

    let path3 = Structpath::parse(r"$special\.key.\123").unwrap();
    let data2 = obj(vec![("special.key", obj(vec![("123", vs("found"))]))]);

    let value2 = path3.get(&data2, None).unwrap();
    assert_eq!(*value2, vs("found"));

    let walk_data = obj(vec![
        ("a", arr(vec![vn(1), obj(vec![("b", vn(2))])])),
        ("c", vn(3)),
    ]);

    let results = collect_walk(&walk_data);
    let paths: Vec<String> = results.iter().map(|(path, _)| path.to_string()).collect();

    assert!(paths.contains(&"$".to_string()));
    assert!(paths.contains(&"$a".to_string()));
    assert!(paths.contains(&"$a[0]".to_string()));
    assert!(paths.contains(&"$a[1]".to_string()));
    assert!(paths.contains(&"$a[1].b".to_string()));
    assert!(paths.contains(&"$c".to_string()));
}

#[test]
fn test_numeric_keys() {
    let mut path1 = Structpath::new();
    path1.push_int_key(123);
    path1.push_string_key("456");

    let path_str = path1.to_string();
    assert_eq!(path_str, r"$123.\456");

    let path2 = Structpath::parse(&path_str).unwrap();
    assert_eq!(path2, path1);

    let data = obj(vec![("123", obj(vec![("456", vs("value"))]))]);

    let value = path1.get(&data, None).unwrap();
    assert_eq!(*value, vs("value"));
}

#[test]
fn test_error_handling() {
    let path = Structpath::parse("$a.b[0].c").unwrap();

    let data1 = obj(vec![("a", obj(vec![("x", vn(1))]))]);
    let result1 = path.get(&data1, None);
    assert!(matches!(result1, Err(StructpathError::NotFound)));

    let data2 = obj(vec![("a", vn(1))]);
    let result2 = path.get(&data2, None);
    assert!(matches!(result2, Err(StructpathError::InvalidPath { .. })));

    let data3 = obj(vec![("a", obj(vec![("b", arr(vec![]))]))]);
    let result3 = path.get(&data3, None);
    assert!(matches!(result3, Err(StructpathError::IndexOutOfBounds(_))));

    let result4 = Structpath::parse("$a[unclosed");
    assert!(matches!(result4, Err(StructpathError::ParseError(_))));
}

#[test]
fn test_display_trait() {
    let path = Structpath::parse("$users[0].name").unwrap();

    let s1 = to_string(&path);
    let s2 = path.to_string();

    assert_eq!(s1, "$users[0].name");
    assert_eq!(s2, "$users[0].name");
}

#[test]
fn test_roundtrip_preservation() {
    let test_paths = vec![
        "$a.b.c",
        "$a[0].b.c",
        "$123.456",
        r"$\123.\456",
        r"$a\.b\.c",
        r"$a[0].b\[0\].c",
    ];

    for path_str in test_paths {
        let path1 = Structpath::parse(path_str).unwrap();
        let new_str = path1.to_string();
        let path2 = Structpath::parse(&new_str).unwrap();

        assert_eq!(path1, path2, "Roundtrip failed for path: {}", path_str);
    }
}

// ---- writing ----

#[test]
fn test_write_into_null_creates_structure() {
    let path = Structpath::parse("$a.b").unwrap();
    let result = path.write(None, vs("value"), None).unwrap();
    assert_eq!(result, obj(vec![("a", obj(vec![("b", vs("value"))]))]));
}

#[test]
fn test_write_empty_path_replaces_root() {
    let path = Structpath::parse("$").unwrap();
    let base = obj(vec![("a", vn(1))]);
    let result = path.write(Some(&base), vn(7), None).unwrap();
    assert_eq!(result, vn(7));
    // the input tree is untouched
    assert_eq!(base, obj(vec![("a", vn(1))]));
}

#[test]
fn test_write_overwrites_existing() {
    let path = Structpath::parse("$a.b").unwrap();
    let base = obj(vec![("a", obj(vec![("b", vn(1)), ("keep", vn(2))]))]);
    let result = path.write(Some(&base), vn(9), None).unwrap();
    assert_eq!(result, obj(vec![("a", obj(vec![("b", vn(9)), ("keep", vn(2))]))]));
}

#[test]
fn test_write_pads_array_with_nulls() {
    let path = Structpath::parse("$a[3]").unwrap();
    let base = obj(vec![("a", arr(vec![vn(1)]))]);
    let result = path.write(Some(&base), vs("x"), None).unwrap();
    assert_eq!(
        result,
        obj(vec![("a", arr(vec![vn(1), Value::Null, Value::Null, vs("x")]))])
    );
}

#[test]
fn test_write_replaces_wrong_kind() {
    // a scalar along the write path is discarded and replaced
    let path = Structpath::parse("$a.b.c").unwrap();
    let base = obj(vec![("a", vn(5))]);
    let result = path.write(Some(&base), vn(1), None).unwrap();
    assert_eq!(
        result,
        obj(vec![("a", obj(vec![("b", obj(vec![("c", vn(1))]))]))])
    );
}

#[test]
fn test_write_idempotent_overwrite() {
    let path = Structpath::parse("$a[1].b").unwrap();
    let once = path.write(None, vs("v"), None).unwrap();
    let twice = path.write(Some(&once), vs("v"), None).unwrap();
    assert_eq!(once, twice);
}

#[test]
fn test_write_with_variables() {
    let path = Structpath::parse("$users.#who.score").unwrap();
    let mut vars = Bindings::new();
    vars.insert("who", "alice");
    let result = path.write(None, vn(10), Some(&vars)).unwrap();
    assert_eq!(
        result,
        obj(vec![("users", obj(vec![("alice", obj(vec![("score", vn(10))]))]))])
    );
}

#[test]
fn test_write_missing_variable() {
    let path = Structpath::parse("$users.#who").unwrap();
    let vars = Bindings::new();
    let result = path.write(None, vn(1), Some(&vars));
    assert!(matches!(result, Err(StructpathError::MissingVariable(_))));
}

#[test]
fn test_write_invalid_variable_value() {
    let path = Structpath::parse("$items[#idx]").unwrap();
    let mut vars = Bindings::new();
    vars.insert("idx", "not-a-number");
    let result = path.write(None, vn(1), Some(&vars));
    assert!(matches!(result, Err(StructpathError::InvalidVariableValue(_))));
}

#[test]
fn test_write_requires_variable_context() {
    let path = Structpath::parse("$a.#x").unwrap();
    let result = path.write(None, vn(1), None);
    assert!(matches!(result, Err(StructpathError::ParseError(_))));
}

#[test]
fn test_write_into_mirrors_result() {
    let path = Structpath::parse("$a.b").unwrap();
    let mut slot = Value::Null;
    let result = path.write_into(&mut slot, vs("value"), None).unwrap();
    assert_eq!(result, obj(vec![("a", obj(vec![("b", vs("value"))]))]));
    assert_eq!(slot, result);
}

// ---- more reading ----

#[test]
fn test_get_with_key_variable_binding() {
    let data = obj(vec![(
        "users",
        obj(vec![("alice", vn(1)), ("bob", vn(2))]),
    )]);
    let path = Structpath::parse("$users.#who").unwrap();
    let mut vars = Bindings::new();
    vars.insert("who", "bob");
    let value = path.get(&data, Some(&vars)).unwrap();
    assert_eq!(*value, vn(2));
}

#[test]
fn test_get_with_index_variable_binding() {
    let data = obj(vec![("a", arr(vec![vn(10), vn(20)]))]);
    let path = Structpath::parse("$a[#i]").unwrap();
    let mut vars = Bindings::new();
    vars.insert("i", "1");
    let value = path.get(&data, Some(&vars)).unwrap();
    assert_eq!(*value, vn(20));
}

#[test]
fn test_get_missing_variable() {
    let data = obj(vec![("a", vn(1))]);
    let path = Structpath::parse("$#x").unwrap();
    let vars = Bindings::new();
    let result = path.get(&data, Some(&vars));
    assert!(matches!(result, Err(StructpathError::MissingVariable(_))));
}

#[test]
fn test_get_invalid_variable_value() {
    let data = obj(vec![("a", arr(vec![vn(1)]))]);
    let path = Structpath::parse("$a[#i]").unwrap();
    let mut vars = Bindings::new();
    vars.insert("i", "zero");
    let result = path.get(&data, Some(&vars));
    assert!(matches!(result, Err(StructpathError::InvalidVariableValue(_))));
}

#[test]
fn test_get_requires_variable_context() {
    let data = obj(vec![("a", vn(1))]);
    let path = Structpath::parse("$a.#x").unwrap();
    let result = path.get(&data, None);
    assert!(matches!(result, Err(StructpathError::ParseError(_))));
}

#[test]
fn test_get_empty_path_returns_root() {
    let data = obj(vec![("a", vn(1))]);
    let path = Structpath::parse("$").unwrap();
    let value = path.get(&data, None).unwrap();
    assert_eq!(*value, data);
}

#[test]
fn test_get_deterministic_repeat() {
    let data = obj(vec![("a", arr(vec![vn(4), vn(5)]))]);
    let path = Structpath::parse("$a[1]").unwrap();
    let first = path.get(&data, None).unwrap().clone();
    let second = path.get(&data, None).unwrap().clone();
    assert_eq!(first, second);
}

// ---- more parsing and formatting edges ----

#[test]
fn test_parse_plus_signed_int_key() {
    // a leading plus is accepted by integer parsing, so the key is an
    // integer key and formats canonically
    let path = parse("$+12").unwrap();
    let mut expected = Structpath::new();
    expected.push_int_key(12);
    assert_eq!(path, expected);
    assert_eq!(path.to_string(), "$12");
}

#[test]
fn test_parse_overflowing_digits_is_string_key() {
    // too large for a signed 64-bit integer: a text key
    let path = parse("$99999999999999999999").unwrap();
    let mut expected = Structpath::new();
    expected.push_string_key("99999999999999999999");
    assert_eq!(path, expected);
}

#[test]
fn test_parse_extreme_int_keys() {
    let path = parse("$9223372036854775807.-9223372036854775808").unwrap();
    let mut expected = Structpath::new();
    expected.push_int_key(i64::MAX);
    expected.push_int_key(i64::MIN);
    assert_eq!(path, expected);
    assert_eq!(path.to_string(), "$9223372036854775807.-9223372036854775808");
}

#[test]
fn test_parse_escaped_hash_in_bracket_is_invalid_index() {
    // an escaped character never acts as a variable marker, and a bracket
    // segment must otherwise be a number
    let result = parse(r"$a[\#x]");
    assert!(matches!(result, Err(StructpathError::ParseError(_))));
}

#[test]
fn test_parse_invalid_index_token() {
    let result = parse("$a[xyz]");
    assert!(matches!(result, Err(StructpathError::ParseError(_))));
}

#[test]
fn test_parse_empty_and_dollar_only() {
    let empty = parse("").unwrap();
    assert_eq!(empty, Structpath::new());
    let dollar = parse("$").unwrap();
    assert_eq!(dollar, Structpath::new());
    assert_eq!(dollar.to_string(), "$");
}

#[test]
fn test_parse_double_dots_collapse() {
    let path = parse("$a..b").unwrap();
    let mut expected = Structpath::new();
    expected.push_string_key("a");
    expected.push_string_key("b");
    assert_eq!(path, expected);
}

#[test]
fn test_push_duplicate_variable_fails() {
    let mut path = Structpath::new();
    assert!(path.push_key_variable("x").is_ok());
    let again = path.push_index_variable("x");
    assert!(matches!(again, Err(StructpathError::DuplicateVariable(_))));
}

#[test]
fn test_format_index_then_key_needs_no_dot() {
    let mut path = Structpath::new();
    path.push_index(0);
    path.push_string_key("a");
    assert_eq!(path.to_string(), "$[0]a");
    let back = parse("$[0]a").unwrap();
    assert_eq!(back, path);
}

// ---- more walking ----

#[test]
fn test_walker_counts_every_node() {
    // 6 nodes: the root, the array under "a", its two elements, the
    // scalar under "x", and the scalar under "b"
    let data = obj(vec![
        ("a", arr(vec![vn(1), obj(vec![("x", vn(2))])])),
        ("b", vn(3)),
    ]);
    let results = collect_walk(&data);
    assert_eq!(results.len(), 6);
    // the root comes last
    assert_eq!(results.last().unwrap().0.to_string(), "$");
    assert_eq!(results.last().unwrap().1, data);
}

// ---- more searching ----

#[test]
fn test_iter_literal_path_single_match() {
    let data = obj(vec![("a", obj(vec![("b", vn(5))]))]);
    let path = Structpath::parse("$a.b").unwrap();
    let results = collect_iter(&path, &data);
    assert_eq!(results.len(), 1);
    assert_eq!(results[0].0, vn(5));
    assert!(results[0].1.is_empty());
}

#[test]
fn test_iter_dead_end_no_results() {
    let data = obj(vec![("a", vn(1))]);
    let path = Structpath::parse("$b.#x").unwrap();
    let results = collect_iter(&path, &data);
    assert!(results.is_empty());
}

#[test]
fn test_iter_deduplicates_on_bindings() {
    // both bindings are distinct here, so two results
    let data = obj(vec![("x", vn(1)), ("y", vn(1))]);
    let path = Structpath::parse("$#k").unwrap();
    let results = collect_iter(&path, &data);
    assert_eq!(results.len(), 2);
}

#[test]
fn test_out_of_bounds_message_carries_index_and_length() {
    let data = obj(vec![("a", arr(vec![vn(1), vn(2)]))]);
    let path = Structpath::parse("$a[5]").unwrap();
    match path.get(&data, None) {
        Err(StructpathError::IndexOutOfBounds(msg)) => {
            assert_eq!(msg, "Index 5 out of bounds for array of length 2");
        }
        other => panic!("expected an out-of-bounds error, got {:?}", other),
    }
}

#[test]
fn test_invalid_path_message_names_kinds() {
    let data = obj(vec![("a", vn(1))]);
    let path = Structpath::parse("$a.b").unwrap();
    match path.get(&data, None) {
        Err(StructpathError::InvalidPath { expected, found }) => {
            assert_eq!(expected, "object");
            assert_eq!(found, "number");
        }
        other => panic!("expected a type mismatch, got {:?}", other),
    }
}

// ---- bindings ----

#[test]
fn test_segments_accessor() {
    let path = Structpath::parse("$a[0].#v").unwrap();
    let segs = path.segments();
    assert_eq!(segs.len(), 3);
    assert!(matches!(&segs[0], Segment::Key(SegmentKey::String(s)) if s == "a"));
    assert!(matches!(&segs[1], Segment::Index(0)));
    assert!(matches!(&segs[2], Segment::KeyVariable(n) if n == "v"));
}

#[test]
fn test_bindings_insert_replaces() {
    let mut vars = Bindings::new();
    vars.insert("k", "a");
    vars.insert("k", "b");
    let data = obj(vec![("b", vn(2)), ("a", vn(1))]);
    let path = Structpath::parse("$#k").unwrap();
    let value = path.get(&data, Some(&vars)).unwrap();
    assert_eq!(*value, vn(2));
}
