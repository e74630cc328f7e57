use hier_config::{
    merge_configs_by_depth, merge_hierarchical_configs, parse_yaml_configs, ConfigFile,
    ConfigValue, LoadError, NumberValue, SourceFile,
};

fn s(text: &str) -> ConfigValue {
    ConfigValue::Str(text.to_string())
}

fn n(value: i64) -> ConfigValue {
    ConfigValue::Number(NumberValue::Int(value))
}

fn file(path: &str, entries: Vec<(ConfigValue, ConfigValue)>) -> ConfigFile {
    ConfigFile { path: path.to_string(), value: ConfigValue::Mapping(entries) }
}

fn source(path: &str, text: &str) -> SourceFile {
    SourceFile { path: path.to_string(), text: text.to_string() }
}

#[test]
fn test_merge_configs_by_depth_basic() {
    let configs = vec![
        file(
            "/base/config.yaml",
            vec![(s("key1"), s("base_value")), (s("key2"), s("base_value2"))],
        ),
        file(
            "/base/level1/config.yaml",
            vec![(s("key2"), s("level1_value")), (s("key3"), s("level1_value3"))],
        ),
        file(
            "/base/level1/level2/config.yaml",
            vec![(s("key3"), s("level2_value")), (s("key4"), s("level2_value4"))],
        ),
    ];

    let (merged_config, errors) = merge_configs_by_depth(&configs);

    assert!(errors.is_empty());

    if let ConfigValue::Mapping(_) = merged_config {
        assert_eq!(merged_config.mapping_get(&s("key1")), Some(&s("base_value")));
        assert_eq!(merged_config.mapping_get(&s("key2")), Some(&s("level1_value")));
        assert_eq!(merged_config.mapping_get(&s("key3")), Some(&s("level2_value")));
        assert_eq!(merged_config.mapping_get(&s("key4")), Some(&s("level2_value4")));
    } else {
        panic!("Expected merged config to be a map");
    }
}

#[test]
fn deeper_files_win_whatever_the_input_order() {
    let shallow = || file("/base/config.yaml", vec![(s("k"), n(1))]);
    let deep = || file("/base/sub/config.yaml", vec![(s("k"), n(2))]);
    let (m1, e1) = merge_configs_by_depth(&vec![deep(), shallow()]);
    let (m2, e2) = merge_configs_by_depth(&vec![shallow(), deep()]);
    assert!(e1.is_empty() && e2.is_empty());
    assert_eq!(m1.mapping_get(&s("k")), Some(&n(2)));
    assert_eq!(m2.mapping_get(&s("k")), Some(&n(2)));
}

#[test]
fn sibling_files_with_the_same_key_yield_one_collision_diagnostic() {
    let files = vec![
        file("/r/a.yaml", vec![(s("port"), n(1))]),
        file("/r/b.yaml", vec![(s("port"), n(2))]),
    ];
    let (merged, errors) = merge_configs_by_depth(&files);
    assert_eq!(errors.len(), 1);
    assert_eq!(
        errors[0],
        "Key collision at depth 3: 'port' found in both /r/a.yaml and /r/b.yaml"
    );
    assert_eq!(merged.mapping_get(&s("port")), Some(&n(2)));
}

#[test]
fn collisions_do_not_fire_across_depths_or_for_distinct_keys() {
    let files = vec![
        file("/r/a.yaml", vec![(s("x"), n(1))]),
        file("/r/b.yaml", vec![(s("y"), n(2))]),
        file("/r/sub/c.yaml", vec![(s("x"), n(3))]),
    ];
    let (merged, errors) = merge_configs_by_depth(&files);
    assert!(errors.is_empty());
    assert_eq!(merged.mapping_get(&s("x")), Some(&n(3)));
    assert_eq!(merged.mapping_get(&s("y")), Some(&n(2)));
}

#[test]
fn merging_no_files_gives_an_empty_mapping() {
    let (merged, errors) = merge_configs_by_depth(&vec![]);
    assert_eq!(merged, ConfigValue::Mapping(vec![]));
    assert!(errors.is_empty());
}

#[test]
fn hierarchical_merge_scenario_overrides_by_depth() {
    let sources = vec![
        source("/r/config.yaml", "a: 1\nb: 2\n"),
        source("/r/x/config.yaml", "b: 3\nc: 4\n"),
        source("/r/x/y/config.yaml", "c: 5\nd: 6\n"),
    ];
    let (merged, diags) = merge_hierarchical_configs("/r", "/r/x/y", &sources).unwrap();
    assert!(diags.is_empty());
    assert_eq!(merged.mapping_get(&s("a")), Some(&n(1)));
    assert_eq!(merged.mapping_get(&s("b")), Some(&n(3)));
    assert_eq!(merged.mapping_get(&s("c")), Some(&n(5)));
    assert_eq!(merged.mapping_get(&s("d")), Some(&n(6)));
}

#[test]
fn no_files_found_yields_an_empty_mapping_and_one_diagnostic() {
    let (merged, diags) = merge_hierarchical_configs("/r", "/r/a", &vec![]).unwrap();
    assert_eq!(merged, ConfigValue::Mapping(vec![]));
    assert_eq!(diags.len(), 1);
    assert_eq!(diags[0], "No YAML files found in hierarchy from /r to /r/a");
}

#[test]
fn a_malformed_file_aborts_the_whole_load() {
    let sources = vec![
        source("/r/good.yaml", "a: 1\n"),
        source("/r/bad.yaml", "a: [1, 2\n"),
    ];
    match merge_hierarchical_configs("/r", "/r", &sources) {
        Err(LoadError::Parse { path, detail }) => {
            assert_eq!(path, "/r/bad.yaml");
            assert!(!detail.is_empty());
        }
        other => panic!("expected a parse error, got {:?}", other.is_ok()),
    }
}

#[test]
fn parsing_reads_the_yaml_data_model() {
    let sources = vec![source(
        "/r/config.yaml",
        "title: demo\ncount: 3\nratio: 1.5\nbig: 18446744073709551615\nflag: true\nnothing: null\nitems:\n  - 1\n  - two\nnested:\n  inner: -7\n",
    )];
    let parsed = parse_yaml_configs(&sources).unwrap();
    assert_eq!(parsed.len(), 1);
    assert_eq!(parsed[0].path, "/r/config.yaml");
    let v = &parsed[0].value;
    assert_eq!(v.mapping_get(&s("title")), Some(&s("demo")));
    assert_eq!(v.mapping_get(&s("count")), Some(&n(3)));
    assert_eq!(
        v.mapping_get(&s("ratio")),
        Some(&ConfigValue::Number(NumberValue::Decimal("1.5".to_string())))
    );
    assert_eq!(
        v.mapping_get(&s("big")),
        Some(&ConfigValue::Number(NumberValue::UInt(18446744073709551615)))
    );
    assert_eq!(v.mapping_get(&s("flag")), Some(&ConfigValue::Bool(true)));
    assert_eq!(v.mapping_get(&s("nothing")), Some(&ConfigValue::Null));
    assert_eq!(
        v.mapping_get(&s("items")),
        Some(&ConfigValue::Sequence(vec![n(1), s("two")]))
    );
    let nested = v.mapping_get(&s("nested")).unwrap();
    assert_eq!(nested.mapping_get(&s("inner")), Some(&n(-7)));
}

#[test]
fn a_non_mapping_document_overrides_the_merge_entirely() {
    let sources = vec![source("/r/list.yaml", "- 1\n- 2\n")];
    let (merged, diags) = merge_hierarchical_configs("/r", "/r", &sources).unwrap();
    assert!(diags.is_empty());
    assert_eq!(merged, ConfigValue::Sequence(vec![n(1), n(2)]));
}

#[test]
fn decimal_rendering_is_exact() {
    assert_eq!(hier_config::pipeline::decimal_string(0), "0");
    assert_eq!(hier_config::pipeline::decimal_string(9), "9");
    assert_eq!(hier_config::pipeline::decimal_string(10), "10");
    assert_eq!(hier_config::pipeline::decimal_string(907), "907");
}

#[test]
fn collisions_at_a_deep_level_render_the_full_depth() {
    let path_a = "/a/b/c/d/e/f/g/h/i/one.yaml";
    let path_b = "/a/b/c/d/e/f/g/h/i/two.yaml";
    let files = vec![
        file(path_a, vec![(s("k"), n(1))]),
        file(path_b, vec![(s("k"), n(2))]),
    ];
    let (_, errors) = merge_configs_by_depth(&files);
    assert_eq!(errors.len(), 1);
    assert_eq!(
        errors[0],
        format!(
            "Key collision at depth 11: 'k' found in both {} and {}",
            path_a, path_b
        )
    );
}
