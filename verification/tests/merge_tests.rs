use hier_config::{deep_merge, ConfigValue, NumberValue};

fn s(text: &str) -> ConfigValue {
    ConfigValue::Str(text.to_string())
}

fn n(value: i64) -> ConfigValue {
    ConfigValue::Number(NumberValue::Int(value))
}

fn mapping(entries: Vec<(ConfigValue, ConfigValue)>) -> ConfigValue {
    ConfigValue::Mapping(entries)
}

#[test]
fn test_deep_merge_basic() {
    let base = mapping(vec![
        (s("a"), n(1)),
        (s("b"), n(2)),
        (s("c"), mapping(vec![(s("nested"), s("base"))])),
    ]);

    let overlay = mapping(vec![
        (s("b"), n(3)),
        (s("d"), n(4)),
        (s("c"), mapping(vec![(s("nested"), s("override")), (s("new"), s("value"))])),
    ]);

    let result = deep_merge(&base, &overlay);

    if let ConfigValue::Mapping(_) = result {
        assert_eq!(result.mapping_get(&s("a")), Some(&n(1)));
        assert_eq!(result.mapping_get(&s("b")), Some(&n(3)));
        assert_eq!(result.mapping_get(&s("d")), Some(&n(4)));

        if let Some(ConfigValue::Mapping(_)) = result.mapping_get(&s("c")) {
            let c_map = result.mapping_get(&s("c")).unwrap();
            assert_eq!(c_map.mapping_get(&s("nested")), Some(&s("override")));
            assert_eq!(c_map.mapping_get(&s("new")), Some(&s("value")));
        } else {
            panic!("Expected nested map for key 'c'");
        }
    } else {
        panic!("Expected result to be a map");
    }
}

#[test]
fn deep_merge_is_idempotent_on_a_nested_tree() {
    let t = mapping(vec![
        (s("a"), n(1)),
        (s("b"), mapping(vec![(s("x"), s("y")), (s("z"), ConfigValue::Null)])),
        (s("c"), ConfigValue::Sequence(vec![n(1), n(2)])),
    ]);
    let merged = deep_merge(&t, &t);
    assert_eq!(merged, t);
}

#[test]
fn deep_merge_is_right_biased_for_non_mappings() {
    let a = mapping(vec![(s("a"), n(1))]);
    assert_eq!(deep_merge(&a, &n(7)), n(7));
    assert_eq!(deep_merge(&a, &ConfigValue::Null), ConfigValue::Null);
    let seq_val = ConfigValue::Sequence(vec![n(1)]);
    assert_eq!(deep_merge(&a, &seq_val), seq_val);
    assert_eq!(deep_merge(&ConfigValue::Bool(true), &seq_val), seq_val);
}

#[test]
fn deep_merge_chains_associatively_on_mappings() {
    let base = mapping(vec![(s("a"), n(1)), (s("b"), mapping(vec![(s("x"), n(1))]))]);
    let mid = mapping(vec![(s("b"), mapping(vec![(s("y"), n(2))])), (s("c"), n(3))]);
    let top = mapping(vec![(s("b"), mapping(vec![(s("x"), n(9))])), (s("d"), n(4))]);

    let left = deep_merge(&deep_merge(&base, &mid), &top);
    let right = deep_merge(&base, &deep_merge(&mid, &top));
    assert_eq!(left, right);
}

#[test]
fn deep_merge_does_not_mutate_its_inputs() {
    let base = mapping(vec![(s("a"), n(1))]);
    let overlay = mapping(vec![(s("a"), n(2))]);
    let base_copy = base.deep_clone();
    let overlay_copy = overlay.deep_clone();
    let merged = deep_merge(&base, &overlay);
    assert_eq!(base, base_copy);
    assert_eq!(overlay, overlay_copy);
    assert_eq!(merged.mapping_get(&s("a")), Some(&n(2)));
}

#[test]
fn deep_clone_and_value_eq_agree() {
    let t = mapping(vec![
        (s("k"), ConfigValue::Sequence(vec![ConfigValue::Bool(false), s("v")])),
        (n(3), ConfigValue::Null),
    ]);
    let copy = t.deep_clone();
    assert!(t.value_eq(&copy));
    assert_eq!(t, copy);
    let other = mapping(vec![(s("k"), ConfigValue::Null)]);
    assert!(!t.value_eq(&other));
}

#[test]
fn mapping_get_returns_none_off_mappings_and_absent_keys() {
    let t = mapping(vec![(s("a"), n(1))]);
    assert_eq!(t.mapping_get(&s("missing")), None);
    assert_eq!(n(1).mapping_get(&s("a")), None);
    assert_eq!(ConfigValue::Null.mapping_get(&s("a")), None);
}
