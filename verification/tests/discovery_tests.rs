use hier_config::{find_yaml_files_in_hierarchy, path_depth, resolve_target_components, PathError};

fn strings(items: &[&str]) -> Vec<String> {
    items.iter().map(|p| p.to_string()).collect()
}

#[test]
fn discovery_keeps_ancestors_of_the_target_only() {
    let candidates = strings(&[
        "/r/config.yaml",
        "/r/a/config.yaml",
        "/r/a/b/config.yaml",
        "/r/x/config.yaml",
    ]);
    let found = find_yaml_files_in_hierarchy("/r", "/r/a/b", &candidates).unwrap();
    assert_eq!(
        found,
        strings(&["/r/config.yaml", "/r/a/config.yaml", "/r/a/b/config.yaml"])
    );
}

#[test]
fn target_equal_to_base_keeps_only_files_directly_in_the_base() {
    let candidates = strings(&["/r/config.yaml", "/r/a/config.yaml"]);
    let found = find_yaml_files_in_hierarchy("/r", "/r", &candidates).unwrap();
    assert_eq!(found, strings(&["/r/config.yaml"]));
}

#[test]
fn target_outside_base_is_a_fatal_error() {
    let candidates = strings(&["/r/config.yaml"]);
    let result = find_yaml_files_in_hierarchy("/r", "/q/s", &candidates);
    assert_eq!(result, Err(PathError::OutsideBase));
    let sibling = find_yaml_files_in_hierarchy("/r/a", "/r/ab", &candidates);
    assert_eq!(sibling, Err(PathError::OutsideBase));
}

#[test]
fn both_yaml_extensions_are_recognized_case_sensitively() {
    let candidates = strings(&[
        "/r/one.yaml",
        "/r/two.yml",
        "/r/three.YAML",
        "/r/.yaml",
        "/r/four.yaml.txt",
        "/r/plain",
    ]);
    let found = find_yaml_files_in_hierarchy("/r", "/r", &candidates).unwrap();
    assert_eq!(found, strings(&["/r/one.yaml", "/r/two.yml"]));
}

#[test]
fn files_below_the_target_directory_are_excluded() {
    let candidates = strings(&["/r/a/b/c/config.yaml", "/r/a/config.yaml"]);
    let found = find_yaml_files_in_hierarchy("/r", "/r/a/b", &candidates).unwrap();
    assert_eq!(found, strings(&["/r/a/config.yaml"]));
}

#[test]
fn resolve_yields_the_segments_between_base_and_target() {
    assert_eq!(
        resolve_target_components("/r", "/r/a/b").unwrap(),
        strings(&["a", "b"])
    );
    assert_eq!(resolve_target_components("/r", "/r").unwrap(), strings(&[]));
    assert_eq!(
        resolve_target_components("/", "/a").unwrap(),
        strings(&["a"])
    );
    assert_eq!(
        resolve_target_components("/r", "/q"),
        Err(PathError::OutsideBase)
    );
}

#[test]
fn path_depth_counts_components_from_the_root() {
    assert_eq!(path_depth("/base/config.yaml"), 3);
    assert_eq!(path_depth("/base/level1/config.yaml"), 4);
    assert_eq!(path_depth("/"), 1);
    assert_eq!(path_depth("relative/file.yaml"), 2);
}
