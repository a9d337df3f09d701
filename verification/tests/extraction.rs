use manifest_scan::extract::get_dependencies;

#[test]
fn two_packages_give_two_paths_in_order() {
    let text = r#"{"packages":[{"manifest_path":"/a/Cargo.toml"},{"manifest_path":"/b/Cargo.toml"}]}"#;
    assert_eq!(get_dependencies(text), vec!["/a/Cargo.toml", "/b/Cargo.toml"]);
}

#[test]
fn empty_package_list_gives_nothing() {
    let text = r#"{"packages":[]}"#;
    assert_eq!(get_dependencies(text), Vec::<&str>::new());
}

#[test]
fn missing_packages_key_gives_nothing() {
    let text = r#"{"other":1}"#;
    assert_eq!(get_dependencies(text), Vec::<&str>::new());
}

#[test]
fn key_order_inside_a_package_does_not_matter() {
    let text = r#"{"packages":[{"name":"x","manifest_path":"/c/Cargo.toml"}]}"#;
    assert_eq!(get_dependencies(text), vec!["/c/Cargo.toml"]);
}

#[test]
fn escaped_quote_is_kept_as_written() {
    let text = r#"{"packages":[{"manifest_path":"a\"b"}]}"#;
    assert_eq!(get_dependencies(text), vec![r#"a\"b"#]);
}

#[test]
fn other_escapes_are_not_decoded() {
    let text = r#"{"packages":[{"manifest_path":"C:\\ws\\Cargo.toml\n\u0041"}]}"#;
    assert_eq!(get_dependencies(text), vec![r#"C:\\ws\\Cargo.toml\n\u0041"#]);
}

#[test]
fn running_twice_gives_the_same_paths() {
    let text = r#"{"packages":[{"manifest_path":"/a"},{"id":"b","manifest_path":"/b"}],"root":null}"#;
    let first = get_dependencies(text);
    let second = get_dependencies(text);
    assert_eq!(first, second);
    assert_eq!(first, vec!["/a", "/b"]);
    assert_eq!(
        text,
        r#"{"packages":[{"manifest_path":"/a"},{"id":"b","manifest_path":"/b"}],"root":null}"#
    );
}

#[test]
fn content_behind_the_package_list_is_ignored() {
    let head = r#"{"packages":[{"manifest_path":"/a"}]"#;
    let expected = vec!["/a"];
    assert_eq!(get_dependencies(head), expected);
    let closed = format!("{head}{}", r#","resolve":{"nodes":[{"manifest_path":"/no"}]}}"#);
    assert_eq!(get_dependencies(&closed), expected);
    let broken = format!("{head}{}", r#",{"manifest_path":"/no"}]] "unclosed \"#);
    assert_eq!(get_dependencies(&broken), expected);
    let again = format!("{head}{}", r#","packages":[{"manifest_path":"/second"}]}"#);
    assert_eq!(get_dependencies(&again), expected);
}

#[test]
fn paths_are_slices_of_the_input() {
    let text = r#"{"packages":[{"manifest_path":"/a/Cargo.toml"}]}"#;
    let paths = get_dependencies(text);
    assert_eq!(paths.len(), 1);
    let begin = text.as_ptr() as usize;
    let at = paths[0].as_ptr() as usize;
    assert_eq!(at - begin, text.find("/a/").unwrap());
}

#[test]
fn duplicates_are_kept() {
    let text = r#"{"packages":[{"manifest_path":"/a"},{"manifest_path":"/a"}]}"#;
    assert_eq!(get_dependencies(text), vec!["/a", "/a"]);
}

#[test]
fn two_manifest_keys_in_one_package_give_two_paths() {
    let text = r#"{"packages":[{"manifest_path":"/a","manifest_path":"/b"}]}"#;
    assert_eq!(get_dependencies(text), vec!["/a", "/b"]);
}

#[test]
fn package_without_manifest_path_gives_nothing() {
    let text = r#"{"packages":[{"name":"x"},{},{"manifest_path":"/b"}]}"#;
    assert_eq!(get_dependencies(text), vec!["/b"]);
}

#[test]
fn layout_between_tokens_does_not_matter() {
    let text = "  {\n  \"version\": 1,\n  \"packages\": [\n    {\n      \"name\": \"x\",\n      \"manifest_path\": \"/c/Cargo.toml\"\n    }\n  ]\n}\n";
    assert_eq!(get_dependencies(text), vec!["/c/Cargo.toml"]);
}

#[test]
fn members_before_the_package_list_are_passed_over() {
    let text = r#"{"version":1,"meta":{"packages":[{"manifest_path":"/no"}]},"list":[[{"manifest_path":"/no"}]],"packages":[{"manifest_path":"/yes"}]}"#;
    assert_eq!(get_dependencies(text), vec!["/yes"]);
}

#[test]
fn manifest_path_that_is_an_object_is_dropped() {
    let text = r#"{"packages":[{"manifest_path":{"manifest_path":"/no"},"name":"x"},{"manifest_path":"/b"}]}"#;
    assert_eq!(get_dependencies(text), vec!["/b"]);
}

#[test]
fn manifest_path_that_is_a_list_is_dropped() {
    let text = r#"{"packages":[{"manifest_path":["/no"],"name":"x"},{"manifest_path":"/b"}]}"#;
    assert_eq!(get_dependencies(text), vec!["/b"]);
}

#[test]
fn manifest_path_that_is_a_number_is_dropped() {
    let text = r#"{"packages":[{"manifest_path":1,"name":"x"},{"manifest_path":"/b"}]}"#;
    assert_eq!(get_dependencies(text), vec!["/b"]);
}

#[test]
fn manifest_path_deeper_in_a_package_is_not_a_path() {
    let text = r#"{"packages":[{"targets":[{"manifest_path":"/no"}],"metadata":{"manifest_path":"/no"},"manifest_path":"/yes"}]}"#;
    assert_eq!(get_dependencies(text), vec!["/yes"]);
}

#[test]
fn manifest_path_as_a_value_is_not_a_key() {
    let text = r#"{"packages":[{"name":"manifest_path","manifest_path":"/yes"}]}"#;
    assert_eq!(get_dependencies(text), vec!["/yes"]);
}

#[test]
fn manifest_path_outside_the_package_list_is_not_a_path() {
    let text = r#"{"manifest_path":"/no","workspace":{"manifest_path":"/no"},"packages":[]}"#;
    assert_eq!(get_dependencies(text), Vec::<&str>::new());
}

#[test]
fn key_with_space_before_the_colon_is_not_seen_as_a_key() {
    let text = r#"{"packages" :[{"manifest_path":"/a"}]}"#;
    assert_eq!(get_dependencies(text), Vec::<&str>::new());
    let text = r#"{"packages":[{"manifest_path" :"/a"}]}"#;
    assert_eq!(get_dependencies(text), Vec::<&str>::new());
}

#[test]
fn text_that_is_not_an_object_gives_nothing() {
    assert_eq!(get_dependencies(""), Vec::<&str>::new());
    assert_eq!(get_dependencies("   "), Vec::<&str>::new());
    assert_eq!(get_dependencies(r#"[{"packages":[{"manifest_path":"/a"}]}]"#), Vec::<&str>::new());
    assert_eq!(get_dependencies(r#"}{"packages":[{"manifest_path":"/a"}]}"#), Vec::<&str>::new());
}

#[test]
fn unclosed_path_is_not_reported() {
    let text = r#"{"packages":[{"manifest_path":"/a"},{"manifest_path":"/b"#;
    assert_eq!(get_dependencies(text), vec!["/a"]);
}

#[test]
fn text_that_ends_early_gives_what_was_found() {
    let text = r#"{"packages":[{"manifest_path":"/a"},{"manifest_path":"/b"}"#;
    assert_eq!(get_dependencies(text), vec!["/a", "/b"]);
}

#[test]
fn paths_may_hold_any_characters() {
    let text = "{\"packages\":[{\"manifest_path\":\"/home/zoë/プロジェクト/{x}/[y]/Cargo.toml\"},{\"manifest_path\":\"/😀\\😀\"}]}";
    assert_eq!(
        get_dependencies(text),
        vec!["/home/zoë/プロジェクト/{x}/[y]/Cargo.toml", "/😀\\😀"]
    );
}
