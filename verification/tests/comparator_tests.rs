use spec_check::comparator::{compare_items, find_first_diff, normalize_attributes};
use spec_check::rust_parser::{ItemKind, RustItem};

fn item(name: &str, signature: &str, attrs: Vec<String>) -> RustItem {
    RustItem::new(
        name.to_string(),
        ItemKind::Struct,
        signature.to_string(),
        signature.to_string(),
        attrs,
        1,
    )
}

#[test]
fn test_identical_items() {
    let items = vec![item("Foo", "struct Foo {}", vec![])];

    let result = compare_items(items.clone(), items, &Vec::new());
    assert!(!result.has_errors());
}

#[test]
fn test_missing_in_spec() {
    let code_items = vec![item("Foo", "struct Foo {}", vec![])];
    let spec_items = vec![];

    let result = compare_items(code_items, spec_items, &Vec::new());
    assert_eq!(result.missing_in_spec.len(), 1);
    assert!(result.has_errors());
}

#[test]
fn test_whitespace_independence() {
    // Both sides render to the same normalized token text even though the
    // display signatures differ in spacing.
    let tokens = "struct Foo { pub x : i32 }";
    let code_items = vec![RustItem::new(
        "Foo".to_string(),
        ItemKind::Struct,
        "struct Foo{pub x:i32}".to_string(),
        tokens.to_string(),
        vec![],
        1,
    )];
    let spec_items = vec![RustItem::new(
        "Foo".to_string(),
        ItemKind::Struct,
        "struct Foo { pub x: i32 }".to_string(),
        tokens.to_string(),
        vec![],
        1,
    )];

    let result = compare_items(code_items, spec_items, &Vec::new());
    assert!(!result.has_errors());
}

#[test]
fn test_attribute_mismatch() {
    let code_items = vec![item("Foo", "struct Foo {}", vec![])];
    let spec_items = vec![item("Foo", "struct Foo {}", vec!["#[derive(Debug)]".to_string()])];

    let result = compare_items(code_items, spec_items, &Vec::new());
    assert_eq!(result.attribute_mismatches.len(), 1);
    assert!(result.has_errors());
}

#[test]
fn identity_on_larger_list_is_clean() {
    let items = vec![
        item("Alpha", "struct Alpha {}", vec!["#[derive(Clone)]".to_string()]),
        item("Beta", "struct Beta { pub n : u8 }", vec![]),
        RustItem::new(
            "run".to_string(),
            ItemKind::Function,
            "fn run () {}".to_string(),
            "fn run () {}".to_string(),
            vec![],
            3,
        ),
    ];
    let same = vec![
        items[0].duplicate(),
        items[1].duplicate(),
        items[2].duplicate(),
    ];
    let result = compare_items(items, same, &Vec::new());
    assert!(!result.has_errors());
}

#[test]
fn permuting_either_side_keeps_missing_sets() {
    let a = item("A", "struct A {}", vec![]);
    let b = item("B", "struct B {}", vec![]);
    let c = item("C", "struct C {}", vec![]);
    let code1 = vec![a.duplicate(), b.duplicate()];
    let code2 = vec![b.duplicate(), a.duplicate()];
    let spec1 = vec![c.duplicate(), a.duplicate()];
    let spec2 = vec![a.duplicate(), c.duplicate()];

    let r1 = compare_items(code1, spec1, &Vec::new());
    let r2 = compare_items(code2, spec2, &Vec::new());

    // B is missing from the spec side, C from the code side, in both runs.
    assert_eq!(r1.missing_in_spec.len(), 1);
    assert_eq!(r2.missing_in_spec.len(), 1);
    assert_eq!(r1.missing_in_spec[0].name, "B");
    assert_eq!(r2.missing_in_spec[0].name, "B");
    assert_eq!(r1.missing_in_code.len(), 1);
    assert_eq!(r2.missing_in_code.len(), 1);
    assert_eq!(r1.missing_in_code[0].name, "C");
    assert_eq!(r2.missing_in_code[0].name, "C");
}

#[test]
fn ignored_attribute_causes_no_mismatch() {
    let code_items = vec![item(
        "Foo",
        "struct Foo {}",
        vec!["# [doc = \" documented\"]".to_string()],
    )];
    let spec_items = vec![item("Foo", "struct Foo {}", vec![])];
    let ignored = vec!["doc".to_string()];

    let result = compare_items(code_items, spec_items, &ignored);
    assert!(!result.has_errors());
}

#[test]
fn non_ignored_attribute_still_reported() {
    let code_items = vec![item("Foo", "struct Foo {}", vec!["#[derive(Debug)]".to_string()])];
    let spec_items = vec![item("Foo", "struct Foo {}", vec![])];
    let ignored = vec!["doc".to_string()];

    let result = compare_items(code_items, spec_items, &ignored);
    assert_eq!(result.attribute_mismatches.len(), 1);
}

#[test]
fn first_diff_cases() {
    assert_eq!(find_first_diff("abc", "abc"), None);
    assert_eq!(find_first_diff("abc", "abd"), Some(2));
    assert_eq!(find_first_diff("abc", "ab"), Some(2));
    assert_eq!(find_first_diff("", "x"), Some(0));
    assert_eq!(find_first_diff("", ""), None);
}

#[test]
fn normalize_filters_and_sorts() {
    let attrs = vec![
        "#[derive(Debug)]".to_string(),
        "#[doc = \"hi\"]".to_string(),
        "#[cfg_attr(test, allow(dead_code))]".to_string(),
    ];
    let ignored = vec!["doc".to_string()];
    let normalized = normalize_attributes(&attrs, &ignored);
    assert_eq!(
        normalized,
        vec![
            "#[cfg_attr(test, allow(dead_code))]".to_string(),
            "#[derive(Debug)]".to_string(),
        ]
    );
}

#[test]
fn signature_mismatch_reports_offset() {
    let code_items = vec![item("Foo", "struct Foo { pub x : i32 }", vec![])];
    let spec_items = vec![item("Foo", "struct Foo { pub x : i64 }", vec![])];

    let result = compare_items(code_items, spec_items, &Vec::new());
    assert_eq!(result.signature_mismatches.len(), 1);
    let mismatch = &result.signature_mismatches[0];
    let pos = mismatch.first_diff_pos.expect("strings differ, so an offset exists");
    assert_eq!(mismatch.code_item.signature.chars().nth(pos), Some('3'));
    assert_eq!(mismatch.spec_item.signature.chars().nth(pos), Some('6'));
}
