use spec_check::comparator::compare_items;
use spec_check::config::Config;
use spec_check::markdown_parser::extract_rust_blocks;
use spec_check::reporter::{format_attributes, format_item};
use spec_check::rust_parser::{parse_rust_file, ItemKind, RustItem};

fn items_of_doc(doc: &str, check_private: bool) -> Vec<RustItem> {
    let mut out = Vec::new();
    for block in extract_rust_blocks(doc).unwrap() {
        if let Ok(items) = parse_rust_file(&block, check_private) {
            out.extend(items);
        }
    }
    out
}

#[test]
fn matching_source_and_sample_have_zero_errors() {
    let source = "pub struct Foo { pub x: i32 }";
    let doc = "Spec of Foo:\n\n```rust\npub struct Foo{pub x:i32}\n```\n";

    let code_items = parse_rust_file(source, false).unwrap();
    let spec_items = items_of_doc(doc, false);
    let ignored = vec!["doc".to_string()];

    let result = compare_items(code_items, spec_items, &ignored);
    assert!(!result.has_errors());
}

#[test]
fn changed_width_is_one_mismatch_at_the_width_token() {
    let source = "pub struct Foo { pub x: i32 }";
    let doc = "```rust\npub struct Foo { pub x: i64 }\n```\n";

    let code_items = parse_rust_file(source, false).unwrap();
    let spec_items = items_of_doc(doc, false);

    let result = compare_items(code_items, spec_items, &Vec::new());
    assert_eq!(result.signature_mismatches.len(), 1);
    assert!(result.missing_in_spec.is_empty());
    assert!(result.missing_in_code.is_empty());

    let mismatch = &result.signature_mismatches[0];
    assert_eq!(mismatch.code_item.name, "Foo");
    let pos = mismatch.first_diff_pos.expect("the signatures differ");
    assert_eq!(mismatch.code_item.signature.chars().nth(pos), Some('3'));
    assert_eq!(mismatch.spec_item.signature.chars().nth(pos), Some('6'));
}

#[test]
fn empty_specification_reports_the_struct_missing() {
    let source = "pub struct Lonely {}";
    let doc = "No samples here, only prose.\n";

    let code_items = parse_rust_file(source, false).unwrap();
    let spec_items = items_of_doc(doc, false);
    assert!(spec_items.is_empty());

    let result = compare_items(code_items, spec_items, &Vec::new());
    assert_eq!(result.missing_in_spec.len(), 1);
    assert_eq!(result.missing_in_spec[0].name, "Lonely");
    assert!(result.missing_in_code.is_empty());
}

#[test]
fn doc_attributes_diverge_without_drift() {
    // Doc comments become doc attributes; the default ignore set keeps
    // them out of the comparison.
    let source = "/// Renders one frame.\npub fn render() {}";
    let doc = "```rust\npub fn render() {}\n```\n";

    let code_items = parse_rust_file(source, false).unwrap();
    let spec_items = items_of_doc(doc, false);
    let config = Config {
        ignored_attributes: None,
        check_private: None,
        src_dir: None,
        spec_dir: None,
        log_file: None,
    };
    let ignored = config.get_ignored_attributes();
    assert_eq!(ignored, vec!["doc".to_string()]);

    let result = compare_items(code_items, spec_items, &ignored);
    assert!(!result.has_errors());
}

#[test]
fn configured_ignore_list_wins_over_default() {
    let config = Config {
        ignored_attributes: Some(vec!["cfg".to_string(), "allow".to_string()]),
        check_private: Some(true),
        src_dir: None,
        spec_dir: None,
        log_file: None,
    };
    assert_eq!(
        config.get_ignored_attributes(),
        vec!["cfg".to_string(), "allow".to_string()]
    );
}

#[test]
fn example_surface_round_trips_through_the_checker() {
    // The declarations of the demo module, as source text, against a
    // specification document that omits one of them.
    let source = "pub struct MathObject;\npub struct Color;\npub trait MathHash { fn math_hash(&self) -> u64; }\n";
    let doc = "# Example\n\n```rust\npub struct MathObject;\npub trait MathHash { fn math_hash(&self) -> u64; }\n```\n";

    let code_items = parse_rust_file(source, false).unwrap();
    assert_eq!(code_items.len(), 4); // two structs, the trait, its method

    let spec_items = items_of_doc(doc, false);
    let result = compare_items(code_items, spec_items, &Vec::new());
    assert_eq!(result.missing_in_spec.len(), 1);
    assert_eq!(result.missing_in_spec[0].name, "Color");
    assert!(result.missing_in_code.is_empty());
    assert!(result.signature_mismatches.is_empty());
    assert!(result.attribute_mismatches.is_empty());
}

#[test]
fn item_labels_follow_the_kind() {
    let s = RustItem::new(
        "Foo".to_string(),
        ItemKind::Struct,
        String::new(),
        String::new(),
        vec![],
        1,
    );
    assert_eq!(format_item(&s), "struct Foo");

    let m = RustItem::new(
        "draw".to_string(),
        ItemKind::TraitMethod { trait_name: "Drawable".to_string() },
        String::new(),
        String::new(),
        vec![],
        1,
    );
    assert_eq!(format_item(&m), "Drawable::draw");

    let f = RustItem::new(
        "run".to_string(),
        ItemKind::Function,
        String::new(),
        String::new(),
        vec![],
        1,
    );
    assert_eq!(format_item(&f), "fn run");
}

#[test]
fn attribute_display_joins_or_says_none() {
    assert_eq!(format_attributes(&Vec::new()), "none");
    assert_eq!(
        format_attributes(&vec!["#[a]".to_string(), "#[b]".to_string()]),
        "#[a], #[b]"
    );
}
