use spec_check::rust_parser::{parse_rust_file, ItemKind};

#[test]
fn test_parse_struct() {
    let code = r#"
            pub struct MyStruct {
                pub field: i32,
            }
        "#;

    let items = parse_rust_file(code, false).unwrap();
    assert_eq!(items.len(), 1);
    assert_eq!(items[0].name, "MyStruct");
    assert!(matches!(items[0].kind, ItemKind::Struct));
}

#[test]
fn test_parse_trait() {
    let code = r#"
            pub trait MyTrait {
                fn method(&self) -> i32;
            }
        "#;

    let items = parse_rust_file(code, false).unwrap();
    assert_eq!(items.len(), 2); // trait + method

    let trait_item = items.iter().find(|i| matches!(i.kind, ItemKind::Trait)).unwrap();
    assert_eq!(trait_item.name, "MyTrait");

    let method_item = items.iter().find(|i| matches!(i.kind, ItemKind::TraitMethod { .. })).unwrap();
    assert_eq!(method_item.name, "method");
}

#[test]
fn test_ignores_private_items() {
    let code = r#"
            struct PrivateStruct {}
            pub struct PublicStruct {}
        "#;

    let items = parse_rust_file(code, false).unwrap();
    assert_eq!(items.len(), 1);
    assert_eq!(items[0].name, "PublicStruct");
}

#[test]
fn test_parse_enum() {
    let code = r#"
            pub enum MyEnum {
                VariantA,
                VariantB(i32),
                VariantC { x: f32 },
            }
        "#;

    let items = parse_rust_file(code, false).unwrap();
    assert_eq!(items.len(), 1);
    assert_eq!(items[0].name, "MyEnum");
    assert!(matches!(items[0].kind, ItemKind::Enum));
}

#[test]
fn include_private_collects_private_items() {
    let code = "struct PrivateStruct {}\npub struct PublicStruct {}\n";
    let items = parse_rust_file(code, true).unwrap();
    assert_eq!(items.len(), 2);
    assert_eq!(items[0].name, "PrivateStruct");
    assert_eq!(items[1].name, "PublicStruct");
}

#[test]
fn trait_method_carries_owner_name() {
    let code = "pub trait Drawable { fn draw(&self); }\n";
    let items = parse_rust_file(code, false).unwrap();
    assert_eq!(items.len(), 2);
    assert_eq!(items[0].name, "Drawable");
    assert!(matches!(items[0].kind, ItemKind::Trait));
    assert_eq!(items[1].name, "draw");
    match &items[1].kind {
        ItemKind::TraitMethod { trait_name } => assert_eq!(trait_name, "Drawable"),
        _ => panic!("expected a trait method record"),
    }
}

#[test]
fn attributes_are_captured_and_stripped_from_signature() {
    let code = "#[derive(Debug)]\npub struct Tagged {\n    #[allow(dead_code)]\n    pub x: i32,\n}\n";
    let items = parse_rust_file(code, false).unwrap();
    assert_eq!(items.len(), 1);
    assert_eq!(items[0].attributes.len(), 1);
    assert!(items[0].attributes[0].contains("derive"));
    assert!(items[0].attributes[0].contains("Debug"));
    // The stripped rendering holds neither the item's own attribute nor
    // the field's.
    assert!(!items[0].signature.contains("derive"));
    assert!(!items[0].signature.contains("allow"));
    assert!(!items[0].normalized.contains("derive"));
    assert!(items[0].signature.contains("Tagged"));
}

#[test]
fn free_function_is_collected_with_private_gate() {
    let code = "pub fn visible() {}\nfn hidden() {}\n";
    let public_only = parse_rust_file(code, false).unwrap();
    assert_eq!(public_only.len(), 1);
    assert_eq!(public_only[0].name, "visible");
    assert!(matches!(public_only[0].kind, ItemKind::Function));

    let all = parse_rust_file(code, true).unwrap();
    assert_eq!(all.len(), 2);
}

#[test]
fn invalid_source_is_a_parse_error() {
    let result = parse_rust_file("pub struct {", false);
    assert!(result.is_err());
    let err = result.err().unwrap();
    assert!(!err.message.is_empty());
}

#[test]
fn line_numbers_point_at_first_occurrence() {
    let code = "pub struct First {}\n\npub struct Second {}\n";
    let items = parse_rust_file(code, false).unwrap();
    assert_eq!(items.len(), 2);
    assert_eq!(items[0].line_number, 1);
    assert_eq!(items[1].line_number, 3);
}

#[test]
fn line_number_heuristic_sees_comments_too() {
    // The heuristic scans the raw text: a mention of the identifier in an
    // earlier comment wins. Documented, diagnostics-only behaviour.
    let code = "// Widget is declared below\npub struct Widget {}\n";
    let items = parse_rust_file(code, false).unwrap();
    assert_eq!(items.len(), 1);
    assert_eq!(items[0].line_number, 1);
}

#[test]
fn declarations_inside_inline_modules_are_collected() {
    let code = "pub mod shapes { pub struct Circle {} }\npub struct Square {}\n";
    let items = parse_rust_file(code, false).unwrap();
    assert_eq!(items.len(), 2);
    assert_eq!(items[0].name, "Circle");
    assert_eq!(items[1].name, "Square");
}

#[test]
fn method_parameter_attributes_are_stripped() {
    let code = "pub trait Painter { fn paint(&self, #[allow(unused_variables)] hue: i32); }";
    let items = parse_rust_file(code, false).unwrap();
    assert_eq!(items.len(), 2);
    assert!(!items[0].signature.contains("allow"));
    assert!(!items[1].signature.contains("allow"));
    assert!(items[1].signature.contains("hue"));
}

#[test]
fn items_inside_impl_blocks_are_not_collected() {
    let code = "pub struct S {}\nimpl S { pub fn method(&self) {} }\n";
    let items = parse_rust_file(code, false).unwrap();
    assert_eq!(items.len(), 1);
    assert_eq!(items[0].name, "S");
}
