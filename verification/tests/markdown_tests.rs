use spec_check::markdown_parser::extract_rust_blocks;

#[test]
fn test_extract_single_rust_block() {
    let markdown = r#"
# Title

Some text

```rust
pub struct MyStruct {}
```

More text
        "#;

    let blocks = extract_rust_blocks(markdown).unwrap();
    assert_eq!(blocks.len(), 1);
    assert!(blocks[0].contains("pub struct MyStruct"));
}

#[test]
fn test_extract_multiple_rust_blocks() {
    let markdown = r#"
```rust
pub struct First {}
```

```rust
pub struct Second {}
```
        "#;

    let blocks = extract_rust_blocks(markdown).unwrap();
    assert_eq!(blocks.len(), 2);
}

#[test]
fn test_ignores_non_rust_blocks() {
    let markdown = r#"
```python
def foo():
    pass
```

```rust
pub struct MyStruct {}
```
        "#;

    let blocks = extract_rust_blocks(markdown).unwrap();
    assert_eq!(blocks.len(), 1);
    assert!(blocks[0].contains("MyStruct"));
}

#[test]
fn blocks_arrive_in_document_order() {
    let markdown = "```rust\nfirst\n```\n\ntext\n\n```rust\nsecond\n```\n";
    let blocks = extract_rust_blocks(markdown).unwrap();
    assert_eq!(blocks.len(), 2);
    assert!(blocks[0].contains("first"));
    assert!(blocks[1].contains("second"));
}

#[test]
fn only_foreign_fences_yield_nothing() {
    let markdown = "```python\nprint(1)\n```\n\n```toml\nkey = 1\n```\n";
    let blocks = extract_rust_blocks(markdown).unwrap();
    assert_eq!(blocks.len(), 0);
}

#[test]
fn block_content_is_exactly_the_fence_body() {
    let markdown = "before\n\n```rust\npub fn f() {}\n```\n\nafter\n";
    let blocks = extract_rust_blocks(markdown).unwrap();
    assert_eq!(blocks.len(), 1);
    assert_eq!(blocks[0], "pub fn f() {}\n");
}

#[test]
fn tag_match_is_exact_and_case_sensitive() {
    let markdown = "```Rust\npub struct A {}\n```\n\n```rust,ignore\npub struct B {}\n```\n";
    let blocks = extract_rust_blocks(markdown).unwrap();
    assert_eq!(blocks.len(), 0);
}

#[test]
fn empty_document_yields_empty_list() {
    let blocks = extract_rust_blocks("").unwrap();
    assert!(blocks.is_empty());
}
