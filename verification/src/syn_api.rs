//! The trusted boundary to the `syn` and `quote` crates. The types
//! declared here are opaque to the verifier; each wrapper makes one call
//! over the boundary and converts the result to plain values, and its doc
//! comment names the outside function relied on. Nothing in this module
//! is verified; the extraction logic that consumes these values lives in
//! `rust_parser` and is verified there.

use vstd::prelude::*;

use quote::ToTokens;

verus! {

#[verifier::external_type_specification]
#[verifier::external_body]
pub struct ExSynItem(syn::Item);

#[verifier::external_type_specification]
#[verifier::external_body]
pub struct ExSynItemStruct(syn::ItemStruct);

#[verifier::external_type_specification]
#[verifier::external_body]
pub struct ExSynItemEnum(syn::ItemEnum);

#[verifier::external_type_specification]
#[verifier::external_body]
pub struct ExSynItemTrait(syn::ItemTrait);

#[verifier::external_type_specification]
#[verifier::external_body]
pub struct ExSynItemFn(syn::ItemFn);

#[verifier::external_type_specification]
#[verifier::external_body]
pub struct ExSynTraitItem(syn::TraitItem);

#[verifier::external_type_specification]
#[verifier::external_body]
pub struct ExSynTraitItemFn(syn::TraitItemFn);

#[verifier::external_type_specification]
#[verifier::external_body]
pub struct ExSynSignature(syn::Signature);

/// The four declaration forms the extractor collects, told apart;
/// every other item form is passed over.
pub enum ItemClass {
    Struct(syn::ItemStruct),
    Enum(syn::ItemEnum),
    Trait(syn::ItemTrait),
    Fn(syn::ItemFn),
    Other,
}

/// Relies on the variants of syn::Item: the items of an inline module
/// (`mod m { ... }`), for the walk to descend into; nothing for an
/// out-of-line `mod m;` or any other item form.
#[verifier::external_body]
pub(crate) fn item_mod_contents(item: &syn::Item) -> (r: Option<Vec<syn::Item>>) {
    match item {
        syn::Item::Mod(m) => match &m.content {
            Some((_, items)) => Some(items.clone()),
            None => None,
        },
        _ => None,
    }
}

/// Relies on the variants of syn::Item: tells the four collected forms
/// apart, cloning the payload.
#[verifier::external_body]
pub(crate) fn classify_item(item: &syn::Item) -> (r: ItemClass) {
    match item {
        syn::Item::Struct(s) => ItemClass::Struct(s.clone()),
        syn::Item::Enum(e) => ItemClass::Enum(e.clone()),
        syn::Item::Trait(t) => ItemClass::Trait(t.clone()),
        syn::Item::Fn(f) => ItemClass::Fn(f.clone()),
        _ => ItemClass::Other,
    }
}

/// Relies on proc_macro2::Ident::to_string: the struct's declared name.
#[verifier::external_body]
pub(crate) fn struct_name(item: &syn::ItemStruct) -> (r: String) {
    item.ident.to_string()
}

/// Relies on syn::Visibility: whether the struct is declared `pub`.
#[verifier::external_body]
pub(crate) fn struct_is_public(item: &syn::ItemStruct) -> (r: bool) {
    matches!(item.vis, syn::Visibility::Public(_))
}

/// Relies on quote::ToTokens for syn::Attribute: the struct's own
/// attributes rendered to text, in source order.
#[verifier::external_body]
pub(crate) fn struct_attr_texts(item: &syn::ItemStruct) -> (r: Vec<String>) {
    let mut out: Vec<String> = Vec::new();
    for a in item.attrs.iter() {
        out.push(a.to_token_stream().to_string());
    }
    out
}

/// Relies on Clone and quote::ToTokens for syn::ItemStruct: the token
/// rendering of a copy whose own and field attributes are cleared.
#[verifier::external_body]
pub(crate) fn struct_stripped_text(item: &syn::ItemStruct) -> (r: String) {
    let mut c = item.clone();
    c.attrs.clear();
    for f in c.fields.iter_mut() {
        f.attrs.clear();
    }
    c.to_token_stream().to_string()
}

/// Relies on proc_macro2::Ident::to_string: the enum's declared name.
#[verifier::external_body]
pub(crate) fn enum_name(item: &syn::ItemEnum) -> (r: String) {
    item.ident.to_string()
}

/// Relies on syn::Visibility: whether the enum is declared `pub`.
#[verifier::external_body]
pub(crate) fn enum_is_public(item: &syn::ItemEnum) -> (r: bool) {
    matches!(item.vis, syn::Visibility::Public(_))
}

/// Relies on quote::ToTokens for syn::Attribute: the enum's own
/// attributes rendered to text, in source order.
#[verifier::external_body]
pub(crate) fn enum_attr_texts(item: &syn::ItemEnum) -> (r: Vec<String>) {
    let mut out: Vec<String> = Vec::new();
    for a in item.attrs.iter() {
        out.push(a.to_token_stream().to_string());
    }
    out
}

/// Relies on Clone and quote::ToTokens for syn::ItemEnum: the token
/// rendering of a copy whose own, variant and variant-field attributes
/// are cleared.
#[verifier::external_body]
pub(crate) fn enum_stripped_text(item: &syn::ItemEnum) -> (r: String) {
    let mut c = item.clone();
    c.attrs.clear();
    for v in c.variants.iter_mut() {
        v.attrs.clear();
        for f in v.fields.iter_mut() {
            f.attrs.clear();
        }
    }
    c.to_token_stream().to_string()
}

/// Relies on proc_macro2::Ident::to_string: the trait's declared name.
#[verifier::external_body]
pub(crate) fn trait_name(item: &syn::ItemTrait) -> (r: String) {
    item.ident.to_string()
}

/// Relies on syn::Visibility: whether the trait is declared `pub`.
#[verifier::external_body]
pub(crate) fn trait_is_public(item: &syn::ItemTrait) -> (r: bool) {
    matches!(item.vis, syn::Visibility::Public(_))
}

/// Relies on quote::ToTokens for syn::Attribute: the trait's own
/// attributes rendered to text, in source order.
#[verifier::external_body]
pub(crate) fn trait_attr_texts(item: &syn::ItemTrait) -> (r: Vec<String>) {
    let mut out: Vec<String> = Vec::new();
    for a in item.attrs.iter() {
        out.push(a.to_token_stream().to_string());
    }
    out
}

/// Relies on the variants of syn::FnArg: clears the attributes of every
/// parameter of a method signature.
#[verifier::external_body]
pub(crate) fn clear_sig_attrs(sig: &mut syn::Signature) {
    for arg in sig.inputs.iter_mut() {
        match arg {
            syn::FnArg::Receiver(r) => r.attrs.clear(),
            syn::FnArg::Typed(t) => t.attrs.clear(),
        }
    }
}

/// Relies on Clone and quote::ToTokens for syn::ItemTrait: the token
/// rendering of a copy whose own attributes, whose members' attributes
/// and whose method-parameter attributes are cleared.
#[verifier::external_body]
pub(crate) fn trait_stripped_text(item: &syn::ItemTrait) -> (r: String) {
    let mut c = item.clone();
    c.attrs.clear();
    for it in c.items.iter_mut() {
        match it {
            syn::TraitItem::Const(x) => x.attrs.clear(),
            syn::TraitItem::Fn(x) => {
                x.attrs.clear();
                clear_sig_attrs(&mut x.sig);
            },
            syn::TraitItem::Type(x) => x.attrs.clear(),
            syn::TraitItem::Macro(x) => x.attrs.clear(),
            _ => {},
        }
    }
    c.to_token_stream().to_string()
}

/// Relies on Clone for Vec<syn::TraitItem>: the trait's members.
#[verifier::external_body]
pub(crate) fn trait_items(item: &syn::ItemTrait) -> (r: Vec<syn::TraitItem>) {
    item.items.clone()
}

/// Relies on the variants of syn::TraitItem: yields a member that is a
/// method signature, and nothing for the other member forms.
#[verifier::external_body]
pub(crate) fn trait_item_as_fn(item: &syn::TraitItem) -> (r: Option<syn::TraitItemFn>) {
    match item {
        syn::TraitItem::Fn(f) => Some(f.clone()),
        _ => None,
    }
}

/// Relies on proc_macro2::Ident::to_string: the function's declared name.
#[verifier::external_body]
pub(crate) fn fn_name(item: &syn::ItemFn) -> (r: String) {
    item.sig.ident.to_string()
}

/// Relies on syn::Visibility: whether the function is declared `pub`.
#[verifier::external_body]
pub(crate) fn fn_is_public(item: &syn::ItemFn) -> (r: bool) {
    matches!(item.vis, syn::Visibility::Public(_))
}

/// Relies on quote::ToTokens for syn::Attribute: the function's own
/// attributes rendered to text, in source order.
#[verifier::external_body]
pub(crate) fn fn_attr_texts(item: &syn::ItemFn) -> (r: Vec<String>) {
    let mut out: Vec<String> = Vec::new();
    for a in item.attrs.iter() {
        out.push(a.to_token_stream().to_string());
    }
    out
}

/// Relies on Clone and quote::ToTokens for syn::ItemFn: the token
/// rendering of a copy whose own attributes are cleared.
#[verifier::external_body]
pub(crate) fn fn_stripped_text(item: &syn::ItemFn) -> (r: String) {
    let mut c = item.clone();
    c.attrs.clear();
    c.to_token_stream().to_string()
}

/// Relies on proc_macro2::Ident::to_string: the method's declared name.
#[verifier::external_body]
pub(crate) fn method_name(item: &syn::TraitItemFn) -> (r: String) {
    item.sig.ident.to_string()
}

/// Relies on quote::ToTokens for syn::Attribute: the method's own
/// attributes rendered to text, in source order.
#[verifier::external_body]
pub(crate) fn method_attr_texts(item: &syn::TraitItemFn) -> (r: Vec<String>) {
    let mut out: Vec<String> = Vec::new();
    for a in item.attrs.iter() {
        out.push(a.to_token_stream().to_string());
    }
    out
}

/// Relies on Clone and quote::ToTokens for syn::TraitItemFn: the token
/// rendering of a copy whose own attributes and whose parameter
/// attributes are cleared.
#[verifier::external_body]
pub(crate) fn method_stripped_text(item: &syn::TraitItemFn) -> (r: String) {
    let mut c = item.clone();
    c.attrs.clear();
    clear_sig_attrs(&mut c.sig);
    c.to_token_stream().to_string()
}

} // verus!
