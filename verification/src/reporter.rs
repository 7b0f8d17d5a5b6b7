//! Pure formatting of report fragments: the one-line label of an item
//! and the display form of an attribute list. Writing the assembled
//! report to its destination is the surrounding program's business.

use vstd::prelude::*;
use vstd::string::StringExecFns;

use crate::rust_parser::{ItemKind, ItemModel, KindView, RustItem};

verus! {

/// The one-line label of an item: its kind and its name, or, for a trait
/// method, the owning trait's name and its own.
pub open spec fn item_label(m: ItemModel) -> Seq<char> {
    match m.kind {
        KindView::Struct => "struct "@ + m.name,
        KindView::Enum => "enum "@ + m.name,
        KindView::Trait => "trait "@ + m.name,
        KindView::TraitMethod { trait_name } => trait_name + "::"@ + m.name,
        KindView::Function => "fn "@ + m.name,
    }
}

/// Renders the one-line label of an item.
pub fn format_item(item: &RustItem) -> (r: String)
    ensures
        r@ == item_label(item@),
{
    match &item.kind {
        ItemKind::Struct => {
            let mut s = String::from_str("struct ");
            s.append(item.name.as_str());
            s
        },
        ItemKind::Enum => {
            let mut s = String::from_str("enum ");
            s.append(item.name.as_str());
            s
        },
        ItemKind::Trait => {
            let mut s = String::from_str("trait ");
            s.append(item.name.as_str());
            s
        },
        ItemKind::TraitMethod { trait_name } => {
            let mut s = trait_name.clone();
            s.append("::");
            s.append(item.name.as_str());
            s
        },
        ItemKind::Function => {
            let mut s = String::from_str("fn ");
            s.append(item.name.as_str());
            s
        },
    }
}

/// The attribute texts joined by a comma and a space.
pub open spec fn joined_attrs(attrs: Seq<Seq<char>>) -> Seq<char>
    decreases attrs.len(),
{
    if attrs.len() == 0 {
        Seq::empty()
    } else if attrs.len() == 1 {
        attrs[0]
    } else {
        joined_attrs(attrs.drop_last()) + ", "@ + attrs.last()
    }
}

/// The display form of an attribute list: the word `none` for an empty
/// list, the joined texts otherwise.
pub open spec fn attr_display(attrs: Seq<Seq<char>>) -> Seq<char> {
    if attrs.len() == 0 {
        "none"@
    } else {
        joined_attrs(attrs)
    }
}

/// Renders an attribute list for display.
pub fn format_attributes(attrs: &Vec<String>) -> (r: String)
    ensures
        r@ == attr_display(attrs.deep_view()),
{
    let ghost av = attrs.deep_view();
    if attrs.len() == 0 {
        proof {
            assert(av.len() == 0);
        }
        return String::from_str("none");
    }
    let mut s = attrs[0].clone();
    proof {
        assert(av.take(1).len() == 1);
        assert(av.take(1)[0] == av[0]);
    }
    let mut i: usize = 1;
    while i < attrs.len()
        invariant
            av == attrs.deep_view(),
            1 <= i <= attrs.len(),
            s@ == joined_attrs(av.take(i as int)),
        decreases attrs.len() - i,
    {
        s.append(", ");
        s.append(attrs[i].as_str());
        proof {
            assert(av.take(i + 1).drop_last() =~= av.take(i as int));
            assert(av.take(i + 1).last() == av[i as int]);
            assert(av.take(i + 1).len() >= 2);
        }
        i += 1;
    }
    proof {
        assert(av.take(av.len() as int) =~= av);
    }
    s
}

} // verus!
