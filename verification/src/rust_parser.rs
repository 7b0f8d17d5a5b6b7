//! Declaration records: the normalized, comparable form of one declared
//! item (struct, enum, trait, trait method or free function), together
//! with the line-number heuristic used for reporting.

use vstd::prelude::*;

use crate::text::{count_newlines_before, find_first, first_match, newlines_before};

verus! {

/// The kind of a declared item. A trait method carries the owning trait's
/// name: two methods of the same name under different traits are distinct.
#[derive(Clone, Debug)]
pub enum ItemKind {
    Struct,
    Enum,
    Trait,
    TraitMethod { trait_name: String },
    Function,
}

/// The mathematical form of an [`ItemKind`].
#[verifier::ext_equal]
pub enum KindView {
    Struct,
    Enum,
    Trait,
    TraitMethod { trait_name: Seq<char> },
    Function,
}

impl View for ItemKind {
    type V = KindView;

    open spec fn view(&self) -> KindView {
        match self {
            ItemKind::Struct => KindView::Struct,
            ItemKind::Enum => KindView::Enum,
            ItemKind::Trait => KindView::Trait,
            ItemKind::TraitMethod { trait_name } => KindView::TraitMethod {
                trait_name: trait_name@,
            },
            ItemKind::Function => KindView::Function,
        }
    }
}

impl DeepView for ItemKind {
    type V = KindView;

    open spec fn deep_view(&self) -> KindView {
        self@
    }
}

impl ItemKind {
    /// A copy with the same view.
    pub fn duplicate(&self) -> (r: ItemKind)
        ensures
            r@ == self@,
    {
        match self {
            ItemKind::Struct => ItemKind::Struct,
            ItemKind::Enum => ItemKind::Enum,
            ItemKind::Trait => ItemKind::Trait,
            ItemKind::TraitMethod { trait_name } => ItemKind::TraitMethod {
                trait_name: trait_name.clone(),
            },
            ItemKind::Function => ItemKind::Function,
        }
    }

    /// Whether two kinds are the same, trait names included.
    pub fn matches(&self, other: &ItemKind) -> (r: bool)
        ensures
            r == (self@ == other@),
    {
        match (self, other) {
            (ItemKind::Struct, ItemKind::Struct) => true,
            (ItemKind::Enum, ItemKind::Enum) => true,
            (ItemKind::Trait, ItemKind::Trait) => true,
            (
                ItemKind::TraitMethod { trait_name: a },
                ItemKind::TraitMethod { trait_name: b },
            ) => crate::text::str_eq(a.as_str(), b.as_str()),
            (ItemKind::Function, ItemKind::Function) => true,
            _ => false,
        }
    }
}

/// One declared entity in its normalized, comparable form.
#[derive(Clone, Debug)]
pub struct RustItem {
    pub name: String,
    pub kind: ItemKind,
    /// Attribute-free rendering, kept for display and for locating the
    /// first differing character of a mismatch.
    pub signature: String,
    /// Attribute-free structural token rendering; the basis of equality.
    pub normalized: String,
    /// The item's own attributes, rendered to text, in source order.
    pub attributes: Vec<String>,
    /// Best-effort 1-based line of the identifier, for reporting only.
    pub line_number: usize,
}

/// The mathematical form of a [`RustItem`].
#[verifier::ext_equal]
pub struct ItemModel {
    pub name: Seq<char>,
    pub kind: KindView,
    pub signature: Seq<char>,
    pub normalized: Seq<char>,
    pub attributes: Seq<Seq<char>>,
    pub line_number: int,
}

impl View for RustItem {
    type V = ItemModel;

    open spec fn view(&self) -> ItemModel {
        ItemModel {
            name: self.name@,
            kind: self.kind@,
            signature: self.signature@,
            normalized: self.normalized@,
            attributes: self.attributes.deep_view(),
            line_number: self.line_number as int,
        }
    }
}

impl DeepView for RustItem {
    type V = ItemModel;

    open spec fn deep_view(&self) -> ItemModel {
        self@
    }
}

/// The identity key: name and kind. It is the sole basis for matching a
/// declaration across the two sides of a comparison.
pub open spec fn same_key(a: ItemModel, b: ItemModel) -> bool {
    a.name == b.name && a.kind == b.kind
}

impl RustItem {
    /// Bundles the parts of one declaration record.
    pub fn new(
        name: String,
        kind: ItemKind,
        signature: String,
        normalized: String,
        attributes: Vec<String>,
        line_number: usize,
    ) -> (r: RustItem)
        ensures
            r@ == (ItemModel {
                name: name@,
                kind: kind@,
                signature: signature@,
                normalized: normalized@,
                attributes: attributes.deep_view(),
                line_number: line_number as int,
            }),
    {
        RustItem { name, kind, signature, normalized, attributes, line_number }
    }

    /// A copy with the same view.
    pub fn duplicate(&self) -> (r: RustItem)
        ensures
            r@ == self@,
    {
        let r = RustItem {
            name: self.name.clone(),
            kind: self.kind.duplicate(),
            signature: self.signature.clone(),
            normalized: self.normalized.clone(),
            attributes: crate::text::clone_strings(&self.attributes),
            line_number: self.line_number,
        };
        proof {
            assert(r@ =~= self@);
        }
        r
    }

    /// Whether `other` names the same entity: same name and same kind.
    pub fn key_matches(&self, other: &RustItem) -> (r: bool)
        ensures
            r == same_key(self@, other@),
    {
        self.name == other.name && self.kind.matches(&other.kind)
    }
}

impl PartialEq for RustItem {
    /// Item equality goes by the identity key alone, as the comparison does.
    fn eq(&self, other: &Self) -> (r: bool) {
        self.key_matches(other)
    }
}

impl Eq for RustItem {

}

impl vstd::std_specs::cmp::PartialEqSpecImpl for RustItem {
    open spec fn obeys_eq_spec() -> bool {
        true
    }

    open spec fn eq_spec(&self, other: &RustItem) -> bool {
        same_key(self@, other@)
    }
}

/// The line-number heuristic: 1 plus the number of newlines before the
/// first occurrence of `name` in `source`, or 1 when `name` does not occur.
/// Intentionally approximate: an earlier occurrence of the same text (in a
/// comment, say) wins; the result serves diagnostics only, never matching.
pub open spec fn line_of(source: Seq<char>, name: Seq<char>) -> int {
    match first_match(source, name) {
        Some(i) => 1 + newlines_before(source, i) as int,
        None => 1,
    }
}

/// Locates `name` in `source` and counts the line it stands on.
pub fn calculate_line_number(source: &str, name: &str) -> (r: usize)
    ensures
        r == line_of(source@, name@),
        r >= 1,
{
    let source_len = source.unicode_len();
    proof {
        crate::text::lemma_first_match(source@, name@);
    }
    match find_first(source, name) {
        Some(pos) => {
            let newlines = count_newlines_before(source, pos);
            proof {
                lemma_newlines_bound(source@, pos as int);
                if name@.len() == 0 {
                    assert(source@.subrange(0, 0) =~= name@);
                    assert(first_match(source@, name@) == Some(0int));
                    assert(pos == 0);
                }
            }
            1 + newlines
        },
        None => 1,
    }
}

proof fn lemma_newlines_bound(s: Seq<char>, upto: int)
    requires
        0 <= upto <= s.len(),
    ensures
        newlines_before(s, upto) <= upto,
    decreases upto,
{
    if upto > 0 {
        lemma_newlines_bound(s, upto - 1);
    }
}

/// The only failure of extraction: the input text is not syntactically
/// valid, with the parser's underlying message attached.
#[derive(Debug)]
pub struct ParseError {
    pub message: String,
}

/// One raw method record of a trait, as read over the trusted boundary:
/// its name, its own rendered attributes, and its stripped rendering.
pub struct RawMethod {
    pub name: String,
    pub attributes: Vec<String>,
    pub rendering: String,
}

/// The mathematical form of a [`RawMethod`].
#[verifier::ext_equal]
pub struct RawMethodView {
    pub name: Seq<char>,
    pub attributes: Seq<Seq<char>>,
    pub rendering: Seq<char>,
}

impl View for RawMethod {
    type V = RawMethodView;

    open spec fn view(&self) -> RawMethodView {
        RawMethodView {
            name: self.name@,
            attributes: self.attributes.deep_view(),
            rendering: self.rendering@,
        }
    }
}

impl DeepView for RawMethod {
    type V = RawMethodView;

    open spec fn deep_view(&self) -> RawMethodView {
        self@
    }
}

/// The form of one raw declaration, without a trait method's owner.
#[derive(Clone, Copy, Debug)]
pub enum RawKind {
    Struct,
    Enum,
    Trait,
    Function,
}

/// One raw top-level declaration, as read over the trusted boundary:
/// plain values only. `methods` is empty unless the kind is a trait.
pub struct RawDecl {
    pub name: String,
    pub is_public: bool,
    pub kind: RawKind,
    pub attributes: Vec<String>,
    pub rendering: String,
    pub methods: Vec<RawMethod>,
}

/// The mathematical form of a [`RawDecl`].
#[verifier::ext_equal]
pub struct RawDeclView {
    pub name: Seq<char>,
    pub is_public: bool,
    pub kind: RawKind,
    pub attributes: Seq<Seq<char>>,
    pub rendering: Seq<char>,
    pub methods: Seq<RawMethodView>,
}

impl View for RawDecl {
    type V = RawDeclView;

    open spec fn view(&self) -> RawDeclView {
        RawDeclView {
            name: self.name@,
            is_public: self.is_public,
            kind: self.kind,
            attributes: self.attributes.deep_view(),
            rendering: self.rendering@,
            methods: self.methods.deep_view(),
        }
    }
}

impl DeepView for RawDecl {
    type V = RawDeclView;

    open spec fn deep_view(&self) -> RawDeclView {
        self@
    }
}

/// The item kind that a raw declaration's form stands for.
pub open spec fn kind_view_of(k: RawKind) -> KindView {
    match k {
        RawKind::Struct => KindView::Struct,
        RawKind::Enum => KindView::Enum,
        RawKind::Trait => KindView::Trait,
        RawKind::Function => KindView::Function,
    }
}

/// The record of one trait method, owned by `trait_name`. Its signature
/// and normalized form are the same rendered text: both come from the
/// stripped token rendering.
pub open spec fn method_record(
    trait_name: Seq<char>,
    m: RawMethodView,
    source: Seq<char>,
) -> ItemModel {
    ItemModel {
        name: m.name,
        kind: KindView::TraitMethod { trait_name },
        signature: m.rendering,
        normalized: m.rendering,
        attributes: m.attributes,
        line_number: line_of(source, m.name),
    }
}

/// The records of a trait's methods, in member order.
pub open spec fn method_records(
    trait_name: Seq<char>,
    methods: Seq<RawMethodView>,
    source: Seq<char>,
) -> Seq<ItemModel>
    decreases methods.len(),
{
    if methods.len() == 0 {
        Seq::empty()
    } else {
        method_records(trait_name, methods.drop_last(), source).push(
            method_record(trait_name, methods.last(), source),
        )
    }
}

/// The records one raw declaration yields: its own, and, for a trait,
/// one per method, each tagged with the owning trait's name.
pub open spec fn decl_records(r: RawDeclView, source: Seq<char>) -> Seq<ItemModel> {
    let own = ItemModel {
        name: r.name,
        kind: kind_view_of(r.kind),
        signature: r.rendering,
        normalized: r.rendering,
        attributes: r.attributes,
        line_number: line_of(source, r.name),
    };
    if r.kind is Trait {
        seq![own] + method_records(r.name, r.methods, source)
    } else {
        seq![own]
    }
}

/// The final records of a raw declaration list: a declaration is kept
/// exactly when `include_private` is set or it is public; a kept trait
/// brings all its methods, whatever `include_private` says.
pub open spec fn collected_items(
    raws: Seq<RawDeclView>,
    source: Seq<char>,
    include_private: bool,
) -> Seq<ItemModel>
    decreases raws.len(),
{
    if raws.len() == 0 {
        Seq::empty()
    } else {
        let rest = collected_items(raws.drop_last(), source, include_private);
        if include_private || raws.last().is_public {
            rest + decl_records(raws.last(), source)
        } else {
            rest
        }
    }
}

/// Turns raw declarations into the final records: applies the visibility
/// gate, expands a trait's methods under the owning trait's name, and
/// attaches the heuristic line numbers found in `source`.
pub fn collect_items(raws: &Vec<RawDecl>, source: &str, include_private: bool) -> (r: Vec<
    RustItem,
>)
    ensures
        r.deep_view() == collected_items(raws.deep_view(), source@, include_private),
{
    let ghost rv = raws.deep_view();
    let mut out: Vec<RustItem> = Vec::new();
    let mut i: usize = 0;
    while i < raws.len()
        invariant
            rv == raws.deep_view(),
            i <= raws.len(),
            out.deep_view() == collected_items(rv.take(i as int), source@, include_private),
        decreases raws.len() - i,
    {
        proof {
            assert(rv.take(i + 1).drop_last() =~= rv.take(i as int));
            assert(rv.take(i + 1).last() == rv[i as int]);
        }
        let raw = &raws[i];
        if include_private || raw.is_public {
            let ghost before = out.deep_view();
            let line = calculate_line_number(source, raw.name.as_str());
            let kind = match raw.kind {
                RawKind::Struct => ItemKind::Struct,
                RawKind::Enum => ItemKind::Enum,
                RawKind::Trait => ItemKind::Trait,
                RawKind::Function => ItemKind::Function,
            };
            out.push(
                RustItem::new(
                    raw.name.clone(),
                    kind,
                    raw.rendering.clone(),
                    raw.rendering.clone(),
                    crate::text::clone_strings(&raw.attributes),
                    line,
                ),
            );
            proof {
                let own = decl_records(rv[i as int], source@)[0];
                assert(out.deep_view() =~= before.push(own));
                assert(before.push(own) =~= before + seq![own]);
            }
            let is_trait = matches!(raw.kind, RawKind::Trait);
            if is_trait {
                let ghost mv = raw.methods.deep_view();
                proof {
                    let own = decl_records(rv[i as int], source@)[0];
                    assert(mv.take(0) =~= Seq::<RawMethodView>::empty());
                    assert((before + seq![own]) + method_records(
                        rv[i as int].name,
                        mv.take(0),
                        source@,
                    ) =~= before + seq![own]);
                }
                let mut j: usize = 0;
                while j < raw.methods.len()
                    invariant
                        rv == raws.deep_view(),
                        i < raws.len(),
                        raw@ == rv[i as int],
                        mv == raw.methods.deep_view(),
                        rv[i as int].kind is Trait,
                        j <= raw.methods.len(),
                        out.deep_view() == before + seq![
                            decl_records(rv[i as int], source@)[0],
                        ] + method_records(rv[i as int].name, mv.take(j as int), source@),
                    decreases raw.methods.len() - j,
                {
                    proof {
                        assert(mv.take(j + 1).drop_last() =~= mv.take(j as int));
                        assert(mv.take(j + 1).last() == mv[j as int]);
                    }
                    let ghost pre = out.deep_view();
                    let m = &raw.methods[j];
                    let mline = calculate_line_number(source, m.name.as_str());
                    out.push(
                        RustItem::new(
                            m.name.clone(),
                            ItemKind::TraitMethod { trait_name: raw.name.clone() },
                            m.rendering.clone(),
                            m.rendering.clone(),
                            crate::text::clone_strings(&m.attributes),
                            mline,
                        ),
                    );
                    proof {
                        assert(out.deep_view() =~= pre.push(
                            method_record(rv[i as int].name, mv[j as int], source@),
                        ));
                        assert(out.deep_view() =~= before + seq![
                            decl_records(rv[i as int], source@)[0],
                        ] + method_records(rv[i as int].name, mv.take(j + 1), source@));
                    }
                    j += 1;
                }
                proof {
                    assert(mv.take(mv.len() as int) =~= mv);
                    assert(out.deep_view() =~= before + decl_records(rv[i as int], source@));
                    assert(out.deep_view() =~= collected_items(
                        rv.take(i + 1),
                        source@,
                        include_private,
                    ));
                }
            } else {
                proof {
                    assert(decl_records(rv[i as int], source@) =~= seq![
                        decl_records(rv[i as int], source@)[0],
                    ]);
                    assert(out.deep_view() =~= before + decl_records(rv[i as int], source@));
                    assert(out.deep_view() =~= collected_items(
                        rv.take(i + 1),
                        source@,
                        include_private,
                    ));
                }
            }
        }
        i += 1;
    }
    proof {
        assert(rv.take(rv.len() as int) =~= rv);
    }
    out
}

/// Reads one parsed syntax item over the trusted boundary into a raw
/// declaration record, or nothing for an item form the checker skips.
fn raw_of_item(item: &syn::Item) -> Option<RawDecl> {
    match crate::syn_api::classify_item(item) {
        crate::syn_api::ItemClass::Struct(s) => Some(
            RawDecl {
                name: crate::syn_api::struct_name(&s),
                is_public: crate::syn_api::struct_is_public(&s),
                kind: RawKind::Struct,
                attributes: crate::syn_api::struct_attr_texts(&s),
                rendering: crate::syn_api::struct_stripped_text(&s),
                methods: Vec::new(),
            },
        ),
        crate::syn_api::ItemClass::Enum(e) => Some(
            RawDecl {
                name: crate::syn_api::enum_name(&e),
                is_public: crate::syn_api::enum_is_public(&e),
                kind: RawKind::Enum,
                attributes: crate::syn_api::enum_attr_texts(&e),
                rendering: crate::syn_api::enum_stripped_text(&e),
                methods: Vec::new(),
            },
        ),
        crate::syn_api::ItemClass::Trait(t) => {
            let members = crate::syn_api::trait_items(&t);
            let mut methods: Vec<RawMethod> = Vec::new();
            let mut j: usize = 0;
            while j < members.len()
                decreases members.len() - j,
            {
                match crate::syn_api::trait_item_as_fn(&members[j]) {
                    Some(m) => {
                        methods.push(
                            RawMethod {
                                name: crate::syn_api::method_name(&m),
                                attributes: crate::syn_api::method_attr_texts(&m),
                                rendering: crate::syn_api::method_stripped_text(&m),
                            },
                        );
                    },
                    None => {},
                }
                j += 1;
            }
            Some(
                RawDecl {
                    name: crate::syn_api::trait_name(&t),
                    is_public: crate::syn_api::trait_is_public(&t),
                    kind: RawKind::Trait,
                    attributes: crate::syn_api::trait_attr_texts(&t),
                    rendering: crate::syn_api::trait_stripped_text(&t),
                    methods,
                },
            )
        },
        crate::syn_api::ItemClass::Fn(f) => Some(
            RawDecl {
                name: crate::syn_api::fn_name(&f),
                is_public: crate::syn_api::fn_is_public(&f),
                kind: RawKind::Function,
                attributes: crate::syn_api::fn_attr_texts(&f),
                rendering: crate::syn_api::fn_stripped_text(&f),
                methods: Vec::new(),
            },
        ),
        crate::syn_api::ItemClass::Other => None,
    }
}

/// What the parse boundary yields for a source text: its raw
/// declaration records, or the parser's message. The whole reading is a
/// function of the text alone. `Ok` holds one record per struct, enum,
/// trait or free function at module scope — the file's items and,
/// recursively, those of every inline module, each at its module's
/// position, so the records come in source declaration order — carrying
/// the declared name, whether it is `pub`, the item's own attribute
/// texts in source order, its attribute-free token rendering, and, for
/// a trait, its method signatures in member order. `Err` holds the
/// parser's message and comes exactly for text that is not
/// syntactically valid.
pub uninterp spec fn raw_decls_of(text: Seq<char>) -> Result<Seq<RawDeclView>, Seq<char>>;

/// Relies on the boundary readings above: walks the given items and,
/// recursively, the contents of every inline module, in source order,
/// appending one raw record per collected declaration.
#[verifier::external_body]
fn collect_raws(items: &Vec<syn::Item>, out: &mut Vec<RawDecl>) {
    for item in items.iter() {
        if let Some(raw) = raw_of_item(item) {
            out.push(raw);
        }
        if let Some(inner) = crate::syn_api::item_mod_contents(item) {
            collect_raws(&inner, out);
        }
    }
}

/// Relies on syn::parse_file: its only failure is syntactically invalid
/// input, with the parser's message attached, and its result depends on
/// the text alone; on success the walk above reads the declarations.
/// (Pathologically nested input can exhaust the recursive-descent
/// parser's stack: resource exhaustion, not a contract concern.)
#[verifier::external_body]
fn parse_raw_decls(content: &str) -> (r: Result<Vec<RawDecl>, ParseError>)
    ensures
        r matches Ok(raws) ==> (raw_decls_of(content@) matches Ok(views) && views
            == raws.deep_view()),
        r matches Err(e) ==> (raw_decls_of(content@) matches Err(msg) && msg == e.message@),
{
    match syn::parse_file(content) {
        Ok(file) => {
            let mut raws: Vec<RawDecl> = Vec::new();
            collect_raws(&file.items, &mut raws);
            Ok(raws)
        },
        Err(e) => Err(ParseError { message: e.to_string() }),
    }
}

/// Law (visibility gate, exclusion): without `include_private`, every
/// collected record stems from a public declaration — a private one
/// never contributes.
pub proof fn lemma_gate_excludes_private(
    raws: Seq<RawDeclView>,
    source: Seq<char>,
    m: ItemModel,
)
    requires
        collected_items(raws, source, false).contains(m),
    ensures
        exists|k: int|
            0 <= k < raws.len() && raws[k].is_public && decl_records(raws[k], source).contains(
                m,
            ),
    decreases raws.len(),
{
    if raws.len() == 0 {
        assert(false);
    } else {
        let rest = collected_items(raws.drop_last(), source, false);
        if raws.last().is_public {
            let whole = rest + decl_records(raws.last(), source);
            assert(collected_items(raws, source, false) == whole);
            let i = choose|i: int| 0 <= i < whole.len() && whole[i] == m;
            if i < rest.len() {
                assert(rest.contains(m));
                lemma_gate_excludes_private(raws.drop_last(), source, m);
                let k = choose|k: int|
                    0 <= k < raws.drop_last().len() && raws.drop_last()[k].is_public
                        && decl_records(raws.drop_last()[k], source).contains(m);
                assert(raws[k] == raws.drop_last()[k]);
                assert(raws[k].is_public && decl_records(raws[k], source).contains(m));
            } else {
                let d = decl_records(raws.last(), source);
                assert(d[i - rest.len()] == m);
                assert(d.contains(m));
                let k = raws.len() - 1;
                assert(raws[k] == raws.last());
                assert(raws[k].is_public && decl_records(raws[k], source).contains(m));
            }
        } else {
            lemma_gate_excludes_private(raws.drop_last(), source, m);
            let k = choose|k: int|
                0 <= k < raws.drop_last().len() && raws.drop_last()[k].is_public
                    && decl_records(raws.drop_last()[k], source).contains(m);
            assert(raws[k] == raws.drop_last()[k]);
            assert(raws[k].is_public && decl_records(raws[k], source).contains(m));
        }
    }
}

/// Law (visibility gate, inclusion): with `include_private` every
/// declaration's own record is collected, private ones included; and a
/// public declaration's own record is collected either way.
pub proof fn lemma_gate_includes(raws: Seq<RawDeclView>, source: Seq<char>, k: int)
    requires
        0 <= k < raws.len(),
    ensures
        collected_items(raws, source, true).contains(decl_records(raws[k], source)[0]),
        raws[k].is_public ==> collected_items(raws, source, false).contains(
            decl_records(raws[k], source)[0],
        ),
    decreases raws.len(),
{
    let own = decl_records(raws[k], source)[0];
    if k == raws.len() - 1 {
        assert(raws.last() == raws[k]);
        let d = decl_records(raws[k], source);
        assert(d.len() >= 1 && d[0] == own);
        let rest_t = collected_items(raws.drop_last(), source, true);
        assert(collected_items(raws, source, true) == rest_t + d);
        assert((rest_t + d)[rest_t.len() as int] == own);
        assert(collected_items(raws, source, true).contains(own));
        if raws[k].is_public {
            let rest_f = collected_items(raws.drop_last(), source, false);
            assert(collected_items(raws, source, false) == rest_f + d);
            assert((rest_f + d)[rest_f.len() as int] == own);
            assert(collected_items(raws, source, false).contains(own));
        }
    } else {
        lemma_gate_includes(raws.drop_last(), source, k);
        assert(raws.drop_last()[k] == raws[k]);
        let rest_t = collected_items(raws.drop_last(), source, true);
        let i = choose|i: int| 0 <= i < rest_t.len() && rest_t[i] == own;
        if raws.last().is_public {
            assert(collected_items(raws, source, true)[i] == own);
        } else {
            assert(collected_items(raws, source, true)[i] == own);
        }
        assert(collected_items(raws, source, true).contains(own));
        if raws[k].is_public {
            let rest_f = collected_items(raws.drop_last(), source, false);
            assert(rest_f.contains(own));
            let i2 = choose|i2: int| 0 <= i2 < rest_f.len() && rest_f[i2] == own;
            assert(collected_items(raws, source, false)[i2] == own);
            assert(collected_items(raws, source, false).contains(own));
        }
    }
}

/// Law (trait method scoping): a trait declaration with one method
/// yields exactly two records — the trait's own, and one method record
/// whose owning-trait name is the trait's.
pub proof fn lemma_trait_method_scoping(r: RawDeclView, source: Seq<char>)
    requires
        r.kind is Trait,
        r.methods.len() == 1,
    ensures
        decl_records(r, source).len() == 2,
        decl_records(r, source)[0].name == r.name,
        decl_records(r, source)[0].kind == KindView::Trait,
        decl_records(r, source)[1].name == r.methods[0].name,
        decl_records(r, source)[1].kind == (KindView::TraitMethod { trait_name: r.name }),
{
    assert(r.methods.drop_last() =~= Seq::<RawMethodView>::empty());
    assert(method_records(r.name, Seq::<RawMethodView>::empty(), source)
        =~= Seq::<ItemModel>::empty());
    assert(r.methods.last() == r.methods[0]);
    assert(method_records(r.name, r.methods, source) =~= Seq::<ItemModel>::empty().push(
        method_record(r.name, r.methods[0], source),
    ));
}

/// Parses a source text and yields its declaration records under the
/// visibility gate: the faithful collection of the raw declarations the
/// boundary names — gated, trait methods expanded, line numbers
/// attached. It fails exactly where the named parse does, carrying the
/// parser's message.
pub fn parse_rust_file(content: &str, check_private: bool) -> (r: Result<
    Vec<RustItem>,
    ParseError,
>)
    ensures
        (r is Ok) == (raw_decls_of(content@) is Ok),
        r matches Ok(items) ==> (raw_decls_of(content@) matches Ok(raws) && items.deep_view()
            == collected_items(raws, content@, check_private)),
        r matches Err(e) ==> (raw_decls_of(content@) matches Err(msg) && msg == e.message@),
{
    match parse_raw_decls(content) {
        Ok(raws) => {
            let items = collect_items(&raws, content, check_private);
            Ok(items)
        },
        Err(e) => Err(e),
    }
}

} // verus!
