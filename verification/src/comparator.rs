//! The diffing engine: matches two declaration lists by identity key
//! (name and kind), and classifies every discrepancy as a missing item,
//! a signature mismatch, or an attribute mismatch.

use vstd::prelude::*;

use crate::rust_parser::{ItemModel, RustItem, same_key};
use crate::text::{contains_seq, find_first, insert_lex, lex_le, sort_lex, str_lex_le, string_vecs_equal};

verus! {

/// The classified outcome of one comparison: four ordered lists.
pub struct ComparisonResult {
    pub missing_in_spec: Vec<RustItem>,
    pub missing_in_code: Vec<RustItem>,
    pub signature_mismatches: Vec<SignatureMismatch>,
    pub attribute_mismatches: Vec<AttributeMismatch>,
}

/// A matched pair whose normalized forms differ, with the position of the
/// first differing character of the two signatures, when one exists.
pub struct SignatureMismatch {
    pub code_item: RustItem,
    pub spec_item: RustItem,
    pub first_diff_pos: Option<usize>,
}

/// A matched pair whose attribute sets differ after ignore-list filtering.
pub struct AttributeMismatch {
    pub code_item: RustItem,
    pub spec_item: RustItem,
}

/// The mathematical form of a [`SignatureMismatch`].
#[verifier::ext_equal]
pub struct SigMismatchView {
    pub code_item: ItemModel,
    pub spec_item: ItemModel,
    pub first_diff_pos: Option<int>,
}

impl View for SignatureMismatch {
    type V = SigMismatchView;

    open spec fn view(&self) -> SigMismatchView {
        SigMismatchView {
            code_item: self.code_item@,
            spec_item: self.spec_item@,
            first_diff_pos: match self.first_diff_pos {
                Some(p) => Some(p as int),
                None => None,
            },
        }
    }
}

impl DeepView for SignatureMismatch {
    type V = SigMismatchView;

    open spec fn deep_view(&self) -> SigMismatchView {
        self@
    }
}

/// The mathematical form of an [`AttributeMismatch`].
#[verifier::ext_equal]
pub struct AttrMismatchView {
    pub code_item: ItemModel,
    pub spec_item: ItemModel,
}

impl View for AttributeMismatch {
    type V = AttrMismatchView;

    open spec fn view(&self) -> AttrMismatchView {
        AttrMismatchView { code_item: self.code_item@, spec_item: self.spec_item@ }
    }
}

impl DeepView for AttributeMismatch {
    type V = AttrMismatchView;

    open spec fn deep_view(&self) -> AttrMismatchView {
        self@
    }
}

impl ComparisonResult {
    /// True exactly when some list of the result is non-empty.
    pub fn has_errors(&self) -> (r: bool)
        ensures
            r == !(self.missing_in_spec@.len() == 0 && self.missing_in_code@.len() == 0
                && self.signature_mismatches@.len() == 0 && self.attribute_mismatches@.len()
                == 0),
    {
        !self.missing_in_spec.is_empty() || !self.missing_in_code.is_empty()
            || !self.signature_mismatches.is_empty() || !self.attribute_mismatches.is_empty()
    }
}

/// Whether some item of `items` has the same identity key as `m`.
pub open spec fn has_key(items: Seq<ItemModel>, m: ItemModel) -> bool {
    exists|i: int| 0 <= i < items.len() && same_key(items[i], m)
}

/// The representative that key-based lookup keeps for `m`'s key: the last
/// item of `items` with that key (last write wins), or `m` itself when the
/// key is absent (callers only apply this under [`has_key`]).
pub open spec fn lookup(items: Seq<ItemModel>, m: ItemModel) -> ItemModel
    decreases items.len(),
{
    if items.len() == 0 {
        m
    } else if same_key(items.last(), m) {
        items.last()
    } else {
        lookup(items.drop_last(), m)
    }
}

/// The position of the first character at which `a` and `b` differ; the
/// length of the shorter one when it is a strict prefix of the other; and
/// nothing when they are equal.
pub open spec fn first_diff(a: Seq<char>, b: Seq<char>) -> Option<int>
    decreases a.len(),
{
    if a.len() == 0 && b.len() == 0 {
        None
    } else if a.len() == 0 || b.len() == 0 {
        Some(0)
    } else if a[0] != b[0] {
        Some(0)
    } else {
        match first_diff(a.subrange(1, a.len() as int), b.subrange(1, b.len() as int)) {
            Some(i) => Some(i + 1),
            None => None,
        }
    }
}

/// What `first_diff` names: the least position of disagreement.
pub proof fn lemma_first_diff(a: Seq<char>, b: Seq<char>)
    ensures
        match first_diff(a, b) {
            None => a == b,
            Some(i) => {
                let m = if a.len() <= b.len() { a.len() as int } else { b.len() as int };
                &&& 0 <= i <= m
                &&& forall|j: int| 0 <= j < i ==> a[j] == b[j]
                &&& (i < m ==> a[i] != b[i])
                &&& (i == m ==> a.len() != b.len())
            },
        },
    decreases a.len(),
{
    if a.len() == 0 && b.len() == 0 {
        assert(a =~= b);
    } else if a.len() == 0 || b.len() == 0 {
    } else if a[0] != b[0] {
    } else {
        let ta = a.subrange(1, a.len() as int);
        let tb = b.subrange(1, b.len() as int);
        lemma_first_diff(ta, tb);
        match first_diff(ta, tb) {
            None => {
                assert(ta =~= tb);
                assert forall|j: int| 0 <= j < a.len() implies a[j] == b[j] by {
                    if j > 0 {
                        assert(a[j] == ta[j - 1]);
                    }
                }
                assert(a =~= b);
            },
            Some(i) => {
                assert forall|j: int| 0 <= j < i + 1 implies a[j] == b[j] by {
                    if j > 0 {
                        assert(ta[j - 1] == tb[j - 1]);
                    }
                }
            },
        }
    }
}

/// Scans two strings for the position of their first differing character.
pub fn find_first_diff(s1: &str, s2: &str) -> (r: Option<usize>)
    ensures
        match r {
            Some(i) => first_diff(s1@, s2@) == Some(i as int),
            None => first_diff(s1@, s2@) is None,
        },
{
    let l1 = s1.unicode_len();
    let l2 = s2.unicode_len();
    let m = if l1 < l2 {
        l1
    } else {
        l2
    };
    let mut i: usize = 0;
    while i < m
        invariant
            l1 == s1@.len(),
            l2 == s2@.len(),
            m == if l1 <= l2 { l1 } else { l2 },
            i <= m,
            forall|j: int| 0 <= j < i ==> s1@[j] == s2@[j],
        decreases m - i,
    {
        if s1.get_char(i) != s2.get_char(i) {
            proof {
                lemma_first_diff(s1@, s2@);
            }
            return Some(i);
        }
        i += 1;
    }
    proof {
        lemma_first_diff(s1@, s2@);
    }
    if l1 != l2 {
        Some(m)
    } else {
        proof {
            assert(s1@ =~= s2@);
        }
        None
    }
}

/// Whether the text of attribute `a` is excluded by the ignore set: some
/// ignored name occurs in it as a substring. (An attribute that merely
/// begins with an ignored name, with or without a following parenthesis,
/// holds it as a substring as well.)
pub open spec fn attr_dropped(a: Seq<char>, ignored: Seq<Seq<char>>) -> bool {
    exists|k: int| 0 <= k < ignored.len() && contains_seq(a, ignored[k])
}

/// The attributes of `attrs` that survive ignore-list filtering, in order.
pub open spec fn kept_attrs(attrs: Seq<Seq<char>>, ignored: Seq<Seq<char>>) -> Seq<Seq<char>>
    decreases attrs.len(),
{
    if attrs.len() == 0 {
        Seq::empty()
    } else {
        let rest = kept_attrs(attrs.drop_last(), ignored);
        if attr_dropped(attrs.last(), ignored) {
            rest
        } else {
            rest.push(attrs.last())
        }
    }
}

/// The canonical attribute list: ignore-filtered, then sorted.
pub open spec fn normalized_attrs(attrs: Seq<Seq<char>>, ignored: Seq<Seq<char>>) -> Seq<
    Seq<char>,
> {
    sort_lex(kept_attrs(attrs, ignored))
}

/// Decides [`attr_dropped`] for one attribute text.
fn attr_is_dropped(a: &String, ignored_attributes: &Vec<String>) -> (r: bool)
    ensures
        r == attr_dropped(a@, ignored_attributes.deep_view()),
{
    let ghost ig = ignored_attributes.deep_view();
    let mut k: usize = 0;
    while k < ignored_attributes.len()
        invariant
            ig == ignored_attributes.deep_view(),
            k <= ignored_attributes.len(),
            forall|j: int| 0 <= j < k ==> !contains_seq(a@, ig[j]),
        decreases ignored_attributes.len() - k,
    {
        if find_first(a.as_str(), ignored_attributes[k].as_str()).is_some() {
            proof {
                assert(contains_seq(a@, ig[k as int]));
            }
            return true;
        }
        k += 1;
    }
    false
}

/// Inserts `x` into the sorted vector `v`, keeping it sorted.
fn insert_sorted(v: &mut Vec<String>, x: String)
    ensures
        final(v).deep_view() == insert_lex(x@, old(v).deep_view()),
{
    let ghost orig = v.deep_view();
    let mut j: usize = 0;
    loop
        invariant
            j <= v.len(),
            v.deep_view() == orig,
            forall|k: int| 0 <= k < j ==> !lex_le(x@, orig[k]),
        ensures
            j <= v.len(),
            v.deep_view() == orig,
            forall|k: int| 0 <= k < j ==> !lex_le(x@, orig[k]),
            j < v.len() ==> lex_le(x@, orig[j as int]),
        decreases v.len() - j,
    {
        if j == v.len() {
            break ;
        }
        if str_lex_le(x.as_str(), v[j].as_str()) {
            break ;
        }
        j += 1;
    }
    proof {
        crate::text::lemma_insert_lex_at(x@, orig, j as int);
    }
    v.insert(j, x);
    proof {
        assert(v.deep_view() =~= orig.subrange(0, j as int) + seq![x@] + orig.subrange(
            j as int,
            orig.len() as int,
        ));
    }
}

/// Filters a raw attribute list by the ignore set and sorts the survivors,
/// yielding the canonical form used for attribute comparison.
pub fn normalize_attributes(attrs: &Vec<String>, ignored_attributes: &Vec<String>) -> (r: Vec<
    String,
>)
    ensures
        r.deep_view() == normalized_attrs(attrs.deep_view(), ignored_attributes.deep_view()),
{
    let ghost av = attrs.deep_view();
    let ghost ig = ignored_attributes.deep_view();
    let mut filtered: Vec<String> = Vec::new();
    let mut i: usize = 0;
    while i < attrs.len()
        invariant
            av == attrs.deep_view(),
            ig == ignored_attributes.deep_view(),
            i <= attrs.len(),
            filtered.deep_view() == kept_attrs(av.take(i as int), ig),
        decreases attrs.len() - i,
    {
        let ghost pre = filtered.deep_view();
        if !attr_is_dropped(&attrs[i], ignored_attributes) {
            filtered.push(attrs[i].clone());
        }
        proof {
            assert(av.take(i + 1).drop_last() =~= av.take(i as int));
            assert(av.take(i + 1).last() == av[i as int]);
            if !attr_dropped(av[i as int], ig) {
                assert(filtered.deep_view() =~= pre.push(av[i as int]));
            }
        }
        i += 1;
    }
    proof {
        assert(av.take(av.len() as int) =~= av);
    }
    let mut sorted: Vec<String> = Vec::new();
    let mut k: usize = filtered.len();
    while k > 0
        invariant
            k <= filtered.len(),
            filtered.deep_view() == kept_attrs(av, ig),
            sorted.deep_view() == sort_lex(
                filtered.deep_view().subrange(k as int, filtered.deep_view().len() as int),
            ),
        decreases k,
    {
        k -= 1;
        let ghost fv = filtered.deep_view();
        insert_sorted(&mut sorted, filtered[k].clone());
        proof {
            let tail = fv.subrange(k as int, fv.len() as int);
            assert(tail.len() > 0);
            assert(tail[0] == fv[k as int]);
            assert(tail.subrange(1, tail.len() as int) =~= fv.subrange(
                k + 1,
                fv.len() as int,
            ));
        }
    }
    proof {
        assert(filtered.deep_view().subrange(0, filtered.deep_view().len() as int)
            =~= filtered.deep_view());
    }
    sorted
}

/// The items of `items` whose key is absent from `other`, in order.
pub open spec fn missing_from(items: Seq<ItemModel>, other: Seq<ItemModel>) -> Seq<ItemModel>
    decreases items.len(),
{
    if items.len() == 0 {
        Seq::empty()
    } else {
        let rest = missing_from(items.drop_last(), other);
        if has_key(other, items.last()) {
            rest
        } else {
            rest.push(items.last())
        }
    }
}

/// The signature-mismatch record for a matched code item.
pub open spec fn sig_mismatch_record(m: ItemModel, spec_side: Seq<ItemModel>) -> SigMismatchView {
    SigMismatchView {
        code_item: m,
        spec_item: lookup(spec_side, m),
        first_diff_pos: first_diff(m.signature, lookup(spec_side, m).signature),
    }
}

/// The signature mismatches of the code side against `spec_side`, in
/// code-side order: matched pairs whose normalized forms differ.
pub open spec fn sig_mismatches_of(code: Seq<ItemModel>, spec_side: Seq<ItemModel>) -> Seq<
    SigMismatchView,
>
    decreases code.len(),
{
    if code.len() == 0 {
        Seq::empty()
    } else {
        let rest = sig_mismatches_of(code.drop_last(), spec_side);
        let m = code.last();
        if has_key(spec_side, m) && lookup(spec_side, m).normalized != m.normalized {
            rest.push(sig_mismatch_record(m, spec_side))
        } else {
            rest
        }
    }
}

/// The attribute mismatches of the code side against `spec_side`, in
/// code-side order: matched pairs whose canonical attribute lists differ.
pub open spec fn attr_mismatches_of(
    code: Seq<ItemModel>,
    spec_side: Seq<ItemModel>,
    ignored: Seq<Seq<char>>,
) -> Seq<AttrMismatchView>
    decreases code.len(),
{
    if code.len() == 0 {
        Seq::empty()
    } else {
        let rest = attr_mismatches_of(code.drop_last(), spec_side, ignored);
        let m = code.last();
        if has_key(spec_side, m) && normalized_attrs(lookup(spec_side, m).attributes, ignored)
            != normalized_attrs(m.attributes, ignored) {
            rest.push(AttrMismatchView { code_item: m, spec_item: lookup(spec_side, m) })
        } else {
            rest
        }
    }
}

/// `lookup` returns the item at `j` when `j` is the last position whose
/// key matches.
proof fn lemma_lookup_at(items: Seq<ItemModel>, m: ItemModel, j: int)
    requires
        0 <= j < items.len(),
        same_key(items[j], m),
        forall|k: int| j < k < items.len() ==> !same_key(items[k], m),
    ensures
        lookup(items, m) == items[j],
    decreases items.len(),
{
    if j == items.len() - 1 {
    } else {
        assert(!same_key(items.last(), m));
        lemma_lookup_at(items.drop_last(), m, j);
    }
}

/// Finds the position whose item key-based lookup keeps for `probe`'s key:
/// the last position of `items` with `probe`'s key.
fn find_entry(items: &Vec<RustItem>, probe: &RustItem) -> (r: Option<usize>)
    ensures
        match r {
            Some(j) => {
                &&& j < items@.len()
                &&& same_key(items.deep_view()[j as int], probe@)
                &&& items.deep_view()[j as int] == lookup(items.deep_view(), probe@)
                &&& has_key(items.deep_view(), probe@)
            },
            None => !has_key(items.deep_view(), probe@),
        },
{
    let ghost iv = items.deep_view();
    let mut i: usize = items.len();
    while i > 0
        invariant
            iv == items.deep_view(),
            i <= items.len(),
            forall|k: int| i <= k < iv.len() ==> !same_key(iv[k], probe@),
        decreases i,
    {
        i -= 1;
        if items[i].key_matches(probe) {
            proof {
                lemma_lookup_at(iv, probe@, i as int);
            }
            return Some(i);
        }
    }
    None
}

/// Compares the declaration lists of the two sides, matching purely by
/// identity key: an unmatched item lands in a "missing" list; a matched
/// pair is reported when its normalized forms differ and, independently,
/// when its canonical attribute lists differ.
pub fn compare_items(
    code_items: Vec<RustItem>,
    spec_items: Vec<RustItem>,
    ignored_attributes: &Vec<String>,
) -> (r: ComparisonResult)
    ensures
        r.missing_in_spec.deep_view() == missing_from(
            code_items.deep_view(),
            spec_items.deep_view(),
        ),
        r.missing_in_code.deep_view() == missing_from(
            spec_items.deep_view(),
            code_items.deep_view(),
        ),
        r.signature_mismatches.deep_view() == sig_mismatches_of(
            code_items.deep_view(),
            spec_items.deep_view(),
        ),
        r.attribute_mismatches.deep_view() == attr_mismatches_of(
            code_items.deep_view(),
            spec_items.deep_view(),
            ignored_attributes.deep_view(),
        ),
{
    let ghost cv = code_items.deep_view();
    let ghost sv = spec_items.deep_view();
    let ghost ig = ignored_attributes.deep_view();

    let mut missing_in_spec: Vec<RustItem> = Vec::new();
    let mut missing_in_code: Vec<RustItem> = Vec::new();
    let mut signature_mismatches: Vec<SignatureMismatch> = Vec::new();
    let mut attribute_mismatches: Vec<AttributeMismatch> = Vec::new();

    let mut i: usize = 0;
    while i < code_items.len()
        invariant
            cv == code_items.deep_view(),
            sv == spec_items.deep_view(),
            ig == ignored_attributes.deep_view(),
            i <= code_items.len(),
            missing_in_spec.deep_view() == missing_from(cv.take(i as int), sv),
            signature_mismatches.deep_view() == sig_mismatches_of(cv.take(i as int), sv),
            attribute_mismatches.deep_view() == attr_mismatches_of(cv.take(i as int), sv, ig),
        decreases code_items.len() - i,
    {
        let code_item = &code_items[i];
        proof {
            assert(cv.take(i + 1).drop_last() =~= cv.take(i as int));
            assert(cv.take(i + 1).last() == cv[i as int]);
        }
        match find_entry(&spec_items, code_item) {
            Some(j) => {
                let spec_item = &spec_items[j];
                if !(code_item.normalized == spec_item.normalized) {
                    let ghost pre = signature_mismatches.deep_view();
                    let pos = find_first_diff(
                        code_item.signature.as_str(),
                        spec_item.signature.as_str(),
                    );
                    signature_mismatches.push(
                        SignatureMismatch {
                            code_item: code_item.duplicate(),
                            spec_item: spec_item.duplicate(),
                            first_diff_pos: pos,
                        },
                    );
                    proof {
                        assert(signature_mismatches.deep_view() =~= pre.push(
                            sig_mismatch_record(cv[i as int], sv),
                        ));
                    }
                }
                let code_norm = normalize_attributes(&code_item.attributes, ignored_attributes);
                let spec_norm = normalize_attributes(&spec_item.attributes, ignored_attributes);
                if !string_vecs_equal(&code_norm, &spec_norm) {
                    let ghost pre = attribute_mismatches.deep_view();
                    attribute_mismatches.push(
                        AttributeMismatch {
                            code_item: code_item.duplicate(),
                            spec_item: spec_item.duplicate(),
                        },
                    );
                    proof {
                        assert(attribute_mismatches.deep_view() =~= pre.push(
                            AttrMismatchView {
                                code_item: cv[i as int],
                                spec_item: lookup(sv, cv[i as int]),
                            },
                        ));
                    }
                }
            },
            None => {
                let ghost pre = missing_in_spec.deep_view();
                missing_in_spec.push(code_item.duplicate());
                proof {
                    assert(missing_in_spec.deep_view() =~= pre.push(cv[i as int]));
                }
            },
        }
        i += 1;
    }
    proof {
        assert(cv.take(cv.len() as int) =~= cv);
    }

    let mut k: usize = 0;
    while k < spec_items.len()
        invariant
            cv == code_items.deep_view(),
            sv == spec_items.deep_view(),
            k <= spec_items.len(),
            missing_in_code.deep_view() == missing_from(sv.take(k as int), cv),
        decreases spec_items.len() - k,
    {
        let spec_item = &spec_items[k];
        proof {
            assert(sv.take(k + 1).drop_last() =~= sv.take(k as int));
            assert(sv.take(k + 1).last() == sv[k as int]);
        }
        if find_entry(&code_items, spec_item).is_none() {
            let ghost pre = missing_in_code.deep_view();
            missing_in_code.push(spec_item.duplicate());
            proof {
                assert(missing_in_code.deep_view() =~= pre.push(sv[k as int]));
            }
        }
        k += 1;
    }
    proof {
        assert(sv.take(sv.len() as int) =~= sv);
    }

    ComparisonResult { missing_in_spec, missing_in_code, signature_mismatches, attribute_mismatches }
}

proof fn lemma_identity_prefix(items: Seq<ItemModel>, ignored: Seq<Seq<char>>, n: int)
    requires
        forall|i: int, j: int| 0 <= i < j < items.len() ==> !same_key(items[i], items[j]),
        0 <= n <= items.len(),
    ensures
        missing_from(items.take(n), items) == Seq::<ItemModel>::empty(),
        sig_mismatches_of(items.take(n), items) == Seq::<SigMismatchView>::empty(),
        attr_mismatches_of(items.take(n), items, ignored) == Seq::<AttrMismatchView>::empty(),
    decreases n,
{
    if n == 0 {
        assert(items.take(0) =~= Seq::<ItemModel>::empty());
    } else {
        lemma_identity_prefix(items, ignored, n - 1);
        assert(items.take(n).drop_last() =~= items.take(n - 1));
        let m = items[n - 1];
        assert(items.take(n).last() == m);
        assert(same_key(m, m));
        assert(has_key(items, m));
        assert forall|k: int| n - 1 < k < items.len() implies !same_key(items[k], m) by {
            assert(!same_key(items[n - 1], items[k]));
        }
        lemma_lookup_at(items, m, n - 1);
    }
}

/// Law (identity): comparing a declaration list against itself yields an
/// empty diff, provided its identity keys are unique — the invariant one
/// extraction pass guarantees for lookup purposes. (With two items of
/// equal key but different normalized forms on one side, the last-seen
/// representative that lookup keeps would differ from the earlier item,
/// so uniqueness is genuinely needed here.)
pub proof fn lemma_identity_diff_empty(items: Seq<ItemModel>, ignored: Seq<Seq<char>>)
    requires
        forall|i: int, j: int| 0 <= i < j < items.len() ==> !same_key(items[i], items[j]),
    ensures
        missing_from(items, items) == Seq::<ItemModel>::empty(),
        sig_mismatches_of(items, items) == Seq::<SigMismatchView>::empty(),
        attr_mismatches_of(items, items, ignored) == Seq::<AttrMismatchView>::empty(),
{
    lemma_identity_prefix(items, ignored, items.len() as int);
    assert(items.take(items.len() as int) =~= items);
}

/// Law (whitespace insensitivity): when every matched code item's
/// normalized form equals its spec-side representative's — as it is for
/// two structurally identical declarations that differ only in layout —
/// no signature mismatch is reported, whatever the display signatures
/// look like.
pub proof fn lemma_equal_normalized_no_sig_mismatch(
    code: Seq<ItemModel>,
    spec_side: Seq<ItemModel>,
)
    requires
        forall|i: int| 0 <= i < code.len() && has_key(spec_side, code[i]) ==> code[i].normalized
            == lookup(spec_side, code[i]).normalized,
    ensures
        sig_mismatches_of(code, spec_side) == Seq::<SigMismatchView>::empty(),
    decreases code.len(),
{
    if code.len() > 0 {
        assert forall|i: int|
            0 <= i < code.drop_last().len() && has_key(
                spec_side,
                code.drop_last()[i],
            ) implies code.drop_last()[i].normalized == lookup(
            spec_side,
            code.drop_last()[i],
        ).normalized by {
            assert(code.drop_last()[i] == code[i]);
        }
        lemma_equal_normalized_no_sig_mismatch(code.drop_last(), spec_side);
        assert(code.last() == code[code.len() - 1]);
    }
}

/// The membership test the missing lists apply against `other`.
pub open spec fn absent_from(other: Seq<ItemModel>) -> spec_fn(ItemModel) -> bool {
    |m: ItemModel| !has_key(other, m)
}

proof fn lemma_missing_from_multiset(items: Seq<ItemModel>, other: Seq<ItemModel>)
    ensures
        missing_from(items, other).to_multiset() == items.to_multiset().filter(
            absent_from(other),
        ),
    decreases items.len(),
{
    broadcast use vstd::seq_lib::group_to_multiset_ensures;
    broadcast use vstd::multiset::group_multiset_axioms;

    if items.len() == 0 {
        assert(missing_from(items, other).to_multiset() =~= items.to_multiset().filter(
            absent_from(other),
        ));
    } else {
        let pre = items.drop_last();
        let last = items.last();
        lemma_missing_from_multiset(pre, other);
        assert(pre.push(last) =~= items);
        assert(items.to_multiset() =~= pre.to_multiset().insert(last));
        if has_key(other, last) {
            assert(missing_from(items, other).to_multiset() =~= items.to_multiset().filter(
                absent_from(other),
            ));
        } else {
            assert(missing_from(items, other).to_multiset() =~= pre.to_multiset().filter(
                absent_from(other),
            ).insert(last));
            assert(items.to_multiset().filter(absent_from(other)) =~= pre.to_multiset().filter(
                absent_from(other),
            ).insert(last));
        }
    }
}

/// Law (order independence): permuting either declaration list changes
/// only the order of the two missing lists, never which items they hold
/// nor how often — matching is purely key-based.
pub proof fn lemma_missing_order_independence(
    code1: Seq<ItemModel>,
    code2: Seq<ItemModel>,
    spec1: Seq<ItemModel>,
    spec2: Seq<ItemModel>,
)
    requires
        code1.to_multiset() == code2.to_multiset(),
        spec1.to_multiset() == spec2.to_multiset(),
    ensures
        missing_from(code1, spec1).to_multiset() == missing_from(code2, spec2).to_multiset(),
        missing_from(spec1, code1).to_multiset() == missing_from(spec2, code2).to_multiset(),
{
    broadcast use vstd::seq_lib::group_to_multiset_ensures;
    broadcast use vstd::multiset::group_multiset_axioms;

    assert forall|m: ItemModel| has_key(spec1, m) == has_key(spec2, m) by {
        if has_key(spec1, m) {
            let i = choose|i: int| 0 <= i < spec1.len() && same_key(spec1[i], m);
            assert(spec1.contains(spec1[i]));
            assert(spec2.to_multiset().count(spec1[i]) > 0);
            assert(spec2.contains(spec1[i]));
            let j = choose|j: int| 0 <= j < spec2.len() && spec2[j] == spec1[i];
            assert(same_key(spec2[j], m));
        }
        if has_key(spec2, m) {
            let i = choose|i: int| 0 <= i < spec2.len() && same_key(spec2[i], m);
            assert(spec2.contains(spec2[i]));
            assert(spec1.to_multiset().count(spec2[i]) > 0);
            assert(spec1.contains(spec2[i]));
            let j = choose|j: int| 0 <= j < spec1.len() && spec1[j] == spec2[i];
            assert(same_key(spec1[j], m));
        }
    }
    assert forall|m: ItemModel| has_key(code1, m) == has_key(code2, m) by {
        if has_key(code1, m) {
            let i = choose|i: int| 0 <= i < code1.len() && same_key(code1[i], m);
            assert(code1.contains(code1[i]));
            assert(code2.to_multiset().count(code1[i]) > 0);
            assert(code2.contains(code1[i]));
            let j = choose|j: int| 0 <= j < code2.len() && code2[j] == code1[i];
            assert(same_key(code2[j], m));
        }
        if has_key(code2, m) {
            let i = choose|i: int| 0 <= i < code2.len() && same_key(code2[i], m);
            assert(code2.contains(code2[i]));
            assert(code1.to_multiset().count(code2[i]) > 0);
            assert(code1.contains(code2[i]));
            let j = choose|j: int| 0 <= j < code1.len() && code1[j] == code2[i];
            assert(same_key(code1[j], m));
        }
    }
    lemma_missing_from_multiset(code1, spec1);
    lemma_missing_from_multiset(code2, spec2);
    lemma_missing_from_multiset(spec1, code1);
    lemma_missing_from_multiset(spec2, code2);
    assert(code1.to_multiset().filter(absent_from(spec1)) =~= code2.to_multiset().filter(
        absent_from(spec2),
    ));
    assert(spec1.to_multiset().filter(absent_from(code1)) =~= spec2.to_multiset().filter(
        absent_from(code2),
    ));
}

/// The canonical attribute lists of two sides are equal exactly when
/// their surviving attributes agree as multisets: the source order of
/// attributes never matters to the attribute comparison.
pub proof fn lemma_normalized_attrs_eq_iff_same_multiset(
    a: Seq<Seq<char>>,
    b: Seq<Seq<char>>,
    ignored: Seq<Seq<char>>,
)
    ensures
        (normalized_attrs(a, ignored) == normalized_attrs(b, ignored)) <==> (kept_attrs(
            a,
            ignored,
        ).to_multiset() == kept_attrs(b, ignored).to_multiset()),
{
    crate::text::lemma_sort_lex_ensures(kept_attrs(a, ignored));
    crate::text::lemma_sort_lex_ensures(kept_attrs(b, ignored));
    if kept_attrs(a, ignored).to_multiset() == kept_attrs(b, ignored).to_multiset() {
        crate::text::lemma_sorted_lex_unique(
            sort_lex(kept_attrs(a, ignored)),
            sort_lex(kept_attrs(b, ignored)),
        );
    }
}

/// Law (attribute ignore): an attribute whose text holds an ignored name
/// takes no part in the canonical attribute list, so it can never cause
/// a mismatch; one that holds no ignored name is kept, so a genuine
/// one-sided attribute still surfaces.
pub proof fn lemma_attr_ignore(attrs: Seq<Seq<char>>, a: Seq<char>, ignored: Seq<Seq<char>>)
    ensures
        attr_dropped(a, ignored) ==> kept_attrs(attrs.push(a), ignored) == kept_attrs(
            attrs,
            ignored,
        ),
        attr_dropped(a, ignored) ==> normalized_attrs(attrs.push(a), ignored)
            == normalized_attrs(attrs, ignored),
        !attr_dropped(a, ignored) ==> kept_attrs(attrs.push(a), ignored) == kept_attrs(
            attrs,
            ignored,
        ).push(a),
{
    assert(attrs.push(a).drop_last() =~= attrs);
    assert(attrs.push(a).last() == a);
}

} // verus!
