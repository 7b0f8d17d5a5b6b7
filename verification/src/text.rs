//! Verified character-level utilities on strings: equality, substring
//! search, newline counting, and a lexicographic order used to put
//! attribute lists into a canonical order.

use vstd::prelude::*;

use vstd::multiset::Multiset;

verus! {

/// Clones every string of a vector, keeping the contents.
pub fn clone_strings(v: &Vec<String>) -> (r: Vec<String>)
    ensures
        r.deep_view() == v.deep_view(),
{
    let mut r: Vec<String> = Vec::new();
    let mut i: usize = 0;
    while i < v.len()
        invariant
            i <= v.len(),
            r.deep_view() =~= v.deep_view().subrange(0, i as int),
        decreases v.len() - i,
    {
        let ghost pre = r.deep_view();
        r.push(v[i].clone());
        proof {
            assert(r.deep_view() =~= pre.push(v.deep_view()[i as int]));
        }
        i += 1;
    }
    proof {
        assert(r.deep_view() =~= v.deep_view());
    }
    r
}

/// Whether two vectors hold the same strings in the same order.
pub fn string_vecs_equal(a: &Vec<String>, b: &Vec<String>) -> (r: bool)
    ensures
        r == (a.deep_view() == b.deep_view()),
{
    if a.len() != b.len() {
        proof {
            assert(a.deep_view().len() == a@.len());
            assert(b.deep_view().len() == b@.len());
        }
        return false;
    }
    let mut i: usize = 0;
    while i < a.len()
        invariant
            a@.len() == b@.len(),
            i <= a.len(),
            forall|j: int| 0 <= j < i ==> a.deep_view()[j] == b.deep_view()[j],
        decreases a.len() - i,
    {
        if !(a[i] == b[i]) {
            proof {
                assert(a.deep_view()[i as int] == a@[i as int]@);
                assert(b.deep_view()[i as int] == b@[i as int]@);
            }
            return false;
        }
        i += 1;
    }
    proof {
        assert(a.deep_view() =~= b.deep_view());
    }
    true
}

/// Character-for-character equality of two string slices.
pub fn str_eq(a: &str, b: &str) -> (r: bool)
    ensures
        r == (a@ == b@),
{
    let alen = a.unicode_len();
    let blen = b.unicode_len();
    if alen != blen {
        return false;
    }
    let mut i: usize = 0;
    while i < alen
        invariant
            alen == a@.len(),
            blen == b@.len(),
            alen == blen,
            i <= alen,
            forall|j: int| 0 <= j < i ==> a@[j] == b@[j],
        decreases alen - i,
    {
        if a.get_char(i) != b.get_char(i) {
            return false;
        }
        i += 1;
    }
    proof {
        assert(a@ =~= b@);
    }
    true
}

/// Whether `needle` occurs in `hay` starting at position `at`.
pub open spec fn matches_at(hay: Seq<char>, needle: Seq<char>, at: int) -> bool {
    &&& 0 <= at
    &&& at + needle.len() <= hay.len()
    &&& hay.subrange(at, at + needle.len()) == needle
}

/// The position of the first occurrence of `needle` in `hay`, if any.
pub open spec fn first_match(hay: Seq<char>, needle: Seq<char>) -> Option<int>
    decreases hay.len(),
{
    if needle.len() > hay.len() {
        None
    } else if hay.subrange(0, needle.len() as int) == needle {
        Some(0)
    } else if hay.len() == 0 {
        None
    } else {
        match first_match(hay.subrange(1, hay.len() as int), needle) {
            Some(i) => Some(i + 1),
            None => None,
        }
    }
}

/// `first_match` names the least position at which `needle` occurs.
pub proof fn lemma_first_match(hay: Seq<char>, needle: Seq<char>)
    ensures
        match first_match(hay, needle) {
            Some(i) => matches_at(hay, needle, i) && forall|j: int|
                0 <= j < i ==> !matches_at(hay, needle, j),
            None => forall|j: int| !matches_at(hay, needle, j),
        },
    decreases hay.len(),
{
    if needle.len() > hay.len() {
        assert forall|j: int| !matches_at(hay, needle, j) by {}
    } else if hay.subrange(0, needle.len() as int) == needle {
        assert(matches_at(hay, needle, 0));
    } else if hay.len() == 0 {
        assert(needle.len() == 0);
        assert(hay.subrange(0, 0) =~= needle);
        assert(false);
    } else {
        let tail = hay.subrange(1, hay.len() as int);
        lemma_first_match(tail, needle);
        assert forall|j: int| 0 <= j && matches_at(tail, needle, j) implies matches_at(
            hay,
            needle,
            j + 1,
        ) by {
            assert(tail.subrange(j, j + needle.len()) =~= hay.subrange(
                j + 1,
                j + 1 + needle.len(),
            ));
        }
        assert forall|j: int| 0 < j && matches_at(hay, needle, j) implies matches_at(
            tail,
            needle,
            j - 1,
        ) by {
            assert(hay.subrange(j, j + needle.len()) =~= tail.subrange(
                j - 1,
                j - 1 + needle.len(),
            ));
        }
        match first_match(tail, needle) {
            Some(i) => {
                assert(matches_at(hay, needle, i + 1));
                assert forall|j: int| 0 <= j < i + 1 implies !matches_at(hay, needle, j) by {
                    if j > 0 {
                        assert(!matches_at(tail, needle, j - 1));
                    }
                }
            },
            None => {
                assert forall|j: int| !matches_at(hay, needle, j) by {
                    if j > 0 {
                        assert(!matches_at(tail, needle, j - 1));
                    }
                }
            },
        }
    }
}

/// Whether `hay` holds `needle` somewhere.
pub open spec fn contains_seq(hay: Seq<char>, needle: Seq<char>) -> bool {
    first_match(hay, needle) is Some
}

/// Checks whether `needle` occurs in `hay` starting exactly at `at`.
fn check_match_at(hay: &str, needle: &str, at: usize) -> (r: bool)
    requires
        at + needle@.len() <= hay@.len(),
    ensures
        r == matches_at(hay@, needle@, at as int),
{
    let hlen = hay.unicode_len();
    let nlen = needle.unicode_len();
    let mut k: usize = 0;
    while k < nlen
        invariant
            hlen == hay@.len(),
            nlen == needle@.len(),
            at + nlen <= hlen,
            k <= nlen,
            forall|j: int| 0 <= j < k ==> hay@[at + j] == needle@[j],
        decreases nlen - k,
    {
        if hay.get_char(at + k) != needle.get_char(k) {
            assert(hay@.subrange(at as int, at + needle@.len())[k as int] != needle@[k as int]);
            return false;
        }
        k += 1;
    }
    proof {
        assert(hay@.subrange(at as int, at + needle@.len()) =~= needle@);
    }
    true
}

/// The position of the first occurrence of `needle` in `hay`, if any.
pub fn find_first(hay: &str, needle: &str) -> (r: Option<usize>)
    ensures
        match r {
            Some(i) => first_match(hay@, needle@) == Some(i as int),
            None => first_match(hay@, needle@) is None,
        },
{
    proof {
        lemma_first_match(hay@, needle@);
    }
    let hlen = hay.unicode_len();
    let nlen = needle.unicode_len();
    if nlen > hlen {
        return None;
    }
    if nlen == 0 {
        proof {
            assert(hay@.subrange(0, 0) =~= needle@);
        }
        return Some(0);
    }
    let mut i: usize = 0;
    while i <= hlen - nlen
        invariant
            hlen == hay@.len(),
            nlen == needle@.len(),
            0 < nlen <= hlen,
            i <= hlen - nlen + 1,
            forall|j: int| 0 <= j < i ==> !matches_at(hay@, needle@, j),
            match first_match(hay@, needle@) {
                Some(m) => matches_at(hay@, needle@, m) && forall|j: int|
                    0 <= j < m ==> !matches_at(hay@, needle@, j),
                None => forall|j: int| !matches_at(hay@, needle@, j),
            },
        decreases hlen - nlen - i + 1,
    {
        if check_match_at(hay, needle, i) {
            return Some(i);
        }
        i += 1;
    }
    assert forall|j: int| !matches_at(hay@, needle@, j) by {
        if j > hlen - nlen {
            assert(!matches_at(hay@, needle@, j));
        }
    }
    None
}

/// How many newline characters stand in the first `upto` characters of `s`.
pub open spec fn newlines_before(s: Seq<char>, upto: int) -> nat
    decreases upto,
{
    if upto <= 0 {
        0
    } else if upto > s.len() {
        newlines_before(s, s.len() as int)
    } else {
        newlines_before(s, upto - 1) + if s[upto - 1] == '\n' {
            1nat
        } else {
            0nat
        }
    }
}

/// Counts the newline characters among the first `upto` characters of `s`.
pub fn count_newlines_before(s: &str, upto: usize) -> (r: usize)
    requires
        upto <= s@.len(),
    ensures
        r == newlines_before(s@, upto as int),
{
    let mut i: usize = 0;
    let mut count: usize = 0;
    while i < upto
        invariant
            upto <= s@.len(),
            i <= upto,
            count == newlines_before(s@, i as int),
            count <= i,
        decreases upto - i,
    {
        if s.get_char(i) == '\n' {
            count += 1;
        }
        i += 1;
    }
    count
}

/// Lexicographic order on character sequences: the order the canonical
/// attribute lists are sorted by.
pub open spec fn lex_le(a: Seq<char>, b: Seq<char>) -> bool
    decreases a.len(),
{
    if a.len() == 0 {
        true
    } else if b.len() == 0 {
        false
    } else if a[0] == b[0] {
        lex_le(a.subrange(1, a.len() as int), b.subrange(1, b.len() as int))
    } else {
        a[0] < b[0]
    }
}

/// `lex_le` is reflexive.
pub proof fn lemma_lex_le_reflexive(a: Seq<char>)
    ensures
        lex_le(a, a),
    decreases a.len(),
{
    if a.len() > 0 {
        lemma_lex_le_reflexive(a.subrange(1, a.len() as int));
    }
}

/// `lex_le` is total.
pub proof fn lemma_lex_le_total(a: Seq<char>, b: Seq<char>)
    ensures
        lex_le(a, b) || lex_le(b, a),
    decreases a.len(),
{
    if a.len() == 0 {
        assert(lex_le(a, b));
    } else if b.len() == 0 {
        assert(lex_le(b, a));
    } else if a[0] == b[0] {
        lemma_lex_le_total(a.subrange(1, a.len() as int), b.subrange(1, b.len() as int));
    } else if a[0] < b[0] {
        assert(lex_le(a, b));
    } else {
        assert(b[0] < a[0]);
        assert(lex_le(b, a));
    }
}

/// `lex_le` in both directions only holds of equal sequences.
pub proof fn lemma_lex_le_antisymmetric(a: Seq<char>, b: Seq<char>)
    requires
        lex_le(a, b),
        lex_le(b, a),
    ensures
        a == b,
    decreases a.len(),
{
    if a.len() == 0 {
        assert(b.len() == 0);
        assert(a =~= b);
    } else {
        assert(b.len() > 0);
        assert(a[0] == b[0]);
        lemma_lex_le_antisymmetric(
            a.subrange(1, a.len() as int),
            b.subrange(1, b.len() as int),
        );
        assert(a.len() == b.len());
        assert forall|i: int| 0 <= i < a.len() implies a[i] == b[i] by {
            if i > 0 {
                assert(a.subrange(1, a.len() as int)[i - 1] == b.subrange(
                    1,
                    b.len() as int,
                )[i - 1]);
            }
        }
        assert(a =~= b);
    }
}

/// `lex_le` is transitive.
pub proof fn lemma_lex_le_transitive(a: Seq<char>, b: Seq<char>, c: Seq<char>)
    requires
        lex_le(a, b),
        lex_le(b, c),
    ensures
        lex_le(a, c),
    decreases a.len(),
{
    if a.len() == 0 {
    } else if b.len() == 0 {
    } else if c.len() == 0 {
    } else {
        if a[0] == b[0] && b[0] == c[0] {
            lemma_lex_le_transitive(
                a.subrange(1, a.len() as int),
                b.subrange(1, b.len() as int),
                c.subrange(1, c.len() as int),
            );
        }
    }
}

/// Decides `lex_le` on two string slices.
pub fn str_lex_le(a: &str, b: &str) -> (r: bool)
    ensures
        r == lex_le(a@, b@),
{
    let alen = a.unicode_len();
    let blen = b.unicode_len();
    proof {
        assert(a@.subrange(0, alen as int) =~= a@);
        assert(b@.subrange(0, blen as int) =~= b@);
    }
    let mut i: usize = 0;
    loop
        invariant
            alen == a@.len(),
            blen == b@.len(),
            i <= alen,
            i <= blen,
            lex_le(a@, b@) == lex_le(
                a@.subrange(i as int, alen as int),
                b@.subrange(i as int, blen as int),
            ),
        decreases alen - i,
    {
        proof {
            lemma_lex_le_step(a@, b@, i as int);
        }
        if i >= alen {
            assert(a@.subrange(i as int, alen as int).len() == 0);
            return true;
        }
        if i >= blen {
            assert(b@.subrange(i as int, blen as int).len() == 0);
            assert(a@.subrange(i as int, alen as int).len() > 0);
            return false;
        }
        let ca = a.get_char(i);
        let cb = b.get_char(i);
        if ca != cb {
            assert(a@.subrange(i as int, alen as int)[0] == ca);
            assert(b@.subrange(i as int, blen as int)[0] == cb);
            return ca < cb;
        }
        proof {
            let sa = a@.subrange(i as int, alen as int);
            let sb = b@.subrange(i as int, blen as int);
            assert(sa[0] == ca && sb[0] == cb);
            assert(sa.subrange(1, sa.len() as int) =~= a@.subrange(i + 1, alen as int));
            assert(sb.subrange(1, sb.len() as int) =~= b@.subrange(i + 1, blen as int));
        }
        i += 1;
    }
}

proof fn lemma_lex_le_step(a: Seq<char>, b: Seq<char>, i: int)
    requires
        0 <= i <= a.len(),
        0 <= i <= b.len(),
    ensures
        a.subrange(i, a.len() as int).len() == a.len() - i,
        b.subrange(i, b.len() as int).len() == b.len() - i,
{
}

/// `x` inserted into `s` before the first element it is `lex_le` to.
pub open spec fn insert_lex(x: Seq<char>, s: Seq<Seq<char>>) -> Seq<Seq<char>>
    decreases s.len(),
{
    if s.len() == 0 {
        seq![x]
    } else if lex_le(x, s[0]) {
        seq![x] + s
    } else {
        seq![s[0]] + insert_lex(x, s.subrange(1, s.len() as int))
    }
}

/// `s` sorted by `lex_le`, by insertion.
pub open spec fn sort_lex(s: Seq<Seq<char>>) -> Seq<Seq<char>>
    decreases s.len(),
{
    if s.len() == 0 {
        Seq::empty()
    } else {
        insert_lex(s[0], sort_lex(s.subrange(1, s.len() as int)))
    }
}

/// Sorted by `lex_le`: every earlier element is `lex_le` every later one.
pub open spec fn sorted_lex(s: Seq<Seq<char>>) -> bool {
    forall|i: int, j: int| 0 <= i < j < s.len() ==> lex_le(s[i], s[j])
}

proof fn lemma_empty_to_multiset()
    ensures
        Seq::<Seq<char>>::empty().to_multiset() == Multiset::<Seq<char>>::empty(),
{
    broadcast use vstd::multiset::group_multiset_axioms;

    assert forall|w: Seq<char>| Seq::<Seq<char>>::empty().to_multiset().count(w) == 0 by {
        vstd::seq_lib::to_multiset_contains(Seq::<Seq<char>>::empty(), w);
    }
    assert(Seq::<Seq<char>>::empty().to_multiset() =~= Multiset::<Seq<char>>::empty());
}

proof fn lemma_singleton_concat_multiset(x: Seq<char>, s: Seq<Seq<char>>)
    ensures
        (seq![x] + s).to_multiset() == s.to_multiset().insert(x),
{
    broadcast use vstd::multiset::group_multiset_axioms;

    vstd::seq_lib::lemma_multiset_commutative(seq![x], s);
    vstd::seq_lib::to_multiset_build(Seq::<Seq<char>>::empty(), x);
    lemma_empty_to_multiset();
    assert(Seq::<Seq<char>>::empty().push(x) =~= seq![x]);
    assert forall|w: Seq<char>| (seq![x] + s).to_multiset().count(w) == s.to_multiset().insert(
        x,
    ).count(w) by {
        assert((seq![x] + s).to_multiset().count(w) == seq![x].to_multiset().count(w)
            + s.to_multiset().count(w));
    }
    assert((seq![x] + s).to_multiset() =~= s.to_multiset().insert(x));
}

proof fn lemma_insert_lex_ensures(x: Seq<char>, s: Seq<Seq<char>>)
    requires
        sorted_lex(s),
    ensures
        sorted_lex(insert_lex(x, s)),
        insert_lex(x, s).to_multiset() == s.to_multiset().insert(x),
    decreases s.len(),
{
    broadcast use vstd::multiset::group_multiset_axioms;

    if s.len() == 0 {
        assert(seq![x] =~= seq![x] + s);
        lemma_singleton_concat_multiset(x, s);
    } else if lex_le(x, s[0]) {
        let r = seq![x] + s;
        assert forall|i: int, j: int| 0 <= i < j < r.len() implies lex_le(r[i], r[j]) by {
            if i == 0 && j > 1 {
                lemma_lex_le_transitive(x, s[0], s[j - 1]);
            }
        }
        lemma_singleton_concat_multiset(x, s);
    } else {
        let tail = s.subrange(1, s.len() as int);
        assert forall|i: int, j: int| 0 <= i < j < tail.len() implies lex_le(
            tail[i],
            tail[j],
        ) by {
            assert(tail[i] == s[i + 1] && tail[j] == s[j + 1]);
        }
        lemma_insert_lex_ensures(x, tail);
        let r2 = insert_lex(x, tail);
        let r = seq![s[0]] + r2;
        assert forall|j: int| 0 <= j < r2.len() implies lex_le(s[0], r2[j]) by {
            vstd::seq_lib::to_multiset_contains(r2, r2[j]);
            assert(r2.to_multiset().count(r2[j]) > 0);
            if r2[j] == x {
                lemma_lex_le_total(x, s[0]);
            } else {
                assert(tail.to_multiset().count(r2[j]) > 0);
                vstd::seq_lib::to_multiset_contains(tail, r2[j]);
                assert(tail.contains(r2[j]));
                let k = choose|k: int| 0 <= k < tail.len() && tail[k] == r2[j];
                assert(tail[k] == s[k + 1]);
                assert(lex_le(s[0], s[k + 1]));
            }
        }
        assert forall|i: int, j: int| 0 <= i < j < r.len() implies lex_le(r[i], r[j]) by {
            if i > 0 {
                assert(r[i] == r2[i - 1] && r[j] == r2[j - 1]);
            } else {
                assert(r[j] == r2[j - 1]);
            }
        }
        lemma_singleton_concat_multiset(s[0], r2);
        lemma_singleton_concat_multiset(s[0], tail);
        assert(s =~= seq![s[0]] + tail);
        assert(s.to_multiset() == tail.to_multiset().insert(s[0]));
        assert(r.to_multiset() == tail.to_multiset().insert(x).insert(s[0]));
        assert forall|w: Seq<char>| tail.to_multiset().insert(x).insert(s[0]).count(w)
            == tail.to_multiset().insert(s[0]).insert(x).count(w) by {}
        assert(tail.to_multiset().insert(x).insert(s[0]) =~= tail.to_multiset().insert(
            s[0],
        ).insert(x));
    }
}

/// `sort_lex` yields a sequence sorted by `lex_le` that holds exactly
/// its input's elements: the canonical order is a permutation.
pub proof fn lemma_sort_lex_ensures(s: Seq<Seq<char>>)
    ensures
        sorted_lex(sort_lex(s)),
        sort_lex(s).to_multiset() == s.to_multiset(),
    decreases s.len(),
{
    if s.len() == 0 {
        lemma_empty_to_multiset();
        assert(s =~= Seq::<Seq<char>>::empty());
    } else {
        let tail = s.subrange(1, s.len() as int);
        lemma_sort_lex_ensures(tail);
        lemma_insert_lex_ensures(s[0], sort_lex(tail));
        lemma_singleton_concat_multiset(s[0], tail);
        assert(s =~= seq![s[0]] + tail);
        assert(sort_lex(s).to_multiset() == tail.to_multiset().insert(s[0]));
    }
}

/// Two sequences sorted by `lex_le` that hold the same elements are the
/// same sequence: the sorted form is canonical.
pub proof fn lemma_sorted_lex_unique(a: Seq<Seq<char>>, b: Seq<Seq<char>>)
    requires
        sorted_lex(a),
        sorted_lex(b),
        a.to_multiset() == b.to_multiset(),
    ensures
        a == b,
    decreases a.len(),
{
    broadcast use vstd::multiset::group_multiset_axioms;

    vstd::seq_lib::to_multiset_len(a);
    vstd::seq_lib::to_multiset_len(b);
    assert(a.len() == b.len());
    if a.len() == 0 {
        assert(a =~= b);
    } else {
        assert(a.contains(a[0]));
        vstd::seq_lib::to_multiset_contains(a, a[0]);
        vstd::seq_lib::to_multiset_contains(b, a[0]);
        assert(b.contains(a[0]));
        let k = choose|k: int| 0 <= k < b.len() && b[k] == a[0];
        if k > 0 {
            assert(lex_le(b[0], b[k]));
        } else {
            lemma_lex_le_reflexive(b[0]);
        }
        assert(lex_le(b[0], a[0]));
        assert(b.contains(b[0]));
        vstd::seq_lib::to_multiset_contains(b, b[0]);
        vstd::seq_lib::to_multiset_contains(a, b[0]);
        assert(a.contains(b[0]));
        let k2 = choose|k2: int| 0 <= k2 < a.len() && a[k2] == b[0];
        if k2 > 0 {
            assert(lex_le(a[0], a[k2]));
        } else {
            lemma_lex_le_reflexive(a[0]);
        }
        assert(lex_le(a[0], b[0]));
        lemma_lex_le_antisymmetric(a[0], b[0]);
        let ta = a.subrange(1, a.len() as int);
        let tb = b.subrange(1, b.len() as int);
        assert forall|i: int, j: int| 0 <= i < j < ta.len() implies lex_le(ta[i], ta[j]) by {
            assert(ta[i] == a[i + 1] && ta[j] == a[j + 1]);
        }
        assert forall|i: int, j: int| 0 <= i < j < tb.len() implies lex_le(tb[i], tb[j]) by {
            assert(tb[i] == b[i + 1] && tb[j] == b[j + 1]);
        }
        vstd::seq_lib::to_multiset_remove(a, 0);
        vstd::seq_lib::to_multiset_remove(b, 0);
        assert(a.remove(0) =~= ta);
        assert(b.remove(0) =~= tb);
        assert(ta.to_multiset() == tb.to_multiset());
        lemma_sorted_lex_unique(ta, tb);
        assert forall|i: int| 0 <= i < a.len() implies a[i] == b[i] by {
            if i > 0 {
                assert(ta[i - 1] == tb[i - 1]);
            }
        }
        assert(a =~= b);
    }
}

/// Where `j` is the first position of `s` whose element `x` is `lex_le`
/// to (or the length when there is none), inserting splits `s` at `j`.
pub proof fn lemma_insert_lex_at(x: Seq<char>, s: Seq<Seq<char>>, j: int)
    requires
        0 <= j <= s.len(),
        forall|k: int| 0 <= k < j ==> !lex_le(x, s[k]),
        j < s.len() ==> lex_le(x, s[j]),
    ensures
        insert_lex(x, s) == s.subrange(0, j) + seq![x] + s.subrange(j, s.len() as int),
    decreases s.len(),
{
    if s.len() == 0 {
        assert(insert_lex(x, s) =~= s.subrange(0, 0) + seq![x] + s.subrange(0, 0));
    } else if j == 0 {
        assert(lex_le(x, s[0]));
        assert(insert_lex(x, s) =~= s.subrange(0, 0) + seq![x] + s.subrange(0, s.len() as int));
    } else {
        assert(!lex_le(x, s[0]));
        let tail = s.subrange(1, s.len() as int);
        lemma_insert_lex_at(x, tail, j - 1);
        assert(insert_lex(x, s) == seq![s[0]] + insert_lex(x, tail));
        assert(seq![s[0]] + (tail.subrange(0, j - 1) + seq![x] + tail.subrange(
            j - 1,
            tail.len() as int,
        )) =~= s.subrange(0, j) + seq![x] + s.subrange(j, s.len() as int));
    }
}

} // verus!
