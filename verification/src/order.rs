//! Insertion sort of `(tag, value)` pairs, ordered by value with ties broken
//! by tag. Both the row clusterer and the band selector order their grouped
//! entries this way: groups are produced in first-appearance order of the
//! tag (a bin key or a day index), so breaking value ties by tag reproduces a
//! stable sort of tag-ordered input.

use vstd::prelude::*;

verus! {

/// Order on `(tag, value)` pairs: by value, ties by tag.
pub open spec fn lex_leq(a: (i64, i64), b: (i64, i64)) -> bool {
    a.1 < b.1 || (a.1 == b.1 && a.0 <= b.0)
}

/// Every two entries of `s` are in order.
pub open spec fn sorted_lex(s: Seq<(i64, i64)>) -> bool {
    forall|i: int, j: int| 0 <= i < j < s.len() ==> lex_leq(#[trigger] s[i], #[trigger] s[j])
}

/// `x` placed in order into `s`, scanning from the back.
pub open spec fn insert_lex(s: Seq<(i64, i64)>, x: (i64, i64)) -> Seq<(i64, i64)>
    decreases s.len(),
{
    if s.len() == 0 {
        seq![x]
    } else if lex_leq(s.last(), x) {
        s.push(x)
    } else {
        insert_lex(s.drop_last(), x).push(s.last())
    }
}

/// Insertion sort of `s` under `lex_leq`.
pub open spec fn sort_lex(s: Seq<(i64, i64)>) -> Seq<(i64, i64)>
    decreases s.len(),
{
    if s.len() == 0 {
        Seq::empty()
    } else {
        insert_lex(sort_lex(s.drop_last()), s.last())
    }
}

pub proof fn lemma_insert_lex_len(s: Seq<(i64, i64)>, x: (i64, i64))
    ensures
        insert_lex(s, x).len() == s.len() + 1,
    decreases s.len(),
{
    if s.len() > 0 && !lex_leq(s.last(), x) {
        lemma_insert_lex_len(s.drop_last(), x);
    }
}

/// Inserting preserves any pointwise property.
pub proof fn lemma_insert_lex_all(s: Seq<(i64, i64)>, x: (i64, i64), p: spec_fn((i64, i64)) -> bool)
    requires
        forall|i: int| 0 <= i < s.len() ==> p(#[trigger] s[i]),
        p(x),
    ensures
        forall|i: int| 0 <= i < insert_lex(s, x).len() ==> p(#[trigger] insert_lex(s, x)[i]),
    decreases s.len(),
{
    if s.len() == 0 {
        assert(insert_lex(s, x) =~= seq![x]);
    } else if lex_leq(s.last(), x) {
        let r = s.push(x);
        assert forall|i: int| 0 <= i < r.len() implies p(#[trigger] r[i]) by {
            if i < s.len() {
                assert(p(s[i]));
            }
        }
    } else {
        let d = s.drop_last();
        assert(forall|i: int| 0 <= i < d.len() ==> p(#[trigger] d[i]));
        lemma_insert_lex_all(d, x, p);
        let r = insert_lex(d, x).push(s.last());
        assert(p(s.last()));
        assert forall|i: int| 0 <= i < r.len() implies p(#[trigger] r[i]) by {
            if i < insert_lex(d, x).len() {
                assert(p(insert_lex(d, x)[i]));
            }
        }
    }
}

/// Sorting preserves any pointwise property.
pub proof fn lemma_sort_lex_all(s: Seq<(i64, i64)>, p: spec_fn((i64, i64)) -> bool)
    requires
        forall|i: int| 0 <= i < s.len() ==> p(#[trigger] s[i]),
    ensures
        forall|i: int| 0 <= i < sort_lex(s).len() ==> p(#[trigger] sort_lex(s)[i]),
    decreases s.len(),
{
    if s.len() > 0 {
        assert(forall|i: int| 0 <= i < s.drop_last().len() ==> p(#[trigger] s.drop_last()[i]));
        lemma_sort_lex_all(s.drop_last(), p);
        lemma_insert_lex_all(sort_lex(s.drop_last()), s.last(), p);
    }
}

pub proof fn lemma_insert_lex_sorted(s: Seq<(i64, i64)>, x: (i64, i64))
    requires
        sorted_lex(s),
    ensures
        sorted_lex(insert_lex(s, x)),
    decreases s.len(),
{
    if s.len() == 0 {
    } else if lex_leq(s.last(), x) {
        assert(forall|i: int| 0 <= i < s.len() ==> lex_leq(#[trigger] s[i], x));
    } else {
        let d = s.drop_last();
        assert(forall|i: int, j: int| 0 <= i < j < d.len() ==> lex_leq(#[trigger] d[i], #[trigger] d[j]));
        lemma_insert_lex_sorted(d, x);
        lemma_insert_lex_len(d, x);
        // every entry of insert_lex(d, x) is bounded by s.last()
        lemma_insert_lex_all(d, x, |e: (i64, i64)| lex_leq(e, s.last()));
        let r = insert_lex(d, x).push(s.last());
        assert forall|i: int, j: int| 0 <= i < j < r.len() implies lex_leq(#[trigger] r[i], #[trigger] r[j]) by {
            if j < r.len() - 1 {
                assert(lex_leq(insert_lex(d, x)[i], insert_lex(d, x)[j]));
            }
        }
    }
}

pub proof fn lemma_sort_lex_sorted(s: Seq<(i64, i64)>)
    ensures
        sorted_lex(sort_lex(s)),
    decreases s.len(),
{
    if s.len() > 0 {
        lemma_sort_lex_sorted(s.drop_last());
        lemma_insert_lex_sorted(sort_lex(s.drop_last()), s.last());
    }
}

/// Where the back of `s` is strictly greater than `x` and the entry before
/// that position is not, `insert_lex` is insertion at that position.
pub proof fn lemma_insert_lex_position(s: Seq<(i64, i64)>, x: (i64, i64), j: int)
    requires
        0 <= j <= s.len(),
        forall|k: int| j <= k < s.len() ==> !lex_leq(#[trigger] s[k], x),
        j > 0 ==> lex_leq(s[j - 1], x),
    ensures
        insert_lex(s, x) == s.insert(j, x),
    decreases s.len(),
{
    if s.len() == 0 {
        assert(insert_lex(s, x) =~= s.insert(0, x));
    } else if lex_leq(s.last(), x) {
        assert(j == s.len());
        assert(s.push(x) =~= s.insert(j, x));
    } else {
        assert(j < s.len());
        let d = s.drop_last();
        assert(forall|k: int| j <= k < d.len() ==> !lex_leq(#[trigger] d[k], x));
        if j > 0 {
            assert(d[j - 1] == s[j - 1]);
        }
        lemma_insert_lex_position(d, x, j);
        lemma_insert_lex_len(d, x);
        assert(insert_lex(s, x) =~= s.insert(j, x));
    }
}

pub(crate) fn lex_leq_e(a: (i64, i64), b: (i64, i64)) -> (r: bool)
    ensures
        r == lex_leq(a, b),
{
    a.1 < b.1 || (a.1 == b.1 && a.0 <= b.0)
}

/// Places `x` in order into the sorted vector `v`.
pub(crate) fn insert_pair(v: &mut Vec<(i64, i64)>, x: (i64, i64))
    ensures
        final(v)@ == insert_lex(old(v)@, x),
{
    let mut j: usize = v.len();
    while j > 0 && !lex_leq_e(v[j - 1], x)
        invariant
            j <= v.len(),
            v@ == old(v)@,
            forall|k: int| j <= k < v@.len() ==> !lex_leq(#[trigger] v@[k], x),
        decreases j,
    {
        j -= 1;
    }
    proof {
        lemma_insert_lex_position(v@, x, j as int);
    }
    v.insert(j, x);
}

/// Insertion sort of `v` under `lex_leq`.
pub(crate) fn sorted_pairs(v: &Vec<(i64, i64)>) -> (r: Vec<(i64, i64)>)
    ensures
        r@ == sort_lex(v@),
{
    let mut r: Vec<(i64, i64)> = Vec::new();
    let mut i: usize = 0;
    while i < v.len()
        invariant
            i <= v.len(),
            r@ == sort_lex(v@.take(i as int)),
        decreases v.len() - i,
    {
        proof {
            assert(v@.take(i as int + 1).drop_last() =~= v@.take(i as int));
            assert(v@.take(i as int + 1).last() == v@[i as int]);
        }
        insert_pair(&mut r, v[i]);
        i += 1;
    }
    proof {
        assert(v@.take(v@.len() as int) =~= v@);
    }
    r
}

} // verus!
