//! What the canonical order gives: one request set for one set of requests,
//! and one relative order for any two names, whoever asks for them.

use crate::name::{lemma_name_lt_asymmetric, lemma_name_lt_irreflexive, name_lt};
use crate::request::{names_distinct, same_requests, sorted_by_name, RequestSpec};
use vstd::prelude::*;

verus! {

/// Requests in the canonical order never repeat a name.
pub proof fn lemma_sorted_names_distinct(s: Seq<RequestSpec>)
    requires
        sorted_by_name(s),
    ensures
        names_distinct(s),
{
    assert forall|i: int, j: int| 0 <= i < j < s.len() implies s[i].name != s[j].name by {
        assert(name_lt(s[i].name, s[j].name));
        lemma_name_lt_irreflexive(s[i].name);
    }
}

/// In two sorted sequences that hold the same requests, the first of the one
/// is the first of the other.
proof fn lemma_same_first(a: Seq<RequestSpec>, b: Seq<RequestSpec>)
    requires
        sorted_by_name(a),
        sorted_by_name(b),
        forall|r: RequestSpec| a.contains(r) <==> b.contains(r),
        a.len() > 0,
    ensures
        b.len() > 0,
        a[0] == b[0],
{
    assert(a.contains(a[0]));
    let k = choose|k: int| 0 <= k < b.len() && b[k] == a[0];
    assert(b.contains(b[0]));
    let m = choose|m: int| 0 <= m < a.len() && a[m] == b[0];
    if k > 0 {
        assert(name_lt(b[0].name, b[k].name));
        if m == 0 {
            lemma_name_lt_irreflexive(a[0].name);
        } else {
            assert(name_lt(a[0].name, a[m].name));
            lemma_name_lt_asymmetric(a[0].name, a[m].name);
        }
    }
}

/// Whatever follows the first request of a sorted sequence is again among
/// what follows the first request of a sorted sequence with the same requests.
proof fn lemma_rest_contained(a: Seq<RequestSpec>, b: Seq<RequestSpec>, r: RequestSpec)
    requires
        sorted_by_name(a),
        sorted_by_name(b),
        forall|r: RequestSpec| a.contains(r) <==> b.contains(r),
        a.len() > 0,
        b.len() > 0,
        a[0] == b[0],
        a.drop_first().contains(r),
    ensures
        b.drop_first().contains(r),
{
    let rest = a.drop_first();
    let i = choose|i: int| 0 <= i < rest.len() && rest[i] == r;
    assert(a[i + 1] == r);
    assert(a.contains(r));
    let k = choose|k: int| 0 <= k < b.len() && b[k] == r;
    if k == 0 {
        assert(name_lt(a[0].name, a[i + 1].name));
        lemma_name_lt_irreflexive(a[0].name);
    } else {
        assert(b.drop_first()[k - 1] == r);
    }
}

/// A set of requests has one canonical order only: two sorted sequences that
/// hold the same requests are the same sequence.
pub proof fn lemma_canonical_unique(a: Seq<RequestSpec>, b: Seq<RequestSpec>)
    requires
        sorted_by_name(a),
        sorted_by_name(b),
        forall|r: RequestSpec| a.contains(r) <==> b.contains(r),
    ensures
        a == b,
    decreases a.len(),
{
    if a.len() == 0 {
        if b.len() > 0 {
            assert(b.contains(b[0]));
            let k = choose|k: int| 0 <= k < a.len() && a[k] == b[0];
        }
        assert(a =~= b);
    } else {
        lemma_same_first(a, b);
        let a_rest = a.drop_first();
        let b_rest = b.drop_first();
        assert forall|i: int, j: int| 0 <= i < j < a_rest.len() implies name_lt(
            a_rest[i].name,
            a_rest[j].name,
        ) by {
            assert(name_lt(a[i + 1].name, a[j + 1].name));
        }
        assert forall|i: int, j: int| 0 <= i < j < b_rest.len() implies name_lt(
            b_rest[i].name,
            b_rest[j].name,
        ) by {
            assert(name_lt(b[i + 1].name, b[j + 1].name));
        }
        assert forall|r: RequestSpec| a_rest.contains(r) <==> b_rest.contains(r) by {
            if a_rest.contains(r) {
                lemma_rest_contained(a, b, r);
            }
            if b_rest.contains(r) {
                lemma_rest_contained(b, a, r);
            }
        }
        lemma_canonical_unique(a_rest, b_rest);
        assert(a =~= seq![a[0]] + a_rest);
        assert(b =~= seq![b[0]] + b_rest);
    }
}

/// The order in which requests are given does not matter: if two callers give
/// the same requests, in whatever order, and each gets them back sorted, then
/// both get the same sequence.
pub proof fn lemma_order_given_is_irrelevant(
    given1: Seq<RequestSpec>,
    given2: Seq<RequestSpec>,
    built1: Seq<RequestSpec>,
    built2: Seq<RequestSpec>,
)
    requires
        same_requests(given1, given2),
        sorted_by_name(built1),
        same_requests(given1, built1),
        sorted_by_name(built2),
        same_requests(given2, built2),
    ensures
        built1 == built2,
{
    lemma_canonical_unique(built1, built2);
}

/// Two names that two request sets share stand in the same relative order in
/// both: if the one set takes the first name before the second, so does the
/// other.
pub proof fn lemma_shared_names_same_order(
    set1: Seq<RequestSpec>,
    set2: Seq<RequestSpec>,
    i1: int,
    j1: int,
    i2: int,
    j2: int,
)
    requires
        sorted_by_name(set1),
        sorted_by_name(set2),
        0 <= i1 < set1.len(),
        0 <= j1 < set1.len(),
        0 <= i2 < set2.len(),
        0 <= j2 < set2.len(),
        set1[i1].name == set2[i2].name,
        set1[j1].name == set2[j2].name,
    ensures
        i1 < j1 <==> i2 < j2,
{
    let x = set1[i1].name;
    let y = set1[j1].name;
    lemma_name_lt_irreflexive(x);
    lemma_name_lt_asymmetric(x, y);
    if i1 < j1 {
        assert(name_lt(set1[i1].name, set1[j1].name));
    }
    if j1 < i1 {
        assert(name_lt(set1[j1].name, set1[i1].name));
    }
    if i2 < j2 {
        assert(name_lt(set2[i2].name, set2[j2].name));
    }
    if j2 < i2 {
        assert(name_lt(set2[j2].name, set2[i2].name));
    }
}

} // verus!
