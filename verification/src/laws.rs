//! Laws relating the engine's operations: lookups are deterministic as
//! result sets, batch results never repeat a triple, an exactly embedded
//! barcode is always found by a substring lookup, and an embedded copy
//! edited within the budget always produces a match at least as close.

use vstd::prelude::*;
use crate::distance::lev;
use crate::engine::{
    lookup_post, batch_post, substrings_post, has_exact, is_window, window_exact, window_within,
    some_within, Suggestion,
};

verus! {

/// The result of a lookup as a set of (term, query, distance) triples,
/// the order-free value that callers observe.
pub open spec fn result_triples(res: Seq<Suggestion>) -> Set<(Seq<char>, Seq<char>, nat)> {
    Set::new(
        |x: (Seq<char>, Seq<char>, nat)|
            exists|i: int|
                0 <= i < res.len() && (#[trigger] res[i]).term@ == x.0 && res[i].query@ == x.1
                    && res[i].distance as nat == x.2,
    )
}

/// Repeated identical single lookups on one immutable barcode set return
/// identical result sets: any two results allowed by the lookup's contract
/// for the same whitelist, query and bound hold the same triples.
pub proof fn lemma_lookup_deterministic(
    terms: Seq<Seq<char>>,
    q: Seq<char>,
    d: nat,
    r1: Seq<Suggestion>,
    r2: Seq<Suggestion>,
)
    requires
        lookup_post(terms, q, d, r1),
        lookup_post(terms, q, d, r2),
    ensures
        result_triples(r1) == result_triples(r2),
{
    lemma_lookup_subset(terms, q, d, r1, r2);
    lemma_lookup_subset(terms, q, d, r2, r1);
    assert(result_triples(r1) =~= result_triples(r2));
}

proof fn lemma_lookup_subset(
    terms: Seq<Seq<char>>,
    q: Seq<char>,
    d: nat,
    r1: Seq<Suggestion>,
    r2: Seq<Suggestion>,
)
    requires
        lookup_post(terms, q, d, r1),
        lookup_post(terms, q, d, r2),
    ensures
        forall|x: (Seq<char>, Seq<char>, nat)|
            result_triples(r1).contains(x) ==> result_triples(r2).contains(x),
{
    assert forall|x: (Seq<char>, Seq<char>, nat)|
        result_triples(r1).contains(x) implies result_triples(r2).contains(x) by {
        let i = choose|i: int|
            0 <= i < r1.len() && (#[trigger] r1[i]).term@ == x.0 && r1[i].query@ == x.1
                && r1[i].distance as nat == x.2;
        assert(r2.len() > 0) by {
            assert(lev(r1[i].term@, q) <= d);
            let k = choose|k: int| 0 <= k < terms.len() && terms[k] == r1[i].term@;
            assert(lev(terms[k], q) <= d);
            assert(some_within(terms, q, d));
        }
        let m1 = r1[0].distance as nat;
        let m2 = r2[0].distance as nat;
        assert(m1 == m2) by {
            let k1 = choose|k: int| 0 <= k < terms.len() && #[trigger] lev(terms[k], q) == m1;
            let k2 = choose|k: int| 0 <= k < terms.len() && #[trigger] lev(terms[k], q) == m2;
            assert(lev(terms[k1], q) >= m2);
            assert(lev(terms[k2], q) >= m1);
        }
        let k = choose|k: int| 0 <= k < terms.len() && terms[k] == r1[i].term@;
        assert(lev(terms[k], q) == m1);
        let j = choose|j: int| 0 <= j < r2.len() && (#[trigger] r2[j]).term@ == terms[k];
        assert(r2[j].term@ == x.0 && r2[j].query@ == x.1 && r2[j].distance as nat == x.2);
    }
}

/// Repeated identical batch lookups on one immutable barcode set return
/// identical result sets.
pub proof fn lemma_batch_deterministic(
    terms: Seq<Seq<char>>,
    qs: Seq<Seq<char>>,
    d: nat,
    r1: Seq<Suggestion>,
    r2: Seq<Suggestion>,
)
    requires
        batch_post(terms, qs, d, r1),
        batch_post(terms, qs, d, r2),
    ensures
        result_triples(r1) == result_triples(r2),
{
    lemma_batch_subset(terms, qs, d, r1, r2);
    lemma_batch_subset(terms, qs, d, r2, r1);
    assert(result_triples(r1) =~= result_triples(r2));
}

proof fn lemma_batch_subset(
    terms: Seq<Seq<char>>,
    qs: Seq<Seq<char>>,
    d: nat,
    r1: Seq<Suggestion>,
    r2: Seq<Suggestion>,
)
    requires
        batch_post(terms, qs, d, r1),
        batch_post(terms, qs, d, r2),
    ensures
        forall|x: (Seq<char>, Seq<char>, nat)|
            result_triples(r1).contains(x) ==> result_triples(r2).contains(x),
{
    assert forall|x: (Seq<char>, Seq<char>, nat)|
        result_triples(r1).contains(x) implies result_triples(r2).contains(x) by {
        let i = choose|i: int|
            0 <= i < r1.len() && (#[trigger] r1[i]).term@ == x.0 && r1[i].query@ == x.1
                && r1[i].distance as nat == x.2;
        if has_exact(terms, qs) {
            let l = choose|l: int| 0 <= l < qs.len() && (#[trigger] qs[l]) == r1[i].query@;
            assert(terms.contains(qs[l]));
            let j = choose|j: int| 0 <= j < r2.len() && (#[trigger] r2[j]).query@ == qs[l];
            assert(r2[j].term@ == x.0 && r2[j].query@ == x.1 && r2[j].distance as nat == x.2);
        } else {
            assert(r2.len() > 0) by {
                assert(lev(r1[i].term@, r1[i].query@) <= d);
                let k = choose|k: int| 0 <= k < terms.len() && terms[k] == r1[i].term@;
                let u = choose|u: int| 0 <= u < qs.len() && qs[u] == r1[i].query@;
                assert(lev(terms[k], qs[u]) <= d);
            }
            let m1 = r1[0].distance as nat;
            let m2 = r2[0].distance as nat;
            assert(m1 == m2) by {
                let (k1, u1) = choose|k: int, u: int|
                    0 <= k < terms.len() && 0 <= u < qs.len() && #[trigger] lev(terms[k], qs[u])
                        == m1;
                let (k2, u2) = choose|k: int, u: int|
                    0 <= k < terms.len() && 0 <= u < qs.len() && #[trigger] lev(terms[k], qs[u])
                        == m2;
                assert(lev(terms[k1], qs[u1]) >= m2);
                assert(lev(terms[k2], qs[u2]) >= m1);
            }
            let k = choose|k: int| 0 <= k < terms.len() && terms[k] == r1[i].term@;
            let u = choose|u: int| 0 <= u < qs.len() && qs[u] == r1[i].query@;
            assert(lev(terms[k], qs[u]) == m2);
            let j = choose|j: int|
                0 <= j < r2.len() && (#[trigger] r2[j]).term@ == terms[k] && r2[j].query@ == qs[u];
            assert(r2[j].term@ == x.0 && r2[j].query@ == x.1 && r2[j].distance as nat == x.2);
        }
    }
}

/// Repeated identical substring lookups on one immutable barcode set
/// return identical result sets.
pub proof fn lemma_substrings_deterministic(
    terms: Seq<Seq<char>>,
    q: Seq<char>,
    bl: nat,
    d: nat,
    r1: Seq<Suggestion>,
    r2: Seq<Suggestion>,
)
    requires
        substrings_post(terms, q, bl, d, r1),
        substrings_post(terms, q, bl, d, r2),
    ensures
        result_triples(r1) == result_triples(r2),
{
    lemma_substrings_subset(terms, q, bl, d, r1, r2);
    lemma_substrings_subset(terms, q, bl, d, r2, r1);
    assert(result_triples(r1) =~= result_triples(r2));
}

proof fn lemma_substrings_subset(
    terms: Seq<Seq<char>>,
    q: Seq<char>,
    bl: nat,
    d: nat,
    r1: Seq<Suggestion>,
    r2: Seq<Suggestion>,
)
    requires
        substrings_post(terms, q, bl, d, r1),
        substrings_post(terms, q, bl, d, r2),
    ensures
        forall|x: (Seq<char>, Seq<char>, nat)|
            result_triples(r1).contains(x) ==> result_triples(r2).contains(x),
{
    assert forall|x: (Seq<char>, Seq<char>, nat)|
        result_triples(r1).contains(x) implies result_triples(r2).contains(x) by {
        let i = choose|i: int|
            0 <= i < r1.len() && (#[trigger] r1[i]).term@ == x.0 && r1[i].query@ == x.1
                && r1[i].distance as nat == x.2;
        if window_exact(terms, q, bl, d) {
            assert(is_window(q, bl, d, r1[i].query@) && terms.contains(r1[i].query@));
            let j = choose|j: int| 0 <= j < r2.len() && (#[trigger] r2[j]).query@ == r1[i].query@;
            assert(r2[j].term@ == x.0 && r2[j].query@ == x.1 && r2[j].distance as nat == x.2);
        } else {
            assert(r2.len() > 0) by {
                let k = choose|k: int| 0 <= k < terms.len() && terms[k] == r1[i].term@;
                assert(is_window(q, bl, d, r1[i].query@));
                assert(lev(terms[k], r1[i].query@) <= d);
                assert(window_within(terms, q, bl, d));
            }
            let m1 = r1[0].distance as nat;
            let m2 = r2[0].distance as nat;
            assert(m1 == m2) by {
                let (k1, s1) = choose|k: int, s: Seq<char>|
                    0 <= k < terms.len() && #[trigger] is_window(q, bl, d, s) && #[trigger] lev(
                        terms[k],
                        s,
                    ) == m1;
                let (k2, s2) = choose|k: int, s: Seq<char>|
                    0 <= k < terms.len() && #[trigger] is_window(q, bl, d, s) && #[trigger] lev(
                        terms[k],
                        s,
                    ) == m2;
                assert(lev(terms[k1], s1) >= m2);
                assert(lev(terms[k2], s2) >= m1);
            }
            let k = choose|k: int| 0 <= k < terms.len() && terms[k] == r1[i].term@;
            assert(is_window(q, bl, d, r1[i].query@));
            assert(lev(terms[k], r1[i].query@) == m2);
            let j = choose|j: int|
                0 <= j < r2.len() && (#[trigger] r2[j]).term@ == terms[k] && r2[j].query@
                    == r1[i].query@;
            assert(r2[j].term@ == x.0 && r2[j].query@ == x.1 && r2[j].distance as nat == x.2);
        }
    }
}

/// A batch lookup never returns two suggestions with the same term, query
/// and distance.
pub proof fn lemma_batch_no_duplicates(
    terms: Seq<Seq<char>>,
    qs: Seq<Seq<char>>,
    d: nat,
    res: Seq<Suggestion>,
)
    requires
        batch_post(terms, qs, d, res),
    ensures
        forall|i: int, j: int|
            0 <= i < j < res.len() ==> !((#[trigger] res[i]).term@ == (#[trigger] res[j]).term@
                && res[i].query@ == res[j].query@ && res[i].distance == res[j].distance),
{
    if has_exact(terms, qs) {
        assert forall|i: int, j: int| 0 <= i < j < res.len() implies !((#[trigger] res[i]).term@
            == (#[trigger] res[j]).term@ && res[i].query@ == res[j].query@ && res[i].distance
            == res[j].distance) by {
            assert(res[i].query@ != res[j].query@);
        }
    }
}

/// A substring lookup never returns two suggestions with the same term,
/// query and distance either.
pub proof fn lemma_substrings_no_duplicates(
    terms: Seq<Seq<char>>,
    q: Seq<char>,
    bl: nat,
    d: nat,
    res: Seq<Suggestion>,
)
    requires
        substrings_post(terms, q, bl, d, res),
    ensures
        forall|i: int, j: int|
            0 <= i < j < res.len() ==> !((#[trigger] res[i]).term@ == (#[trigger] res[j]).term@
                && res[i].query@ == res[j].query@ && res[i].distance == res[j].distance),
{
    if window_exact(terms, q, bl, d) {
        assert forall|i: int, j: int| 0 <= i < j < res.len() implies !((#[trigger] res[i]).term@
            == (#[trigger] res[j]).term@ && res[i].query@ == res[j].query@ && res[i].distance
            == res[j].distance) by {
            assert(res[i].query@ != res[j].query@);
        }
    }
}

/// A barcode written verbatim between two flanks is one of the candidate
/// windows of the flanked string, provided the barcode is not at the very
/// end with a zero edit budget.
pub proof fn lemma_embedding_is_window(pre: Seq<char>, b: Seq<char>, post: Seq<char>, d: nat)
    requires
        post.len() + 2 * d > 0,
    ensures
        is_window(pre + b + post, b.len(), d, b),
{
    let q = pre + b + post;
    let i = pre.len() as int;
    let k = i + b.len();
    assert(q.subrange(i, k) =~= b);
    assert(0 <= i && i < q.len() - b.len() + 2 * d);
    assert(b.len() - d <= k - i <= b.len() + d);
    assert(k <= q.len());
}

/// An exactly embedded whitelist barcode is always among the results of a
/// substring lookup over the flanked string, as an exact hit. An embedding
/// with one or more edits carries no such guarantee: an exact hit on a
/// different window suppresses all fuzzy matches.
pub proof fn lemma_embedded_barcode_found(
    terms: Seq<Seq<char>>,
    pre: Seq<char>,
    b: Seq<char>,
    post: Seq<char>,
    d: nat,
    res: Seq<Suggestion>,
)
    requires
        substrings_post(terms, pre + b + post, b.len(), d, res),
        terms.contains(b),
        post.len() + 2 * d > 0,
    ensures
        exists|i: int|
            0 <= i < res.len() && (#[trigger] res[i]).term@ == b && res[i].query@ == b
                && res[i].distance == 0,
{
    let q = pre + b + post;
    lemma_embedding_is_window(pre, b, post, d);
    assert(window_exact(terms, q, b.len(), d));
    let i = choose|i: int| 0 <= i < res.len() && (#[trigger] res[i]).query@ == b;
    assert(res[i].term@ == b && res[i].distance == 0);
}

/// A copy of a barcode edited by at most `d` insertions, deletions or
/// substitutions, written between two flanks, is one of the candidate
/// windows of the flanked string: the edits can change its length by at
/// most `d`, which the window sweep covers. With a zero edit budget the
/// copy must not sit at the very end of the string.
pub proof fn lemma_edited_copy_is_window(
    pre: Seq<char>,
    b: Seq<char>,
    c: Seq<char>,
    post: Seq<char>,
    d: nat,
)
    requires
        lev(b, c) <= d,
        post.len() + 2 * d > 0,
    ensures
        is_window(pre + c + post, b.len(), d, c),
{
    crate::distance::lemma_lev_len_diff(b, c);
    let q = pre + c + post;
    let i = pre.len() as int;
    let k = i + c.len();
    assert(q.subrange(i, k) =~= c);
    assert(0 <= i && i < q.len() - b.len() + 2 * d);
    assert(b.len() - d <= k - i <= b.len() + d);
    assert(k <= q.len());
}

/// The embedding property: for a whitelist barcode `b` and a string formed
/// by putting arbitrary flanks around a copy of `b` edited by at most
/// `max_dist` total edits, the substring lookup finds a match: its result
/// is not empty, and every suggestion in it is at least as close to its
/// window as the edited copy is to `b`. The match need not be `b` itself:
/// an exact hit on another window, or a strictly closer pair elsewhere,
/// takes precedence under the batch protocol.
pub proof fn lemma_embedded_edited_barcode(
    terms: Seq<Seq<char>>,
    pre: Seq<char>,
    b: Seq<char>,
    c: Seq<char>,
    post: Seq<char>,
    d: nat,
    res: Seq<Suggestion>,
)
    requires
        substrings_post(terms, pre + c + post, b.len(), d, res),
        terms.contains(b),
        lev(b, c) <= d,
        post.len() + 2 * d > 0,
    ensures
        res.len() > 0,
        forall|i: int| 0 <= i < res.len() ==> (#[trigger] res[i]).distance as nat <= lev(b, c),
{
    lemma_edited_copy_is_window(pre, b, c, post, d);
    lemma_embedded_edited_copy_found(terms, pre + c + post, b.len(), d, res, b, c);
}

/// A whitelist barcode embedded as an edited copy — any candidate window
/// within the edit budget of some term — guarantees a non-empty substring
/// lookup, and every returned suggestion is at least as close as that copy.
/// The copy's own term need not be among the results: an exact hit on a
/// different window, or a strictly closer pair elsewhere, takes precedence.
pub proof fn lemma_embedded_edited_copy_found(
    terms: Seq<Seq<char>>,
    q: Seq<char>,
    bl: nat,
    d: nat,
    res: Seq<Suggestion>,
    b: Seq<char>,
    c: Seq<char>,
)
    requires
        substrings_post(terms, q, bl, d, res),
        is_window(q, bl, d, c),
        terms.contains(b),
        lev(b, c) <= d,
    ensures
        res.len() > 0,
        forall|i: int| 0 <= i < res.len() ==> (#[trigger] res[i]).distance as nat <= lev(b, c),
{
    let k = choose|k: int| 0 <= k < terms.len() && terms[k] == b;
    if window_exact(terms, q, bl, d) {
        assert(forall|i: int|
            0 <= i < res.len() ==> (#[trigger] res[i]).distance as nat <= lev(b, c));
    } else {
        assert(lev(terms[k], c) <= d);
        assert(window_within(terms, q, bl, d));
        assert(res.len() > 0);
        assert(lev(terms[k], c) >= res[0].distance as nat);
    }
}

/// More generally: any candidate window that is itself a whitelist term is
/// returned by the substring lookup as an exact, distance-zero hit.
pub proof fn lemma_window_exact_hit(
    terms: Seq<Seq<char>>,
    q: Seq<char>,
    bl: nat,
    d: nat,
    res: Seq<Suggestion>,
    b: Seq<char>,
)
    requires
        substrings_post(terms, q, bl, d, res),
        is_window(q, bl, d, b),
        terms.contains(b),
    ensures
        exists|i: int|
            0 <= i < res.len() && (#[trigger] res[i]).term@ == b && res[i].query@ == b
                && res[i].distance == 0,
{
    assert(window_exact(terms, q, bl, d));
    let i = choose|i: int| 0 <= i < res.len() && (#[trigger] res[i]).query@ == b;
    assert(res[i].term@ == b && res[i].distance == 0);
}

} // verus!

