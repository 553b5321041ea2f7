//! The barcode correction engine: a validated, immutable index over a
//! whitelist of equal-length barcodes, answering single, batched and
//! substring-window approximate lookups.

use vstd::prelude::*;
use vstd::string::*;
use crate::distance::{lev, str_chars, edit_distance};

verus! {

/// One match: a whitelist term, the query string it matched, and their
/// Levenshtein distance.
#[derive(Debug, Clone)]
pub struct Suggestion {
    pub term: String,
    pub query: String,
    pub distance: usize,
}

/// Why construction of a [`BarcodeSet`] failed.
#[derive(Debug, Clone, Copy, PartialEq, Eq, Structural)]
pub enum BarcodeError {
    /// The whitelist was empty or held barcodes of more than one length.
    ValidationError,
    /// The index cannot be built for the supplied tuning parameters.
    ConfigurationError,
}

/// The views of a vector of strings, as a sequence of character sequences.
pub open spec fn views_of(ss: Seq<String>) -> Seq<Seq<char>> {
    ss.map_values(|s: String| s@)
}

/// Some term of `terms` lies within distance `d` of `q`.
pub open spec fn some_within(terms: Seq<Seq<char>>, q: Seq<char>, d: nat) -> bool {
    exists|k: int| 0 <= k < terms.len() && #[trigger] lev(terms[k], q) <= d
}

/// `m` is the least distance from `q` to any term of `terms`.
pub open spec fn min_tier(terms: Seq<Seq<char>>, q: Seq<char>, m: nat) -> bool {
    &&& exists|k: int| 0 <= k < terms.len() && #[trigger] lev(terms[k], q) == m
    &&& forall|k: int| 0 <= k < terms.len() ==> #[trigger] lev(terms[k], q) >= m
}

/// What a single lookup returns: exactly the whitelist terms at the least
/// distance from `q`, provided that distance is within `d`; each suggestion
/// carries the query and the true distance, and no term repeats.
pub open spec fn lookup_post(
    terms: Seq<Seq<char>>,
    q: Seq<char>,
    d: nat,
    res: Seq<Suggestion>,
) -> bool {
    &&& forall|i: int|
        0 <= i < res.len() ==> {
            let s = #[trigger] res[i];
            &&& s.query@ == q
            &&& terms.contains(s.term@)
            &&& lev(s.term@, q) == s.distance as nat
            &&& s.distance as nat <= d
        }
    &&& forall|i: int, j: int| 0 <= i < j < res.len() ==> res[i].term@ != res[j].term@
    &&& (res.len() == 0 <==> !some_within(terms, q, d))
    &&& (res.len() > 0 ==> min_tier(terms, q, res[0].distance as nat))
    &&& forall|i: int| 0 <= i < res.len() ==> (#[trigger] res[i]).distance == res[0].distance
    &&& forall|k: int|
        0 <= k < terms.len() && res.len() > 0 && #[trigger] lev(terms[k], q)
            == res[0].distance as nat ==> exists|i: int|
            0 <= i < res.len() && (#[trigger] res[i]).term@ == terms[k]
}

/// Some query of the batch exactly equals a whitelist term.
pub open spec fn has_exact(terms: Seq<Seq<char>>, qs: Seq<Seq<char>>) -> bool {
    exists|l: int| 0 <= l < qs.len() && #[trigger] terms.contains(qs[l])
}

/// Some (term, query) pair of the batch lies within distance `d`.
pub open spec fn pair_within(terms: Seq<Seq<char>>, qs: Seq<Seq<char>>, d: nat) -> bool {
    exists|k: int, l: int|
        0 <= k < terms.len() && 0 <= l < qs.len() && #[trigger] lev(terms[k], qs[l]) <= d
}

/// `m` is the least distance over all (term, query) pairs of the batch.
pub open spec fn pair_min(terms: Seq<Seq<char>>, qs: Seq<Seq<char>>, m: nat) -> bool {
    &&& exists|k: int, l: int|
        0 <= k < terms.len() && 0 <= l < qs.len() && #[trigger] lev(terms[k], qs[l]) == m
    &&& forall|k: int, l: int|
        0 <= k < terms.len() && 0 <= l < qs.len() ==> #[trigger] lev(terms[k], qs[l]) >= m
}

/// The exact phase's answer: one distance-zero suggestion for every query
/// that is itself a whitelist term, and nothing else.
pub open spec fn batch_exact_post(
    terms: Seq<Seq<char>>,
    qs: Seq<Seq<char>>,
    res: Seq<Suggestion>,
) -> bool {
    &&& forall|i: int|
        0 <= i < res.len() ==> {
            let s = #[trigger] res[i];
            &&& s.distance == 0
            &&& s.term@ == s.query@
            &&& terms.contains(s.term@)
            &&& qs.contains(s.query@)
        }
    &&& forall|l: int|
        0 <= l < qs.len() && terms.contains(#[trigger] qs[l]) ==> exists|i: int|
            0 <= i < res.len() && (#[trigger] res[i]).query@ == qs[l]
    &&& forall|i: int, j: int| 0 <= i < j < res.len() ==> res[i].query@ != res[j].query@
    &&& res.len() > 0
}

/// The fuzzy phase's answer: the deduplicated (term, query) pairs attaining
/// the least distance over the whole batch, when some pair is within `d`.
pub open spec fn batch_fuzzy_post(
    terms: Seq<Seq<char>>,
    qs: Seq<Seq<char>>,
    d: nat,
    res: Seq<Suggestion>,
) -> bool {
    &&& (res.len() == 0 <==> !pair_within(terms, qs, d))
    &&& (res.len() > 0 ==> pair_min(terms, qs, res[0].distance as nat) && res[0].distance as nat
        <= d)
    &&& forall|i: int|
        0 <= i < res.len() ==> {
            let s = #[trigger] res[i];
            &&& terms.contains(s.term@)
            &&& qs.contains(s.query@)
            &&& lev(s.term@, s.query@) == s.distance as nat
            &&& s.distance == res[0].distance
        }
    &&& forall|k: int, l: int|
        0 <= k < terms.len() && 0 <= l < qs.len() && res.len() > 0 && #[trigger] lev(
            terms[k],
            qs[l],
        ) == res[0].distance as nat ==> exists|i: int|
            0 <= i < res.len() && (#[trigger] res[i]).term@ == terms[k] && res[i].query@ == qs[l]
    &&& forall|i: int, j: int|
        0 <= i < j < res.len() ==> !(res[i].term@ == res[j].term@ && res[i].query@
            == res[j].query@)
}

/// What a batch lookup returns: an exact hit anywhere in the batch
/// suppresses all fuzzy evidence; otherwise the pooled minimal-distance
/// fuzzy matches, deduplicated.
pub open spec fn batch_post(
    terms: Seq<Seq<char>>,
    qs: Seq<Seq<char>>,
    d: nat,
    res: Seq<Suggestion>,
) -> bool {
    if has_exact(terms, qs) {
        batch_exact_post(terms, qs, res)
    } else {
        batch_fuzzy_post(terms, qs, d, res)
    }
}

/// `s` is a candidate substring of `q` worth testing for a barcode of
/// length `bl` under edit budget `d`: it starts at a plausible offset and
/// its length ranges from `bl - d` to `bl + d`, since insertions and
/// deletions can shift and resize the true barcode's boundaries.
pub open spec fn is_window(q: Seq<char>, bl: nat, d: nat, s: Seq<char>) -> bool {
    exists|i: int, k: int|
        {
            &&& 0 <= i
            &&& i < q.len() - bl + 2 * d
            &&& bl - d <= k - i <= bl + d
            &&& k <= q.len()
            &&& s == #[trigger] q.subrange(i, k)
        }
}

/// Some candidate window of `q` exactly equals a whitelist term.
pub open spec fn window_exact(terms: Seq<Seq<char>>, q: Seq<char>, bl: nat, d: nat) -> bool {
    exists|s: Seq<char>| #[trigger] is_window(q, bl, d, s) && terms.contains(s)
}

/// Some (term, window) pair lies within distance `d`.
pub open spec fn window_within(terms: Seq<Seq<char>>, q: Seq<char>, bl: nat, d: nat) -> bool {
    exists|k: int, s: Seq<char>|
        0 <= k < terms.len() && #[trigger] is_window(q, bl, d, s) && #[trigger] lev(terms[k], s)
            <= d
}

/// `m` is the least distance over all (term, window) pairs.
pub open spec fn window_min(terms: Seq<Seq<char>>, q: Seq<char>, bl: nat, d: nat, m: nat) -> bool {
    &&& exists|k: int, s: Seq<char>|
        0 <= k < terms.len() && #[trigger] is_window(q, bl, d, s) && #[trigger] lev(terms[k], s)
            == m
    &&& forall|k: int, s: Seq<char>|
        0 <= k < terms.len() && #[trigger] is_window(q, bl, d, s) ==> #[trigger] lev(terms[k], s)
            >= m
}

/// What a substring lookup returns when the query is long enough: a batch
/// lookup over the complete candidate-window set of the query.
pub open spec fn substrings_post(
    terms: Seq<Seq<char>>,
    q: Seq<char>,
    bl: nat,
    d: nat,
    res: Seq<Suggestion>,
) -> bool {
    if window_exact(terms, q, bl, d) {
        &&& forall|i: int|
            0 <= i < res.len() ==> {
                let s = #[trigger] res[i];
                &&& s.distance == 0
                &&& s.term@ == s.query@
                &&& terms.contains(s.term@)
                &&& is_window(q, bl, d, s.query@)
            }
        &&& forall|s: Seq<char>|
            #[trigger] is_window(q, bl, d, s) && terms.contains(s) ==> exists|i: int|
                0 <= i < res.len() && (#[trigger] res[i]).query@ == s
        &&& forall|i: int, j: int| 0 <= i < j < res.len() ==> res[i].query@ != res[j].query@
        &&& res.len() > 0
    } else {
        &&& (res.len() == 0 <==> !window_within(terms, q, bl, d))
        &&& (res.len() > 0 ==> window_min(terms, q, bl, d, res[0].distance as nat)
            && res[0].distance as nat <= d)
        &&& forall|i: int|
            0 <= i < res.len() ==> {
                let s = #[trigger] res[i];
                &&& terms.contains(s.term@)
                &&& is_window(q, bl, d, s.query@)
                &&& lev(s.term@, s.query@) == s.distance as nat
                &&& s.distance == res[0].distance
            }
        &&& forall|k: int, s: Seq<char>|
            0 <= k < terms.len() && #[trigger] is_window(q, bl, d, s) && res.len() > 0
                && #[trigger] lev(terms[k], s) == res[0].distance as nat ==> exists|i: int|
                0 <= i < res.len() && (#[trigger] res[i]).term@ == terms[k] && res[i].query@ == s
        &&& forall|i: int, j: int|
            0 <= i < j < res.len() ==> !(res[i].term@ == res[j].term@ && res[i].query@
                == res[j].query@)
    }
}

/// A whitelist of equal-length barcodes, frozen after construction.
#[derive(Debug)]
pub struct BarcodeSet {
    terms: Vec<String>,
    max_dist: usize,
    split_length: usize,
    barcode_length: usize,
}

impl BarcodeSet {
    /// The distinct barcodes of the whitelist, as character sequences.
    pub closed spec fn spec_terms(self) -> Seq<Seq<char>> {
        views_of(self.terms@)
    }

    /// The greatest tolerated edit distance.
    pub closed spec fn spec_max_dist(self) -> nat {
        self.max_dist as nat
    }

    /// The index-partitioning width, a performance knob only.
    pub closed spec fn spec_split_length(self) -> nat {
        self.split_length as nat
    }

    /// The common length of every barcode.
    pub closed spec fn spec_barcode_length(self) -> nat {
        self.barcode_length as nat
    }

    /// Well-formedness: every term has the common barcode length, no term
    /// repeats, the whitelist is not empty, the distance bound is below the
    /// barcode length, and the partition width is positive.
    pub open spec fn wf(self) -> bool {
        &&& forall|k: int|
            0 <= k < self.spec_terms().len() ==> (#[trigger] self.spec_terms()[k]).len()
                == self.spec_barcode_length()
        &&& forall|k: int, l: int|
            0 <= k < l < self.spec_terms().len() ==> self.spec_terms()[k] != self.spec_terms()[l]
        &&& self.spec_terms().len() >= 1
        &&& self.spec_max_dist() < self.spec_barcode_length()
        &&& self.spec_split_length() >= 1
        &&& self.spec_barcode_length() < usize::MAX
    }

    /// The greatest tolerated edit distance.
    pub fn max_dist(&self) -> (d: usize)
        ensures
            d as nat == self.spec_max_dist(),
    {
        self.max_dist
    }

    /// The index-partitioning width.
    pub fn split_length(&self) -> (w: usize)
        ensures
            w as nat == self.spec_split_length(),
    {
        self.split_length
    }

    /// The common length of every barcode in the whitelist.
    pub fn barcode_length(&self) -> (l: usize)
        ensures
            l as nat == self.spec_barcode_length(),
    {
        self.barcode_length
    }

    /// Builds a barcode set from a whitelist.
    ///
    /// Fails with `ValidationError` when the whitelist is empty or holds
    /// barcodes of more than one length, and with `ConfigurationError` when
    /// the index parameters are incoherent: a zero partition width, or a
    /// distance bound that is not below the barcode length. On success the
    /// set holds exactly the distinct barcodes of the whitelist.
    #[verifier::rlimit(50)]
    pub fn new(barcodes: Vec<String>, max_dist: usize, split_length: usize) -> (r: Result<
        BarcodeSet,
        BarcodeError,
    >)
        requires
            forall|l: int|
                0 <= l < barcodes@.len() ==> (#[trigger] barcodes@[l])@.len() < usize::MAX,
        ensures
            ({
                let bs = views_of(barcodes@);
                let uniform = bs.len() >= 1 && (forall|k: int, l: int|
                    0 <= k < bs.len() && 0 <= l < bs.len() ==> bs[k].len() == bs[l].len());
                &&& (r is Err ==> r->Err_0 == if !uniform {
                    BarcodeError::ValidationError
                } else {
                    BarcodeError::ConfigurationError
                })
                &&& (r is Ok <==> uniform && split_length >= 1 && (max_dist as nat) < bs[0].len())
                &&& (r is Ok ==> {
                    let s = r->Ok_0;
                    &&& s.wf()
                    &&& s.spec_max_dist() == max_dist as nat
                    &&& s.spec_split_length() == split_length as nat
                    &&& s.spec_barcode_length() == bs[0].len()
                    &&& forall|k: int|
                        0 <= k < s.spec_terms().len() ==> bs.contains(#[trigger] s.spec_terms()[k])
                    &&& forall|l: int|
                        0 <= l < bs.len() ==> s.spec_terms().contains(#[trigger] bs[l])
                })
            }),
    {
        let ghost bs = views_of(barcodes@);
        if barcodes.len() == 0 {
            return Err(BarcodeError::ValidationError);
        }
        let common = barcodes[0].as_str().unicode_len();
        proof {
            assert(bs[0] == barcodes@[0]@);
        }
        let mut l: usize = 1;
        while l < barcodes.len()
            invariant
                1 <= l <= barcodes@.len(),
                bs == views_of(barcodes@),
                common == bs[0].len(),
                forall|t: int| 0 <= t < l ==> (#[trigger] bs[t]).len() == common,
            decreases barcodes@.len() - l,
        {
            if barcodes[l].as_str().unicode_len() != common {
                proof {
                    assert(bs[l as int].len() != bs[0].len());
                }
                return Err(BarcodeError::ValidationError);
            }
            l = l + 1;
        }
        if split_length == 0 || max_dist >= common {
            return Err(BarcodeError::ConfigurationError);
        }
        let mut terms: Vec<String> = Vec::new();
        let mut k: usize = 0;
        while k < barcodes.len()
            invariant
                k <= barcodes@.len(),
                bs == views_of(barcodes@),
                forall|t: int|
                    0 <= t < terms@.len() ==> bs.contains(#[trigger] views_of(terms@)[t]),
                forall|t: int| 0 <= t < k ==> views_of(terms@).contains(#[trigger] bs[t]),
                forall|t: int, u: int|
                    0 <= t < u < terms@.len() ==> views_of(terms@)[t] != views_of(terms@)[u],
            decreases barcodes@.len() - k,
        {
            let ghost pre = terms@;
            if !string_vec_contains(&terms, &barcodes[k]) {
                terms.push(barcodes[k].clone());
                proof {
                    assert(views_of(terms@)[pre.len() as int] == bs[k as int]);
                    assert forall|t: int| 0 <= t < terms@.len() implies bs.contains(
                        #[trigger] views_of(terms@)[t],
                    ) by {
                        if t < pre.len() {
                            assert(views_of(terms@)[t] == views_of(pre)[t]);
                        } else {
                            assert(bs[k as int] == views_of(terms@)[t]);
                        }
                    }
                    assert forall|t: int, u: int|
                        0 <= t < u < terms@.len() implies views_of(terms@)[t] != views_of(
                        terms@,
                    )[u] by {
                        if u < pre.len() {
                            assert(views_of(terms@)[t] == views_of(pre)[t]);
                            assert(views_of(terms@)[u] == views_of(pre)[u]);
                        } else {
                            assert(views_of(terms@)[t] == views_of(pre)[t]);
                            assert(views_of(terms@)[u] == bs[k as int]);
                            assert(!views_of(pre).contains(bs[k as int]));
                        }
                    }
                }
            }
            proof {
                assert forall|t: int| 0 <= t < k + 1 implies views_of(terms@).contains(
                    #[trigger] bs[t],
                ) by {
                    if t < k {
                        let w = choose|w: int|
                            0 <= w < pre.len() && views_of(pre)[w] == bs[t];
                        assert(views_of(terms@)[w] == views_of(pre)[w]);
                    } else {
                        if pre.len() < terms@.len() {
                            assert(views_of(terms@)[pre.len() as int] == bs[t]);
                        }
                    }
                }
            }
            k = k + 1;
        }
        proof {
            assert forall|t: int| 0 <= t < terms@.len() implies (#[trigger] views_of(
                terms@,
            )[t]).len() == common by {
                let w = choose|u: int| 0 <= u < bs.len() && bs[u] == views_of(terms@)[t];
                assert(bs[w].len() == common);
            }
            assert(views_of(terms@).contains(bs[0]));
            assert(views_of(terms@).len() >= 1);
        }
        Ok(BarcodeSet { terms, max_dist, split_length, barcode_length: common })
    }

    /// Finds all whitelist terms at the least edit distance from `query`,
    /// provided that distance is within the bound; otherwise returns nothing.
    #[verifier::rlimit(50)]
    pub fn lookup(&self, query: &str) -> (res: Vec<Suggestion>)
        requires
            self.wf(),
            query@.len() < usize::MAX,
        ensures
            lookup_post(self.spec_terms(), query@, self.spec_max_dist(), res@),
    {
        let ghost tv = self.spec_terms();
        let ghost q = query@;
        let ghost d0 = self.spec_max_dist();
        let qchars = str_chars(query);
        let mut found = false;
        let mut best: usize = 0;
        let mut k: usize = 0;
        while k < self.terms.len()
            invariant
                self.wf(),
                tv == self.spec_terms(),
                q == query@,
                d0 == self.spec_max_dist(),
                k <= self.terms@.len(),
                qchars@ == q,
                qchars@.len() < usize::MAX,
                !found ==> forall|t: int| 0 <= t < k ==> #[trigger] lev(tv[t], q) > d0,
                found ==> best as nat <= d0,
                found ==> exists|t: int| 0 <= t < k && #[trigger] lev(tv[t], q) == best as nat,
                found ==> forall|t: int| 0 <= t < k ==> #[trigger] lev(tv[t], q) >= best as nat,
            decreases self.terms@.len() - k,
        {
            proof {
                assert(tv[k as int] == self.terms@[k as int]@);
                assert(tv[k as int].len() == self.spec_barcode_length());
            }
            let tchars = str_chars(self.terms[k].as_str());
            let d = edit_distance(&tchars, &qchars);
            if d <= self.max_dist && (!found || d < best) {
                found = true;
                best = d;
            }
            k = k + 1;
        }
        let mut res: Vec<Suggestion> = Vec::new();
        if !found {
            proof {
                if some_within(tv, q, d0) {
                    let t = choose|t: int| 0 <= t < tv.len() && #[trigger] lev(tv[t], q) <= d0;
                    assert(false);
                }
            }
            return res;
        }
        let mut k2: usize = 0;
        while k2 < self.terms.len()
            invariant
                self.wf(),
                tv == self.spec_terms(),
                q == query@,
                d0 == self.spec_max_dist(),
                k2 <= self.terms@.len(),
                qchars@ == q,
                qchars@.len() < usize::MAX,
                best as nat <= d0,
                exists|t: int| 0 <= t < tv.len() && #[trigger] lev(tv[t], q) == best as nat,
                forall|t: int| 0 <= t < tv.len() ==> #[trigger] lev(tv[t], q) >= best as nat,
                forall|i: int|
                    0 <= i < res@.len() ==> {
                        let s = #[trigger] res@[i];
                        &&& s.query@ == q
                        &&& s.distance == best
                        &&& lev(s.term@, q) == best as nat
                        &&& exists|t: int| 0 <= t < k2 && (#[trigger] tv[t]) == s.term@
                    },
                forall|t: int|
                    0 <= t < k2 && #[trigger] lev(tv[t], q) == best as nat ==> exists|i: int|
                        0 <= i < res@.len() && (#[trigger] res@[i]).term@ == tv[t],
                forall|i: int, j: int| 0 <= i < j < res@.len() ==> res@[i].term@ != res@[j].term@,
            decreases self.terms@.len() - k2,
        {
            proof {
                assert(tv[k2 as int] == self.terms@[k2 as int]@);
                assert(tv[k2 as int].len() == self.spec_barcode_length());
            }
            let tchars = str_chars(self.terms[k2].as_str());
            let d = edit_distance(&tchars, &qchars);
            let ghost pre = res@;
            if d == best {
                proof {
                    let ghost cur = tv[k2 as int];
                    assert forall|i: int| 0 <= i < pre.len() implies pre[i].term@ != cur by {
                        let t = choose|t: int| 0 <= t < k2 && tv[t] == pre[i].term@;
                    }
                }
                res.push(
                    Suggestion {
                        term: self.terms[k2].clone(),
                        query: query.to_owned(),
                        distance: best,
                    },
                );
                proof {
                    assert(res@[pre.len() as int].term@ == tv[k2 as int]);
                }
            }
            proof {
                assert forall|t: int|
                    0 <= t < k2 + 1 && #[trigger] lev(tv[t], q) == best as nat implies exists|
                    i: int,
                |
                    0 <= i < res@.len() && (#[trigger] res@[i]).term@ == tv[t] by {
                    if t < k2 {
                        let w = choose|w: int|
                            0 <= w < pre.len() && (#[trigger] pre[w]).term@ == tv[t];
                        assert(res@[w].term@ == tv[t]);
                    } else {
                        assert(res@[res@.len() - 1].term@ == tv[t]);
                    }
                }
            }
            k2 = k2 + 1;
        }
        proof {
            let t0 = choose|t: int| 0 <= t < tv.len() && #[trigger] lev(tv[t], q) == best as nat;
            assert(exists|i: int| 0 <= i < res@.len() && (#[trigger] res@[i]).term@ == tv[t0]);
            assert(res@.len() > 0);
            assert(res@[0].distance == best);
            assert forall|i: int| 0 <= i < res@.len() implies tv.contains(
                (#[trigger] res@[i]).term@,
            ) by {
                let t = choose|t: int| 0 <= t < tv.len() && tv[t] == res@[i].term@;
            }
            assert(some_within(tv, q, d0)) by {
                assert(lev(tv[t0], q) <= d0);
            }
        }
        res
    }

    /// Looks up a batch of related queries. If any query exactly equals a
    /// whitelist term, only those exact hits are returned; otherwise the
    /// fuzzy matches of all queries are pooled and only the pairs at the
    /// least distance are returned, without duplicates.
    pub fn lookup_batch(&self, queries: &Vec<String>) -> (res: Vec<Suggestion>)
        requires
            self.wf(),
            forall|l: int|
                0 <= l < queries@.len() ==> (#[trigger] queries@[l])@.len() < usize::MAX,
        ensures
            batch_post(self.spec_terms(), views_of(queries@), self.spec_max_dist(), res@),
    {
        let ghost tv = self.spec_terms();
        let ghost qs = views_of(queries@);
        let ghost d0 = self.spec_max_dist();
        let exact = self.exact_phase(queries);
        if exact.len() > 0 {
            return exact;
        }
        match self.min_pair_distance(queries) {
            None => {
                let res: Vec<Suggestion> = Vec::new();
                proof {
                    if pair_within(tv, qs, d0) {
                        let (t, u) = choose|t: int, u: int|
                            0 <= t < tv.len() && 0 <= u < qs.len() && #[trigger] lev(tv[t], qs[u])
                                <= d0;
                        assert(false);
                    }
                }
                res
            },
            Some(best) => {
                let res = self.collect_pairs_at(queries, best);
                proof {
                    let (t0, u0) = choose|t: int, u: int|
                        0 <= t < tv.len() && 0 <= u < qs.len() && #[trigger] lev(tv[t], qs[u])
                            == best as nat;
                    assert(lev(tv[t0], qs[u0]) <= d0);
                    assert(pair_within(tv, qs, d0));
                }
                res
            },
        }
    }

    /// The exact phase: one distance-zero suggestion for each distinct query
    /// that is itself a whitelist term.
    fn exact_phase(&self, queries: &Vec<String>) -> (res: Vec<Suggestion>)
        requires
            self.wf(),
        ensures
            res@.len() > 0 <==> has_exact(self.spec_terms(), views_of(queries@)),
            res@.len() > 0 ==> batch_exact_post(self.spec_terms(), views_of(queries@), res@),
    {
        let ghost tv = self.spec_terms();
        let ghost qs = views_of(queries@);
        let mut res: Vec<Suggestion> = Vec::new();
        let mut l: usize = 0;
        while l < queries.len()
            invariant
                self.wf(),
                tv == self.spec_terms(),
                qs == views_of(queries@),
                l <= queries@.len(),
                forall|i: int|
                    0 <= i < res@.len() ==> {
                        let s = #[trigger] res@[i];
                        &&& s.distance == 0
                        &&& s.term@ == s.query@
                        &&& tv.contains(s.term@)
                        &&& exists|u: int| 0 <= u < l && (#[trigger] qs[u]) == s.query@
                    },
                forall|u: int|
                    0 <= u < l && tv.contains(#[trigger] qs[u]) ==> exists|i: int|
                        0 <= i < res@.len() && (#[trigger] res@[i]).query@ == qs[u],
                forall|i: int, j: int| 0 <= i < j < res@.len() ==> res@[i].query@ != res@[j].query@,
            decreases queries@.len() - l,
        {
            let ghost pre = res@;
            if string_vec_contains(&self.terms, &queries[l]) {
                if !suggestions_contain_query(&res, &queries[l]) {
                    res.push(
                        Suggestion {
                            term: queries[l].clone(),
                            query: queries[l].clone(),
                            distance: 0,
                        },
                    );
                    proof {
                        assert(res@[pre.len() as int].query@ == qs[l as int]);
                    }
                }
            }
            proof {
                assert forall|u: int|
                    0 <= u < l + 1 && tv.contains(#[trigger] qs[u]) implies exists|i: int|
                    0 <= i < res@.len() && (#[trigger] res@[i]).query@ == qs[u] by {
                    if u < l {
                        let w = choose|w: int|
                            0 <= w < pre.len() && (#[trigger] pre[w]).query@ == qs[u];
                        assert(res@[w].query@ == qs[u]);
                    } else {
                        if pre.len() < res@.len() {
                            assert(res@[pre.len() as int].query@ == qs[u]);
                        } else {
                            let w = choose|w: int|
                                0 <= w < pre.len() && (#[trigger] pre[w]).query@ == qs[u];
                            assert(res@[w].query@ == qs[u]);
                        }
                    }
                }
            }
            l = l + 1;
        }
        proof {
            if res@.len() > 0 {
                let s0 = res@[0];
                let u0 = choose|u: int| 0 <= u < qs.len() && (#[trigger] qs[u]) == s0.query@;
                assert(tv.contains(qs[u0]));
                assert(has_exact(tv, qs));
                assert forall|i: int| 0 <= i < res@.len() implies qs.contains(
                    (#[trigger] res@[i]).query@,
                ) by {
                    let u = choose|u: int|
                        0 <= u < qs.len() && (#[trigger] qs[u]) == res@[i].query@;
                }
            } else {
                if has_exact(tv, qs) {
                    let u = choose|u: int| 0 <= u < qs.len() && #[trigger] tv.contains(qs[u]);
                    assert(false);
                }
            }
        }
        res
    }

    /// The least distance over all (term, query) pairs, when it is within
    /// the bound.
    fn min_pair_distance(&self, queries: &Vec<String>) -> (r: Option<usize>)
        requires
            self.wf(),
            forall|l: int|
                0 <= l < queries@.len() ==> (#[trigger] queries@[l])@.len() < usize::MAX,
        ensures
            r is None ==> forall|t: int, u: int|
                0 <= t < self.spec_terms().len() && 0 <= u < views_of(queries@).len()
                    ==> #[trigger] lev(self.spec_terms()[t], views_of(queries@)[u])
                    > self.spec_max_dist(),
            r is Some ==> {
                let m = r->Some_0 as nat;
                &&& m <= self.spec_max_dist()
                &&& pair_min(self.spec_terms(), views_of(queries@), m)
            },
    {
        let ghost tv = self.spec_terms();
        let ghost qs = views_of(queries@);
        let ghost d0 = self.spec_max_dist();
        let mut found = false;
        let mut best: usize = 0;
        let mut l: usize = 0;
        while l < queries.len()
            invariant
                self.wf(),
                tv == self.spec_terms(),
                qs == views_of(queries@),
                d0 == self.spec_max_dist(),
                forall|u: int|
                    0 <= u < queries@.len() ==> (#[trigger] queries@[u])@.len() < usize::MAX,
                l <= queries@.len(),
                !found ==> forall|t: int, u: int|
                    0 <= t < tv.len() && 0 <= u < l ==> #[trigger] lev(tv[t], qs[u]) > d0,
                found ==> best as nat <= d0,
                found ==> exists|t: int, u: int|
                    0 <= t < tv.len() && 0 <= u < l && #[trigger] lev(tv[t], qs[u]) == best as nat,
                found ==> forall|t: int, u: int|
                    0 <= t < tv.len() && 0 <= u < l ==> #[trigger] lev(tv[t], qs[u])
                        >= best as nat,
            decreases queries@.len() - l,
        {
            let qchars = str_chars(queries[l].as_str());
            let mut k: usize = 0;
            while k < self.terms.len()
                invariant
                    self.wf(),
                    tv == self.spec_terms(),
                    qs == views_of(queries@),
                    d0 == self.spec_max_dist(),
                    l < queries@.len(),
                    k <= self.terms@.len(),
                    qchars@ == qs[l as int],
                    qchars@.len() < usize::MAX,
                    !found ==> forall|t: int, u: int|
                        0 <= t < tv.len() && 0 <= u < l ==> #[trigger] lev(tv[t], qs[u]) > d0,
                    !found ==> forall|t: int|
                        0 <= t < k ==> #[trigger] lev(tv[t], qs[l as int]) > d0,
                    found ==> best as nat <= d0,
                    found ==> (exists|t: int, u: int|
                        0 <= t < tv.len() && 0 <= u < l && #[trigger] lev(tv[t], qs[u])
                            == best as nat) || (exists|t: int|
                        0 <= t < k && #[trigger] lev(tv[t], qs[l as int]) == best as nat),
                    found ==> forall|t: int, u: int|
                        0 <= t < tv.len() && 0 <= u < l ==> #[trigger] lev(tv[t], qs[u])
                            >= best as nat,
                    found ==> forall|t: int|
                        0 <= t < k ==> #[trigger] lev(tv[t], qs[l as int]) >= best as nat,
                decreases self.terms@.len() - k,
            {
                proof {
                    assert(tv[k as int] == self.terms@[k as int]@);
                    assert(tv[k as int].len() == self.spec_barcode_length());
                }
                let tchars = str_chars(self.terms[k].as_str());
                let d = edit_distance(&tchars, &qchars);
                if d <= self.max_dist && (!found || d < best) {
                    found = true;
                    best = d;
                }
                k = k + 1;
            }
            proof {
                if found {
                    assert(exists|t: int, u: int|
                        0 <= t < tv.len() && 0 <= u < l + 1 && #[trigger] lev(tv[t], qs[u])
                            == best as nat) by {
                        if exists|t: int, u: int|
                            0 <= t < tv.len() && 0 <= u < l && #[trigger] lev(tv[t], qs[u])
                                == best as nat {
                            let (t, u) = choose|t: int, u: int|
                                0 <= t < tv.len() && 0 <= u < l && #[trigger] lev(tv[t], qs[u])
                                    == best as nat;
                            assert(lev(tv[t], qs[u]) == best as nat);
                        } else {
                            let t = choose|t: int|
                                0 <= t < tv.len() && #[trigger] lev(tv[t], qs[l as int])
                                    == best as nat;
                            assert(lev(tv[t], qs[l as int]) == best as nat);
                        }
                    }
                    assert forall|t: int, u: int|
                        0 <= t < tv.len() && 0 <= u < l + 1 implies #[trigger] lev(tv[t], qs[u])
                        >= best as nat by {
                        if u == l {
                            assert(lev(tv[t], qs[l as int]) >= best as nat);
                        }
                    }
                } else {
                    assert forall|t: int, u: int|
                        0 <= t < tv.len() && 0 <= u < l + 1 implies #[trigger] lev(tv[t], qs[u])
                        > d0 by {
                        if u == l {
                            assert(lev(tv[t], qs[l as int]) > d0);
                        }
                    }
                }
            }
            l = l + 1;
        }
        if found {
            Some(best)
        } else {
            None
        }
    }

    /// Collects every (term, query) pair at distance exactly `best`, one
    /// suggestion per distinct pair.
    fn collect_pairs_at(&self, queries: &Vec<String>, best: usize) -> (res: Vec<Suggestion>)
        requires
            self.wf(),
            forall|l: int|
                0 <= l < queries@.len() ==> (#[trigger] queries@[l])@.len() < usize::MAX,
            best as nat <= self.spec_max_dist(),
            pair_min(self.spec_terms(), views_of(queries@), best as nat),
        ensures
            batch_fuzzy_post(
                self.spec_terms(),
                views_of(queries@),
                self.spec_max_dist(),
                res@,
            ),
            res@.len() > 0,
            res@[0].distance == best,
    {
        let ghost tv = self.spec_terms();
        let ghost qs = views_of(queries@);
        let ghost d0 = self.spec_max_dist();
        let mut res: Vec<Suggestion> = Vec::new();
        let mut l: usize = 0;
        while l < queries.len()
            invariant
                self.wf(),
                tv == self.spec_terms(),
                qs == views_of(queries@),
                d0 == self.spec_max_dist(),
                forall|u: int|
                    0 <= u < queries@.len() ==> (#[trigger] queries@[u])@.len() < usize::MAX,
                l <= queries@.len(),
                best as nat <= d0,
                forall|i: int|
                    0 <= i < res@.len() ==> {
                        let s = #[trigger] res@[i];
                        &&& s.distance == best
                        &&& lev(s.term@, s.query@) == best as nat
                        &&& tv.contains(s.term@)
                        &&& exists|u: int| 0 <= u < l && (#[trigger] qs[u]) == s.query@
                    },
                forall|t: int, u: int|
                    0 <= t < tv.len() && 0 <= u < l && #[trigger] lev(tv[t], qs[u]) == best as nat
                        ==> exists|i: int|
                        0 <= i < res@.len() && (#[trigger] res@[i]).term@ == tv[t] && res@[i].query@
                            == qs[u],
                forall|i: int, j: int|
                    0 <= i < j < res@.len() ==> !(res@[i].term@ == res@[j].term@ && res@[i].query@
                        == res@[j].query@),
            decreases queries@.len() - l,
        {
            let qchars = str_chars(queries[l].as_str());
            let mut k: usize = 0;
            while k < self.terms.len()
                invariant
                    self.wf(),
                    tv == self.spec_terms(),
                    qs == views_of(queries@),
                    d0 == self.spec_max_dist(),
                    l < queries@.len(),
                    k <= self.terms@.len(),
                    qchars@ == qs[l as int],
                    qchars@.len() < usize::MAX,
                    best as nat <= d0,
                    forall|i: int|
                        0 <= i < res@.len() ==> {
                            let s = #[trigger] res@[i];
                            &&& s.distance == best
                            &&& lev(s.term@, s.query@) == best as nat
                            &&& tv.contains(s.term@)
                            &&& exists|u: int| 0 <= u < l + 1 && (#[trigger] qs[u]) == s.query@
                        },
                    forall|t: int, u: int|
                        0 <= t < tv.len() && 0 <= u < l && #[trigger] lev(tv[t], qs[u])
                            == best as nat ==> exists|i: int|
                            0 <= i < res@.len() && (#[trigger] res@[i]).term@ == tv[t]
                                && res@[i].query@ == qs[u],
                    forall|t: int|
                        0 <= t < k && #[trigger] lev(tv[t], qs[l as int]) == best as nat
                            ==> exists|i: int|
                            0 <= i < res@.len() && (#[trigger] res@[i]).term@ == tv[t]
                                && res@[i].query@ == qs[l as int],
                    forall|i: int, j: int|
                        0 <= i < j < res@.len() ==> !(res@[i].term@ == res@[j].term@
                            && res@[i].query@ == res@[j].query@),
                decreases self.terms@.len() - k,
            {
                proof {
                    assert(tv[k as int] == self.terms@[k as int]@);
                    assert(tv[k as int].len() == self.spec_barcode_length());
                }
                let tchars = str_chars(self.terms[k].as_str());
                let d = edit_distance(&tchars, &qchars);
                let ghost pre = res@;
                if d == best {
                    if !suggestions_contain_pair(&res, &self.terms[k], &queries[l]) {
                        res.push(
                            Suggestion {
                                term: self.terms[k].clone(),
                                query: queries[l].clone(),
                                distance: best,
                            },
                        );
                        proof {
                            assert(res@[pre.len() as int].term@ == tv[k as int]);
                            assert(res@[pre.len() as int].query@ == qs[l as int]);
                        }
                    }
                }
                proof {
                    assert forall|t: int, u: int|
                        0 <= t < tv.len() && 0 <= u < l && #[trigger] lev(tv[t], qs[u])
                            == best as nat implies exists|i: int|
                        0 <= i < res@.len() && (#[trigger] res@[i]).term@ == tv[t] && res@[i].query@
                            == qs[u] by {
                        let w = choose|w: int|
                            0 <= w < pre.len() && (#[trigger] pre[w]).term@ == tv[t]
                                && pre[w].query@ == qs[u];
                        assert(res@[w].term@ == tv[t] && res@[w].query@ == qs[u]);
                    }
                    assert forall|t: int|
                        0 <= t < k + 1 && #[trigger] lev(tv[t], qs[l as int])
                            == best as nat implies exists|i: int|
                        0 <= i < res@.len() && (#[trigger] res@[i]).term@ == tv[t] && res@[i].query@
                            == qs[l as int] by {
                        if t < k {
                            let w = choose|w: int|
                                0 <= w < pre.len() && (#[trigger] pre[w]).term@ == tv[t]
                                    && pre[w].query@ == qs[l as int];
                            assert(res@[w].term@ == tv[t] && res@[w].query@ == qs[l as int]);
                        } else {
                            if pre.len() < res@.len() {
                                assert(res@[pre.len() as int].term@ == tv[t]);
                            } else {
                                let w = choose|w: int|
                                    0 <= w < pre.len() && (#[trigger] pre[w]).term@ == tv[t]
                                        && pre[w].query@ == qs[l as int];
                                assert(res@[w].term@ == tv[t]);
                                assert(res@[w].query@ == qs[l as int]);
                            }
                        }
                    }
                }
                k = k + 1;
            }
            l = l + 1;
        }
        proof {
            let (t0, u0) = choose|t: int, u: int|
                0 <= t < tv.len() && 0 <= u < qs.len() && #[trigger] lev(tv[t], qs[u])
                    == best as nat;
            assert(exists|i: int|
                0 <= i < res@.len() && (#[trigger] res@[i]).term@ == tv[t0] && res@[i].query@
                    == qs[u0]);
            assert(res@.len() > 0);
            assert(res@[0].distance == best);
            assert(lev(tv[t0], qs[u0]) <= d0);
            assert(pair_within(tv, qs, d0));
            assert forall|i: int| 0 <= i < res@.len() implies qs.contains(
                (#[trigger] res@[i]).query@,
            ) by {
                let u = choose|u: int| 0 <= u < qs.len() && (#[trigger] qs[u]) == res@[i].query@;
            }
        }
        res
    }

    /// Generates every candidate window of `query` and hands the set to the
    /// batch lookup. A query shorter than `barcode_length - max_dist` cannot
    /// plausibly contain a barcode and yields nothing.
    #[verifier::rlimit(100)]
    pub fn lookup_substrings(&self, query: &str) -> (res: Vec<Suggestion>)
        requires
            self.wf(),
            query@.len() < usize::MAX,
        ensures
            query@.len() < self.spec_barcode_length() - self.spec_max_dist() ==> res@.len() == 0,
            query@.len() >= self.spec_barcode_length() - self.spec_max_dist() ==> substrings_post(
                self.spec_terms(),
                query@,
                self.spec_barcode_length(),
                self.spec_max_dist(),
                res@,
            ),
    {
        let ghost tv = self.spec_terms();
        let ghost q = query@;
        let ghost bl = self.spec_barcode_length();
        let ghost d0 = self.spec_max_dist();
        let n = query.unicode_len();
        if n < self.barcode_length - self.max_dist {
            return Vec::new();
        }
        let cands = self.candidate_windows(query);
        let ghost cs = views_of(cands@);
        let res = self.lookup_batch(&cands);
        proof {
            assert(window_exact(tv, q, bl, d0) == has_exact(tv, cs)) by {
                if window_exact(tv, q, bl, d0) {
                    let s = choose|s: Seq<char>| #[trigger] is_window(q, bl, d0, s) && tv.contains(
                        s,
                    );
                    assert(cs.contains(s));
                    let u = choose|u: int| 0 <= u < cs.len() && cs[u] == s;
                    assert(tv.contains(cs[u]));
                }
                if has_exact(tv, cs) {
                    let u = choose|u: int| 0 <= u < cs.len() && #[trigger] tv.contains(cs[u]);
                    assert(is_window(q, bl, d0, cs[u]));
                }
            }
            if window_exact(tv, q, bl, d0) {
                assert forall|i: int| 0 <= i < res@.len() implies is_window(
                    q,
                    bl,
                    d0,
                    (#[trigger] res@[i]).query@,
                ) by {
                    let u = choose|u: int| 0 <= u < cs.len() && cs[u] == res@[i].query@;
                    assert(is_window(q, bl, d0, cs[u]));
                }
                assert forall|s: Seq<char>|
                    #[trigger] is_window(q, bl, d0, s) && tv.contains(s) implies exists|i: int|
                    0 <= i < res@.len() && (#[trigger] res@[i]).query@ == s by {
                    assert(cs.contains(s));
                    let u = choose|u: int| 0 <= u < cs.len() && cs[u] == s;
                    assert(tv.contains(cs[u]));
                    assert(exists|i: int|
                        0 <= i < res@.len() && (#[trigger] res@[i]).query@ == cs[u]);
                }
            } else {
                assert(window_within(tv, q, bl, d0) == pair_within(tv, cs, d0)) by {
                    if window_within(tv, q, bl, d0) {
                        let (k, s) = choose|k: int, s: Seq<char>|
                            0 <= k < tv.len() && #[trigger] is_window(q, bl, d0, s)
                                && #[trigger] lev(tv[k], s) <= d0;
                        assert(cs.contains(s));
                        let u = choose|u: int| 0 <= u < cs.len() && cs[u] == s;
                        assert(lev(tv[k], cs[u]) <= d0);
                    }
                    if pair_within(tv, cs, d0) {
                        let (k, u) = choose|k: int, u: int|
                            0 <= k < tv.len() && 0 <= u < cs.len() && #[trigger] lev(tv[k], cs[u])
                                <= d0;
                        assert(is_window(q, bl, d0, cs[u]));
                        assert(window_within(tv, q, bl, d0));
                    }
                }
                if res@.len() > 0 {
                    let m = res@[0].distance as nat;
                    assert(window_min(tv, q, bl, d0, m)) by {
                        let (k, u) = choose|k: int, u: int|
                            0 <= k < tv.len() && 0 <= u < cs.len() && #[trigger] lev(tv[k], cs[u])
                                == m;
                        assert(is_window(q, bl, d0, cs[u]));
                        assert(exists|k2: int, s: Seq<char>|
                            0 <= k2 < tv.len() && #[trigger] is_window(q, bl, d0, s)
                                && #[trigger] lev(tv[k2], s) == m);
                        assert forall|k2: int, s: Seq<char>|
                            0 <= k2 < tv.len() && #[trigger] is_window(q, bl, d0, s) implies #[trigger] lev(
                            tv[k2],
                            s,
                        ) >= m by {
                            assert(cs.contains(s));
                            let u2 = choose|u2: int| 0 <= u2 < cs.len() && cs[u2] == s;
                            assert(lev(tv[k2], cs[u2]) >= m);
                        }
                    }
                    assert forall|i: int| 0 <= i < res@.len() implies is_window(
                        q,
                        bl,
                        d0,
                        (#[trigger] res@[i]).query@,
                    ) by {
                        let u = choose|u: int| 0 <= u < cs.len() && cs[u] == res@[i].query@;
                        assert(is_window(q, bl, d0, cs[u]));
                    }
                    assert forall|k: int, s: Seq<char>|
                        0 <= k < tv.len() && #[trigger] is_window(q, bl, d0, s) && #[trigger] lev(
                            tv[k],
                            s,
                        ) == m implies exists|i: int|
                        0 <= i < res@.len() && (#[trigger] res@[i]).term@ == tv[k] && res@[i].query@
                            == s by {
                        assert(cs.contains(s));
                        let u = choose|u: int| 0 <= u < cs.len() && cs[u] == s;
                        assert(lev(tv[k], cs[u]) == m);
                        assert(exists|i: int|
                            0 <= i < res@.len() && (#[trigger] res@[i]).term@ == tv[k]
                                && res@[i].query@ == cs[u]);
                    }
                }
            }
        }
        res
    }

    /// The complete set of candidate windows of `query`: every substring
    /// whose start offset and length could hold a barcode edited by at most
    /// `max_dist` insertions, deletions or substitutions, each window once.
    fn candidate_windows(&self, query: &str) -> (cands: Vec<String>)
        requires
            self.wf(),
            query@.len() < usize::MAX,
            query@.len() >= self.spec_barcode_length() - self.spec_max_dist(),
        ensures
            forall|c: int|
                0 <= c < cands@.len() ==> is_window(
                    query@,
                    self.spec_barcode_length(),
                    self.spec_max_dist(),
                    #[trigger] views_of(cands@)[c],
                ),
            forall|s: Seq<char>|
                #[trigger] is_window(query@, self.spec_barcode_length(), self.spec_max_dist(), s)
                    ==> views_of(cands@).contains(s),
            forall|c: int, c2: int|
                0 <= c < c2 < cands@.len() ==> views_of(cands@)[c] != views_of(cands@)[c2],
            forall|c: int| 0 <= c < cands@.len() ==> (#[trigger] cands@[c])@.len() < usize::MAX,
    {
        let ghost q = query@;
        let ghost bl = self.spec_barcode_length();
        let ghost d0 = self.spec_max_dist();
        let n = query.unicode_len();
        let bln = self.barcode_length;
        let d = self.max_dist;
        let base = n - (bln - d);
        let i_cap = if d == 0 {
            base
        } else {
            base + 1
        };
        let mut cands: Vec<String> = Vec::new();
        let mut i: usize = 0;
        while i < i_cap
            invariant
                self.wf(),
                q == query@,
                bl == self.spec_barcode_length(),
                d0 == self.spec_max_dist(),
                n == q.len(),
                n < usize::MAX,
                bln as nat == bl,
                d as nat == d0,
                d < bln,
                n >= bln - d,
                base == n - (bln - d),
                d == 0 ==> i_cap == base,
                d != 0 ==> i_cap == base + 1,
                i <= i_cap,
                forall|c: int|
                    0 <= c < cands@.len() ==> is_window(q, bl, d0, #[trigger] views_of(cands@)[c]),
                forall|c: int, c2: int|
                    0 <= c < c2 < cands@.len() ==> views_of(cands@)[c] != views_of(cands@)[c2],
                forall|c: int| 0 <= c < cands@.len() ==> (#[trigger] cands@[c])@.len() < usize::MAX,
                forall|ii: int, kk: int|
                    0 <= ii < i && bl - d0 <= kk - ii <= bl + d0 && kk <= q.len()
                        ==> views_of(cands@).contains(#[trigger] q.subrange(ii, kk)),
            decreases i_cap - i,
        {
            let k_lo = i + (bln - d);
            if k_lo <= n {
                let avail = n - k_lo;
                let span = if avail >= d && avail - d >= d {
                    2 * d
                } else {
                    avail
                };
                let mut k = k_lo;
                while k <= k_lo + span
                    invariant
                        self.wf(),
                        q == query@,
                        bl == self.spec_barcode_length(),
                        d0 == self.spec_max_dist(),
                        n == q.len(),
                        n < usize::MAX,
                        bln as nat == bl,
                        d as nat == d0,
                        d < bln,
                        d == 0 ==> i_cap == n - (bln - d),
                        d != 0 ==> i_cap == n - (bln - d) + 1,
                        i < i_cap,
                        k_lo == i + (bln - d),
                        k_lo <= n,
                        avail == n - k_lo,
                        span as nat == if 2 * d0 <= avail as nat {
                            2 * d0
                        } else {
                            avail as nat
                        },
                        k_lo <= k <= k_lo + span + 1,
                        forall|c: int|
                            0 <= c < cands@.len() ==> is_window(
                                q,
                                bl,
                                d0,
                                #[trigger] views_of(cands@)[c],
                            ),
                        forall|c: int, c2: int|
                            0 <= c < c2 < cands@.len() ==> views_of(cands@)[c] != views_of(
                                cands@,
                            )[c2],
                        forall|c: int|
                            0 <= c < cands@.len() ==> (#[trigger] cands@[c])@.len() < usize::MAX,
                        forall|ii: int, kk: int|
                            0 <= ii < i && bl - d0 <= kk - ii <= bl + d0 && kk <= q.len()
                                ==> views_of(cands@).contains(#[trigger] q.subrange(ii, kk)),
                        forall|kk: int|
                            k_lo <= kk < k ==> views_of(cands@).contains(
                                #[trigger] q.subrange(i as int, kk),
                            ),
                    decreases k_lo + span + 1 - k,
                {
                    let sub = query.substring_char(i, k);
                    let s = String::from_str(sub);
                    let ghost pre = cands@;
                    proof {
                        assert(s@ == q.subrange(i as int, k as int));
                        assert(is_window(q, bl, d0, s@)) by {
                            assert(0 <= i as int);
                            assert((i as int) < q.len() - bl + 2 * d0);
                            assert(bl - d0 <= (k as int) - (i as int) <= bl + d0);
                            assert(s@ == q.subrange(i as int, k as int));
                        }
                    }
                    if !string_vec_contains(&cands, &s) {
                        cands.push(s);
                        proof {
                            lemma_views_push_preserves(pre, cands@);
                            assert(views_of(cands@)[pre.len() as int] == q.subrange(
                                i as int,
                                k as int,
                            ));
                            assert forall|c: int| 0 <= c < cands@.len() implies is_window(
                                q,
                                bl,
                                d0,
                                #[trigger] views_of(cands@)[c],
                            ) by {
                                if c < pre.len() {
                                    assert(views_of(cands@)[c] == views_of(pre)[c]);
                                } else {
                                    assert(views_of(cands@)[c] == q.subrange(i as int, k as int));
                                }
                            }
                            assert forall|c: int, c2: int|
                                0 <= c < c2 < cands@.len() implies views_of(cands@)[c] != views_of(
                                cands@,
                            )[c2] by {
                                if c2 < pre.len() {
                                    assert(views_of(cands@)[c] == views_of(pre)[c]);
                                    assert(views_of(cands@)[c2] == views_of(pre)[c2]);
                                } else {
                                    assert(views_of(cands@)[c] == views_of(pre)[c]);
                                    assert(!views_of(pre).contains(views_of(cands@)[c2]));
                                }
                            }
                        }
                    }
                    proof {
                        assert(views_of(cands@).contains(q.subrange(i as int, k as int))) by {
                            if pre.len() < cands@.len() {
                                assert(views_of(cands@)[pre.len() as int] == q.subrange(
                                    i as int,
                                    k as int,
                                ));
                            } else {
                                let w = choose|w: int|
                                    0 <= w < views_of(pre).len() && views_of(pre)[w] == q.subrange(
                                        i as int,
                                        k as int,
                                    );
                                assert(views_of(cands@)[w] == views_of(pre)[w]);
                            }
                        }
                        assert forall|ii: int, kk: int|
                            0 <= ii < i && bl - d0 <= kk - ii <= bl + d0 && kk
                                <= q.len() implies views_of(cands@).contains(
                            #[trigger] q.subrange(ii, kk),
                        ) by {
                            assert(views_of(pre).contains(q.subrange(ii, kk)));
                            let w = choose|w: int|
                                0 <= w < views_of(pre).len() && views_of(pre)[w] == q.subrange(
                                    ii,
                                    kk,
                                );
                            assert(views_of(cands@)[w] == views_of(pre)[w]);
                        }
                        assert forall|kk: int| k_lo <= kk < k + 1 implies views_of(
                            cands@,
                        ).contains(#[trigger] q.subrange(i as int, kk)) by {
                            if kk < k {
                                assert(views_of(pre).contains(q.subrange(i as int, kk)));
                                let w = choose|w: int|
                                    0 <= w < views_of(pre).len() && views_of(pre)[w] == q.subrange(
                                        i as int,
                                        kk,
                                    );
                                assert(views_of(cands@)[w] == views_of(pre)[w]);
                            }
                        }
                    }
                    k = k + 1;
                }
                proof {
                    assert forall|ii: int, kk: int|
                        0 <= ii < i + 1 && bl - d0 <= kk - ii <= bl + d0 && kk
                            <= q.len() implies views_of(cands@).contains(
                        #[trigger] q.subrange(ii, kk),
                    ) by {
                        if ii == i {
                            assert(k_lo as int <= kk < k);
                        }
                    }
                }
            } else {
                proof {
                    assert forall|ii: int, kk: int|
                        0 <= ii < i + 1 && bl - d0 <= kk - ii <= bl + d0 && kk
                            <= q.len() implies views_of(cands@).contains(
                        #[trigger] q.subrange(ii, kk),
                    ) by {
                        if ii == i {
                            assert(kk >= ii + bl - d0);
                            assert(false);
                        }
                    }
                }
            }
            i = i + 1;
        }
        proof {
            assert forall|s: Seq<char>| #[trigger] is_window(q, bl, d0, s) implies views_of(
                cands@,
            ).contains(s) by {
                let (ii, kk) = choose|ii: int, kk: int|
                    {
                        &&& 0 <= ii
                        &&& ii < q.len() - bl + 2 * d0
                        &&& bl - d0 <= kk - ii <= bl + d0
                        &&& kk <= q.len()
                        &&& s == #[trigger] q.subrange(ii, kk)
                    };
                assert(ii < i_cap) by {
                    if ii >= i_cap {
                        assert(d0 != 0);
                        assert(kk >= ii + bl - d0);
                        assert(false);
                    }
                }
                assert(views_of(cands@).contains(q.subrange(ii, kk)));
            }
        }
        cands
    }
}

/// Pushing one string onto a vector keeps every character sequence it held.
proof fn lemma_views_push_preserves(pre: Seq<String>, post: Seq<String>)
    requires
        post.len() == pre.len() + 1,
        forall|t: int| 0 <= t < pre.len() ==> post[t] == pre[t],
    ensures
        forall|s: Seq<char>| views_of(pre).contains(s) ==> #[trigger] views_of(post).contains(s),
{
    assert forall|s: Seq<char>| views_of(pre).contains(s) implies #[trigger] views_of(
        post,
    ).contains(s) by {
        let w = choose|w: int| 0 <= w < views_of(pre).len() && views_of(pre)[w] == s;
        assert(views_of(post)[w] == views_of(pre)[w]);
    }
}

/// Whether some element of `v` has the same characters as `s`.
fn string_vec_contains(v: &Vec<String>, s: &String) -> (r: bool)
    ensures
        r == views_of(v@).contains(s@),
{
    let mut k: usize = 0;
    while k < v.len()
        invariant
            k <= v@.len(),
            forall|t: int| 0 <= t < k ==> views_of(v@)[t] != s@,
        decreases v@.len() - k,
    {
        if v[k].eq(s) {
            proof {
                assert(views_of(v@)[k as int] == s@);
            }
            return true;
        }
        k = k + 1;
    }
    proof {
        if views_of(v@).contains(s@) {
            let t = choose|t: int| 0 <= t < views_of(v@).len() && views_of(v@)[t] == s@;
            assert(false);
        }
    }
    false
}

/// Whether some suggestion of `v` has `q` as its query.
fn suggestions_contain_query(v: &Vec<Suggestion>, q: &String) -> (r: bool)
    ensures
        r == exists|i: int| 0 <= i < v@.len() && (#[trigger] v@[i]).query@ == q@,
{
    let mut k: usize = 0;
    while k < v.len()
        invariant
            k <= v@.len(),
            forall|t: int| 0 <= t < k ==> (#[trigger] v@[t]).query@ != q@,
        decreases v@.len() - k,
    {
        if v[k].query.eq(q) {
            return true;
        }
        k = k + 1;
    }
    false
}

/// Whether some suggestion of `v` has term `t` and query `q`.
fn suggestions_contain_pair(v: &Vec<Suggestion>, t: &String, q: &String) -> (r: bool)
    ensures
        r == exists|i: int|
            0 <= i < v@.len() && (#[trigger] v@[i]).term@ == t@ && v@[i].query@ == q@,
{
    let mut k: usize = 0;
    while k < v.len()
        invariant
            k <= v@.len(),
            forall|u: int| 0 <= u < k ==> !((#[trigger] v@[u]).term@ == t@ && v@[u].query@ == q@),
        decreases v@.len() - k,
    {
        if v[k].term.eq(t) && v[k].query.eq(q) {
            return true;
        }
        k = k + 1;
    }
    false
}

} // verus!
