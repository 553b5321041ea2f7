//! Levenshtein edit distance: a mathematical definition and a verified
//! dynamic-programming implementation.

use vstd::prelude::*;
use vstd::string::*;

verus! {

/// The smaller of two natural numbers.
pub open spec fn min2(x: nat, y: nat) -> nat {
    if x <= y {
        x
    } else {
        y
    }
}

/// Levenshtein distance between the length-`i` prefix of `a` and the
/// length-`j` prefix of `b`: the least number of single-character
/// insertions, deletions and substitutions that turn one into the other.
pub open spec fn lev_prefix(a: Seq<char>, b: Seq<char>, i: nat, j: nat) -> nat
    recommends
        i <= a.len(),
        j <= b.len(),
    decreases i + j,
{
    if i == 0 {
        j
    } else if j == 0 {
        i
    } else {
        let del = lev_prefix(a, b, (i - 1) as nat, j) + 1;
        let ins = lev_prefix(a, b, i, (j - 1) as nat) + 1;
        let sub = lev_prefix(a, b, (i - 1) as nat, (j - 1) as nat) + (if a[i - 1] == b[j - 1] {
            0nat
        } else {
            1nat
        });
        min2(min2(del as nat, ins as nat), sub as nat)
    }
}

/// Levenshtein distance between `a` and `b`.
pub open spec fn lev(a: Seq<char>, b: Seq<char>) -> nat {
    lev_prefix(a, b, a.len(), b.len())
}

/// The distance between prefixes is at most the length of the longer prefix.
pub proof fn lemma_lev_prefix_bound(a: Seq<char>, b: Seq<char>, i: nat, j: nat)
    ensures
        lev_prefix(a, b, i, j) <= if i >= j {
            i
        } else {
            j
        },
    decreases i + j,
{
    if i != 0 && j != 0 {
        lemma_lev_prefix_bound(a, b, (i - 1) as nat, j);
        lemma_lev_prefix_bound(a, b, i, (j - 1) as nat);
        lemma_lev_prefix_bound(a, b, (i - 1) as nat, (j - 1) as nat);
    }
}

/// The distance between prefixes is at least the difference of their
/// lengths: each insertion or deletion changes the length by one.
pub proof fn lemma_lev_prefix_len_diff(a: Seq<char>, b: Seq<char>, i: nat, j: nat)
    ensures
        lev_prefix(a, b, i, j) + i >= j,
        lev_prefix(a, b, i, j) + j >= i,
    decreases i + j,
{
    if i != 0 && j != 0 {
        lemma_lev_prefix_len_diff(a, b, (i - 1) as nat, j);
        lemma_lev_prefix_len_diff(a, b, i, (j - 1) as nat);
        lemma_lev_prefix_len_diff(a, b, (i - 1) as nat, (j - 1) as nat);
    }
}

/// The distance between two strings is at least the difference of their
/// lengths.
pub proof fn lemma_lev_len_diff(a: Seq<char>, b: Seq<char>)
    ensures
        lev(a, b) + a.len() >= b.len(),
        lev(a, b) + b.len() >= a.len(),
{
    lemma_lev_prefix_len_diff(a, b, a.len(), b.len());
}

/// A string is at distance zero from itself.
pub proof fn lemma_lev_self(a: Seq<char>)
    ensures
        lev(a, a) == 0,
{
    lemma_lev_prefix_self(a, a.len());
}

proof fn lemma_lev_prefix_self(a: Seq<char>, i: nat)
    requires
        i <= a.len(),
    ensures
        lev_prefix(a, a, i, i) == 0,
    decreases i,
{
    if i != 0 {
        lemma_lev_prefix_self(a, (i - 1) as nat);
    }
}

/// The least of three distances, used by the dynamic-programming table.
fn min3(x: usize, y: usize, z: usize) -> (m: usize)
    ensures
        m as nat == min2(min2(x as nat, y as nat), z as nat),
{
    if x <= y {
        if x <= z {
            x
        } else {
            z
        }
    } else {
        if y <= z {
            y
        } else {
            z
        }
    }
}

/// The characters of `s`, in order, as a vector.
pub fn str_chars(s: &str) -> (r: Vec<char>)
    ensures
        r@ == s@,
{
    let n = s.unicode_len();
    let mut r: Vec<char> = Vec::new();
    let mut i: usize = 0;
    while i < n
        invariant
            i <= n,
            n == s@.len(),
            r@.len() == i,
            forall|t: int| 0 <= t < i ==> r@[t] == s@[t],
        decreases n - i,
    {
        let c = s.get_char(i);
        r.push(c);
        i = i + 1;
    }
    proof {
        assert(r@ =~= s@);
    }
    r
}

/// Levenshtein distance between `a` and `b`, computed row by row.
pub fn edit_distance(a: &Vec<char>, b: &Vec<char>) -> (d: usize)
    requires
        a@.len() < usize::MAX,
        b@.len() < usize::MAX,
    ensures
        d as nat == lev(a@, b@),
{
    let m = a.len();
    let n = b.len();
    let mut prev: Vec<usize> = Vec::new();
    let mut j: usize = 0;
    while j <= n
        invariant
            j <= n + 1,
            n == b@.len(),
            n < usize::MAX,
            prev@.len() == j,
            forall|t: int| 0 <= t < j ==> prev@[t] == lev_prefix(a@, b@, 0, t as nat),
        decreases n + 1 - j,
    {
        prev.push(j);
        j = j + 1;
    }
    let mut i: usize = 1;
    while i <= m
        invariant
            1 <= i <= m + 1,
            m == a@.len(),
            n == b@.len(),
            m < usize::MAX,
            n < usize::MAX,
            prev@.len() == n + 1,
            forall|t: int| 0 <= t <= n ==> prev@[t] == lev_prefix(a@, b@, (i - 1) as nat, t as nat),
        decreases m + 1 - i,
    {
        let mut cur: Vec<usize> = Vec::new();
        cur.push(i);
        let mut j2: usize = 1;
        while j2 <= n
            invariant
                1 <= i <= m,
                1 <= j2 <= n + 1,
                m == a@.len(),
                n == b@.len(),
                m < usize::MAX,
                n < usize::MAX,
                prev@.len() == n + 1,
                forall|t: int| 0 <= t <= n ==> prev@[t] == lev_prefix(
                    a@,
                    b@,
                    (i - 1) as nat,
                    t as nat,
                ),
                cur@.len() == j2,
                forall|t: int| 0 <= t < j2 ==> cur@[t] == lev_prefix(a@, b@, i as nat, t as nat),
            decreases n + 1 - j2,
        {
            proof {
                lemma_lev_prefix_bound(a@, b@, (i - 1) as nat, j2 as nat);
                lemma_lev_prefix_bound(a@, b@, i as nat, (j2 - 1) as nat);
                lemma_lev_prefix_bound(a@, b@, (i - 1) as nat, (j2 - 1) as nat);
            }
            let del = prev[j2] + 1;
            let ins = cur[j2 - 1] + 1;
            let cost: usize = if a[i - 1] == b[j2 - 1] {
                0
            } else {
                1
            };
            let sub = prev[j2 - 1] + cost;
            let v = min3(del, ins, sub);
            assert(v as nat == lev_prefix(a@, b@, i as nat, j2 as nat));
            cur.push(v);
            j2 = j2 + 1;
        }
        prev = cur;
        i = i + 1;
    }
    prev[n]
}

} // verus!
