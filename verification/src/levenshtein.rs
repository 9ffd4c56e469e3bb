//! Levenshtein edit distance, guarded against oversized inputs.
//!
//! The distance counts single-character insertions, deletions and
//! substitutions at unit cost, over Unicode scalar values. Two guards apply
//! before the full table is computed: a size cap that returns a pessimistic
//! estimate for very long inputs, and a quick reject when the lengths alone
//! already imply a high distance. A companion similarity score, scaled to an
//! integer range, is derived from the distance and the byte lengths.

use vstd::prelude::*;

use crate::text::{byte_len, chars_of, char_utf8_len, lemma_byte_len_bounds, spec_byte_len};

verus! {

/// Maximum character count for a full distance computation; longer inputs get
/// the pessimistic estimate `max(m, n)` instead.
pub const MAX_LEVENSHTEIN_INPUT: usize = 10000;

/// Denominator of the integer similarity scale: a similarity of one maps to
/// this value.
pub const SIMILARITY_SCALE: u64 = 1000000;

pub open spec fn min3(a: int, b: int, c: int) -> int {
    if a <= b && a <= c {
        a
    } else if b <= c {
        b
    } else {
        c
    }
}

/// Classical Levenshtein edit distance between two character sequences.
pub open spec fn lev(a: Seq<char>, b: Seq<char>) -> int
    decreases a.len(), b.len(),
{
    if a.len() == 0 {
        b.len() as int
    } else if b.len() == 0 {
        a.len() as int
    } else {
        let cost: int = if a.last() == b.last() {
            0
        } else {
            1
        };
        min3(lev(a.drop_last(), b) + 1, lev(a, b.drop_last()) + 1, lev(
            a.drop_last(),
            b.drop_last(),
        ) + cost)
    }
}

pub proof fn lemma_lev_nonneg(a: Seq<char>, b: Seq<char>)
    ensures
        lev(a, b) >= 0,
    decreases a.len(), b.len(),
{
    if a.len() > 0 && b.len() > 0 {
        lemma_lev_nonneg(a.drop_last(), b);
        lemma_lev_nonneg(a, b.drop_last());
        lemma_lev_nonneg(a.drop_last(), b.drop_last());
    }
}

/// The distance never exceeds the longer length.
pub proof fn lemma_lev_le_max(a: Seq<char>, b: Seq<char>)
    ensures
        lev(a, b) <= if a.len() >= b.len() {
            a.len() as int
        } else {
            b.len() as int
        },
    decreases a.len(), b.len(),
{
    if a.len() > 0 && b.len() > 0 {
        lemma_lev_le_max(a.drop_last(), b);
        lemma_lev_le_max(a, b.drop_last());
        lemma_lev_le_max(a.drop_last(), b.drop_last());
    }
}

/// The distance is symmetric in its arguments.
pub proof fn lemma_lev_symmetric(a: Seq<char>, b: Seq<char>)
    ensures
        lev(a, b) == lev(b, a),
    decreases a.len(), b.len(),
{
    if a.len() > 0 && b.len() > 0 {
        lemma_lev_symmetric(a.drop_last(), b);
        lemma_lev_symmetric(a, b.drop_last());
        lemma_lev_symmetric(a.drop_last(), b.drop_last());
    }
}

/// The distance from a sequence to itself is zero.
pub proof fn lemma_lev_self(a: Seq<char>)
    ensures
        lev(a, a) == 0,
    decreases a.len(),
{
    if a.len() > 0 {
        lemma_lev_self(a.drop_last());
        lemma_lev_nonneg(a.drop_last(), a);
        lemma_lev_nonneg(a, a.drop_last());
    }
}

/// What `distance` returns: the guards first, then the exact distance.
pub open spec fn spec_distance(a: Seq<char>, b: Seq<char>) -> int {
    let m = a.len() as int;
    let n = b.len() as int;
    let mx = if m >= n {
        m
    } else {
        n
    };
    let df = if m >= n {
        m - n
    } else {
        n - m
    };
    if m == 0 {
        n
    } else if n == 0 {
        m
    } else if m > MAX_LEVENSHTEIN_INPUT as int || n > MAX_LEVENSHTEIN_INPUT as int {
        mx
    } else if df > mx / 3 {
        mx
    } else {
        lev(a, b)
    }
}

/// The guarded distance also never exceeds the longer length.
pub proof fn lemma_spec_distance_le_max(a: Seq<char>, b: Seq<char>)
    ensures
        0 <= spec_distance(a, b),
        spec_distance(a, b) <= if a.len() >= b.len() {
            a.len() as int
        } else {
            b.len() as int
        },
{
    lemma_lev_le_max(a, b);
    lemma_lev_nonneg(a, b);
}

/// The step relation of the dynamic-programming table.
proof fn lemma_lev_step(a: Seq<char>, b: Seq<char>, i: int, j: int)
    requires
        1 <= i <= a.len(),
        1 <= j <= b.len(),
    ensures
        lev(a.take(i), b.take(j)) == min3(
            lev(a.take(i - 1), b.take(j)) + 1,
            lev(a.take(i), b.take(j - 1)) + 1,
            lev(a.take(i - 1), b.take(j - 1)) + if a[i - 1] == b[j - 1] {
                0int
            } else {
                1int
            },
        ),
{
    let x = a.take(i);
    let y = b.take(j);
    assert(x.drop_last() =~= a.take(i - 1));
    assert(y.drop_last() =~= b.take(j - 1));
    assert(x.last() == a[i - 1]);
    assert(y.last() == b[j - 1]);
}

/// Compute the guarded Levenshtein distance between two character vectors.
#[verifier::loop_isolation(false)]
pub fn distance_chars(a: &Vec<char>, b: &Vec<char>) -> (r: usize)
    ensures
        r as int == spec_distance(a@, b@),
{
    let m = a.len();
    let n = b.len();
    if m == 0 {
        return n;
    }
    if n == 0 {
        return m;
    }
    let max_len = if m > n {
        m
    } else {
        n
    };
    if m > MAX_LEVENSHTEIN_INPUT || n > MAX_LEVENSHTEIN_INPUT {
        return max_len;
    }
    let diff = if m > n {
        m - n
    } else {
        n - m
    };
    if diff > max_len / 3 {
        return max_len;
    }
    let mut prev: Vec<usize> = Vec::new();
    let mut j: usize = 0;
    while j <= n
        invariant
            j <= n + 1,
            prev@.len() == j,
            forall|t: int| 0 <= t < j ==> prev@[t] == lev(a@.take(0), b@.take(t)),
        decreases n + 1 - j,
    {
        proof {
            assert(a@.take(0) =~= Seq::<char>::empty());
            assert(b@.take(j as int).len() == j);
        }
        prev.push(j);
        j = j + 1;
    }
    let mut i: usize = 1;
    while i <= m
        invariant
            1 <= i <= m + 1,
            prev@.len() == n + 1,
            forall|t: int| 0 <= t <= n ==> prev@[t] == lev(a@.take(i - 1), b@.take(t)),
        decreases m + 1 - i,
    {
        let mut curr: Vec<usize> = Vec::new();
        proof {
            assert(b@.take(0) =~= Seq::<char>::empty());
            assert(a@.take(i as int).len() == i);
        }
        curr.push(i);
        let mut j2: usize = 1;
        while j2 <= n
            invariant
                1 <= j2 <= n + 1,
                curr@.len() == j2,
                forall|t: int| 0 <= t < j2 ==> curr@[t] == lev(a@.take(i as int), b@.take(t)),
            decreases n + 1 - j2,
        {
            let cost: usize = if a[i - 1] == b[j2 - 1] {
                0
            } else {
                1
            };
            proof {
                lemma_lev_step(a@, b@, i as int, j2 as int);
                lemma_lev_le_max(a@.take(i as int - 1), b@.take(j2 as int));
                lemma_lev_le_max(a@.take(i as int), b@.take(j2 as int - 1));
                lemma_lev_le_max(a@.take(i as int - 1), b@.take(j2 as int - 1));
                lemma_lev_nonneg(a@.take(i as int - 1), b@.take(j2 as int));
                lemma_lev_nonneg(a@.take(i as int), b@.take(j2 as int - 1));
                lemma_lev_nonneg(a@.take(i as int - 1), b@.take(j2 as int - 1));
            }
            let del = prev[j2] + 1;
            let ins = curr[j2 - 1] + 1;
            let sub = prev[j2 - 1] + cost;
            let best = if del <= ins && del <= sub {
                del
            } else if ins <= sub {
                ins
            } else {
                sub
            };
            curr.push(best);
            j2 = j2 + 1;
        }
        prev = curr;
        i = i + 1;
    }
    proof {
        assert(a@.take(m as int) =~= a@);
        assert(b@.take(n as int) =~= b@);
        lemma_lev_nonneg(a@, b@);
        lemma_lev_le_max(a@, b@);
    }
    prev[n]
}

/// Compute the Levenshtein edit distance between two strings.
///
/// If either input exceeds [`MAX_LEVENSHTEIN_INPUT`] characters, or the
/// length difference exceeds a third of the longer length, the pessimistic
/// bound `max(m, n)` is returned without computing the table.
pub fn distance(a: &str, b: &str) -> (r: usize)
    ensures
        r as int == spec_distance(a@, b@),
{
    let av = chars_of(a);
    let bv = chars_of(b);
    distance_chars(&av, &bv)
}

/// What `similarity_scaled` returns: zero means completely different,
/// [`SIMILARITY_SCALE`] means identical, measured against the longer byte
/// length.
pub open spec fn spec_similarity_scaled(a: Seq<char>, b: Seq<char>) -> int {
    let mx = if spec_byte_len(a) >= spec_byte_len(b) {
        spec_byte_len(a)
    } else {
        spec_byte_len(b)
    };
    if mx == 0 {
        SIMILARITY_SCALE as int
    } else {
        (mx - spec_distance(a, b)) * (SIMILARITY_SCALE as int) / mx
    }
}

/// The scaled similarity always lies between zero and the scale.
pub proof fn lemma_similarity_scaled_bounds(a: Seq<char>, b: Seq<char>)
    ensures
        0 <= spec_similarity_scaled(a, b) <= SIMILARITY_SCALE as int,
{
    let la = spec_byte_len(a);
    let lb = spec_byte_len(b);
    let mx = if la >= lb {
        la
    } else {
        lb
    };
    lemma_byte_len_bounds(a);
    lemma_byte_len_bounds(b);
    if mx != 0 {
        let d = spec_distance(a, b);
        lemma_spec_distance_le_max(a, b);
        assert(d <= mx);
        let s = SIMILARITY_SCALE as int;
        assert(0 <= (mx - d) * s) by (nonlinear_arith)
            requires
                0 <= mx - d,
                0 < s,
        ;
        assert((mx - d) * s <= mx * s) by (nonlinear_arith)
            requires
                mx - d <= mx,
                0 < s,
        ;
        assert(0 <= (mx - d) * s / mx < s + 1) by (nonlinear_arith)
            requires
                0 < mx,
                0 < s,
                0 <= (mx - d) * s,
                (mx - d) * s <= mx * s,
        ;
    }
}

/// Similarity between two character vectors, scaled to an integer range.
pub fn similarity_scaled_chars(a: &Vec<char>, b: &Vec<char>) -> (r: u64)
    ensures
        r as int == spec_similarity_scaled(a@, b@),
        r <= SIMILARITY_SCALE,
{
    let la = byte_len(a);
    let lb = byte_len(b);
    let mx = if la >= lb {
        la
    } else {
        lb
    };
    proof {
        lemma_similarity_scaled_bounds(a@, b@);
        lemma_byte_len_bounds(a@);
        lemma_byte_len_bounds(b@);
    }
    if mx == 0 {
        SIMILARITY_SCALE
    } else {
        let d = distance_chars(a, b);
        proof {
            lemma_spec_distance_le_max(a@, b@);
        }
        let num = (mx - d as u128) * (SIMILARITY_SCALE as u128);
        (num / mx) as u64
    }
}

/// Similarity ratio between two strings on the integer scale: zero means
/// completely different, [`SIMILARITY_SCALE`] means identical.
pub fn similarity_scaled(a: &str, b: &str) -> (r: u64)
    ensures
        r as int == spec_similarity_scaled(a@, b@),
        r <= SIMILARITY_SCALE,
{
    let av = chars_of(a);
    let bv = chars_of(b);
    similarity_scaled_chars(&av, &bv)
}

} // verus!
