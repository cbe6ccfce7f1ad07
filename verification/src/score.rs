//! Folding the ordered fix history into per-file scores.
//!
//! A decay weight is a fraction of one; it crosses the library boundary in
//! fixed point, with `WEIGHT_ONE` standing for one. The caller computes the
//! weights from the recency data this module hands out, and the fold of the
//! weights into per-file scores is verified here.

use vstd::arithmetic::mul::lemma_mul_inequality;
use vstd::prelude::*;

use crate::fix::Fix;

verus! {

/// One hotspot: a file and the score accumulated over every fix that
/// touched it, in fixed point (`WEIGHT_ONE` stands for a weight of one).
pub struct Spot {
    /// The path of the file, unique within one result.
    pub file: String,
    /// The accumulated score, in billionths of a weight unit.
    pub score: u64,
}

/// The fixed-point unit: a decay weight of one is stored as this many score
/// units, so scores count billionths.
pub const WEIGHT_ONE: u64 = 1_000_000_000;

/// Timestamps (seconds since the epoch) are kept within this bound so that
/// the difference of any two of them fits an `i64`.
pub const MAX_TIME: i64 = 0x1000_0000_0000_0000;

/// The recency of one fix, from which the caller computes a decay weight.
#[derive(Debug, PartialEq, Eq, Structural)]
pub enum Recency {
    /// The scan time equals the oldest fix date: the normalized recency is
    /// defined as one instead of dividing by zero.
    Saturated,
    /// `elapsed` seconds passed between the fix and the scan, out of the
    /// nonzero `span` seconds between the oldest scanned fix and the scan.
    Ratio { elapsed: i64, span: i64 },
}

/// The recency data of each fix: the seconds from the fix to `now`, over
/// the seconds from the oldest scanned fix (the last of the sequence) to
/// `now`, with the zero-span run mapped to saturation. Empty history gives
/// an empty result.
pub fn scoring_inputs(fixes: &Vec<Fix>, now: i64) -> (r: Vec<Recency>)
    requires
        -MAX_TIME <= now <= MAX_TIME,
        forall|i: int| 0 <= i < fixes@.len() ==> -MAX_TIME <= #[trigger] fixes@[i].date <= MAX_TIME,
    ensures
        r@.len() == fixes@.len(),
        forall|i: int|
            0 <= i < fixes@.len() ==> r@[i] == (if now - fixes@.last().date == 0 {
                Recency::Saturated
            } else {
                Recency::Ratio {
                    elapsed: (now - fixes@[i].date) as i64,
                    span: (now - fixes@.last().date) as i64,
                }
            }),
{
    let n = fixes.len();
    let mut out: Vec<Recency> = Vec::new();
    if n == 0 {
        return out;
    }
    let oldest: i64 = fixes[n - 1].date;
    let span: i64 = now - oldest;
    let mut i: usize = 0;
    while i < n
        invariant
            n == fixes@.len(),
            0 < n,
            i <= n,
            -MAX_TIME <= now <= MAX_TIME,
            forall|k: int| 0 <= k < n ==> -MAX_TIME <= #[trigger] fixes@[k].date <= MAX_TIME,
            span == now - fixes@.last().date,
            out@.len() == i,
            forall|k: int|
                0 <= k < i ==> out@[k] == (if now - fixes@.last().date == 0 {
                    Recency::Saturated
                } else {
                    Recency::Ratio {
                        elapsed: (now - fixes@[k].date) as i64,
                        span: (now - fixes@.last().date) as i64,
                    }
                }),
        decreases n - i,
    {
        if span == 0 {
            out.push(Recency::Saturated);
        } else {
            let elapsed: i64 = now - fixes[i].date;
            out.push(Recency::Ratio { elapsed, span });
        }
        i = i + 1;
    }
    out
}

/// How many of the first `m` entries of `files` are the path `p`.
pub open spec fn occ_prefix(files: Seq<String>, m: int, p: Seq<char>) -> int
    decreases m,
{
    if m <= 0 {
        0
    } else {
        occ_prefix(files, m - 1, p) + if files[m - 1]@ == p {
            1int
        } else {
            0int
        }
    }
}

/// How often the path `p` occurs in `files` (each occurrence counts).
pub open spec fn occurrences(files: Seq<String>, p: Seq<char>) -> int {
    occ_prefix(files, files.len() as int, p)
}

/// The score of the path `p` over the first `n` fixes: each occurrence of
/// `p` in the files of fix `i` contributes the weight of fix `i`.
pub open spec fn score_prefix(fixes: Seq<Fix>, weights: Seq<u64>, n: int, p: Seq<char>) -> int
    decreases n,
{
    if n <= 0 {
        0
    } else {
        score_prefix(fixes, weights, n - 1, p) + occurrences(fixes[n - 1].files@, p) * weights[n
            - 1]
    }
}

/// The score of the path `p` over the whole fix history.
pub open spec fn total_score(fixes: Seq<Fix>, weights: Seq<u64>, p: Seq<char>) -> int {
    score_prefix(fixes, weights, fixes.len() as int, p)
}

/// The sum of the file counts of the first `n` fixes.
pub open spec fn sum_files_prefix(fixes: Seq<Fix>, n: int) -> int
    decreases n,
{
    if n <= 0 {
        0
    } else {
        sum_files_prefix(fixes, n - 1) + fixes[n - 1].files@.len()
    }
}

/// The number of (fix, file) entries of the whole history.
pub open spec fn sum_files(fixes: Seq<Fix>) -> int {
    sum_files_prefix(fixes, fixes.len() as int)
}

/// The score the spot list assigns to the path `p`: the sum over the spots
/// carrying that path (zero when none does).
spec fn score_of(spots: Seq<Spot>, p: Seq<char>) -> int
    decreases spots.len(),
{
    if spots.len() == 0 {
        0
    } else {
        score_of(spots.drop_last(), p) + if spots.last().file@ == p {
            spots.last().score as int
        } else {
            0int
        }
    }
}

/// No two spots carry the same path.
pub open spec fn unique_files(spots: Seq<Spot>) -> bool {
    forall|i: int, j: int| 0 <= i < j < spots.len() ==> spots[i].file@ != spots[j].file@
}

/// Some spot carries the path `p`.
pub open spec fn contains_file(spots: Seq<Spot>, p: Seq<char>) -> bool {
    exists|k: int| 0 <= k < spots.len() && spots[k].file@ == p
}

/// Some fix of the history touched the path `p`.
pub open spec fn touched(fixes: Seq<Fix>, p: Seq<char>) -> bool {
    exists|i: int, j: int|
        0 <= i < fixes.len() && 0 <= j < fixes[i].files@.len() && fixes[i].files@[j]@ == p
}

proof fn lemma_score_of_push(spots: Seq<Spot>, x: Spot)
    ensures
        forall|p: Seq<char>|
            score_of(spots.push(x), p) == score_of(spots, p) + if x.file@ == p {
                x.score as int
            } else {
                0int
            },
{
    assert(spots.push(x).drop_last() =~= spots);
}

proof fn lemma_score_of_update(spots: Seq<Spot>, k: int, x: Spot)
    requires
        0 <= k < spots.len(),
        x.file == spots[k].file,
    ensures
        forall|p: Seq<char>|
            score_of(spots.update(k, x), p) == score_of(spots, p) + (if x.file@ == p {
                x.score - spots[k].score
            } else {
                0int
            }),
    decreases spots.len(),
{
    let upd = spots.update(k, x);
    if k == spots.len() - 1 {
        assert forall|p: Seq<char>|
            score_of(upd, p) == score_of(spots, p) + (if x.file@ == p {
                x.score - spots[k].score
            } else {
                0int
            }) by {
            assert(upd.drop_last() =~= spots.drop_last());
            assert(upd.last() == x);
            assert(spots.last() == spots[k]);
        }
    } else {
        lemma_score_of_update(spots.drop_last(), k, x);
        assert forall|p: Seq<char>|
            score_of(upd, p) == score_of(spots, p) + (if x.file@ == p {
                x.score - spots[k].score
            } else {
                0int
            }) by {
            assert(upd.drop_last() =~= spots.drop_last().update(k, x));
            assert(upd.last() == spots.last());
            assert(score_of(upd.drop_last(), p) == score_of(spots.drop_last(), p) + (if x.file@
                == p {
                x.score - spots.drop_last()[k].score
            } else {
                0int
            }));
        }
    }
}

proof fn lemma_score_of_absent(spots: Seq<Spot>, p: Seq<char>)
    requires
        forall|k: int| 0 <= k < spots.len() ==> spots[k].file@ != p,
    ensures
        score_of(spots, p) == 0,
    decreases spots.len(),
{
    if spots.len() > 0 {
        lemma_score_of_absent(spots.drop_last(), p);
    }
}

/// With unique paths, the spot carrying `p` holds the whole score of `p`.
proof fn lemma_score_of_unique(spots: Seq<Spot>, k: int)
    requires
        unique_files(spots),
        0 <= k < spots.len(),
    ensures
        score_of(spots, spots[k].file@) == spots[k].score,
    decreases spots.len(),
{
    if k == spots.len() - 1 {
        assert(forall|j: int|
            0 <= j < spots.drop_last().len() ==> spots.drop_last()[j].file@ != spots[k].file@);
        lemma_score_of_absent(spots.drop_last(), spots[k].file@);
    } else {
        lemma_score_of_unique(spots.drop_last(), k);
    }
}

/// The entry count of a prefix never exceeds that of a longer prefix.
proof fn lemma_sum_files_mono(fixes: Seq<Fix>, a: int, b: int)
    requires
        a <= b,
    ensures
        sum_files_prefix(fixes, a) <= sum_files_prefix(fixes, b),
    decreases b - a,
{
    if a < b {
        lemma_sum_files_mono(fixes, a, b - 1);
    }
}

/// Find the spot carrying the given path, if any.
fn find_file(spots: &Vec<Spot>, p: &String) -> (r: Option<usize>)
    ensures
        r matches Some(k) ==> k < spots@.len() && spots@[k as int].file@ == p@,
        r is None ==> forall|k: int| 0 <= k < spots@.len() ==> spots@[k].file@ != p@,
{
    let mut i: usize = 0;
    while i < spots.len()
        invariant
            i <= spots@.len(),
            forall|k: int| 0 <= k < i ==> spots@[k].file@ != p@,
        decreases spots@.len() - i,
    {
        if spots[i].file.eq(p) {
            return Some(i);
        }
        i = i + 1;
    }
    None
}

/// Fold the fix history into one spot per touched file, the score of a file
/// being the sum of the weights of the fixes touching it, an occurrence at
/// a time. Returns `None` exactly when the accumulated score could exceed
/// the fixed-point range (more entries than `u64::MAX / WEIGHT_ONE`);
/// weights never exceed `WEIGHT_ONE`, so any returned score fits.
pub fn accumulate_scores(fixes: &Vec<Fix>, weights: &Vec<u64>) -> (r: Option<Vec<Spot>>)
    requires
        weights@.len() == fixes@.len(),
        forall|i: int| 0 <= i < weights@.len() ==> #[trigger] weights@[i] <= WEIGHT_ONE,
    ensures
        r is Some <==> sum_files(fixes@) * WEIGHT_ONE <= u64::MAX,
        r matches Some(spots) ==> unique_files(spots@),
        r matches Some(spots) ==> forall|k: int|
            0 <= k < spots@.len() ==> touched(fixes@, #[trigger] spots@[k].file@) && spots@[
                k
            ].score as int == total_score(fixes@, weights@, spots@[k].file@),
        r matches Some(spots) ==> forall|p: Seq<char>|
            #[trigger] touched(fixes@, p) ==> contains_file(spots@, p),
{
    let n = fixes.len();

    // Count the (fix, file) entries and refuse histories whose worst-case
    // score would not fit the fixed-point range.
    let mut count: u64 = 0;
    let mut i: usize = 0;
    while i < n
        invariant
            n == fixes@.len(),
            i <= n,
            count == sum_files_prefix(fixes@, i as int),
        decreases n - i,
    {
        let len_i: u64 = fixes[i].files.len() as u64;
        count = match count.checked_add(len_i) {
            Some(c) => c,
            None => {
                proof {
                    lemma_sum_files_mono(fixes@, i + 1, n as int);
                    assert(sum_files(fixes@) * WEIGHT_ONE > u64::MAX) by (nonlinear_arith)
                        requires
                            sum_files(fixes@) > u64::MAX,
                            WEIGHT_ONE >= 1,
                    ;
                }
                return None;
            },
        };
        i = i + 1;
    }
    if count.checked_mul(WEIGHT_ONE).is_none() {
        proof {
            assert(sum_files(fixes@) * WEIGHT_ONE > u64::MAX);
        }
        return None;
    }

    let mut out: Vec<Spot> = Vec::new();
    let mut i: usize = 0;
    while i < n
        invariant
            n == fixes@.len(),
            weights@.len() == fixes@.len(),
            forall|k: int| 0 <= k < weights@.len() ==> #[trigger] weights@[k] <= WEIGHT_ONE,
            sum_files(fixes@) * WEIGHT_ONE <= u64::MAX,
            i <= n,
            unique_files(out@),
            forall|p: Seq<char>|
                #[trigger] score_of(out@, p) == score_prefix(fixes@, weights@, i as int, p),
            forall|k: int| 0 <= k < out@.len() ==> touched(fixes@, #[trigger] out@[k].file@),
            forall|i2: int, j2: int|
                0 <= i2 < i && 0 <= j2 < fixes@[i2].files@.len() ==> contains_file(
                    out@,
                    #[trigger] fixes@[i2].files@[j2]@,
                ),
            forall|k: int|
                0 <= k < out@.len() ==> #[trigger] out@[k].score <= sum_files_prefix(
                    fixes@,
                    i as int,
                ) * WEIGHT_ONE,
        decreases n - i,
    {
        let m = fixes[i].files.len();
        let w = weights[i];
        let mut j: usize = 0;
        while j < m
            invariant
                n == fixes@.len(),
                weights@.len() == fixes@.len(),
                forall|k: int| 0 <= k < weights@.len() ==> #[trigger] weights@[k] <= WEIGHT_ONE,
                sum_files(fixes@) * WEIGHT_ONE <= u64::MAX,
                i < n,
                m == fixes@[i as int].files@.len(),
                w == weights@[i as int],
                j <= m,
                unique_files(out@),
                forall|p: Seq<char>|
                    #[trigger] score_of(out@, p) == score_prefix(fixes@, weights@, i as int, p)
                        + occ_prefix(fixes@[i as int].files@, j as int, p) * w,
                forall|k: int| 0 <= k < out@.len() ==> touched(fixes@, #[trigger] out@[k].file@),
                forall|i2: int, j2: int|
                    0 <= i2 < i && 0 <= j2 < fixes@[i2].files@.len() ==> contains_file(
                        out@,
                        #[trigger] fixes@[i2].files@[j2]@,
                    ),
                forall|j2: int|
                    0 <= j2 < j ==> contains_file(out@, #[trigger] fixes@[i as int].files@[j2]@),
                forall|k: int|
                    0 <= k < out@.len() ==> #[trigger] out@[k].score <= (sum_files_prefix(
                        fixes@,
                        i as int,
                    ) + j) * WEIGHT_ONE,
            decreases m - j,
        {
            let file: &String = &fixes[i].files[j];
            let ghost p0: Seq<char> = file@;
            let ghost old_out = out@;
            let ghost entries: int = sum_files_prefix(fixes@, i as int) + j;
            proof {
                // One more entry still fits the fixed-point range.
                lemma_sum_files_mono(fixes@, i + 1, n as int);
                assert(entries + 1 <= sum_files(fixes@));
                lemma_mul_inequality(entries + 1, sum_files(fixes@), WEIGHT_ONE as int);
            }
            match find_file(&out, file) {
                Some(k) => {
                    let sc = out[k].score;
                    proof {
                        lemma_mul_inequality(entries, entries + 1, WEIGHT_ONE as int);
                        assert((entries + 1) * WEIGHT_ONE == entries * WEIGHT_ONE + WEIGHT_ONE)
                            by (nonlinear_arith);
                    }
                    let ns = sc + w;
                    out[k].score = ns;
                    proof {
                        let x = Spot { file: old_out[k as int].file, score: ns };
                        assert(out@ =~= old_out.update(k as int, x));
                        lemma_score_of_update(old_out, k as int, x);
                        assert(forall|q: int|
                            0 <= q < out@.len() ==> out@[q].file == old_out[q].file);
                        assert forall|p: Seq<char>| #[trigger] contains_file(old_out, p)
                            implies contains_file(out@, p) by {
                            let k2 = choose|k2: int|
                                0 <= k2 < old_out.len() && old_out[k2].file@ == p;
                            assert(out@[k2].file@ == p);
                        }
                        assert(contains_file(out@, p0)) by {
                            assert(out@[k as int].file@ == p0);
                        }
                    }
                }
                None => {
                    out.push(Spot { file: file.clone(), score: w });
                    proof {
                        let x = out@.last();
                        assert(out@ =~= old_out.push(x));
                        assert(x.file@ == p0 && x.score == w);
                        lemma_score_of_push(old_out, x);
                        // The new path is new: uniqueness is kept.
                        assert forall|a: int, b: int| 0 <= a < b < out@.len() implies out@[a].file@
                            != out@[b].file@ by {
                            if b < old_out.len() {
                                assert(old_out[a].file@ != old_out[b].file@);
                            } else {
                                assert(old_out[a].file@ != p0);
                            }
                        }
                        assert forall|p: Seq<char>| #[trigger] contains_file(old_out, p)
                            implies contains_file(out@, p) by {
                            let k2 = choose|k2: int|
                                0 <= k2 < old_out.len() && old_out[k2].file@ == p;
                            assert(out@[k2].file@ == p);
                        }
                        assert(contains_file(out@, p0)) by {
                            assert(out@[out@.len() - 1].file@ == p0);
                        }
                        // The fresh score fits the running bound.
                        lemma_sum_files_mono(fixes@, 0, i as int);
                        lemma_mul_inequality(1, entries + 1, WEIGHT_ONE as int);
                        lemma_mul_inequality(entries, entries + 1, WEIGHT_ONE as int);
                    }
                }
            }
            proof {
                // The new spot list scores every path as the next inner
                // prefix does.
                assert forall|p: Seq<char>| #[trigger] score_of(out@, p) == score_prefix(
                    fixes@,
                    weights@,
                    i as int,
                    p,
                ) + occ_prefix(fixes@[i as int].files@, j + 1, p) * w by {
                    assert(occ_prefix(fixes@[i as int].files@, j + 1, p) == occ_prefix(
                        fixes@[i as int].files@,
                        j as int,
                        p,
                    ) + if fixes@[i as int].files@[j as int]@ == p {
                        1int
                    } else {
                        0int
                    });
                    assert((occ_prefix(fixes@[i as int].files@, j as int, p) + 1) * w == occ_prefix(
                        fixes@[i as int].files@,
                        j as int,
                        p,
                    ) * w + w) by (nonlinear_arith);
                }
                assert(touched(fixes@, p0)) by {
                    assert(0 <= i < fixes@.len() && 0 <= j < fixes@[i as int].files@.len()
                        && fixes@[i as int].files@[j as int]@ == p0);
                }
            }
            j = j + 1;
        }
        i = i + 1;
    }
    proof {
        assert forall|k: int| 0 <= k < out@.len() implies out@[k].score as int == total_score(
            fixes@,
            weights@,
            out@[k].file@,
        ) by {
            lemma_score_of_unique(out@, k);
        }
        assert forall|p: Seq<char>| #[trigger] touched(fixes@, p) implies contains_file(out@, p) by {
            let (i2, j2) = choose|i2: int, j2: int|
                0 <= i2 < fixes@.len() && 0 <= j2 < fixes@[i2].files@.len() && fixes@[i2].files@[
                    j2
                ]@ == p;
            assert(contains_file(out@, fixes@[i2].files@[j2]@));
        }
    }
    Some(out)
}

/// Appending one more fix to the history never lowers the score of any
/// path: the new fix contributes its occurrence count times a nonnegative
/// weight, and the contributions of the old fixes are unchanged.
pub proof fn lemma_score_monotonic(fixes: Seq<Fix>, weights: Seq<u64>, f: Fix, w: u64, p: Seq<char>)
    requires
        weights.len() == fixes.len(),
    ensures
        total_score(fixes.push(f), weights.push(w), p) >= total_score(fixes, weights, p),
{
    lemma_score_prefix_frame(fixes, weights, fixes.push(f), weights.push(w), fixes.len() as int, p);
    assert(occurrences(f.files@, p) >= 0) by {
        lemma_occ_prefix_nonneg(f.files@, f.files@.len() as int, p);
    }
    assert(fixes.push(f)[fixes.len() as int] == f);
    assert(occurrences(f.files@, p) * w >= 0) by (nonlinear_arith)
        requires
            occurrences(f.files@, p) >= 0,
            w >= 0,
    ;
}

/// Occurrence counts are never negative.
proof fn lemma_occ_prefix_nonneg(files: Seq<String>, m: int, p: Seq<char>)
    ensures
        occ_prefix(files, m, p) >= 0,
    decreases m,
{
    if m > 0 {
        lemma_occ_prefix_nonneg(files, m - 1, p);
    }
}

/// Two histories that agree on the first `n` fixes and weights score every
/// path alike over those `n`.
proof fn lemma_score_prefix_frame(
    fixes1: Seq<Fix>,
    weights1: Seq<u64>,
    fixes2: Seq<Fix>,
    weights2: Seq<u64>,
    n: int,
    p: Seq<char>,
)
    requires
        n <= fixes1.len(),
        n <= fixes2.len(),
        n <= weights1.len(),
        n <= weights2.len(),
        forall|k: int| 0 <= k < n ==> fixes1[k] == fixes2[k] && weights1[k] == weights2[k],
    ensures
        score_prefix(fixes1, weights1, n, p) == score_prefix(fixes2, weights2, n, p),
    decreases n,
{
    if n > 0 {
        lemma_score_prefix_frame(fixes1, weights1, fixes2, weights2, n - 1, p);
    }
}

} // verus!
