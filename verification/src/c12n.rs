//! Classification results: per-class rank statistics and the confusion
//! matrix, accumulated one test case at a time.
//!
//! A test case hands in one score per model (a log-likelihood, encoded as an
//! order-preserving integer key). Candidates are ranked by score, higher
//! first; ties are broken deterministically in favour of the lower model
//! index. Rendering of the tables and of progress feedback is the caller's
//! business: the accumulator itself is pure bookkeeping.

use vstd::prelude::*;

verus! {

/// Candidate `j` ranks strictly better than candidate `i`: a higher score,
/// or an equal score and a lower index (the documented tie-break).
pub open spec fn beats(scores: Seq<i64>, j: int, i: int) -> bool {
    scores[j] > scores[i] || (scores[j] == scores[i] && j < i)
}

/// How many of the first `upto` candidates rank better than `i`.
pub open spec fn num_better_upto(scores: Seq<i64>, i: int, upto: int) -> nat
    decreases upto,
{
    if upto <= 0 {
        0nat
    } else {
        num_better_upto(scores, i, upto - 1) + (if beats(scores, upto - 1, i) {
            1nat
        } else {
            0nat
        })
    }
}

/// The 0-based rank of candidate `i`: 0 means it is the best candidate.
pub open spec fn rank_of(scores: Seq<i64>, i: int) -> nat {
    num_better_upto(scores, i, scores.len() as int)
}

/// `b` is the best candidate: nothing ranks better.
pub open spec fn is_best(scores: Seq<i64>, b: int) -> bool {
    0 <= b < scores.len() && forall|j: int| 0 <= j < scores.len() ==> !beats(scores, j, b)
}

/// The ranking is a strict total order, so the best candidate is unique.
pub proof fn lemma_best_unique(scores: Seq<i64>, b1: int, b2: int)
    requires
        is_best(scores, b1),
        is_best(scores, b2),
    ensures
        b1 == b2,
{
    assert(!beats(scores, b1, b2));
    assert(!beats(scores, b2, b1));
}

/// No candidate among the first `upto` beats `i` exactly when the count of
/// better candidates there is zero.
proof fn lemma_none_better_iff_zero(scores: Seq<i64>, i: int, upto: int)
    ensures
        (num_better_upto(scores, i, upto) == 0) <==> (forall|j: int|
            0 <= j < upto ==> !beats(scores, j, i)),
    decreases upto,
{
    if upto > 0 {
        lemma_none_better_iff_zero(scores, i, upto - 1);
    }
}

/// A candidate's rank is zero exactly when it is the best candidate.
pub proof fn lemma_rank_zero_iff_best(scores: Seq<i64>, i: int)
    requires
        0 <= i < scores.len(),
    ensures
        (rank_of(scores, i) == 0) <==> is_best(scores, i),
{
    lemma_none_better_iff_zero(scores, i, scores.len() as int);
}

/// Among the first `upto` candidates, at most `upto` rank better than `i`,
/// and `i` itself never does.
proof fn lemma_num_better_bound(scores: Seq<i64>, i: int, upto: int)
    ensures
        num_better_upto(scores, i, upto) <= upto || upto < 0,
        0 <= i < upto ==> num_better_upto(scores, i, upto) <= upto - 1,
    decreases upto,
{
    if upto > 0 {
        lemma_num_better_bound(scores, i, upto - 1);
    }
}

/// A candidate's rank is below the number of candidates.
pub proof fn lemma_rank_lt_len(scores: Seq<i64>, i: int)
    requires
        0 <= i < scores.len(),
    ensures
        rank_of(scores, i) < scores.len(),
{
    lemma_num_better_bound(scores, i, scores.len() as int);
}

/// A better-ranked candidate has a strictly smaller better-count over any
/// prefix that has passed the better one.
proof fn lemma_better_counts_ordered(scores: Seq<i64>, a: int, b: int, upto: int)
    requires
        0 <= a < scores.len(),
        0 <= b < scores.len(),
        beats(scores, a, b),
        upto <= scores.len(),
    ensures
        num_better_upto(scores, b, upto) >= num_better_upto(scores, a, upto) + (if a < upto {
            1int
        } else {
            0int
        }),
    decreases upto,
{
    if upto > 0 {
        lemma_better_counts_ordered(scores, a, b, upto - 1);
    }
}

/// Distinct candidates never share a rank: the ranking is a permutation.
pub proof fn lemma_rank_injective(scores: Seq<i64>, a: int, b: int)
    requires
        0 <= a < scores.len(),
        0 <= b < scores.len(),
        rank_of(scores, a) == rank_of(scores, b),
    ensures
        a == b,
{
    if a != b {
        if beats(scores, a, b) {
            lemma_better_counts_ordered(scores, a, b, scores.len() as int);
        } else {
            lemma_better_counts_ordered(scores, b, a, scores.len() as int);
        }
    }
}

/// The candidates ordered from best to worst: entry `r` of the result is
/// the candidate of rank `r`. Equal scores keep the lower model index
/// first (the documented tie-break).
#[verifier::loop_isolation(false)]
pub fn ranked_order(scores: &Vec<i64>) -> (order: Vec<usize>)
    ensures
        order@.len() == scores@.len(),
        forall|i: int|
            0 <= i < scores@.len() ==> order@[rank_of(scores@, i) as int] == i,
{
    let n = scores.len();
    let mut order: Vec<usize> = Vec::new();
    while order.len() < n
        invariant
            order@.len() <= n,
        decreases n - order@.len(),
    {
        order.push(0);
    }
    let mut i: usize = 0;
    while i < n
        invariant
            i <= n,
            order@.len() == n,
            forall|l: int|
                0 <= l < i ==> order@[rank_of(scores@, l) as int] == l,
        decreases n - i,
    {
        let r = rank_index(scores, i);
        proof {
            lemma_rank_lt_len(scores@, i as int);
            assert forall|l: int| 0 <= l < i implies rank_of(scores@, l) != rank_of(
                scores@,
                i as int,
            ) && rank_of(scores@, l) < scores@.len() by {
                lemma_rank_lt_len(scores@, l);
                if rank_of(scores@, l) == rank_of(scores@, i as int) {
                    lemma_rank_injective(scores@, l, i as int);
                }
            }
        }
        order[r] = i;
        i += 1;
    }
    order
}

/// The index of the best candidate: the lowest index reaching the maximum
/// score.
#[verifier::loop_isolation(false)]
fn best_index(scores: &Vec<i64>) -> (b: usize)
    requires
        scores@.len() >= 1,
    ensures
        is_best(scores@, b as int),
{
    let mut b: usize = 0;
    let mut j: usize = 1;
    while j < scores.len()
        invariant
            b < j <= scores@.len(),
            forall|l: int| 0 <= l < j ==> !beats(scores@, l, b as int),
        decreases scores@.len() - j,
    {
        if scores[j] > scores[b] {
            proof {
                assert forall|l: int| 0 <= l < j implies !beats(scores@, l, j as int) by {
                    assert(!beats(scores@, l, b as int));
                }
            }
            b = j;
        }
        j += 1;
    }
    b
}

/// The 0-based rank of candidate `i` under the documented ordering.
#[verifier::loop_isolation(false)]
fn rank_index(scores: &Vec<i64>, i: usize) -> (r: usize)
    requires
        (i as int) < scores@.len(),
    ensures
        r == rank_of(scores@, i as int),
{
    let mut cnt: usize = 0;
    let mut j: usize = 0;
    while j < scores.len()
        invariant
            j <= scores@.len(),
            cnt == num_better_upto(scores@, i as int, j as int),
            cnt <= j,
        decreases scores@.len() - j,
    {
        if scores[j] > scores[i] || (scores[j] == scores[i] && j < i) {
            cnt += 1;
        }
        j += 1;
    }
    cnt
}

/// Sum of the first `upto` entries of a matrix row.
pub open spec fn row_sum_upto(row: Seq<i32>, upto: int) -> int
    decreases upto,
{
    if upto <= 0 {
        0int
    } else {
        row_sum_upto(row, upto - 1) + row[upto - 1]
    }
}

/// Updating one entry moves a row sum by exactly the difference.
proof fn lemma_row_sum_update(row: Seq<i32>, j: int, v: i32, upto: int)
    requires
        0 <= j < row.len(),
        upto <= row.len(),
    ensures
        row_sum_upto(row.update(j, v), upto) == row_sum_upto(row, upto) + (if j < upto {
            v - row[j]
        } else {
            0int
        }),
    decreases upto,
{
    if upto > 0 {
        lemma_row_sum_update(row, j, v, upto - 1);
    }
}

/// With non-negative entries, row sums grow with the range.
proof fn lemma_row_sum_mono(row: Seq<i32>, u1: int, u2: int)
    requires
        0 <= u1 <= u2 <= row.len(),
        forall|j: int| 0 <= j < row.len() ==> row[j] >= 0,
    ensures
        row_sum_upto(row, u1) <= row_sum_upto(row, u2),
    decreases u2 - u1,
{
    if u1 < u2 {
        lemma_row_sum_mono(row, u1, u2 - 1);
    }
}

/// An all-zero prefix sums to zero.
proof fn lemma_row_sum_zero(row: Seq<i32>, upto: int)
    requires
        upto <= row.len(),
        forall|j: int| 0 <= j < row.len() ==> row[j] == 0,
    ensures
        row_sum_upto(row, upto) == 0,
    decreases upto,
{
    if upto > 0 {
        lemma_row_sum_zero(row, upto - 1);
    }
}

/// Sum of entry `j` over the first `upto` rows of a matrix.
pub open spec fn col_sum_upto(mat: Seq<Vec<i32>>, j: int, upto: int) -> int
    decreases upto,
{
    if upto <= 0 {
        0int
    } else {
        col_sum_upto(mat, j, upto - 1) + mat[upto - 1]@[j]
    }
}

/// An all-zero column prefix sums to zero.
proof fn lemma_col_sum_zero(mat: Seq<Vec<i32>>, j: int, upto: int)
    requires
        forall|i: int| 0 <= i < upto ==> (#[trigger] mat[i])@[j] == 0,
    ensures
        col_sum_upto(mat, j, upto) == 0,
    decreases upto,
{
    if upto > 0 {
        lemma_col_sum_zero(mat, j, upto - 1);
    }
}

/// Changing column `j` of a single row moves the column sum by exactly
/// that row's difference.
proof fn lemma_col_sum_single_delta(
    pre: Seq<Vec<i32>>,
    post: Seq<Vec<i32>>,
    j: int,
    upto: int,
    tgt: int,
    d: int,
)
    requires
        forall|i: int|
            0 <= i < upto ==> (#[trigger] post[i])@[j] == pre[i]@[j] + (if i == tgt {
                d
            } else {
                0int
            }),
    ensures
        col_sum_upto(post, j, upto) == col_sum_upto(pre, j, upto) + (if 0 <= tgt < upto {
            d
        } else {
            0int
        }),
    decreases upto,
{
    if upto > 0 {
        lemma_col_sum_single_delta(pre, post, j, upto - 1, tgt, d);
    }
}

/// Pointwise equal row prefixes have equal sums.
proof fn lemma_row_sum_pointwise(r1: Seq<i32>, r2: Seq<i32>, upto: int)
    requires
        forall|j: int| 0 <= j < upto ==> r1[j] == (#[trigger] r2[j]),
    ensures
        row_sum_upto(r1, upto) == row_sum_upto(r2, upto),
    decreases upto,
{
    if upto > 0 {
        lemma_row_sum_pointwise(r1, r2, upto - 1);
    }
}

/// Adding 1 at one column moves the row sum by 1 when that column is
/// inside the range.
proof fn lemma_row_sum_single_delta(pre: Seq<i32>, post: Seq<i32>, upto: int, tgt: int)
    requires
        forall|j: int|
            0 <= j < upto ==> (#[trigger] post[j]) == pre[j] + (if j == tgt {
                1int
            } else {
                0int
            }),
    ensures
        row_sum_upto(post, upto) == row_sum_upto(pre, upto) + (if 0 <= tgt < upto {
            1int
        } else {
            0int
        }),
    decreases upto,
{
    if upto > 0 {
        lemma_row_sum_single_delta(pre, post, upto - 1, tgt);
    }
}

/// Adding `d` at two distinct columns moves the row sum by `d` for each
/// column inside the range.
proof fn lemma_row_sum_double_delta(
    pre: Seq<i32>,
    post: Seq<i32>,
    upto: int,
    t1: int,
    t2: int,
    d: int,
)
    requires
        t1 != t2,
        forall|j: int|
            0 <= j < upto ==> (#[trigger] post[j]) == pre[j] + (if j == t1 || j == t2 {
                d
            } else {
                0int
            }),
    ensures
        row_sum_upto(post, upto) == row_sum_upto(pre, upto) + (if 0 <= t1 < upto {
            d
        } else {
            0int
        }) + (if 0 <= t2 < upto {
            d
        } else {
            0int
        }),
    decreases upto,
{
    if upto > 0 {
        lemma_row_sum_double_delta(pre, post, upto - 1, t1, t2, d);
    }
}

/// The outcome of classifying one test case.
pub struct CaseOutcome {
    /// The best-ranked model.
    pub best: usize,
    /// The 0-based rank of the true class's model.
    pub rank: usize,
}

/// Accumulated classification results over one run.
///
/// With `n` models, `result` is an `(n + 1) x (n + 1)` matrix: row `i < n`
/// belongs to class `i` and row `n` holds the totals; column 0 counts test
/// cases, column `r` for `r >= 1` counts cases whose true class came out at
/// rank `r`. `confusion[i][j]` counts cases of true class `i` classified as
/// `j` (its row `n` and column `n` stay zero).
pub struct C12nResults {
    pub model_class_names: Vec<String>,
    pub result: Vec<Vec<i32>>,
    pub confusion: Vec<Vec<i32>>,
}

impl C12nResults {
    /// The number of models (= classes) of the run.
    pub open spec fn num_models(&self) -> int {
        self.model_class_names@.len() as int
    }

    /// The number of test cases accumulated so far.
    pub open spec fn num_cases(&self) -> int {
        self.result@[self.num_models()]@[0] as int
    }

    /// Shape and counting sanity: both matrices are `(n + 1) x (n + 1)`,
    /// all entries are counts between 0 and the number of cases, and each
    /// confusion row sums to at most the number of cases.
    pub open spec fn wf(&self) -> bool {
        let n = self.num_models();
        &&& self.result@.len() == n + 1
        &&& self.confusion@.len() == n + 1
        &&& forall|i: int| 0 <= i <= n ==> (#[trigger] self.result@[i])@.len() == n + 1
        &&& forall|i: int| 0 <= i <= n ==> (#[trigger] self.confusion@[i])@.len() == n + 1
        &&& forall|i: int, j: int|
            0 <= i <= n && 0 <= j <= n ==> 0 <= (#[trigger] self.result@[i]@[j])
                <= self.num_cases()
        &&& forall|i: int, j: int|
            0 <= i <= n && 0 <= j <= n ==> 0 <= (#[trigger] self.confusion@[i]@[j])
                <= self.num_cases()
        &&& forall|i: int|
            0 <= i <= n ==> row_sum_upto((#[trigger] self.confusion@[i])@, n + 1)
                <= self.num_cases()
    }

    /// The counting laws of the accumulator, kept by every case:
    /// the totals row is the column-wise sum of the class rows; each
    /// class's confusion row accounts for each of its cases exactly once;
    /// and each row's rank columns account for each of its cases exactly
    /// once (so every case lands at exactly one rank).
    pub open spec fn counts_consistent(&self) -> bool {
        let n = self.num_models();
        &&& forall|j: int|
            0 <= j <= n ==> (#[trigger] self.result@[n]@[j]) == col_sum_upto(self.result@, j, n)
        &&& forall|i: int|
            0 <= i < n ==> row_sum_upto((#[trigger] self.confusion@[i])@, n + 1)
                == self.result@[i]@[0]
        &&& forall|i: int|
            0 <= i <= n ==> row_sum_upto((#[trigger] self.result@[i])@, n + 1) == 2
                * self.result@[i]@[0]
    }

    /// A fresh accumulator: one row and column per model plus the totals,
    /// every counter zero.
    pub fn new(model_class_names: Vec<String>) -> (r: C12nResults)
        requires
            model_class_names@.len() < usize::MAX,
        ensures
            r.wf(),
            r.counts_consistent(),
            r.model_class_names@ == model_class_names@,
            r.num_cases() == 0,
            forall|i: int, j: int|
                0 <= i <= r.num_models() && 0 <= j <= r.num_models() ==> (
                #[trigger] r.result@[i]@[j]) == 0 && (#[trigger] r.confusion@[i]@[j]) == 0,
    {
        let n = model_class_names.len();
        let result = zero_matrix(n + 1);
        let confusion = zero_matrix(n + 1);
        let r = C12nResults { model_class_names, result, confusion };
        proof {
            assert forall|i: int| 0 <= i <= r.num_models() implies row_sum_upto(
                (#[trigger] r.confusion@[i])@,
                r.num_models() + 1,
            ) == 0 by {
                lemma_row_sum_zero(r.confusion@[i]@, r.num_models() + 1);
            }
            assert forall|j: int| 0 <= j <= r.num_models() implies (
            #[trigger] r.result@[r.num_models()]@[j]) == col_sum_upto(
                r.result@,
                j,
                r.num_models(),
            ) by {
                lemma_col_sum_zero(r.result@, j, r.num_models());
            }
            assert forall|i: int| 0 <= i <= r.num_models() implies row_sum_upto(
                (#[trigger] r.result@[i])@,
                r.num_models() + 1,
            ) == 2 * r.result@[i]@[0] by {
                lemma_row_sum_zero(r.result@[i]@, r.num_models() + 1);
            }
        }
        r
    }

    /// Accumulates one classified test case.
    ///
    /// `scores` holds one order key per model, in model order: a higher key
    /// means the model assigned the sequence a higher log-likelihood. The
    /// total-test counters of the totals row and of the true class's row go
    /// up by one; the confusion cell of (true class, best candidate) goes up
    /// by one; and the rank column of the true class's rank goes up by one
    /// in both rows (column 1 exactly when the case was classified
    /// correctly). Everything else is untouched.
    #[verifier::loop_isolation(false)]
    pub fn add_case(&mut self, class_id: usize, scores: &Vec<i64>) -> (outcome: CaseOutcome)
        requires
            old(self).wf(),
            (class_id as int) < old(self).num_models(),
            scores@.len() == old(self).num_models(),
            old(self).num_cases() < i32::MAX,
        ensures
            final(self).wf(),
            old(self).counts_consistent() ==> final(self).counts_consistent(),
            final(self).model_class_names@ == old(self).model_class_names@,
            final(self).num_cases() == old(self).num_cases() + 1,
            is_best(scores@, outcome.best as int),
            outcome.rank == rank_of(scores@, class_id as int),
            (outcome.rank == 0) <==> (outcome.best == class_id),
            (outcome.rank as int) + 1 <= old(self).num_models(),
            forall|i: int, j: int|
                0 <= i <= old(self).num_models() && 0 <= j <= old(self).num_models() ==> (
                #[trigger] final(self).result@[i]@[j]) == old(self).result@[i]@[j] + (if (i
                    == old(self).num_models() || i == class_id) && (j == 0 || j == outcome.rank
                    + 1) {
                    1int
                } else {
                    0int
                }),
            forall|i: int, j: int|
                0 <= i <= old(self).num_models() && 0 <= j <= old(self).num_models() ==> (
                #[trigger] final(self).confusion@[i]@[j]) == old(self).confusion@[i]@[j] + (if i
                    == class_id && j == outcome.best {
                    1int
                } else {
                    0int
                }),
    {
        let n = self.model_class_names.len();
        let best = best_index(scores);
        let rank = rank_index(scores, class_id);
        proof {
            lemma_rank_zero_iff_best(scores@, class_id as int);
            lemma_best_unique_if_rank_zero(scores@, class_id as int, best as int);
            lemma_rank_lt_len(scores@, class_id as int);
        }

        bump_count(&mut self.result, n, 0);
        bump_count(&mut self.result, class_id, 0);
        bump_count(&mut self.result, n, rank + 1);
        bump_count(&mut self.result, class_id, rank + 1);

        proof {
            let cn = self.confusion@[class_id as int]@;
            lemma_row_sum_update(
                cn,
                best as int,
                (self.confusion@[class_id as int]@[best as int] + 1) as i32,
                n + 1,
            );
        }
        bump_count(&mut self.confusion, class_id, best);

        proof {
            if old(self).counts_consistent() {
                let n = old(self).num_models();
                assert forall|j: int| 0 <= j <= n implies (#[trigger] self.result@[n]@[j])
                    == col_sum_upto(self.result@, j, n) by {
                    lemma_col_sum_single_delta(
                        old(self).result@,
                        self.result@,
                        j,
                        n,
                        class_id as int,
                        (if j == 0 || j == rank + 1 {
                            1int
                        } else {
                            0int
                        }),
                    );
                }
                assert forall|i: int| 0 <= i < n implies row_sum_upto(
                    (#[trigger] self.confusion@[i])@,
                    n + 1,
                ) == self.result@[i]@[0] by {
                    if i == class_id {
                        lemma_row_sum_single_delta(
                            old(self).confusion@[i]@,
                            self.confusion@[i]@,
                            n + 1,
                            best as int,
                        );
                    } else {
                        lemma_row_sum_pointwise(old(self).confusion@[i]@, self.confusion@[i]@, n + 1);
                    }
                }
                assert forall|i: int| 0 <= i <= n implies row_sum_upto(
                    (#[trigger] self.result@[i])@,
                    n + 1,
                ) == 2 * self.result@[i]@[0] by {
                    if i == class_id || i == n {
                        lemma_row_sum_double_delta(
                            old(self).result@[i]@,
                            self.result@[i]@,
                            n + 1,
                            0,
                            rank + 1,
                            1,
                        );
                    } else {
                        lemma_row_sum_pointwise(old(self).result@[i]@, self.result@[i]@, n + 1);
                    }
                }
            }
        }

        CaseOutcome { best, rank }
    }

    /// The per-class and total accuracy counts that a report renders:
    /// `None` when no case was accumulated (reporting is then a no-op).
    ///
    /// The rows list exactly the classes with at least one test case, in
    /// class order, each with its test and rank-1-correct counts; the
    /// totals carry the same two counts over all classes. Accuracy is
    /// `correct / tests` of a row, and the average per-class accuracy is
    /// the plain mean of the rows' accuracies: both divisions are the
    /// renderer's.
    pub fn report_stats(&self) -> (r: Option<ReportStats>)
        requires
            self.wf(),
        ensures
            (r is None) <==> (self.num_cases() == 0 || self.num_models() == 0),
            r matches Some(st) ==> {
                &&& st.total_tests == self.num_cases()
                &&& st.total_correct == self.result@[self.num_models()]@[1]
                &&& st.classes@.len() == self.tested_classes(self.num_models()).len()
                &&& forall|l: int|
                    0 <= l < st.classes@.len() ==> (#[trigger] st.classes@[l]).class_id
                        == self.tested_classes(self.num_models())[l]
                &&& forall|l: int|
                    0 <= l < st.classes@.len() ==> (#[trigger] st.classes@[l]).tests
                        == self.result@[st.classes@[l].class_id as int]@[0]
                &&& forall|l: int|
                    0 <= l < st.classes@.len() ==> (#[trigger] st.classes@[l]).correct
                        == self.result@[st.classes@[l].class_id as int]@[1]
            },
    {
        let n = self.model_class_names.len();
        if n == 0 || self.result[n][0] == 0 {
            return None;
        }
        let mut classes: Vec<ClassStat> = Vec::new();
        let mut i: usize = 0;
        while i < n
            invariant
                i <= n,
                n == self.num_models(),
                self.wf(),
                classes@.len() == self.tested_classes(i as int).len(),
                forall|l: int|
                    0 <= l < classes@.len() ==> (#[trigger] classes@[l]).class_id
                        == self.tested_classes(i as int)[l],
                forall|l: int|
                    0 <= l < classes@.len() ==> (#[trigger] classes@[l]).tests
                        == self.result@[classes@[l].class_id as int]@[0],
                forall|l: int|
                    0 <= l < classes@.len() ==> (#[trigger] classes@[l]).correct
                        == self.result@[classes@[l].class_id as int]@[1],
            decreases n - i,
        {
            if self.result[i][0] > 0 {
                classes.push(
                    ClassStat {
                        class_id: i,
                        tests: self.result[i][0],
                        correct: self.result[i][1],
                    },
                );
            }
            i += 1;
        }
        Some(
            ReportStats { classes, total_tests: self.result[n][0], total_correct: self.result[n][1] },
        )
    }

    /// The class ids among the first `upto` classes that have at least one
    /// test case, in class order.
    pub open spec fn tested_classes(&self, upto: int) -> Seq<int>
        decreases upto,
    {
        if upto <= 0 {
            Seq::empty()
        } else {
            let pre = self.tested_classes(upto - 1);
            if self.result@[upto - 1]@[0] > 0 {
                pre.push(upto - 1)
            } else {
                pre
            }
        }
    }

    /// Errors of a confusion-matrix row: cases of true class `i` predicted
    /// as some other class that has test cases of its own (classes without
    /// test cases are left out of the rendered matrix and of this count).
    pub open spec fn row_errors_upto(&self, i: int, upto: int) -> int
        decreases upto,
    {
        if upto <= 0 {
            0int
        } else {
            self.row_errors_upto(i, upto - 1) + (if upto - 1 != i && self.result@[upto - 1]@[0]
                > 0 {
                self.confusion@[i]@[upto - 1] as int
            } else {
                0int
            })
        }
    }

    /// The error count of confusion row `i`: how many of class `i`'s cases
    /// were predicted as a different (tested) class.
    #[verifier::loop_isolation(false)]
    pub fn row_errors(&self, i: usize) -> (e: i32)
        requires
            self.wf(),
            (i as int) < self.num_models(),
        ensures
            e == self.row_errors_upto(i as int, self.num_models()),
    {
        let n = self.model_class_names.len();
        let mut e: i32 = 0;
        let mut j: usize = 0;
        while j < n
            invariant
                j <= n,
                e == self.row_errors_upto(i as int, j as int),
                0 <= e,
                e <= row_sum_upto(self.confusion@[i as int]@, j as int),
            decreases n - j,
        {
            proof {
                lemma_row_sum_mono(self.confusion@[i as int]@, j + 1, n + 1);
                lemma_err_le_row_sum_step(self, i as int, j as int);
            }
            if j != i && self.result[j][0] > 0 {
                e = e + self.confusion[i][j];
            }
            j += 1;
        }
        e
    }
}

/// One reported class: its id, test count and rank-1-correct count.
pub struct ClassStat {
    pub class_id: usize,
    pub tests: i32,
    pub correct: i32,
}

/// The counts behind a rendered report: per tested class and in total.
pub struct ReportStats {
    pub classes: Vec<ClassStat>,
    pub total_tests: i32,
    pub total_correct: i32,
}

/// One step of: the error sum of a row never exceeds the row sum.
proof fn lemma_err_le_row_sum_step(c: &C12nResults, i: int, j: int)
    requires
        c.wf(),
        0 <= i <= c.num_models(),
        0 <= j <= c.num_models(),
        c.row_errors_upto(i, j) <= row_sum_upto(c.confusion@[i]@, j),
    ensures
        c.row_errors_upto(i, j + 1) <= row_sum_upto(c.confusion@[i]@, j + 1),
{
}

/// If the true class has rank zero it is the (unique) best candidate.
proof fn lemma_best_unique_if_rank_zero(scores: Seq<i64>, i: int, b: int)
    requires
        0 <= i < scores.len(),
        is_best(scores, b),
    ensures
        (rank_of(scores, i) == 0) <==> (b == i),
{
    lemma_rank_zero_iff_best(scores, i);
    if rank_of(scores, i) == 0 {
        lemma_best_unique(scores, i, b);
    } else {
        if b == i {
        }
    }
}

/// A square all-zero matrix of the given size.
fn zero_matrix(n: usize) -> (r: Vec<Vec<i32>>)
    ensures
        r@.len() == n,
        forall|i: int| 0 <= i < n ==> (#[trigger] r@[i])@.len() == n,
        forall|i: int, j: int| 0 <= i < n && 0 <= j < n ==> (#[trigger] r@[i]@[j]) == 0,
{
    let mut r: Vec<Vec<i32>> = Vec::new();
    while r.len() < n
        invariant
            r@.len() <= n,
            forall|i: int| 0 <= i < r@.len() ==> (#[trigger] r@[i])@.len() == n,
            forall|i: int, j: int| 0 <= i < r@.len() && 0 <= j < n ==> (#[trigger] r@[i]@[j]) == 0,
        decreases n - r@.len(),
    {
        let mut row: Vec<i32> = Vec::new();
        while row.len() < n
            invariant
                row@.len() <= n,
                forall|j: int| 0 <= j < row@.len() ==> (#[trigger] row@[j]) == 0,
            decreases n - row@.len(),
        {
            row.push(0);
        }
        r.push(row);
    }
    r
}

/// Adds one to entry `(i, j)` of a counter matrix, leaving the rest alone.
fn bump_count(mat: &mut Vec<Vec<i32>>, i: usize, j: usize)
    requires
        i < old(mat)@.len(),
        j < old(mat)@[i as int]@.len(),
        old(mat)@[i as int]@[j as int] < i32::MAX,
    ensures
        final(mat)@.len() == old(mat)@.len(),
        forall|r: int|
            0 <= r < old(mat)@.len() && r != i ==> (#[trigger] final(mat)@[r]) == old(mat)@[r],
        final(mat)@[i as int]@ == old(mat)@[i as int]@.update(
            j as int,
            (old(mat)@[i as int]@[j as int] + 1) as i32,
        ),
{
    let mut row = mat.remove(i);
    let v = row[j];
    row[j] = v + 1;
    mat.insert(i, row);
}

} // verus!
