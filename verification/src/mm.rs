//! First-order Markov models over a finite symbol alphabet, trained from
//! labeled sequences with add-one (Laplace) smoothing.
//!
//! Probabilities are kept as exact rationals: every entry of the initial
//! distribution is `pi_num[i] / pi_den`, every transition probability is
//! `a_num[i][j] / a_den[i]`. Training therefore has an exact contract; a
//! caller that wants real-valued probabilities (for log-likelihood scoring)
//! divides the pairs out.

use crate::sequence::Sequence;
use vstd::arithmetic::mul::lemma_mul_inequality;
use vstd::prelude::*;

verus! {

/// Number of consecutive symbol pairs in a sequence.
pub open spec fn pair_count(sym: Seq<usize>) -> int {
    if sym.len() == 0 {
        0int
    } else {
        sym.len() - 1
    }
}

/// 1 if the sequence starts with symbol `i`, else 0.
pub open spec fn init_hit(s: Sequence, i: int) -> nat {
    if s.symbols@.len() > 0 && s.symbols@[0] == i {
        1nat
    } else {
        0nat
    }
}

/// How many of the given sequences start with symbol `i`.
pub open spec fn first_count(seqs: Seq<Sequence>, i: int) -> nat
    decreases seqs.len(),
{
    if seqs.len() == 0 {
        0nat
    } else {
        first_count(seqs.drop_last(), i) + init_hit(seqs.last(), i)
    }
}

/// Occurrences of the pair `(i, j)` among the first `upto` consecutive
/// pairs of one symbol sequence.
pub open spec fn trans_count_upto(sym: Seq<usize>, i: int, j: int, upto: int) -> nat
    decreases upto,
{
    if upto <= 0 {
        0nat
    } else {
        trans_count_upto(sym, i, j, upto - 1) + (if sym[upto - 1] == i && sym[upto] == j {
            1nat
        } else {
            0nat
        })
    }
}

/// Occurrences of symbol `i` among the first `upto` pair-leading positions
/// of one symbol sequence (i.e. how many of its first `upto` transitions
/// leave state `i`).
pub open spec fn out_count_upto(sym: Seq<usize>, i: int, upto: int) -> nat
    decreases upto,
{
    if upto <= 0 {
        0nat
    } else {
        out_count_upto(sym, i, upto - 1) + (if sym[upto - 1] == i {
            1nat
        } else {
            0nat
        })
    }
}

/// Occurrences of the transition `i -> j` in one whole symbol sequence.
pub open spec fn seq_trans_count(sym: Seq<usize>, i: int, j: int) -> nat {
    trans_count_upto(sym, i, j, pair_count(sym))
}

/// Transitions leaving state `i` in one whole symbol sequence.
pub open spec fn seq_out_count(sym: Seq<usize>, i: int) -> nat {
    out_count_upto(sym, i, pair_count(sym))
}

/// Occurrences of the transition `i -> j` over a whole list of sequences.
pub open spec fn trans_count(seqs: Seq<Sequence>, i: int, j: int) -> nat
    decreases seqs.len(),
{
    if seqs.len() == 0 {
        0nat
    } else {
        trans_count(seqs.drop_last(), i, j) + seq_trans_count(seqs.last().symbols@, i, j)
    }
}

/// Transitions leaving state `i` over a whole list of sequences.
pub open spec fn out_count(seqs: Seq<Sequence>, i: int) -> nat
    decreases seqs.len(),
{
    if seqs.len() == 0 {
        0nat
    } else {
        out_count(seqs.drop_last(), i) + seq_out_count(seqs.last().symbols@, i)
    }
}

/// A training batch must be homogeneous: every sequence carries the
/// codebook size and the class label of the first one.
pub open spec fn conforms(s: Sequence, codebook_size: usize, class_name: Seq<char>) -> bool {
    s.codebook_size == codebook_size && s.class_name@ == class_name
}

/// Training failure: a sequence disagrees with the first one on the
/// codebook size or on the class label. Both conflicting values are kept.
#[derive(Debug, PartialEq, Eq)]
pub enum ConformityError {
    CodebookSize { expected: usize, found: usize },
    ClassName { expected: String, found: String },
}

/// The error reported for offending sequence `s` in a batch headed by
/// `first`: a codebook-size mismatch is reported before a label mismatch.
pub open spec fn error_for(first: Sequence, s: Sequence, e: ConformityError) -> bool {
    if s.codebook_size != first.codebook_size {
        e matches ConformityError::CodebookSize { expected, found } && expected
            == first.codebook_size && found == s.codebook_size
    } else {
        e matches ConformityError::ClassName { expected, found } && expected@
            == first.class_name@ && found@ == s.class_name@
    }
}

/// A trained first-order Markov model for one class.
///
/// Entry `i` of the initial distribution is the rational
/// `pi_num[i] / pi_den`; entry `(i, j)` of the transition matrix is
/// `a_num[i][j] / a_den[i]`.
#[derive(Debug)]
pub struct MM {
    pub class_name: String,
    pub codebook_size: usize,
    pub pi_num: Vec<u64>,
    pub pi_den: u64,
    pub a_num: Vec<Vec<u64>>,
    pub a_den: Vec<u64>,
}

impl MM {
    /// Shape and positivity: all tables have the alphabet's size, and no
    /// numerator or denominator is zero, so every probability of the model
    /// is strictly positive and every log-probability is finite. This is
    /// what the add-one smoothing is for.
    pub open spec fn wf(&self) -> bool {
        &&& self.codebook_size >= 1
        &&& self.pi_num@.len() == self.codebook_size
        &&& self.a_num@.len() == self.codebook_size
        &&& self.a_den@.len() == self.codebook_size
        &&& forall|i: int|
            0 <= i < self.codebook_size ==> (#[trigger] self.a_num@[i])@.len()
                == self.codebook_size
        &&& self.pi_den >= 1
        &&& forall|i: int| 0 <= i < self.codebook_size ==> (#[trigger] self.pi_num@[i]) >= 1
        &&& forall|i: int| 0 <= i < self.codebook_size ==> (#[trigger] self.a_den@[i]) >= 1
        &&& forall|i: int, j: int|
            0 <= i < self.codebook_size && 0 <= j < self.codebook_size ==> (
            #[trigger] self.a_num@[i]@[j]) >= 1
    }

    /// The exact probability factors whose product the model assigns to
    /// `seq`: first the initial probability of its first symbol, then one
    /// transition probability per consecutive pair. The log-probability of
    /// the sequence is the sum of the base-10 logarithms of these rationals;
    /// a renderer computes that sum in floating point.
    #[verifier::loop_isolation(false)]
    pub fn prob_factors(&self, seq: &Sequence) -> (r: Vec<(u64, u64)>)
        requires
            self.wf(),
            seq.symbols@.len() >= 1,
            forall|t: int|
                0 <= t < seq.symbols@.len() ==> (#[trigger] seq.symbols@[t]) < self.codebook_size,
        ensures
            r@.len() == seq.symbols@.len(),
            r@[0] == (self.pi_num@[seq.symbols@[0] as int], self.pi_den),
            forall|t: int|
                1 <= t < r@.len() ==> (#[trigger] r@[t]) == (
                self.a_num@[seq.symbols@[t - 1] as int]@[seq.symbols@[t] as int],
                self.a_den@[seq.symbols@[t - 1] as int],
                ),
    {
        let mut r: Vec<(u64, u64)> = Vec::new();
        let s0 = seq.symbols[0];
        r.push((self.pi_num[s0], self.pi_den));
        let mut t: usize = 1;
        while t < seq.symbols.len()
            invariant
                1 <= t <= seq.symbols@.len(),
                r@.len() == t,
                r@[0] == (self.pi_num@[seq.symbols@[0] as int], self.pi_den),
                forall|u: int|
                    1 <= u < t ==> (#[trigger] r@[u]) == (
                    self.a_num@[seq.symbols@[u - 1] as int]@[seq.symbols@[u] as int],
                    self.a_den@[seq.symbols@[u - 1] as int],
                    ),
            decreases seq.symbols@.len() - t,
        {
            let prev = seq.symbols[t - 1];
            let cur = seq.symbols[t];
            let row = &self.a_num[prev];
            r.push((row[cur], self.a_den[prev]));
            t += 1;
        }
        r
    }
}

/// Sum of the first `upto` entries of a numerator table.
pub open spec fn num_sum_upto(row: Seq<u64>, upto: int) -> int
    decreases upto,
{
    if upto <= 0 {
        0int
    } else {
        num_sum_upto(row, upto - 1) + row[upto - 1]
    }
}

/// Sum of `init_hit` over the symbols below `upto`.
spec fn sum_init_hit(s: Sequence, upto: int) -> int
    decreases upto,
{
    if upto <= 0 {
        0int
    } else {
        sum_init_hit(s, upto - 1) + init_hit(s, upto - 1)
    }
}

/// Sum of `first_count` over the symbols below `upto`.
spec fn sum_first(seqs: Seq<Sequence>, upto: int) -> int
    decreases upto,
{
    if upto <= 0 {
        0int
    } else {
        sum_first(seqs, upto - 1) + first_count(seqs, upto - 1)
    }
}

/// Sum over `j < kj` of the transition count `i -> j` among the first
/// `upto` pairs of one symbol sequence.
spec fn sum_trans_upto_j(sym: Seq<usize>, i: int, kj: int, upto: int) -> int
    decreases kj,
{
    if kj <= 0 {
        0int
    } else {
        sum_trans_upto_j(sym, i, kj - 1, upto) + trans_count_upto(sym, i, kj - 1, upto)
    }
}

/// Sum over `j < kj` of the transition count `i -> j` over a list of
/// sequences.
spec fn sum_trans_j(seqs: Seq<Sequence>, i: int, kj: int) -> int
    decreases kj,
{
    if kj <= 0 {
        0int
    } else {
        sum_trans_j(seqs, i, kj - 1) + trans_count(seqs, i, kj - 1)
    }
}

/// A non-empty sequence starts with exactly one symbol: summed over a
/// whole alphabet that covers it, `init_hit` is 1.
proof fn lemma_sum_init_hit(s: Sequence, upto: int)
    ensures
        sum_init_hit(s, upto) == (if s.symbols@.len() > 0 && 0 <= s.symbols@[0] < upto {
            1int
        } else {
            0int
        }),
    decreases upto,
{
    if upto > 0 {
        lemma_sum_init_hit(s, upto - 1);
    }
}

/// Splitting the last sequence off commutes with summing `first_count`
/// over the alphabet.
proof fn lemma_sum_first_step(seqs: Seq<Sequence>, upto: int)
    requires
        seqs.len() > 0,
    ensures
        sum_first(seqs, upto) == sum_first(seqs.drop_last(), upto) + sum_init_hit(
            seqs.last(),
            upto,
        ),
    decreases upto,
{
    if upto > 0 {
        lemma_sum_first_step(seqs, upto - 1);
    }
}

/// Each of the sequences starts with exactly one symbol of the alphabet,
/// so the first counts of the whole alphabet sum to the number of
/// sequences.
proof fn lemma_sum_first_total(seqs: Seq<Sequence>, k: int)
    requires
        forall|m: int|
            0 <= m < seqs.len() ==> (#[trigger] seqs[m]).symbols@.len() >= 1 && seqs[m].symbols@[0]
                < k,
    ensures
        sum_first(seqs, k) == seqs.len(),
    decreases seqs.len(),
{
    if seqs.len() == 0 {
        lemma_sum_first_empty(seqs, k);
    } else {
        lemma_sum_first_step(seqs, k);
        lemma_sum_init_hit(seqs.last(), k);
        lemma_sum_first_total(seqs.drop_last(), k);
    }
}

/// Over no sequences every first count is zero, and so is their sum.
proof fn lemma_sum_first_empty(seqs: Seq<Sequence>, upto: int)
    requires
        seqs.len() == 0,
    ensures
        sum_first(seqs, upto) == 0,
    decreases upto,
{
    if upto > 0 {
        lemma_sum_first_empty(seqs, upto - 1);
    }
}

/// With no pairs there are no transitions to sum.
proof fn lemma_sum_trans_upto_zero(sym: Seq<usize>, i: int, kj: int)
    ensures
        sum_trans_upto_j(sym, i, kj, 0) == 0,
    decreases kj,
{
    if kj > 0 {
        lemma_sum_trans_upto_zero(sym, i, kj - 1);
    }
}

/// Taking one more pair into account adds 1 to the summed transition
/// counts exactly when that pair leaves state `i` for a state below `kj`.
proof fn lemma_sum_trans_unfold(sym: Seq<usize>, i: int, kj: int, upto: int)
    requires
        upto >= 1,
    ensures
        sum_trans_upto_j(sym, i, kj, upto) == sum_trans_upto_j(sym, i, kj, upto - 1) + (if sym[upto
            - 1] == i && sym[upto] < kj {
            1int
        } else {
            0int
        }),
    decreases kj,
{
    if kj > 0 {
        lemma_sum_trans_unfold(sym, i, kj - 1, upto);
    }
}

/// Every pair leaving state `i` goes to exactly one state of an alphabet
/// that covers the sequence: the transition counts of row `i` sum to the
/// outgoing count of `i`.
proof fn lemma_sum_trans_eq_out(sym: Seq<usize>, i: int, kj: int, upto: int)
    requires
        0 <= upto <= pair_count(sym),
        forall|t: int| 0 <= t < sym.len() ==> (#[trigger] sym[t]) < kj,
    ensures
        sum_trans_upto_j(sym, i, kj, upto) == out_count_upto(sym, i, upto),
    decreases upto,
{
    if upto == 0 {
        lemma_sum_trans_upto_zero(sym, i, kj);
    } else {
        lemma_sum_trans_eq_out(sym, i, kj, upto - 1);
        lemma_sum_trans_unfold(sym, i, kj, upto);
    }
}

/// Over no sequences every transition count is zero, and so is their sum.
proof fn lemma_sum_trans_j_empty(seqs: Seq<Sequence>, i: int, kj: int)
    requires
        seqs.len() == 0,
    ensures
        sum_trans_j(seqs, i, kj) == 0,
    decreases kj,
{
    if kj > 0 {
        lemma_sum_trans_j_empty(seqs, i, kj - 1);
    }
}

/// Splitting the last sequence off commutes with summing transition
/// counts over the alphabet.
proof fn lemma_sum_trans_j_step(seqs: Seq<Sequence>, i: int, kj: int)
    requires
        seqs.len() > 0,
    ensures
        sum_trans_j(seqs, i, kj) == sum_trans_j(seqs.drop_last(), i, kj) + sum_trans_upto_j(
            seqs.last().symbols@,
            i,
            kj,
            pair_count(seqs.last().symbols@),
        ),
    decreases kj,
{
    if kj > 0 {
        lemma_sum_trans_j_step(seqs, i, kj - 1);
    }
}

/// The transition counts of row `i` over a whole list of sequences sum to
/// the outgoing count of `i`.
proof fn lemma_sum_trans_j_total(seqs: Seq<Sequence>, i: int, kj: int)
    requires
        forall|m: int, t: int|
            0 <= m < seqs.len() && 0 <= t < (#[trigger] seqs[m]).symbols@.len() ==> (
            #[trigger] seqs[m].symbols@[t]) < kj,
    ensures
        sum_trans_j(seqs, i, kj) == out_count(seqs, i),
    decreases seqs.len(),
{
    if seqs.len() == 0 {
        lemma_sum_trans_j_empty(seqs, i, kj);
    } else {
        lemma_sum_trans_j_step(seqs, i, kj);
        lemma_sum_trans_eq_out(
            seqs.last().symbols@,
            i,
            kj,
            pair_count(seqs.last().symbols@),
        );
        lemma_sum_trans_j_total(seqs.drop_last(), i, kj);
    }
}

/// A numerator table whose entries are `1 + count` sums to `upto` plus the
/// summed counts: the initial distribution's case.
proof fn lemma_pi_num_sum(model: MM, seqs: Seq<Sequence>, upto: int)
    requires
        upto <= model.codebook_size,
        model.pi_num@.len() == model.codebook_size,
        forall|i: int|
            0 <= i < model.codebook_size ==> (#[trigger] model.pi_num@[i]) == 1 + first_count(
                seqs,
                i,
            ),
    ensures
        num_sum_upto(model.pi_num@, upto) == upto + sum_first(seqs, upto) || upto < 0,
    decreases upto,
{
    if upto > 0 {
        lemma_pi_num_sum(model, seqs, upto - 1);
    }
}

/// A transition row whose entries are `1 + count` sums to `upto` plus the
/// summed counts.
proof fn lemma_row_num_sum(model: MM, seqs: Seq<Sequence>, i: int, upto: int)
    requires
        0 <= i < model.codebook_size,
        upto <= model.codebook_size,
        model.a_num@.len() == model.codebook_size,
        model.a_num@[i]@.len() == model.codebook_size,
        forall|i2: int, j: int|
            0 <= i2 < model.codebook_size && 0 <= j < model.codebook_size ==> (
            #[trigger] model.a_num@[i2]@[j]) == 1 + trans_count(seqs, i2, j),
    ensures
        num_sum_upto(model.a_num@[i]@, upto) == upto + sum_trans_j(seqs, i, upto) || upto < 0,
    decreases upto,
{
    if upto > 0 {
        lemma_row_num_sum(model, seqs, i, upto - 1);
    }
}

/// The smoothed tables of a trained model are exact probability
/// distributions: the initial-distribution numerators sum to their
/// denominator, and every transition row's numerators sum to that row's
/// denominator. (The real-valued tables a renderer divides out sum to 1
/// up to rounding only; the rationals sum to 1 exactly.)
pub proof fn lemma_trained_rows_sum_to_denominators(model: MM, seqs: Seq<Sequence>)
    requires
        model.wf(),
        forall|m: int|
            0 <= m < seqs.len() ==> (#[trigger] seqs[m]).wf() && seqs[m].codebook_size
                == model.codebook_size && seqs[m].symbols@.len() >= 1,
        model.pi_den == seqs.len() + model.codebook_size,
        forall|i: int|
            0 <= i < model.codebook_size ==> (#[trigger] model.pi_num@[i]) == 1 + first_count(
                seqs,
                i,
            ),
        forall|i: int|
            0 <= i < model.codebook_size ==> (#[trigger] model.a_den@[i]) == model.codebook_size
                + out_count(seqs, i),
        forall|i: int, j: int|
            0 <= i < model.codebook_size && 0 <= j < model.codebook_size ==> (
            #[trigger] model.a_num@[i]@[j]) == 1 + trans_count(seqs, i, j),
    ensures
        num_sum_upto(model.pi_num@, model.codebook_size as int) == model.pi_den,
        forall|i: int|
            0 <= i < model.codebook_size ==> num_sum_upto(
                model.a_num@[i]@,
                model.codebook_size as int,
            ) == model.a_den@[i],
{
    let k = model.codebook_size as int;
    lemma_pi_num_sum(model, seqs, k);
    lemma_sum_first_total(seqs, k);
    assert forall|i: int| 0 <= i < k implies num_sum_upto(model.a_num@[i]@, k)
        == model.a_den@[i] by {
        lemma_row_num_sum(model, seqs, i, k);
        lemma_sum_trans_j_total(seqs, i, k);
    }
}

/// The position of the model whose class label a test sequence carries:
/// the first index of `names` holding `name`, if any. A test sequence whose
/// label matches no model is skipped by a classification run.
#[verifier::loop_isolation(false)]
pub fn find_class_id(names: &Vec<String>, name: &String) -> (r: Option<usize>)
    ensures
        r matches Some(i) ==> 0 <= i < names@.len() && names@[i as int]@ == name@ && (forall|
            l: int,
        |
            0 <= l < i ==> (#[trigger] names@[l])@ != name@),
        (r is None) <==> (forall|l: int|
            0 <= l < names@.len() ==> (#[trigger] names@[l])@ != name@),
{
    let mut i: usize = 0;
    while i < names.len()
        invariant
            i <= names@.len(),
            forall|l: int| 0 <= l < i ==> (#[trigger] names@[l])@ != name@,
        decreases names@.len() - i,
    {
        if names[i] == *name {
            return Some(i);
        }
        i += 1;
    }
    None
}

/// A vector of `n` copies of `v`.
fn filled_u64(n: usize, v: u64) -> (r: Vec<u64>)
    ensures
        r@.len() == n,
        forall|i: int| 0 <= i < n ==> (#[trigger] r@[i]) == v,
{
    let mut r: Vec<u64> = Vec::new();
    while r.len() < n
        invariant
            r@.len() <= n,
            forall|i: int| 0 <= i < r@.len() ==> (#[trigger] r@[i]) == v,
        decreases n - r@.len(),
    {
        r.push(v);
    }
    r
}

/// An `n` by `n` matrix filled with `v`.
fn filled_matrix(n: usize, v: u64) -> (r: Vec<Vec<u64>>)
    ensures
        r@.len() == n,
        forall|i: int| 0 <= i < n ==> (#[trigger] r@[i])@.len() == n,
        forall|i: int, j: int| 0 <= i < n && 0 <= j < n ==> (#[trigger] r@[i]@[j]) == v,
{
    let mut r: Vec<Vec<u64>> = Vec::new();
    while r.len() < n
        invariant
            r@.len() <= n,
            forall|i: int| 0 <= i < r@.len() ==> (#[trigger] r@[i])@.len() == n,
            forall|i: int, j: int| 0 <= i < r@.len() && 0 <= j < n ==> (#[trigger] r@[i]@[j]) == v,
        decreases n - r@.len(),
    {
        r.push(filled_u64(n, v));
    }
    r
}

/// Adds one to entry `(i, j)` of a square matrix, leaving the rest alone.
fn bump(mat: &mut Vec<Vec<u64>>, i: usize, j: usize)
    requires
        i < old(mat)@.len(),
        j < old(mat)@[i as int]@.len(),
        old(mat)@[i as int]@[j as int] < u64::MAX,
    ensures
        final(mat)@.len() == old(mat)@.len(),
        forall|r: int|
            0 <= r < old(mat)@.len() && r != i ==> (#[trigger] final(mat)@[r]) == old(mat)@[r],
        final(mat)@[i as int]@ == old(mat)@[i as int]@.update(
            j as int,
            (old(mat)@[i as int]@[j as int] + 1) as u64,
        ),
{
    let mut row = mat.remove(i);
    let v = row[j];
    row[j] = v + 1;
    mat.insert(i, row);
    proof {
        assert forall|r: int| 0 <= r < old(mat)@.len() && r != i implies (#[trigger] mat@[r])
            == old(mat)@[r] by {
            if r < i {
            } else {
            }
        }
    }
}

/// The count of sequences starting with `i` never exceeds the number of
/// sequences.
proof fn lemma_first_count_le(seqs: Seq<Sequence>, i: int)
    ensures
        first_count(seqs, i) <= seqs.len(),
    decreases seqs.len(),
{
    if seqs.len() > 0 {
        lemma_first_count_le(seqs.drop_last(), i);
    }
}

/// A pair count over the first `upto` pairs never exceeds `upto`.
proof fn lemma_trans_upto_le(sym: Seq<usize>, i: int, j: int, upto: int)
    ensures
        trans_count_upto(sym, i, j, upto) <= (if upto >= 0 {
            upto
        } else {
            0
        }),
    decreases upto,
{
    if upto > 0 {
        lemma_trans_upto_le(sym, i, j, upto - 1);
    }
}

/// A leading-position count over the first `upto` pairs never exceeds
/// `upto`.
proof fn lemma_out_upto_le(sym: Seq<usize>, i: int, upto: int)
    ensures
        out_count_upto(sym, i, upto) <= (if upto >= 0 {
            upto
        } else {
            0
        }),
    decreases upto,
{
    if upto > 0 {
        lemma_out_upto_le(sym, i, upto - 1);
    }
}

/// If every sequence has at most `cap` consecutive pairs, the transition
/// count over the list is at most `len * cap`.
proof fn lemma_trans_count_le(seqs: Seq<Sequence>, i: int, j: int, cap: int)
    requires
        cap >= 0,
        forall|m: int|
            0 <= m < seqs.len() ==> pair_count((#[trigger] seqs[m]).symbols@) <= cap,
    ensures
        trans_count(seqs, i, j) <= seqs.len() * cap,
    decreases seqs.len(),
{
    if seqs.len() > 0 {
        lemma_trans_count_le(seqs.drop_last(), i, j, cap);
        lemma_trans_upto_le(seqs.last().symbols@, i, j, pair_count(seqs.last().symbols@));
        assert(seqs.drop_last().len() * cap + cap == seqs.len() * cap) by (nonlinear_arith)
            requires
                seqs.len() >= 1,
                seqs.drop_last().len() == seqs.len() - 1,
        ;
    }
}

/// If every sequence has at most `cap` consecutive pairs, the outgoing
/// count over the list is at most `len * cap`.
proof fn lemma_out_count_le(seqs: Seq<Sequence>, i: int, cap: int)
    requires
        cap >= 0,
        forall|m: int|
            0 <= m < seqs.len() ==> pair_count((#[trigger] seqs[m]).symbols@) <= cap,
    ensures
        out_count(seqs, i) <= seqs.len() * cap,
    decreases seqs.len(),
{
    if seqs.len() > 0 {
        lemma_out_count_le(seqs.drop_last(), i, cap);
        lemma_out_upto_le(seqs.last().symbols@, i, pair_count(seqs.last().symbols@));
        assert(seqs.drop_last().len() * cap + cap == seqs.len() * cap) by (nonlinear_arith)
            requires
                seqs.len() >= 1,
                seqs.drop_last().len() == seqs.len() - 1,
        ;
    }
}

/// Trains one class's Markov model from a homogeneous batch of sequences.
///
/// The first sequence fixes the expected class label and codebook size;
/// every sequence is checked against them and the first mismatch aborts
/// training with a `ConformityError` naming both conflicting values.
///
/// Counting uses add-one (Laplace) smoothing: every numerator starts at 1,
/// so `pi_num[i]` is one more than the number of sequences starting with
/// `i`, and `a_num[i][j]` is one more than the number of `i -> j`
/// transitions. The denominators are `num_sequences + codebook_size` for
/// the initial distribution and `outgoing(i) + codebook_size` for row `i`
/// of the transition matrix.
#[verifier::loop_isolation(false)]
pub fn learn(sequences: &Vec<Sequence>) -> (r: Result<MM, ConformityError>)
    requires
        sequences@.len() >= 1,
        sequences@.len() <= 0xFFFF_FFFF,
        sequences@[0].codebook_size <= 0xFFFF_FFFF,
        forall|m: int| 0 <= m < sequences@.len() ==> (#[trigger] sequences@[m]).wf(),
        forall|m: int|
            0 <= m < sequences@.len() ==> 1 <= (#[trigger] sequences@[m]).symbols@.len()
                <= 0xFFFF_FFFF,
    ensures
        (r is Ok) <==> (forall|m: int|
            0 <= m < sequences@.len() ==> conforms(
                #[trigger] sequences@[m],
                sequences@[0].codebook_size,
                sequences@[0].class_name@,
            )),
        r matches Ok(model) ==> {
            &&& model.wf()
            &&& model.class_name@ == sequences@[0].class_name@
            &&& model.codebook_size == sequences@[0].codebook_size
            &&& model.pi_den == sequences@.len() + sequences@[0].codebook_size
            &&& forall|i: int|
                0 <= i < model.codebook_size ==> (#[trigger] model.pi_num@[i]) == 1 + first_count(
                    sequences@,
                    i,
                )
            &&& forall|i: int|
                0 <= i < model.codebook_size ==> (#[trigger] model.a_den@[i])
                    == model.codebook_size + out_count(sequences@, i)
            &&& forall|i: int, j: int|
                0 <= i < model.codebook_size && 0 <= j < model.codebook_size ==> (
                #[trigger] model.a_num@[i]@[j]) == 1 + trans_count(sequences@, i, j)
        },
        r matches Err(e) ==> exists|m: int|
            {
                &&& 0 <= m < sequences@.len()
                &&& !conforms(
                    #[trigger] sequences@[m],
                    sequences@[0].codebook_size,
                    sequences@[0].class_name@,
                )
                &&& forall|l: int|
                    0 <= l < m ==> conforms(
                        #[trigger] sequences@[l],
                        sequences@[0].codebook_size,
                        sequences@[0].class_name@,
                    )
                &&& error_for(sequences@[0], sequences@[m], e)
            },
{
    let k = sequences[0].codebook_size;
    let class_name = sequences[0].class_name.clone();

    let mut pi: Vec<u64> = filled_u64(k, 1);
    let mut counts: Vec<u64> = filled_u64(k, 0);
    let mut a: Vec<Vec<u64>> = filled_matrix(k, 1);

    let mut m: usize = 0;
    while m < sequences.len()
        invariant
            m <= sequences@.len(),
            pi@.len() == k,
            counts@.len() == k,
            a@.len() == k,
            forall|i: int| 0 <= i < k ==> (#[trigger] a@[i])@.len() == k,
            forall|l: int|
                0 <= l < m ==> conforms(#[trigger] sequences@[l], k, class_name@),
            forall|i: int|
                0 <= i < k ==> (#[trigger] pi@[i]) == 1 + first_count(sequences@.take(m as int), i),
            forall|i: int|
                0 <= i < k ==> (#[trigger] counts@[i]) == out_count(sequences@.take(m as int), i),
            forall|i: int, j: int|
                0 <= i < k && 0 <= j < k ==> (#[trigger] a@[i]@[j]) == 1 + trans_count(
                    sequences@.take(m as int),
                    i,
                    j,
                ),
        decreases sequences@.len() - m,
    {
        let s = &sequences[m];

        // conformity checks against the first sequence:
        if s.codebook_size != k {
            return Err(ConformityError::CodebookSize { expected: k, found: s.codebook_size });
        }
        if s.class_name != class_name {
            return Err(
                ConformityError::ClassName {
                    expected: class_name,
                    found: s.class_name.clone(),
                },
            );
        }

        // count the initial symbol:
        let s0 = s.symbols[0];
        proof {
            lemma_first_count_le(sequences@.take(m as int), s0 as int);
        }
        let p0 = pi[s0];
        pi[s0] = p0 + 1;

        // count the consecutive symbol pairs:
        let n = s.symbols.len();
        let mut t: usize = 0;
        while t < n - 1
            invariant
                t <= n - 1,
                pi@.len() == k,
                counts@.len() == k,
                a@.len() == k,
                forall|i: int| 0 <= i < k ==> (#[trigger] a@[i])@.len() == k,
                forall|i: int|
                    0 <= i < k ==> (#[trigger] counts@[i]) == out_count(
                        sequences@.take(m as int),
                        i,
                    ) + out_count_upto(sequences@[m as int].symbols@, i, t as int),
                forall|i: int, j: int|
                    0 <= i < k && 0 <= j < k ==> (#[trigger] a@[i]@[j]) == 1 + trans_count(
                        sequences@.take(m as int),
                        i,
                        j,
                    ) + trans_count_upto(sequences@[m as int].symbols@, i, j, t as int),
            decreases n - 1 - t,
        {
            let st = s.symbols[t];
            let stn = s.symbols[t + 1];
            proof {
                lemma_out_count_le(sequences@.take(m as int), st as int, 0xFFFF_FFFE);
                lemma_out_upto_le(sequences@[m as int].symbols@, st as int, t as int);
                lemma_trans_count_le(sequences@.take(m as int), st as int, stn as int, 0xFFFF_FFFE);
                lemma_trans_upto_le(sequences@[m as int].symbols@, st as int, stn as int, t as int);
                lemma_mul_inequality(m as int, 0xFFFF_FFFF, 0xFFFF_FFFE);
            }
            let c = counts[st];
            counts[st] = c + 1;
            bump(&mut a, st, stn);
            t += 1;
        }

        proof {
            assert(sequences@.take(m + 1).drop_last() =~= sequences@.take(m as int));
            assert(sequences@.take(m + 1).last() == sequences@[m as int]);
            assert(pair_count(sequences@[m as int].symbols@) == n - 1);
        }
        m += 1;
    }

    proof {
        assert(sequences@.take(sequences@.len() as int) =~= sequences@);
    }

    // the denominators of the smoothed distributions:
    let pi_den = (sequences.len() as u64) + (k as u64);
    let mut a_den: Vec<u64> = Vec::new();
    let mut i: usize = 0;
    while i < k
        invariant
            i <= k,
            a_den@.len() == i,
            forall|l: int|
                0 <= l < i ==> (#[trigger] a_den@[l]) == k + out_count(sequences@, l),
        decreases k - i,
    {
        proof {
            lemma_out_count_le(sequences@, i as int, 0xFFFF_FFFE);
            lemma_mul_inequality(sequences@.len() as int, 0xFFFF_FFFF, 0xFFFF_FFFE);
        }
        a_den.push(counts[i] + (k as u64));
        i += 1;
    }

    Ok(MM { class_name, codebook_size: k, pi_num: pi, pi_den, a_num: a, a_den })
}

} // verus!
