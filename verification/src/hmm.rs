//! The scoring model: per-position nucleotide probability matrices in
//! fixed-point form, the fixed cross-locus transition matrix, and the
//! log-free, rescaled max-product scan that scores a query read.
//!
//! All probabilities are integers in `[1, SCALE]`, where `SCALE` stands for
//! probability 1. Working in integers keeps every arithmetic step exact
//! enough to verify; the per-position rescaling in the scoring recurrence
//! plays the role that log-space accumulation plays in a floating-point
//! formulation: it prevents underflow while leaving the per-locus relative
//! likelihoods unchanged.

use vstd::prelude::*;

use crate::vdjmodeler::HMMcollector;
use crate::vdjmodeler::SequenceModel;
use crate::vdjmodeler::spec_model_name;

verus! {

/// Fixed-point representation of probability 1.
pub const SCALE: u64 = 1_000_000_000;

/// Floor probability for zero-count smoothing: 1e-4, in `SCALE` units.
/// An entry below this floor is indistinguishable from an unseen one at the
/// resolution of the matrix, so the floor is applied to every entry under it.
pub const FLOOR_PROB: u64 = 100_000;

/// Off-diagonal transition probability: 1e-3, in `SCALE` units.
pub const LOW_TRANS: u64 = 1_000_000;

/// Start-offset confidence threshold: 0.3, in `SCALE` units. A start offset
/// whose per-base average match score does not exceed it is discarded.
pub const START_THRESHOLD: u64 = 300_000_000;

/// ASCII uppercasing of a byte.
pub open spec fn spec_upper(b: u8) -> u8 {
    if 97 <= b <= 122 {
        (b - 32) as u8
    } else {
        b
    }
}

/// The canonical base index of an unambiguous nucleotide byte:
/// A, G, C, T (either case) map to 0..4; everything else to `None`.
pub open spec fn spec_char2pos(b: u8) -> Option<usize> {
    let u = spec_upper(b);
    if u == 65 {
        Some(0usize)
    } else if u == 71 {
        Some(1usize)
    } else if u == 67 {
        Some(2usize)
    } else if u == 84 {
        Some(3usize)
    } else {
        None
    }
}

/// IUPAC expansion of a nucleotide byte: the canonical base indices the byte
/// is compatible with, in ascending order. Empty for a byte that is no IUPAC
/// code. The catch-all fifth count slot is never part of an expansion.
pub open spec fn spec_iupac(b: u8) -> Seq<usize> {
    let u = spec_upper(b);
    if u == 65 {  // A
        seq![0usize]
    } else if u == 71 {  // G
        seq![1usize]
    } else if u == 67 {  // C
        seq![2usize]
    } else if u == 84 {  // T
        seq![3usize]
    } else if u == 46 {  // . (gap)
        seq![0usize, 1usize, 2usize, 3usize]
    } else if u == 78 {  // N
        seq![0usize, 1usize, 2usize, 3usize]
    } else if u == 82 {  // R (purine)
        seq![0usize, 1usize]
    } else if u == 89 {  // Y (pyrimidine)
        seq![2usize, 3usize]
    } else if u == 87 {  // W
        seq![0usize, 3usize]
    } else if u == 83 {  // S
        seq![1usize, 2usize]
    } else if u == 75 {  // K
        seq![1usize, 3usize]
    } else if u == 77 {  // M
        seq![0usize, 2usize]
    } else if u == 66 {  // B
        seq![1usize, 2usize, 3usize]
    } else if u == 68 {  // D
        seq![0usize, 1usize, 3usize]
    } else if u == 72 {  // H
        seq![0usize, 2usize, 3usize]
    } else if u == 86 {  // V
        seq![0usize, 1usize, 2usize]
    } else {
        Seq::empty()
    }
}

/// Whether a byte is a recognized IUPAC nucleotide code (or the gap symbol).
pub open spec fn is_iupac(b: u8) -> bool {
    spec_iupac(b).len() > 0
}

/// The IUPAC expansion names each base index at most once, and only indices
/// of the four canonical bases.
pub proof fn lemma_iupac_props(b: u8)
    ensures
        spec_iupac(b).len() <= 4,
        forall|i: int| 0 <= i < spec_iupac(b).len() ==> spec_iupac(b)[i] < 4,
        forall|i: int, j: int|
            0 <= i < j < spec_iupac(b).len() ==> spec_iupac(b)[i] != spec_iupac(b)[j],
{
}

/// Sum of a sequence of integers.
pub open spec fn sum_int(s: Seq<int>) -> int
    decreases s.len(),
{
    if s.len() == 0 {
        0
    } else {
        sum_int(s.drop_last()) + s.last()
    }
}

/// A sequence of probability entries, as integers.
pub open spec fn to_int_u64(s: Seq<u64>) -> Seq<int> {
    s.map_values(|x: u64| x as int)
}

/// A sequence of counts, as integers.
pub open spec fn to_int_usize(s: Seq<usize>) -> Seq<int> {
    s.map_values(|x: usize| x as int)
}

/// Sums grow by what is appended.
pub proof fn lemma_sum_push(s: Seq<int>, x: int)
    ensures
        sum_int(s.push(x)) == sum_int(s) + x,
{
    assert(s.push(x).drop_last() =~= s);
}

/// Every element of a sequence of non-negative integers is at most the sum.
pub proof fn lemma_elem_le_sum(s: Seq<int>, i: int)
    requires
        0 <= i < s.len(),
        forall|k: int| 0 <= k < s.len() ==> s[k] >= 0,
    ensures
        s[i] <= sum_int(s),
        sum_int(s) >= 0,
    decreases s.len(),
{
    if s.len() > 0 {
        if i == s.len() - 1 {
            lemma_sum_nonneg(s.drop_last());
        } else {
            lemma_elem_le_sum(s.drop_last(), i);
        }
    }
}

/// A sum of non-negative integers is non-negative.
pub proof fn lemma_sum_nonneg(s: Seq<int>)
    requires
        forall|k: int| 0 <= k < s.len() ==> s[k] >= 0,
    ensures
        sum_int(s) >= 0,
    decreases s.len(),
{
    if s.len() > 0 {
        lemma_sum_nonneg(s.drop_last());
    }
}

/// A sum of integers each bounded by `b` is at most `len * b`.
pub proof fn lemma_sum_upper(s: Seq<int>, b: int)
    requires
        b >= 0,
        forall|k: int| 0 <= k < s.len() ==> s[k] <= b,
    ensures
        sum_int(s) <= s.len() * b,
    decreases s.len(),
{
    if s.len() > 0 {
        lemma_sum_upper(s.drop_last(), b);
        assert((s.len() - 1) * b + b == s.len() * b) by (nonlinear_arith);
    }
}

/// Floor division distributes superadditively over a sum of non-negative
/// numerators: the sum of the quotients is at most the quotient of the sum.
pub proof fn lemma_div_superadd(a: int, b: int, d: int)
    requires
        a >= 0,
        b >= 0,
        d > 0,
    ensures
        a / d + b / d <= (a + b) / d,
{
    vstd::arithmetic::div_mod::lemma_fundamental_div_mod(a, d);
    vstd::arithmetic::div_mod::lemma_fundamental_div_mod(b, d);
    vstd::arithmetic::div_mod::lemma_remainder_lower(a, d);
    vstd::arithmetic::div_mod::lemma_remainder_lower(b, d);
    let q = a / d + b / d;
    assert(a + b >= d * q) by {
        vstd::arithmetic::mul::lemma_mul_is_distributive_add(d, a / d, b / d);
    }
    vstd::arithmetic::div_mod::lemma_div_multiples_vanish(q, d);
    vstd::arithmetic::div_mod::lemma_div_is_ordered(d * q, a + b, d);
}

/// The sum of the elementwise quotients `s[j] * SCALE / total` of a row of
/// non-negative entries is at most `rowsum * SCALE / total`, for any bound
/// `rowsum` on the row's sum.
proof fn lemma_scaled_prefix_sum(s: Seq<int>, total: int, rowsum: int)
    requires
        total > 0,
        forall|k: int| 0 <= k < s.len() ==> s[k] >= 0,
        sum_int(s) <= rowsum,
        rowsum <= total,
    ensures
        sum_int(s.map_values(|c: int| c * SCALE / total)) <= rowsum * SCALE / total,
        rowsum * SCALE / total <= SCALE,
    decreases s.len(),
{
    let f = |c: int| c * SCALE / total;
    let mapped = s.map_values(f);
    assert(rowsum >= 0) by {
        lemma_sum_nonneg(s);
    }
    assert(rowsum * SCALE / total <= SCALE) by {
        vstd::arithmetic::mul::lemma_mul_inequality(rowsum, total, SCALE as int);
        vstd::arithmetic::mul::lemma_mul_is_commutative(total, SCALE as int);
        vstd::arithmetic::div_mod::lemma_multiply_divide_le(rowsum * SCALE, total, SCALE as int);
    }
    if s.len() == 0 {
        vstd::arithmetic::div_mod::lemma_div_pos_is_pos(rowsum * SCALE, total);
        vstd::arithmetic::mul::lemma_mul_nonnegative(rowsum, SCALE as int);
    } else {
        let rest = s.drop_last();
        let x = s.last();
        assert(sum_int(rest) <= rowsum - x);
        assert(x >= 0);
        lemma_sum_nonneg(rest);
        lemma_scaled_prefix_sum(rest, total, rowsum - x);
        assert(mapped.drop_last() =~= rest.map_values(f));
        assert(sum_int(mapped) == sum_int(rest.map_values(f)) + x * SCALE / total);
        assert((rowsum - x) * SCALE / total + x * SCALE / total <= rowsum * SCALE / total) by {
            vstd::arithmetic::mul::lemma_mul_nonnegative(rowsum - x, SCALE as int);
            vstd::arithmetic::mul::lemma_mul_nonnegative(x, SCALE as int);
            lemma_div_superadd((rowsum - x) * SCALE, x * SCALE, total);
            vstd::arithmetic::mul::lemma_mul_is_distributive_sub_other_way(SCALE as int, rowsum, x);
        }
    }
}

/// One position of the model: for each locus, the probability vector over
/// the four canonical bases and the catch-all slot, in `SCALE` units.
pub struct HMMState {
    /// One row per locus; each row has five entries that sum to `SCALE`.
    pub match_emission: Vec<Vec<u64>>,
}

/// A well-formed probability row: five entries in `[1, SCALE]` that sum to
/// exactly `SCALE` — this is the probability-matrix invariant: the vector is
/// normalized and holds no zero entry.
pub open spec fn row_ok(row: Seq<u64>) -> bool {
    &&& row.len() == 5
    &&& sum_int(to_int_u64(row)) == SCALE
    &&& forall|j: int| 0 <= j < row.len() ==> 1 <= #[trigger] row[j] <= SCALE
}

/// The raw probability row of a count row: each count scaled to `SCALE`
/// units of the grand total `total` of all counts at the position. With no
/// counts at all the row is all zero.
pub open spec fn spec_initial_row(counts: Seq<int>, total: int) -> Seq<int> {
    counts.map_values(|c: int| if total == 0 { 0int } else { c * SCALE / total })
}

/// The floor step: every entry below the floor probability — in particular
/// every zero entry — is raised to the floor, so no base is impossible.
pub open spec fn spec_floor_row(row: Seq<int>) -> Seq<int> {
    row.map_values(|p: int| if p < FLOOR_PROB { FLOOR_PROB as int } else { p })
}

/// A floored row rescaled by its own sum, entry by entry.
pub open spec fn scaled_row(row: Seq<int>) -> Seq<int> {
    row.map_values(|p: int| p * SCALE / sum_int(row))
}

/// The renormalization step: each entry is scaled so the row sums to
/// `SCALE`; the last entry takes the remainder, which makes the sum exact.
pub open spec fn spec_norm_row(row: Seq<int>) -> Seq<int> {
    scaled_row(row).update(row.len() - 1, SCALE - sum_int(scaled_row(row).drop_last()))
}

/// The finalized probability row of one locus's counts at one position:
/// scale by the grand total, floor, renormalize.
pub open spec fn spec_prob_row(counts: Seq<int>, total: int) -> Seq<int> {
    spec_norm_row(spec_floor_row(spec_initial_row(counts, total)))
}

/// The normalization of a row of floored entries is a well-formed
/// probability row: it sums to exactly `SCALE` and holds no zero entry.
pub proof fn lemma_norm_row_ok(row: Seq<int>)
    requires
        row.len() == 5,
        forall|j: int| 0 <= j < row.len() ==> FLOOR_PROB <= #[trigger] row[j] <= SCALE,
    ensures
        spec_norm_row(row).len() == 5,
        sum_int(spec_norm_row(row)) == SCALE,
        forall|j: int| 0 <= j < 5 ==> 1 <= #[trigger] spec_norm_row(row)[j] <= SCALE,
        forall|j: int|
            0 <= j < 5 ==> #[trigger] scaled_row(row)[j] == row[j] * SCALE / sum_int(row),
        forall|j: int| 0 <= j < 5 ==> 1 <= #[trigger] scaled_row(row)[j] <= SCALE,
        sum_int(scaled_row(row).drop_last()) <= SCALE - 1,
        sum_int(scaled_row(row).drop_last()) >= 0,
        forall|j: int| 0 <= j < 4 ==> #[trigger] spec_norm_row(row)[j] == scaled_row(row)[j],
        spec_norm_row(row)[4] == SCALE - sum_int(scaled_row(row).drop_last()),
{
    let s = sum_int(row);
    let main = scaled_row(row);
    let norm = spec_norm_row(row);
    assert(s >= FLOOR_PROB) by {
        lemma_elem_le_sum(row, 0);
        assert(row.drop_last().drop_last().drop_last().drop_last().drop_last() =~= Seq::<
            int,
        >::empty());
        lemma_sum_nonneg(row.drop_last());
        assert(s >= row.last());
    }
    assert(s <= 5 * SCALE) by {
        lemma_sum_upper(row, SCALE as int);
    }
    // each scaled entry is in [1, SCALE]
    assert forall|j: int| 0 <= j < 5 implies 1 <= #[trigger] main[j] <= SCALE by {
        assert(row[j] * SCALE >= s) by {
            vstd::arithmetic::mul::lemma_mul_inequality(FLOOR_PROB as int, row[j], SCALE as int);
        }
        assert(main[j] >= 1) by {
            vstd::arithmetic::div_mod::lemma_div_is_ordered(s, row[j] * SCALE, s);
            vstd::arithmetic::div_mod::lemma_div_by_self(s);
        }
        assert(row[j] <= s) by {
            lemma_elem_le_sum(row, j);
        }
        assert(main[j] <= SCALE) by {
            vstd::arithmetic::mul::lemma_mul_inequality(row[j], s, SCALE as int);
            vstd::arithmetic::mul::lemma_mul_is_commutative(s, SCALE as int);
            vstd::arithmetic::div_mod::lemma_multiply_divide_le(row[j] * SCALE, s, SCALE as int);
        }
    }
    // the first four scaled entries sum to less than SCALE
    assert(sum_int(main.drop_last()) <= SCALE - 1) by {
        let f = |p: int| p * SCALE / s;
        assert(main.drop_last() =~= row.drop_last().map_values(f));
        assert(sum_int(row.drop_last()) <= s - FLOOR_PROB) by {
            lemma_sum_push(row.drop_last(), row.last());
            assert(row.drop_last().push(row.last()) =~= row);
        }
        lemma_sum_nonneg(row.drop_last());
        lemma_scaled_prefix_sum(row.drop_last(), s, s - FLOOR_PROB);
        assert((s - FLOOR_PROB) * SCALE / s <= SCALE - 1) by {
            assert((s - FLOOR_PROB) * SCALE < s * (SCALE - 1) + s) by (nonlinear_arith)
                requires
                    FLOOR_PROB <= s <= 5 * SCALE,
            ;
            vstd::arithmetic::mul::lemma_mul_is_distributive_add_other_way(s, SCALE - 1, 1);
            vstd::arithmetic::div_mod::lemma_multiply_divide_lt(
                (s - FLOOR_PROB) * SCALE,
                s,
                SCALE as int,
            );
        }
    }
    assert(sum_int(main.drop_last()) >= 0) by {
        lemma_sum_nonneg(main.drop_last());
    }
    // the remainder entry closes the sum to exactly SCALE
    assert(norm =~= main.drop_last().push(SCALE - sum_int(main.drop_last())));
    lemma_sum_push(main.drop_last(), SCALE - sum_int(main.drop_last()));
    assert(sum_int(norm) == SCALE);
    assert forall|j: int| 0 <= j < 5 implies 1 <= #[trigger] norm[j] <= SCALE by {
        if j < 4 {
            assert(norm[j] == main[j]);
        }
    }
}

impl HMMState {
    /// Every locus row of this position is a normalized probability vector.
    pub open spec fn wf(&self) -> bool {
        forall|i: int|
            0 <= i < self.match_emission@.len() ==> row_ok(#[trigger] self.match_emission@[i]@)
    }

    /// Raise every entry below `min_prob` — in particular every zero entry —
    /// to `min_prob`, so that no base is left impossible.
    fn adjust_zero_probabilities(probabilities: &mut Vec<u64>, min_prob: u64)
        ensures
            to_int_u64(final(probabilities)@) == spec_floor_row(to_int_u64(old(probabilities)@))
                || min_prob != FLOOR_PROB,
            final(probabilities)@.len() == old(probabilities)@.len(),
            forall|j: int|
                0 <= j < old(probabilities)@.len() ==> #[trigger] final(probabilities)@[j] == (
                if old(probabilities)@[j] < min_prob {
                    min_prob
                } else {
                    old(probabilities)@[j]
                }),
    {
        let n = probabilities.len();
        let mut j: usize = 0;
        while j < n
            invariant
                j <= n,
                probabilities@.len() == n,
                forall|k: int|
                    0 <= k < j ==> #[trigger] probabilities@[k] == (if old(probabilities)@[k]
                        < min_prob {
                        min_prob
                    } else {
                        old(probabilities)@[k]
                    }),
                forall|k: int| j <= k < n ==> probabilities@[k] == old(probabilities)@[k],
            decreases n - j,
        {
            if probabilities[j] < min_prob {
                probabilities[j] = min_prob;
            }
            j += 1;
        }
        proof {
            if min_prob == FLOOR_PROB {
                assert(to_int_u64(probabilities@) =~= spec_floor_row(
                    to_int_u64(old(probabilities)@),
                ));
            }
        }
    }

    /// Renormalize a floored row so it sums to exactly `SCALE`: the first
    /// four entries are scaled by the row's sum, the last takes the
    /// remainder. The result is a well-formed probability row.
    fn normalize_probabilities(probabilities: &mut Vec<u64>)
        requires
            old(probabilities)@.len() == 5,
            forall|j: int|
                0 <= j < 5 ==> FLOOR_PROB <= #[trigger] old(probabilities)@[j] <= SCALE,
        ensures
            to_int_u64(final(probabilities)@) == spec_norm_row(to_int_u64(old(probabilities)@)),
            row_ok(final(probabilities)@),
    {
        let ghost row = to_int_u64(old(probabilities)@);
        proof {
            lemma_norm_row_ok(row);
        }
        let mut total: u64 = 0;
        let mut j: usize = 0;
        while j < 5
            invariant
                j <= 5,
                probabilities@.len() == 5,
                probabilities@ == old(probabilities)@,
                forall|k: int| 0 <= k < 5 ==> FLOOR_PROB <= #[trigger] probabilities@[k] <= SCALE,
                total == sum_int(to_int_u64(probabilities@).take(j as int)),
                total <= j * SCALE,
            decreases 5 - j,
        {
            proof {
                assert(to_int_u64(probabilities@).take(j + 1).drop_last() =~= to_int_u64(
                    probabilities@,
                ).take(j as int));
            }
            total = total + probabilities[j];
            j += 1;
        }
        proof {
            assert(to_int_u64(probabilities@).take(5) =~= row);
            lemma_elem_le_sum(row, 0);
            assert(row.drop_last().drop_last().drop_last().drop_last().drop_last() =~= Seq::<
                int,
            >::empty());
            lemma_sum_nonneg(row.drop_last());
            assert(total >= FLOOR_PROB);
        }
        let ghost s = sum_int(row);
        let ghost main = scaled_row(row);
        let mut k: usize = 0;
        let mut partial: u64 = 0;
        while k < 4
            invariant
                k <= 4,
                probabilities@.len() == 5,
                total == s,
                s >= FLOOR_PROB,
                row == to_int_u64(old(probabilities)@),
                row.len() == 5,
                forall|j2: int| 0 <= j2 < 5 ==> FLOOR_PROB <= #[trigger] row[j2] <= SCALE,
                main == scaled_row(row),
                forall|j2: int| 0 <= j2 < 5 ==> #[trigger] main[j2] == row[j2] * SCALE / s,
                forall|j2: int| 0 <= j2 < 5 ==> 1 <= #[trigger] main[j2] <= SCALE,
                sum_int(main.drop_last()) <= SCALE - 1,
                forall|j2: int| k <= j2 < 5 ==> probabilities@[j2] == old(probabilities)@[j2],
                forall|j2: int| 0 <= j2 < k ==> probabilities@[j2] == main[j2],
                partial == sum_int(main.take(k as int)),
                partial <= SCALE,
            decreases 4 - k,
        {
            let p = probabilities[k];
            let scaled = (((p as u128) * (SCALE as u128)) / (total as u128)) as u64;
            proof {
                assert((p as int) * SCALE / (s as int) == main[k as int]);
                assert(scaled == main[k as int]);
                assert(main.take(k + 1).drop_last() =~= main.take(k as int));
                lemma_sum_push(main.take(k as int), main[k as int]);
                assert(sum_int(main.take(k + 1)) <= SCALE - 1) by {
                    lemma_sum_take_le_drop_last(main, k + 1);
                }
                lemma_sum_nonneg(main.take(k as int));
            }
            probabilities[k] = scaled;
            partial = partial + scaled;
            k += 1;
        }
        proof {
            assert(main.take(4) =~= main.drop_last());
            lemma_sum_nonneg(main.take(4));
        }
        probabilities[4] = SCALE - partial;
        proof {
            assert(to_int_u64(probabilities@) =~= spec_norm_row(row));
            lemma_norm_row_ok(row);
            assert(sum_int(to_int_u64(probabilities@)) == SCALE);
            assert forall|j2: int| 0 <= j2 < 5 implies 1 <= #[trigger] probabilities@[j2]
                <= SCALE by {
                assert(to_int_u64(probabilities@)[j2] == probabilities@[j2] as int);
                assert(to_int_u64(probabilities@)[j2] == spec_norm_row(row)[j2]);
            }
            assert(row_ok(probabilities@));
        }
    }
}

/// The grand total of all counts over all locus rows at one position.
pub open spec fn grand_total(cs: Seq<HMMcollector>) -> int
    decreases cs.len(),
{
    if cs.len() == 0 {
        0
    } else {
        grand_total(cs.drop_last()) + sum_int(to_int_usize(cs.last().states@))
    }
}

/// A grand total of counts is non-negative.
pub proof fn lemma_grand_total_nonneg(cs: Seq<HMMcollector>)
    ensures
        grand_total(cs) >= 0,
    decreases cs.len(),
{
    if cs.len() > 0 {
        lemma_grand_total_nonneg(cs.drop_last());
        lemma_sum_nonneg(to_int_usize(cs.last().states@));
    }
}

/// Every count cell is at most the grand total over all rows.
pub proof fn lemma_cell_le_grand_total(cs: Seq<HMMcollector>, i: int, j: int)
    requires
        0 <= i < cs.len(),
        0 <= j < cs[i].states@.len(),
    ensures
        cs[i].states@[j] <= grand_total(cs),
    decreases cs.len(),
{
    if i == cs.len() - 1 {
        lemma_elem_le_sum(to_int_usize(cs.last().states@), j);
        lemma_grand_total_nonneg(cs.drop_last());
    } else {
        lemma_cell_le_grand_total(cs.drop_last(), i, j);
        lemma_sum_nonneg(to_int_usize(cs.last().states@));
    }
}

/// A grand total over rows of five counts is at most `5 * len * usize::MAX`.
pub proof fn lemma_grand_total_upper(cs: Seq<HMMcollector>)
    requires
        forall|i: int| 0 <= i < cs.len() ==> (#[trigger] cs[i]).states@.len() == 5,
    ensures
        grand_total(cs) <= cs.len() * 5 * usize::MAX,
    decreases cs.len(),
{
    if cs.len() > 0 {
        lemma_grand_total_upper(cs.drop_last());
        lemma_sum_upper(to_int_usize(cs.last().states@), usize::MAX as int);
        assert((cs.len() - 1) * 5 * usize::MAX + 5 * usize::MAX == cs.len() * 5 * usize::MAX)
            by (nonlinear_arith);
    }
}

impl HMMState {
    /// Number of locus rows at this position.
    pub fn len(&self) -> (r: usize)
        ensures
            r == self.match_emission@.len(),
    {
        self.match_emission.len()
    }

    /// The probability of the base with index `pos`, for every locus row of
    /// this position, in row order.
    pub fn prob_for_pos(&self, pos: usize) -> (ret: Vec<u64>)
        requires
            self.wf(),
            pos < 5,
        ensures
            ret@.len() == self.match_emission@.len(),
            forall|j: int|
                0 <= j < ret@.len() ==> #[trigger] ret@[j] == self.match_emission@[j]@[pos as int],
    {
        let n = self.match_emission.len();
        let mut ret: Vec<u64> = Vec::new();
        let mut j: usize = 0;
        while j < n
            invariant
                j <= n,
                n == self.match_emission@.len(),
                self.wf(),
                pos < 5,
                ret@.len() == j,
                forall|k: int|
                    0 <= k < j ==> #[trigger] ret@[k] == self.match_emission@[k]@[pos as int],
            decreases n - j,
        {
            assert(row_ok(self.match_emission@[j as int]@));
            ret.push(self.match_emission[j][pos]);
            j += 1;
        }
        ret
    }

    /// Turn the per-locus count rows of one position into its probability
    /// rows: scale each count by the position's grand total, floor what
    /// falls below the floor probability, and renormalize each row to sum
    /// to exactly `SCALE`.
    pub fn from_collectors(collectors: &[HMMcollector]) -> (r: HMMState)
        requires
            collectors@.len() <= 7,
            forall|i: int| 0 <= i < collectors@.len() ==> (#[trigger] collectors@[i]).states@.len() == 5,
        ensures
            r.match_emission@.len() == collectors@.len(),
            forall|i: int|
                0 <= i < collectors@.len() ==> to_int_u64(#[trigger] r.match_emission@[i]@)
                    == spec_prob_row(
                    to_int_usize(collectors@[i].states@),
                    grand_total(collectors@),
                ),
            r.wf(),
    {
        let n = collectors.len();
        let ghost gt = grand_total(collectors@);
        proof {
            lemma_grand_total_nonneg(collectors@);
            lemma_grand_total_upper(collectors@);
            assert(collectors@.len() * 5 * usize::MAX <= 35 * usize::MAX) by (nonlinear_arith)
                requires
                    collectors@.len() <= 7,
            ;
        }
        // grand total of all counts at this position, over all locus rows
        let mut total: u128 = 0;
        let mut i: usize = 0;
        while i < n
            invariant
                i <= n,
                n == collectors@.len(),
                n <= 7,
                forall|k: int|
                    0 <= k < collectors@.len() ==> (#[trigger] collectors@[k]).states@.len() == 5,
                total == grand_total(collectors@.take(i as int)),
                total <= i * 5 * (usize::MAX as u128),
            decreases n - i,
        {
            proof {
                lemma_grand_total_nonneg(collectors@.take(i as int));
                lemma_sum_upper(to_int_usize(collectors@[i as int].states@), usize::MAX as int);
                assert(i * 5 * (usize::MAX as u128) + 5 * (usize::MAX as u128) == (i + 1) * 5 * (
                usize::MAX as u128)) by (nonlinear_arith);
            }
            let row = &collectors[i].states;
            let mut rowsum: u128 = 0;
            let mut j: usize = 0;
            while j < 5
                invariant
                    j <= 5,
                    row@.len() == 5,
                    row == collectors@[i as int].states,
                    rowsum == sum_int(to_int_usize(row@).take(j as int)),
                    rowsum <= j * (usize::MAX as u128),
                decreases 5 - j,
            {
                proof {
                    assert(to_int_usize(row@).take(j + 1).drop_last() =~= to_int_usize(
                        row@,
                    ).take(j as int));
                    assert(to_int_usize(row@).take(j + 1).last() == row@[j as int] as int);
                    assert(j * (usize::MAX as u128) + (usize::MAX as u128) == (j + 1) * (
                    usize::MAX as u128)) by (nonlinear_arith);
                    assert(rowsum + (row@[j as int] as u128) <= 5 * (usize::MAX as u128))
                        by (nonlinear_arith)
                        requires
                            0 <= j <= 4,
                            rowsum <= j * (usize::MAX as u128),
                            (row@[j as int] as u128) <= (usize::MAX as u128),
                    ;
                }
                rowsum = rowsum + (row[j] as u128);
                j += 1;
            }
            proof {
                assert(to_int_usize(row@).take(5) =~= to_int_usize(row@));
                assert(collectors@.take(i + 1).drop_last() =~= collectors@.take(i as int));
                assert(collectors@.take(i + 1).last() == collectors@[i as int]);
                assert(total + rowsum <= (i + 1) * 5 * (usize::MAX as u128)) by (nonlinear_arith)
                    requires
                        total <= i * 5 * (usize::MAX as u128),
                        rowsum <= 5 * (usize::MAX as u128),
                ;
                assert((i + 1) * 5 * (usize::MAX as u128) <= 35 * (usize::MAX as u128))
                    by (nonlinear_arith)
                    requires
                        0 <= i < 7,
                ;
            }
            total = total + rowsum;
            i += 1;
        }
        proof {
            assert(collectors@.take(n as int) =~= collectors@);
            assert(total == gt);
        }

        // one probability row per locus row
        let mut match_emission: Vec<Vec<u64>> = Vec::new();
        let mut i2: usize = 0;
        while i2 < n
            invariant
                i2 <= n,
                n == collectors@.len(),
                total == gt,
                gt == grand_total(collectors@),
                gt >= 0,
                forall|k: int|
                    0 <= k < collectors@.len() ==> (#[trigger] collectors@[k]).states@.len() == 5,
                match_emission@.len() == i2,
                forall|k: int|
                    0 <= k < i2 ==> to_int_u64(#[trigger] match_emission@[k]@) == spec_prob_row(
                        to_int_usize(collectors@[k].states@),
                        gt,
                    ),
                forall|k: int| 0 <= k < i2 ==> row_ok(#[trigger] match_emission@[k]@),
            decreases n - i2,
        {
            let crow = &collectors[i2].states;
            let ghost counts = to_int_usize(crow@);
            let mut row: Vec<u64> = Vec::new();
            let mut j: usize = 0;
            while j < 5
                invariant
                    j <= 5,
                    crow@.len() == 5,
                    crow == collectors@[i2 as int].states,
                    i2 < collectors@.len(),
                    n == collectors@.len(),
                    counts == to_int_usize(crow@),
                    total == gt,
                    gt == grand_total(collectors@),
                    gt >= 0,
                    row@.len() == j,
                    forall|k: int|
                        0 <= k < j ==> #[trigger] row@[k] == spec_initial_row(counts, gt)[k],
                    forall|k: int| 0 <= k < j ==> #[trigger] row@[k] <= SCALE,
                decreases 5 - j,
            {
                let val: u64 = if total == 0 {
                    0
                } else {
                    proof {
                        lemma_cell_le_grand_total(collectors@, i2 as int, j as int);
                        assert(counts[j as int] * SCALE <= gt * SCALE) by {
                            vstd::arithmetic::mul::lemma_mul_inequality(
                                counts[j as int],
                                gt,
                                SCALE as int,
                            );
                        }
                        vstd::arithmetic::mul::lemma_mul_is_commutative(gt, SCALE as int);
                        vstd::arithmetic::div_mod::lemma_multiply_divide_le(
                            counts[j as int] * SCALE,
                            gt,
                            SCALE as int,
                        );
                        vstd::arithmetic::mul::lemma_mul_nonnegative(counts[j as int], SCALE as int);
                        vstd::arithmetic::div_mod::lemma_div_pos_is_pos(
                            counts[j as int] * SCALE,
                            gt,
                        );
                    }
                    (((crow[j] as u128) * (SCALE as u128)) / total) as u64
                };
                row.push(val);
                j += 1;
            }
            proof {
                assert(to_int_u64(row@) =~= spec_initial_row(counts, gt));
            }
            let ghost initial = to_int_u64(row@);
            HMMState::adjust_zero_probabilities(&mut row, FLOOR_PROB);
            proof {
                assert(to_int_u64(row@) == spec_floor_row(initial));
                assert(forall|k: int|
                    0 <= k < 5 ==> FLOOR_PROB <= #[trigger] row@[k] <= SCALE) by {
                    assert(forall|k: int|
                        0 <= k < 5 ==> #[trigger] spec_floor_row(initial)[k] == (if initial[k]
                            < FLOOR_PROB {
                            FLOOR_PROB as int
                        } else {
                            initial[k]
                        }));
                }
            }
            HMMState::normalize_probabilities(&mut row);
            match_emission.push(row);
            i2 += 1;
        }
        HMMState { match_emission }
    }
}

/// The grand total of counts at position `i` over all models' count rows.
pub open spec fn spec_pos_total(models: Seq<crate::vdjmodeler::HMMmodel>, i: int) -> int
    decreases models.len(),
{
    if models.len() == 0 {
        0
    } else {
        spec_pos_total(models.drop_last(), i) + sum_int(
            to_int_usize(models.last().collector@[i].states@),
        )
    }
}

/// The number of positions common to all models: the least count-matrix
/// length, or zero with no models at all.
pub open spec fn spec_common_len(models: Seq<crate::vdjmodeler::HMMmodel>) -> int
    decreases models.len(),
{
    if models.len() == 0 {
        0
    } else if models.len() == 1 {
        models[0].collector@.len() as int
    } else {
        let rest = spec_common_len(models.drop_last());
        let last = models.last().collector@.len() as int;
        if last < rest {
            last
        } else {
            rest
        }
    }
}

/// The common length is at most every model's own length.
pub proof fn lemma_common_len_le(models: Seq<crate::vdjmodeler::HMMmodel>, j: int)
    requires
        0 <= j < models.len(),
    ensures
        spec_common_len(models) <= models[j].collector@.len(),
        spec_common_len(models) >= 0,
    decreases models.len(),
{
    if models.len() > 1 {
        if j < models.len() - 1 {
            lemma_common_len_le(models.drop_last(), j);
        } else {
            lemma_common_len_le(models.drop_last(), 0);
        }
    }
}

/// A column of per-model collectors at one position totals the same counts
/// as `spec_pos_total` of the models at that position.
pub proof fn lemma_column_total(
    column: Seq<HMMcollector>,
    models: Seq<crate::vdjmodeler::HMMmodel>,
    i: int,
)
    requires
        column.len() == models.len(),
        forall|j: int|
            0 <= j < models.len() ==> (#[trigger] column[j]).states@ == models[j].collector@[i].states@,
    ensures
        grand_total(column) == spec_pos_total(models, i),
    decreases models.len(),
{
    if models.len() > 0 {
        lemma_column_total(column.drop_last(), models.drop_last(), i);
    }
}

/// The transition probability between two locus rows of an `n`-locus model:
/// `LOW_TRANS` off the diagonal, the remainder to a full row on it, so each
/// row sums to exactly `SCALE`.
pub open spec fn spec_transition(n: int, i: int, j: int) -> int {
    if i == j {
        SCALE - LOW_TRANS * (n - 1)
    } else {
        LOW_TRANS as int
    }
}

impl HMM {
    /// Number of loci of the model.
    pub open spec fn spec_num_loci(&self) -> int {
        self.names@.len() as int
    }

    /// A well-formed scoring model: at most the seven loci of the catalog,
    /// a square transition matrix over them with entries in `[1, SCALE]`,
    /// and one emission row per locus at every position, each row a
    /// normalized probability vector.
    pub open spec fn wf(&self) -> bool {
        let n = self.spec_num_loci();
        &&& n <= 7
        &&& self.transition_matrix@.len() == n
        &&& forall|i: int|
            0 <= i < n ==> (#[trigger] self.transition_matrix@[i]@).len() == n
        &&& forall|i: int, j: int|
            0 <= i < n && 0 <= j < n ==> 1 <= #[trigger] self.transition_matrix@[i]@[j] <= SCALE
        &&& forall|p: int|
            0 <= p < self.states@.len() ==> (#[trigger] self.states@[p]).match_emission@.len() == n
        &&& forall|p: int| 0 <= p < self.states@.len() ==> (#[trigger] self.states@[p]).wf()
    }

    /// Build the scoring model from the per-locus count matrices: one
    /// emission state per position on the axis common to all loci, each
    /// built by `HMMState::from_collectors` from the loci's count rows at
    /// that position, together with the fixed near-diagonal transition
    /// matrix and the loci in input order.
    pub fn from_sequence_models(models: Vec<crate::vdjmodeler::HMMmodel>) -> (r: HMM)
        requires
            models@.len() <= 7,
            forall|j: int| 0 <= j < models@.len() ==> (#[trigger] models@[j]).wf(),
        ensures
            r.wf(),
            r.names@ == models@.map_values(|m: crate::vdjmodeler::HMMmodel| m.name),
            r.states@.len() == spec_common_len(models@),
            forall|i: int, j: int|
                0 <= i < r.states@.len() && 0 <= j < models@.len() ==> to_int_u64(
                    #[trigger] r.states@[i].match_emission@[j]@,
                ) == spec_prob_row(
                    to_int_usize(models@[j].collector@[i].states@),
                    spec_pos_total(models@, i),
                ),
            forall|i: int, j: int|
                0 <= i < r.spec_num_loci() && 0 <= j < r.spec_num_loci()
                    ==> #[trigger] r.transition_matrix@[i]@[j] == spec_transition(
                    models@.len() as int,
                    i,
                    j,
                ),
    {
        let num_states = models.len();
        if num_states == 0 {
            let r = HMM { states: Vec::new(), transition_matrix: Vec::new(), names: Vec::new() };
            proof {
                assert(r.names@ =~= models@.map_values(
                    |m: crate::vdjmodeler::HMMmodel| m.name,
                ));
            }
            return r;
        }

        // the position axis common to all loci
        let mut sequence_length: usize = 0;
        if num_states > 0 {
            sequence_length = models[0].collector.len();
            let mut j: usize = 1;
            while j < num_states
                invariant
                    1 <= j <= num_states,
                    num_states == models@.len(),
                    sequence_length == spec_common_len(models@.take(j as int)),
                decreases num_states - j,
            {
                proof {
                    assert(models@.take(j + 1).drop_last() =~= models@.take(j as int));
                }
                let l = models[j].collector.len();
                if l < sequence_length {
                    sequence_length = l;
                }
                j += 1;
            }
            proof {
                assert(models@.take(num_states as int) =~= models@);
            }
        }

        // the fixed transition matrix: LOW_TRANS off the diagonal, the
        // remainder to a full row on it
        let diagonal_prob: u64 = SCALE - LOW_TRANS * ((num_states as u64) - 1);
        let mut transition_matrix: Vec<Vec<u64>> = Vec::new();
        let mut i: usize = 0;
        while i < num_states
            invariant
                i <= num_states,
                num_states == models@.len(),
                num_states >= 1,
                num_states <= 7,
                diagonal_prob == SCALE - LOW_TRANS * (num_states - 1),
                transition_matrix@.len() == i,
                forall|a: int|
                    0 <= a < i ==> (#[trigger] transition_matrix@[a]@).len() == num_states,
                forall|a: int, b: int|
                    0 <= a < i && 0 <= b < num_states ==> #[trigger] transition_matrix@[a]@[b]
                        == spec_transition(num_states as int, a, b),
            decreases num_states - i,
        {
            let mut row: Vec<u64> = Vec::new();
            let mut b: usize = 0;
            while b < num_states
                invariant
                    b <= num_states,
                    num_states <= 7,
                    i < num_states,
                    diagonal_prob == SCALE - LOW_TRANS * (num_states - 1),
                    row@.len() == b,
                    forall|c: int|
                        0 <= c < b ==> #[trigger] row@[c] == spec_transition(
                            num_states as int,
                            i as int,
                            c,
                        ),
                decreases num_states - b,
            {
                if b == i {
                    row.push(diagonal_prob);
                } else {
                    row.push(LOW_TRANS);
                }
                b += 1;
            }
            transition_matrix.push(row);
            i += 1;
        }

        // one emission state per common position
        let mut states: Vec<HMMState> = Vec::new();
        let mut p: usize = 0;
        while p < sequence_length
            invariant
                p <= sequence_length,
                num_states == models@.len(),
                num_states <= 7,
                sequence_length == spec_common_len(models@),
                forall|j: int| 0 <= j < models@.len() ==> (#[trigger] models@[j]).wf(),
                states@.len() == p,
                forall|a: int| 0 <= a < p ==> (#[trigger] states@[a]).wf(),
                forall|a: int|
                    0 <= a < p ==> (#[trigger] states@[a]).match_emission@.len() == num_states,
                forall|a: int, j: int|
                    0 <= a < p && 0 <= j < num_states ==> to_int_u64(
                        #[trigger] states@[a].match_emission@[j]@,
                    ) == spec_prob_row(
                        to_int_usize(models@[j].collector@[a].states@),
                        spec_pos_total(models@, a),
                    ),
            decreases sequence_length - p,
        {
            let mut column: Vec<HMMcollector> = Vec::new();
            let mut j: usize = 0;
            while j < num_states
                invariant
                    j <= num_states,
                    num_states == models@.len(),
                    p < sequence_length,
                    sequence_length == spec_common_len(models@),
                    forall|k: int| 0 <= k < models@.len() ==> (#[trigger] models@[k]).wf(),
                    column@.len() == j,
                    forall|k: int|
                        0 <= k < j ==> (#[trigger] column@[k]).states@
                            == models@[k].collector@[p as int].states@,
                decreases num_states - j,
            {
                proof {
                    lemma_common_len_le(models@, j as int);
                }
                column.push(models[j].collector[p].duplicate());
                j += 1;
            }
            proof {
                lemma_column_total(column@, models@, p as int);
                assert forall|k: int| 0 <= k < column@.len() implies (#[trigger] column@[k]).states@.len()
                    == 5 by {
                    lemma_common_len_le(models@, k);
                    assert(models@[k].wf());
                    assert(models@[k].collector@[p as int].states@.len() == 5);
                }
            }
            let st = HMMState::from_collectors(column.as_slice());
            states.push(st);
            p += 1;
        }

        // the loci, in input order
        let mut names: Vec<SequenceModel> = Vec::new();
        let mut q: usize = 0;
        while q < num_states
            invariant
                q <= num_states,
                num_states == models@.len(),
                names@.len() == q,
                forall|k: int| 0 <= k < q ==> #[trigger] names@[k] == models@[k].name,
            decreases num_states - q,
        {
            names.push(models[q].name);
            q += 1;
        }
        proof {
            assert(names@ =~= models@.map_values(|m: crate::vdjmodeler::HMMmodel| m.name));
        }

        HMM { states, transition_matrix, names }
    }
}

/// The canonical base index of a byte, meaningful for unambiguous ACGT
/// bytes; the catch-all slot otherwise.
pub open spec fn base_of(b: u8) -> int {
    match spec_char2pos(b) {
        Some(i) => i as int,
        None => 4,
    }
}

/// Whether every byte of a read is an unambiguous canonical base. Start
/// selection and scoring reject a read with any other byte; IUPAC expansion
/// serves only model construction.
pub open spec fn all_acgt(seq: Seq<u8>) -> bool {
    forall|i: int| 0 <= i < seq.len() ==> (#[trigger] spec_char2pos(seq[i])) is Some
}

/// The emission probability of base `base` for locus `j` at position `t`,
/// in `SCALE` units.
pub open spec fn spec_emission(m: &HMM, t: int, base: int, j: int) -> int {
    m.states@[t].match_emission@[j]@[base] as int
}

/// The linear-probability sum of matching the first `k` bases of the read
/// against locus `j`'s probability rows when the read is laid at start
/// offset `t`.
pub open spec fn spec_start_sum(m: &HMM, seq: Seq<u8>, t: int, j: int, k: int) -> int
    decreases k,
{
    if k <= 0 {
        0
    } else {
        spec_start_sum(m, seq, t, j, k - 1) + spec_emission(m, t + k - 1, base_of(seq[k - 1]), j)
    }
}

/// The full match sum of a read at offset `t` is between `len` and
/// `len * SCALE`, since every emission entry is in `[1, SCALE]`.
pub proof fn lemma_start_sum_bounds(m: &HMM, seq: Seq<u8>, t: int, j: int, k: int)
    requires
        m.wf(),
        0 <= j < m.spec_num_loci(),
        0 <= t,
        k >= 0,
        t + k <= m.states@.len(),
        k <= seq.len(),
    ensures
        k <= spec_start_sum(m, seq, t, j, k) <= k * SCALE,
    decreases k,
{
    if k > 0 {
        lemma_start_sum_bounds(m, seq, t, j, k - 1);
        assert(row_ok(m.states@[t + k - 1].match_emission@[j]@));
        assert((k - 1) * SCALE + SCALE == k * SCALE) by (nonlinear_arith);
    }
}

/// Base indices of unambiguous bytes fall inside a probability row.
pub proof fn lemma_base_of_range(seq: Seq<u8>)
    ensures
        forall|i: int| 0 <= i < seq.len() ==> 0 <= #[trigger] base_of(seq[i]) < 5,
{
}

/// The best (match sum, first start offset attaining it) for locus `j` over
/// the start offsets `0 ..= t`; ties keep the earlier offset.
pub open spec fn spec_scan(m: &HMM, seq: Seq<u8>, j: int, t: int) -> (int, int)
    decreases t,
{
    if t <= 0 {
        (spec_start_sum(m, seq, 0, j, seq.len() as int), 0)
    } else {
        let prev = spec_scan(m, seq, j, t - 1);
        let cur = spec_start_sum(m, seq, t, j, seq.len() as int);
        if prev.0 < cur {
            (cur, t)
        } else {
            prev
        }
    }
}

/// The scan's result is attained at its offset, bounds every scanned sum,
/// and stays within the sum bounds.
pub proof fn lemma_scan_props(m: &HMM, seq: Seq<u8>, j: int, t: int)
    requires
        m.wf(),
        0 <= j < m.spec_num_loci(),
        seq.len() >= 1,
        t >= 0,
        t + seq.len() <= m.states@.len(),
    ensures
        0 <= spec_scan(m, seq, j, t).1 <= t,
        spec_scan(m, seq, j, t).0 == spec_start_sum(
            m,
            seq,
            spec_scan(m, seq, j, t).1,
            j,
            seq.len() as int,
        ),
        forall|t2: int|
            0 <= t2 <= t ==> spec_start_sum(m, seq, t2, j, seq.len() as int) <= spec_scan(
                m,
                seq,
                j,
                t,
            ).0,
        seq.len() <= spec_scan(m, seq, j, t).0 <= seq.len() * SCALE,
    decreases t,
{
    lemma_start_sum_bounds(m, seq, t, j, seq.len() as int);
    if t > 0 {
        lemma_scan_props(m, seq, j, t - 1);
    }
}

/// Whether a read can be laid against the model at all: it is non-empty, it
/// fits inside the position axis, and it holds only unambiguous bases.
pub open spec fn spec_scannable(m: &HMM, seq: Seq<u8>) -> bool {
    &&& seq.len() >= 1
    &&& seq.len() <= m.states@.len()
    &&& all_acgt(seq)
}

/// The first start offset attaining locus `j`'s best match sum.
pub open spec fn spec_best_pos(m: &HMM, seq: Seq<u8>, j: int) -> int {
    spec_scan(m, seq, j, m.states@.len() - seq.len()).1
}

/// Locus `j`'s best match sum over all viable start offsets, averaged per
/// base of the read.
pub open spec fn spec_best_avg(m: &HMM, seq: Seq<u8>, j: int) -> int {
    spec_scan(m, seq, j, m.states@.len() - seq.len()).0 / seq.len() as int
}

impl HMM {
    /// The match sums of the read laid at start offset `pos`, one per locus,
    /// or nothing when the read holds a byte that is no unambiguous base.
    fn try_start_at(&self, sequence: &[u8], pos: usize) -> (r: Option<Vec<u128>>)
        requires
            self.wf(),
            pos + sequence@.len() <= self.states@.len(),
        ensures
            r is None <==> !all_acgt(sequence@),
            r matches Some(v) ==> v@.len() == self.spec_num_loci() && forall|j: int|
                0 <= j < v@.len() ==> #[trigger] v@[j] == spec_start_sum(
                    self,
                    sequence@,
                    pos as int,
                    j,
                    sequence@.len() as int,
                ),
    {
        let n = self.names.len();
        let avail = self.states.len();
        let slen = sequence.len();
        let mut ret: Vec<u128> = Vec::new();
        let mut j: usize = 0;
        while j < n
            invariant
                j <= n,
                ret@.len() == j,
                forall|k: int| 0 <= k < j ==> #[trigger] ret@[k] == 0u128,
            decreases n - j,
        {
            ret.push(0);
            j += 1;
        }
        let mut t: usize = 0;
        while t < sequence.len()
            invariant
                self.wf(),
                n == self.spec_num_loci(),
                t <= sequence@.len(),
                pos + sequence@.len() <= self.states@.len(),
                self.states@.len() == avail,
                sequence@.len() == slen,
                ret@.len() == n,
                forall|i: int| 0 <= i < t ==> (#[trigger] spec_char2pos(sequence@[i])) is Some,
                forall|k: int|
                    0 <= k < n ==> #[trigger] ret@[k] == spec_start_sum(
                        self,
                        sequence@,
                        pos as int,
                        k,
                        t as int,
                    ),
            decreases sequence@.len() - t,
        {
            let seq_id = match HMM::char2pos(sequence[t]) {
                Some(id) => id,
                None => {
                    return None;
                },
            };
            let prob_for_pos = self.states[t + pos].prob_for_pos(seq_id);
            proof {
                lemma_base_of_range(sequence@);
                assert(prob_for_pos@.len() == n);
                assert forall|k: int| 0 <= k < n implies spec_start_sum(
                    self,
                    sequence@,
                    pos as int,
                    k,
                    t as int,
                ) + (prob_for_pos@[k] as int) <= (t + 1) * SCALE by {
                    lemma_start_sum_bounds(self, sequence@, pos as int, k, t as int);
                    assert(row_ok(self.states@[t + pos].match_emission@[k]@));
                    assert(t * SCALE + SCALE == (t + 1) * SCALE) by (nonlinear_arith);
                }
                assert((t + 1) * SCALE <= (sequence@.len() as int) * SCALE) by {
                    vstd::arithmetic::mul::lemma_mul_inequality(
                        t + 1,
                        sequence@.len() as int,
                        SCALE as int,
                    );
                }
                lemma_sum_fits_u128(sequence@.len() as int);
                assert forall|c: int| 0 <= c < n implies #[trigger] ret@[c] <= ((
                sequence@.len() as int) * SCALE) as u128 by {
                    lemma_start_sum_bounds(self, sequence@, pos as int, c, t as int);
                    assert(t * SCALE <= (sequence@.len() as int) * SCALE) by {
                        vstd::arithmetic::mul::lemma_mul_inequality(
                            t as int,
                            sequence@.len() as int,
                            SCALE as int,
                        );
                    }
                }
            }
            let mut k: usize = 0;
            while k < n
                invariant
                    k <= n,
                    n == self.spec_num_loci(),
                    t < sequence@.len(),
                    pos + sequence@.len() <= self.states@.len(),
                    sequence@.len() == slen,
                    self.wf(),
                    base_of(sequence@[t as int]) == seq_id,
                    seq_id < 5,
                    ret@.len() == n,
                    prob_for_pos@.len() == n,
                    forall|c: int|
                        0 <= c < n ==> #[trigger] prob_for_pos@[c]
                            == self.states@[t + pos].match_emission@[c]@[seq_id as int],
                    forall|c: int|
                        k <= c < n ==> #[trigger] ret@[c] == spec_start_sum(
                            self,
                            sequence@,
                            pos as int,
                            c,
                            t as int,
                        ),
                    forall|c: int|
                        0 <= c < k ==> #[trigger] ret@[c] == spec_start_sum(
                            self,
                            sequence@,
                            pos as int,
                            c,
                            t + 1,
                        ),
                    forall|c: int|
                        0 <= c < n ==> #[trigger] ret@[c] <= ((sequence@.len() as int) * SCALE)
                            as u128,
                decreases n - k,
            {
                proof {
                    lemma_start_sum_bounds(self, sequence@, pos as int, k as int, t as int);
                    assert(row_ok(self.states@[t + pos].match_emission@[k as int]@));
                    assert(t * SCALE + SCALE <= (sequence@.len() as int) * SCALE) by {
                        assert(t * SCALE + SCALE == (t + 1) * SCALE) by (nonlinear_arith);
                        vstd::arithmetic::mul::lemma_mul_inequality(
                            t + 1,
                            sequence@.len() as int,
                            SCALE as int,
                        );
                    }
                    lemma_sum_fits_u128(sequence@.len() as int);
                }
                ret[k] = ret[k] + (prob_for_pos[k] as u128);
                k += 1;
            }
            t += 1;
        }
        Some(ret)
    }
}

impl HMM {
    /// For every locus, the first start offset attaining the locus's best
    /// match sum over all viable start offsets, paired with that best sum
    /// averaged per base of the read. All pairs are `(0, 0)` when the read
    /// cannot be laid against the model at all: it is empty, longer than the
    /// position axis, or holds a byte that is no unambiguous base — such a
    /// read is left unclassified rather than failing.
    pub fn find_probable_start(&self, sequence: &[u8]) -> (r: Vec<(usize, u64)>)
        requires
            self.wf(),
            self.states@.len() >= 1,
        ensures
            r@.len() == self.spec_num_loci(),
            spec_scannable(self, sequence@) ==> forall|j: int|
                0 <= j < r@.len() ==> #[trigger] r@[j].0 == spec_best_pos(self, sequence@, j)
                    && r@[j].1 == spec_best_avg(self, sequence@, j),
            !spec_scannable(self, sequence@) ==> forall|j: int|
                0 <= j < r@.len() ==> #[trigger] r@[j].0 == 0 && r@[j].1 == 0,
    {
        let n = self.names.len();
        let slen = sequence.len();
        let avail = self.states.len();

        if slen == 0 || slen > avail {
            return Self::zero_stats(n);
        }
        let first = self.try_start_at(sequence, 0);
        let v0 = match first {
            Some(v0) => v0,
            None => {
                return Self::zero_stats(n);
            },
        };

        let mut stats: Vec<u128> = v0;
        let mut pos: Vec<usize> = Vec::new();
        let mut j: usize = 0;
        while j < n
            invariant
                j <= n,
                pos@.len() == j,
                forall|k: int| 0 <= k < j ==> #[trigger] pos@[k] == 0,
            decreases n - j,
        {
            pos.push(0);
            j += 1;
        }

        let tmax = avail - slen;
        let mut t: usize = 1;
        while t <= tmax
            invariant
                self.wf(),
                n == self.spec_num_loci(),
                slen == sequence@.len(),
                avail == self.states@.len(),
                1 <= slen <= avail,
                tmax == avail - slen,
                1 <= t <= tmax + 1,
                all_acgt(sequence@),
                stats@.len() == n,
                pos@.len() == n,
                forall|k: int|
                    0 <= k < n ==> #[trigger] stats@[k] == spec_scan(
                        self,
                        sequence@,
                        k,
                        t - 1,
                    ).0 as u128,
                forall|k: int|
                    0 <= k < n ==> #[trigger] pos@[k] == spec_scan(self, sequence@, k, t - 1).1,
            decreases tmax + 1 - t,
        {
            let current_probs = match self.try_start_at(sequence, t) {
                Some(v) => v,
                None => {
                    proof {
                        assert(false);
                    }
                    vstd::pervasive::unreached()
                },
            };
            let mut id: usize = 0;
            while id < n
                invariant
                    id <= n,
                    n == self.spec_num_loci(),
                    self.wf(),
                    slen == sequence@.len(),
                    avail == self.states@.len(),
                    1 <= slen <= avail,
                    tmax == avail - slen,
                    1 <= t <= tmax,
                    all_acgt(sequence@),
                    stats@.len() == n,
                    pos@.len() == n,
                    current_probs@.len() == n,
                    forall|c: int|
                        0 <= c < n ==> #[trigger] current_probs@[c] == spec_start_sum(
                            self,
                            sequence@,
                            t as int,
                            c,
                            slen as int,
                        ),
                    forall|c: int|
                        id <= c < n ==> #[trigger] stats@[c] == spec_scan(
                            self,
                            sequence@,
                            c,
                            t - 1,
                        ).0 as u128,
                    forall|c: int|
                        id <= c < n ==> #[trigger] pos@[c] == spec_scan(self, sequence@, c, t - 1).1,
                    forall|c: int|
                        0 <= c < id ==> #[trigger] stats@[c] == spec_scan(
                            self,
                            sequence@,
                            c,
                            t as int,
                        ).0 as u128,
                    forall|c: int|
                        0 <= c < id ==> #[trigger] pos@[c] == spec_scan(self, sequence@, c, t as int).1,
                decreases n - id,
            {
                proof {
                    lemma_scan_props(self, sequence@, id as int, t - 1);
                    lemma_start_sum_bounds(self, sequence@, t as int, id as int, slen as int);
                }
                if stats[id] < current_probs[id] {
                    stats[id] = current_probs[id];
                    pos[id] = t;
                }
                id += 1;
            }
            t += 1;
        }

        let mut r: Vec<(usize, u64)> = Vec::new();
        let mut k: usize = 0;
        while k < n
            invariant
                k <= n,
                n == self.spec_num_loci(),
                self.wf(),
                slen == sequence@.len(),
                avail == self.states@.len(),
                1 <= slen <= avail,
                tmax == avail - slen,
                all_acgt(sequence@),
                stats@.len() == n,
                pos@.len() == n,
                forall|c: int|
                    0 <= c < n ==> #[trigger] stats@[c] == spec_scan(
                        self,
                        sequence@,
                        c,
                        tmax as int,
                    ).0 as u128,
                forall|c: int|
                    0 <= c < n ==> #[trigger] pos@[c] == spec_scan(self, sequence@, c, tmax as int).1,
                r@.len() == k,
                forall|c: int|
                    0 <= c < k ==> #[trigger] r@[c].0 == spec_best_pos(self, sequence@, c)
                        && r@[c].1 == spec_best_avg(self, sequence@, c),
            decreases n - k,
        {
            proof {
                lemma_scan_props(self, sequence@, k as int, tmax as int);
                let best = spec_scan(self, sequence@, k as int, tmax as int).0;
                assert(best / slen as int <= SCALE) by {
                    vstd::arithmetic::mul::lemma_mul_inequality(
                        slen as int,
                        slen as int,
                        SCALE as int,
                    );
                    vstd::arithmetic::div_mod::lemma_div_is_ordered(
                        best,
                        slen as int * SCALE,
                        slen as int,
                    );
                    vstd::arithmetic::mul::lemma_mul_is_commutative(slen as int, SCALE as int);
                    vstd::arithmetic::div_mod::lemma_div_by_multiple(SCALE as int, slen as int);
                }
                vstd::arithmetic::div_mod::lemma_div_pos_is_pos(best, slen as int);
            }
            let avg = (stats[k] / (slen as u128)) as u64;
            proof {
                assert(stats@[k as int] as int == spec_scan(self, sequence@, k as int, tmax as int).0);
                assert(avg as int == spec_best_avg(self, sequence@, k as int));
                assert(pos@[k as int] == spec_best_pos(self, sequence@, k as int));
            }
            r.push((pos[k], avg));
            k += 1;
        }
        r
    }

    /// A per-locus stats vector of all zeroes: no viable start offset.
    fn zero_stats(n: usize) -> (r: Vec<(usize, u64)>)
        ensures
            r@.len() == n,
            forall|j: int| 0 <= j < n ==> #[trigger] r@[j] == (0usize, 0u64),
    {
        let mut r: Vec<(usize, u64)> = Vec::new();
        let mut j: usize = 0;
        while j < n
            invariant
                j <= n,
                r@.len() == j,
                forall|k: int| 0 <= k < j ==> #[trigger] r@[k] == (0usize, 0u64),
            decreases n - j,
        {
            r.push((0, 0));
            j += 1;
        }
        r
    }
}

/// Wide accumulator entries, as integers.
pub open spec fn to_int_u128(s: Seq<u128>) -> Seq<int> {
    s.map_values(|x: u128| x as int)
}

/// The greatest element of a sequence of integers (zero for an empty one).
pub open spec fn seq_max(s: Seq<int>) -> int
    decreases s.len(),
{
    if s.len() == 0 {
        0
    } else if s.len() == 1 {
        s[0]
    } else {
        let m0 = seq_max(s.drop_last());
        if s.last() > m0 {
            s.last()
        } else {
            m0
        }
    }
}

/// The maximum of a non-empty sequence bounds every element and is attained.
pub proof fn lemma_seq_max_props(s: Seq<int>)
    requires
        s.len() >= 1,
    ensures
        forall|i: int| 0 <= i < s.len() ==> s[i] <= seq_max(s),
        exists|i: int| 0 <= i < s.len() && s[i] == seq_max(s),
    decreases s.len(),
{
    if s.len() == 1 {
        assert(s[0] == seq_max(s));
    }
    if s.len() > 1 {
        lemma_seq_max_props(s.drop_last());
        assert forall|i: int| 0 <= i < s.len() implies s[i] <= seq_max(s) by {
            if i < s.len() - 1 {
                assert(s.drop_last()[i] == s[i]);
            }
        }
        if s.last() > seq_max(s.drop_last()) {
            assert(s[s.len() - 1] == seq_max(s));
        } else {
            let w = choose|i: int|
                0 <= i < s.drop_last().len() && s.drop_last()[i] == seq_max(s.drop_last());
            assert(s[w] == seq_max(s));
        }
    }
}

/// One entry of the per-position rescaling: the entry as a fraction of the
/// row's maximum, in `SCALE` units, never rounded all the way to zero. The
/// row's maximum itself always rescales to exactly `SCALE`.
pub open spec fn rescale_entry(x: int, mx: int) -> int {
    let y = x * SCALE / mx;
    if y < 1 {
        1
    } else {
        y
    }
}

/// The per-position rescaling of a likelihood row: every entry relative to
/// the row's maximum. In exact arithmetic this scaling leaves the relative
/// likelihoods unchanged while keeping the values representable — the role
/// log-space accumulation plays in a floating-point formulation.
pub open spec fn spec_rescale(v: Seq<int>) -> Seq<int> {
    v.map_values(|x: int| rescale_entry(x, seq_max(v)))
}

/// A rescaled row of positive entries lies in `[1, SCALE]`, and an entry is
/// exactly `SCALE` precisely when it was the row's maximum.
pub proof fn lemma_rescale_props(v: Seq<int>)
    requires
        v.len() >= 1,
        forall|i: int| 0 <= i < v.len() ==> v[i] >= 1,
    ensures
        spec_rescale(v).len() == v.len(),
        forall|i: int| 0 <= i < v.len() ==> 1 <= #[trigger] spec_rescale(v)[i] <= SCALE,
        forall|i: int|
            0 <= i < v.len() ==> ((#[trigger] spec_rescale(v)[i] == SCALE) <==> v[i] == seq_max(v)),
        exists|i: int| 0 <= i < v.len() && #[trigger] spec_rescale(v)[i] == SCALE,
{
    lemma_seq_max_props(v);
    let mx = seq_max(v);
    assert(mx >= 1);
    assert forall|i: int| 0 <= i < v.len() implies 1 <= #[trigger] spec_rescale(v)[i] <= SCALE && (
    (spec_rescale(v)[i] == SCALE) <==> v[i] == mx) by {
        let x = v[i];
        if x == mx {
            assert(x * SCALE == SCALE * mx) by {
                vstd::arithmetic::mul::lemma_mul_is_commutative(x, SCALE as int);
            }
            assert(x * SCALE / mx == SCALE) by {
                vstd::arithmetic::div_mod::lemma_div_by_multiple(SCALE as int, mx);
            }
        } else {
            assert(x < mx);
            assert(x * SCALE < mx * SCALE) by {
                vstd::arithmetic::mul::lemma_mul_strict_inequality(x, mx, SCALE as int);
            }
            assert(x * SCALE / mx < SCALE) by {
                vstd::arithmetic::mul::lemma_mul_is_commutative(mx, SCALE as int);
                vstd::arithmetic::div_mod::lemma_multiply_divide_lt(x * SCALE, mx, SCALE as int);
            }
            assert(spec_rescale(v)[i] < SCALE);
        }
    }
    let w = choose|i: int| 0 <= i < v.len() && v[i] == mx;
    assert(spec_rescale(v)[w] == SCALE);
}

/// The best transition into locus `j` from any of the loci `0 ..= i`: the
/// maximum of the previous likelihoods weighted by the transition
/// probability into `j`.
pub open spec fn spec_trans_max(m: &HMM, prev: Seq<int>, j: int, i: int) -> int
    decreases i,
{
    if i <= 0 {
        prev[0] * m.transition_matrix@[0]@[j]
    } else {
        let rest = spec_trans_max(m, prev, j, i - 1);
        let cur = prev[i] * m.transition_matrix@[i]@[j];
        if cur > rest {
            cur
        } else {
            rest
        }
    }
}

/// The best weighted transition is positive and within `SCALE * SCALE`.
pub proof fn lemma_trans_max_bounds(m: &HMM, prev: Seq<int>, j: int, i: int)
    requires
        m.wf(),
        prev.len() == m.spec_num_loci(),
        forall|k: int| 0 <= k < prev.len() ==> 1 <= #[trigger] prev[k] <= SCALE,
        0 <= j < m.spec_num_loci(),
        0 <= i < m.spec_num_loci(),
    ensures
        1 <= spec_trans_max(m, prev, j, i) <= SCALE * SCALE,
    decreases i,
{
    assert(1 <= prev[i] * m.transition_matrix@[i]@[j] <= SCALE * SCALE) by {
        vstd::arithmetic::mul::lemma_mul_upper_bound(
            prev[i],
            SCALE as int,
            m.transition_matrix@[i]@[j] as int,
            SCALE as int,
        );
        vstd::arithmetic::mul::lemma_mul_ordering(prev[i], m.transition_matrix@[i]@[j] as int);
    }
    if i > 0 {
        lemma_trans_max_bounds(m, prev, j, i - 1);
    }
}

/// The unrescaled likelihood row of the next position: for each locus, the
/// best weighted transition from the previous row times the emission of the
/// position's base.
pub open spec fn spec_step_row(m: &HMM, prev: Seq<int>, t: int, base: int) -> Seq<int> {
    Seq::new(
        m.spec_num_loci() as nat,
        |j: int| spec_trans_max(m, prev, j, m.spec_num_loci() - 1) * spec_emission(m, t, base, j),
    )
}

/// The emission probabilities of one base at one position, over all loci.
pub open spec fn spec_emis_col(m: &HMM, t: int, base: int) -> Seq<int> {
    Seq::new(m.spec_num_loci() as nat, |j: int| spec_emission(m, t, base, j))
}

/// The rescaled likelihood row after scoring the read's first `k + 1` bases
/// from start offset `start`: the max-product recurrence of the scoring
/// scan, rescaled at every position.
pub open spec fn spec_alpha(m: &HMM, seq: Seq<u8>, start: int, k: int) -> Seq<int>
    decreases k,
{
    if k <= 0 {
        spec_rescale(spec_emis_col(m, start, base_of(seq[0])))
    } else {
        spec_rescale(
            spec_step_row(m, spec_alpha(m, seq, start, k - 1), start + k, base_of(seq[k])),
        )
    }
}

/// Every rescaled likelihood row has its entries in `[1, SCALE]` and attains
/// `SCALE` somewhere.
pub proof fn lemma_alpha_props(m: &HMM, seq: Seq<u8>, start: int, k: int)
    requires
        m.wf(),
        m.spec_num_loci() >= 1,
        0 <= k < seq.len(),
        0 <= start,
        start + seq.len() <= m.states@.len(),
    ensures
        spec_alpha(m, seq, start, k).len() == m.spec_num_loci(),
        forall|j: int|
            0 <= j < m.spec_num_loci() ==> 1 <= #[trigger] spec_alpha(m, seq, start, k)[j] <= SCALE,
        exists|j: int|
            0 <= j < m.spec_num_loci() && #[trigger] spec_alpha(m, seq, start, k)[j] == SCALE,
    decreases k,
{
    let n = m.spec_num_loci();
    if k <= 0 {
        let col = spec_emis_col(m, start, base_of(seq[0]));
        assert forall|j: int| 0 <= j < n implies 1 <= #[trigger] col[j] <= SCALE by {
            assert(row_ok(m.states@[start].match_emission@[j]@));
        }
        lemma_rescale_props(col);
        let w = choose|i: int| 0 <= i < col.len() && #[trigger] spec_rescale(col)[i] == SCALE;
        assert(spec_alpha(m, seq, start, k)[w] == SCALE);
    } else {
        lemma_alpha_props(m, seq, start, k - 1);
        let prev = spec_alpha(m, seq, start, k - 1);
        let row = spec_step_row(m, prev, start + k, base_of(seq[k]));
        assert forall|j: int| 0 <= j < n implies 1 <= #[trigger] row[j] by {
            lemma_trans_max_bounds(m, prev, j, n - 1);
            assert(row_ok(m.states@[start + k].match_emission@[j]@));
            vstd::arithmetic::mul::lemma_mul_ordering(
                spec_trans_max(m, prev, j, n - 1),
                spec_emission(m, start + k, base_of(seq[k]), j),
            );
        }
        lemma_rescale_props(row);
        let w = choose|i: int| 0 <= i < row.len() && #[trigger] spec_rescale(row)[i] == SCALE;
        assert(spec_alpha(m, seq, start, k)[w] == SCALE);
    }
}

impl HMM {
    /// Rescale a row of positive likelihood accumulators to `SCALE` units of
    /// the row's maximum, never rounding an entry to zero.
    fn rescale_row(raw: &Vec<u128>) -> (r: Vec<u64>)
        requires
            raw@.len() >= 1,
            forall|i: int| 0 <= i < raw@.len() ==> 1 <= #[trigger] raw@[i],
            forall|i: int|
                0 <= i < raw@.len() ==> #[trigger] raw@[i] <= ((SCALE * SCALE) as u128) * (
                SCALE as u128),
        ensures
            r@.len() == raw@.len(),
            to_int_u64(r@) == spec_rescale(to_int_u128(raw@)),
            forall|i: int| 0 <= i < r@.len() ==> 1 <= #[trigger] r@[i] <= SCALE,
    {
        let ghost v = to_int_u128(raw@);
        proof {
            lemma_rescale_props(v);
        }
        let n = raw.len();
        let mut mx: u128 = raw[0];
        let mut i: usize = 1;
        while i < n
            invariant
                1 <= i <= n,
                n == raw@.len(),
                v == to_int_u128(raw@),
                mx == seq_max(v.take(i as int)),
            decreases n - i,
        {
            proof {
                assert(v.take(i + 1).drop_last() =~= v.take(i as int));
            }
            if raw[i] > mx {
                mx = raw[i];
            }
            i += 1;
        }
        proof {
            assert(v.take(n as int) =~= v);
            lemma_seq_max_props(v);
        }
        let mut r: Vec<u64> = Vec::new();
        let mut j: usize = 0;
        while j < n
            invariant
                j <= n,
                n == raw@.len(),
                v == to_int_u128(raw@),
                mx == seq_max(v),
                mx >= 1,
                forall|k: int| 0 <= k < n ==> #[trigger] v[k] <= mx,
                forall|k: int| 0 <= k < n ==> 1 <= #[trigger] v[k],
                forall|k: int|
                    0 <= k < n ==> #[trigger] v[k] <= (SCALE * SCALE) * SCALE,
                r@.len() == j,
                forall|k: int| 0 <= k < j ==> #[trigger] r@[k] == rescale_entry(v[k], mx as int),
                forall|k: int| 0 <= k < j ==> 1 <= #[trigger] r@[k] <= SCALE,
            decreases n - j,
        {
            proof {
                assert(v[j as int] * SCALE <= mx * SCALE) by {
                    vstd::arithmetic::mul::lemma_mul_inequality(v[j as int], mx as int, SCALE as int);
                }
                assert(v[j as int] * SCALE / (mx as int) <= SCALE) by {
                    vstd::arithmetic::mul::lemma_mul_is_commutative(mx as int, SCALE as int);
                    vstd::arithmetic::div_mod::lemma_multiply_divide_le(
                        v[j as int] * SCALE,
                        mx as int,
                        SCALE as int,
                    );
                }
                assert(v[j as int] * SCALE / (mx as int) >= 0) by {
                    vstd::arithmetic::mul::lemma_mul_nonnegative(v[j as int], SCALE as int);
                    vstd::arithmetic::div_mod::lemma_div_pos_is_pos(
                        v[j as int] * SCALE,
                        mx as int,
                    );
                }
                assert((raw@[j as int] as int) * (SCALE as int) <= ((SCALE * SCALE) * SCALE) * (
                SCALE as int)) by {
                    vstd::arithmetic::mul::lemma_mul_inequality(
                        raw@[j as int] as int,
                        (SCALE * SCALE) * SCALE,
                        SCALE as int,
                    );
                }
            }
            let y = (raw[j] * (SCALE as u128)) / mx;
            let val: u64 = if y < 1 {
                1
            } else {
                y as u64
            };
            r.push(val);
            j += 1;
        }
        proof {
            assert(to_int_u64(r@) =~= spec_rescale(v));
        }
        r
    }
}

impl HMM {
    /// Score the read laid at start offset `start`: run the rescaled
    /// max-product recurrence over its positions and report, for every
    /// locus, the display name and the relative likelihood in `SCALE`
    /// units. The best locus always reports exactly `SCALE`; every score is
    /// in `(0, SCALE]`. Returns nothing when the read holds a byte that is
    /// no unambiguous base.
    pub fn forward_algorithm_pos(&self, sequence: &[u8], start: usize) -> (r: Option<
        Vec<(String, u64)>,
    >)
        requires
            self.wf(),
            self.spec_num_loci() >= 1,
            sequence@.len() >= 1,
            start + sequence@.len() <= self.states@.len(),
        ensures
            r is None <==> !all_acgt(sequence@),
            r matches Some(v) ==> v@.len() == self.spec_num_loci() && (forall|j: int|
                0 <= j < v@.len() ==> (#[trigger] v@[j]).0@ == spec_model_name(self.names@[j]))
                && (forall|j: int|
                0 <= j < v@.len() ==> (#[trigger] v@[j]).1 as int == spec_alpha(
                    self,
                    sequence@,
                    start as int,
                    sequence@.len() - 1,
                )[j]) && (forall|j: int| 0 <= j < v@.len() ==> 1 <= (#[trigger] v@[j]).1 <= SCALE)
                && (exists|j: int| 0 <= j < v@.len() && (#[trigger] v@[j]).1 == SCALE),
    {
        let n = self.names.len();
        let slen = sequence.len();
        let avail = self.states.len();

        // reject the read unless every byte is an unambiguous base
        let mut bases: Vec<usize> = Vec::new();
        let mut i: usize = 0;
        while i < slen
            invariant
                i <= slen,
                slen == sequence@.len(),
                bases@.len() == i,
                forall|k: int| 0 <= k < i ==> (#[trigger] spec_char2pos(sequence@[k])) is Some,
                forall|k: int| 0 <= k < i ==> #[trigger] bases@[k] as int == base_of(sequence@[k]),
            decreases slen - i,
        {
            match Self::char2pos(sequence[i]) {
                Some(b) => {
                    bases.push(b);
                },
                None => {
                    return None;
                },
            }
            i += 1;
        }

        // likelihoods of the first scored position
        let first = self.states[start].prob_for_pos(bases[0]);
        let mut raw: Vec<u128> = Vec::new();
        let mut j0: usize = 0;
        while j0 < n
            invariant
                j0 <= n,
                n == self.spec_num_loci(),
                self.wf(),
                slen == sequence@.len(),
                slen >= 1,
                start + slen <= self.states@.len(),
                bases@.len() == slen,
                bases@[0] as int == base_of(sequence@[0]),
                first@.len() == n,
                forall|c: int|
                    0 <= c < n ==> #[trigger] first@[c] == self.states@[start as int].match_emission@[c]@[bases@[0] as int],
                raw@.len() == j0,
                forall|c: int|
                    0 <= c < j0 ==> #[trigger] raw@[c] as int == spec_emis_col(
                        self,
                        start as int,
                        base_of(sequence@[0]),
                    )[c],
                forall|c: int| 0 <= c < j0 ==> 1 <= #[trigger] raw@[c] <= SCALE as u128,
            decreases n - j0,
        {
            proof {
                assert(row_ok(self.states@[start as int].match_emission@[j0 as int]@));
            }
            raw.push(first[j0] as u128);
            j0 += 1;
        }
        proof {
            assert(to_int_u128(raw@) =~= spec_emis_col(self, start as int, base_of(sequence@[0])));
            assert(forall|c: int|
                0 <= c < n ==> #[trigger] raw@[c] <= ((SCALE * SCALE) as u128) * (SCALE as u128));
        }
        let mut alpha: Vec<u64> = Self::rescale_row(&raw);
        proof {
            assert(to_int_u64(alpha@) == spec_alpha(self, sequence@, start as int, 0));
        }

        // the rescaled max-product recurrence over the rest of the read
        let mut t: usize = 1;
        while t < slen
            invariant
                1 <= t <= slen,
                n == self.spec_num_loci(),
                n >= 1,
                self.wf(),
                slen == sequence@.len(),
                start + slen <= self.states@.len(),
                self.states@.len() == avail,
                bases@.len() == slen,
                forall|k: int| 0 <= k < slen ==> #[trigger] bases@[k] as int == base_of(sequence@[k]),
                alpha@.len() == n,
                forall|c: int| 0 <= c < n ==> 1 <= #[trigger] alpha@[c] <= SCALE,
                to_int_u64(alpha@) == spec_alpha(self, sequence@, start as int, t - 1),
            decreases slen - t,
        {
            let ghost prev = to_int_u64(alpha@);
            let emis = self.states[start + t].prob_for_pos(bases[t]);
            let mut raw2: Vec<u128> = Vec::new();
            let mut j: usize = 0;
            while j < n
                invariant
                    j <= n,
                    n == self.spec_num_loci(),
                    n >= 1,
                    self.wf(),
                    slen == sequence@.len(),
                    1 <= t < slen,
                    start + slen <= self.states@.len(),
                    bases@.len() == slen,
                    bases@[t as int] as int == base_of(sequence@[t as int]),
                    alpha@.len() == n,
                    forall|c: int| 0 <= c < n ==> 1 <= #[trigger] alpha@[c] <= SCALE,
                    prev == to_int_u64(alpha@),
                    emis@.len() == n,
                    forall|c: int|
                        0 <= c < n ==> #[trigger] emis@[c]
                            == self.states@[start + t].match_emission@[c]@[bases@[t as int] as int],
                    raw2@.len() == j,
                    forall|c: int|
                        0 <= c < j ==> #[trigger] raw2@[c] as int == spec_step_row(
                            self,
                            prev,
                            start + t,
                            base_of(sequence@[t as int]),
                        )[c],
                    forall|c: int|
                        0 <= c < j ==> 1 <= #[trigger] raw2@[c] <= ((SCALE * SCALE) as u128) * (
                        SCALE as u128),
                decreases n - j,
            {
                proof {
                    vstd::arithmetic::mul::lemma_mul_upper_bound(
                        alpha@[0] as int,
                        SCALE as int,
                        self.transition_matrix@[0]@[j as int] as int,
                        SCALE as int,
                    );
                    vstd::arithmetic::mul::lemma_mul_ordering(
                        alpha@[0] as int,
                        self.transition_matrix@[0]@[j as int] as int,
                    );
                }
                let mut best: u128 = (alpha[0] as u128) * (self.transition_matrix[0][j] as u128);
                let mut i2: usize = 1;
                while i2 < n
                    invariant
                        1 <= i2 <= n,
                        n == self.spec_num_loci(),
                        self.wf(),
                        j < n,
                        alpha@.len() == n,
                        forall|c: int| 0 <= c < n ==> 1 <= #[trigger] alpha@[c] <= SCALE,
                        prev == to_int_u64(alpha@),
                        best as int == spec_trans_max(self, prev, j as int, i2 - 1),
                        1 <= best <= ((SCALE * SCALE) as u128),
                    decreases n - i2,
                {
                    proof {
                        vstd::arithmetic::mul::lemma_mul_upper_bound(
                            alpha@[i2 as int] as int,
                            SCALE as int,
                            self.transition_matrix@[i2 as int]@[j as int] as int,
                            SCALE as int,
                        );
                        vstd::arithmetic::mul::lemma_mul_ordering(
                            alpha@[i2 as int] as int,
                            self.transition_matrix@[i2 as int]@[j as int] as int,
                        );
                    }
                    let cand: u128 = (alpha[i2] as u128) * (self.transition_matrix[i2][j] as u128);
                    if cand > best {
                        best = cand;
                    }
                    i2 += 1;
                }
                proof {
                    assert(row_ok(self.states@[start + t].match_emission@[j as int]@));
                    vstd::arithmetic::mul::lemma_mul_upper_bound(
                        best as int,
                        (SCALE * SCALE) as int,
                        emis@[j as int] as int,
                        SCALE as int,
                    );
                    vstd::arithmetic::mul::lemma_mul_ordering(best as int, emis@[j as int] as int);
                }
                let val: u128 = best * (emis[j] as u128);
                raw2.push(val);
                j += 1;
            }
            proof {
                assert(to_int_u128(raw2@) =~= spec_step_row(
                    self,
                    prev,
                    start + t,
                    base_of(sequence@[t as int]),
                ));
            }
            alpha = Self::rescale_row(&raw2);
            proof {
                assert(to_int_u64(alpha@) == spec_alpha(self, sequence@, start as int, t as int));
            }
            t += 1;
        }

        // pair the locus names with the final relative likelihoods
        let ghost fin = spec_alpha(self, sequence@, start as int, slen - 1);
        proof {
            lemma_alpha_props(self, sequence@, start as int, slen - 1);
        }
        let mut result: Vec<(String, u64)> = Vec::new();
        let mut q: usize = 0;
        while q < n
            invariant
                q <= n,
                n == self.spec_num_loci(),
                self.wf(),
                alpha@.len() == n,
                to_int_u64(alpha@) == fin,
                forall|c: int| 0 <= c < n ==> 1 <= #[trigger] alpha@[c] <= SCALE,
                result@.len() == q,
                forall|c: int|
                    0 <= c < q ==> (#[trigger] result@[c]).0@ == spec_model_name(self.names@[c]),
                forall|c: int| 0 <= c < q ==> (#[trigger] result@[c]).1 == alpha@[c],
            decreases n - q,
        {
            let nm = self.names[q].name();
            result.push((nm, alpha[q]));
            q += 1;
        }
        proof {
            let w = choose|j: int| 0 <= j < n && #[trigger] fin[j] == SCALE;
            assert(result@[w].1 == SCALE);
            assert(forall|j: int|
                0 <= j < n ==> (#[trigger] result@[j]).1 as int == fin[j]);
        }
        Some(result)
    }
}

/// The retained start offsets after scanning the first `j` loci: each
/// locus's best start offset, kept when the locus's per-base average match
/// score exceeds the confidence threshold, without repetitions, in locus
/// order.
pub open spec fn spec_retained(m: &HMM, seq: Seq<u8>, j: int) -> Seq<int>
    decreases j,
{
    if j <= 0 {
        Seq::empty()
    } else {
        let rest = spec_retained(m, seq, j - 1);
        if spec_best_avg(m, seq, j - 1) > START_THRESHOLD && !rest.contains(
            spec_best_pos(m, seq, j - 1),
        ) {
            rest.push(spec_best_pos(m, seq, j - 1))
        } else {
            rest
        }
    }
}

/// Whether a read produces any result at all: it can be laid against the
/// model and some locus's best average match score exceeds the confidence
/// threshold. A read below the threshold everywhere is left unclassified —
/// it is not scored against all loci with probability zero.
pub open spec fn spec_has_hit(m: &HMM, seq: Seq<u8>) -> bool {
    spec_scannable(m, seq) && exists|j: int|
        0 <= j < m.spec_num_loci() && spec_best_avg(m, seq, j) > START_THRESHOLD
}

/// Retained start offsets are viable, and there is one exactly when some
/// locus passes the threshold.
pub proof fn lemma_retained_props(m: &HMM, seq: Seq<u8>, j: int)
    requires
        m.wf(),
        spec_scannable(m, seq),
        0 <= j <= m.spec_num_loci(),
    ensures
        forall|i: int|
            0 <= i < spec_retained(m, seq, j).len() ==> 0 <= #[trigger] spec_retained(m, seq, j)[i]
                <= m.states@.len() - seq.len(),
        spec_retained(m, seq, j).len() >= 1 <==> exists|k: int|
            0 <= k < j && #[trigger] spec_best_avg(m, seq, k) > START_THRESHOLD,
    decreases j,
{
    if j > 0 {
        lemma_retained_props(m, seq, j - 1);
        lemma_scan_props(m, seq, j - 1, m.states@.len() - seq.len());
    }
}

/// The collapsed score of locus `j`: the greatest relative likelihood the
/// locus attains at any retained start offset.
pub open spec fn spec_collapse(m: &HMM, seq: Seq<u8>, starts: Seq<int>, j: int) -> int
    decreases starts.len(),
{
    if starts.len() == 0 {
        0
    } else if starts.len() == 1 {
        spec_alpha(m, seq, starts[0], seq.len() - 1)[j]
    } else {
        let rest = spec_collapse(m, seq, starts.drop_last(), j);
        let cur = spec_alpha(m, seq, starts.last(), seq.len() - 1)[j];
        if cur > rest {
            cur
        } else {
            rest
        }
    }
}

/// The collapsed score lies in `(0, SCALE]` and bounds the score of every
/// retained start offset.
pub proof fn lemma_collapse_props(m: &HMM, seq: Seq<u8>, starts: Seq<int>, j: int)
    requires
        m.wf(),
        m.spec_num_loci() >= 1,
        seq.len() >= 1,
        starts.len() >= 1,
        0 <= j < m.spec_num_loci(),
        forall|s: int| 0 <= s < starts.len() ==> 0 <= #[trigger] starts[s],
        forall|s: int| 0 <= s < starts.len() ==> #[trigger] starts[s] + seq.len() <= m.states@.len(),
    ensures
        1 <= spec_collapse(m, seq, starts, j) <= SCALE,
        forall|s: int|
            0 <= s < starts.len() ==> spec_alpha(m, seq, #[trigger] starts[s], seq.len() - 1)[j]
                <= spec_collapse(m, seq, starts, j),
        exists|s: int|
            0 <= s < starts.len() && spec_collapse(m, seq, starts, j) == spec_alpha(
                m,
                seq,
                #[trigger] starts[s],
                seq.len() - 1,
            )[j],
    decreases starts.len(),
{
    lemma_alpha_props(m, seq, starts.last(), seq.len() - 1);
    if starts.len() == 1 {
        assert(spec_collapse(m, seq, starts, j) == spec_alpha(m, seq, starts[0], seq.len() - 1)[j]);
    }
    if starts.len() > 1 {
        lemma_collapse_props(m, seq, starts.drop_last(), j);
        assert(forall|s: int| 0 <= s < starts.len() - 1 ==> starts.drop_last()[s] == starts[s]);
        if spec_alpha(m, seq, starts.last(), seq.len() - 1)[j] > spec_collapse(
            m,
            seq,
            starts.drop_last(),
            j,
        ) {
            assert(spec_collapse(m, seq, starts, j) == spec_alpha(
                m,
                seq,
                starts[starts.len() - 1],
                seq.len() - 1,
            )[j]);
        } else {
            let w = choose|s: int|
                0 <= s < starts.drop_last().len() && spec_collapse(m, seq, starts.drop_last(), j)
                    == spec_alpha(m, seq, #[trigger] starts.drop_last()[s], seq.len() - 1)[j];
            assert(spec_collapse(m, seq, starts, j) == spec_alpha(
                m,
                seq,
                starts[w],
                seq.len() - 1,
            )[j]);
        }
    }
}

/// Whether locus `j` scores best among all loci when the read is laid at
/// `start`: no locus's relative likelihood exceeds `j`'s there.
pub open spec fn best_locus_at(m: &HMM, seq: Seq<u8>, start: int, j: int) -> bool {
    forall|i: int|
        0 <= i < m.spec_num_loci() ==> #[trigger] spec_alpha(m, seq, start, seq.len() - 1)[i]
            <= spec_alpha(m, seq, start, seq.len() - 1)[j]
}

/// The collapsed mapping scores a locus at exactly `SCALE` precisely when
/// some retained start offset scores that locus best among all loci: the
/// top score marks the locus of the best-scoring path.
pub proof fn lemma_top_score_is_best(m: &HMM, seq: Seq<u8>, starts: Seq<int>, j: int)
    requires
        m.wf(),
        m.spec_num_loci() >= 1,
        seq.len() >= 1,
        starts.len() >= 1,
        0 <= j < m.spec_num_loci(),
        forall|s: int| 0 <= s < starts.len() ==> 0 <= #[trigger] starts[s],
        forall|s: int| 0 <= s < starts.len() ==> #[trigger] starts[s] + seq.len() <= m.states@.len(),
    ensures
        spec_collapse(m, seq, starts, j) == SCALE <==> exists|s: int|
            0 <= s < starts.len() && best_locus_at(m, seq, #[trigger] starts[s], j),
{
    lemma_collapse_props(m, seq, starts, j);
    if spec_collapse(m, seq, starts, j) == SCALE {
        let s0 = choose|s: int|
            0 <= s < starts.len() && spec_collapse(m, seq, starts, j) == spec_alpha(
                m,
                seq,
                #[trigger] starts[s],
                seq.len() - 1,
            )[j];
        lemma_alpha_props(m, seq, starts[s0], seq.len() - 1);
        assert(best_locus_at(m, seq, starts[s0], j));
    }
    if exists|s: int| 0 <= s < starts.len() && best_locus_at(m, seq, #[trigger] starts[s], j) {
        let s0 = choose|s: int|
            0 <= s < starts.len() && best_locus_at(m, seq, #[trigger] starts[s], j);
        lemma_alpha_props(m, seq, starts[s0], seq.len() - 1);
        let w = choose|i: int|
            0 <= i < m.spec_num_loci() && #[trigger] spec_alpha(m, seq, starts[s0], seq.len() - 1)[i]
                == SCALE;
        assert(spec_alpha(m, seq, starts[s0], seq.len() - 1)[j] == SCALE);
        assert(spec_collapse(m, seq, starts, j) >= SCALE);
    }
}

/// Every row of every finalized probability matrix of a well-formed model
/// sums to exactly `SCALE` and holds no zero entry.
pub proof fn lemma_ppm_normalized(m: &HMM)
    requires
        m.wf(),
    ensures
        forall|p: int, j: int|
            0 <= p < m.states@.len() && 0 <= j < m.spec_num_loci() ==> sum_int(
                to_int_u64(#[trigger] m.states@[p].match_emission@[j]@),
            ) == SCALE,
        forall|p: int, j: int, b: int|
            0 <= p < m.states@.len() && 0 <= j < m.spec_num_loci() && 0 <= b < 5
                ==> 1 <= #[trigger] m.states@[p].match_emission@[j]@[b] <= SCALE,
{
    assert forall|p: int, j: int|
        0 <= p < m.states@.len() && 0 <= j < m.spec_num_loci() implies sum_int(
        to_int_u64(#[trigger] m.states@[p].match_emission@[j]@),
    ) == SCALE by {
        assert(row_ok(m.states@[p].match_emission@[j]@));
    }
    assert forall|p: int, j: int, b: int|
        0 <= p < m.states@.len() && 0 <= j < m.spec_num_loci() && 0 <= b < 5 implies 1 <= #[trigger] m.states@[p].match_emission@[j]@[b]
        <= SCALE by {
        assert(row_ok(m.states@[p].match_emission@[j]@));
    }
}

/// Some locus attains exactly `SCALE` in the collapsed mapping: the one the
/// last retained start offset scores best.
pub proof fn lemma_collapse_hits_scale(m: &HMM, seq: Seq<u8>, starts: Seq<int>)
    requires
        m.wf(),
        m.spec_num_loci() >= 1,
        seq.len() >= 1,
        starts.len() >= 1,
        forall|s: int| 0 <= s < starts.len() ==> 0 <= #[trigger] starts[s],
        forall|s: int| 0 <= s < starts.len() ==> #[trigger] starts[s] + seq.len() <= m.states@.len(),
    ensures
        exists|j: int|
            0 <= j < m.spec_num_loci() && #[trigger] spec_collapse(m, seq, starts, j) == SCALE,
{
    lemma_alpha_props(m, seq, starts.last(), seq.len() - 1);
    let w = choose|j: int|
        0 <= j < m.spec_num_loci() && #[trigger] spec_alpha(m, seq, starts.last(), seq.len() - 1)[j]
            == SCALE;
    lemma_collapse_props(m, seq, starts, w);
    assert(starts[starts.len() - 1] == starts.last());
    assert(spec_collapse(m, seq, starts, w) == SCALE);
}

/// The greatest score of column `j` over the rows of `data`.
pub open spec fn spec_col_max(data: Seq<Vec<(String, u64)>>, j: int) -> int
    decreases data.len(),
{
    if data.len() == 0 {
        0
    } else if data.len() == 1 {
        data[0]@[j].1 as int
    } else {
        let rest = spec_col_max(data.drop_last(), j);
        let cur = data.last()@[j].1 as int;
        if cur > rest {
            cur
        } else {
            rest
        }
    }
}

/// The column maximum over per-start score rows is the collapsed score,
/// when row `s` holds the scores of start offset `starts[s]`.
pub proof fn lemma_col_max_collapse(
    m: &HMM,
    seq: Seq<u8>,
    data: Seq<Vec<(String, u64)>>,
    starts: Seq<int>,
    j: int,
)
    requires
        data.len() == starts.len(),
        starts.len() >= 1,
        forall|s: int|
            0 <= s < data.len() ==> (#[trigger] data[s])@[j].1 as int == spec_alpha(
                m,
                seq,
                starts[s],
                seq.len() - 1,
            )[j],
    ensures
        spec_col_max(data, j) == spec_collapse(m, seq, starts, j),
    decreases data.len(),
{
    if data.len() > 1 {
        assert(forall|s: int| 0 <= s < starts.len() - 1 ==> starts.drop_last()[s] == starts[s]);
        assert(forall|s: int|
            0 <= s < data.len() - 1 ==> (#[trigger] data.drop_last()[s]) == data[s]);
        lemma_col_max_collapse(m, seq, data.drop_last(), starts.drop_last(), j);
    }
}

impl HMM {
    /// Whether a start offset was already retained.
    fn contains_pos(v: &Vec<usize>, x: usize) -> (r: bool)
        ensures
            r == v@.contains(x),
    {
        let mut i: usize = 0;
        while i < v.len()
            invariant
                i <= v@.len(),
                forall|k: int| 0 <= k < i ==> v@[k] != x,
            decreases v@.len() - i,
        {
            if v[i] == x {
                return true;
            }
            i += 1;
        }
        proof {
            assert(!v@.contains(x));
        }
        false
    }

    /// Collapse the per-start score rows to one row: for every locus, the
    /// greatest relative likelihood seen at any retained start offset. All
    /// rows list the loci in the same model order.
    fn collapse_to_max(data: &Vec<Vec<(String, u64)>>) -> (r: Vec<(String, u64)>)
        requires
            data@.len() >= 1,
            forall|s: int| 0 <= s < data@.len() ==> (#[trigger] data@[s])@.len() == data@[0]@.len(),
            forall|s: int, j: int|
                0 <= s < data@.len() && 0 <= j < data@[0]@.len() ==> (#[trigger] data@[s]@[j]).0@
                    == data@[0]@[j].0@,
        ensures
            r@.len() == data@[0]@.len(),
            forall|j: int| 0 <= j < r@.len() ==> (#[trigger] r@[j]).0@ == data@[0]@[j].0@,
            forall|j: int| 0 <= j < r@.len() ==> (#[trigger] r@[j]).1 as int == spec_col_max(data@, j),
    {
        let n = data[0].len();
        let rows = data.len();
        let mut r: Vec<(String, u64)> = Vec::new();
        let mut j: usize = 0;
        while j < n
            invariant
                j <= n,
                n == data@[0]@.len(),
                rows == data@.len(),
                rows >= 1,
                forall|s: int| 0 <= s < data@.len() ==> (#[trigger] data@[s])@.len() == n,
                forall|s: int, j2: int|
                    0 <= s < data@.len() && 0 <= j2 < n ==> (#[trigger] data@[s]@[j2]).0@
                        == data@[0]@[j2].0@,
                r@.len() == j,
                forall|c: int| 0 <= c < j ==> (#[trigger] r@[c]).0@ == data@[0]@[c].0@,
                forall|c: int| 0 <= c < j ==> (#[trigger] r@[c]).1 as int == spec_col_max(data@, c),
            decreases n - j,
        {
            let mut mx: u64 = data[0][j].1;
            let mut s: usize = 1;
            while s < rows
                invariant
                    1 <= s <= rows,
                    j < n,
                    n == data@[0]@.len(),
                    rows == data@.len(),
                    forall|s2: int| 0 <= s2 < data@.len() ==> (#[trigger] data@[s2])@.len() == n,
                    mx as int == spec_col_max(data@.take(s as int), j as int),
                decreases rows - s,
            {
                proof {
                    assert(data@.take(s + 1).drop_last() =~= data@.take(s as int));
                }
                let cand = data[s][j].1;
                if cand > mx {
                    mx = cand;
                }
                s += 1;
            }
            proof {
                assert(data@.take(rows as int) =~= data@);
            }
            let nm = data[0][j].0.clone();
            r.push((nm, mx));
            j += 1;
        }
        r
    }

    /// Score a query read: find the per-locus best start offsets, keep those
    /// whose average match score exceeds the confidence threshold, score the
    /// read from each retained offset, and collapse the results by taking,
    /// per locus, the greatest relative likelihood seen. Returns one
    /// `(display name, score)` pair per locus of the model, every score in
    /// `(0, SCALE]` with some locus at exactly `SCALE` — or nothing at all
    /// when no start offset passes the threshold, when the read cannot be
    /// laid against the model, or when it holds an unrecognized byte.
    pub fn forward_algorithm(&self, sequence: &[u8]) -> (r: Option<Vec<(String, u64)>>)
        requires
            self.wf(),
            self.states@.len() >= 1,
        ensures
            r is Some <==> spec_has_hit(self, sequence@),
            r matches Some(v) ==> v@.len() == self.spec_num_loci() && (forall|j: int|
                0 <= j < v@.len() ==> (#[trigger] v@[j]).0@ == spec_model_name(self.names@[j]))
                && (forall|j: int|
                0 <= j < v@.len() ==> (#[trigger] v@[j]).1 as int == spec_collapse(
                    self,
                    sequence@,
                    spec_retained(self, sequence@, self.spec_num_loci()),
                    j,
                )) && (forall|j: int| 0 <= j < v@.len() ==> 1 <= (#[trigger] v@[j]).1 <= SCALE) && (
            exists|j: int| 0 <= j < v@.len() && (#[trigger] v@[j]).1 == SCALE),
    {
        let n = self.names.len();
        let probable_start_values = self.find_probable_start(sequence);

        // keep each locus's best start offset when it passes the threshold
        let mut start_values: Vec<usize> = Vec::new();
        let mut j: usize = 0;
        while j < n
            invariant
                j <= n,
                n == self.spec_num_loci(),
                self.wf(),
                self.states@.len() >= 1,
                probable_start_values@.len() == n,
                spec_scannable(self, sequence@) ==> forall|c: int|
                    0 <= c < n ==> #[trigger] probable_start_values@[c].0 == spec_best_pos(
                        self,
                        sequence@,
                        c,
                    ) && probable_start_values@[c].1 == spec_best_avg(self, sequence@, c),
                !spec_scannable(self, sequence@) ==> forall|c: int|
                    0 <= c < n ==> #[trigger] probable_start_values@[c].0 == 0
                        && probable_start_values@[c].1 == 0,
                spec_scannable(self, sequence@) ==> to_int_usize(start_values@) == spec_retained(
                    self,
                    sequence@,
                    j as int,
                ),
                !spec_scannable(self, sequence@) ==> start_values@.len() == 0,
            decreases n - j,
        {
            let (pos, stat) = probable_start_values[j];
            if stat > START_THRESHOLD {
                if !Self::contains_pos(&start_values, pos) {
                    start_values.push(pos);
                    proof {
                        if spec_scannable(self, sequence@) {
                            assert(to_int_usize(start_values@) =~= spec_retained(
                                self,
                                sequence@,
                                j + 1,
                            )) by {
                                lemma_contains_to_int(
                                    start_values@.drop_last(),
                                    spec_best_pos(self, sequence@, j as int),
                                );
                            }
                        }
                    }
                } else {
                    proof {
                        if spec_scannable(self, sequence@) {
                            lemma_contains_to_int(
                                start_values@,
                                spec_best_pos(self, sequence@, j as int),
                            );
                        }
                    }
                }
            }
            j += 1;
        }

        if start_values.len() == 0 {
            proof {
                if spec_scannable(self, sequence@) {
                    lemma_retained_props(self, sequence@, n as int);
                }
            }
            return None;
        }

        proof {
            assert(spec_scannable(self, sequence@));
            lemma_retained_props(self, sequence@, n as int);
        }
        let ghost retained = spec_retained(self, sequence@, n as int);

        // score the read from every retained start offset
        let mut data: Vec<Vec<(String, u64)>> = Vec::new();
        let slen = sequence.len();
        let count = start_values.len();
        let mut s: usize = 0;
        while s < count
            invariant
                s <= count,
                n == self.spec_num_loci(),
                n >= 1,
                self.wf(),
                slen == sequence@.len(),
                slen >= 1,
                spec_scannable(self, sequence@),
                count == start_values@.len(),
                count >= 1,
                retained == spec_retained(self, sequence@, n as int),
                to_int_usize(start_values@) == retained,
                forall|i: int|
                    0 <= i < retained.len() ==> 0 <= #[trigger] retained[i] <= self.states@.len()
                        - sequence@.len(),
                data@.len() == s,
                forall|c: int| 0 <= c < s ==> (#[trigger] data@[c])@.len() == n,
                forall|c: int, j2: int|
                    0 <= c < s && 0 <= j2 < n ==> (#[trigger] data@[c]@[j2]).0@ == spec_model_name(
                        self.names@[j2],
                    ),
                forall|c: int, j2: int|
                    0 <= c < s && 0 <= j2 < n ==> (#[trigger] data@[c]@[j2]).1 as int == spec_alpha(
                        self,
                        sequence@,
                        retained[c],
                        sequence@.len() - 1,
                    )[j2],
            decreases count - s,
        {
            let start = start_values[s];
            proof {
                assert(to_int_usize(start_values@)[s as int] == start_values@[s as int] as int);
                assert(start as int == retained[s as int]);
                assert(0 <= retained[s as int] <= self.states@.len() - sequence@.len());
            }
            let this = match self.forward_algorithm_pos(sequence, start) {
                Some(v) => v,
                None => {
                    proof {
                        assert(false);
                    }
                    vstd::pervasive::unreached()
                },
            };
            data.push(this);
            s += 1;
        }

        let collapsed = Self::collapse_to_max(&data);
        proof {
            assert forall|j2: int| 0 <= j2 < n implies (#[trigger] collapsed@[j2]).1 as int
                == spec_collapse(self, sequence@, retained, j2) by {
                lemma_col_max_collapse(self, sequence@, data@, retained, j2);
            }
            assert forall|j2: int| 0 <= j2 < n implies 1 <= (#[trigger] collapsed@[j2]).1
                <= SCALE by {
                lemma_collapse_props(self, sequence@, retained, j2);
            }
            lemma_collapse_hits_scale(self, sequence@, retained);
            let w = choose|j2: int|
                0 <= j2 < n && #[trigger] spec_collapse(self, sequence@, retained, j2) == SCALE;
            assert((collapsed@[w]).1 == SCALE);
        }
        Some(collapsed)
    }
}

impl HMM {
    /// The per-position emission states of the model.
    pub fn states(&self) -> (r: &Vec<HMMState>)
        ensures
            r@ == self.states@,
    {
        &self.states
    }
}

/// A sequence of offsets holds a value exactly when its integer image does.
pub proof fn lemma_contains_to_int(s: Seq<usize>, x: int)
    requires
        0 <= x <= usize::MAX,
    ensures
        s.contains(x as usize) <==> to_int_usize(s).contains(x),
{
    if s.contains(x as usize) {
        let w = choose|i: int| 0 <= i < s.len() && s[i] == x as usize;
        assert(to_int_usize(s)[w] == x);
    }
    if to_int_usize(s).contains(x) {
        let w = choose|i: int| 0 <= i < s.len() && to_int_usize(s)[i] == x;
        assert(s[w] == x as usize);
    }
}

/// A per-base sum over a read always fits the wide accumulator.
pub proof fn lemma_sum_fits_u128(len: int)
    requires
        0 <= len <= usize::MAX,
    ensures
        len * SCALE < u128::MAX,
{
    vstd::arithmetic::mul::lemma_mul_inequality(len, usize::MAX as int, SCALE as int);
}

/// A partial sum of non-negative entries is at most the sum of all but the
/// last entry, when the prefix leaves the last entry out.
pub proof fn lemma_sum_take_le_drop_last(s: Seq<int>, k: int)
    requires
        0 <= k <= s.len() - 1,
        forall|j: int| 0 <= j < s.len() ==> s[j] >= 0,
    ensures
        sum_int(s.take(k)) <= sum_int(s.drop_last()),
    decreases s.len() - 1 - k,
{
    if k == s.len() - 1 {
        assert(s.take(k) =~= s.drop_last());
    } else {
        lemma_sum_take_le_drop_last(s, k + 1);
        assert(s.take(k + 1).drop_last() =~= s.take(k));
        assert(sum_int(s.take(k + 1)) == sum_int(s.take(k)) + s[k]);
    }
}

/// The finalized scoring model: one `HMMState` per alignment position on the
/// position axis common to all loci, the fixed transition matrix, and the
/// loci in model order.
pub struct HMM {
    /// The per-position emission states.
    pub states: Vec<HMMState>,
    /// The fixed transition matrix: near-diagonal, each row sums to `SCALE`.
    pub transition_matrix: Vec<Vec<u64>>,
    /// The loci modeled, in row order.
    pub names: Vec<SequenceModel>,
}

impl HMM {
    /// Uppercase an ASCII byte.
    fn upper_ascii(b: u8) -> (r: u8)
        ensures
            r == spec_upper(b),
    {
        if b >= 97 && b <= 122 {
            b - 32
        } else {
            b
        }
    }

    /// The canonical base index of an unambiguous nucleotide byte, or `None`
    /// for any other byte.
    pub fn char2pos(seq: u8) -> (r: Option<usize>)
        ensures
            r == spec_char2pos(seq),
    {
        match Self::upper_ascii(seq) {
            65 => Some(0),
            71 => Some(1),
            67 => Some(2),
            84 => Some(3),
            _ => None,
        }
    }

    /// Whether a byte is a recognized IUPAC nucleotide code.
    pub fn is_iupac_code(seq: u8) -> (r: bool)
        ensures
            r == is_iupac(seq),
    {
        match Self::upper_ascii(seq) {
            65 | 71 | 67 | 84 | 46 | 78 | 82 | 89 | 87 | 83 | 75 | 77 | 66 | 68 | 72 | 86 => true,
            _ => false,
        }
    }

    /// The IUPAC expansion of a nucleotide byte: every canonical base index
    /// the byte is compatible with.
    pub fn iupac_char2pos(seq: u8) -> (r: Vec<usize>)
        requires
            is_iupac(seq),
        ensures
            r@ == spec_iupac(seq),
    {
        let r: Vec<usize> = match Self::upper_ascii(seq) {
            65 => vec![0],
            71 => vec![1],
            67 => vec![2],
            84 => vec![3],
            46 => vec![0, 1, 2, 3],
            78 => vec![0, 1, 2, 3],
            82 => vec![0, 1],
            89 => vec![2, 3],
            87 => vec![0, 3],
            83 => vec![1, 2],
            75 => vec![1, 3],
            77 => vec![0, 2],
            66 => vec![1, 2, 3],
            68 => vec![0, 1, 3],
            72 => vec![0, 2, 3],
            86 => vec![0, 1, 2],
            _ => vec![],
        };
        proof {
            assert(r@ =~= spec_iupac(seq));
        }
        r
    }
}

} // verus!
