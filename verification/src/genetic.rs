//! The genetic engine's building blocks: the chromosome sampler, the
//! fitness scorer, and the row-preserving crossover operators.
//!
//! A chromosome is a whole solution grid each of whose rows realizes its
//! row constraint exactly; that is the representation invariant. Crossover
//! recombines whole rows and so keeps it with no repair step; the scorer
//! measures how far the derived column constraints are from the target.

use crate::definitions::{
    col_seq, segs_view, NonogramPuzzle, NonogramSegment, NonogramSolution, BACKGROUND,
};
use crate::rle::{
    lemma_prefix_eq, lemma_rle_append_run, lemma_rle_append_zeros, lemma_rle_bounds,
    lemma_seps_nonneg, lemma_tail_width, lemma_tail_width_nonneg, lemma_total_to_mono, rle,
    rle_total, run_of, seps, seps_to, tail_width, total_to, valid_line,
};
use crate::rng::{rand_between, rand_ratio};
use rand::rngs::StdRng;
use vstd::prelude::*;

verus! {

/// A constraint list padded at the front with zero-length, zero-color
/// placeholder runs up to length `n`, so two lists align from their ends.
pub open spec fn front_padded(a: Seq<(int, int)>, n: int) -> Seq<(int, int)> {
    if n <= a.len() {
        a
    } else {
        Seq::new((n - a.len()) as nat, |i: int| (0int, 0int)) + a
    }
}

/// The penalty of one aligned pair of runs: equal colors cost the length
/// difference; different colors cost both lengths in full, a strictly
/// larger penalty that biases the search toward color correctness before
/// length correctness.
pub open spec fn pair_penalty(a: (int, int), b: (int, int)) -> int {
    if a.0 == b.0 {
        vstd::math::abs(a.1 - b.1) as int
    } else {
        a.1 + b.1
    }
}

/// The summed penalty of the first `k` aligned pairs.
pub open spec fn pairs_penalty_to(a: Seq<(int, int)>, b: Seq<(int, int)>, k: int) -> int
    decreases k,
{
    if k <= 0 {
        0
    } else {
        pairs_penalty_to(a, b, k - 1) + pair_penalty(a[k - 1], b[k - 1])
    }
}

/// The divergence of a derived constraint list from the target list: the
/// shorter is front-padded with placeholders so both align from the end,
/// and the aligned pair penalties are summed.
pub open spec fn lists_penalty(cur: Seq<(int, int)>, exp: Seq<(int, int)>) -> int {
    let n = vstd::math::max(cur.len() as int, exp.len() as int);
    pairs_penalty_to(front_padded(cur, n), front_padded(exp, n), n)
}

/// The summed divergence of the candidate's first `j` derived column
/// constraint lists from the puzzle's.
pub open spec fn score_to(p: NonogramPuzzle, s: NonogramSolution, j: int) -> int
    decreases j,
{
    if j <= 0 {
        0
    } else {
        score_to(p, s, j - 1) + lists_penalty(rle(col_seq(s.grid(), j - 1)), p.col_list(j - 1))
    }
}

/// The fitness of a candidate: the summed divergence of its derived
/// column constraints from the puzzle's, over all columns; zero exactly
/// when every column matches.
pub open spec fn score_spec(p: NonogramPuzzle, s: NonogramSolution) -> int {
    score_to(p, s, p.cols as int)
}

/// Padding placeholders contribute nothing: a prefix of the padded list
/// weighs as much as the corresponding prefix of the original.
proof fn lemma_padded_total(a: Seq<(int, int)>, n: int, k: int)
    requires
        n >= a.len(),
        0 <= k <= n,
    ensures
        total_to(front_padded(a, n), k) == if k <= n - a.len() {
            0int
        } else {
            total_to(a, k - (n - a.len()))
        },
    decreases k,
{
    if k > 0 {
        lemma_padded_total(a, n, k - 1);
        let p = front_padded(a, n);
        let pad = n - a.len();
        assert(total_to(p, k) == total_to(p, k - 1) + p[k - 1].1);
        if k - 1 < pad {
            assert(p[k - 1] == (0int, 0int));
        } else {
            assert(p[k - 1] == a[k - 1 - pad]);
            assert(total_to(a, k - pad) == total_to(a, k - pad - 1) + a[k - pad - 1].1);
        }
    }
}

/// Aligned pair penalties are nonnegative and bounded by the two lists'
/// cell counts, as long as every run length is nonnegative.
proof fn lemma_pairs_penalty_bound(a: Seq<(int, int)>, b: Seq<(int, int)>, k: int)
    requires
        0 <= k <= a.len(),
        k <= b.len(),
        forall|i: int| 0 <= i < a.len() ==> (#[trigger] a[i]).1 >= 0,
        forall|i: int| 0 <= i < b.len() ==> (#[trigger] b[i]).1 >= 0,
    ensures
        0 <= pairs_penalty_to(a, b, k) <= total_to(a, k) + total_to(b, k),
    decreases k,
{
    if k > 0 {
        lemma_pairs_penalty_bound(a, b, k - 1);
    }
}

/// Every run length of a padded well-formed list is nonnegative.
proof fn lemma_padded_nonneg(a: Seq<(int, int)>, n: int)
    requires
        forall|i: int| 0 <= i < a.len() ==> (#[trigger] a[i]).1 >= 0,
    ensures
        forall|i: int|
            0 <= i < front_padded(a, n).len() ==> (#[trigger] front_padded(a, n)[i]).1 >= 0,
        front_padded(a, n).len() == vstd::math::max(a.len() as int, n),
{
}

impl NonogramPuzzle {
    /// A copy of a constraint list padded at the front with zero-length,
    /// zero-color placeholders up to the requested length, so that two
    /// lists can be compared aligned from their ends.
    pub fn normalize_vec(vec: &Vec<NonogramSegment>, len: usize) -> (r: Vec<NonogramSegment>)
        ensures
            segs_view(r@) == front_padded(
                segs_view(vec@),
                vstd::math::max(len as int, vec@.len() as int),
            ),
            r@.len() == vstd::math::max(len as int, vec@.len() as int),
    {
        let mut normalized: Vec<NonogramSegment> = Vec::new();
        let padding = if len > vec.len() {
            len - vec.len()
        } else {
            0
        };
        let mut i: usize = 0;
        while i < padding
            invariant
                0 <= i <= padding,
                normalized@.len() == i,
                forall|m: int|
                    0 <= m < i ==> (#[trigger] normalized@[m]).color == 0 && normalized@[m].length
                        == 0,
            decreases padding - i,
        {
            normalized.push(NonogramSegment { color: 0, length: 0 });
            i += 1;
        }
        let mut k: usize = 0;
        while k < vec.len()
            invariant
                0 <= k <= vec@.len(),
                normalized@.len() == padding + k,
                forall|m: int|
                    0 <= m < padding ==> (#[trigger] normalized@[m]).color == 0
                        && normalized@[m].length == 0,
                forall|m: int| 0 <= m < k ==> normalized@[padding + m] == vec@[m],
            decreases vec@.len() - k,
        {
            normalized.push(vec[k]);
            k += 1;
        }
        proof {
            assert(segs_view(normalized@) =~= front_padded(
                segs_view(vec@),
                vstd::math::max(len as int, vec@.len() as int),
            ));
        }
        normalized
    }

    /// The fitness of a candidate whose shape matches the puzzle: the
    /// summed divergence of its derived column constraints from the
    /// puzzle's own, exactly `score_spec`.
    pub fn score(&self, candidate: &NonogramSolution) -> (r: usize)
        requires
            self.wf(),
            candidate.wf(),
            candidate.grid().len() == self.rows,
            candidate.grid()[0].len() == self.cols,
        ensures
            r == score_spec(*self, *candidate),
    {
        let cand_constraints = candidate.col_constraints();
        let cols = self.cols;
        let rows = self.rows;
        let mut total: usize = 0;
        let mut j: usize = 0;
        while j < cols
            invariant
                self.wf(),
                candidate.wf(),
                candidate.grid().len() == self.rows,
                candidate.grid()[0].len() == self.cols,
                cols == self.cols,
                rows == self.rows,
                cand_constraints@.len() == cols,
                forall|k: int|
                    0 <= k < cols ==> segs_view(#[trigger] cand_constraints@[k]@) == rle(
                        col_seq(candidate.grid(), k),
                    ),
                0 <= j <= cols,
                total == score_to(*self, *candidate, j as int),
                total <= 2 * (rows as int) * (j as int),
            decreases cols - j,
        {
            let current_segments = &cand_constraints[j];
            let expected_segments = &self.col_constraints[j];
            let max_len = if current_segments.len() >= expected_segments.len() {
                current_segments.len()
            } else {
                expected_segments.len()
            };
            let current = Self::normalize_vec(current_segments, max_len);
            let expected = Self::normalize_vec(expected_segments, max_len);
            let ghost cur_list = rle(col_seq(candidate.grid(), j as int));
            let ghost exp_list = self.col_list(j as int);
            let ghost n = vstd::math::max(cur_list.len() as int, exp_list.len() as int);
            let ghost pa = front_padded(cur_list, n);
            let ghost pb = front_padded(exp_list, n);
            proof {
                assert(valid_line(exp_list, self.rows as int));
                lemma_rle_bounds(col_seq(candidate.grid(), j as int));
                assert(col_seq(candidate.grid(), j as int).len() == self.rows);
                lemma_seps_nonneg(cur_list);
                lemma_seps_nonneg(exp_list);
                lemma_prefix_eq(cur_list);
                lemma_prefix_eq(exp_list);
                lemma_padded_nonneg(cur_list, n);
                lemma_padded_nonneg(exp_list, n);
                lemma_padded_total(cur_list, n, n);
                lemma_padded_total(exp_list, n, n);
                // each list's cells fit in its line, so totals stay below `rows`
                assert(total_to(pa, n) == rle_total(cur_list));
                assert(total_to(pb, n) == rle_total(exp_list));
                assert(rle_total(cur_list) <= rows as int);
                assert(rle_total(exp_list) <= rows as int);
            }
            let mut col_pen: usize = 0;
            let mut i: usize = 0;
            while i < max_len
                invariant
                    self.wf(),
                    rows == self.rows,
                    max_len as int == n,
                    current@.len() == n,
                    expected@.len() == n,
                    segs_view(current@) == pa,
                    segs_view(expected@) == pb,
                    forall|m: int| 0 <= m < n ==> (#[trigger] pa[m]).1 >= 0,
                    forall|m: int| 0 <= m < n ==> (#[trigger] pb[m]).1 >= 0,
                    total_to(pa, n) <= rows as int,
                    total_to(pb, n) <= rows as int,
                    0 <= i <= max_len,
                    col_pen == pairs_penalty_to(pa, pb, i as int),
                    col_pen <= total_to(pa, i as int) + total_to(pb, i as int),
                decreases max_len - i,
            {
                let cur = current[i];
                let exp = expected[i];
                proof {
                    assert(pa[i as int] == cur.view_pair());
                    assert(pb[i as int] == exp.view_pair());
                    lemma_total_to_mono(pa, i + 1, n);
                    lemma_total_to_mono(pb, i + 1, n);
                    assert(total_to(pa, i + 1) == total_to(pa, i as int) + cur.length as int);
                    assert(total_to(pb, i + 1) == total_to(pb, i as int) + exp.length as int);
                }
                proof {
                    lemma_pairs_penalty_bound(pa, pb, i as int);
                    assert(2 * (rows as int) <= 2 * (rows as int) * (self.cols as int)) by (nonlinear_arith)
                        requires
                            self.cols >= 1,
                            rows >= 0,
                    ;
                    assert(2 * (rows as int) * (self.cols as int) <= 4 * ((rows as int) * (
                    self.cols as int))) by (nonlinear_arith)
                        requires
                            self.cols >= 0,
                            rows >= 0,
                    ;
                }
                let pen = if cur.color == exp.color {
                    if cur.length >= exp.length {
                        cur.length - exp.length
                    } else {
                        exp.length - cur.length
                    }
                } else {
                    cur.length + exp.length
                };
                col_pen += pen;
                i += 1;
            }
            proof {
                assert(col_pen == lists_penalty(cur_list, exp_list));
                assert(score_to(*self, *candidate, j + 1) == score_to(*self, *candidate, j as int)
                    + lists_penalty(cur_list, exp_list));
                lemma_pairs_penalty_bound(pa, pb, n);
                assert(2 * (rows as int) * (j as int) + 2 * (rows as int) == 2 * (rows as int) * (
                (j as int) + 1)) by (nonlinear_arith);
                assert(2 * (rows as int) * ((j as int) + 1) <= 2 * (rows as int) * (
                self.cols as int)) by (nonlinear_arith)
                    requires
                        j + 1 <= self.cols,
                        rows >= 0,
                ;
                assert(2 * (rows as int) * (self.cols as int) <= 4 * ((rows as int) * (
                self.cols as int))) by (nonlinear_arith)
                    requires
                        self.cols >= 0,
                        rows >= 0,
                ;
            }
            total += col_pen;
            j += 1;
        }
        total
    }
}

/// The summed cell counts of the candidate's and the puzzle's first `j`
/// column constraint lists, compared column by column.
pub open spec fn alt_score_to(p: NonogramPuzzle, s: NonogramSolution, j: int) -> int
    decreases j,
{
    if j <= 0 {
        0
    } else {
        alt_score_to(p, s, j - 1) + vstd::math::abs(
            rle_total(rle(col_seq(s.grid(), j - 1))) - rle_total(p.col_list(j - 1)),
        ) as int
    }
}

/// A coarser fitness: per column, only the difference between the total
/// number of colored cells the candidate has and the number the puzzle
/// asks for, summed over all columns.
pub open spec fn alt_score_spec(p: NonogramPuzzle, s: NonogramSolution) -> int {
    alt_score_to(p, s, p.cols as int)
}

/// The total cell count of a constraint list.
fn segments_total(v: &Vec<NonogramSegment>) -> (r: usize)
    requires
        rle_total(segs_view(v@)) <= usize::MAX,
    ensures
        r == rle_total(segs_view(v@)),
{
    let ghost list = segs_view(v@);
    proof {
        lemma_prefix_eq(list);
    }
    let mut sum: usize = 0;
    let mut t: usize = 0;
    while t < v.len()
        invariant
            list == segs_view(v@),
            total_to(list, list.len() as int) == rle_total(list) <= usize::MAX,
            0 <= t <= v@.len(),
            list.len() == v@.len(),
            sum == total_to(list, t as int),
        decreases v@.len() - t,
    {
        proof {
            lemma_total_to_mono(list, t + 1, list.len() as int);
            assert(total_to(list, t + 1) == total_to(list, t as int) + v@[t as int].length as int);
        }
        sum += v[t].length;
        t += 1;
    }
    sum
}

impl NonogramPuzzle {
    /// The coarser fitness of a candidate: exactly `alt_score_spec`.
    pub fn _score(&self, candidate: &NonogramSolution) -> (r: usize)
        requires
            self.wf(),
            candidate.wf(),
            candidate.grid().len() == self.rows,
            candidate.grid()[0].len() == self.cols,
        ensures
            r == alt_score_spec(*self, *candidate),
    {
        let cand_constraints = candidate.col_constraints();
        let cols = self.cols;
        let rows = self.rows;
        let mut total: usize = 0;
        let mut j: usize = 0;
        while j < cols
            invariant
                self.wf(),
                candidate.wf(),
                candidate.grid().len() == self.rows,
                candidate.grid()[0].len() == self.cols,
                cols == self.cols,
                rows == self.rows,
                cand_constraints@.len() == cols,
                forall|k: int|
                    0 <= k < cols ==> segs_view(#[trigger] cand_constraints@[k]@) == rle(
                        col_seq(candidate.grid(), k),
                    ),
                0 <= j <= cols,
                total == alt_score_to(*self, *candidate, j as int),
                total <= (rows as int) * (j as int),
            decreases cols - j,
        {
            let ghost cur_list = rle(col_seq(candidate.grid(), j as int));
            let ghost exp_list = self.col_list(j as int);
            proof {
                assert(valid_line(exp_list, self.rows as int));
                lemma_rle_bounds(col_seq(candidate.grid(), j as int));
                assert(col_seq(candidate.grid(), j as int).len() == self.rows);
                lemma_seps_nonneg(cur_list);
                lemma_seps_nonneg(exp_list);
                assert(rle_total(cur_list) <= rows as int);
                assert(rle_total(exp_list) <= rows as int);
            }
            let c = segments_total(&cand_constraints[j]);
            let e = segments_total(&self.col_constraints[j]);
            let d = if c >= e {
                c - e
            } else {
                e - c
            };
            proof {
                assert((rows as int) * (j as int) + (rows as int) == (rows as int) * ((j as int)
                    + 1)) by (nonlinear_arith);
                assert((rows as int) * ((j as int) + 1) <= (rows as int) * (self.cols as int))
                    by (nonlinear_arith)
                    requires
                        j + 1 <= self.cols,
                        rows >= 0,
                ;
                assert((rows as int) * (self.cols as int) <= 2 * (rows as int) * (
                self.cols as int)) by (nonlinear_arith)
                    requires
                        rows >= 0,
                        self.cols >= 0,
                ;
            }
            total += d;
            j += 1;
        }
        total
    }
}


/// The score depends only on the candidate's grid.
pub proof fn lemma_score_grid(p: NonogramPuzzle, s1: NonogramSolution, s2: NonogramSolution, j: int)
    requires
        s1.grid() == s2.grid(),
        j >= 0,
    ensures
        score_to(p, s1, j) == score_to(p, s2, j),
    decreases j,
{
    if j > 0 {
        lemma_score_grid(p, s1, s2, j - 1);
    }
}

/// A score is nonnegative and cannot exceed twice the number of cells:
/// each column contributes at most the cell count of its two constraint
/// lists, each of which fits in the column.
pub proof fn lemma_score_bound(p: NonogramPuzzle, s: NonogramSolution, j: int)
    requires
        p.wf(),
        s.wf(),
        s.grid().len() == p.rows,
        s.grid()[0].len() == p.cols,
        0 <= j <= p.cols,
    ensures
        0 <= score_to(p, s, j) <= 2 * (p.rows as int) * j,
    decreases j,
{
    if j > 0 {
        lemma_score_bound(p, s, j - 1);
        let cur_list = rle(col_seq(s.grid(), j - 1));
        let exp_list = p.col_list(j - 1);
        let n = vstd::math::max(cur_list.len() as int, exp_list.len() as int);
        let pa = front_padded(cur_list, n);
        let pb = front_padded(exp_list, n);
        assert(valid_line(exp_list, p.rows as int));
        lemma_rle_bounds(col_seq(s.grid(), j - 1));
        assert(col_seq(s.grid(), j - 1).len() == p.rows);
        lemma_seps_nonneg(cur_list);
        lemma_seps_nonneg(exp_list);
        lemma_prefix_eq(cur_list);
        lemma_prefix_eq(exp_list);
        lemma_padded_nonneg(cur_list, n);
        lemma_padded_nonneg(exp_list, n);
        lemma_padded_total(cur_list, n, n);
        lemma_padded_total(exp_list, n, n);
        lemma_pairs_penalty_bound(pa, pb, n);
        assert(total_to(pa, n) == rle_total(cur_list));
        assert(total_to(pb, n) == rle_total(exp_list));
        assert(0 <= lists_penalty(cur_list, exp_list) <= 2 * (p.rows as int));
        assert(2 * (p.rows as int) * (j - 1) + 2 * (p.rows as int) == 2 * (p.rows as int)
            * j) by (nonlinear_arith);
    }
}


/// A list compared against itself costs nothing.
proof fn lemma_pairs_self(a: Seq<(int, int)>, k: int)
    requires
        0 <= k <= a.len(),
    ensures
        pairs_penalty_to(a, a, k) == 0,
    decreases k,
{
    if k > 0 {
        lemma_pairs_self(a, k - 1);
    }
}

/// A zero total penalty makes every aligned pair's penalty zero.
proof fn lemma_pairs_zero_each(a: Seq<(int, int)>, b: Seq<(int, int)>, k: int)
    requires
        0 <= k <= a.len(),
        k <= b.len(),
        forall|i: int| 0 <= i < a.len() ==> (#[trigger] a[i]).1 >= 0,
        forall|i: int| 0 <= i < b.len() ==> (#[trigger] b[i]).1 >= 0,
        pairs_penalty_to(a, b, k) == 0,
    ensures
        forall|m: int| 0 <= m < k ==> pair_penalty(a[m], b[m]) == 0,
    decreases k,
{
    if k > 0 {
        lemma_pairs_penalty_bound(a, b, k - 1);
        assert(pair_penalty(a[k - 1], b[k - 1]) >= 0);
        lemma_pairs_zero_each(a, b, k - 1);
    }
}

/// The divergence of two well-formed constraint lists is zero exactly
/// when the lists are equal: matching from the end, a missing run, a
/// wrong color or a wrong length each cost at least one.
proof fn lemma_lists_penalty_zero_iff(cur: Seq<(int, int)>, exp: Seq<(int, int)>)
    requires
        forall|i: int| 0 <= i < cur.len() ==> (#[trigger] cur[i]).0 != 0 && cur[i].1 >= 1,
        forall|i: int| 0 <= i < exp.len() ==> (#[trigger] exp[i]).0 != 0 && exp[i].1 >= 1,
    ensures
        (lists_penalty(cur, exp) == 0) <==> (cur == exp),
{
    let n = vstd::math::max(cur.len() as int, exp.len() as int);
    let pa = front_padded(cur, n);
    let pb = front_padded(exp, n);
    lemma_padded_nonneg(cur, n);
    lemma_padded_nonneg(exp, n);
    if lists_penalty(cur, exp) == 0 {
        lemma_pairs_zero_each(pa, pb, n);
        if cur.len() < exp.len() {
            assert(pa[0] == (0int, 0int));
            assert(pb[0] == exp[0]);
            assert(pair_penalty(pa[0], pb[0]) >= 1);
            assert(false);
        } else if exp.len() < cur.len() {
            assert(pb[0] == (0int, 0int));
            assert(pa[0] == cur[0]);
            assert(pair_penalty(pa[0], pb[0]) >= 1);
            assert(false);
        } else {
            assert forall|m: int| 0 <= m < cur.len() implies cur[m] == exp[m] by {
                assert(pair_penalty(cur[m], exp[m]) == 0);
                assert(cur[m].0 == exp[m].0);
            }
            assert(cur =~= exp);
        }
    }
    if cur == exp {
        assert(pa == pb);
        lemma_pairs_self(pa, n);
    }
}

/// The first `j` columns contribute nothing exactly when each of them
/// realizes its constraint list.
proof fn lemma_score_to_zero_iff(p: NonogramPuzzle, s: NonogramSolution, j: int)
    requires
        p.wf(),
        s.wf(),
        s.grid().len() == p.rows,
        s.grid()[0].len() == p.cols,
        0 <= j <= p.cols,
    ensures
        (score_to(p, s, j) == 0) <==> (forall|jj: int|
            0 <= jj < j ==> rle(col_seq(s.grid(), jj)) == #[trigger] p.col_list(jj)),
    decreases j,
{
    if j > 0 {
        lemma_score_to_zero_iff(p, s, j - 1);
        lemma_score_bound(p, s, j - 1);
        let cur = rle(col_seq(s.grid(), j - 1));
        let exp = p.col_list(j - 1);
        lemma_rle_bounds(col_seq(s.grid(), j - 1));
        assert(valid_line(exp, p.rows as int));
        let n = vstd::math::max(cur.len() as int, exp.len() as int);
        lemma_padded_nonneg(cur, n);
        lemma_padded_nonneg(exp, n);
        lemma_pairs_penalty_bound(front_padded(cur, n), front_padded(exp, n), n);
        assert(lists_penalty(cur, exp) >= 0);
        lemma_lists_penalty_zero_iff(cur, exp);
        if score_to(p, s, j) == 0 {
            assert(score_to(p, s, j - 1) == 0 && lists_penalty(cur, exp) == 0);
        }
        if forall|jj: int| 0 <= jj < j ==> rle(col_seq(s.grid(), jj)) == #[trigger] p.col_list(jj) {
            assert(cur == exp);
        }
    }
}

/// A candidate scores zero exactly when every one of its columns realizes
/// the puzzle's column constraint list; since a chromosome's rows realize
/// the row constraints by construction, a zero score is a full solution.
pub proof fn lemma_score_zero_iff(p: NonogramPuzzle, s: NonogramSolution)
    requires
        p.wf(),
        s.wf(),
        s.grid().len() == p.rows,
        s.grid()[0].len() == p.cols,
    ensures
        (score_spec(p, s) == 0) <==> (forall|j: int|
            0 <= j < p.cols ==> rle(col_seq(s.grid(), j)) == #[trigger] p.col_list(j)),
{
    lemma_score_to_zero_iff(p, s, p.cols as int);
}

/// An exact copy of one grid row.
fn copy_row(v: &Vec<usize>) -> (r: Vec<usize>)
    ensures
        r@ == v@,
{
    let mut r: Vec<usize> = Vec::new();
    let mut i: usize = 0;
    while i < v.len()
        invariant
            0 <= i <= v@.len(),
            r@ == v@.take(i as int),
        decreases v@.len() - i,
    {
        r.push(v[i]);
        proof {
            assert(v@.take(i + 1) =~= v@.take(i as int).push(v@[i as int]));
        }
        i += 1;
    }
    proof {
        assert(v@.take(v@.len() as int) =~= v@);
    }
    r
}

/// Pushes `count` cells of one color onto a row being built.
fn push_repeat(row: &mut Vec<usize>, color: usize, count: usize)
    ensures
        final(row)@ == old(row)@ + run_of(color, count as int),
{
    let mut k: usize = 0;
    while k < count
        invariant
            0 <= k <= count,
            row@ == old(row)@ + run_of(color, k as int),
        decreases count - k,
    {
        row.push(color);
        proof {
            assert(old(row)@ + run_of(color, k + 1) =~= (old(row)@ + run_of(color, k as int)).push(
                color,
            ));
        }
        k += 1;
    }
}

impl NonogramSolution {
    /// A deep copy of the grid.
    pub fn duplicate(&self) -> (r: NonogramSolution)
        ensures
            r.grid() == self.grid(),
    {
        let mut solution_grid: Vec<Vec<usize>> = Vec::new();
        let n = self.solution_grid.len();
        let mut i: usize = 0;
        while i < n
            invariant
                n == self.grid().len(),
                0 <= i <= n,
                solution_grid@.len() == i,
                forall|k: int|
                    0 <= k < i ==> (#[trigger] solution_grid@[k])@ == self.grid()[k],
            decreases n - i,
        {
            solution_grid.push(copy_row(&self.solution_grid[i]));
            i += 1;
        }
        let r = NonogramSolution { solution_grid };
        proof {
            assert(r.grid() =~= self.grid());
        }
        r
    }
}

/// Each child's row `i` is one parent's row `i`, and the two children
/// take the two parents' rows in complementary fashion.
pub open spec fn rows_paired(
    a1: Seq<Seq<usize>>,
    a2: Seq<Seq<usize>>,
    c1: Seq<Seq<usize>>,
    c2: Seq<Seq<usize>>,
) -> bool {
    forall|i: int|
        #![trigger c1[i]]
        0 <= i < c1.len() ==> ((c1[i] == a1[i] && c2[i] == a2[i]) || (c1[i] == a2[i] && c2[i]
            == a1[i]))
}

/// The block of rows with index in `[p1, p2]` is exchanged between the
/// children, and every row outside it stays with its own parent.
pub open spec fn block_swapped(
    a1: Seq<Seq<usize>>,
    a2: Seq<Seq<usize>>,
    c1: Seq<Seq<usize>>,
    c2: Seq<Seq<usize>>,
    p1: int,
    p2: int,
) -> bool {
    forall|i: int|
        #![trigger c1[i]]
        0 <= i < c1.len() ==> if p1 <= i <= p2 {
            c1[i] == a2[i] && c2[i] == a1[i]
        } else {
            c1[i] == a1[i] && c2[i] == a2[i]
        }
}

/// Recombining whole rows preserves row validity: any candidate whose
/// every row is taken whole from one of two row-valid candidates is
/// row-valid itself, so no sequence of crossovers needs a repair step.
pub proof fn lemma_row_recombination_valid(
    p: NonogramPuzzle,
    a1: NonogramSolution,
    a2: NonogramSolution,
    c: NonogramSolution,
)
    requires
        a1.row_valid(p),
        a2.row_valid(p),
        c.grid().len() == p.rows,
        forall|i: int|
            0 <= i < p.rows ==> (#[trigger] c.grid()[i]) == a1.grid()[i] || c.grid()[i]
                == a2.grid()[i],
    ensures
        c.row_valid(p),
{
    assert forall|i: int| 0 <= i < p.rows implies (#[trigger] c.grid()[i]).len() == p.cols && rle(
        c.grid()[i],
    ) == p.row_list(i) by {
        assert(c.grid()[i] == a1.grid()[i] || c.grid()[i] == a2.grid()[i]);
        assert(a1.grid()[i].len() == p.cols && rle(a1.grid()[i]) == p.row_list(i));
        assert(a2.grid()[i].len() == p.cols && rle(a2.grid()[i]) == p.row_list(i));
    }
}

/// Children that take each row whole from one of two row-valid parents
/// are row-valid themselves.
proof fn lemma_pair_conclusions(
    p: NonogramPuzzle,
    a1: NonogramSolution,
    a2: NonogramSolution,
    c1: NonogramSolution,
    c2: NonogramSolution,
)
    requires
        c1.grid().len() == p.rows,
        c2.grid().len() == p.rows,
        a1.grid().len() == p.rows,
        a2.grid().len() == p.rows,
        forall|k: int|
            0 <= k < p.rows ==> (((#[trigger] c1.grid()[k]) == a1.grid()[k] && c2.grid()[k]
                == a2.grid()[k]) || (c1.grid()[k] == a2.grid()[k] && c2.grid()[k]
                == a1.grid()[k])),
    ensures
        rows_paired(a1.grid(), a2.grid(), c1.grid(), c2.grid()),
        a1.row_valid(p) && a2.row_valid(p) ==> c1.row_valid(p) && c2.row_valid(p),
{
    if a1.row_valid(p) && a2.row_valid(p) {
        assert forall|i: int| 0 <= i < p.rows implies (#[trigger] c1.grid()[i]).len() == p.cols
            && rle(c1.grid()[i]) == p.row_list(i) by {
            assert(c1.grid()[i] == a1.grid()[i] || c1.grid()[i] == a2.grid()[i]);
            assert(a1.grid()[i].len() == p.cols && rle(a1.grid()[i]) == p.row_list(i));
            assert(a2.grid()[i].len() == p.cols && rle(a2.grid()[i]) == p.row_list(i));
        }
        assert forall|i: int| 0 <= i < p.rows implies (#[trigger] c2.grid()[i]).len() == p.cols
            && rle(c2.grid()[i]) == p.row_list(i) by {
            assert(c1.grid()[i] == a1.grid()[i] || c1.grid()[i] == a2.grid()[i]);
            assert(c2.grid()[i] == a1.grid()[i] || c2.grid()[i] == a2.grid()[i]);
            assert(a1.grid()[i].len() == p.cols && rle(a1.grid()[i]) == p.row_list(i));
            assert(a2.grid()[i].len() == p.cols && rle(a2.grid()[i]) == p.row_list(i));
        }
    }
}

impl NonogramPuzzle {
    /// One row-valid random candidate: per row, the constraint's segments
    /// in order, with the slack cells distributed as random gaps before
    /// segments and as trailing background, and one forced background cell
    /// between adjacent same-colored segments. Every row of the result
    /// realizes its row constraint exactly, whatever the generator yields.
    pub fn new_chromosome_solution(&self, rng: &mut StdRng) -> (r: NonogramSolution)
        requires
            self.wf(),
        ensures
            r.row_valid(*self),
            r.wf(),
    {
        let rows = self.rows;
        let cols = self.cols;
        let mut solution_grid: Vec<Vec<usize>> = Vec::new();
        let mut i: usize = 0;
        while i < rows
            invariant
                self.wf(),
                rows == self.rows,
                cols == self.cols,
                0 <= i <= rows,
                solution_grid@.len() == i,
                forall|k: int|
                    0 <= k < i ==> (#[trigger] solution_grid@[k])@.len() == cols,
                forall|k: int|
                    0 <= k < i ==> rle((#[trigger] solution_grid@[k])@) == self.row_list(k),
            decreases rows - i,
        {
            let row_segments = &self.row_constraints[i];
            let seg_count = row_segments.len();
            let ghost list = self.row_list(i as int);
            proof {
                assert(valid_line(list, cols as int));
                lemma_prefix_eq(list);
                lemma_seps_nonneg(list);
            }
            // the cells the segments themselves take
            let mut row_segments_length: usize = 0;
            let mut t: usize = 0;
            while t < seg_count
                invariant
                    seg_count == list.len(),
                    list == self.row_list(i as int),
                    0 <= i < rows,
                    rows == self.rows,
                    cols == self.cols,
                    self.wf(),
                    0 <= t <= seg_count,
                    row_segments == self.row_constraints@[i as int],
                    row_segments_length == total_to(list, t as int),
                    total_to(list, list.len() as int) == rle_total(list),
                    seps(list) >= 0,
                decreases seg_count - t,
            {
                proof {
                    lemma_total_to_mono(list, t + 1, list.len() as int);
                    assert(total_to(list, t + 1) == total_to(list, t as int) + list[t as int].1);
                    assert(list[t as int] == row_segments@[t as int].view_pair());
                }
                row_segments_length += row_segments[t].length;
                t += 1;
            }
            // the mandatory separators between adjacent same-colored segments
            let mut required_spaces: usize = 0;
            let mut t: usize = 1;
            while t < seg_count
                invariant
                    seg_count == list.len(),
                    list == self.row_list(i as int),
                    0 <= i < rows,
                    row_segments == self.row_constraints@[i as int],
                    1 <= t,
                    seg_count >= 1 ==> t <= seg_count,
                    seg_count == 0 ==> t == 1,
                    required_spaces == seps_to(list, t as int),
                    required_spaces <= t - 1,
                decreases seg_count - t,
            {
                proof {
                    assert(list[t as int] == row_segments@[t as int].view_pair());
                    assert(list[t as int - 1] == row_segments@[t as int - 1].view_pair());
                    assert(seps_to(list, t as int + 1) == seps_to(list, t as int) + if list[
                        t as int].0 == list[t as int - 1].0 {
                        1int
                    } else {
                        0int
                    });
                }
                if row_segments[t].color == row_segments[t - 1].color {
                    required_spaces += 1;
                }
                t += 1;
            }
            proof {
                lemma_prefix_eq(list);
                lemma_seps_nonneg(list);
                assert(seps_to(list, 1) == 0 && seps_to(list, 0) == 0);
                assert(required_spaces == seps(list));
                assert(rle_total(list) + seps(list) <= cols as int);
            }
            let mut remaining_spaces: usize = cols - row_segments_length - required_spaces;
            let ghost slack = remaining_spaces as int;
            let mut row_chromosome: Vec<usize> = Vec::new();
            let mut t: usize = 0;
            proof {
                lemma_tail_width(list, 0);
                assert(list.take(0) =~= Seq::<(int, int)>::empty());
            }
            while t < seg_count
                invariant
                    self.wf(),
                    rows == self.rows,
                    cols == self.cols,
                    0 <= i < rows,
                    seg_count == list.len(),
                    list == self.row_list(i as int),
                    row_segments == self.row_constraints@[i as int],
                    valid_line(list, cols as int),
                    0 <= t <= seg_count,
                    rle(row_chromosome@) == list.take(t as int),
                    row_chromosome@.len() + remaining_spaces + tail_width(list, t as int)
                        == cols as int,
                    t < seg_count ==> (row_chromosome@.len() == 0 || row_chromosome@.last() as int
                        != list[t as int].0),
                decreases seg_count - t,
            {
                proof {
                    lemma_tail_width_nonneg(list, t + 1);
                    assert(tail_width(list, t as int) == list[t as int].1 + (if t + 1 < list.len()
                        && list[t + 1].0 == list[t as int].0 {
                        1int
                    } else {
                        0int
                    }) + tail_width(list, t + 1));
                }
                if rand_ratio(rng, 500, 1000) {
                    let gap_size = rand_between(rng, 0, remaining_spaces);
                    remaining_spaces -= gap_size;
                    if gap_size != 0 {
                        let ghost before = row_chromosome@;
                        push_repeat(&mut row_chromosome, BACKGROUND, gap_size);
                        proof {
                            lemma_rle_append_zeros(before, gap_size as int);
                            assert(row_chromosome@.last() == 0usize);
                            assert(list[t as int].0 != 0);
                        }
                    }
                }
                let seg = row_segments[t];
                proof {
                    assert(seg.view_pair() == list[t as int]);
                    assert(seg.color != 0 && seg.length >= 1);
                    assert(row_chromosome@.len() == 0 || row_chromosome@.last() != seg.color);
                }
                let ghost before = row_chromosome@;
                push_repeat(&mut row_chromosome, seg.color, seg.length);
                proof {
                    lemma_rle_append_run(before, seg.color, seg.length as int);
                    assert(list.take(t + 1) =~= list.take(t as int).push(list[t as int]));
                    assert(rle(row_chromosome@) =~= list.take(t + 1));
                    assert(row_chromosome@.last() == seg.color);
                }
                if t + 1 < seg_count {
                    if row_segments[t + 1].color == seg.color {
                        let ghost before = row_chromosome@;
                        row_chromosome.push(BACKGROUND);
                        proof {
                            assert(row_chromosome@ =~= before + run_of(0usize, 1));
                            lemma_rle_append_zeros(before, 1);
                        }
                    } else {
                        proof {
                            assert(list[t + 1].0 != seg.color as int);
                        }
                    }
                }
                t += 1;
            }
            if remaining_spaces != 0 {
                let ghost before = row_chromosome@;
                push_repeat(&mut row_chromosome, BACKGROUND, remaining_spaces);
                proof {
                    lemma_rle_append_zeros(before, remaining_spaces as int);
                }
            }
            proof {
                assert(list.take(list.len() as int) =~= list);
                assert(row_chromosome@.len() == cols);
            }
            solution_grid.push(row_chromosome);
            i += 1;
        }
        let r = NonogramSolution { solution_grid };
        proof {
            assert(r.grid().len() == rows);
            assert(forall|k: int| 0 <= k < rows ==> (#[trigger] r.grid()[k]).len() == cols);
            assert(forall|k: int| 0 <= k < rows ==> rle(#[trigger] r.grid()[k]) == self.row_list(k));
        }
        r
    }

    /// Uniform crossover: per row, with probability `cross_probability`
    /// (in thousandths) each child keeps the corresponding parent's row,
    /// and otherwise the rows are exchanged. Rows are copied whole, so
    /// children of row-valid ancestors are row-valid.
    pub fn uniform_cross(
        &self,
        ancestor_1: &NonogramSolution,
        ancestor_2: &NonogramSolution,
        cross_probability: u32,
        rng: &mut StdRng,
    ) -> (r: (NonogramSolution, NonogramSolution))
        requires
            cross_probability <= 1000,
            ancestor_1.grid().len() == self.rows,
            ancestor_2.grid().len() == self.rows,
        ensures
            r.0.grid().len() == self.rows,
            r.1.grid().len() == self.rows,
            rows_paired(ancestor_1.grid(), ancestor_2.grid(), r.0.grid(), r.1.grid()),
            ancestor_1.row_valid(*self) && ancestor_2.row_valid(*self) ==> r.0.row_valid(*self)
                && r.1.row_valid(*self),
    {
        let mut descendant_1: Vec<Vec<usize>> = Vec::new();
        let mut descendant_2: Vec<Vec<usize>> = Vec::new();
        let rows = self.rows;
        let mut i: usize = 0;
        while i < rows
            invariant
                rows == self.rows,
                cross_probability <= 1000,
                ancestor_1.grid().len() == rows,
                ancestor_2.grid().len() == rows,
                0 <= i <= rows,
                descendant_1@.len() == i,
                descendant_2@.len() == i,
                forall|k: int|
                    0 <= k < i ==> (((#[trigger] descendant_1@[k])@ == ancestor_1.grid()[k]
                        && descendant_2@[k]@ == ancestor_2.grid()[k]) || (descendant_1@[k]@
                        == ancestor_2.grid()[k] && descendant_2@[k]@ == ancestor_1.grid()[k])),
            decreases rows - i,
        {
            let row_1 = copy_row(&ancestor_1.solution_grid[i]);
            let row_2 = copy_row(&ancestor_2.solution_grid[i]);
            let ghost rv1 = row_1@;
            let ghost rv2 = row_2@;
            let ghost d1_old = descendant_1@;
            let ghost d2_old = descendant_2@;
            proof {
                assert(rv1 == ancestor_1.grid()[i as int]);
                assert(rv2 == ancestor_2.grid()[i as int]);
            }
            if rand_ratio(rng, cross_probability, 1000) {
                descendant_1.push(row_1);
                descendant_2.push(row_2);
                proof {
                    assert(descendant_1@[i as int]@ == rv1 && descendant_2@[i as int]@ == rv2);
                }
            } else {
                descendant_2.push(row_1);
                descendant_1.push(row_2);
                proof {
                    assert(descendant_1@[i as int]@ == rv2 && descendant_2@[i as int]@ == rv1);
                }
            }
            proof {
                assert forall|k: int| 0 <= k < i + 1 implies (((#[trigger] descendant_1@[k])@
                    == ancestor_1.grid()[k] && descendant_2@[k]@ == ancestor_2.grid()[k]) || (
                descendant_1@[k]@ == ancestor_2.grid()[k] && descendant_2@[k]@
                    == ancestor_1.grid()[k])) by {
                    if k < i {
                        assert(descendant_1@[k] == d1_old[k]);
                        assert(descendant_2@[k] == d2_old[k]);
                    }
                }
            }
            i += 1;
        }
        let r = (NonogramSolution { solution_grid: descendant_1 }, NonogramSolution {
            solution_grid: descendant_2,
        });
        proof {
            assert(r.0.grid().len() == rows && r.1.grid().len() == rows);
            assert forall|k: int| 0 <= k < rows implies (((#[trigger] r.0.grid()[k])
                == ancestor_1.grid()[k] && r.1.grid()[k] == ancestor_2.grid()[k]) || (
            r.0.grid()[k] == ancestor_2.grid()[k] && r.1.grid()[k] == ancestor_1.grid()[k])) by {
                assert(r.0.grid()[k] == descendant_1@[k]@);
                assert(r.1.grid()[k] == descendant_2@[k]@);
            }
            lemma_pair_conclusions(*self, *ancestor_1, *ancestor_2, r.0, r.1);
        }
        r
    }

    /// Two-point crossover: with probability `1 - cross_probability` (in
    /// thousandths) the children are verbatim copies of the parents;
    /// otherwise two interior points are drawn and the block of rows
    /// between them is exchanged. The points are deliberately drawn from
    /// the column count's range and applied to row indices, a quirk kept
    /// for reproducibility. Rows are copied whole, so children of
    /// row-valid ancestors are row-valid.
    pub fn two_point_cross(
        &self,
        ancestor_1: &NonogramSolution,
        ancestor_2: &NonogramSolution,
        cross_probability: u32,
        rng: &mut StdRng,
    ) -> (r: (NonogramSolution, NonogramSolution))
        requires
            cross_probability <= 1000,
            self.cols >= 3,
            ancestor_1.grid().len() == self.rows,
            ancestor_2.grid().len() == self.rows,
        ensures
            r.0.grid().len() == self.rows,
            r.1.grid().len() == self.rows,
            rows_paired(ancestor_1.grid(), ancestor_2.grid(), r.0.grid(), r.1.grid()),
            (r.0.grid() == ancestor_1.grid() && r.1.grid() == ancestor_2.grid()) || (exists|
                p1: int,
                p2: int,
            |
                1 <= p1 <= p2 <= self.cols - 2 && block_swapped(
                    ancestor_1.grid(),
                    ancestor_2.grid(),
                    r.0.grid(),
                    r.1.grid(),
                    p1,
                    p2,
                )),
            ancestor_1.row_valid(*self) && ancestor_2.row_valid(*self) ==> r.0.row_valid(*self)
                && r.1.row_valid(*self),
    {
        if !rand_ratio(rng, cross_probability, 1000) {
            let d1 = ancestor_1.duplicate();
            let d2 = ancestor_2.duplicate();
            proof {
                lemma_pair_conclusions(*self, *ancestor_1, *ancestor_2, d1, d2);
            }
            return (d1, d2);
        }
        let mut descendant_1: Vec<Vec<usize>> = Vec::new();
        let mut descendant_2: Vec<Vec<usize>> = Vec::new();

        let a = rand_between(rng, 1, self.cols - 2);
        let b = rand_between(rng, 1, self.cols - 2);
        let point_1 = if a <= b {
            a
        } else {
            b
        };
        let point_2 = if a <= b {
            b
        } else {
            a
        };
        let rows = self.rows;
        let mut i: usize = 0;
        while i < rows
            invariant
                rows == self.rows,
                ancestor_1.grid().len() == rows,
                ancestor_2.grid().len() == rows,
                1 <= point_1 <= point_2 <= self.cols - 2,
                0 <= i <= rows,
                descendant_1@.len() == i,
                descendant_2@.len() == i,
                forall|k: int|
                    0 <= k < i ==> if point_1 <= k <= point_2 {
                        (#[trigger] descendant_1@[k])@ == ancestor_2.grid()[k] && descendant_2@[k]@
                            == ancestor_1.grid()[k]
                    } else {
                        descendant_1@[k]@ == ancestor_1.grid()[k] && descendant_2@[k]@
                            == ancestor_2.grid()[k]
                    },
            decreases rows - i,
        {
            let row_1 = copy_row(&ancestor_1.solution_grid[i]);
            let row_2 = copy_row(&ancestor_2.solution_grid[i]);
            let ghost rv1 = row_1@;
            let ghost rv2 = row_2@;
            let ghost d1_old = descendant_1@;
            let ghost d2_old = descendant_2@;
            proof {
                assert(rv1 == ancestor_1.grid()[i as int]);
                assert(rv2 == ancestor_2.grid()[i as int]);
            }
            if i < point_1 || i > point_2 {
                descendant_1.push(row_1);
                descendant_2.push(row_2);
                proof {
                    assert(descendant_1@[i as int]@ == rv1 && descendant_2@[i as int]@ == rv2);
                }
            } else {
                descendant_2.push(row_1);
                descendant_1.push(row_2);
                proof {
                    assert(descendant_1@[i as int]@ == rv2 && descendant_2@[i as int]@ == rv1);
                }
            }
            proof {
                assert forall|k: int| 0 <= k < i + 1 implies (if point_1 <= k <= point_2 {
                    (#[trigger] descendant_1@[k])@ == ancestor_2.grid()[k] && descendant_2@[k]@
                        == ancestor_1.grid()[k]
                } else {
                    descendant_1@[k]@ == ancestor_1.grid()[k] && descendant_2@[k]@
                        == ancestor_2.grid()[k]
                }) by {
                    if k < i {
                        assert(descendant_1@[k] == d1_old[k]);
                        assert(descendant_2@[k] == d2_old[k]);
                    }
                }
            }
            i += 1;
        }
        let r = (NonogramSolution { solution_grid: descendant_1 }, NonogramSolution {
            solution_grid: descendant_2,
        });
        proof {
            assert(r.0.grid().len() == rows && r.1.grid().len() == rows);
            assert forall|k: int| 0 <= k < rows implies (((#[trigger] r.0.grid()[k])
                == ancestor_1.grid()[k] && r.1.grid()[k] == ancestor_2.grid()[k]) || (
            r.0.grid()[k] == ancestor_2.grid()[k] && r.1.grid()[k] == ancestor_1.grid()[k])) by {
                assert(r.0.grid()[k] == descendant_1@[k]@);
                assert(r.1.grid()[k] == descendant_2@[k]@);
            }
            lemma_pair_conclusions(*self, *ancestor_1, *ancestor_2, r.0, r.1);
            assert forall|k: int| 0 <= k < r.0.grid().len() implies if point_1 as int <= k
                <= point_2 as int {
                (#[trigger] r.0.grid()[k]) == ancestor_2.grid()[k] && r.1.grid()[k]
                    == ancestor_1.grid()[k]
            } else {
                r.0.grid()[k] == ancestor_1.grid()[k] && r.1.grid()[k] == ancestor_2.grid()[k]
            } by {
                assert(r.0.grid()[k] == descendant_1@[k]@);
                assert(r.1.grid()[k] == descendant_2@[k]@);
            }
            assert(block_swapped(
                ancestor_1.grid(),
                ancestor_2.grid(),
                r.0.grid(),
                r.1.grid(),
                point_1 as int,
                point_2 as int,
            ));
        }
        r
    }
}

} // verus!
