//! Run-length encoding of a line of cells, as a mathematical function.
//!
//! A line (a row or a column of the grid) is a sequence of color indices;
//! color `0` is the background. Its constraint list is the sequence of
//! maximal runs of identical nonzero colors, each as a (color, length)
//! pair. This module defines that encoding and proves the structural
//! lemmas the rest of the crate builds on: how the encoding splits over
//! concatenation, and that moving a run one cell into an adjacent
//! background cell leaves the encoding unchanged.

use vstd::prelude::*;

verus! {

/// A sequence of `k` copies of the color `c`.
pub open spec fn run_of(c: usize, k: int) -> Seq<usize> {
    Seq::new(k as nat, |i: int| c)
}

/// The run-length encoding of a line: the (color, length) pairs of its
/// maximal runs of identical nonzero colors, in order. Background runs
/// produce no pair.
pub open spec fn rle(s: Seq<usize>) -> Seq<(int, int)>
    decreases s.len(),
{
    if s.len() == 0 {
        Seq::empty()
    } else {
        let c = s[0];
        let rest = rle(s.drop_first());
        if c == 0 {
            rest
        } else if s.len() > 1 && s[1] == c {
            seq![(c as int, rest[0].1 + 1)] + rest.drop_first()
        } else {
            seq![(c as int, 1 as int)] + rest
        }
    }
}

/// A line whose first cell is colored has an encoding that starts with a
/// run of that color.
pub proof fn lemma_rle_head(s: Seq<usize>)
    requires
        s.len() > 0,
        s[0] != 0,
    ensures
        rle(s).len() > 0,
        rle(s)[0].0 == s[0] as int,
        rle(s)[0].1 >= 1,
    decreases s.len(),
{
    if s.len() > 1 && s[1] == s[0] {
        lemma_rle_head(s.drop_first());
    }
}

/// The encoding splits over concatenation wherever no nonzero run crosses
/// the seam: when either part is empty, the left part ends in background,
/// or the two sides of the seam have different colors.
pub proof fn lemma_rle_concat(x: Seq<usize>, y: Seq<usize>)
    requires
        x.len() == 0 || y.len() == 0 || x.last() == 0 || x.last() != y.first(),
    ensures
        rle(x + y) == rle(x) + rle(y),
    decreases x.len(),
{
    if x.len() == 0 {
        assert(x + y =~= y);
        assert(rle(x) + rle(y) =~= rle(y));
    } else if y.len() == 0 {
        assert(x + y =~= x);
        assert(rle(x) + rle(y) =~= rle(x));
    } else {
        let s = x + y;
        let xt = x.drop_first();
        assert(s.drop_first() =~= xt + y);
        if xt.len() > 0 {
            assert(xt.last() == x.last());
        }
        lemma_rle_concat(xt, y);
        let a = x[0];
        if a == 0 {
            assert(rle(s) == rle(xt) + rle(y));
            assert(rle(x) == rle(xt));
        } else if x.len() > 1 && x[1] == a {
            // the run at the head of `x` continues into `xt`, on both sides
            assert(s.len() > 1 && s[1] == a);
            lemma_rle_head(xt);
            lemma_rle_head(xt + y);
            assert((rle(xt) + rle(y))[0] == rle(xt)[0]);
            assert((rle(xt) + rle(y)).drop_first() =~= rle(xt).drop_first() + rle(y));
            assert(rle(s) =~= seq![(a as int, rle(xt)[0].1 + 1)] + rle(xt).drop_first() + rle(y));
            assert(rle(x) + rle(y) =~= seq![(a as int, rle(xt)[0].1 + 1)] + rle(xt).drop_first()
                + rle(y));
        } else {
            // the head run of `x` is the single cell x[0]
            if x.len() == 1 {
                // the seam follows immediately; the condition rules out a merge
                assert(s.len() > 1 ==> s[1] != a);
                assert(rle(s) == seq![(a as int, 1 as int)] + rle(y));
                assert(xt.len() == 0);
                assert(rle(x) == seq![(a as int, 1 as int)]);
                assert(rle(x) + rle(y) =~= seq![(a as int, 1 as int)] + rle(y));
                assert(rle(s) =~= rle(x) + rle(y));
            } else {
                assert(s[1] == x[1]);
                assert(s[1] != a);
                assert(rle(s) == seq![(a as int, 1 as int)] + rle(xt + y));
                assert(rle(s) =~= seq![(a as int, 1 as int)] + rle(xt) + rle(y));
                assert(rle(x) + rle(y) =~= seq![(a as int, 1 as int)] + rle(xt) + rle(y));
            }
        }
    }
}

/// A uniform nonzero run encodes to the single pair (c, k).
pub proof fn lemma_rle_run(c: usize, k: int)
    requires
        c != 0,
        k >= 1,
    ensures
        rle(run_of(c, k)) == seq![(c as int, k)],
    decreases k,
{
    let s = run_of(c, k);
    if k == 1 {
        assert(rle(s.drop_first()) =~= Seq::<(int, int)>::empty());
        assert(rle(s) =~= seq![(c as int, 1 as int)]);
    } else {
        assert(s.drop_first() =~= run_of(c, k - 1));
        lemma_rle_run(c, k - 1);
        assert(s.len() > 1 && s[1] == c);
        assert(rle(s) =~= seq![(c as int, k)]);
    }
}

/// A background run encodes to nothing.
pub proof fn lemma_rle_zeros(k: int)
    requires
        k >= 0,
    ensures
        rle(run_of(0, k)) == Seq::<(int, int)>::empty(),
    decreases k,
{
    if k > 0 {
        let s = run_of(0usize, k);
        assert(s.drop_first() =~= run_of(0usize, k - 1));
        lemma_rle_zeros(k - 1);
    }
}

/// Appending a nonzero run that does not continue the line's last run
/// appends exactly one pair to the encoding.
pub proof fn lemma_rle_append_run(x: Seq<usize>, c: usize, k: int)
    requires
        c != 0,
        k >= 1,
        x.len() == 0 || x.last() != c,
    ensures
        rle(x + run_of(c, k)) == rle(x) + seq![(c as int, k)],
{
    lemma_rle_concat(x, run_of(c, k));
    lemma_rle_run(c, k);
}

/// Appending background cells leaves the encoding unchanged.
pub proof fn lemma_rle_append_zeros(x: Seq<usize>, k: int)
    requires
        k >= 0,
    ensures
        rle(x + run_of(0, k)) == rle(x),
{
    if k == 0 {
        assert(x + run_of(0usize, 0) =~= x);
    } else {
        lemma_rle_concat(x, run_of(0usize, k));
        lemma_rle_zeros(k);
        assert(rle(x) + Seq::<(int, int)>::empty() =~= rle(x));
    }
}

/// Sliding a run one cell into an adjacent background cell leaves the
/// encoding unchanged: with a gap cell on the left of the run or on its
/// right, the whole line encodes to the surrounding parts with the pair
/// (c, k) in between, provided neither neighbor continues the run's color.
pub proof fn lemma_rle_slide(u: Seq<usize>, c: usize, k: int, w: Seq<usize>)
    requires
        c != 0,
        k >= 1,
        u.len() == 0 || u.last() != c,
        w.len() == 0 || w.first() != c,
    ensures
        rle(u + run_of(c, k) + seq![0usize] + w) == rle(u) + seq![(c as int, k)] + rle(w),
        rle(u + seq![0usize] + run_of(c, k) + w) == rle(u) + seq![(c as int, k)] + rle(w),
{
    let run = run_of(c, k);
    let z = seq![0usize];

    // run first, gap cell after
    let tail1 = run + z + w;
    assert(tail1.first() == c);
    lemma_rle_concat(u, tail1);
    assert(u + tail1 =~= u + run + z + w);
    assert((run + z).last() == 0);
    lemma_rle_concat(run + z, w);
    assert(run + z + w =~= (run + z) + w);
    assert(run + z =~= run + run_of(0usize, 1));
    lemma_rle_append_zeros(run, 1);
    lemma_rle_run(c, k);
    assert(rle(u + run + z + w) =~= rle(u) + seq![(c as int, k)] + rle(w));

    // gap cell first, run after
    let tail2 = z + run + w;
    assert(tail2.first() == 0);
    lemma_rle_concat(u, tail2);
    assert(u + tail2 =~= u + z + run + w);
    assert(z + run + w =~= z + (run + w));
    lemma_rle_concat(z, run + w);
    assert(rle(z) =~= Seq::<(int, int)>::empty()) by {
        assert(z =~= run_of(0usize, 1));
        lemma_rle_zeros(1);
    }
    lemma_rle_concat(run, w);
    assert(rle(u + z + run + w) =~= rle(u) + seq![(c as int, k)] + rle(w));
}

/// The total cell count of an encoding: the sum of its run lengths.
pub open spec fn rle_total(v: Seq<(int, int)>) -> int
    decreases v.len(),
{
    if v.len() == 0 {
        0
    } else {
        v[0].1 + rle_total(v.drop_first())
    }
}

/// The number of mandatory one-cell separators in a constraint list: one
/// between each pair of adjacent segments of equal color, since two equal
/// colored runs would otherwise merge into one.
pub open spec fn seps(v: Seq<(int, int)>) -> int
    decreases v.len(),
{
    if v.len() <= 1 {
        0
    } else {
        (if v[0].0 == v[1].0 {
            1int
        } else {
            0int
        }) + seps(v.drop_first())
    }
}

/// The least number of cells a line must have to realize a constraint
/// list: the run lengths plus the mandatory separators.
pub open spec fn min_width(v: Seq<(int, int)>) -> int {
    rle_total(v) + seps(v)
}

/// A constraint list that some line of `size` cells can realize: every
/// segment has a nonzero color and a positive length, and the runs with
/// their mandatory separators fit in the line.
pub open spec fn valid_line(v: Seq<(int, int)>, size: int) -> bool {
    &&& forall|i: int| 0 <= i < v.len() ==> (#[trigger] v[i]).0 != 0 && v[i].1 >= 1
    &&& min_width(v) <= size
}

/// The cell count of the first `k` runs of a constraint list.
pub open spec fn total_to(a: Seq<(int, int)>, k: int) -> int
    decreases k,
{
    if k <= 0 {
        0
    } else {
        total_to(a, k - 1) + a[k - 1].1
    }
}

/// The number of mandatory separators among the first `k` runs.
pub open spec fn seps_to(a: Seq<(int, int)>, k: int) -> int
    decreases k,
{
    if k <= 1 {
        0
    } else {
        seps_to(a, k - 1) + if a[k - 1].0 == a[k - 2].0 {
            1int
        } else {
            0int
        }
    }
}

/// The cells still owed from run `t` on: the remaining lengths plus a
/// separator after each run whose successor has the same color.
pub open spec fn tail_width(a: Seq<(int, int)>, t: int) -> int
    decreases a.len() - t,
{
    if t < 0 || t >= a.len() {
        0
    } else {
        a[t].1 + (if t + 1 < a.len() && a[t + 1].0 == a[t].0 {
            1int
        } else {
            0int
        }) + tail_width(a, t + 1)
    }
}

/// Prefix sums shift under dropping the first run.
proof fn lemma_prefix_shift(a: Seq<(int, int)>, k: int)
    requires
        1 <= k <= a.len(),
    ensures
        total_to(a, k) == a[0].1 + total_to(a.drop_first(), k - 1),
        seps_to(a, k) == (if k >= 2 && a[1].0 == a[0].0 {
            1int
        } else {
            0int
        }) + seps_to(a.drop_first(), k - 1),
    decreases k,
{
    if k == 1 {
        assert(total_to(a, 0) == 0);
        assert(total_to(a.drop_first(), 0) == 0);
        assert(seps_to(a.drop_first(), 0) == 0);
    } else {
        lemma_prefix_shift(a, k - 1);
        assert(a.drop_first()[k - 2] == a[k - 1]);
        assert(k >= 3 ==> a.drop_first()[k - 3] == a[k - 2]);
        assert(total_to(a.drop_first(), k - 1) == total_to(a.drop_first(), k - 2) + a.drop_first()[
            k - 2].1);
        assert(seps_to(a.drop_first(), k - 1) == seps_to(a.drop_first(), k - 2) + if k >= 3
            && a[k - 1].0 == a[k - 2].0 {
            1int
        } else {
            0int
        });
    }
}

/// Over the whole list, the prefix sums agree with `rle_total` and `seps`.
pub proof fn lemma_prefix_eq(a: Seq<(int, int)>)
    ensures
        total_to(a, a.len() as int) == rle_total(a),
        seps_to(a, a.len() as int) == seps(a),
    decreases a.len(),
{
    if a.len() > 0 {
        lemma_prefix_shift(a, a.len() as int);
        lemma_prefix_eq(a.drop_first());
    }
}

/// Prefix cell counts grow with the prefix when lengths are nonnegative.
pub proof fn lemma_total_to_mono(a: Seq<(int, int)>, k1: int, k2: int)
    requires
        0 <= k1 <= k2 <= a.len(),
        forall|i: int| 0 <= i < a.len() ==> (#[trigger] a[i]).1 >= 0,
    ensures
        total_to(a, k1) <= total_to(a, k2),
    decreases k2 - k1,
{
    if k1 < k2 {
        lemma_total_to_mono(a, k1, k2 - 1);
    }
}

/// The separator count is nonnegative.
pub proof fn lemma_seps_nonneg(a: Seq<(int, int)>)
    ensures
        seps(a) >= 0,
    decreases a.len(),
{
    if a.len() > 1 {
        lemma_seps_nonneg(a.drop_first());
    }
}

/// The cells still owed are nonnegative when all run lengths are.
pub proof fn lemma_tail_width_nonneg(a: Seq<(int, int)>, t: int)
    requires
        forall|i: int| 0 <= i < a.len() ==> (#[trigger] a[i]).1 >= 0,
    ensures
        tail_width(a, t) >= 0,
    decreases a.len() - t,
{
    if 0 <= t < a.len() {
        lemma_tail_width_nonneg(a, t + 1);
    }
}

/// The cells owed from run `t` on are the whole width minus what the first
/// `t` runs and their internal separators take.
pub proof fn lemma_tail_width(a: Seq<(int, int)>, t: int)
    requires
        0 <= t <= a.len(),
    ensures
        tail_width(a, t) == min_width(a) - total_to(a, t) - seps_to(a, t) - (if 1 <= t < a.len()
            && a[t].0 == a[t - 1].0 {
            1int
        } else {
            0int
        }),
    decreases a.len() - t,
{
    if t == a.len() {
        lemma_prefix_eq(a);
    } else {
        lemma_tail_width(a, t + 1);
    }
}

/// The constraint list a line encodes to is realizable within that line:
/// its runs plus their mandatory separators fit, with one cell to spare
/// when the line starts with background.
pub proof fn lemma_rle_min_width(s: Seq<usize>)
    ensures
        min_width(rle(s)) <= s.len(),
        s.len() > 0 && s[0] == 0 ==> min_width(rle(s)) <= s.len() - 1,
    decreases s.len(),
{
    if s.len() > 0 {
        let st = s.drop_first();
        let rest = rle(st);
        lemma_rle_min_width(st);
        let c = s[0];
        let r = rle(s);
        if c == 0 {
        } else if s.len() > 1 && s[1] == c {
            lemma_rle_head(st);
            assert(r =~= seq![(c as int, rest[0].1 + 1)] + rest.drop_first());
            assert(r.drop_first() =~= rest.drop_first());
            assert(rest =~= seq![rest[0]] + rest.drop_first());
            assert(rle_total(r) == rest[0].1 + 1 + rle_total(rest.drop_first()));
            assert(rle_total(rest) == rest[0].1 + rle_total(rest.drop_first()));
            if rest.len() > 1 {
                assert(r[0].0 == rest[0].0 && r[1] == rest[1]);
            }
            assert(seps(r) == seps(rest));
        } else {
            assert(r =~= seq![(c as int, 1 as int)] + rest);
            assert(r.drop_first() =~= rest);
            assert(rle_total(r) == 1 + rle_total(rest));
            if st.len() == 0 {
                assert(min_width(r) == 1);
            } else if st[0] == 0 {
                // the extra separator, if any, is paid for by the gap cell
                assert(seps(r) <= 1 + seps(rest));
                assert(min_width(rest) <= st.len() - 1);
            } else {
                lemma_rle_head(st);
                assert(r.len() > 1 ==> r[1] == rest[0]);
                assert(r.len() > 1 ==> r[1].0 == st[0] as int && st[0] != c);
                assert(seps(r) == seps(rest));
            }
        }
    }
}

/// Every run length in an encoding is at least one, and the lengths sum to
/// at most the length of the line.
pub proof fn lemma_rle_bounds(s: Seq<usize>)
    ensures
        rle_total(rle(s)) <= s.len(),
        forall|i: int| 0 <= i < rle(s).len() ==> (#[trigger] rle(s)[i]).1 >= 1,
        forall|i: int| 0 <= i < rle(s).len() ==> (#[trigger] rle(s)[i]).0 != 0,
    decreases s.len(),
{
    if s.len() > 0 {
        let rest = rle(s.drop_first());
        lemma_rle_bounds(s.drop_first());
        let c = s[0];
        if c == 0 {
        } else if s.len() > 1 && s[1] == c {
            lemma_rle_head(s.drop_first());
            let r = rle(s);
            assert(r =~= seq![(c as int, rest[0].1 + 1)] + rest.drop_first());
            assert(rest =~= seq![rest[0]] + rest.drop_first());
            assert(rle_total(rest) == rest[0].1 + rle_total(rest.drop_first()));
            assert(r.drop_first() =~= rest.drop_first());
            assert(rle_total(r) == rest[0].1 + 1 + rle_total(rest.drop_first()));
            assert(forall|i: int|
                0 <= i < r.len() ==> (#[trigger] r[i]).1 >= 1 && r[i].0 != 0) by {
                assert(forall|i: int| 1 <= i < r.len() ==> r[i] == rest[i]);
            }
        } else {
            let r = rle(s);
            assert(r =~= seq![(c as int, 1 as int)] + rest);
            assert(r.drop_first() =~= rest);
            assert(rle_total(r) == 1 + rle_total(rest));
            assert(forall|i: int| 1 <= i < r.len() ==> r[i] == rest[i - 1]);
        }
    }
}

} // verus!
