//! The slidable-position scan: which single-cell swaps shift one end of a
//! run into an adjacent background cell without changing the row's
//! constraint list.
//!
//! A slidable pair is always one background cell next to one end of a run
//! together with the cell at the run's opposite end; swapping the two
//! shifts the run one cell toward the background. A slide is suppressed
//! when it would bring the run next to an earlier or later run of the same
//! color, which would merge them and change the constraints.

use crate::definitions::{NonogramPuzzle, NonogramSolution};
use crate::rle::{lemma_rle_slide, rle, run_of};
use crate::rng::{choose_pair, rand_ratio};
use rand::rngs::StdRng;
use vstd::prelude::*;

verus! {

/// The color of the nearest colored cell strictly before index `i`, or
/// `None` when everything before `i` is background.
pub open spec fn last_color_before(s: Seq<usize>, i: int) -> Option<usize>
    decreases i,
{
    if i <= 0 || i > s.len() {
        None
    } else if s[i - 1] != 0 {
        Some(s[i - 1])
    } else {
        last_color_before(s, i - 1)
    }
}

/// The last index of the maximal run of equal cells that starts at `st`.
pub open spec fn run_end(s: Seq<usize>, st: int) -> int
    decreases s.len() - st,
{
    if st < 0 || st >= s.len() {
        st
    } else if st + 1 < s.len() && s[st + 1] == s[st] {
        run_end(s, st + 1)
    } else {
        st
    }
}

/// The maximal run starting at `st` stays within the row, is uniform, and
/// ends where the color changes.
pub proof fn lemma_run_end(s: Seq<usize>, st: int)
    requires
        0 <= st < s.len(),
    ensures
        st <= run_end(s, st) < s.len(),
        forall|m: int| st <= m <= run_end(s, st) ==> s[m] == s[st],
        run_end(s, st) + 1 < s.len() ==> s[run_end(s, st) + 1] != s[st],
    decreases s.len() - st,
{
    if st + 1 < s.len() && s[st + 1] == s[st] {
        lemma_run_end(s, st + 1);
    }
}

/// A uniform stretch that the next cell (or the row's edge) closes is the
/// maximal run: `run_end` lands exactly on its last cell.
pub proof fn lemma_run_end_is(s: Seq<usize>, st: int, m: int)
    requires
        0 <= st <= m < s.len(),
        forall|k: int| st <= k <= m ==> s[k] == s[st],
        m + 1 == s.len() || s[m + 1] != s[st],
    ensures
        run_end(s, st) == m,
    decreases m - st,
{
    if st < m {
        lemma_run_end_is(s, st + 1, m);
    }
}

/// The run starting at `st` may slide one cell to the left: a background
/// cell sits just before it, and the nearest colored cell before that is
/// not of the run's color (the slide would merge the two runs).
pub open spec fn left_slidable(s: Seq<usize>, st: int) -> bool {
    &&& st >= 1
    &&& s[st - 1] == 0
    &&& last_color_before(s, st) != Some(s[st])
}

/// The run `[st, t]` may slide one cell to the right: a background cell
/// sits just after it, and the cell past that background cell, if any, is
/// not of the run's color.
pub open spec fn right_slidable(s: Seq<usize>, st: int, t: int) -> bool {
    &&& t + 1 < s.len()
    &&& s[t + 1] == 0
    &&& (t + 2 >= s.len() || s[t + 2] != s[st])
}

/// The slidable pairs one maximal run `[st, run_end(s, st)]` contributes:
/// first its left slide, then its right slide, each only when nothing
/// would merge.
pub open spec fn run_pairs(s: Seq<usize>, st: int) -> Seq<(usize, usize)> {
    let t = run_end(s, st);
    (if left_slidable(s, st) {
        seq![((st - 1) as usize, t as usize)]
    } else {
        Seq::empty()
    }) + (if right_slidable(s, st, t) {
        seq![(st as usize, (t + 1) as usize)]
    } else {
        Seq::empty()
    })
}

/// All slidable pairs contributed by runs that start at or after index
/// `i`, in left-to-right run order.
pub open spec fn slidables_from(s: Seq<usize>, i: int) -> Seq<(usize, usize)>
    decreases s.len() - i,
    via slidables_from_decreases
{
    if i < 0 || i >= s.len() {
        Seq::empty()
    } else if s[i] == 0 {
        slidables_from(s, i + 1)
    } else {
        run_pairs(s, i) + slidables_from(s, run_end(s, i) + 1)
    }
}

#[via_fn]
proof fn slidables_from_decreases(s: Seq<usize>, i: int) {
    if 0 <= i < s.len() && s[i] != 0 {
        lemma_run_end(s, i);
    }
}

/// Every slidable pair of a row: the pairs of its maximal colored runs,
/// left to right, the left slide of a run before its right slide.
pub open spec fn slidables_spec(s: Seq<usize>) -> Seq<(usize, usize)> {
    slidables_from(s, 0)
}

/// The row after swapping the cells at `a` and `b`.
pub open spec fn swap_cells(s: Seq<usize>, a: int, b: int) -> Seq<usize> {
    s.update(a, s[b]).update(b, s[a])
}

/// What the scan's state means while the current cell closes a gap: the
/// pairs of every fully processed run have been emitted, and the last
/// closed run's color is remembered for merge suppression.
pub open spec fn gap_state_ok(
    s: Seq<usize>,
    i: int,
    prev_seg: Option<usize>,
    out: Seq<(usize, usize)>,
) -> bool {
    &&& prev_seg == last_color_before(s, i)
    &&& slidables_spec(s) == out + slidables_from(s, i)
}

/// What the scan's state means while a run is open: the run began at
/// `st`, a pending background marker stands exactly when the run can
/// slide left, and the pairs of every earlier run have been emitted.
pub open spec fn run_state_ok(
    s: Seq<usize>,
    st: int,
    i: int,
    bg_end: Option<usize>,
    out: Seq<(usize, usize)>,
) -> bool {
    &&& 0 <= st <= i - 1
    &&& forall|m: int| st <= m < i ==> (#[trigger] s[m]) == s[i - 1]
    &&& (st == 0 || s[st - 1] != s[st])
    &&& bg_end == (if left_slidable(s, st) {
        Some((st - 1) as usize)
    } else {
        None::<usize>
    })
    &&& slidables_spec(s) == out + run_pairs(s, st) + slidables_from(s, run_end(s, st) + 1)
}

/// A pair a mutation may apply: two in-range cells whose swap leaves the
/// row's constraint list unchanged.
pub open spec fn pair_safe(s: Seq<usize>, p: (usize, usize)) -> bool {
    &&& (p.0 as int) < (p.1 as int) < s.len()
    &&& rle(swap_cells(s, p.0 as int, p.1 as int)) == rle(s)
}

/// Both pairs a single maximal run contributes are safe: each swap slides
/// the run one cell into the adjacent background without merging it into
/// a neighboring run, so the encoding is unchanged.
#[verifier::rlimit(50)]
proof fn lemma_run_pairs_safe(s: Seq<usize>, i: int, idx: int)
    requires
        s.len() <= usize::MAX,
        0 <= i < s.len(),
        s[i] != 0,
        i == 0 || s[i - 1] != s[i],
        0 <= idx < run_pairs(s, i).len(),
    ensures
        pair_safe(s, run_pairs(s, i)[idx]),
{
    let t = run_end(s, i);
    lemma_run_end(s, i);
    let c = s[i];
    let k = t - i + 1;
    let run = run_of(c, k);
    let nl: int = if left_slidable(s, i) {
        1
    } else {
        0
    };
    if idx < nl {
        // the left slide: the gap cell at i - 1 and the run's last cell
        let u = s.take(i - 1);
        let w = s.skip(t + 1);
        if i >= 2 {
            if s[i - 2] != 0 {
                assert(last_color_before(s, i) == last_color_before(s, i - 1));
                assert(last_color_before(s, i - 1) == Some(s[i - 2]));
                assert(s[i - 2] != c);
            }
        }
        assert(u.len() == 0 || u.last() != c);
        assert(w.len() == 0 || w.first() != c);
        assert(s =~= u + seq![0usize] + run + w);
        assert(swap_cells(s, i - 1, t) =~= u + run + seq![0usize] + w);
        assert(u + seq![0usize] + run + w =~= u + seq![0usize] + run_of(c, k) + w);
        lemma_rle_slide(u, c, k, w);
        assert(run_pairs(s, i)[idx] == (((i - 1) as usize, t as usize)));
    } else {
        // the right slide: the run's first cell and the gap cell at t + 1
        assert(right_slidable(s, i, t));
        let u = s.take(i);
        let w = s.skip(t + 2);
        assert(u.len() == 0 || u.last() != c);
        assert(w.len() == 0 || w.first() != c);
        assert(s =~= u + run + seq![0usize] + w);
        assert(swap_cells(s, i, t + 1) =~= u + seq![0usize] + run + w);
        lemma_rle_slide(u, c, k, w);
        assert(run_pairs(s, i)[idx] == ((i as usize, (t + 1) as usize)));
    }
}

/// Every pair contributed by runs at or after `i` is safe, provided `i`
/// does not cut a run in two.
proof fn lemma_slidables_from_safe(s: Seq<usize>, i: int)
    requires
        s.len() <= usize::MAX,
        0 <= i,
        i == 0 || i >= s.len() || s[i] == 0 || s[i - 1] != s[i],
    ensures
        forall|idx: int|
            0 <= idx < slidables_from(s, i).len() ==> pair_safe(
                s,
                #[trigger] slidables_from(s, i)[idx],
            ),
    decreases s.len() - i,
{
    if i >= s.len() {
        assert(slidables_from(s, i) =~= Seq::<(usize, usize)>::empty());
    } else if s[i] == 0 {
        lemma_slidables_from_safe(s, i + 1);
        assert forall|idx: int| 0 <= idx < slidables_from(s, i).len() implies pair_safe(
            s,
            #[trigger] slidables_from(s, i)[idx],
        ) by {
            assert(slidables_from(s, i)[idx] == slidables_from(s, i + 1)[idx]);
        }
    } else {
        let t = run_end(s, i);
        lemma_run_end(s, i);
        lemma_slidables_from_safe(s, t + 1);
        let np = run_pairs(s, i).len() as int;
        assert forall|idx: int| 0 <= idx < slidables_from(s, i).len() implies pair_safe(
            s,
            #[trigger] slidables_from(s, i)[idx],
        ) by {
            if idx < np {
                lemma_run_pairs_safe(s, i, idx);
                assert(slidables_from(s, i)[idx] == run_pairs(s, i)[idx]);
            } else {
                assert(slidables_from(s, i)[idx] == slidables_from(s, t + 1)[idx - np]);
            }
        }
    }
}

/// Every pair the scan emits is safe: swapping its two cells leaves the
/// row's run-length encoding unchanged.
pub proof fn lemma_slidables_safe(s: Seq<usize>)
    requires
        s.len() <= usize::MAX,
    ensures
        forall|idx: int|
            0 <= idx < slidables_spec(s).len() ==> pair_safe(
                s,
                #[trigger] slidables_spec(s)[idx],
            ),
{
    lemma_slidables_from_safe(s, 0);
}

impl NonogramPuzzle {
    /// All slidable pairs of one row, by a single left-to-right scan that
    /// tracks the previous cell's color, the last closed run's color, and
    /// a pending background-run end marker. Exactly `slidables_spec`.
    pub fn get_slidables(row_segment_colors: &Vec<usize>) -> (r: Vec<(usize, usize)>)
        ensures
            r@ == slidables_spec(row_segment_colors@),
    {
        let ghost s = row_segment_colors@;
        let mut slidable_segments: Vec<(usize, usize)> = Vec::new();
        let n = row_segment_colors.len();
        if n == 0 {
            return slidable_segments;
        }
        let mut previous_block_color: usize = row_segment_colors[0];
        let mut previous_segment_color: Option<usize> = None;
        let mut background_end: Option<usize> = None;
        let mut segment_start: Option<usize> = if previous_block_color != 0 {
            Some(0)
        } else {
            None
        };
        proof {
            if s[0] == 0 {
                assert(last_color_before(s, 0) == None::<usize>);
                assert(last_color_before(s, 1) == None::<usize>);
                assert(slidables_from(s, 1) == slidables_from(s, 0));
                assert(slidables_spec(s) =~= Seq::<(usize, usize)>::empty() + slidables_from(s, 1));
            } else {
                assert(slidables_from(s, 0) == run_pairs(s, 0) + slidables_from(
                    s,
                    run_end(s, 0) + 1,
                ));
                assert(slidables_spec(s) =~= Seq::<(usize, usize)>::empty() + run_pairs(s, 0)
                    + slidables_from(s, run_end(s, 0) + 1));
                assert(!left_slidable(s, 0));
            }
        }
        let mut i: usize = 1;
        while i < n
            invariant
                n == s.len(),
                s == row_segment_colors@,
                1 <= i <= n,
                previous_block_color == s[i - 1],
                s[i - 1] != 0 ==> (segment_start matches Some(st) && run_state_ok(
                    s,
                    st as int,
                    i as int,
                    background_end,
                    slidable_segments@,
                )),
                s[i - 1] == 0 ==> segment_start is None && background_end is None && gap_state_ok(
                    s,
                    i as int,
                    previous_segment_color,
                    slidable_segments@,
                ),
            decreases n - i,
        {
            let current_block_color = row_segment_colors[i];
            if previous_block_color == 0 && current_block_color != 0 {
                // a gap closes and a run starts; remember the gap's end
                // unless sliding left would merge equal-colored runs
                background_end = Some(i - 1);
                segment_start = Some(i);
                if let Some(previous_color) = previous_segment_color {
                    if previous_color == current_block_color {
                        background_end = None;
                    }
                }
                proof {
                    assert(slidables_from(s, i as int) == run_pairs(s, i as int) + slidables_from(
                        s,
                        run_end(s, i as int) + 1,
                    ));
                    assert(slidable_segments@ + (run_pairs(s, i as int) + slidables_from(
                        s,
                        run_end(s, i as int) + 1,
                    )) =~= slidable_segments@ + run_pairs(s, i as int) + slidables_from(
                        s,
                        run_end(s, i as int) + 1,
                    ));
                    assert(left_slidable(s, i as int) <==> last_color_before(s, i as int) != Some(
                        s[i as int],
                    ));
                }
            } else if previous_block_color != 0 && current_block_color == 0 {
                // the run closes on a background cell: emit its left
                // slide if pending, and its right slide unless the cell
                // past the gap continues the run's color
                let ghost st = segment_start.unwrap() as int;
                proof {
                    lemma_run_end_is(s, st, i - 1);
                }
                previous_segment_color = Some(previous_block_color);
                let ghost out_before = slidable_segments@;
                if let Some(end) = background_end {
                    slidable_segments.push((end, i - 1));
                    background_end = None;
                }
                let right_ok = if i + 1 >= n {
                    true
                } else {
                    row_segment_colors[i + 1] != previous_block_color
                };
                if right_ok {
                    slidable_segments.push((segment_start.unwrap(), i));
                }
                segment_start = None;
                proof {
                    assert(right_ok == right_slidable(s, st, i - 1));
                    assert(slidable_segments@ =~= out_before + run_pairs(s, st));
                    assert(slidables_from(s, i as int) == slidables_from(s, i + 1));
                    assert(slidables_spec(s) =~= slidable_segments@ + slidables_from(s, i + 1));
                    assert(last_color_before(s, i + 1) == Some(s[i - 1]));
                }
            } else if previous_block_color != current_block_color {
                // two runs of different colors touch: the left one closes
                // with no gap, so only its pending left slide is emitted
                let ghost st = segment_start.unwrap() as int;
                proof {
                    lemma_run_end_is(s, st, i - 1);
                    assert(!right_slidable(s, st, i - 1));
                }
                let ghost out_before = slidable_segments@;
                if let Some(end) = background_end {
                    slidable_segments.push((end, i - 1));
                    background_end = None;
                }
                segment_start = Some(i);
                proof {
                    assert(slidable_segments@ =~= out_before + run_pairs(s, st));
                    assert(slidables_from(s, i as int) == run_pairs(s, i as int) + slidables_from(
                        s,
                        run_end(s, i as int) + 1,
                    ));
                    assert(!left_slidable(s, i as int));
                    assert(slidables_spec(s) =~= slidable_segments@ + run_pairs(s, i as int)
                        + slidables_from(s, run_end(s, i as int) + 1));
                }
            } else {
                // the same color continues, colored or background
                proof {
                    if previous_block_color == 0 {
                        assert(slidables_from(s, i as int) == slidables_from(s, i + 1));
                        assert(last_color_before(s, i + 1) == last_color_before(s, i as int));
                    }
                }
            }
            previous_block_color = current_block_color;
            i += 1;
        }
        // a run that reaches the row's end can still slide left
        if let Some(end) = background_end {
            let ghost st = segment_start.unwrap() as int;
            proof {
                lemma_run_end_is(s, st, n - 1);
                assert(!right_slidable(s, st, n - 1));
            }
            let ghost out_before = slidable_segments@;
            slidable_segments.push((end, n - 1));
            proof {
                assert(slidables_from(s, run_end(s, st) + 1) =~= Seq::<(usize, usize)>::empty());
                assert(slidable_segments@ =~= out_before + run_pairs(s, st));
                assert(slidable_segments@ =~= slidables_spec(s));
            }
        } else {
            proof {
                if s[n - 1] != 0 {
                    let st = segment_start.unwrap() as int;
                    lemma_run_end_is(s, st, n - 1);
                    assert(!right_slidable(s, st, n - 1));
                    assert(run_pairs(s, st) =~= Seq::<(usize, usize)>::empty());
                    assert(slidables_from(s, run_end(s, st) + 1) =~= Seq::<
                        (usize, usize),
                    >::empty());
                    assert(slidable_segments@ =~= slidables_spec(s));
                } else {
                    assert(slidables_from(s, n as int) =~= Seq::<(usize, usize)>::empty());
                    assert(slidable_segments@ =~= slidables_spec(s));
                }
            }
        }
        slidable_segments
    }

    /// Segment-slide mutation: per row, `slide_tries` independent trials;
    /// each trial, with probability `mutation_probability` (in
    /// thousandths), picks one slidable pair uniformly, if any, and swaps
    /// its two cells. Whatever the generator yields, every row keeps its
    /// length and its constraint list, so row validity is preserved.
    pub fn chromosome_mutation(
        &self,
        candidate: &mut NonogramSolution,
        mutation_probability: u32,
        slide_tries: usize,
        rng: &mut StdRng,
    )
        requires
            mutation_probability <= 1000,
        ensures
            final(candidate).grid().len() == old(candidate).grid().len(),
            forall|i: int|
                0 <= i < final(candidate).grid().len()
                    ==> (#[trigger] final(candidate).grid()[i]).len()
                    == old(candidate).grid()[i].len(),
            forall|i: int|
                0 <= i < final(candidate).grid().len()
                    ==> rle(#[trigger] final(candidate).grid()[i])
                    == rle(old(candidate).grid()[i]),
            old(candidate).row_valid(*self) ==> final(candidate).row_valid(*self),
    {
        let rows_n = candidate.solution_grid.len();
        let mut r: usize = 0;
        while r < rows_n
            invariant
                mutation_probability <= 1000,
                rows_n == candidate.grid().len(),
                candidate.grid().len() == old(candidate).grid().len(),
                0 <= r <= rows_n,
                forall|i: int|
                    0 <= i < rows_n ==> (#[trigger] candidate.grid()[i]).len() == old(
                        candidate,
                    ).grid()[i].len(),
                forall|i: int|
                    0 <= i < rows_n ==> rle(#[trigger] candidate.grid()[i]) == rle(
                        old(candidate).grid()[i],
                    ),
            decreases rows_n - r,
        {
            let mut trial: usize = 0;
            while trial < slide_tries
                invariant
                    mutation_probability <= 1000,
                    rows_n == candidate.grid().len(),
                    candidate.grid().len() == old(candidate).grid().len(),
                    0 <= r < rows_n,
                    0 <= trial <= slide_tries,
                    forall|i: int|
                        0 <= i < rows_n ==> (#[trigger] candidate.grid()[i]).len() == old(
                            candidate,
                        ).grid()[i].len(),
                    forall|i: int|
                        0 <= i < rows_n ==> rle(#[trigger] candidate.grid()[i]) == rle(
                            old(candidate).grid()[i],
                        ),
                decreases slide_tries - trial,
            {
                if rand_ratio(rng, mutation_probability, 1000) {
                    let row_len = candidate.solution_grid[r].len();
                    let slidable_segments = Self::get_slidables(&candidate.solution_grid[r]);
                    if let Some((a, b)) = choose_pair(rng, &slidable_segments) {
                        let ghost row_before = candidate.grid()[r as int];
                        let ghost grid_before = candidate.grid();
                        proof {
                            assert(row_before.len() == row_len);
                            lemma_slidables_safe(row_before);
                            assert(pair_safe(row_before, (a, b)));
                        }
                        let va = candidate.solution_grid[r][a];
                        let vb = candidate.solution_grid[r][b];
                        candidate.solution_grid[r][a] = vb;
                        candidate.solution_grid[r][b] = va;
                        proof {
                            assert(candidate.grid()[r as int] =~= swap_cells(
                                row_before,
                                a as int,
                                b as int,
                            ));
                            assert(candidate.grid() =~= grid_before.update(
                                r as int,
                                candidate.grid()[r as int],
                            ));
                            assert(rle(candidate.grid()[r as int]) == rle(row_before));
                        }
                    }
                }
                trial += 1;
            }
            r += 1;
        }
        proof {
            if old(candidate).row_valid(*self) {
                assert forall|i: int| 0 <= i < self.rows implies (#[trigger] candidate.grid()[
                    i]).len() == self.cols && rle(candidate.grid()[i]) == self.row_list(i) by {
                    assert(old(candidate).grid()[i].len() == self.cols);
                    assert(rle(old(candidate).grid()[i]) == self.row_list(i));
                }
            }
        }
    }
}

} // verus!
