//! The evolutionary search loop: population setup, tournament selection,
//! elitist replacement, per-generation telemetry, and a parameter sweep.

use crate::definitions::{col_seq, NonogramPuzzle, NonogramSolution};
use crate::genetic::{lemma_score_bound, lemma_score_grid, lemma_score_zero_iff, score_spec};
use crate::rle::rle;
use crate::rng::{rand_ratio, rng_from_seed, sample_indices};
use rand::rngs::StdRng;
use vstd::prelude::*;

verus! {

/// Every population entry pairs a row-valid candidate with its exact
/// score under the puzzle.
pub open spec fn pop_ok(p: NonogramPuzzle, pop: Seq<(NonogramSolution, usize)>) -> bool {
    forall|i: int|
        0 <= i < pop.len() ==> (#[trigger] pop[i]).0.row_valid(p) && pop[i].1 == score_spec(
            p,
            pop[i].0,
        )
}

/// The population is sorted ascending by score: the best candidate first.
pub open spec fn sorted_by_score(pop: Seq<(NonogramSolution, usize)>) -> bool {
    forall|i: int, j: int|
        0 <= i <= j < pop.len() ==> (#[trigger] pop[i]).1 <= (#[trigger] pop[j]).1
}

/// A row-valid candidate has the well-formed rectangular shape the scorer
/// asks for.
proof fn lemma_row_valid_shape(p: NonogramPuzzle, s: NonogramSolution)
    requires
        p.wf(),
        s.row_valid(p),
    ensures
        s.wf(),
        s.grid().len() == p.rows,
        s.grid()[0].len() == p.cols,
{
    assert(s.grid()[0].len() == p.cols);
}

/// Sorts a population ascending by score, by insertion into an already
/// sorted prefix; the entries themselves are exactly preserved.
fn sort_population(pop: Vec<(NonogramSolution, usize)>) -> (r: Vec<(NonogramSolution, usize)>)
    ensures
        r@.len() == pop@.len(),
        sorted_by_score(r@),
        r@.to_multiset() == pop@.to_multiset(),
{
    broadcast use vstd::seq_lib::group_to_multiset_ensures;

    let ghost orig = pop@;
    let mut input = pop;
    let mut out: Vec<(NonogramSolution, usize)> = Vec::new();
    while input.len() > 0
        invariant
            sorted_by_score(out@),
            out@.to_multiset().add(input@.to_multiset()) == orig.to_multiset(),
            out@.len() + input@.len() == orig.len(),
        decreases input@.len(),
    {
        broadcast use vstd::seq_lib::group_to_multiset_ensures;

        let ghost in_before = input@;
        let x = input.pop().unwrap();
        proof {
            assert(in_before =~= input@.push(x));
            assert(in_before.to_multiset() =~= input@.to_multiset().insert(x));
        }
        let mut pos: usize = 0;
        while pos < out.len() && out[pos].1 <= x.1
            invariant
                0 <= pos <= out@.len(),
                forall|k: int| 0 <= k < pos ==> (#[trigger] out@[k]).1 <= x.1,
                sorted_by_score(out@),
            decreases out@.len() - pos,
        {
            pos += 1;
        }
        let ghost out_before = out@;
        out.insert(pos, x);
        proof {
            vstd::seq_lib::to_multiset_insert(out_before, pos as int, x);
            assert(out@.to_multiset().add(input@.to_multiset()) =~= orig.to_multiset());
            assert forall|i: int, j: int| 0 <= i <= j < out@.len() implies (#[trigger] out@[i]).1
                <= (#[trigger] out@[j]).1 by {
                assert(out@ == out_before.insert(pos as int, x));
                if i < pos {
                    assert(out@[i] == out_before[i]);
                } else if i == pos {
                    assert(out@[i] == x);
                } else {
                    assert(out@[i] == out_before[i - 1]);
                }
                if j < pos {
                    assert(out@[j] == out_before[j]);
                } else if j == pos {
                    assert(out@[j] == x);
                } else {
                    assert(out@[j] == out_before[j - 1]);
                }
                if pos < out_before.len() {
                    assert(out_before[pos as int].1 > x.1);
                }
            }
        }
    }
    proof {
        broadcast use vstd::seq_lib::group_to_multiset_ensures;

        assert forall|e: (NonogramSolution, usize)| true implies input@.to_multiset().count(e)
            == 0 by {
            assert(!input@.contains(e));
        }
        assert(out@.to_multiset() =~= orig.to_multiset());
    }
    out
}

/// The doubled median score of a sorted population: the sum of the two
/// central scores for an even size, twice the central score otherwise.
/// Doubling keeps the possibly-fractional median in integers.
pub open spec fn median_twice_of(pop: Seq<(NonogramSolution, usize)>) -> int {
    let n = pop.len() as int;
    if n % 2 == 0 {
        pop[n / 2 - 1].1 + pop[n / 2].1
    } else {
        2 * pop[n / 2].1
    }
}

/// The record of one evolutionary search: how many generations ran, the
/// best, doubled-median and worst score of each, and the winning solution
/// if a zero score was reached, else the best solution of the final
/// generation.
#[derive(Debug)]
pub struct History {
    /// Number of completed generations.
    pub iterations: usize,
    /// The best (lowest) score of each generation.
    pub best: Vec<usize>,
    /// Twice the median score of each generation.
    pub median_twice: Vec<usize>,
    /// The worst (highest) score of each generation.
    pub worst: Vec<usize>,
    /// `Ok` with an exact solution, or `Err` with the best attempt.
    pub winner: Result<NonogramSolution, NonogramSolution>,
}

impl History {
    /// An empty record, with a freshly sampled row-valid placeholder as
    /// the provisional best attempt.
    pub fn new(puzzle: &NonogramPuzzle, rng: &mut StdRng) -> (h: History)
        requires
            puzzle.wf(),
        ensures
            h.iterations == 0,
            h.best@.len() == 0,
            h.median_twice@.len() == 0,
            h.worst@.len() == 0,
            h.winner matches Err(s) && s.row_valid(*puzzle),
    {
        History {
            iterations: 0,
            best: Vec::new(),
            median_twice: Vec::new(),
            worst: Vec::new(),
            winner: Err(puzzle.new_chromosome_solution(rng)),
        }
    }

    /// Twice the median score of a sorted population.
    pub fn get_median_twice(
        population: &Vec<(NonogramSolution, usize)>,
        population_size: usize,
    ) -> (r: usize)
        requires
            population_size == population@.len(),
            population_size >= 1,
            forall|i: int|
                0 <= i < population@.len() ==> (#[trigger] population@[i]).1 <= usize::MAX / 2,
        ensures
            r == median_twice_of(population@),
    {
        if population_size % 2 == 0 {
            let mid1 = population_size / 2 - 1;
            let mid2 = population_size / 2;
            population[mid1].1 + population[mid2].1
        } else {
            let mid = population_size / 2;
            2 * population[mid].1
        }
    }

    /// Appends one generation's best, doubled median and worst score.
    pub fn push(&mut self, population: &Vec<(NonogramSolution, usize)>)
        requires
            population@.len() >= 1,
            old(self).iterations < usize::MAX,
            forall|i: int|
                0 <= i < population@.len() ==> (#[trigger] population@[i]).1 <= usize::MAX / 2,
        ensures
            final(self).iterations == old(self).iterations + 1,
            final(self).best@ == old(self).best@.push(population@[0].1),
            final(self).median_twice@ == old(self).median_twice@.push(
                median_twice_of(population@) as usize,
            ),
            final(self).worst@ == old(self).worst@.push(
                population@[population@.len() - 1].1,
            ),
            final(self).winner == old(self).winner,
    {
        let population_size = population.len();
        self.iterations += 1;
        self.best.push(population[0].1);
        self.median_twice.push(Self::get_median_twice(population, population_size));
        self.worst.push(population[population_size - 1].1);
    }

    /// Declares the first candidate the winner when its score is zero.
    /// Returns whether it did.
    pub fn winner(&mut self, population: &Vec<(NonogramSolution, usize)>) -> (r: bool)
        requires
            population@.len() >= 1,
        ensures
            r == (population@[0].1 == 0),
            r ==> (final(self).winner matches Ok(s) && s.grid() == population@[0].0.grid()),
            !r ==> *final(self) == *old(self),
            final(self).iterations == old(self).iterations,
            final(self).best@ == old(self).best@,
            final(self).median_twice@ == old(self).median_twice@,
            final(self).worst@ == old(self).worst@,
    {
        if population[0].1 == 0 {
            self.winner = Ok(population[0].0.duplicate());
            return true;
        }
        false
    }

    /// Records the best attempt of the final generation, unless a winner
    /// already stands.
    pub fn loser(&mut self, population: &Vec<(NonogramSolution, usize)>)
        requires
            population@.len() >= 1,
        ensures
            old(self).winner is Ok ==> *final(self) == *old(self),
            old(self).winner is Err ==> (final(self).winner matches Err(s) && s.grid()
                == population@[0].0.grid()),
            final(self).iterations == old(self).iterations,
            final(self).best@ == old(self).best@,
            final(self).median_twice@ == old(self).median_twice@,
            final(self).worst@ == old(self).worst@,
    {
        if self.winner.is_err() {
            self.winner = Err(population[0].0.duplicate());
        }
    }
}

/// Picks one parent: samples `tournament_size` distinct entries (capped
/// at the population size) uniformly without replacement, and returns the
/// lowest-scoring of them, the first encountered on a tie.
fn tournament_selection<'a>(
    population: &'a Vec<(NonogramSolution, usize)>,
    tournament_size: usize,
    rng: &mut StdRng,
) -> (r: &'a NonogramSolution)
    requires
        population@.len() >= 1,
        tournament_size >= 1,
    ensures
        exists|i: int| 0 <= i < population@.len() && population@[i].0 == *r,
{
    let amount = if tournament_size <= population.len() {
        tournament_size
    } else {
        population.len()
    };
    let picks = sample_indices(rng, population.len(), amount);
    let mut best = picks[0];
    let mut k: usize = 1;
    while k < picks.len()
        invariant
            1 <= k <= picks@.len(),
            picks@.len() >= 1,
            forall|i: int| 0 <= i < picks@.len() ==> #[trigger] picks@[i] < population@.len(),
            best < population@.len(),
            exists|i: int| 0 <= i < picks@.len() && picks@[i] == best,
        decreases picks@.len() - k,
    {
        if population[picks[k]].1 < population[best].1 {
            best = picks[k];
        }
        k += 1;
    }
    &population[best].0
}

/// A fresh population: `population_size` row-valid random candidates,
/// each paired with its exact score, sorted ascending by score.
fn initial_population(
    puzzle: &NonogramPuzzle,
    population_size: usize,
    rng: &mut StdRng,
) -> (r: Vec<(NonogramSolution, usize)>)
    requires
        puzzle.wf(),
    ensures
        r@.len() == population_size,
        pop_ok(*puzzle, r@),
        sorted_by_score(r@),
{
    broadcast use vstd::seq_lib::group_to_multiset_ensures;

    let mut population: Vec<(NonogramSolution, usize)> = Vec::new();
    let mut k: usize = 0;
    while k < population_size
        invariant
            puzzle.wf(),
            0 <= k <= population_size,
            population@.len() == k,
            pop_ok(*puzzle, population@),
        decreases population_size - k,
    {
        let solution = puzzle.new_chromosome_solution(rng);
        proof {
            lemma_row_valid_shape(*puzzle, solution);
        }
        let score = puzzle.score(&solution);
        population.push((solution, score));
        k += 1;
    }
    let sorted = sort_population(population);
    proof {
        assert forall|i: int| 0 <= i < sorted@.len() implies (#[trigger] sorted@[i]).0.row_valid(
            *puzzle,
        ) && sorted@[i].1 == score_spec(*puzzle, sorted@[i].0) by {
            assert(sorted@.contains(sorted@[i]));
            assert(sorted@.to_multiset().count(sorted@[i]) > 0);
            let w = choose|w: int| 0 <= w < population@.len() && population@[w] == sorted@[i];
            assert(population@[w].0.row_valid(*puzzle));
        }
    }
    sorted
}

/// Breeds the next generation: repeatedly selects two parents by
/// tournament and crosses them, half the time uniformly and half the time
/// by two points. Children come in pairs, so the brood is exactly the
/// population size, plus one when that size is odd. Every child of this
/// row-valid population is row-valid.
fn recombinate_population(
    puzzle: &NonogramPuzzle,
    population: &Vec<(NonogramSolution, usize)>,
    cross_probability: u32,
    tournament_size: usize,
    rng: &mut StdRng,
) -> (r: Vec<NonogramSolution>)
    requires
        puzzle.wf(),
        puzzle.cols >= 3,
        cross_probability <= 1000,
        tournament_size >= 1,
        population@.len() >= 1,
        pop_ok(*puzzle, population@),
    ensures
        r@.len() == population@.len() + (population@.len() % 2),
        forall|i: int| 0 <= i < r@.len() ==> (#[trigger] r@[i]).row_valid(*puzzle),
{
    let mut new_population: Vec<NonogramSolution> = Vec::new();
    while new_population.len() < population.len()
        invariant
            puzzle.wf(),
            puzzle.cols >= 3,
            cross_probability <= 1000,
            tournament_size >= 1,
            population@.len() >= 1,
            pop_ok(*puzzle, population@),
            new_population@.len() % 2 == 0,
            new_population@.len() <= population@.len() + 1,
            forall|i: int|
                0 <= i < new_population@.len() ==> (#[trigger] new_population@[i]).row_valid(
                    *puzzle,
                ),
        decreases vstd::math::max(population@.len() - new_population@.len(), 0),
    {
        let ancestor_1 = tournament_selection(population, tournament_size, rng);
        let ancestor_2 = tournament_selection(population, tournament_size, rng);
        proof {
            assert(ancestor_1.row_valid(*puzzle));
            assert(ancestor_2.row_valid(*puzzle));
        }
        let (descendant_1, descendant_2) = if rand_ratio(rng, 500, 1000) {
            puzzle.uniform_cross(ancestor_1, ancestor_2, cross_probability, rng)
        } else {
            puzzle.two_point_cross(ancestor_1, ancestor_2, cross_probability, rng)
        };
        new_population.push(descendant_1);
        new_population.push(descendant_2);
    }
    new_population
}

/// Applies segment-slide mutation to every child; each stays row-valid.
fn mutate_population(
    puzzle: &NonogramPuzzle,
    offspring: &mut Vec<NonogramSolution>,
    mutation_probability: u32,
    slide_tries: usize,
    rng: &mut StdRng,
)
    requires
        mutation_probability <= 1000,
        forall|i: int|
            0 <= i < old(offspring)@.len() ==> (#[trigger] old(offspring)@[i]).row_valid(*puzzle),
    ensures
        final(offspring)@.len() == old(offspring)@.len(),
        forall|i: int|
            0 <= i < final(offspring)@.len() ==> (#[trigger] final(offspring)@[i]).row_valid(
                *puzzle,
            ),
{
    let n = offspring.len();
    let mut k: usize = 0;
    while k < n
        invariant
            mutation_probability <= 1000,
            0 <= k <= n,
            offspring@.len() == n,
            forall|i: int|
                0 <= i < n ==> (#[trigger] offspring@[i]).row_valid(*puzzle),
        decreases n - k,
    {
        puzzle.chromosome_mutation(&mut offspring[k], mutation_probability, slide_tries, rng);
        k += 1;
    }
}

/// Elitist (mu + lambda) replacement: scores the offspring, pools them
/// with the current population, sorts ascending by score, and keeps the
/// best `population.len()` entries. Every survivor comes from that pool,
/// and the new best score is no worse than any score of the old
/// population or of the offspring, so the best candidate seen is never
/// lost.
fn preserve_elite_population(
    puzzle: &NonogramPuzzle,
    population: Vec<(NonogramSolution, usize)>,
    offspring: Vec<NonogramSolution>,
) -> (r: Vec<(NonogramSolution, usize)>)
    requires
        puzzle.wf(),
        population@.len() >= 1,
        pop_ok(*puzzle, population@),
        forall|i: int| 0 <= i < offspring@.len() ==> (#[trigger] offspring@[i]).row_valid(*puzzle),
    ensures
        r@.len() == population@.len(),
        pop_ok(*puzzle, r@),
        sorted_by_score(r@),
        forall|i: int|
            0 <= i < r@.len() ==> population@.contains(#[trigger] r@[i]) || offspring@.contains(
                r@[i].0,
            ),
        forall|i: int| 0 <= i < population@.len() ==> r@[0].1 <= (#[trigger] population@[i]).1,
        forall|k: int|
            0 <= k < offspring@.len() ==> r@[0].1 <= score_spec(
                *puzzle,
                #[trigger] offspring@[k],
            ),
{
    broadcast use vstd::seq_lib::group_to_multiset_ensures;

    let population_size = population.len();
    let ghost old_population = population@;
    let ghost old_offspring = offspring@;
    let mut combined = population;
    let mut rest = offspring;
    while rest.len() > 0
        invariant
            puzzle.wf(),
            pop_ok(*puzzle, combined@),
            forall|i: int| 0 <= i < rest@.len() ==> (#[trigger] rest@[i]).row_valid(*puzzle),
            combined@.len() >= old_population.len(),
            forall|i: int|
                0 <= i < old_population.len() ==> #[trigger] combined@[i] == old_population[i],
            rest@.len() <= old_offspring.len(),
            rest@ == old_offspring.take(rest@.len() as int),
            forall|i: int|
                old_population.len() <= i < combined@.len() ==> old_offspring.contains(
                    (#[trigger] combined@[i]).0,
                ),
            forall|k: int|
                rest@.len() <= k < old_offspring.len() ==> exists|m: int|
                    0 <= m < combined@.len() && (#[trigger] old_offspring[k]) == combined@[m].0,
        decreases rest@.len(),
    {
        let ghost rest_before = rest@;
        let solution = rest.pop().unwrap();
        proof {
            lemma_row_valid_shape(*puzzle, solution);
            assert(rest_before == old_offspring.take(rest_before.len() as int));
            assert(rest@ == rest_before.subrange(0, rest_before.len() - 1));
            assert forall|i: int| 0 <= i < rest@.len() implies rest@[i] == old_offspring[i] by {
                assert(rest@[i] == rest_before[i]);
                assert(old_offspring.take(rest_before.len() as int)[i] == old_offspring[i]);
            }
            assert(rest@ =~= old_offspring.take(rest@.len() as int));
            assert(solution == rest_before[rest_before.len() - 1]);
            assert(old_offspring.take(rest_before.len() as int)[rest_before.len() - 1]
                == old_offspring[rest_before.len() - 1]);
            assert(solution == old_offspring[rest@.len() as int]);
        }
        let score = puzzle.score(&solution);
        let ghost combined_before = combined@;
        combined.push((solution, score));
        proof {
            assert(combined@[combined_before.len() as int].0 == old_offspring[rest@.len() as int]);
            assert(old_offspring.contains(old_offspring[rest@.len() as int]));
            assert forall|k: int| rest@.len() <= k < old_offspring.len() implies exists|m: int|
                0 <= m < combined@.len() && (#[trigger] old_offspring[k]) == combined@[m].0 by {
                if k > rest@.len() {
                    let m0 = choose|m0: int|
                        0 <= m0 < combined_before.len() && old_offspring[k] == combined_before[
                            m0].0;
                    assert(combined@[m0].0 == old_offspring[k]);
                }
            }
        }
    }
    let sorted = sort_population(combined);
    let ghost combined_view = combined@;
    let mut result = sorted;
    result.truncate(population_size);
    proof {
        assert(result@ =~= sorted@.subrange(0, population_size as int));
        assert forall|i: int| 0 <= i < result@.len() implies (#[trigger] result@[i]).0.row_valid(
            *puzzle,
        ) && result@[i].1 == score_spec(*puzzle, result@[i].0) && (old_population.contains(
            result@[i],
        ) || old_offspring.contains(result@[i].0)) by {
            assert(sorted@.contains(sorted@[i]));
            assert(sorted@.to_multiset().count(sorted@[i]) > 0);
            let w = choose|w: int| 0 <= w < combined_view.len() && combined_view[w] == sorted@[i];
            assert(combined_view[w].0.row_valid(*puzzle));
            if w < old_population.len() {
                assert(combined_view[w] == old_population[w]);
                assert(old_population.contains(result@[i]));
            } else {
                assert(old_offspring.contains(combined_view[w].0));
            }
        }
        assert forall|i: int| 0 <= i < old_population.len() implies result@[0].1 <= (
        #[trigger] old_population[i]).1 by {
            assert(combined_view[i] == old_population[i]);
            assert(combined_view.contains(old_population[i]));
            assert(combined_view.to_multiset().count(old_population[i]) > 0);
            assert(sorted@.to_multiset().count(old_population[i]) > 0);
            assert(sorted@.contains(old_population[i]));
            let w = choose|w: int| 0 <= w < sorted@.len() && sorted@[w] == old_population[i];
            assert(sorted@[0].1 <= sorted@[w].1);
            assert(result@[0] == sorted@[0]);
        }
        assert forall|k: int| 0 <= k < old_offspring.len() implies result@[0].1 <= score_spec(
            *puzzle,
            #[trigger] old_offspring[k],
        ) by {
            let m = choose|m: int|
                0 <= m < combined_view.len() && old_offspring[k] == combined_view[m].0;
            assert(combined_view[m].1 == score_spec(*puzzle, old_offspring[k]));
            assert(combined_view.contains(combined_view[m]));
            assert(combined_view.to_multiset().count(combined_view[m]) > 0);
            assert(sorted@.to_multiset().count(combined_view[m]) > 0);
            assert(sorted@.contains(combined_view[m]));
            let w = choose|w: int| 0 <= w < sorted@.len() && sorted@[w] == combined_view[m];
            assert(sorted@[0].1 <= sorted@[w].1);
            assert(result@[0] == sorted@[0]);
        }
    }
    result
}

/// Runs the evolutionary search: starts from a fresh scored population,
/// and each generation records the best, median and worst score, stops
/// with a winner when the best score reaches zero, and otherwise breeds,
/// mutates and elitistically replaces until the iteration budget is
/// spent. Non-convergence is not an error: the search then hands back the
/// best attempt as the `Err` value, with the full score trajectory.
pub fn evolutive_search(
    population_size: usize,
    puzzle: &NonogramPuzzle,
    cross_probability: u32,
    mutation_probability: u32,
    tournament_size: usize,
    slide_tries: usize,
    max_iterations: usize,
    rng: &mut StdRng,
) -> (h: History)
    requires
        puzzle.wf(),
        puzzle.cols >= 3,
        population_size >= 1,
        tournament_size >= 1,
        cross_probability <= 1000,
        mutation_probability <= 1000,
        max_iterations < usize::MAX,
    ensures
        h.iterations <= max_iterations,
        h.best@.len() == h.iterations,
        h.median_twice@.len() == h.iterations,
        h.worst@.len() == h.iterations,
        forall|k: int| 0 <= k < h.best@.len() - 1 ==> #[trigger] h.best@[k + 1] <= h.best@[k],
        forall|k: int| 0 <= k < h.best@.len() ==> #[trigger] h.best@[k] <= usize::MAX / 2,
        h.winner matches Ok(s) ==> s.row_valid(*puzzle) && score_spec(*puzzle, s) == 0 && (
        forall|j: int|
            0 <= j < puzzle.cols ==> rle(col_seq(s.grid(), j)) == #[trigger] puzzle.col_list(j)),
        h.winner matches Err(s) ==> s.row_valid(*puzzle),
        h.winner matches Err(s) ==> (h.iterations >= 1 ==> score_spec(*puzzle, s) <= h.best@[
            h.iterations - 1]),
        h.winner is Err ==> h.iterations == max_iterations,
        h.winner is Err ==> forall|k: int| 0 <= k < h.best@.len() ==> #[trigger] h.best@[k] > 0,
        h.winner is Ok ==> h.iterations >= 1 && h.best@[h.iterations - 1] == 0,
{
    let mut population = initial_population(puzzle, population_size, rng);
    let mut history = History::new(puzzle, rng);
    let mut won = false;
    while !won && history.iterations < max_iterations
        invariant
            puzzle.wf(),
            puzzle.cols >= 3,
            population_size >= 1,
            tournament_size >= 1,
            cross_probability <= 1000,
            mutation_probability <= 1000,
            max_iterations < usize::MAX,
            population@.len() == population_size,
            pop_ok(*puzzle, population@),
            sorted_by_score(population@),
            history.iterations <= max_iterations,
            history.best@.len() == history.iterations,
            history.median_twice@.len() == history.iterations,
            history.worst@.len() == history.iterations,
            forall|k: int|
                0 <= k < history.best@.len() - 1 ==> #[trigger] history.best@[k + 1]
                    <= history.best@[k],
            forall|k: int| 0 <= k < history.best@.len() ==> #[trigger] history.best@[k] <= usize::MAX / 2,
            history.iterations >= 1 ==> population@[0].1 <= history.best@[history.iterations - 1],
            !won ==> (history.winner matches Err(s) && s.row_valid(*puzzle)),
            !won ==> forall|k: int|
                0 <= k < history.best@.len() ==> #[trigger] history.best@[k] > 0,
            won ==> (history.winner matches Ok(s) && s.row_valid(*puzzle) && score_spec(*puzzle, s)
                == 0),
            won ==> history.iterations >= 1 && history.best@[history.iterations - 1] == 0,
        decreases max_iterations - history.iterations,
    {
        proof {
            assert forall|i: int| 0 <= i < population@.len() implies (#[trigger] population@[i]).1
                <= usize::MAX / 2 by {
                assert(population@[i].0.row_valid(*puzzle));
                lemma_row_valid_shape(*puzzle, population@[i].0);
                lemma_score_bound(*puzzle, population@[i].0, puzzle.cols as int);
                assert(2 * (puzzle.rows as int) * (puzzle.cols as int) <= 2 * ((puzzle.rows as int)
                    * (puzzle.cols as int))) by (nonlinear_arith);
            }
        }
        history.push(&population);
        if history.winner(&population) {
            won = true;
            proof {
                let s = history.winner->Ok_0;
                assert(s.grid() == population@[0].0.grid());
                lemma_score_grid(*puzzle, s, population@[0].0, puzzle.cols as int);
                assert(score_spec(*puzzle, population@[0].0) == population@[0].1 == 0);
                assert(s.row_valid(*puzzle));
            }
        } else {
            let mut offspring = recombinate_population(
                puzzle,
                &population,
                cross_probability,
                tournament_size,
                rng,
            );
            mutate_population(puzzle, &mut offspring, mutation_probability, slide_tries, rng);
            population = preserve_elite_population(puzzle, population, offspring);
        }
    }
    proof {
        if history.winner is Err {
            assert(!won);
        }
    }
    history.loser(&population);
    proof {
        if history.winner is Err {
            let s = history.winner->Err_0;
            assert(s.grid() == population@[0].0.grid());
            assert(s.row_valid(*puzzle));
            lemma_score_grid(*puzzle, s, population@[0].0, puzzle.cols as int);
            assert(score_spec(*puzzle, s) == population@[0].1);
        } else {
            let s = history.winner->Ok_0;
            lemma_row_valid_shape(*puzzle, s);
            lemma_score_zero_iff(*puzzle, s);
        }
    }
    history
}

/// The default population size for one solving run.
pub const POPULATION_SIZE: usize = 500;

/// The default crossover probability, in thousandths.
pub const CROSS_PROBABILITY: u32 = 600;

/// The default mutation probability, in thousandths.
pub const MUTATION_PROBABILITY: u32 = 100;

/// The default tournament size.
pub const TOURNAMENT_SIZE: usize = 3;

/// The default iteration budget.
pub const MAX_ITERATIONS: usize = 300;

/// The default number of slide trials per row and generation.
pub const SLIDE_TRIES: usize = 3;

/// The default seed for the pseudorandom generator.
pub const SEED: u64 = 23;

/// Solves a puzzle with the default parameters and a fixed seed, so a run
/// is fully reproducible.
pub fn solve_nonogram(puzzle: NonogramPuzzle) -> (h: History)
    requires
        puzzle.wf(),
        puzzle.cols >= 3,
    ensures
        h.iterations <= MAX_ITERATIONS,
        h.best@.len() == h.iterations,
        h.median_twice@.len() == h.iterations,
        h.worst@.len() == h.iterations,
        forall|k: int| 0 <= k < h.best@.len() - 1 ==> #[trigger] h.best@[k + 1] <= h.best@[k],
        h.winner matches Ok(s) ==> s.row_valid(puzzle) && score_spec(puzzle, s) == 0 && (forall|
            j: int,
        |
            0 <= j < puzzle.cols ==> rle(col_seq(s.grid(), j)) == #[trigger] puzzle.col_list(j)),
        h.winner matches Err(s) ==> s.row_valid(puzzle),
        h.winner matches Err(s) ==> (h.iterations >= 1 ==> score_spec(puzzle, s) <= h.best@[
            h.iterations - 1]),
        h.winner is Err ==> h.iterations == MAX_ITERATIONS,
        h.winner is Err ==> forall|k: int| 0 <= k < h.best@.len() ==> #[trigger] h.best@[k] > 0,
        h.winner is Ok ==> h.iterations >= 1 && h.best@[h.iterations - 1] == 0,
{
    let mut rng = rng_from_seed(SEED);
    evolutive_search(
        POPULATION_SIZE,
        &puzzle,
        CROSS_PROBABILITY,
        MUTATION_PROBABILITY,
        TOURNAMENT_SIZE,
        SLIDE_TRIES,
        MAX_ITERATIONS,
        &mut rng,
    )
}

/// The best combination a parameter sweep found: the lowest final best
/// score over the swept grid, with the settings that produced it.
#[derive(Clone, Copy, PartialEq, Eq, Structural, Debug)]
pub struct SweepChoice {
    /// The lowest final best score seen over the sweep.
    pub best_score: usize,
    /// The crossover probability of that run, in thousandths.
    pub cross_probability: u32,
    /// The mutation probability of that run, in thousandths.
    pub mutation_probability: u32,
    /// The slide trials per row of that run.
    pub slide_tries: usize,
    /// The seed of that run.
    pub seed: u64,
}

/// Sweeps a small grid of crossover probabilities, mutation
/// probabilities, slide-trial counts and seeds, running one search per
/// combination at fixed population, tournament and iteration settings,
/// and reports the combination with the lowest final best score. A sweep
/// in which no combination reached zero still reports its best; this is
/// a diagnostic, not a solver.
pub fn anova(puzzle: NonogramPuzzle) -> (r: Option<SweepChoice>)
    requires
        puzzle.wf(),
        puzzle.cols >= 3,
    ensures
        r is Some,
        r matches Some(c) ==> sweep_choice_ok(c),
{
    let mut best_score: usize = usize::MAX;
    let mut best: Option<SweepChoice> = None;

    let mut ci: usize = 0;
    while ci < 3
        invariant
            puzzle.wf(),
            puzzle.cols >= 3,
            0 <= ci <= 3,
            ci > 0 ==> best_score <= usize::MAX / 2,
            ci == 0 ==> best_score == usize::MAX,
            (best is Some) == (ci > 0),
            best matches Some(c) ==> sweep_choice_ok(c),
        decreases 3 - ci,
    {
        let cross_probability: u32 = if ci == 0 {
            300
        } else if ci == 1 {
            600
        } else {
            900
        };
        let mut mi: usize = 0;
        while mi < 3
            invariant
                puzzle.wf(),
                puzzle.cols >= 3,
                cross_probability == 300 || cross_probability == 600 || cross_probability == 900,
                0 <= mi <= 3,
                0 <= ci <= 2,
                (ci > 0 || mi > 0) ==> best_score <= usize::MAX / 2,
                (ci == 0 && mi == 0) ==> best_score == usize::MAX,
                (best is Some) == (ci > 0 || mi > 0),
                best matches Some(c) ==> sweep_choice_ok(c),
            decreases 3 - mi,
        {
            let mutation_probability: u32 = if mi == 0 {
                100
            } else if mi == 1 {
                200
            } else {
                300
            };
            let mut si: usize = 0;
            while si < 3
                invariant
                    puzzle.wf(),
                    puzzle.cols >= 3,
                    cross_probability == 300 || cross_probability == 600 || cross_probability
                        == 900,
                    mutation_probability == 100 || mutation_probability == 200
                        || mutation_probability == 300,
                    0 <= si <= 3,
                    0 <= ci <= 2,
                    0 <= mi <= 2,
                    (ci > 0 || mi > 0 || si > 0) ==> best_score <= usize::MAX / 2,
                    (ci == 0 && mi == 0 && si == 0) ==> best_score == usize::MAX,
                    (best is Some) == (ci > 0 || mi > 0 || si > 0),
                    best matches Some(c) ==> sweep_choice_ok(c),
                decreases 3 - si,
            {
                let slide_tries: usize = if si == 0 {
                    3
                } else if si == 1 {
                    5
                } else {
                    7
                };
                let mut vi: usize = 0;
                while vi < 10
                    invariant
                        puzzle.wf(),
                        puzzle.cols >= 3,
                        cross_probability == 300 || cross_probability == 600 || cross_probability
                            == 900,
                        mutation_probability == 100 || mutation_probability == 200
                            || mutation_probability == 300,
                        slide_tries == 3 || slide_tries == 5 || slide_tries == 7,
                        0 <= vi <= 10,
                        0 <= ci <= 2,
                        0 <= mi <= 2,
                        0 <= si <= 2,
                        (ci > 0 || mi > 0 || si > 0 || vi > 0) ==> best_score <= usize::MAX / 2,
                        (ci == 0 && mi == 0 && si == 0 && vi == 0) ==> best_score == usize::MAX,
                        (best is Some) == (ci > 0 || mi > 0 || si > 0 || vi > 0),
                        best matches Some(c) ==> sweep_choice_ok(c),
                    decreases 10 - vi,
                {
                    let seed: u64 = if vi == 0 {
                        11
                    } else if vi == 1 {
                        13
                    } else if vi == 2 {
                        17
                    } else if vi == 3 {
                        19
                    } else if vi == 4 {
                        23
                    } else if vi == 5 {
                        29
                    } else if vi == 6 {
                        31
                    } else if vi == 7 {
                        37
                    } else if vi == 8 {
                        41
                    } else {
                        43
                    };
                    let mut rng = rng_from_seed(seed);
                    let history = evolutive_search(
                        POPULATION_SIZE,
                        &puzzle,
                        cross_probability,
                        mutation_probability,
                        TOURNAMENT_SIZE,
                        slide_tries,
                        MAX_ITERATIONS,
                        &mut rng,
                    );
                    proof {
                        assert(history.iterations >= 1);
                    }
                    let runs = history.best.len();
                    if runs > 0 {
                        let current_best = history.best[runs - 1];
                        proof {
                            assert(history.best@[runs - 1] <= usize::MAX / 2);
                        }
                        if current_best < best_score {
                            best_score = current_best;
                            best = Some(
                                SweepChoice {
                                    best_score: current_best,
                                    cross_probability,
                                    mutation_probability,
                                    slide_tries,
                                    seed,
                                },
                            );
                        }
                    }
                    vi += 1;
                }
                si += 1;
            }
            mi += 1;
        }
        ci += 1;
    }
    best
}

/// A possible sweep outcome: every swept field lies on the sweep's own
/// grid of values, and the reported score is a final best score of a
/// genuine run, hence within the score bound.
pub open spec fn sweep_choice_ok(c: SweepChoice) -> bool {
    &&& (c.cross_probability == 300 || c.cross_probability == 600 || c.cross_probability == 900)
    &&& (c.mutation_probability == 100 || c.mutation_probability == 200 || c.mutation_probability
        == 300)
    &&& (c.slide_tries == 3 || c.slide_tries == 5 || c.slide_tries == 7)
    &&& (c.seed == 11 || c.seed == 13 || c.seed == 17 || c.seed == 19 || c.seed == 23 || c.seed
        == 29 || c.seed == 31 || c.seed == 37 || c.seed == 41 || c.seed == 43)
    &&& c.best_score <= usize::MAX / 2
}

} // verus!
