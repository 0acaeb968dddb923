use vstd::prelude::*;
use crate::population::{sort_by_fitness, tournament_selection, stable_sort_of, sorted_desc, won_tournament, tournament_draws, law_tournament_picks_fittest_draw};
use crate::rng::index_drawn;
use crate::rng::{seeded_rng, seeded_std_rng, take_rng};

verus! {

/// What the genetic search needs to know of deck shapes: how to draw one at
/// random, how fit one is, and how two parents give a child. Fitness is
/// reported as a key that orders shapes as their fitness values do.
pub trait ShapeSearch {
    type Shape: Clone;

    /// A shape drawn at random from `rng`.
    fn random_shape(&self, rng: &mut rand::rngs::StdRng) -> Self::Shape;

    /// The fitness key of `shape`: the fitter the shape, the greater the key.
    fn fitness(&self, shape: &Self::Shape) -> u64;

    /// A child of `first` and `second`, bred with draws from `rng`.
    fn offspring(
        &self,
        rng: &mut rand::rngs::StdRng,
        first: &Self::Shape,
        second: &Self::Shape,
    ) -> Self::Shape;
}

/// The seed from which every optimization run draws, so that runs repeat.
pub const OPTIMIZER_SEED: u64 = 42;

/// How many individuals each tournament draws.
pub const TOURNAMENT_SIZE: usize = 3;

/// A genetic optimizer of deck shapes with elitism: the two fittest shapes of
/// each generation pass to the next unchanged.
pub struct GeneticOptimizer<P> {
    pub problem: P,
    pub population_size: usize,
    pub generations: usize,
    pub rng: rand::rngs::StdRng,
}

/// What an optimization run found: the fittest shape of the last population,
/// its fitness key, and the best fitness key of each generation in turn.
pub struct Evolution<S> {
    pub best_shape: S,
    pub best_fitness: u64,
    pub generation_history: Vec<u64>,
}

/// `key` is a fitness key that `problem` reported for `shape`.
pub open spec fn fitness_of<P: ShapeSearch>(problem: P, shape: P::Shape, key: u64) -> bool {
    call_ensures(P::fitness, (&problem, &shape), key)
}

/// `to` is reached from `from` by `n` successive clones.
pub open spec fn descends<S: Clone>(from: S, to: S, n: nat) -> bool
    decreases n,
{
    if n == 0 {
        from == to
    } else {
        exists|mid: S| descends(from, mid, (n - 1) as nat) && #[trigger] cloned(mid, to)
    }
}

/// The key of `entry` is the fitness `problem` reported for a shape from
/// which the entry's shape descends by clones.
pub open spec fn scored<P: ShapeSearch>(problem: P, entry: (P::Shape, u64)) -> bool {
    exists|shape: P::Shape, n: nat| #[trigger] fitness_of(problem, shape, entry.1) && #[trigger] descends(shape, entry.0, n)
}

/// `pop` is a first population for `problem`: `size` individuals whose shapes
/// are drawn by `random_shape` one after another from the generator in state
/// `before`, leaving it in state `after`, each with the key `fitness`
/// reported for its shape.
pub open spec fn first_population_of<P: ShapeSearch>(
    problem: P,
    size: nat,
    pop: Seq<(P::Shape, u64)>,
    before: rand::rngs::StdRng,
    after: rand::rngs::StdRng,
) -> bool {
    &&& pop.len() == size
    &&& forall|i: int| 0 <= i < pop.len() ==> fitness_of(problem, #[trigger] pop[i].0, pop[i].1)
    &&& forall|i: int| 0 <= i < pop.len() ==> drawn_by(problem, #[trigger] pop[i].0)
    &&& shapes_drawn(problem, before, pop, after)
}

/// `shape` is what `draw_shape` draws from the generator in state `before`,
/// and `after` the state it leaves.
pub open spec fn shape_drawn<P: ShapeSearch>(
    problem: P,
    before: rand::rngs::StdRng,
    shape: P::Shape,
    after: rand::rngs::StdRng,
) -> bool {
    call_ensures(draw_shape::<P>, (&problem, before), (shape, after))
}

/// The shapes of `pop` are drawn by `draw_shape` one after another from the
/// generator in state `before`, leaving it in state `after`.
pub open spec fn shapes_drawn<P: ShapeSearch>(
    problem: P,
    before: rand::rngs::StdRng,
    pop: Seq<(P::Shape, u64)>,
    after: rand::rngs::StdRng,
) -> bool
    decreases pop.len(),
{
    if pop.len() == 0 {
        before == after
    } else {
        exists|mid: rand::rngs::StdRng|
            shapes_drawn(problem, before, pop.drop_last(), mid) && #[trigger] shape_drawn(
                problem,
                mid,
                pop.last().0,
                after,
            )
    }
}

/// `child` is what `breed` breeds from `first` and `second` with the
/// generator in state `before`, and `after` the state it leaves.
pub open spec fn child_bred<P: ShapeSearch>(
    problem: P,
    before: rand::rngs::StdRng,
    first: P::Shape,
    second: P::Shape,
    child: P::Shape,
    after: rand::rngs::StdRng,
) -> bool {
    call_ensures(breed::<P>, (&problem, before, &first, &second), (child, after))
}

/// With the generator in state `before`, two tournaments of size
/// `TOURNAMENT_SIZE` are run over `parents` one after the other, and `child`
/// is bred from their two winners, leaving the generator in state `after`.
pub open spec fn child_of_tournaments<P: ShapeSearch>(
    problem: P,
    parents: Seq<(P::Shape, u64)>,
    before: rand::rngs::StdRng,
    child: P::Shape,
    after: rand::rngs::StdRng,
) -> bool {
    exists|w1: usize, s1: rand::rngs::StdRng, w2: usize, s2: rand::rngs::StdRng|
        #![trigger won_tournament(parents, TOURNAMENT_SIZE, before, w1, s1), won_tournament(parents, TOURNAMENT_SIZE, s1, w2, s2), child_bred(problem, s2, parents[w1 as int].0, parents[w2 as int].0, child, after)]
        won_tournament(parents, TOURNAMENT_SIZE, before, w1, s1)
            && won_tournament(parents, TOURNAMENT_SIZE, s1, w2, s2)
            && child_bred(problem, s2, parents[w1 as int].0, parents[w2 as int].0, child, after)
}

/// The individuals of `children` are bred one after another, each from the
/// winners of two tournaments over `parents`, with the generator going from
/// state `before` to state `after`.
pub open spec fn children_of_tournaments<P: ShapeSearch>(
    problem: P,
    parents: Seq<(P::Shape, u64)>,
    before: rand::rngs::StdRng,
    children: Seq<(P::Shape, u64)>,
    after: rand::rngs::StdRng,
) -> bool
    decreases children.len(),
{
    if children.len() == 0 {
        before == after
    } else {
        exists|mid: rand::rngs::StdRng|
            children_of_tournaments(problem, parents, before, children.drop_last(), mid)
                && #[trigger] child_of_tournaments(problem, parents, mid, children.last().0, after)
    }
}

/// `child` is a shape that `offspring` can breed from the parents `first`
/// and `second`, with some state of the generator.
pub open spec fn bred_from<P: ShapeSearch>(problem: P, first: P::Shape, second: P::Shape, child: P::Shape) -> bool {
    exists|rng: &mut rand::rngs::StdRng| #[trigger] call_ensures(P::offspring, (&problem, rng, &first, &second), child)
}

/// `shape` is a shape that `random_shape` can draw, with some state of the
/// generator.
pub open spec fn drawn_by<P: ShapeSearch>(problem: P, shape: P::Shape) -> bool {
    exists|rng: &mut rand::rngs::StdRng| #[trigger] call_ensures(P::random_shape, (&problem, rng), shape)
}

/// `child` is bred by `offspring` from two individuals of `parents`.
pub open spec fn bred_among<P: ShapeSearch>(problem: P, parents: Seq<(P::Shape, u64)>, child: P::Shape) -> bool {
    exists|a: int, b: int|
        0 <= a < parents.len() && 0 <= b < parents.len()
            && #[trigger] bred_from(problem, parents[a].0, parents[b].0, child)
}

/// Each individual of `after` past the first two is bred by `offspring` from
/// two individuals of `parents`.
pub open spec fn bred_children<P: ShapeSearch>(
    problem: P,
    parents: Seq<(P::Shape, u64)>,
    after: Seq<(P::Shape, u64)>,
) -> bool {
    forall|i: int| 2 <= i < after.len() ==> bred_among(problem, parents, #[trigger] after[i].0)
}

/// `after` follows `before` by one generation step of `problem` with
/// populations of `size`, the generator going from state `rng_before` to
/// `rng_after`: its first two individuals are clones of the two fittest of
/// the stable sort of `before`, under their keys; each other individual is
/// bred, one after another, from the winners of two tournaments over that
/// sort, and has the key `fitness` reported for its shape.
pub open spec fn step_of<P: ShapeSearch>(
    problem: P,
    size: nat,
    before: Seq<(P::Shape, u64)>,
    after: Seq<(P::Shape, u64)>,
    rng_before: rand::rngs::StdRng,
    rng_after: rand::rngs::StdRng,
) -> bool {
    &&& after.len() == size
    &&& exists|sorted: Seq<(P::Shape, u64)>|
        #![trigger stable_sort_of(sorted, before)]
        stable_sort_of(sorted, before)
            && sorted.len() == before.len()
            && sorted.to_multiset() == before.to_multiset()
            && sorted[0].1 == after[0].1
            && sorted[1].1 == after[1].1
            && cloned(sorted[0].0, after[0].0)
            && cloned(sorted[1].0, after[1].0)
            && bred_children(problem, sorted, after)
            && children_of_tournaments(problem, sorted, rng_before, after.subrange(2, after.len() as int), rng_after)
    &&& forall|i: int| 2 <= i < after.len() ==> fitness_of(problem, #[trigger] after[i].0, after[i].1)
}

/// `pops` is a run of `problem` with one generator threaded through it:
/// `rngs` holds the generator's state before the first population is drawn,
/// and after it and after each generation step in turn. Each population
/// follows the one before it by one generation step, which starts from the
/// state the step before it left.
pub open spec fn generations_of<P: ShapeSearch>(
    problem: P,
    size: nat,
    pops: Seq<Seq<(P::Shape, u64)>>,
    rngs: Seq<rand::rngs::StdRng>,
) -> bool
    decreases pops.len(),
{
    if pops.len() == 0 {
        false
    } else if pops.len() == 1 {
        rngs.len() == 2 && first_population_of(problem, size, pops[0], rngs[0], rngs[1])
    } else {
        rngs.len() == pops.len() + 1
            && generations_of(problem, size, pops.drop_last(), rngs.drop_last())
            && step_of(
                problem,
                size,
                pops[pops.len() - 2],
                pops.last(),
                rngs[rngs.len() - 2],
                rngs.last(),
            )
    }
}

/// `key` is the greatest key in `pop`.
pub open spec fn is_best_key<S>(pop: Seq<(S, u64)>, key: u64) -> bool {
    has_key(pop, key) && bounds_keys(pop, key)
}

/// A clone of a scored individual's shape, under the same key, is scored.
proof fn lemma_clone_keeps_score<P: ShapeSearch>(problem: P, a: (P::Shape, u64), b: (P::Shape, u64))
    requires
        scored(problem, a),
        cloned(a.0, b.0),
        a.1 == b.1,
    ensures
        scored(problem, b),
{
    let (shape, n) = choose|shape: P::Shape, n: nat|
        #[trigger] fitness_of(problem, shape, a.1) && #[trigger] descends(shape, a.0, n);
    assert(descends(shape, b.0, n + 1));
}

/// Some individual of `pop` has key `key`.
pub open spec fn has_key<S>(pop: Seq<(S, u64)>, key: u64) -> bool {
    exists|i: int| 0 <= i < pop.len() && #[trigger] pop[i].1 == key
}

/// No individual of `pop` has a key above `key`.
pub open spec fn bounds_keys<S>(pop: Seq<(S, u64)>, key: u64) -> bool {
    forall|i: int| 0 <= i < pop.len() ==> #[trigger] pop[i].1 <= key
}

/// An individual of one population is in every population with the same
/// multiset of individuals.
proof fn lemma_same_multiset_contains<S>(a: Seq<(S, u64)>, b: Seq<(S, u64)>, x: (S, u64))
    requires
        a.to_multiset() == b.to_multiset(),
        a.contains(x),
    ensures
        b.contains(x),
{
    broadcast use vstd::seq_lib::group_to_multiset_ensures;

    assert(a.to_multiset().count(x) > 0);
    assert(b.to_multiset().count(x) > 0);
}

/// A shape drawn by `random_shape` from the generator `rng`, handed back
/// with the generator in the state the draw leaves it in.
pub fn draw_shape<P: ShapeSearch>(problem: &P, rng: rand::rngs::StdRng) -> (res: (P::Shape, rand::rngs::StdRng))
    ensures
        drawn_by(*problem, res.0),
{
    let mut rng = rng;
    let shape = problem.random_shape(&mut rng);
    (shape, rng)
}

/// A child bred by `offspring` from `first` and `second` with the generator
/// `rng`, handed back with the generator in the state breeding leaves it in.
pub fn breed<P: ShapeSearch>(
    problem: &P,
    rng: rand::rngs::StdRng,
    first: &P::Shape,
    second: &P::Shape,
) -> (res: (P::Shape, rand::rngs::StdRng))
    ensures
        bred_from(*problem, *first, *second, res.0),
{
    let mut rng = rng;
    let child = problem.offspring(&mut rng, first, second);
    (child, rng)
}

impl<P: ShapeSearch> GeneticOptimizer<P> {
    /// An optimizer for `problem`, with its generator seeded with
    /// `OPTIMIZER_SEED`.
    pub fn new(problem: P, population_size: usize, generations: usize) -> (res: Self)
        ensures
            res.problem == problem,
            res.population_size == population_size,
            res.generations == generations,
            res.rng == seeded_std_rng(OPTIMIZER_SEED),
    {
        GeneticOptimizer { problem, population_size, generations, rng: seeded_rng(OPTIMIZER_SEED) }
    }

    /// A first population of `population_size` random shapes with their
    /// fitness keys.
    #[verifier::rlimit(40)]
    pub fn initial_population(&mut self) -> (pop: Vec<(P::Shape, u64)>)
        ensures
            pop.len() == old(self).population_size,
            final(self).population_size == old(self).population_size,
            final(self).generations == old(self).generations,
            final(self).problem == old(self).problem,
            forall|i: int| 0 <= i < pop.len() ==> fitness_of(old(self).problem, #[trigger] pop@[i].0, pop@[i].1),
            forall|i: int| 0 <= i < pop.len() ==> drawn_by(old(self).problem, #[trigger] pop@[i].0),
            first_population_of(
                old(self).problem,
                old(self).population_size as nat,
                pop@,
                old(self).rng,
                final(self).rng,
            ),
    {
        let ghost start = self.rng;
        let mut state = take_rng(&mut self.rng);
        let mut pop: Vec<(P::Shape, u64)> = Vec::new();
        let mut i: usize = 0;
        while i < self.population_size
            invariant
                pop.len() == i,
                i <= self.population_size,
                self.population_size == old(self).population_size,
                self.generations == old(self).generations,
                self.problem == old(self).problem,
                forall|j: int| 0 <= j < pop.len() ==> fitness_of(old(self).problem, #[trigger] pop@[j].0, pop@[j].1),
                forall|j: int| 0 <= j < pop.len() ==> drawn_by(old(self).problem, #[trigger] pop@[j].0),
                start == old(self).rng,
                shapes_drawn(old(self).problem, start, pop@, state),
            decreases self.population_size - i,
        {
            let ghost mid = state;
            let (s, after) = draw_shape(&self.problem, state);
            state = after;
            assert(drawn_by(old(self).problem, s));
            let f = self.problem.fitness(&s);
            let ghost before = pop@;
            pop.push((s, f));
            assert forall|j: int| 0 <= j < pop.len() implies drawn_by(old(self).problem, #[trigger] pop@[j].0) by {
                if j < pop.len() - 1 {
                    assert(pop@[j] == before[j]);
                }
            }
            proof {
                assert(pop@.drop_last() =~= before);
                assert(shape_drawn(old(self).problem, mid, pop@.last().0, state));
                assert(shapes_drawn(old(self).problem, start, pop@, state));
            }
            i = i + 1;
        }
        self.rng = state;
        pop
    }

    /// One generation step. Sorts `pop` fittest first and returns the best
    /// key; the next population then holds the two fittest individuals
    /// unchanged, followed by children of tournament-selected parents, up to
    /// `population_size` individuals.
    #[verifier::rlimit(40)]
    pub fn next_generation(&mut self, pop: &mut Vec<(P::Shape, u64)>) -> (best: u64)
        requires
            old(pop).len() >= 2,
            old(self).population_size >= 2,
        ensures
            final(self).population_size == old(self).population_size,
            final(self).generations == old(self).generations,
            final(pop).len() == old(self).population_size,
            bounds_keys(old(pop)@, best),
            has_key(old(pop)@, best),
            final(self).problem == old(self).problem,
            final(pop)@[0].1 == best,
            step_of(
                old(self).problem,
                old(self).population_size as nat,
                old(pop)@,
                final(pop)@,
                old(self).rng,
                final(self).rng,
            ),
    {
        let ghost rng_start = self.rng;
        let mut state = take_rng(&mut self.rng);
        let ghost before = pop@;
        sort_by_fitness(pop);
        proof {
            assert(pop@.contains(pop@[0]));
            lemma_same_multiset_contains(pop@, before, pop@[0]);
            let k = choose|k: int| 0 <= k < before.len() && #[trigger] before[k] == pop@[0];
            assert(before[k].1 == pop@[0].1);
            assert forall|i: int| 0 <= i < before.len() implies #[trigger] before[i].1 <= pop@[0].1 by {
                assert(before.contains(before[i]));
                lemma_same_multiset_contains(before, pop@, before[i]);
                let j = choose|j: int| 0 <= j < pop@.len() && #[trigger] pop@[j] == before[i];
                assert(sorted_desc(pop@));
                if j > 0 {
                    assert(pop@[0].1 >= pop@[j].1);
                }
            }
        }
        let best = pop[0].1;
        let ghost sorted = pop@;
        let mut next: Vec<(P::Shape, u64)> = Vec::new();
        next.push((pop[0].0.clone(), pop[0].1));
        next.push((pop[1].0.clone(), pop[1].1));
        while next.len() < self.population_size
            invariant
                next.len() >= 2,
                next@[0].1 == best,
                next@[0].1 == sorted[0].1,
                next@[1].1 == sorted[1].1,
                cloned(sorted[0].0, next@[0].0),
                cloned(sorted[1].0, next@[1].0),
                forall|i: int| 2 <= i < next.len() ==> fitness_of(old(self).problem, #[trigger] next@[i].0, next@[i].1),
                bred_children(old(self).problem, sorted, next@),
                rng_start == old(self).rng,
                children_of_tournaments(old(self).problem, sorted, rng_start, next@.subrange(2, next@.len() as int), state),
                self.problem == old(self).problem,
                pop@ == sorted,
                pop.len() >= 2,
                next.len() <= self.population_size,
                self.population_size == old(self).population_size,
                self.generations == old(self).generations,
            decreases self.population_size - next.len(),
        {
            let ghost s0 = state;
            let first = tournament_selection(&mut state, pop, TOURNAMENT_SIZE);
            let ghost s1 = state;
            let second = tournament_selection(&mut state, pop, TOURNAMENT_SIZE);
            let ghost s2 = state;
            let (child, after) = breed(&self.problem, state, &pop[first].0, &pop[second].0);
            state = after;
            assert(bred_from(old(self).problem, sorted[first as int].0, sorted[second as int].0, child));
            proof {
                assert(won_tournament(sorted, TOURNAMENT_SIZE, s0, first, s1));
                assert(won_tournament(sorted, TOURNAMENT_SIZE, s1, second, s2));
                assert(child_bred(old(self).problem, s2, sorted[first as int].0, sorted[second as int].0, child, state));
                assert(child_of_tournaments(old(self).problem, sorted, s0, child, state));
            }
            let fitness = self.problem.fitness(&child);
            let ghost prev_next = next@;
            next.push((child, fitness));
            proof {
                assert(bred_among(old(self).problem, sorted, child));
                assert forall|i: int| 2 <= i < next@.len() implies bred_among(old(self).problem, sorted, #[trigger] next@[i].0) by {
                    if i < next@.len() - 1 {
                        assert(next@[i] == prev_next[i]);
                    }
                }
                assert(bred_children(old(self).problem, sorted, next@));
                let kids = next@.subrange(2, next@.len() as int);
                assert(kids.drop_last() =~= prev_next.subrange(2, prev_next.len() as int));
                assert(kids.last().0 == child);
                assert(children_of_tournaments(old(self).problem, sorted, rng_start, kids, state));
            }
        }
        self.rng = state;
        *pop = next;
        assert(stable_sort_of(sorted, before) && sorted.len() == before.len()
            && sorted.to_multiset() == before.to_multiset()
            && sorted[0].1 == pop@[0].1 && sorted[1].1 == pop@[1].1
            && cloned(sorted[0].0, pop@[0].0) && cloned(sorted[1].0, pop@[1].0)
            && bred_children(old(self).problem, sorted, pop@)
            && children_of_tournaments(old(self).problem, sorted, rng_start, pop@.subrange(2, pop@.len() as int), self.rng));
        assert(step_of(old(self).problem, old(self).population_size as nat, before, pop@, rng_start, self.rng));
        best
    }

    /// Runs the search: a random first population, `generations` generation
    /// steps, then the fittest shape of the last population.
    #[verifier::rlimit(40)]
    pub fn run(self) -> (res: Evolution<P::Shape>)
        requires
            self.population_size >= 2 || (self.population_size >= 1 && self.generations == 0),
        ensures
            res.generation_history.len() == self.generations,
            forall|i: int, j: int|
                0 <= i <= j < res.generation_history.len() ==> res.generation_history[i]
                    <= res.generation_history[j],
            forall|i: int|
                0 <= i < res.generation_history.len() ==> res.generation_history[i]
                    <= res.best_fitness,
            exists|pops: Seq<Seq<(P::Shape, u64)>>, rngs: Seq<rand::rngs::StdRng>|
                #![trigger generations_of(self.problem, self.population_size as nat, pops, rngs)]
                pops.len() == self.generations + 1
                    && rngs[0] == self.rng
                    && generations_of(self.problem, self.population_size as nat, pops, rngs)
                    && (forall|g: int|
                        0 <= g < self.generations ==> is_best_key(
                            #[trigger] pops[g],
                            res.generation_history[g],
                        ))
                    && is_best_key(pops[self.generations as int], res.best_fitness)
                    && (exists|last: Seq<(P::Shape, u64)>|
                        #![trigger stable_sort_of(last, pops[self.generations as int])]
                        stable_sort_of(last, pops[self.generations as int])
                            && last.len() == pops[self.generations as int].len()
                            && last[0].1 == res.best_fitness
                            && cloned(last[0].0, res.best_shape)),
            scored(self.problem, (res.best_shape, res.best_fitness)),
    {
        let ghost problem = self.problem;
        let ghost size = self.population_size;
        let ghost rng0 = self.rng;
        let mut search = self;
        let generations = search.generations;
        let mut pop = search.initial_population();
        proof {
            assert forall|i: int| 0 <= i < pop.len() implies scored(problem, #[trigger] pop@[i]) by {
                assert(fitness_of(problem, pop@[i].0, pop@[i].1));
                assert(descends(pop@[i].0, pop@[i].0, 0));
            }
        }
        let ghost mut pops: Seq<Seq<(P::Shape, u64)>> = seq![pop@];
        let ghost mut rngs: Seq<rand::rngs::StdRng> = seq![rng0, search.rng];
        assert(generations_of(problem, size as nat, pops, rngs));
        let mut history: Vec<u64> = Vec::new();
        let mut gen: usize = 0;
        while gen < generations
            invariant
                generations == search.generations,
                search.population_size >= 2 || (search.population_size >= 1 && generations == 0),
                pop.len() == search.population_size,
                history.len() == gen,
                gen <= generations,
                forall|i: int, j: int| 0 <= i <= j < history.len() ==> history[i] <= history[j],
                gen > 0 ==> has_key(pop@, history[gen - 1]),
                search.problem == problem,
                search.population_size == size,
                forall|i: int| 0 <= i < pop.len() ==> scored(problem, #[trigger] pop@[i]),
                pops.len() == gen + 1,
                pops[gen as int] == pop@,
                rngs.len() == pops.len() + 1,
                rngs[0] == rng0,
                rngs.last() == search.rng,
                generations_of(problem, size as nat, pops, rngs),
                forall|g: int| 0 <= g < gen ==> is_best_key(#[trigger] pops[g], history@[g]),
            decreases generations - gen,
        {
            let ghost prev = pop@;
            let ghost prev_rng = search.rng;
            let best = search.next_generation(&mut pop);
            proof {
                if gen > 0 {
                    let i = choose|i: int| 0 <= i < prev.len() && #[trigger] prev[i].1 == history[gen - 1];
                    assert(prev[i].1 <= best);
                }
                assert(pop@[0].1 == best);
                let sorted = choose|sorted: Seq<(P::Shape, u64)>|
                    #![trigger stable_sort_of(sorted, prev)]
                    stable_sort_of(sorted, prev)
                        && sorted.len() == prev.len()
                        && sorted.to_multiset() == prev.to_multiset()
                        && sorted[0].1 == pop@[0].1
                        && sorted[1].1 == pop@[1].1
                        && cloned(sorted[0].0, pop@[0].0)
                        && cloned(sorted[1].0, pop@[1].0);
                assert forall|i: int| 0 <= i < pop.len() implies scored(problem, #[trigger] pop@[i]) by {
                    if i >= 2 {
                        assert(fitness_of(problem, pop@[i].0, pop@[i].1));
                        assert(descends(pop@[i].0, pop@[i].0, 0));
                    } else {
                        assert(sorted.contains(sorted[i]));
                        lemma_same_multiset_contains(sorted, prev, sorted[i]);
                        let k = choose|k: int| 0 <= k < prev.len() && #[trigger] prev[k] == sorted[i];
                        assert(scored(problem, prev[k]));
                        lemma_clone_keeps_score(problem, sorted[i], pop@[i]);
                    }
                }
            }
            proof {
                let next_pops = pops.push(pop@);
                let next_rngs = rngs.push(search.rng);
                assert(next_pops.drop_last() =~= pops);
                assert(next_rngs.drop_last() =~= rngs);
                assert(next_pops[next_pops.len() - 2] == prev);
                assert(next_rngs[next_rngs.len() - 2] == prev_rng);
                assert(step_of(problem, size as nat, prev, pop@, prev_rng, search.rng));
                assert(generations_of(problem, size as nat, next_pops, next_rngs));
                assert(is_best_key(prev, best));
                pops = next_pops;
                rngs = next_rngs;
            }
            history.push(best);
            gen = gen + 1;
        }
        let ghost last = pop@;
        sort_by_fitness(&mut pop);
        proof {
            assert forall|i: int| 0 <= i < last.len() implies #[trigger] last[i].1 <= pop@[0].1 by {
                assert(last.contains(last[i]));
                lemma_same_multiset_contains(last, pop@, last[i]);
                let j = choose|j: int| 0 <= j < pop@.len() && #[trigger] pop@[j] == last[i];
                if j > 0 {
                    assert(pop@[0].1 >= pop@[j].1);
                }
            }
            if generations > 0 {
                let i = choose|i: int| 0 <= i < last.len() && #[trigger] last[i].1 == history[generations - 1];
                assert(last[i].1 <= pop@[0].1);
            }
        }
        let best_shape = pop[0].0.clone();
        let best_fitness = pop[0].1;
        proof {
            assert forall|i: int| 0 <= i < pop.len() implies scored(problem, #[trigger] pop@[i]) by {
                assert(pop@.contains(pop@[i]));
                lemma_same_multiset_contains(pop@, last, pop@[i]);
                let k = choose|k: int| 0 <= k < last.len() && #[trigger] last[k] == pop@[i];
                assert(scored(problem, last[k]));
            }
            assert(scored(problem, pop@[0]));
            lemma_clone_keeps_score(problem, pop@[0], (best_shape, best_fitness));
            assert(sorted_desc(pop@));
            assert(pop@.contains(pop@[0]));
            lemma_same_multiset_contains(pop@, last, pop@[0]);
            let k = choose|k: int| 0 <= k < last.len() && #[trigger] last[k] == pop@[0];
            assert(last[k].1 == best_fitness);
            assert(is_best_key(last, best_fitness));
            assert(pops[generations as int] == last);
            assert(stable_sort_of(pop@, last) && pop@.len() == last.len() && pop@[0].1 == best_fitness
                && cloned(pop@[0].0, best_shape));
            assert(forall|g: int| 0 <= g < generations ==> is_best_key(#[trigger] pops[g], history@[g]));
        }
        Evolution { best_shape, best_fitness, generation_history: history }
    }
}

} // verus!

verus! {

/// The shapes of a first population, one by one: there are generator states,
/// the first `before` and the last `after`, such that shape `i` is drawn by
/// `draw_shape` from state `i`, leaving state `i + 1`.
proof fn lemma_shapes_states<P: ShapeSearch>(
    problem: P,
    before: rand::rngs::StdRng,
    pop: Seq<(P::Shape, u64)>,
    after: rand::rngs::StdRng,
)
    requires
        shapes_drawn(problem, before, pop, after),
    ensures
        exists|states: Seq<rand::rngs::StdRng>|
            #![trigger states.len()]
            states.len() == pop.len() + 1 && states[0] == before && states[pop.len() as int] == after
                && forall|i: int|
                    #![trigger pop[i]]
                    0 <= i < pop.len() ==> shape_drawn(problem, states[i], pop[i].0, states[i + 1]),
    decreases pop.len(),
{
    if pop.len() == 0 {
        let states = seq![before];
        assert(states.len() == pop.len() + 1);
    } else {
        let mid = choose|mid: rand::rngs::StdRng|
            shapes_drawn(problem, before, pop.drop_last(), mid) && #[trigger] shape_drawn(
                problem,
                mid,
                pop.last().0,
                after,
            );
        let prefix = pop.drop_last();
        lemma_shapes_states(problem, before, prefix, mid);
        let st = choose|st: Seq<rand::rngs::StdRng>|
            #![trigger st.len()]
            st.len() == prefix.len() + 1 && st[0] == before && st[prefix.len() as int] == mid
                && forall|i: int|
                    #![trigger prefix[i]]
                    0 <= i < prefix.len() ==> shape_drawn(problem, st[i], prefix[i].0, st[i + 1]);
        let states = st.push(after);
        assert forall|i: int|
            #![trigger pop[i]]
            0 <= i < pop.len() implies shape_drawn(problem, states[i], pop[i].0, states[i + 1]) by {
            if i < prefix.len() {
                assert(prefix[i] == pop[i]);
                assert(states[i] == st[i] && states[i + 1] == st[i + 1]);
            } else {
                assert(states[i] == mid);
            }
        }
        assert(states.len() == pop.len() + 1);
    }
}

/// What the first population is: `size` shapes drawn by `random_shape` (through
/// `draw_shape`) in turn from one generator, the first from state `before`,
/// each next from the state the draw before left, the last leaving `after`;
/// each with the fitness key `fitness` reported for it.
pub proof fn law_first_population_drawn_in_turn<P: ShapeSearch>(
    problem: P,
    size: nat,
    pop: Seq<(P::Shape, u64)>,
    before: rand::rngs::StdRng,
    after: rand::rngs::StdRng,
)
    requires
        first_population_of(problem, size, pop, before, after),
    ensures
        pop.len() == size,
        exists|states: Seq<rand::rngs::StdRng>|
            #![trigger states.len()]
            states.len() == pop.len() + 1 && states[0] == before && states[pop.len() as int] == after
                && forall|i: int|
                    #![trigger pop[i]]
                    0 <= i < pop.len() ==> shape_drawn(problem, states[i], pop[i].0, states[i + 1])
                        && fitness_of(problem, pop[i].0, pop[i].1),
{
    lemma_shapes_states(problem, before, pop, after);
    let states = choose|states: Seq<rand::rngs::StdRng>|
        #![trigger states.len()]
        states.len() == pop.len() + 1 && states[0] == before && states[pop.len() as int] == after
            && forall|i: int|
                #![trigger pop[i]]
                0 <= i < pop.len() ==> shape_drawn(problem, states[i], pop[i].0, states[i + 1]);
    assert forall|i: int|
        #![trigger pop[i]]
        0 <= i < pop.len() implies shape_drawn(problem, states[i], pop[i].0, states[i + 1])
            && fitness_of(problem, pop[i].0, pop[i].1) by {
        assert(fitness_of(problem, pop[i].0, pop[i].1));
    }
    assert(states.len() == pop.len() + 1);
}

/// The children of a generation step, one by one: there are generator
/// states, the first `before` and the last `after`, such that child `j` is
/// bred from the winners of two tournaments run from state `j`, leaving state
/// `j + 1`.
proof fn lemma_children_states<P: ShapeSearch>(
    problem: P,
    parents: Seq<(P::Shape, u64)>,
    before: rand::rngs::StdRng,
    kids: Seq<(P::Shape, u64)>,
    after: rand::rngs::StdRng,
)
    requires
        children_of_tournaments(problem, parents, before, kids, after),
    ensures
        exists|states: Seq<rand::rngs::StdRng>|
            #![trigger states.len()]
            states.len() == kids.len() + 1 && states[0] == before && states[kids.len() as int] == after
                && forall|j: int|
                    #![trigger kids[j]]
                    0 <= j < kids.len() ==> child_of_tournaments(problem, parents, states[j], kids[j].0, states[j + 1]),
    decreases kids.len(),
{
    if kids.len() == 0 {
        let states = seq![before];
        assert(states.len() == kids.len() + 1);
    } else {
        let mid = choose|mid: rand::rngs::StdRng|
            children_of_tournaments(problem, parents, before, kids.drop_last(), mid)
                && #[trigger] child_of_tournaments(problem, parents, mid, kids.last().0, after);
        let prefix = kids.drop_last();
        lemma_children_states(problem, parents, before, prefix, mid);
        let st = choose|st: Seq<rand::rngs::StdRng>|
            #![trigger st.len()]
            st.len() == prefix.len() + 1 && st[0] == before && st[prefix.len() as int] == mid
                && forall|j: int|
                    #![trigger prefix[j]]
                    0 <= j < prefix.len() ==> child_of_tournaments(problem, parents, st[j], prefix[j].0, st[j + 1]);
        let states = st.push(after);
        assert forall|j: int|
            #![trigger kids[j]]
            0 <= j < kids.len() implies child_of_tournaments(problem, parents, states[j], kids[j].0, states[j + 1]) by {
            if j < prefix.len() {
                assert(prefix[j] == kids[j]);
                assert(states[j] == st[j] && states[j + 1] == st[j + 1]);
            } else {
                assert(states[j] == mid);
            }
        }
        assert(states.len() == kids.len() + 1);
    }
}

/// `child` is bred by `offspring` from two individuals of `sorted`, each the
/// winner of a tournament of `TOURNAMENT_SIZE` positions below `sorted.len()`:
/// it is one of the drawn positions and no drawn individual is fitter.
pub open spec fn bred_from_winners<P: ShapeSearch>(problem: P, sorted: Seq<(P::Shape, u64)>, child: P::Shape) -> bool {
    exists|w1: usize, w2: usize, d1: Seq<usize>, d2: Seq<usize>|
        #![trigger d1.len(), d2.len(), bred_from(problem, sorted[w1 as int].0, sorted[w2 as int].0, child)]
        d1.len() == TOURNAMENT_SIZE && d2.len() == TOURNAMENT_SIZE
            && (forall|j: int| 0 <= j < TOURNAMENT_SIZE ==> d1[j] < sorted.len() && d2[j] < sorted.len())
            && d1.contains(w1) && d2.contains(w2)
            && (forall|j: int| 0 <= j < TOURNAMENT_SIZE ==> sorted[d1[j] as int].1 <= sorted[w1 as int].1)
            && (forall|j: int| 0 <= j < TOURNAMENT_SIZE ==> sorted[d2[j] as int].1 <= sorted[w2 as int].1)
            && bred_from(problem, sorted[w1 as int].0, sorted[w2 as int].0, child)
}

/// A child bred from the winners of two tournaments is bred from
/// tournament winners as `bred_from_winners` describes them.
#[verifier::rlimit(40)]
proof fn lemma_child_of_tournaments_from_winners<P: ShapeSearch>(
    problem: P,
    sorted: Seq<(P::Shape, u64)>,
    before: rand::rngs::StdRng,
    child: P::Shape,
    after: rand::rngs::StdRng,
)
    requires
        child_of_tournaments(problem, sorted, before, child, after),
    ensures
        bred_from_winners(problem, sorted, child),
{
    let (w1, s1, w2, s2) = choose|w1: usize, s1: rand::rngs::StdRng, w2: usize, s2: rand::rngs::StdRng|
        #![trigger won_tournament(sorted, TOURNAMENT_SIZE, before, w1, s1), won_tournament(sorted, TOURNAMENT_SIZE, s1, w2, s2), child_bred(problem, s2, sorted[w1 as int].0, sorted[w2 as int].0, child, after)]
        won_tournament(sorted, TOURNAMENT_SIZE, before, w1, s1)
            && won_tournament(sorted, TOURNAMENT_SIZE, s1, w2, s2)
            && child_bred(problem, s2, sorted[w1 as int].0, sorted[w2 as int].0, child, after);
    law_tournament_picks_fittest_draw(sorted, TOURNAMENT_SIZE, before, w1, s1);
    law_tournament_picks_fittest_draw(sorted, TOURNAMENT_SIZE, s1, w2, s2);
    let (d1, t1) = choose|draws: Seq<usize>, st: Seq<rand::rngs::StdRng>|
        #![trigger draws.len(), st.len()]
        draws.len() == tournament_draws(TOURNAMENT_SIZE) && st.len() == draws.len() + 1
            && st[0] == before && st[draws.len() as int] == s1
            && (forall|m: int|
                #![trigger draws[m]]
                0 <= m < draws.len() ==> draws[m] < sorted.len()
                    && index_drawn(st[m], sorted.len() as usize, draws[m], st[m + 1]))
            && draws.contains(w1)
            && (forall|m: int| 0 <= m < draws.len() ==> sorted[draws[m] as int].1 <= sorted[w1 as int].1);
    let (d2, t2) = choose|draws: Seq<usize>, st: Seq<rand::rngs::StdRng>|
        #![trigger draws.len(), st.len()]
        draws.len() == tournament_draws(TOURNAMENT_SIZE) && st.len() == draws.len() + 1
            && st[0] == s1 && st[draws.len() as int] == s2
            && (forall|m: int|
                #![trigger draws[m]]
                0 <= m < draws.len() ==> draws[m] < sorted.len()
                    && index_drawn(st[m], sorted.len() as usize, draws[m], st[m + 1]))
            && draws.contains(w2)
            && (forall|m: int| 0 <= m < draws.len() ==> sorted[draws[m] as int].1 <= sorted[w2 as int].1);
    lemma_child_bred_is_bred(problem, s2, sorted[w1 as int].0, sorted[w2 as int].0, child, after);
    assert(forall|m: int| 0 <= m < TOURNAMENT_SIZE ==> d1[m] < sorted.len() && d2[m] < sorted.len());
    assert(d1.len() == TOURNAMENT_SIZE && d2.len() == TOURNAMENT_SIZE);
    assert(bred_from(problem, sorted[w1 as int].0, sorted[w2 as int].0, child));
}

/// How a child of a generation step is bred: each individual past the two
/// elites is bred by `offspring` from two parents of the sorted population,
/// each parent the winner of a tournament of `TOURNAMENT_SIZE` positions drawn
/// uniformly below the population's size, and no drawn individual is fitter
/// than the parent it lost to.
#[verifier::rlimit(40)]
pub proof fn law_children_bred_from_tournament_winners<P: ShapeSearch>(
    problem: P,
    size: nat,
    before: Seq<(P::Shape, u64)>,
    after: Seq<(P::Shape, u64)>,
    rng_before: rand::rngs::StdRng,
    rng_after: rand::rngs::StdRng,
)
    requires
        step_of(problem, size, before, after, rng_before, rng_after),
    ensures
        exists|sorted: Seq<(P::Shape, u64)>|
            #![trigger stable_sort_of(sorted, before)]
            stable_sort_of(sorted, before) && sorted.len() == before.len()
                && forall|i: int|
                    #![trigger after[i]]
                    2 <= i < after.len() ==> bred_from_winners(problem, sorted, after[i].0),
{
    let sorted = choose|sorted: Seq<(P::Shape, u64)>|
        #![trigger stable_sort_of(sorted, before)]
        stable_sort_of(sorted, before)
            && sorted.len() == before.len()
            && sorted.to_multiset() == before.to_multiset()
            && sorted[0].1 == after[0].1
            && sorted[1].1 == after[1].1
            && cloned(sorted[0].0, after[0].0)
            && cloned(sorted[1].0, after[1].0)
            && bred_children(problem, sorted, after)
            && children_of_tournaments(problem, sorted, rng_before, after.subrange(2, after.len() as int), rng_after);
    let kids = after.subrange(2, after.len() as int);
    lemma_children_states(problem, sorted, rng_before, kids, rng_after);
    let states = choose|states: Seq<rand::rngs::StdRng>|
        #![trigger states.len()]
        states.len() == kids.len() + 1 && states[0] == rng_before && states[kids.len() as int] == rng_after
            && forall|j: int|
                #![trigger kids[j]]
                0 <= j < kids.len() ==> child_of_tournaments(problem, sorted, states[j], kids[j].0, states[j + 1]);
    assert forall|i: int|
        #![trigger after[i]]
        2 <= i < after.len() implies bred_from_winners(problem, sorted, after[i].0) by {
        let j = i - 2;
        assert(kids[j] == after[i]);
        assert(child_of_tournaments(problem, sorted, states[j], kids[j].0, states[j + 1]));
        lemma_child_of_tournaments_from_winners(problem, sorted, states[j], kids[j].0, states[j + 1]);
    }
    assert(stable_sort_of(sorted, before) && sorted.len() == before.len());
}

/// A child bred with `breed` is bred by `offspring`.
proof fn lemma_child_bred_is_bred<P: ShapeSearch>(
    problem: P,
    before: rand::rngs::StdRng,
    first: P::Shape,
    second: P::Shape,
    child: P::Shape,
    after: rand::rngs::StdRng,
)
    requires
        child_bred(problem, before, first, second, child, after),
    ensures
        bred_from(problem, first, second, child),
{
}

/// The generations of a run, one by one: the first population is drawn from
/// the generator state `rngs[0]`, leaving `rngs[1]`, and generation step `g`
/// turns population `g` into population `g + 1` starting from the state
/// `rngs[g + 1]` that the step before it left, leaving `rngs[g + 2]`.
pub proof fn law_run_threads_one_generator<P: ShapeSearch>(
    problem: P,
    size: nat,
    pops: Seq<Seq<(P::Shape, u64)>>,
    rngs: Seq<rand::rngs::StdRng>,
)
    requires
        generations_of(problem, size, pops, rngs),
    ensures
        pops.len() >= 1,
        rngs.len() == pops.len() + 1,
        first_population_of(problem, size, pops[0], rngs[0], rngs[1]),
        forall|g: int|
            #![trigger pops[g]]
            0 <= g < pops.len() - 1 ==> step_of(problem, size, pops[g], pops[g + 1], rngs[g + 1], rngs[g + 2]),
    decreases pops.len(),
{
    if pops.len() > 1 {
        let pp = pops.drop_last();
        let rr = rngs.drop_last();
        law_run_threads_one_generator(problem, size, pp, rr);
        assert forall|g: int|
            #![trigger pops[g]]
            0 <= g < pops.len() - 1 implies step_of(problem, size, pops[g], pops[g + 1], rngs[g + 1], rngs[g + 2]) by {
            if g < pops.len() - 2 {
                assert(pp[g] == pops[g] && pp[g + 1] == pops[g + 1]);
                assert(rr[g + 1] == rngs[g + 1] && rr[g + 2] == rngs[g + 2]);
                assert(step_of(problem, size, pp[g], pp[g + 1], rr[g + 1], rr[g + 2]));
            }
        }
        assert(pp[0] == pops[0] && rr[0] == rngs[0] && rr[1] == rngs[1]);
    }
}

} // verus!
