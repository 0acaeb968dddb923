use bridge_backend::genetics::{deck_shape_type_from_index, mutate_plate_count, random_deck_shape_type, random_plate_count, DeckShapeType};
use bridge_backend::optimizer::{GeneticOptimizer, ShapeSearch, OPTIMIZER_SEED, TOURNAMENT_SIZE};
use bridge_backend::population::{sort_by_fitness, tournament_selection, tournament_winner};
use rand::rngs::StdRng;
use rand::{Rng, SeedableRng};

#[test]
fn deck_types_in_draw_order() {
    assert_eq!(deck_shape_type_from_index(0), DeckShapeType::Flat);
    assert_eq!(deck_shape_type_from_index(1), DeckShapeType::Streamlined);
    assert_eq!(deck_shape_type_from_index(2), DeckShapeType::Box);
    assert_eq!(deck_shape_type_from_index(3), DeckShapeType::Slotted);
}

#[test]
fn random_deck_type_follows_rng_draw() {
    let mut a = StdRng::seed_from_u64(7);
    let mut b = StdRng::seed_from_u64(7);
    for _ in 0..20 {
        let t = random_deck_shape_type(&mut a);
        let i: usize = b.gen_range(0..4);
        assert_eq!(t, deck_shape_type_from_index(i));
    }
}

#[test]
fn plate_count_mutation_is_clamped() {
    assert_eq!(mutate_plate_count(2, 1), 3);
    assert_eq!(mutate_plate_count(2, 5), 4);
    assert_eq!(mutate_plate_count(1, -3), 0);
    assert_eq!(mutate_plate_count(0, 0), 0);
    assert_eq!(mutate_plate_count(4, 0), 4);
    assert_eq!(mutate_plate_count(9, -2), 4);
}

#[test]
fn sort_is_descending_and_stable() {
    let mut pop = vec![("a", 3u64), ("b", 5), ("c", 3), ("d", 5), ("e", 1)];
    sort_by_fitness(&mut pop);
    assert_eq!(pop, vec![("b", 5), ("d", 5), ("a", 3), ("c", 3), ("e", 1)]);
    let again = pop.clone();
    sort_by_fitness(&mut pop);
    assert_eq!(pop, again);
    let mut empty: Vec<(u8, u64)> = Vec::new();
    sort_by_fitness(&mut empty);
    assert!(empty.is_empty());
}

#[test]
fn tournament_winner_is_first_fittest_draw() {
    let pop = vec![("a", 4u64), ("b", 9), ("c", 9), ("d", 2)];
    assert_eq!(tournament_winner(&pop, &vec![3, 0, 3]), 0);
    assert_eq!(tournament_winner(&pop, &vec![2, 1, 0]), 2);
    assert_eq!(tournament_winner(&pop, &vec![1, 2]), 1);
    assert_eq!(tournament_winner(&pop, &vec![3]), 3);
}

#[test]
fn tournament_selection_matches_its_draws() {
    let pop = vec![("a", 4u64), ("b", 9), ("c", 1), ("d", 2), ("e", 7)];
    let mut rng = StdRng::seed_from_u64(11);
    let mut replay = StdRng::seed_from_u64(11);
    for _ in 0..30 {
        let w = tournament_selection(&mut rng, &pop, TOURNAMENT_SIZE);
        let draws: Vec<usize> = (0..TOURNAMENT_SIZE).map(|_| replay.gen_range(0..pop.len())).collect();
        assert_eq!(w, tournament_winner(&pop, &draws));
        assert!(w < pop.len());
    }
}

#[test]
fn tournament_of_size_zero_draws_once() {
    let pop = vec![("a", 4u64), ("b", 9)];
    let mut rng = StdRng::seed_from_u64(3);
    let mut replay = StdRng::seed_from_u64(3);
    let w = tournament_selection(&mut rng, &pop, 0);
    let i: usize = replay.gen_range(0..2);
    assert_eq!(w, i);
}

/// Shapes are numbers; the fitter the larger; children average their parents
/// and move by a random step.
struct Numbers;

impl ShapeSearch for Numbers {
    type Shape = u64;
    fn random_shape(&self, rng: &mut StdRng) -> u64 {
        rng.gen_range(0..1000)
    }
    fn fitness(&self, shape: &u64) -> u64 {
        *shape
    }
    fn offspring(&self, rng: &mut StdRng, first: &u64, second: &u64) -> u64 {
        (first + second) / 2 + rng.gen_range(0..50)
    }
}

#[test]
fn optimizer_history_never_falls() {
    let opt = GeneticOptimizer::new(Numbers, 12, 15);
    assert_eq!(opt.population_size, 12);
    assert_eq!(opt.generations, 15);
    let res = opt.run();
    assert_eq!(res.generation_history.len(), 15);
    for w in res.generation_history.windows(2) {
        assert!(w[0] <= w[1]);
    }
    assert!(*res.generation_history.last().unwrap() <= res.best_fitness);
    assert_eq!(res.best_fitness, res.best_shape);
}

#[test]
fn optimizer_is_repeatable() {
    let a = GeneticOptimizer::new(Numbers, 8, 6).run();
    let b = GeneticOptimizer::new(Numbers, 8, 6).run();
    assert_eq!(a.generation_history, b.generation_history);
    assert_eq!(a.best_shape, b.best_shape);
    assert_eq!(OPTIMIZER_SEED, 42);
}

#[test]
fn optimizer_without_generations_keeps_best_of_first_population() {
    let res = GeneticOptimizer::new(Numbers, 5, 0).run();
    assert!(res.generation_history.is_empty());
    let mut rng = StdRng::seed_from_u64(42);
    let first: Vec<u64> = (0..5).map(|_| rng.gen_range(0..1000)).collect();
    assert_eq!(res.best_fitness, *first.iter().max().unwrap());
}

#[test]
fn next_generation_keeps_two_fittest() {
    let mut opt = GeneticOptimizer::new(Numbers, 6, 1);
    let mut pop: Vec<(u64, u64)> = vec![(10, 10), (50, 50), (30, 30), (50, 50), (5, 5), (40, 40)];
    let best = opt.next_generation(&mut pop);
    assert_eq!(best, 50);
    assert_eq!(pop.len(), 6);
    assert_eq!(pop[0], (50, 50));
    assert_eq!(pop[1], (50, 50));
}

#[test]
fn random_plate_count_follows_rng_draw() {
    let mut a = StdRng::seed_from_u64(5);
    let mut b = StdRng::seed_from_u64(5);
    for _ in 0..40 {
        let c = random_plate_count(&mut a);
        let expected: usize = b.gen_range(0..5);
        assert_eq!(c, expected);
        assert!(c <= 4);
    }
}

/// Shapes carry a tag besides their value; fitness is the value.
#[derive(Clone, Debug, PartialEq)]
struct Tagged {
    value: u64,
    tag: u32,
}

struct TaggedSearch;

impl ShapeSearch for TaggedSearch {
    type Shape = Tagged;
    fn random_shape(&self, rng: &mut StdRng) -> Tagged {
        Tagged { value: rng.gen_range(0..500), tag: rng.gen_range(0..1000) }
    }
    fn fitness(&self, shape: &Tagged) -> u64 {
        shape.value
    }
    fn offspring(&self, rng: &mut StdRng, first: &Tagged, second: &Tagged) -> Tagged {
        Tagged { value: (first.value + second.value) / 2 + rng.gen_range(0..20), tag: rng.gen_range(0..1000) }
    }
}

#[test]
fn best_shape_matches_best_fitness() {
    let res = GeneticOptimizer::new(TaggedSearch, 10, 8).run();
    assert_eq!(res.best_fitness, TaggedSearch.fitness(&res.best_shape));
    assert_eq!(res.generation_history.len(), 8);
}

#[test]
fn initial_population_keys_are_fitness() {
    let mut opt = GeneticOptimizer::new(TaggedSearch, 7, 0);
    let pop = opt.initial_population();
    assert_eq!(pop.len(), 7);
    for (shape, key) in &pop {
        assert_eq!(*key, TaggedSearch.fitness(shape));
    }
}

#[test]
fn next_generation_keeps_elite_shapes_and_scores_children() {
    let mut opt = GeneticOptimizer::new(TaggedSearch, 5, 1);
    let mut pop = vec![
        (Tagged { value: 3, tag: 1 }, 3),
        (Tagged { value: 9, tag: 2 }, 9),
        (Tagged { value: 9, tag: 3 }, 9),
        (Tagged { value: 1, tag: 4 }, 1),
    ];
    let best = opt.next_generation(&mut pop);
    assert_eq!(best, 9);
    assert_eq!(pop.len(), 5);
    assert_eq!(pop[0], (Tagged { value: 9, tag: 2 }, 9));
    assert_eq!(pop[1], (Tagged { value: 9, tag: 3 }, 9));
    for (shape, key) in &pop[2..] {
        assert_eq!(*key, TaggedSearch.fitness(shape));
    }
}

#[test]
fn history_entries_are_each_generations_best() {
    // With two generations and populations of two, every individual is an
    // elite, so each generation's best is the first population's best.
    let res = GeneticOptimizer::new(TaggedSearch, 2, 2).run();
    let mut rng = StdRng::seed_from_u64(OPTIMIZER_SEED);
    let first: Vec<Tagged> = (0..2).map(|_| TaggedSearch.random_shape(&mut rng)).collect();
    let best = first.iter().map(|s| s.value).max().unwrap();
    assert_eq!(res.generation_history, vec![best, best]);
    assert_eq!(res.best_fitness, best);
}

#[test]
fn children_are_bred_from_the_population() {
    let mut opt = GeneticOptimizer::new(TaggedSearch, 9, 1);
    let mut pop = vec![
        (Tagged { value: 100, tag: 1 }, 100),
        (Tagged { value: 300, tag: 2 }, 300),
        (Tagged { value: 200, tag: 3 }, 200),
        (Tagged { value: 400, tag: 4 }, 400),
    ];
    let parents: Vec<u64> = pop.iter().map(|(s, _)| s.value).collect();
    opt.next_generation(&mut pop);
    assert_eq!(pop.len(), 9);
    for (child, _) in &pop[2..] {
        let bred = parents.iter().any(|a| {
            parents.iter().any(|b| {
                let base = (a + b) / 2;
                child.value >= base && child.value < base + 20
            })
        });
        assert!(bred, "child {:?} is not bred from two parents", child);
    }
}
