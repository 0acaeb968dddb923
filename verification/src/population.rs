use vstd::prelude::*;
use vstd::seq_lib::lemma_multiset_commutative;
use vstd::multiset::Multiset;
use crate::rng::{draw_position, draws_from, index_drawn, lemma_draws_below, lemma_draws_states, take_rng};

verus! {

// A population pairs each individual with its fitness key. Keys order the
// individuals as their fitness values do: a greater key is a fitter one.

/// Whether an individual has key `key`.
pub open spec fn key_is<S>(key: u64) -> spec_fn((S, u64)) -> bool {
    |e: (S, u64)| e.1 == key
}

/// The individuals of `pop` whose key is `key`, in their order in `pop`.
pub open spec fn with_key<S>(pop: Seq<(S, u64)>, key: u64) -> Seq<(S, u64)> {
    pop.filter(key_is(key))
}

/// Keys never increase from the front of `pop` to its back.
pub open spec fn sorted_desc<S>(pop: Seq<(S, u64)>) -> bool {
    forall|i: int, j: int| 0 <= i < j < pop.len() ==> pop[i].1 >= pop[j].1
}

/// `sorted` is the stable descending sort of `orig`: sorted by key, fittest
/// first, with the individuals of equal key in their original order.
pub open spec fn stable_sort_of<S>(sorted: Seq<(S, u64)>, orig: Seq<(S, u64)>) -> bool {
    &&& sorted_desc(sorted)
    &&& forall|key: u64| #[trigger] with_key(sorted, key) == with_key(orig, key)
}

proof fn lemma_with_key_add<S>(a: Seq<(S, u64)>, b: Seq<(S, u64)>, key: u64)
    ensures
        with_key(a + b, key) == with_key(a, key) + with_key(b, key),
{
    Seq::filter_distributes_over_add(a, b, key_is(key));
}

proof fn lemma_with_key_single<S>(x: (S, u64), key: u64)
    ensures
        with_key(seq![x], key) == (if x.1 == key { seq![x] } else { Seq::<(S, u64)>::empty() }),
{
    reveal_with_fuel(Seq::filter, 2);
    assert(seq![x].drop_last() =~= Seq::<(S, u64)>::empty());
}

/// No individual of `pop` has key `key` when all keys lie below it.
proof fn lemma_with_key_none<S>(pop: Seq<(S, u64)>, key: u64)
    requires
        forall|i: int| 0 <= i < pop.len() ==> pop[i].1 < key,
    ensures
        with_key(pop, key) == Seq::<(S, u64)>::empty(),
    decreases pop.len(),
{
    reveal_with_fuel(Seq::filter, 1);
    if pop.len() > 0 {
        lemma_with_key_none(pop.drop_last(), key);
    }
}

/// The individuals of key `key` in `x` followed by `rest`: `x` itself if its
/// key is `key`, then those of `rest`.
proof fn lemma_with_key_prepend<S>(x: (S, u64), rest: Seq<(S, u64)>, key: u64)
    ensures
        with_key(seq![x] + rest, key) == (if x.1 == key { seq![x] } else { Seq::<(S, u64)>::empty() })
            + with_key(rest, key),
{
    rest.lemma_filter_prepend(x, key_is(key));
}

/// An individual listed among those of key `key` belongs to `pop` and has
/// that key.
proof fn lemma_with_key_member<S>(pop: Seq<(S, u64)>, key: u64, i: int)
    requires
        0 <= i < with_key(pop, key).len(),
    ensures
        with_key(pop, key)[i].1 == key,
        pop.contains(with_key(pop, key)[i]),
{
    #[allow(deprecated)]
    pop.filter_lemma(key_is(key));
    assert(with_key(pop, key).contains(with_key(pop, key)[i]));
    pop.lemma_filter_contains_rev(key_is(key), with_key(pop, key)[i]);
}

/// Two populations sorted fittest first that hold, key by key, the same
/// individuals in the same order are equal.
proof fn lemma_sorted_same_keys_equal<S>(a: Seq<(S, u64)>, b: Seq<(S, u64)>)
    requires
        sorted_desc(a),
        sorted_desc(b),
        forall|key: u64| #[trigger] with_key(a, key) == with_key(b, key),
    ensures
        a == b,
    decreases a.len(),
{
    if a.len() == 0 || b.len() == 0 {
        if a.len() != 0 || b.len() != 0 {
            let (full, empty) = if a.len() != 0 { (a, b) } else { (b, a) };
            let x = full[0];
            assert(full =~= seq![x] + full.drop_first());
            lemma_with_key_prepend(x, full.drop_first(), x.1);
            assert(with_key(full, x.1).len() > 0);
            reveal_with_fuel(Seq::filter, 1);
            assert(with_key(empty, x.1).len() == 0);
            assert(with_key(a, x.1) == with_key(b, x.1));
        }
        assert(a =~= b);
    } else {
        let a0 = a[0];
        let b0 = b[0];
        let ra = a.drop_first();
        let rb = b.drop_first();
        assert(a =~= seq![a0] + ra);
        assert(b =~= seq![b0] + rb);
        lemma_with_key_prepend(a0, ra, a0.1);
        lemma_with_key_prepend(b0, rb, b0.1);
        // The fittest keys agree.
        assert(with_key(a, a0.1) == with_key(b, a0.1));
        assert(with_key(a, a0.1)[0] == a0);
        lemma_with_key_member(b, a0.1, 0);
        let j = choose|j: int| 0 <= j < b.len() && b[j] == with_key(b, a0.1)[0];
        assert(b[j].1 == a0.1);
        assert(b0.1 >= a0.1);
        assert(with_key(a, b0.1) == with_key(b, b0.1));
        assert(with_key(b, b0.1)[0] == b0);
        lemma_with_key_member(a, b0.1, 0);
        let k = choose|k: int| 0 <= k < a.len() && a[k] == with_key(a, b0.1)[0];
        assert(a[k].1 == b0.1);
        assert(a0.1 >= b0.1);
        assert(a0 == b0);
        assert forall|key: u64| #[trigger] with_key(ra, key) == with_key(rb, key) by {
            lemma_with_key_prepend(a0, ra, key);
            lemma_with_key_prepend(b0, rb, key);
            let head = if a0.1 == key { seq![a0] } else { Seq::<(S, u64)>::empty() };
            assert(with_key(a, key) == with_key(b, key));
            assert(with_key(ra, key) =~= (head + with_key(ra, key)).skip(head.len() as int));
            assert(with_key(rb, key) =~= (head + with_key(rb, key)).skip(head.len() as int));
        }
        assert(sorted_desc(ra)) by {
            assert forall|i: int, j: int| 0 <= i < j < ra.len() implies ra[i].1 >= ra[j].1 by {
                assert(ra[i] == a[i + 1] && ra[j] == a[j + 1]);
            }
        }
        assert(sorted_desc(rb)) by {
            assert forall|i: int, j: int| 0 <= i < j < rb.len() implies rb[i].1 >= rb[j].1 by {
                assert(rb[i] == b[i + 1] && rb[j] == b[j + 1]);
            }
        }
        lemma_sorted_same_keys_equal(ra, rb);
    }
}

/// A stable sort has one result: two stable sorts of the same population are
/// the same sequence, so `sort_by_fitness` leaves nothing undetermined.
pub proof fn law_stable_sort_unique<S>(a: Seq<(S, u64)>, b: Seq<(S, u64)>, orig: Seq<(S, u64)>)
    requires
        stable_sort_of(a, orig),
        stable_sort_of(b, orig),
    ensures
        a == b,
{
    assert forall|key: u64| #[trigger] with_key(a, key) == with_key(b, key) by {
        assert(with_key(a, key) == with_key(orig, key));
        assert(with_key(b, key) == with_key(orig, key));
    }
    lemma_sorted_same_keys_equal(a, b);
}

/// Sorts `pop` by key, fittest first; individuals of equal key keep their
/// order (a stable sort).
pub fn sort_by_fitness<S>(pop: &mut Vec<(S, u64)>)
    ensures
        stable_sort_of(final(pop)@, old(pop)@),
        final(pop)@.to_multiset() == old(pop)@.to_multiset(),
        final(pop)@.len() == old(pop)@.len(),
{
    let ghost orig = pop@;
    let mut rest: Vec<(S, u64)> = Vec::new();
    std::mem::swap(&mut rest, pop);
    assert(rest@.len() == rest.len());
    let mut sorted: Vec<(S, u64)> = Vec::new();
    let mut taken: usize = 0;
    assert(orig.subrange(0, 0) =~= sorted@);
    while rest.len() > 0
        invariant
            taken + rest@.len() == orig.len(),
            orig.len() <= usize::MAX,
            rest@ == orig.subrange(taken as int, orig.len() as int),
            sorted@.len() == taken,
            sorted_desc(sorted@),
            sorted@.to_multiset() == orig.subrange(0, taken as int).to_multiset(),
            forall|key: u64| #[trigger] with_key(sorted@, key) == with_key(orig.subrange(0, taken as int), key),
        decreases rest@.len(),
    {
        let x = rest.remove(0);
        let xk = x.1;
        let mut p: usize = 0;
        while p < sorted.len() && sorted[p].1 >= xk
            invariant
                p <= sorted@.len(),
                forall|i: int| 0 <= i < p ==> sorted@[i].1 >= xk,
            decreases sorted@.len() - p,
        {
            p = p + 1;
        }
        let ghost before = sorted@;
        proof {
            assert forall|i: int| p <= i < before.len() implies before[i].1 < xk by {
                assert(before[p as int].1 < xk);
                assert(before[p as int].1 >= before[i].1);
            }
        }
        sorted.insert(p, x);
        proof {
            let lo = before.subrange(0, p as int);
            let hi = before.subrange(p as int, before.len() as int);
            assert(before =~= lo + hi);
            assert(sorted@ =~= lo + seq![x] + hi);
            let pre = orig.subrange(0, taken as int);
            let pre1 = orig.subrange(0, taken + 1);
            assert(pre1 =~= pre + seq![x]);
            assert(pre1 =~= pre.push(x));
            assert(sorted@.to_multiset() == pre1.to_multiset()) by {
                broadcast use vstd::seq_lib::group_to_multiset_ensures;
                broadcast use vstd::multiset::group_multiset_axioms;
                lemma_multiset_commutative(lo + seq![x], hi);
                lemma_multiset_commutative(lo, seq![x]);
                lemma_multiset_commutative(lo, hi);
                assert(seq![x] =~= Seq::<(S, u64)>::empty().push(x));
                assert(Seq::<(S, u64)>::empty().to_multiset() =~= Multiset::empty());
                pre.to_multiset_ensures();
                Seq::<(S, u64)>::empty().to_multiset_ensures();
            }
            assert forall|key: u64| #[trigger] with_key(sorted@, key) == with_key(pre1, key) by {
                lemma_with_key_add(lo + seq![x], hi, key);
                lemma_with_key_add(lo, seq![x], key);
                lemma_with_key_add(lo, hi, key);
                lemma_with_key_add(pre, seq![x], key);
                lemma_with_key_single(x, key);
                if x.1 == key {
                    lemma_with_key_none(hi, key);
                    assert(with_key(hi, key) =~= Seq::<(S, u64)>::empty());
                    assert(with_key(before, key) == with_key(lo, key) + with_key(hi, key));
                    assert(with_key(lo, key) + Seq::<(S, u64)>::empty() =~= with_key(lo, key));
                    assert(with_key(lo, key) + seq![x] + Seq::<(S, u64)>::empty() =~= with_key(lo, key) + seq![x]);
                } else {
                    assert(with_key(lo, key) + Seq::<(S, u64)>::empty() =~= with_key(lo, key));
                    assert(with_key(pre, key) + Seq::<(S, u64)>::empty() =~= with_key(pre, key));
                }
            }
            assert forall|i: int, j: int| 0 <= i < j < sorted@.len() implies sorted@[i].1 >= sorted@[j].1 by {
                if j < p {
                } else if j == p {
                } else if i < p {
                    assert(sorted@[j] == before[j - 1]);
                } else if i == p {
                    assert(sorted@[j] == before[j - 1]);
                } else {
                    assert(sorted@[i] == before[i - 1]);
                    assert(sorted@[j] == before[j - 1]);
                }
            }
        }
        taken = taken + 1;
    }
    proof {
        assert(orig.subrange(0, taken as int) =~= orig);
    }
    *pop = sorted;
}

/// `w` wins the tournament among the individuals of `pop` numbered by
/// `draws`: it is the first draw whose key is the greatest among all draws.
pub open spec fn is_tournament_winner<S>(pop: Seq<(S, u64)>, draws: Seq<usize>, w: usize) -> bool {
    exists|i: int|
        #![trigger draws[i]]
        0 <= i < draws.len() && draws[i] == w
        && (forall|j: int| 0 <= j < draws.len() ==> pop[draws[j] as int].1 <= pop[w as int].1)
        && (forall|j: int| 0 <= j < i ==> pop[draws[j] as int].1 < pop[w as int].1)
}

/// The winner of a tournament among the drawn individuals `draws` of `pop`:
/// the fittest of them, the earliest drawn on a tie.
pub fn tournament_winner<S>(pop: &Vec<(S, u64)>, draws: &Vec<usize>) -> (w: usize)
    requires
        draws.len() > 0,
        forall|i: int| 0 <= i < draws.len() ==> draws[i] < pop.len(),
    ensures
        w < pop.len(),
        is_tournament_winner(pop@, draws@, w),
{
    let mut best: usize = draws[0];
    let ghost mut best_at: int = 0;
    let mut i: usize = 1;
    while i < draws.len()
        invariant
            1 <= i <= draws.len(),
            forall|j: int| 0 <= j < draws.len() ==> draws[j] < pop.len(),
            0 <= best_at < i,
            draws[best_at] == best,
            forall|j: int| 0 <= j < i ==> pop@[draws[j] as int].1 <= pop@[best as int].1,
            forall|j: int| 0 <= j < best_at ==> pop@[draws[j] as int].1 < pop@[best as int].1,
        decreases draws.len() - i,
    {
        let idx = draws[i];
        if pop[idx].1 > pop[best].1 {
            best = idx;
            proof {
                best_at = i as int;
            }
        }
        i = i + 1;
    }
    best
}

/// The number of draws a tournament of size `k` makes: `k`, and at least one.
pub open spec fn tournament_draws(k: usize) -> nat {
    if k == 0 { 1 } else { k as nat }
}

/// `w` wins a tournament of size `k` over `pop` run with the generator in
/// state `before`: `tournament_draws(k)` positions are drawn uniformly below
/// `pop.len()`, one after another, leaving the generator in state `after`,
/// and `w` is the first drawn of the greatest key.
pub open spec fn won_tournament<S>(
    pop: Seq<(S, u64)>,
    k: usize,
    before: rand::rngs::StdRng,
    w: usize,
    after: rand::rngs::StdRng,
) -> bool {
    exists|draws: Seq<usize>|
        #![trigger draws_from(before, pop.len() as usize, draws, after)]
        draws.len() == tournament_draws(k) && draws_from(before, pop.len() as usize, draws, after)
            && is_tournament_winner(pop, draws, w)
}

/// Tournament selection of size `k`: draws `k` individuals of `pop` (at
/// least one) uniformly, with replacement, from `rng`, and returns the
/// position of the winner among them.
pub fn tournament_selection<S>(rng: &mut rand::rngs::StdRng, pop: &Vec<(S, u64)>, k: usize) -> (w: usize)
    requires
        pop.len() > 0,
    ensures
        w < pop.len(),
        won_tournament(pop@, k, *old(rng), w, *final(rng)),
{
    let ghost before = *rng;
    let mut state = take_rng(rng);
    let upper = pop.len();
    let mut draws: Vec<usize> = Vec::new();
    let (d0, next) = draw_position(state, upper);
    state = next;
    draws.push(d0);
    proof {
        assert(draws@.drop_last() =~= Seq::<usize>::empty());
        assert(draws_from(before, upper, draws@.drop_last(), before));
        assert(index_drawn(before, upper, draws@.last(), state));
        assert(draws_from(before, upper, draws@, state));
    }
    let mut n: usize = 1;
    while n < k
        invariant
            upper == pop.len(),
            upper > 0,
            draws.len() == n,
            1 <= n,
            n <= tournament_draws(k),
            forall|i: int| 0 <= i < draws.len() ==> draws[i] < pop.len(),
            draws_from(before, upper, draws@, state),
        decreases k - n,
    {
        let ghost mid = state;
        let ghost prev = draws@;
        let (d, next) = draw_position(state, upper);
        state = next;
        draws.push(d);
        proof {
            assert(draws@.drop_last() =~= prev);
            assert(index_drawn(mid, upper, draws@.last(), state));
            assert(draws_from(before, upper, draws@, state));
        }
        n = n + 1;
    }
    let w = tournament_winner(pop, &draws);
    *rng = state;
    assert(draws@.len() == tournament_draws(k));
    assert(draws_from(before, pop@.len() as usize, draws@, *rng));
    w
}

/// What a tournament does: it draws `tournament_draws(k)` positions, each
/// uniformly below `pop.len()` by `draw_position`, one after another, the
/// first from the generator state `before`, each next from the state the one
/// before left, the last leaving `after`; its winner is one of the drawn
/// positions, and no drawn individual has a greater key than the winner.
pub proof fn law_tournament_picks_fittest_draw<S>(
    pop: Seq<(S, u64)>,
    k: usize,
    before: rand::rngs::StdRng,
    w: usize,
    after: rand::rngs::StdRng,
)
    requires
        won_tournament(pop, k, before, w, after),
    ensures
        exists|draws: Seq<usize>, states: Seq<rand::rngs::StdRng>|
            #![trigger draws.len(), states.len()]
            draws.len() == tournament_draws(k) && states.len() == draws.len() + 1
                && states[0] == before && states[draws.len() as int] == after
                && (forall|j: int|
                    #![trigger draws[j]]
                    0 <= j < draws.len() ==> draws[j] < pop.len()
                        && index_drawn(states[j], pop.len() as usize, draws[j], states[j + 1]))
                && draws.contains(w)
                && (forall|j: int| 0 <= j < draws.len() ==> pop[draws[j] as int].1 <= pop[w as int].1),
{
    let draws = choose|draws: Seq<usize>|
        #![trigger draws_from(before, pop.len() as usize, draws, after)]
        draws.len() == tournament_draws(k) && draws_from(before, pop.len() as usize, draws, after)
            && is_tournament_winner(pop, draws, w);
    lemma_draws_below(before, pop.len() as usize, draws, after);
    lemma_draws_states(before, pop.len() as usize, draws, after);
    let states = choose|states: Seq<rand::rngs::StdRng>|
        #![trigger states.len()]
        states.len() == draws.len() + 1 && states[0] == before
            && states[draws.len() as int] == after
            && forall|j: int|
                #![trigger draws[j]]
                0 <= j < draws.len() ==> index_drawn(states[j], pop.len() as usize, draws[j], states[j + 1]);
    let i = choose|i: int|
        #![trigger draws[i]]
        0 <= i < draws.len() && draws[i] == w
        && (forall|j: int| 0 <= j < draws.len() ==> pop[draws[j] as int].1 <= pop[w as int].1)
        && (forall|j: int| 0 <= j < i ==> pop[draws[j] as int].1 < pop[w as int].1);
    assert(draws.contains(w));
    assert(draws.len() == tournament_draws(k) && states.len() == draws.len() + 1);
}

} // verus!
