use vstd::prelude::*;

verus! {

/// rand's standard generator, seeded and drawn from through the wrappers below.
#[verifier::external_type_specification]
#[verifier::external_body]
pub struct ExStdRng(rand::rngs::StdRng);

/// The generator that rand's `SeedableRng::seed_from_u64` makes for `StdRng`
/// from `seed`: its state depends on the seed alone.
pub uninterp spec fn seeded_std_rng(seed: u64) -> rand::rngs::StdRng;

/// rand's `SeedableRng::seed_from_u64` for `StdRng`: the generator seeded
/// with `seed`, the same for the same seed.
#[verifier::external_body]
pub(crate) fn seeded_rng(seed: u64) -> (r: rand::rngs::StdRng)
    ensures
        r == seeded_std_rng(seed),
{
    <rand::rngs::StdRng as rand::SeedableRng>::seed_from_u64(seed)
}

/// rand's `Rng::gen_range(0..upper)` on `usize`: a value drawn from the
/// half-open range, so below `upper`. rand panics on an empty range, which
/// `requires` leaves out.
#[verifier::external_body]
pub(crate) fn gen_index(rng: &mut rand::rngs::StdRng, upper: usize) -> (r: usize)
    requires
        upper > 0,
    ensures
        r < upper,
{
    rand::Rng::gen_range(rng, 0..upper)
}

} // verus!

verus! {

/// One uniform draw of a position below `upper` from the generator `rng`,
/// handed back with the generator in the state the draw leaves it in.
pub fn draw_position(rng: rand::rngs::StdRng, upper: usize) -> (res: (usize, rand::rngs::StdRng))
    requires
        upper > 0,
    ensures
        res.0 < upper,
{
    let mut rng = rng;
    let d = gen_index(&mut rng, upper);
    (d, rng)
}

/// Takes the generator out of `slot`, leaving a placeholder generator there
/// until it is put back.
pub(crate) fn take_rng(slot: &mut rand::rngs::StdRng) -> (r: rand::rngs::StdRng)
    ensures
        r == *old(slot),
{
    let mut r = seeded_rng(0);
    std::mem::swap(&mut r, slot);
    r
}

/// `d` is what one draw of `draw_position` below `upper` gives from the
/// generator state `before`, and `after` the state it leaves.
pub open spec fn index_drawn(
    before: rand::rngs::StdRng,
    upper: usize,
    d: usize,
    after: rand::rngs::StdRng,
) -> bool {
    call_ensures(draw_position, (before, upper), (d, after))
}

/// `draws` are drawn below `upper`, one after another, by `draw_position`
/// from the generator state `before`, leaving the state `after`.
pub open spec fn draws_from(
    before: rand::rngs::StdRng,
    upper: usize,
    draws: Seq<usize>,
    after: rand::rngs::StdRng,
) -> bool
    decreases draws.len(),
{
    if draws.len() == 0 {
        before == after
    } else {
        exists|mid: rand::rngs::StdRng|
            draws_from(before, upper, draws.drop_last(), mid) && #[trigger] index_drawn(
                mid,
                upper,
                draws.last(),
                after,
            )
    }
}

/// Every position drawn below `upper` lies below it.
pub proof fn lemma_draws_below(
    before: rand::rngs::StdRng,
    upper: usize,
    draws: Seq<usize>,
    after: rand::rngs::StdRng,
)
    requires
        draws_from(before, upper, draws, after),
    ensures
        forall|j: int| 0 <= j < draws.len() ==> draws[j] < upper,
    decreases draws.len(),
{
    if draws.len() > 0 {
        let mid = choose|mid: rand::rngs::StdRng|
            draws_from(before, upper, draws.drop_last(), mid) && #[trigger] index_drawn(
                mid,
                upper,
                draws.last(),
                after,
            );
        lemma_draws_below(before, upper, draws.drop_last(), mid);
        assert forall|j: int| 0 <= j < draws.len() implies draws[j] < upper by {
            if j < draws.len() - 1 {
                assert(draws[j] == draws.drop_last()[j]);
            }
        }
    }
}

/// The draws of a chain, one by one: there are generator states, the first
/// `before` and the last `after`, such that draw `j` is made from state `j`
/// and leaves state `j + 1`.
pub proof fn lemma_draws_states(
    before: rand::rngs::StdRng,
    upper: usize,
    draws: Seq<usize>,
    after: rand::rngs::StdRng,
)
    requires
        draws_from(before, upper, draws, after),
    ensures
        exists|states: Seq<rand::rngs::StdRng>|
            #![trigger states.len()]
            states.len() == draws.len() + 1 && states[0] == before
                && states[draws.len() as int] == after
                && forall|j: int|
                    #![trigger draws[j]]
                    0 <= j < draws.len() ==> index_drawn(states[j], upper, draws[j], states[j + 1]),
    decreases draws.len(),
{
    if draws.len() == 0 {
        let states = seq![before];
        assert(states.len() == draws.len() + 1);
    } else {
        let mid = choose|mid: rand::rngs::StdRng|
            draws_from(before, upper, draws.drop_last(), mid) && #[trigger] index_drawn(
                mid,
                upper,
                draws.last(),
                after,
            );
        lemma_draws_states(before, upper, draws.drop_last(), mid);
        let prefix = draws.drop_last();
        let st = choose|st: Seq<rand::rngs::StdRng>|
            #![trigger st.len()]
            st.len() == prefix.len() + 1 && st[0] == before && st[prefix.len() as int] == mid
                && forall|j: int|
                    #![trigger prefix[j]]
                    0 <= j < prefix.len() ==> index_drawn(st[j], upper, prefix[j], st[j + 1]);
        let states = st.push(after);
        assert forall|j: int|
            #![trigger draws[j]]
            0 <= j < draws.len() implies index_drawn(states[j], upper, draws[j], states[j + 1]) by {
            if j < prefix.len() {
                assert(prefix[j] == draws[j]);
                assert(states[j] == st[j] && states[j + 1] == st[j + 1]);
            } else {
                assert(states[j] == mid);
            }
        }
        assert(states.len() == draws.len() + 1);
    }
}

} // verus!
