use vstd::prelude::*;
use crate::rng::gen_index;

verus! {

/// The cross-section family of a bridge deck.
#[derive(Clone, Copy, Debug, PartialEq, Eq, Structural)]
pub enum DeckShapeType {
    Flat,
    Streamlined,
    Box,
    Slotted,
}

/// The deck families in the order in which a random draw numbers them.
pub open spec fn deck_shape_types() -> Seq<DeckShapeType> {
    seq![DeckShapeType::Flat, DeckShapeType::Streamlined, DeckShapeType::Box, DeckShapeType::Slotted]
}

/// The deck family numbered `i` (0 to 3) in the order Flat, Streamlined,
/// Box, Slotted.
pub fn deck_shape_type_from_index(i: usize) -> (t: DeckShapeType)
    requires
        i < 4,
    ensures
        t == deck_shape_types()[i as int],
{
    let types = [
        DeckShapeType::Flat,
        DeckShapeType::Streamlined,
        DeckShapeType::Box,
        DeckShapeType::Slotted,
    ];
    types[i]
}

/// A deck family drawn uniformly from the four by one draw of `rng`.
pub fn random_deck_shape_type(rng: &mut rand::rngs::StdRng) -> (t: DeckShapeType)
    ensures
        deck_shape_types().contains(t),
{
    let i = gen_index(rng, 4);
    let t = deck_shape_type_from_index(i);
    assert(deck_shape_types()[i as int] == t);
    t
}

/// The number of stabilizer plates may range from none to four.
pub const MAX_PLATE_COUNT: i32 = 4;

/// A stabilizer plate count, from none to `MAX_PLATE_COUNT`, drawn uniformly
/// by one draw of `rng`.
pub fn random_plate_count(rng: &mut rand::rngs::StdRng) -> (count: usize)
    ensures
        count <= MAX_PLATE_COUNT,
{
    gen_index(rng, (MAX_PLATE_COUNT + 1) as usize)
}

/// `x` held to the range `[lo, hi]`.
pub open spec fn clamp(x: int, lo: int, hi: int) -> int {
    if x < lo { lo } else if x > hi { hi } else { x }
}

/// A stabilizer plate count after a mutation step of `delta` plates: the
/// count, taken as an `i32`, moved by `delta` and held to `0..=4`.
pub fn mutate_plate_count(count: usize, delta: i32) -> (res: usize)
    requires
        i32::MIN <= (count as i32) + delta <= i32::MAX,
    ensures
        res as int == clamp((count as i32) + delta, 0, MAX_PLATE_COUNT as int),
        res <= 4,
{
    let moved: i32 = count as i32 + delta;
    let low: i32 = if moved < 0 { 0 } else { moved };
    let held: i32 = if low > MAX_PLATE_COUNT { MAX_PLATE_COUNT } else { low };
    held as usize
}

} // verus!
