use std::collections::hash_map::DefaultHasher;
use std::hash::{Hash, Hasher};

use rand::rngs::StdRng;
use rand::{Rng, SeedableRng};
use vstd::prelude::*;
use vstd::std_specs::hash::DefaultHasherAdditionalSpecFns;

use crate::color_table::ColorTable;

verus! {

#[verifier::external_type_specification]
#[verifier::external_body]
pub struct ExStdRng(StdRng);

/// The writes that hashing a string makes to a hasher.
pub uninterp spec fn string_hash_writes(s: Seq<char>) -> Seq<Seq<u8>>;

/// Relies on `<String as std::hash::Hash>::hash`: the bytes it feeds to the
/// hasher depend on the string's characters alone.
#[verifier::external_body]
fn hash_into(seed: &String, hasher: &mut DefaultHasher)
    ensures
        final(hasher)@ == old(hasher)@ + string_hash_writes(seed@),
{
    seed.hash(hasher)
}

/// The generator that `StdRng::seed_from_u64` makes from `seed`.
pub uninterp spec fn seeded_generator(seed: u64) -> StdRng;

/// The value that `gen_range(0..n)` draws from generator state `g`.
pub uninterp spec fn drawn_below(g: StdRng, n: u8) -> u8;

/// The generator state after `gen_range(0..n)` drew from state `g`.
pub uninterp spec fn after_draw(g: StdRng, n: u8) -> StdRng;

/// Relies on `rand::SeedableRng::seed_from_u64` for `StdRng`: the
/// generator is a fixed expansion of the seed, with no other input.
#[verifier::external_body]
fn rng_from_seed(seed: u64) -> (r: StdRng)
    ensures
        r == seeded_generator(seed),
{
    StdRng::seed_from_u64(seed)
}

/// Relies on `rand::Rng::gen_range` over `0..n`: a value below `n`, which
/// with the generator's next state depends on the generator's state and `n`
/// alone. It panics on an empty range, which `n > 0` rules out.
#[verifier::external_body]
fn draw_below(rng: &mut StdRng, n: u8) -> (r: u8)
    requires
        n > 0,
    ensures
        r < n,
        r == drawn_below(*old(rng), n),
        *final(rng) == after_draw(*old(rng), n),
{
    rng.gen_range(0..n)
}

/// The `k` values below `n` drawn one after another from state `g`.
pub open spec fn ids_drawn(g: StdRng, k: nat, n: u8) -> Seq<u8>
    decreases k,
{
    if k == 0 {
        Seq::empty()
    } else {
        seq![drawn_below(g, n)] + ids_drawn(after_draw(g, n), (k - 1) as nat, n)
    }
}

/// The state of a generator in state `g` after `k` draws below `n`.
pub open spec fn state_after_draws(g: StdRng, k: nat, n: u8) -> StdRng
    decreases k,
{
    if k == 0 {
        g
    } else {
        state_after_draws(after_draw(g, n), (k - 1) as nat, n)
    }
}

/// The number that seeds the generator of a spawn: the hash of the seed
/// string.
pub fn seed_value(seed: &String) -> (r: u64)
    ensures
        r == DefaultHasher::spec_finish(string_hash_writes(seed@)),
{
    let mut hasher = DefaultHasher::new();
    hash_into(seed, &mut hasher);
    assert(hasher@ == string_hash_writes(seed@));
    hasher.finish()
}

/// The generator of a spawn, seeded from the hash of the seed string.
pub fn seeded_rng(seed: &String) -> (r: StdRng)
    ensures
        r == seeded_generator(DefaultHasher::spec_finish(string_hash_writes(seed@))),
{
    let value = seed_value(seed);
    rng_from_seed(value)
}

/// `count` colour ids drawn from `rng` one after another, each below the
/// palette's size.
pub fn new_color_ids<C, T: Copy>(rng: &mut StdRng, count: usize, color_table: &ColorTable<C, T>) -> (r: Vec<u8>)
    requires
        1 <= color_table.count() <= 255,
    ensures
        r@ == ids_drawn(*old(rng), count as nat, color_table.count() as u8),
        *final(rng) == state_after_draws(*old(rng), count as nat, color_table.count() as u8),
        r@.len() == count,
        forall|i: int| 0 <= i < count ==> (#[trigger] r@[i]) < color_table.count(),
{
    let colors = color_table.color_count() as u8;
    let mut ids: Vec<u8> = Vec::new();
    let mut i: usize = 0;
    while i < count
        invariant
            i <= count,
            colors as int == color_table.count(),
            colors > 0,
            ids@.len() == i,
            forall|j: int| 0 <= j < i ==> (#[trigger] ids@[j]) < colors,
            ids@ + ids_drawn(*rng, (count - i) as nat, colors) == ids_drawn(*old(rng), count as nat, colors),
            state_after_draws(*rng, (count - i) as nat, colors) == state_after_draws(
                *old(rng),
                count as nat,
                colors,
            ),
        decreases count - i,
    {
        let ghost before = *rng;
        let ghost prev = ids@;
        let id = draw_below(rng, colors);
        ids.push(id);
        assert(ids_drawn(before, (count - i) as nat, colors) == seq![id] + ids_drawn(
            *rng,
            (count - i - 1) as nat,
            colors,
        ));
        assert(ids@ + ids_drawn(*rng, (count - i - 1) as nat, colors) =~= prev + ids_drawn(
            before,
            (count - i) as nat,
            colors,
        ));
        i += 1;
    }
    assert(ids@ + ids_drawn(*rng, 0, colors) =~= ids@);
    ids
}

/// Spawns from the same seed string draw the same colour ids and leave the
/// generator in the same state: the generator is fixed by the string's hash,
/// and each draw by the generator's state.
pub proof fn lemma_same_seed_same_ids(s1: Seq<char>, s2: Seq<char>, count: nat, n: u8)
    requires
        s1 == s2,
    ensures
        ids_drawn(seeded_generator(DefaultHasher::spec_finish(string_hash_writes(s1))), count, n) == ids_drawn(
            seeded_generator(DefaultHasher::spec_finish(string_hash_writes(s2))),
            count,
            n,
        ),
        state_after_draws(seeded_generator(DefaultHasher::spec_finish(string_hash_writes(s1))), count, n)
            == state_after_draws(seeded_generator(DefaultHasher::spec_finish(string_hash_writes(s2))), count, n),
{
}

/// The id that a particle of colour `id` takes in a palette of `count`
/// colours: its own where it is valid, else the last valid one.
pub open spec fn clamped_id(id: u8, count: nat) -> u8 {
    if id < count {
        id
    } else {
        (count - 1) as u8
    }
}

/// Moves every colour id past the palette onto its last colour, leaving the
/// others as they are.
pub fn clamp_particle_colors<C, T: Copy>(color_ids: &mut Vec<u8>, color_table: &ColorTable<C, T>)
    requires
        color_table.count() >= 1,
    ensures
        final(color_ids)@.len() == old(color_ids)@.len(),
        forall|i: int|
            0 <= i < old(color_ids)@.len() ==> #[trigger] final(color_ids)@[i] == clamped_id(
                old(color_ids)@[i],
                color_table.count(),
            ),
{
    let count = color_table.color_count();
    let n = color_ids.len();
    let mut i: usize = 0;
    while i < n
        invariant
            i <= n,
            n == old(color_ids)@.len(),
            color_ids@.len() == n,
            count == color_table.count(),
            count >= 1,
            forall|j: int| 0 <= j < i ==> #[trigger] color_ids@[j] == clamped_id(old(color_ids)@[j], count as nat),
            forall|j: int| i <= j < n ==> #[trigger] color_ids@[j] == old(color_ids)@[j],
        decreases n - i,
    {
        let id = color_ids[i];
        if id as usize >= count {
            color_ids[i] = (count - 1) as u8;
        }
        i += 1;
    }
}

} // verus!
