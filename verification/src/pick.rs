//! Seeded choices.

use rand::rngs::StdRng;
use rand::seq::SliceRandom;
use rand::SeedableRng;
use vstd::arithmetic::div_mod;
use vstd::prelude::*;

verus! {

#[verifier::external_type_specification]
#[verifier::external_body]
pub struct ExStdRng(StdRng);

/// The generator that `StdRng::seed_from_u64` makes of `seed`.
pub uninterp spec fn seeded(seed: u64) -> StdRng;

/// Where in a list of `len` items `SliceRandom::choose` picks with the generator
/// `rng`, and the generator after it.
pub uninterp spec fn drawn(rng: StdRng, len: nat) -> (int, StdRng);

/// The position that is picked in a list of `len` items: the one drawn, which is in the
/// list, and so is its remainder by the length.
pub open spec fn position(rng: StdRng, len: nat) -> int {
    drawn(rng, len).0 % (len as int)
}

/// The item of `items` that is picked with `rng`, if there is any.
pub open spec fn pick_of<T>(items: Seq<T>, rng: StdRng) -> Option<T> {
    if items.len() == 0 {
        None
    } else {
        Some(items[position(rng, items.len())])
    }
}

/// The generator after a pick among `len` items: as it was where there are none.
pub open spec fn rng_after(rng: StdRng, len: nat) -> StdRng {
    if len == 0 {
        rng
    } else {
        drawn(rng, len).1
    }
}

/// The position drawn is in the list.
pub open spec fn in_list(rng: StdRng, len: nat) -> bool {
    len > 0 ==> 0 <= drawn(rng, len).0 < len
}

/// What is picked is among the items, and something is where there are any.
pub proof fn law_pick_is_among<T>(items: Seq<T>, rng: StdRng)
    ensures
        match pick_of(items, rng) {
            Some(item) => items.contains(item),
            None => items.len() == 0,
        },
{
    if items.len() > 0 {
        let i = position(rng, items.len());
        assert(0 <= i < items.len()) by {
            div_mod::lemma_mod_bound(drawn(rng, items.len()).0, items.len() as int);
        }
        assert(items.contains(items[i]));
    }
}

/// A position in the list is its own remainder by the length.
pub(crate) proof fn lemma_position(rng: StdRng, len: nat)
    requires
        len > 0,
        in_list(rng, len),
    ensures
        position(rng, len) == drawn(rng, len).0,
{
    div_mod::lemma_small_mod(drawn(rng, len).0 as nat, len);
}

/// A generator seeded with `rand`'s `StdRng::seed_from_u64`.
///
/// Trusted: it depends on `seed` alone. Which values it leads to is left unsaid.
#[verifier::external_body]
pub(crate) fn seeded_rng(seed: u64) -> (r: StdRng)
    ensures
        r == seeded(seed),
{
    StdRng::seed_from_u64(seed)
}

/// One of `items`, picked with `rand`'s `SliceRandom::choose`.
///
/// Trusted: where it picks depends on the generator and the number of items alone,
/// and is among them; nothing is picked, and nothing drawn, where there is none.
/// Which position it is is left unsaid.
#[verifier::external_body]
pub(crate) fn pick_one<'a, T>(items: &'a [T], rng: &mut StdRng) -> (r: Option<&'a T>)
    ensures
        match r {
            Some(item) => items@.len() > 0 && 0 <= drawn(*old(rng), items@.len()).0
                < items@.len() && *item == items@[drawn(*old(rng), items@.len()).0],
            None => items@.len() == 0,
        },
        *final(rng) == rng_after(*old(rng), items@.len()),
{
    items.choose(rng)
}

} // verus!
