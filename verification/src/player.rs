//! One seat at the table: its live hand and who plays it.

use rand::seq::SliceRandom;
use vstd::prelude::*;

use crate::Card;

verus! {

/// One seat's state: the live hand, shrinking as cards are played, and
/// whether a human chooses its plays.
#[derive(Clone)]
pub struct Player {
    pub hand: Vec<Card>,
    pub human: bool,
}

impl Player {
    pub fn new(human: bool) -> (p: Self)
        ensures
            p.hand@.len() == 0,
            p.human == human,
    {
        Self { hand: Vec::new(), human }
    }

    /// Play a card drawn at random among the allowed hand positions, removing
    /// it from the hand.
    pub fn play_random_card(&mut self, allowed: &[usize]) -> (c: Card)
        requires
            allowed@.len() > 0,
            forall|k: int| 0 <= k < allowed@.len() ==> allowed@[k] < old(self).hand@.len(),
        ensures
            exists|k: int|
                0 <= k < allowed@.len() && c == old(self).hand@[allowed@[k] as int] && #[trigger] (
                allowed@[k]) >= 0 && final(self).hand@ == old(self).hand@.remove(
                    allowed@[k] as int,
                ),
            final(self).human == old(self).human,
            final(self).hand@.len() == old(self).hand@.len() - 1,
    {
        let idx = pick_index(allowed);
        let ghost k = choose|k: int| 0 <= k < allowed@.len() && allowed@[k] == idx;
        let c = self.hand.remove(idx);
        proof {
            assert(0 <= k < allowed@.len() && c == old(self).hand@[allowed@[k] as int] && self.hand@
                == old(self).hand@.remove(allowed@[k] as int));
        }
        c
    }
}

/// Pick one element of a non-empty list at random.
///
/// Relies on rand's `SliceRandom::choose`: on a non-empty slice it returns
/// `Some` of an element of the slice, so the result is one of the listed
/// values whatever the draw.
#[verifier::external_body]
fn pick_index(allowed: &[usize]) -> (i: usize)
    requires
        allowed@.len() > 0,
    ensures
        allowed@.contains(i),
{
    *allowed.choose(&mut rand::thread_rng()).unwrap()
}

} // verus!
