//! The deck: the undealt cards of a round, drawn without replacement.

use vstd::prelude::*;
use rand::Rng;
use crate::card::CardC;
use crate::hand::all_valid;

verus! {

/// No two cards name the same rank and suit.
pub open spec fn all_distinct(s: Seq<CardC>) -> bool {
    forall|i: int, j: int| 0 <= i < j < s.len() ==> #[trigger] s[i] != #[trigger] s[j]
}

/// The bag of undealt cards; strictly shrinks as cards are drawn.
#[derive(Debug)]
pub struct DeckC {
    cards: Vec<CardC>,
}

/// Relies on `rand::thread_rng` and `rand::Rng::gen_range`: `gen_range(0..n)`
/// returns a uniformly random value of that range and panics only when the
/// range is empty.
#[verifier::external_body]
fn random_index_below(n: usize) -> (r: usize)
    requires
        n > 0,
    ensures
        r < n,
{
    rand::thread_rng().gen_range(0..n)
}

impl View for DeckC {
    type V = Seq<CardC>;

    closed spec fn view(&self) -> Seq<CardC> {
        self.cards@
    }
}

impl DeckC {
    /// A deck holds valid cards only, and no card twice: no card can be
    /// drawn twice in one round.
    pub open spec fn wf(self) -> bool {
        all_valid(self@) && all_distinct(self@)
    }

    /// A fresh deck: all 52 distinct rank-and-suit pairs.
    #[verifier::loop_isolation(false)]
    pub fn new() -> (d: DeckC)
        ensures
            d.wf(),
            d@.len() == 52,
            forall|c: CardC| c.valid() ==> d@.contains(c),
    {
        let mut c: Vec<CardC> = Vec::new();
        let mut i: u8 = 2;
        while i <= 14
            invariant
                2 <= i <= 15,
                c@.len() == 4 * (i - 2),
                forall|k: int| 0 <= k < c@.len() ==> (#[trigger] c@[k]).value == 2 + k / 4
                    && c@[k].figure == k % 4,
            decreases 15 - i,
        {
            c.push(CardC::new(i, 0));
            c.push(CardC::new(i, 1));
            c.push(CardC::new(i, 2));
            c.push(CardC::new(i, 3));
            i = i + 1;
        }
        proof {
            assert forall|cd: CardC| cd.valid() implies c@.contains(cd) by {
                let k = (cd.value - 2) * 4 + cd.figure;
                assert(c@[k] == cd);
            }
        }
        DeckC { cards: c }
    }

    /// Remove and return one uniformly random remaining card; `None` when
    /// the deck is exhausted.
    pub fn get_card(&mut self) -> (r: Option<CardC>)
        ensures
            old(self)@.len() == 0 ==> r is None && final(self)@ == old(self)@,
            old(self)@.len() > 0 ==> match r {
                Option::Some(c) => exists|k: int|
                    0 <= k < old(self)@.len() && c == old(self)@[k] && final(self)@ == old(
                        self,
                    )@.remove(k),
                Option::None => false,
            },
            old(self).wf() ==> final(self).wf(),
            old(self).wf() && old(self)@.len() > 0 ==> (r matches Option::Some(c) && c.valid()),
            forall|x: CardC| final(self)@.contains(x) ==> old(self)@.contains(x),
            old(self).wf() ==> (r matches Option::Some(c) ==> !final(self)@.contains(c)),
            final(self)@.len() == if old(self)@.len() == 0 {
                0int
            } else {
                old(self)@.len() - 1
            },
    {
        if self.cards.len() == 0 {
            return Option::None;
        }
        let ghost s0 = self@;
        let k = random_index_below(self.cards.len());
        let c = self.cards.remove(k);
        proof {
            assert(forall|i: int| 0 <= i < k ==> #[trigger] self@[i] == s0[i]);
            assert(forall|i: int| k <= i < self@.len() ==> #[trigger] self@[i] == s0[i + 1]);
            if s0.len() > 0 && all_valid(s0) && all_distinct(s0) {
                assert(all_valid(self@));
                assert(all_distinct(self@));
            }
            assert forall|x: CardC| self@.contains(x) implies s0.contains(x) by {
                let i = choose|i: int| 0 <= i < self@.len() && self@[i] == x;
                if i < k {
                    assert(s0[i] == x);
                } else {
                    assert(s0[i + 1] == x);
                }
            }
            if all_distinct(s0) {
                assert forall|i: int| 0 <= i < self@.len() implies #[trigger] self@[i] != c by {
                    assert(c == s0[k as int]);
                }
            }
        }
        Option::Some(c)
    }
}

} // verus!
