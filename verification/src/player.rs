//! Per-seat player state, and the showdown selection of the best five-card
//! hand from hole cards and board.

use vstd::prelude::*;
use crate::card::CardC;
use crate::hand::{all_valid, insert_pos, sorted_by_value, HandC};
use crate::strength::{
    cmp_value, lemma_cmp_antisymmetric, lemma_cmp_total, lemma_cmp_transitive, strength, winner,
};

verus! {

/// Per-seat mutable state: stake, hole cards, bets and lifecycle flags.
#[derive(Debug)]
pub struct Player {
    pub id: u8,
    pub credits: u64,
    pub hand: HandC,
    pub hand_value: Vec<u8>,
    pub bet: u64,
    pub total_bet: u64,
    pub in_hand: bool,
    pub in_all_in: bool,
    pub initial_credit: u64,
}

/// The merge of two card sequences: each card of `b`, in order, inserted
/// into `a` at its rank-sorted position.
pub open spec fn merge_cards(a: Seq<CardC>, b: Seq<CardC>) -> Seq<CardC>
    decreases b.len(),
{
    if b.len() == 0 {
        a
    } else {
        merge_cards(a.insert(insert_pos(a, b[0]), b[0]), b.drop_first())
    }
}

/// The five cards left when the cards at indices `i` and `j` are excluded.
pub open spec fn remove2(s: Seq<CardC>, i: int, j: int) -> Seq<CardC> {
    s.remove(j).remove(i)
}

/// The best hand over the pairs of excluded indices scanned up to `(i, j)`
/// in lexicographic order; the earliest pair attaining the maximum wins.
pub open spec fn best_upto(s: Seq<CardC>, i: int, j: int) -> Seq<CardC>
    decreases 7 * i + j,
{
    let cand = remove2(s, i, j);
    if i == 0 && j == 1 {
        cand
    } else if 0 <= i && 1 <= j {
        let pi = if j > i + 1 {
            i
        } else {
            i - 1
        };
        let pj = if j > i + 1 {
            j - 1
        } else {
            6
        };
        let b = best_upto(s, pi, pj);
        if cmp_value(strength(cand), strength(b)) == 1 {
            cand
        } else {
            b
        }
    } else {
        cand
    }
}

/// The best five-card hand choosable from seven cards, excluding every
/// pair of indices in turn.
pub open spec fn best_hand_spec(s: Seq<CardC>) -> Seq<CardC> {
    best_upto(s, 5, 6)
}

/// Pair `(pi, pj)` is scanned no later than `(i, j)`.
pub open spec fn pair_le(pi: int, pj: int, i: int, j: int) -> bool {
    pi < i || (pi == i && pj <= j)
}

/// Excluding two indices of a sorted, valid sequence leaves a sorted,
/// valid sequence.
pub proof fn lemma_remove2_sorted_valid(s: Seq<CardC>, i: int, j: int)
    requires
        0 <= i < j < s.len(),
        sorted_by_value(s),
        all_valid(s),
    ensures
        sorted_by_value(remove2(s, i, j)),
        all_valid(remove2(s, i, j)),
        remove2(s, i, j).len() == s.len() - 2,
{
    let t = remove2(s, i, j);
    assert(forall|m: int| 0 <= m < t.len() ==> #[trigger] t[m] == s[
        if m < i {
            m
        } else if m < j - 1 {
            m + 1
        } else {
            m + 2
        }
    ]);
}

proof fn lemma_best_upto_candidate(s: Seq<CardC>, i: int, j: int)
    requires
        0 <= i < j <= 6,
    ensures
        exists|pi: int, pj: int|
            0 <= pi < pj <= 6 && pair_le(pi, pj, i, j) && best_upto(s, i, j) == remove2(s, pi, pj),
    decreases 7 * i + j,
{
    if i == 0 && j == 1 {
        assert(0 <= 0 < 1 <= 6 && pair_le(0, 1, i, j) && best_upto(s, i, j) == remove2(s, 0, 1));
    } else {
        let qi = if j > i + 1 {
            i
        } else {
            i - 1
        };
        let qj = if j > i + 1 {
            j - 1
        } else {
            6
        };
        lemma_best_upto_candidate(s, qi, qj);
        let cand = remove2(s, i, j);
        let b = best_upto(s, qi, qj);
        if cmp_value(strength(cand), strength(b)) == 1 {
            assert(0 <= i < j <= 6 && pair_le(i, j, i, j) && best_upto(s, i, j) == remove2(
                s,
                i,
                j,
            ));
        } else {
            let (pi, pj) = choose|pi: int, pj: int|
                0 <= pi < pj <= 6 && pair_le(pi, pj, qi, qj) && b == remove2(s, pi, pj);
            assert(0 <= pi < pj <= 6 && pair_le(pi, pj, i, j) && best_upto(s, i, j) == remove2(
                s,
                pi,
                pj,
            ));
        }
    }
}

proof fn lemma_best_upto_maximal(s: Seq<CardC>, i: int, j: int, pi: int, pj: int)
    requires
        0 <= i < j <= 6,
        0 <= pi < pj <= 6,
        pair_le(pi, pj, i, j),
    ensures
        cmp_value(strength(remove2(s, pi, pj)), strength(best_upto(s, i, j))) != 1,
    decreases 7 * i + j,
{
    let cand = remove2(s, i, j);
    let ph = strength(remove2(s, pi, pj));
    if i == 0 && j == 1 {
        lemma_cmp_total(ph, strength(cand));
    } else {
        let qi = if j > i + 1 {
            i
        } else {
            i - 1
        };
        let qj = if j > i + 1 {
            j - 1
        } else {
            6
        };
        let b = best_upto(s, qi, qj);
        if pi == i && pj == j {
            if cmp_value(strength(cand), strength(b)) == 1 {
                lemma_cmp_total(ph, strength(cand));
            }
        } else {
            lemma_best_upto_maximal(s, qi, qj, pi, pj);
            if cmp_value(strength(cand), strength(b)) == 1 {
                if cmp_value(ph, strength(cand)) == 1 {
                    lemma_cmp_transitive(ph, strength(cand), strength(b));
                    lemma_cmp_total(ph, strength(b));
                    lemma_cmp_antisymmetric(strength(cand), strength(b));
                    assert(false);
                }
            }
        }
    }
}

/// The selected hand is one of the five-card subsets of the seven cards.
pub proof fn lemma_best_hand_is_subset(s: Seq<CardC>)
    ensures
        exists|i: int, j: int| 0 <= i < j <= 6 && best_hand_spec(s) == remove2(s, i, j),
{
    lemma_best_upto_candidate(s, 5, 6);
    let (pi, pj) = choose|pi: int, pj: int|
        0 <= pi < pj <= 6 && pair_le(pi, pj, 5, 6) && best_upto(s, 5, 6) == remove2(s, pi, pj);
    assert(0 <= pi < pj <= 6 && best_hand_spec(s) == remove2(s, pi, pj));
}

/// No five-card subset of the seven cards is stronger than the selected
/// hand: selection retains the maximum by the strength-vector comparison.
pub proof fn lemma_best_hand_maximal(s: Seq<CardC>, i: int, j: int)
    requires
        0 <= i < j <= 6,
    ensures
        cmp_value(strength(remove2(s, i, j)), strength(best_hand_spec(s))) != 1,
{
    lemma_best_upto_maximal(s, 5, 6, i, j);
}

/// Re-running selection over the same seven cards yields the same
/// five-card hand and the same strength vector.
pub proof fn lemma_selection_idempotent(s1: Seq<CardC>, s2: Seq<CardC>)
    requires
        s1 == s2,
    ensures
        best_hand_spec(s1) == best_hand_spec(s2),
        strength(best_hand_spec(s1)) == strength(best_hand_spec(s2)),
{
}

/// The five cards left when the cards at `i` and `j` are dropped.
#[verifier::loop_isolation(false)]
fn drop_two(cards: &Vec<CardC>, i: usize, j: usize) -> (r: Vec<CardC>)
    requires
        i < j,
        (j as int) < cards@.len(),
    ensures
        r@ == remove2(cards@, i as int, j as int),
{
    let ghost s = cards@;
    let mut r: Vec<CardC> = Vec::new();
    let mut k: usize = 0;
    while k < cards.len()
        invariant
            0 <= k <= s.len(),
            r@.len() == k - (if k > i {
                1int
            } else {
                0int
            }) - (if k > j {
                1int
            } else {
                0int
            }),
            forall|m: int| 0 <= m < r@.len() ==> #[trigger] r@[m] == s[
                if m < i {
                    m
                } else if m < j - 1 {
                    m + 1
                } else {
                    m + 2
                }
            ],
        decreases s.len() - k,
    {
        if k != i && k != j {
            r.push(cards[k]);
        }
        k = k + 1;
    }
    proof {
        let t = remove2(s, i as int, j as int);
        assert(forall|m: int| 0 <= m < t.len() ==> #[trigger] t[m] == s[
            if m < i {
                m
            } else if m < j - 1 {
                m + 1
            } else {
                m + 2
            }
        ]);
        assert(r@ =~= t);
    }
    r
}

impl Player {
    pub fn new(id: u8, credits: u64) -> (p: Player)
        ensures
            p.id == id,
            p.credits == credits,
            p.hand@ =~= Seq::<CardC>::empty(),
            p.hand_value@ =~= Seq::<u8>::empty(),
            p.bet == 0,
            p.total_bet == 0,
            p.in_hand,
            !p.in_all_in,
            p.initial_credit == credits,
    {
        Player {
            id,
            credits,
            hand: HandC::new(),
            hand_value: Vec::new(),
            bet: 0,
            total_bet: 0,
            in_hand: true,
            in_all_in: false,
            initial_credit: credits,
        }
    }

    /// Clear the per-round state; in infinite-credit mode also restore the
    /// stake to its initial value.
    pub fn reset(&mut self, pay_back_credit: bool)
        ensures
            final(self).id == old(self).id,
            final(self).credits == if pay_back_credit {
                old(self).initial_credit
            } else {
                old(self).credits
            },
            final(self).hand@ =~= Seq::<CardC>::empty(),
            final(self).hand_value@ =~= Seq::<u8>::empty(),
            final(self).bet == 0,
            final(self).total_bet == 0,
            final(self).in_hand,
            !final(self).in_all_in,
            final(self).initial_credit == old(self).initial_credit,
    {
        self.hand = HandC::new();
        self.hand_value = Vec::new();
        self.bet = 0;
        self.total_bet = 0;
        self.in_hand = true;
        self.in_all_in = false;
        if pay_back_credit {
            self.credits = self.initial_credit;
        }
    }

    /// A copy of the player; as a fresh record, its initial stake is the
    /// current one.
    pub fn clone_player(&self) -> (p: Player)
        ensures
            p.id == self.id,
            p.credits == self.credits,
            p.hand@ == self.hand@,
            p.hand_value@ == self.hand_value@,
            p.bet == self.bet,
            p.total_bet == self.total_bet,
            p.in_hand == self.in_hand,
            p.in_all_in == self.in_all_in,
            p.initial_credit == self.credits,
    {
        let mut player = Player::new(self.id, self.credits);
        player.hand = self.hand.clone_hand();
        player.hand_value = self.hand_value.clone();
        player.bet = self.bet;
        player.total_bet = self.total_bet;
        player.in_hand = self.in_hand;
        player.in_all_in = self.in_all_in;
        proof {
            assert(player.hand_value@ =~= self.hand_value@);
        }
        player
    }

    /// Replace the player's hand by the strongest five-card subset of
    /// their two hole cards and the five community cards. A full board is
    /// required: the table deals every outstanding community card before
    /// any showdown, so selection always sees seven cards.
    #[verifier::loop_isolation(false)]
    pub fn set_winner_combination(&mut self, community_hand: &HandC)
        requires
            old(self).hand.wf(),
            all_valid(old(self).hand@),
            old(self).hand@.len() == 2,
            community_hand.wf(),
            all_valid(community_hand@),
            community_hand@.len() == 5,
        ensures
            final(self).hand@ == best_hand_spec(
                merge_cards(old(self).hand@, community_hand@),
            ),
            final(self).hand.wf(),
            all_valid(final(self).hand@),
            final(self).hand@.len() == 5,
            final(self).id == old(self).id,
            final(self).credits == old(self).credits,
            final(self).hand_value@ == old(self).hand_value@,
            final(self).bet == old(self).bet,
            final(self).total_bet == old(self).total_bet,
            final(self).in_hand == old(self).in_hand,
            final(self).in_all_in == old(self).in_all_in,
            final(self).initial_credit == old(self).initial_credit,
    {
        let ghost hole0 = self.hand@;
        let ghost comm = community_hand@;
        let mut comb = self.hand.clone_hand();
        let mut i: usize = 0;
        proof {
            assert(comm.skip(0) =~= comm);
        }
        while i < community_hand.cards.len()
            invariant
                0 <= i <= 5,
                comb.wf(),
                all_valid(comb@),
                comb@.len() == 2 + i,
                merge_cards(comb@, comm.skip(i as int)) == merge_cards(hole0, comm),
            decreases 5 - i,
        {
            let c = community_hand.cards[i];
            proof {
                assert(comm.skip(i as int)[0] == comm[i as int]);
                assert(comm.skip(i as int).drop_first() =~= comm.skip(i + 1));
                assert(comm[i as int].valid());
            }
            comb.set_card(c);
            i = i + 1;
        }
        proof {
            assert(comm.skip(5) =~= Seq::<CardC>::empty());
        }
        let ghost full = comb@;
        let cand0 = drop_two(&comb.cards, 0, 1);
        proof {
            lemma_remove2_sorted_valid(full, 0, 1);
        }
        let mut best = HandC { cards: cand0 };
        let mut best_val = best.get_value();
        let mut bi: usize = 0;
        let mut bj: usize = 1;
        while !(bi == 5 && bj == 6)
            invariant
                0 <= bi < bj <= 6,
                comb@ == full,
                full.len() == 7,
                sorted_by_value(full),
                all_valid(full),
                best@ == best_upto(full, bi as int, bj as int),
                best_val@ == strength(best@),
                best.wf(),
                all_valid(best@),
                best@.len() == 5,
            decreases 7 * (5 - bi) + 6 - bj,
        {
            let ni: usize;
            let nj: usize;
            if bj < 6 {
                ni = bi;
                nj = bj + 1;
            } else {
                ni = bi + 1;
                nj = bi + 2;
            }
            let cand = drop_two(&comb.cards, ni, nj);
            proof {
                lemma_remove2_sorted_valid(full, ni as int, nj as int);
            }
            let ch = HandC { cards: cand };
            let cv = ch.get_value();
            let w = winner(&cv, &best_val);
            if w == 1 {
                best = ch;
                best_val = cv;
            }
            bi = ni;
            bj = nj;
        }
        self.hand = best;
    }
}

} // verus!
