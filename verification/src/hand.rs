//! Hands: ordered collections of cards, kept sorted ascending by rank, with
//! the five-card ranking algorithm.

use vstd::prelude::*;
use vstd::string::StringExecFns;
use crate::card::{card_chars, CardC};
use crate::strength::{
    is_consecutive, is_flush, is_royal, is_wheel,
    count_rank, lemma_count_rank_bounds, lemma_rank_partition, lemma_total_count_all,
    pairs_of, quads_of, ranks_with_count, singles_of, strength, triples_of,
};

verus! {

/// Cards in ascending rank order.
pub open spec fn sorted_by_value(s: Seq<CardC>) -> bool {
    forall|i: int, j: int| 0 <= i <= j < s.len() ==> #[trigger] s[i].value <= #[trigger] s[j].value
}

/// Every card lies in the playing range.
pub open spec fn all_valid(s: Seq<CardC>) -> bool {
    forall|i: int| 0 <= i < s.len() ==> (#[trigger] s[i]).valid()
}

/// Where a card goes when inserted into a rank-sorted sequence: before the
/// first card of strictly greater rank.
pub open spec fn insert_pos(s: Seq<CardC>, c: CardC) -> int
    decreases s.len(),
{
    if s.len() == 0 {
        0
    } else if c.value < s[0].value {
        0
    } else {
        1 + insert_pos(s.drop_first(), c)
    }
}

/// An ordered collection of cards, sorted ascending by rank. Used for the
/// community board and for each player's hole cards.
#[derive(Debug)]
pub struct HandC {
    pub cards: Vec<CardC>,
}

impl View for HandC {
    type V = Seq<CardC>;

    open spec fn view(&self) -> Seq<CardC> {
        self.cards@
    }
}

proof fn lemma_insert_pos_range(s: Seq<CardC>, c: CardC)
    ensures
        0 <= insert_pos(s, c) <= s.len(),
    decreases s.len(),
{
    if s.len() > 0 && !(c.value < s[0].value) {
        lemma_insert_pos_range(s.drop_first(), c);
    }
}

proof fn lemma_insert_pos_sorted(s: Seq<CardC>, c: CardC)
    requires
        sorted_by_value(s),
    ensures
        0 <= insert_pos(s, c) <= s.len(),
        sorted_by_value(s.insert(insert_pos(s, c), c)),
    decreases s.len(),
{
    lemma_insert_pos_range(s, c);
    let p = insert_pos(s, c);
    let t = s.insert(p, c);
    if s.len() == 0 || c.value < s[0].value {
        assert(forall|j: int| 1 <= j < t.len() ==> #[trigger] t[j] == s[j - 1]);
        assert(t[0] == c);
    } else {
        let s1 = s.drop_first();
        assert(forall|i: int| 0 <= i < s1.len() ==> #[trigger] s1[i] == s[i + 1]);
        lemma_insert_pos_sorted(s1, c);
        let t1 = s1.insert(p - 1, c);
        assert(forall|j: int| 1 <= j < t.len() ==> #[trigger] t[j] == t1[j - 1]);
        assert(t[0] == s[0]);
        assert(forall|i: int, j: int| 0 <= i <= j < t.len() && 1 <= i ==> #[trigger] t[i].value
            <= #[trigger] t[j].value);
        assert(forall|j: int| 1 <= j < t.len() ==> t[0].value <= #[trigger] t[j].value) by {
            assert(forall|i: int| 0 <= i < t1.len() ==> t1[0].value <= #[trigger] t1[i].value);
            assert(t1[0].value == if p - 1 == 0 {
                c.value
            } else {
                s1[0].value
            });
            assert(s[0].value <= c.value);
            assert(s.len() > 1 ==> s[0].value <= s1[0].value);
        }
    }
}

proof fn lemma_insert_all_valid(s: Seq<CardC>, c: CardC, p: int)
    requires
        0 <= p <= s.len(),
    ensures
        all_valid(s) && c.valid() ==> all_valid(s.insert(p, c)),
{
    if all_valid(s) && c.valid() {
        let t = s.insert(p, c);
        assert(forall|k: int| 0 <= k < p ==> #[trigger] t[k] == s[k]);
        assert(forall|k: int| p < k < t.len() ==> #[trigger] t[k] == s[k - 1]);
        assert(t[p] == c);
    }
}

impl HandC {
    /// A hand is well formed when its cards are sorted ascending by rank.
    pub open spec fn wf(self) -> bool {
        sorted_by_value(self@)
    }

    pub fn new() -> (h: HandC)
        ensures
            h@ =~= Seq::<CardC>::empty(),
            h.wf(),
    {
        HandC { cards: Vec::new() }
    }

    pub fn len(&self) -> (n: usize)
        ensures
            n == self@.len(),
    {
        self.cards.len()
    }

    /// Insert a card, keeping the hand sorted ascending by rank: the card
    /// lands before the first card of strictly greater rank.
    #[verifier::loop_isolation(false)]
    pub fn set_card(&mut self, card: CardC)
        requires
            old(self).wf(),
            old(self)@.len() < usize::MAX,
        ensures
            final(self)@ == old(self)@.insert(insert_pos(old(self)@, card), card),
            final(self).wf(),
            final(self)@.len() == old(self)@.len() + 1,
            all_valid(old(self)@) && card.valid() ==> all_valid(final(self)@),
    {
        proof {
            lemma_insert_pos_sorted(self@, card);
            lemma_insert_all_valid(self@, card, insert_pos(self@, card));
        }
        let ghost s0 = self@;
        let mut i: usize = 0;
        proof {
            assert(s0.skip(0) =~= s0);
        }
        while i < self.cards.len()
            invariant
                0 <= i <= s0.len(),
                self@ == s0,
                forall|k: int| 0 <= k < i ==> !(card.value < #[trigger] s0[k].value),
                insert_pos(s0.skip(i as int), card) + i == insert_pos(s0, card),
            decreases s0.len() - i,
        {
            proof {
                assert(s0.skip(i as int)[0] == s0[i as int]);
                assert(s0.skip(i as int).drop_first() =~= s0.skip(i + 1));
            }
            if card.value < self.cards[i].value {
                proof {
                    assert(s0.skip(i as int).len() > 0);
                    assert(card.value < s0.skip(i as int)[0].value);
                    assert(insert_pos(s0.skip(i as int), card) == 0);
                    assert(i as int == insert_pos(s0, card));
                }
                self.cards.insert(i, card);
                proof {
                    assert(self@ == s0.insert(i as int, card));
                    assert(self@ == s0.insert(insert_pos(s0, card), card));
                }
                return ;
            }
            i = i + 1;
        }
        proof {
            assert(s0.skip(i as int) =~= Seq::<CardC>::empty());
            assert(insert_pos(s0, card) == s0.len());
            assert(s0.insert(s0.len() as int, card) =~= s0.push(card));
        }
        self.cards.push(card);
    }

    /// Remove and return the first card matching the given rank and suit;
    /// when no card matches, the hand is unchanged and the empty-slot
    /// sentinel is returned.
    #[verifier::loop_isolation(false)]
    pub fn remove_specific_card(&mut self, card: &CardC) -> (r: CardC)
        ensures
            find_card(old(self)@, *card) < 0 ==> final(self)@ == old(self)@ && r == (CardC {
                value: 0,
                figure: 4,
            }),
            find_card(old(self)@, *card) >= 0 ==> {
                &&& r == old(self)@[find_card(old(self)@, *card)]
                &&& final(self)@ == old(self)@.remove(find_card(old(self)@, *card))
            },
    {
        let ghost s0 = self@;
        let mut i: usize = 0;
        proof {
            assert(s0.skip(0) =~= s0);
        }
        while i < self.cards.len()
            invariant
                0 <= i <= s0.len(),
                self@ == s0,
                forall|k: int| 0 <= k < i ==> !(#[trigger] s0[k].value == card.value
                    && s0[k].figure == card.figure),
                find_card(s0.skip(i as int), *card) < 0 ==> find_card(s0, *card) < 0,
                find_card(s0.skip(i as int), *card) >= 0 ==> find_card(s0, *card) == find_card(
                    s0.skip(i as int),
                    *card,
                ) + i,
            decreases s0.len() - i,
        {
            proof {
                assert(s0.skip(i as int)[0] == s0[i as int]);
                assert(s0.skip(i as int).drop_first() =~= s0.skip(i + 1));
            }
            if self.cards[i].value == card.value && self.cards[i].figure == card.figure {
                proof {
                    assert(find_card(s0.skip(i as int), *card) == 0);
                    assert(find_card(s0, *card) == i);
                }
                return self.cards.remove(i);
            }
            i = i + 1;
        }
        proof {
            assert(s0.skip(i as int) =~= Seq::<CardC>::empty());
        }
        CardC::new(0, 4)
    }

    /// Remove and return the highest card; on an empty hand, the empty-slot
    /// sentinel.
    pub fn remove_a_card(&mut self) -> (r: CardC)
        ensures
            old(self)@.len() == 0 ==> final(self)@ == old(self)@ && r == (CardC {
                value: 0,
                figure: 4,
            }),
            old(self)@.len() > 0 ==> r == old(self)@.last() && final(self)@ == old(
                self,
            )@.drop_last(),
    {
        match self.cards.pop() {
            Some(x) => x,
            None => CardC::new(0, 4),
        }
    }

    /// An exact copy of the hand.
    pub fn clone_hand(&self) -> (h: HandC)
        ensures
            h@ == self@,
    {
        let cards = self.cards.clone();
        proof {
            assert(cards@ =~= self.cards@);
        }
        HandC { cards }
    }

    /// Classify a five-card hand into its strength vector: the category
    /// first, then the tiebreak ranks in descending significance.
    #[verifier::loop_isolation(false)]
    pub fn get_value(&self) -> (r: Vec<u8>)
        requires
            self.wf(),
            all_valid(self@),
            self@.len() == 5,
        ensures
            r@ == strength(self@),
    {
        let ghost s = self@;
        let mut counts: [u8; 15] = [0;15];
        let mut i: usize = 0;
        proof {
            assert(s.take(0) =~= Seq::<CardC>::empty());
        }
        while i < 5
            invariant
                0 <= i <= 5,
                forall|v: int| 0 <= v < 15 ==> counts@[v] == count_rank(s.take(i as int), v),
            decreases 5 - i,
        {
            proof {
                assert(s[i as int].valid());
                lemma_count_rank_bounds(s.take(i as int), s[i as int].value as int);
            }
            let v = self.cards[i].value as usize;
            counts[v] = counts[v] + 1;
            proof {
                assert(s.take(i + 1).drop_last() =~= s.take(i as int));
                assert(s.take(i + 1).last() == s[i as int]);
            }
            i = i + 1;
        }
        proof {
            assert(s.take(5) =~= s);
        }
        let mut pairs: Vec<u8> = Vec::new();
        let mut triples: Vec<u8> = Vec::new();
        let mut quads: Vec<u8> = Vec::new();
        let mut singles: Vec<u8> = Vec::new();
        let mut v: usize = 2;
        while v < 15
            invariant
                2 <= v <= 15,
                forall|w: int| 0 <= w < 15 ==> counts@[w] == count_rank(s, w),
                singles@ == ranks_with_count(s, 1, v - 1),
                pairs@ == ranks_with_count(s, 2, v - 1),
                triples@ == ranks_with_count(s, 3, v - 1),
                quads@ == ranks_with_count(s, 4, v - 1),
            decreases 15 - v,
        {
            if counts[v] == 1 {
                singles.push(v as u8);
            }
            if counts[v] == 2 {
                pairs.push(v as u8);
            }
            if counts[v] == 3 {
                triples.push(v as u8);
            }
            if counts[v] == 4 {
                quads.push(v as u8);
            }
            v = v + 1;
        }
        proof {
            assert forall|w: int| count_rank(s, w) <= 5 by {
                lemma_count_rank_bounds(s, w);
            }
            lemma_total_count_all(s);
            lemma_rank_partition(s, 14);
            assert(singles@ == singles_of(s) && pairs@ == pairs_of(s) && triples@ == triples_of(s)
                && quads@ == quads_of(s));
        }
        if pairs.len() == 2 {
            let r = vec![3u8, pairs[1], pairs[0], singles[0]];
            proof {
                assert(r@ =~= strength(s));
            }
            return r;
        }
        if pairs.len() == 1 && triples.len() == 1 {
            let r = vec![7u8, triples[0], pairs[0]];
            proof {
                assert(r@ =~= strength(s));
            }
            return r;
        }
        if pairs.len() == 1 {
            let r = vec![2u8, pairs[0], singles[2], singles[1], singles[0]];
            proof {
                assert(r@ =~= strength(s));
            }
            return r;
        }
        if triples.len() == 1 {
            let r = vec![4u8, triples[0], singles[1], singles[0]];
            proof {
                assert(r@ =~= strength(s));
            }
            return r;
        }
        if quads.len() == 1 {
            let r = vec![8u8, quads[0], singles[0]];
            proof {
                assert(r@ =~= strength(s));
            }
            return r;
        }
        let c0 = self.cards[0];
        let c1 = self.cards[1];
        let c2 = self.cards[2];
        let c3 = self.cards[3];
        let c4 = self.cards[4];
        let color = c1.figure == c0.figure && c2.figure == c0.figure && c3.figure == c0.figure
            && c4.figure == c0.figure;
        let consecutive = c1.value == c0.value + 1 && c2.value == c0.value + 2 && c3.value
            == c0.value + 3 && c4.value == c0.value + 4;
        let wheel = c0.value == 2 && c1.value == 3 && c2.value == 4 && c3.value == 5 && c4.value
            == 14;
        let royal = consecutive && c0.value == 10;
        proof {
            if is_flush(s) {
                assert(s[1].figure == s[0].figure && s[2].figure == s[0].figure && s[3].figure
                    == s[0].figure && s[4].figure == s[0].figure);
            }
            if is_consecutive(s) {
                assert(s[1].value == s[0].value + 1 && s[2].value == s[0].value + 2 && s[3].value
                    == s[0].value + 3 && s[4].value == s[0].value + 4);
            }
            assert(color == is_flush(s));
            assert(consecutive == is_consecutive(s));
            assert(wheel == is_wheel(s));
            assert(royal == is_royal(s));
        }
        let r: Vec<u8> = if color && royal {
            vec![10u8, 14u8]
        } else if color && wheel {
            vec![9u8, 5u8]
        } else if color && consecutive {
            vec![9u8, c4.value]
        } else if color {
            vec![6u8, c4.value, c3.value, c2.value, c1.value, c0.value]
        } else if wheel {
            vec![5u8, 5u8]
        } else if consecutive {
            vec![5u8, c4.value]
        } else {
            vec![1u8, c4.value, c3.value, c2.value, c1.value, c0.value]
        };
        proof {
            assert(r@ =~= strength(s));
        }
        r
    }

    /// Render the hand for display: each card preceded by a space.
    #[verifier::loop_isolation(false)]
    pub fn hand_to_string(&self) -> (r: String)
        requires
            all_valid(self@),
        ensures
            r@ == hand_chars(self@),
    {
        let mut s = String::new();
        let mut i: usize = 0;
        proof {
            assert(self@.take(0) =~= Seq::<CardC>::empty());
        }
        while i < self.cards.len()
            invariant
                0 <= i <= self@.len(),
                s@ == hand_chars(self@.take(i as int)),
            decreases self@.len() - i,
        {
            s.append(" ");
            let cs = self.cards[i].card_to_string();
            s.append(cs.as_str());
            proof {
                assert(self@.take(i + 1).drop_last() =~= self@.take(i as int));
                assert(self@.take(i + 1).last() == self@[i as int]);
            }
            i = i + 1;
        }
        proof {
            assert(self@.take(self@.len() as int) =~= self@);
        }
        s
    }

    /// The cards in their integer form, in hand order.
    #[verifier::loop_isolation(false)]
    pub fn hand_to_vec(&self) -> (r: Vec<u8>)
        requires
            all_valid(self@),
        ensures
            r@.len() == self@.len(),
            forall|i: int| 0 <= i < self@.len() ==> r@[i] == (#[trigger] self@[i]).spec_to_int(),
    {
        let mut res: Vec<u8> = Vec::new();
        let mut i: usize = 0;
        while i < self.cards.len()
            invariant
                0 <= i <= self@.len(),
                all_valid(self@),
                r_matches(res@, self@, i as int),
            decreases self@.len() - i,
        {
            res.push(self.cards[i].card_to_int());
            i = i + 1;
        }
        res
    }
}

/// The first index of `s` holding a card of the same rank and suit as `c`,
/// or -1 when none does.
pub open spec fn find_card(s: Seq<CardC>, c: CardC) -> int
    decreases s.len(),
{
    if s.len() == 0 {
        -1
    } else if s[0].value == c.value && s[0].figure == c.figure {
        0
    } else {
        let r = find_card(s.drop_first(), c);
        if r < 0 {
            -1
        } else {
            1 + r
        }
    }
}

spec fn r_matches(r: Seq<u8>, s: Seq<CardC>, n: int) -> bool {
    r.len() == n && forall|i: int| 0 <= i < n ==> r[i] == (#[trigger] s[i]).spec_to_int()
}

/// The display characters of a hand: each card preceded by a space.
pub open spec fn hand_chars(s: Seq<CardC>) -> Seq<char>
    decreases s.len(),
{
    if s.len() == 0 {
        Seq::empty()
    } else {
        hand_chars(s.drop_last()) + " "@ + card_chars(s.last())
    }
}

} // verus!
