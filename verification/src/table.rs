//! The table engine: the betting-round state machine, pot accounting under
//! all-in conditions, and the payout at settlement.

use vstd::prelude::*;
use crate::card::CardC;
use crate::deck::DeckC;
use crate::hand::{all_valid, insert_pos, HandC};
use crate::player::{best_hand_spec, merge_cards, Player};
use crate::strength::{cmp_value, lemma_cmp_antisymmetric, lemma_cmp_strict_transitive, lemma_cmp_total, strength, winner};

verus! {

/// The fixed-size observation tensor: community cards and the acting
/// player's hole cards in integer form, then all players' credits.
pub type ObservationVals = [[[u64; 5]; 5]; 2];

/// A per-call failure: the requested action is not in the current legal
/// set, or the bet it implies exceeds the player's credits.
#[derive(Debug, Clone, Copy, PartialEq, Eq, Structural)]
pub enum PokerError {
    InvalidAction,
}

/// The poker table: deck, community cards, players, betting state and pots.
#[derive(Debug)]
pub struct Poker {
    pub deck: DeckC,
    pub players: Vec<Player>,
    pub n_players_in_hand: u8,
    pub community_cards: HandC,
    pub total_players: u8,
    pub current_player: u8,
    pub turn_in_phase: u8,
    pub poker_phase: u8,
    pub bet_phase: u64,
    pub button: u8,
    pub been_all_in: bool,
    pub hole: Vec<u64>,
    pub hole_limbs: Vec<Vec<u8>>,
    pub infinite_credits: bool,
}

/// The sum of the players' per-street bets.
pub open spec fn sum_bets(ps: Seq<Player>) -> int
    decreases ps.len(),
{
    if ps.len() == 0 {
        0
    } else {
        sum_bets(ps.drop_last()) + ps.last().bet
    }
}

/// The sum of the players' bets over the whole round.
pub open spec fn sum_total_bets(ps: Seq<Player>) -> int
    decreases ps.len(),
{
    if ps.len() == 0 {
        0
    } else {
        sum_total_bets(ps.drop_last()) + ps.last().total_bet
    }
}

/// The sum of the players' remaining credits.
pub open spec fn sum_credits(ps: Seq<Player>) -> int
    decreases ps.len(),
{
    if ps.len() == 0 {
        0
    } else {
        sum_credits(ps.drop_last()) + ps.last().credits
    }
}

/// The sum of the players' initial stakes: all the chips there are.
pub open spec fn sum_initials(ps: Seq<Player>) -> int
    decreases ps.len(),
{
    if ps.len() == 0 {
        0
    } else {
        sum_initials(ps.drop_last()) + ps.last().initial_credit
    }
}

/// How many players are still in the hand.
pub open spec fn count_in_hand(ps: Seq<Player>) -> int
    decreases ps.len(),
{
    if ps.len() == 0 {
        0
    } else {
        count_in_hand(ps.drop_last()) + if ps.last().in_hand {
            1int
        } else {
            0int
        }
    }
}

/// The sum of a sequence of amounts: pots, stakes or payouts.
pub open spec fn sum_amounts(h: Seq<u64>) -> int
    decreases h.len(),
{
    if h.len() == 0 {
        0
    } else {
        sum_amounts(h.drop_last()) + h.last()
    }
}

/// How many community cards each phase has dealt: none before the flop,
/// three on the flop, one more on each of turn and river.
pub open spec fn phase_cards(phase: u8) -> int {
    if phase == 0 {
        0
    } else if phase == 1 {
        3
    } else if phase == 2 {
        4
    } else {
        5
    }
}

/// A sorted list of distinct amounts with `b` inserted: unchanged when
/// `b` is already present.
pub open spec fn level_insert(s: Seq<u64>, b: u64) -> Seq<u64>
    decreases s.len(),
{
    if s.len() == 0 {
        seq![b]
    } else if b == s[0] {
        s
    } else if b < s[0] {
        seq![b] + s
    } else {
        seq![s[0]] + level_insert(s.drop_first(), b)
    }
}

/// The distinct street bets of the first `i` seats still in the hand,
/// ascending: the bet levels that tier the pots after an all-in.
pub open spec fn spec_levels(ps: Seq<Player>, i: int) -> Seq<u64>
    decreases i,
{
    if i <= 0 {
        Seq::empty()
    } else {
        let prev = spec_levels(ps, i - 1);
        if ps[i - 1].in_hand {
            level_insert(prev, ps[i - 1].bet)
        } else {
            prev
        }
    }
}

/// The slice of one street bet that falls between the previous level and
/// level `k`.
pub open spec fn base_slice(bet: u64, levels: Seq<u64>, k: int) -> int {
    let lo: int = if k == 0 {
        0
    } else {
        levels[k - 1] as int
    };
    let hi: int = levels[k] as int;
    if bet >= hi {
        hi - lo
    } else if bet > lo {
        bet - lo
    } else {
        0
    }
}

/// The slice of one street bet that tier `k` takes: the part between the
/// previous level and level `k`, and, for the top tier, whatever exceeds
/// the top level.
pub open spec fn tier_slice(bet: u64, levels: Seq<u64>, k: int) -> int {
    base_slice(bet, levels, k) + if k == levels.len() - 1 && bet > levels[k] {
        bet - levels[k]
    } else {
        0int
    }
}

/// What tier `k` collects from the first `up` seats.
pub open spec fn tier_amount(ps: Seq<Player>, levels: Seq<u64>, k: int, up: int) -> int
    decreases up,
{
    if up <= 0 {
        0
    } else {
        tier_amount(ps, levels, k, up - 1) + tier_slice(ps[up - 1].bet, levels, k)
    }
}

/// The seats, in order, whose street bet reached `level`: the seats
/// eligible for that tier's pot.
pub open spec fn tier_eligible(ps: Seq<Player>, level: u64, up: int) -> Seq<u8>
    decreases up,
{
    if up <= 0 {
        Seq::empty()
    } else {
        let prev = tier_eligible(ps, level, up - 1);
        if ps[up - 1].bet >= level {
            prev.push(ps[up - 1].id)
        } else {
            prev
        }
    }
}

proof fn lemma_level_insert_found(s: Seq<u64>, b: u64, i: int)
    requires
        0 <= i < s.len(),
        s[i] == b,
        forall|m: int| 0 <= m < i ==> #[trigger] s[m] < b,
    ensures
        level_insert(s, b) == s,
    decreases i,
{
    if i > 0 {
        let d = s.drop_first();
        assert(forall|m: int| 0 <= m < d.len() ==> #[trigger] d[m] == s[m + 1]);
        lemma_level_insert_found(d, b, i - 1);
        assert(level_insert(s, b) =~= s);
    }
}

proof fn lemma_level_insert_at(s: Seq<u64>, b: u64, i: int)
    requires
        0 <= i <= s.len(),
        forall|m: int| 0 <= m < i ==> #[trigger] s[m] < b,
        i < s.len() ==> b < s[i],
    ensures
        level_insert(s, b) == s.insert(i, b),
    decreases i,
{
    if i == 0 {
        if s.len() == 0 {
            assert(level_insert(s, b) =~= s.insert(0, b));
        } else {
            assert(b < s[0]);
            assert(level_insert(s, b) =~= s.insert(0, b));
        }
    } else {
        let d = s.drop_first();
        assert(forall|m: int| 0 <= m < d.len() ==> #[trigger] d[m] == s[m + 1]);
        lemma_level_insert_at(d, b, i - 1);
        assert(s[0] < b);
        assert(level_insert(s, b) == seq![s[0]] + d.insert(i - 1, b));
        assert(seq![s[0]] + d.insert(i - 1, b) =~= s.insert(i, b));
    }
}

/// The line-up after a sweep: every street bet cleared, nothing else
/// changed.
pub open spec fn swept_players(ps: Seq<Player>) -> Seq<Player> {
    Seq::new(ps.len(), |i: int| Player { bet: 0, ..ps[i] })
}

/// The pots after the street bets of `ps` are swept into `holes`: with no
/// all-in, one main pot; after an all-in, the main pot takes the first
/// tier and each further tier opens a side pot.
pub open spec fn swept_holes(ps: Seq<Player>, holes: Seq<u64>, been_all_in: bool) -> Seq<u64> {
    if !been_all_in {
        holes.update(0, ((holes[0] + sum_bets(ps)) as u64))
    } else {
        let lv = spec_levels(ps, ps.len() as int);
        holes.update(0, ((holes[0] + tier_amount(ps, lv, 0, ps.len() as int)) as u64))
            + Seq::new((lv.len() - 1) as nat, |k: int| (tier_amount(ps, lv, k + 1, ps.len() as int)) as u64)
    }
}

/// The eligibility lists after a sweep: every seat for the main pot,
/// earlier side pots keep their lists, each new tier takes the seats
/// whose street bet reached its level.
pub open spec fn swept_limbs(
    ps: Seq<Player>,
    holes: Seq<u64>,
    limbs: Seq<Seq<u8>>,
    been_all_in: bool,
) -> Seq<Seq<u8>> {
    if !been_all_in {
        seq![all_ids(ps.len() as int)]
    } else {
        let lv = spec_levels(ps, ps.len() as int);
        seq![all_ids(ps.len() as int)] + Seq::new(
            (holes.len() - 1) as nat,
            |k: int| if k + 1 < limbs.len() {
                limbs[k + 1]
            } else {
                Seq::<u8>::empty()
            },
        ) + Seq::new(
            (lv.len() - 1) as nat,
            |k: int| tier_eligible(ps, lv[k + 1], ps.len() as int),
        )
    }
}

/// The hand values at showdown: with more than one contender, each seat
/// still in the hand holds the strength of its best five-card hand from
/// its hole cards and the board; otherwise values are untouched.
pub open spec fn showdown_values(ps: Seq<Player>, community: Seq<CardC>, contenders: int) -> Seq<
    Seq<u8>,
> {
    Seq::new(
        ps.len(),
        |i: int| if contenders > 1 && ps[i].in_hand {
            strength(best_hand_spec(merge_cards(ps[i].hand@, community)))
        } else {
            ps[i].hand_value@
        },
    )
}

/// Two line-ups seat the same players: same count, and seat by seat the
/// same number and the same in-hand flag.
pub open spec fn same_seating(a: Seq<Player>, b: Seq<Player>) -> bool {
    &&& a.len() == b.len()
    &&& forall|i: int| 0 <= i < a.len() ==> (#[trigger] a[i]).in_hand == b[i].in_hand && a[i].id
        == b[i].id
}

proof fn lemma_winner_agree(a: Seq<Player>, b: Seq<Player>, vals: Seq<Seq<u8>>, limb: Seq<u8>, i: int)
    requires
        same_seating(a, b),
    ensures
        is_pot_winner(a, vals, limb, i) == is_pot_winner(b, vals, limb, i),
{
    if is_pot_winner(a, vals, limb, i) {
        assert forall|j: int| 0 <= j < b.len() && eligible(b, limb, j) implies cmp_value(
            #[trigger] vals[j],
            vals[i],
        ) != 1 by {
            assert(eligible(a, limb, j));
        }
        assert(eligible(b, limb, i));
    }
    if is_pot_winner(b, vals, limb, i) {
        assert forall|j: int| 0 <= j < a.len() && eligible(a, limb, j) implies cmp_value(
            #[trigger] vals[j],
            vals[i],
        ) != 1 by {
            assert(eligible(b, limb, j));
        }
        assert(eligible(a, limb, i));
    }
}

proof fn lemma_count_winners_agree(
    a: Seq<Player>,
    b: Seq<Player>,
    vals: Seq<Seq<u8>>,
    limb: Seq<u8>,
    up: int,
)
    requires
        same_seating(a, b),
    ensures
        count_pot_winners(a, vals, limb, up) == count_pot_winners(b, vals, limb, up),
    decreases up,
{
    if up > 0 {
        lemma_count_winners_agree(a, b, vals, limb, up - 1);
        lemma_winner_agree(a, b, vals, limb, up - 1);
    }
}

proof fn lemma_first_winner_agree(
    a: Seq<Player>,
    b: Seq<Player>,
    vals: Seq<Seq<u8>>,
    limb: Seq<u8>,
    i: int,
)
    requires
        same_seating(a, b),
    ensures
        first_pot_winner_from(a, vals, limb, i) == first_pot_winner_from(b, vals, limb, i),
    decreases a.len() - i,
{
    if 0 <= i < a.len() {
        lemma_winner_agree(a, b, vals, limb, i);
        if !is_pot_winner(a, vals, limb, i) {
            lemma_first_winner_agree(a, b, vals, limb, i + 1);
        }
    }
}

/// The payout reads only the seating: which seats are in the hand and
/// their numbers, beside the explicit hand values, pots and lists.
pub proof fn lemma_winnings_agree(
    a: Seq<Player>,
    b: Seq<Player>,
    vals: Seq<Seq<u8>>,
    holes: Seq<u64>,
    limbs: Seq<Seq<u8>>,
    i: int,
    contenders: int,
)
    requires
        same_seating(a, b),
        0 <= i < a.len(),
    ensures
        winnings_spec(a, vals, holes, limbs, i, contenders) == winnings_spec(
            b,
            vals,
            holes,
            limbs,
            i,
            contenders,
        ),
    decreases holes.len(),
{
    if holes.len() > 0 {
        lemma_winnings_agree(a, b, vals, holes.drop_last(), limbs.drop_last(), i, contenders);
        lemma_winner_agree(a, b, vals, limbs.last(), i);
        lemma_count_winners_agree(a, b, vals, limbs.last(), a.len() as int);
        lemma_first_winner_agree(a, b, vals, limbs.last(), 0);
    }
}

/// What seat `i` takes when a round settles from the given state: its
/// share of the swept pots, judged by the showdown hand values over the
/// board.
#[verifier::opaque]
pub open spec fn settlement_winnings(
    ps: Seq<Player>,
    community: Seq<CardC>,
    holes: Seq<u64>,
    limbs: Seq<Seq<u8>>,
    been_all_in: bool,
    contenders: int,
    i: int,
) -> int {
    winnings_spec(
        swept_players(ps),
        showdown_values(ps, community, contenders),
        swept_holes(ps, holes, been_all_in),
        swept_limbs(ps, holes, limbs, been_all_in),
        i,
        contenders,
    )
}

/// The seat numbers of all players, in order.
pub open spec fn all_ids(n: int) -> Seq<u8> {
    Seq::new(n as nat, |i: int| i as u8)
}

/// Strictly ascending amounts: the distinct bet levels of a street.
pub open spec fn strictly_sorted(s: Seq<u64>) -> bool {
    forall|i: int, j: int| 0 <= i < j < s.len() ==> #[trigger] s[i] < #[trigger] s[j]
}

/// Updating one amount changes the total by the difference.
pub proof fn lemma_amounts_update(h: Seq<u64>, i: int, v: u64)
    requires
        0 <= i < h.len(),
    ensures
        sum_amounts(h.update(i, v)) == sum_amounts(h) - h[i] + v,
    decreases h.len(),
{
    let t = h.update(i, v);
    if i == h.len() - 1 {
        assert(t.drop_last() =~= h.drop_last());
    } else {
        assert(t.drop_last() =~= h.drop_last().update(i, v));
        assert(t.last() == h.last());
        lemma_amounts_update(h.drop_last(), i, v);
    }
}

/// Appending an amount adds it to the total.
pub proof fn lemma_amounts_push(h: Seq<u64>, v: u64)
    ensures
        sum_amounts(h.push(v)) == sum_amounts(h) + v,
{
    assert(h.push(v).drop_last() =~= h);
    assert(h.push(v).last() == v);
}

/// One more seat extends the prefix sum of bets by that seat's bet.
pub proof fn lemma_sum_bets_take_step(ps: Seq<Player>, i: int)
    requires
        0 <= i < ps.len(),
    ensures
        sum_bets(ps.take(i + 1)) == sum_bets(ps.take(i)) + ps[i].bet,
{
    assert(ps.take(i + 1).drop_last() =~= ps.take(i));
    assert(ps.take(i + 1).last() == ps[i]);
}

/// A prefix sum of bets never exceeds the full sum.
pub proof fn lemma_sum_bets_take_bound(ps: Seq<Player>, i: int)
    requires
        0 <= i <= ps.len(),
    ensures
        sum_bets(ps.take(i)) <= sum_bets(ps),
    decreases ps.len() - i,
{
    if i == ps.len() {
        assert(ps.take(i) =~= ps);
    } else {
        lemma_sum_bets_take_step(ps, i);
        lemma_sum_bets_take_bound(ps, i + 1);
    }
}

/// How many seats have matched the outstanding bet, are all-in, or have
/// folded.
pub open spec fn count_matched(ps: Seq<Player>, bet_phase: u64) -> int
    decreases ps.len(),
{
    if ps.len() == 0 {
        0
    } else {
        count_matched(ps.drop_last(), bet_phase) + if bet_phase == ps.last().bet
            || ps.last().in_all_in || !ps.last().in_hand {
            1int
        } else {
            0int
        }
    }
}

/// The player after placing `bet` more chips on the street.
pub open spec fn bet_applied(p: Player, bet: u64) -> Player {
    Player {
        credits: (p.credits - bet) as u64,
        bet: (p.bet + bet) as u64,
        total_bet: (p.total_bet + bet) as u64,
        ..p
    }
}

/// Everything but the players and the outstanding bet is unchanged.
pub open spec fn same_table_except_betting(a: Poker, b: Poker) -> bool {
    &&& a.deck == b.deck
    &&& a.community_cards == b.community_cards
    &&& a.n_players_in_hand == b.n_players_in_hand
    &&& a.total_players == b.total_players
    &&& a.current_player == b.current_player
    &&& a.turn_in_phase == b.turn_in_phase
    &&& a.poker_phase == b.poker_phase
    &&& a.button == b.button
    &&& a.been_all_in == b.been_all_in
    &&& a.hole@ == b.hole@
    &&& a.hole_limbs@ == b.hole_limbs@
    &&& a.infinite_credits == b.infinite_credits
}

/// The fields that a pot sweep never touches are unchanged.
pub open spec fn same_core(a: Poker, b: Poker) -> bool {
    &&& a.deck == b.deck
    &&& a.community_cards == b.community_cards
    &&& a.n_players_in_hand == b.n_players_in_hand
    &&& a.total_players == b.total_players
    &&& a.current_player == b.current_player
    &&& a.turn_in_phase == b.turn_in_phase
    &&& a.poker_phase == b.poker_phase
    &&& a.bet_phase == b.bet_phase
    &&& a.button == b.button
    &&& a.been_all_in == b.been_all_in
    &&& a.infinite_credits == b.infinite_credits
}

/// Seat `r` is the first seat still in the hand after `cp`, scanning
/// cyclically.
pub open spec fn is_next_in_hand(ps: Seq<Player>, cp: int, r: int) -> bool {
    let n = ps.len() as int;
    &&& 0 <= r < n
    &&& ps[r].in_hand
    &&& (r > cp ==> forall|m: int| cp < m < r ==> !(#[trigger] ps[m]).in_hand)
    &&& (r <= cp ==> (forall|m: int| cp < m < n ==> !(#[trigger] ps[m]).in_hand) && (forall|m: int|
        0 <= m < r ==> !(#[trigger] ps[m]).in_hand))
}

/// A positive in-hand count names an in-hand player.
pub proof fn lemma_count_in_hand_witness(ps: Seq<Player>)
    requires
        count_in_hand(ps) > 0,
    ensures
        exists|i: int| 0 <= i < ps.len() && (#[trigger] ps[i]).in_hand,
    decreases ps.len(),
{
    if ps.len() > 0 {
        if ps.last().in_hand {
            assert(ps[ps.len() - 1].in_hand);
        } else {
            lemma_count_in_hand_witness(ps.drop_last());
            let i = choose|i: int| 0 <= i < ps.drop_last().len() && ps.drop_last()[i].in_hand;
            assert(ps[i].in_hand);
        }
    }
}

/// Updating one player changes each sum by the difference at that seat.
pub proof fn lemma_sums_update(ps: Seq<Player>, i: int, p: Player)
    requires
        0 <= i < ps.len(),
    ensures
        sum_bets(ps.update(i, p)) == sum_bets(ps) - ps[i].bet + p.bet,
        sum_total_bets(ps.update(i, p)) == sum_total_bets(ps) - ps[i].total_bet + p.total_bet,
        sum_credits(ps.update(i, p)) == sum_credits(ps) - ps[i].credits + p.credits,
        sum_initials(ps.update(i, p)) == sum_initials(ps) - ps[i].initial_credit
            + p.initial_credit,
        count_in_hand(ps.update(i, p)) == count_in_hand(ps) - (if ps[i].in_hand {
            1int
        } else {
            0int
        }) + (if p.in_hand {
            1int
        } else {
            0int
        }),
    decreases ps.len(),
{
    let t = ps.update(i, p);
    if i == ps.len() - 1 {
        assert(t.drop_last() =~= ps.drop_last());
        assert(t.last() == p);
    } else {
        assert(t.drop_last() =~= ps.drop_last().update(i, p));
        assert(t.last() == ps.last());
        lemma_sums_update(ps.drop_last(), i, p);
    }
}

/// Every sum of player quantities dominates each of its elements, and is
/// never negative.
pub proof fn lemma_sums_bounds(ps: Seq<Player>, i: int)
    requires
        0 <= i < ps.len(),
    ensures
        0 <= ps[i].bet <= sum_bets(ps),
        0 <= ps[i].total_bet <= sum_total_bets(ps),
        0 <= ps[i].credits <= sum_credits(ps),
        0 <= ps[i].initial_credit <= sum_initials(ps),
    decreases ps.len(),
{
    lemma_sums_nonneg(ps);
    if i == ps.len() - 1 {
        lemma_sums_nonneg(ps.drop_last());
    } else {
        lemma_sums_bounds(ps.drop_last(), i);
        assert(ps.drop_last()[i] == ps[i]);
    }
}

/// Sums of unsigned quantities are never negative.
pub proof fn lemma_sums_nonneg(ps: Seq<Player>)
    ensures
        sum_bets(ps) >= 0,
        sum_total_bets(ps) >= 0,
        sum_credits(ps) >= 0,
        sum_initials(ps) >= 0,
        0 <= count_in_hand(ps) <= ps.len(),
    decreases ps.len(),
{
    if ps.len() > 0 {
        lemma_sums_nonneg(ps.drop_last());
    }
}

/// A sum of amounts is never negative and dominates each element.
pub proof fn lemma_amounts_bounds(h: Seq<u64>, i: int)
    requires
        0 <= i < h.len(),
    ensures
        0 <= h[i] <= sum_amounts(h),
        sum_amounts(h) >= 0,
    decreases h.len(),
{
    lemma_amounts_nonneg(h);
    if i == h.len() - 1 {
        lemma_amounts_nonneg(h.drop_last());
    } else {
        lemma_amounts_bounds(h.drop_last(), i);
        assert(h.drop_last()[i] == h[i]);
    }
}

/// A sum of amounts is never negative.
pub proof fn lemma_amounts_nonneg(h: Seq<u64>)
    ensures
        sum_amounts(h) >= 0,
    decreases h.len(),
{
    if h.len() > 0 {
        lemma_amounts_nonneg(h.drop_last());
    }
}

impl Poker {
    /// The structural invariant of the table: seats are numbered in order,
    /// indices are in range, the in-hand count matches the flags, no bet
    /// exceeds the outstanding bet to call, all chips in play stay within
    /// the initial stakes, and the pots hold exactly the bets swept so far.
    pub open spec fn wf(self) -> bool {
        &&& self.players@.len() == self.total_players as int
        &&& 2 <= self.total_players <= 23
        &&& forall|i: int| 0 <= i < self.players@.len() ==> (#[trigger] self.players@[i]).id == i
        &&& self.current_player < self.total_players
        &&& self.button < self.total_players
        &&& self.n_players_in_hand as int == count_in_hand(self.players@)
        &&& self.n_players_in_hand >= 1
        &&& self.poker_phase <= 3
        &&& self.hole@.len() >= 1
        &&& (!self.been_all_in ==> self.hole@.len() == 1)
        &&& forall|i: int| 0 <= i < self.players@.len() ==> (#[trigger] self.players@[i]).bet
            <= self.bet_phase
        &&& forall|i: int| 0 <= i < self.players@.len() ==> (#[trigger] self.players@[i]).hand@.len()
            <= 5
        &&& sum_credits(self.players@) + sum_bets(self.players@) + sum_amounts(self.hole@)
            <= sum_initials(self.players@)
        &&& sum_initials(self.players@) <= i64::MAX as int
        &&& sum_amounts(self.hole@) + sum_bets(self.players@) == sum_total_bets(self.players@)
    }

    /// The dealt state, established by `reset` and kept between steps: two
    /// hole cards per player, the community cards of the current phase, and
    /// a deck holding exactly the cards not dealt.
    pub open spec fn dealt(self) -> bool {
        &&& forall|i: int| 0 <= i < self.players@.len() ==> {
            &&& (#[trigger] self.players@[i]).hand@.len() == 2
            &&& self.players@[i].hand.wf()
            &&& all_valid(self.players@[i].hand@)
        }
        &&& self.community_cards.wf()
        &&& all_valid(self.community_cards@)
        &&& self.community_cards@.len() == phase_cards(self.poker_phase)
        &&& self.deck.wf()
        &&& self.deck@.len() == 52 - 2 * self.players@.len() - self.community_cards@.len()
    }

    /// No card is dealt twice in a round: the players' hole cards are
    /// pairwise distinct, and none of them remains in the deck.
    pub open spec fn deal_distinct(self) -> bool {
        &&& forall|i: int, k: int|
            0 <= i < self.players@.len() && 0 <= k < self.players@[i].hand@.len()
                ==> !self.deck@.contains(#[trigger] self.players@[i].hand@[k])
        &&& forall|i: int, k: int, j: int, l: int|
            #![trigger self.players@[i].hand@[k], self.players@[j].hand@[l]]
            0 <= i < self.players@.len() && 0 <= k < self.players@[i].hand@.len() && 0 <= j
                < self.players@.len() && 0 <= l < self.players@[j].hand@.len() && (i != j || k
                != l) ==> self.players@[i].hand@[k] != self.players@[j].hand@[l]
    }

    /// Seat a player per stake; the round state is cleared and the button
    /// starts at seat zero, so seat one is first to act.
    pub fn new(p_credits: Vec<u64>, infinite_credits: bool) -> (t: Poker)
        requires
            2 <= p_credits@.len() <= 23,
            sum_amounts(p_credits@) <= i64::MAX as int,
        ensures
            t.wf(),
            t.players@.len() == p_credits@.len(),
            forall|i: int| 0 <= i < p_credits@.len() ==> {
                &&& (#[trigger] t.players@[i]).id == i
                &&& t.players@[i].credits == p_credits@[i]
                &&& t.players@[i].initial_credit == p_credits@[i]
                &&& t.players@[i].in_hand
                &&& !t.players@[i].in_all_in
                &&& t.players@[i].bet == 0
                &&& t.players@[i].total_bet == 0
            },
            t.total_players == p_credits@.len(),
            t.n_players_in_hand == p_credits@.len(),
            t.current_player == 1,
            t.turn_in_phase == 0,
            t.poker_phase == 0,
            t.bet_phase == 0,
            t.button == 0,
            !t.been_all_in,
            t.hole@ =~= seq![0u64],
            t.hole_limbs@.len() == 0,
            t.infinite_credits == infinite_credits,
            t.base_wf(),
            forall|i: int| 0 <= i < p_credits@.len() ==> (#[trigger] t.players@[i]).hand@.len()
                == 0 && t.players@[i].hand_value@.len() == 0,
            t.community_cards@.len() == 0,
            t.deck.wf(),
            t.deck@.len() == 52,
    {
        let n_players = p_credits.len();
        let mut players: Vec<Player> = Vec::new();
        let mut i: usize = 0;
        while i < n_players
            invariant
                0 <= i <= n_players,
                n_players == p_credits@.len() <= 23,
                players@.len() == i,
                forall|k: int| 0 <= k < i ==> {
                    &&& (#[trigger] players@[k]).id == k
                    &&& players@[k].credits == p_credits@[k]
                    &&& players@[k].initial_credit == p_credits@[k]
                    &&& players@[k].in_hand
                    &&& !players@[k].in_all_in
                    &&& players@[k].bet == 0
                    &&& players@[k].total_bet == 0
                    &&& players@[k].hand@.len() == 0
                    &&& players@[k].hand_value@.len() == 0
                },
                count_in_hand(players@) == i,
                sum_bets(players@) == 0,
                sum_total_bets(players@) == 0,
                sum_credits(players@) == sum_amounts(p_credits@.take(i as int)),
                sum_initials(players@) == sum_amounts(p_credits@.take(i as int)),
            decreases n_players - i,
        {
            let ghost ps0 = players@;
            players.push(Player::new(i as u8, p_credits[i]));
            proof {
                assert(p_credits@.take(i + 1).drop_last() =~= p_credits@.take(i as int));
                assert(p_credits@.take(i + 1).last() == p_credits@[i as int]);
                assert(players@.drop_last() =~= ps0);
            }
            i = i + 1;
        }
        proof {
            assert(p_credits@.take(p_credits@.len() as int) =~= p_credits@);
            lemma_amounts_nonneg(p_credits@);
        }
        let mut hole: Vec<u64> = Vec::new();
        hole.push(0);
        proof {
            assert(hole@.drop_last() =~= Seq::<u64>::empty());
            assert(sum_amounts(Seq::<u64>::empty()) == 0);
            assert(sum_amounts(hole@) == 0);
        }
        Poker {
            deck: DeckC::new(),
            players,
            n_players_in_hand: n_players as u8,
            community_cards: HandC::new(),
            total_players: n_players as u8,
            current_player: 1,
            turn_in_phase: 0,
            poker_phase: 0,
            bet_phase: 0,
            button: 0,
            been_all_in: false,
            hole,
            hole_limbs: Vec::new(),
            infinite_credits,
        }
    }

    /// Move `bet` chips from the acting player's credits into their street
    /// bet, raising the outstanding bet when theirs now exceeds it; fails,
    /// changing nothing, when the player cannot cover the amount.
    fn to_bet(&mut self, bet: u64) -> (r: Result<(), PokerError>)
        requires
            old(self).wf(),
        ensures
            r is Ok <==> bet <= old(self).players@[old(self).current_player as int].credits,
            r is Err ==> *final(self) == *old(self),
            r is Ok ==> final(self).players@ == old(self).players@.update(
                old(self).current_player as int,
                (bet_applied(
                    old(self).players@[old(self).current_player as int],
                    bet,
                )),
            ),
            r is Ok ==> final(self).bet_phase == {
                let b = old(self).players@[old(self).current_player as int].bet + bet;
                if b > old(self).bet_phase {
                    b
                } else {
                    old(self).bet_phase as int
                }
            },
            same_table_except_betting(*old(self), *final(self)),
            final(self).wf(),
    {
        let c_p = self.current_player as usize;
        proof {
            lemma_sums_bounds(self.players@, c_p as int);
            lemma_amounts_nonneg(self.hole@);
        }
        if bet > self.players[c_p].credits {
            return Result::Err(PokerError::InvalidAction);
        }
        let ghost ps0 = self.players@;
        self.players[c_p].bet = self.players[c_p].bet + bet;
        self.players[c_p].credits = self.players[c_p].credits - bet;
        self.players[c_p].total_bet = self.players[c_p].total_bet + bet;
        proof {
            assert(self.players@ =~= ps0.update(c_p as int, bet_applied(ps0[c_p as int], bet)));
            lemma_sums_update(ps0, c_p as int, bet_applied(ps0[c_p as int], bet));
        }
        if self.players[c_p].bet > self.bet_phase {
            self.bet_phase = self.players[c_p].bet;
        }
        Result::Ok(())
    }

    /// The acting player stakes all their remaining credits; the round is
    /// marked as having seen an all-in.
    fn all_in(&mut self)
        requires
            old(self).wf(),
        ensures
            final(self).players@ == old(self).players@.update(
                old(self).current_player as int,
                (Player {
                    in_all_in: true,
                    ..bet_applied(
                        old(self).players@[old(self).current_player as int],
                        old(self).players@[old(self).current_player as int].credits,
                    )
                }),
            ),
            final(self).bet_phase == {
                let p0 = old(self).players@[old(self).current_player as int];
                if p0.bet + p0.credits > old(self).bet_phase {
                    p0.bet + p0.credits
                } else {
                    old(self).bet_phase as int
                }
            },
            final(self).been_all_in,
            final(self).deck == old(self).deck,
            final(self).community_cards == old(self).community_cards,
            final(self).n_players_in_hand == old(self).n_players_in_hand,
            final(self).total_players == old(self).total_players,
            final(self).current_player == old(self).current_player,
            final(self).turn_in_phase == old(self).turn_in_phase,
            final(self).poker_phase == old(self).poker_phase,
            final(self).button == old(self).button,
            final(self).hole@ == old(self).hole@,
            final(self).hole_limbs@ == old(self).hole_limbs@,
            final(self).infinite_credits == old(self).infinite_credits,
            final(self).wf(),
    {
        let c_p = self.current_player as usize;
        let ghost ps0 = self.players@;
        self.players[c_p].in_all_in = true;
        proof {
            assert(self.players@ =~= ps0.update(
                c_p as int,
                (Player { in_all_in: true, ..ps0[c_p as int] }),
            ));
            lemma_sums_update(ps0, c_p as int, (Player { in_all_in: true, ..ps0[c_p as int] }));
        }
        let credits = self.players[c_p].credits;
        let r = self.to_bet(credits);
        proof {
            assert(r is Ok);
            assert(self.players@ =~= ps0.update(
                c_p as int,
                (Player {
                    in_all_in: true,
                    ..bet_applied(ps0[c_p as int], ps0[c_p as int].credits)
                }),
            ));
        }
        self.been_all_in = true;
    }

    /// Advance the button one seat, wrapping past the last player.
    fn next_dealer(&mut self)
        requires
            old(self).total_players >= 1,
            old(self).button < old(self).total_players,
        ensures
            final(self).button == (old(self).button + 1) % (old(self).total_players as int),
            *final(self) == (Poker { button: final(self).button, ..*old(self) }),
    {
        self.button = (self.button + 1) % self.total_players;
    }

    /// Advance the acting seat to the next player still in the hand,
    /// wrapping past the last seat.
    fn next_player(&mut self)
        requires
            old(self).wf(),
        ensures
            *final(self) == (Poker { current_player: final(self).current_player, ..*old(self) }),
            is_next_in_hand(
                old(self).players@,
                old(self).current_player as int,
                final(self).current_player as int,
            ),
            final(self).wf(),
    {
        let n = self.total_players;
        let cp = self.current_player;
        let mut k: u8 = cp + 1;
        while k < n
            invariant
                old(self).wf(),
                *self == *old(self),
                cp == old(self).current_player,
                n == old(self).total_players,
                cp < k <= n,
                forall|m: int| cp < m < k ==> !(#[trigger] self.players@[m].in_hand),
            decreases n - k,
        {
            if self.players[k as usize].in_hand {
                self.current_player = k;
                return ;
            }
            k = k + 1;
        }
        let mut j: u8 = 0;
        while j <= cp
            invariant
                old(self).wf(),
                *self == *old(self),
                cp == old(self).current_player,
                n == old(self).total_players,
                0 <= j <= cp + 1,
                forall|m: int| cp < m < n ==> !(#[trigger] self.players@[m].in_hand),
                forall|m: int| 0 <= m < j ==> !(#[trigger] self.players@[m].in_hand),
            decreases cp + 1 - j,
        {
            if self.players[j as usize].in_hand {
                self.current_player = j;
                return ;
            }
            j = j + 1;
        }
        proof {
            lemma_count_in_hand_witness(self.players@);
        }
        self.current_player = cp;
    }

    /// Whether the action moves chips onto the street.
    pub open spec fn is_betting_action(action: u8) -> bool {
        action == 0 || action == 1 || action == 4 || action == 5 || (6 <= action && action <= 10)
            || action == 11
    }

    /// The chips the action moves for the acting seat: the blinds and the
    /// opening bet are fixed, a call owes the difference to the
    /// outstanding bet, each raise tier its own amount, an all-in the
    /// whole remaining stake.
    pub open spec fn action_amount(self, action: u8) -> u64 {
        let p = self.players@[self.current_player as int];
        if action == 0 {
            5
        } else if action == 1 {
            10
        } else if action == 4 {
            10
        } else if action == 5 {
            ((self.bet_phase - p.bet) as u64)
        } else if action == 6 {
            25
        } else if action == 7 {
            50
        } else if action == 8 {
            100
        } else if action == 9 {
            500
        } else if action == 10 {
            1000
        } else if action == 11 {
            p.credits
        } else {
            0
        }
    }

    /// The line-up once the action itself is applied: the bet placed, the
    /// fold or the all-in recorded. A check changes nothing; a lone
    /// contender cannot leave the hand.
    pub open spec fn acted_players(self, action: u8) -> Seq<Player> {
        let cp = self.current_player as int;
        let p = self.players@[cp];
        if action == 2 {
            if self.n_players_in_hand >= 2 {
                self.players@.update(cp, (Player { in_hand: false, ..p }))
            } else {
                self.players@
            }
        } else if action == 11 {
            self.players@.update(cp, (Player { in_all_in: true, ..bet_applied(p, p.credits) }))
        } else if Poker::is_betting_action(action) {
            self.players@.update(cp, bet_applied(p, self.action_amount(action)))
        } else {
            self.players@
        }
    }

    /// The outstanding bet once the action is applied.
    pub open spec fn acted_bet_phase(self, action: u8) -> int {
        let p = self.players@[self.current_player as int];
        if Poker::is_betting_action(action) {
            let nb = p.bet + self.action_amount(action);
            if nb > self.bet_phase {
                nb
            } else {
                self.bet_phase as int
            }
        } else {
            self.bet_phase as int
        }
    }

    /// How many contenders remain once the action is applied.
    pub open spec fn acted_contenders(self, action: u8) -> int {
        if action == 2 && self.n_players_in_hand >= 2 {
            self.n_players_in_hand - 1
        } else {
            self.n_players_in_hand as int
        }
    }

    /// The action counter once the action is applied; it saturates far
    /// above every completion threshold.
    pub open spec fn acted_turn(self) -> int {
        if self.turn_in_phase < 250 {
            self.turn_in_phase + 1
        } else {
            self.turn_in_phase as int
        }
    }

    /// Whether the round has seen an all-in once the action is applied.
    pub open spec fn acted_been_all_in(self, action: u8) -> bool {
        action == 11 || self.been_all_in
    }

    /// Whether the street's betting is complete once the action is
    /// applied.
    pub open spec fn acted_turn_completed(self, action: u8) -> bool {
        &&& count_matched(self.acted_players(action), (self.acted_bet_phase(action) as u64))
            == self.players@.len()
        &&& if self.poker_phase == 0 && !self.acted_been_all_in(action) {
            self.acted_turn() >= self.total_players + 2
        } else {
            self.acted_turn() >= self.acted_contenders(action)
        }
    }

    /// Whether a table in this state ends its round at the next
    /// resolution: a single contender remains, or the street is complete
    /// after an all-in or on the river.
    pub open spec fn resolves_settlement(self) -> bool {
        self.n_players_in_hand == 1 || (self.turn_completed_spec() && (self.been_all_in
            || self.poker_phase == 3))
    }

    /// Whether this action ends the round: it leaves a single contender,
    /// or it completes the street after an all-in or on the river.
    pub open spec fn step_settles(self, action: u8) -> bool {
        self.acted_contenders(action) == 1 || (self.acted_turn_completed(action) && (
        self.acted_been_all_in(action) || self.poker_phase == 3))
    }

    /// A betting street is complete when every seat has matched the
    /// outstanding bet, is all-in, or has folded, and enough actions have
    /// been taken: one per contender, with the two blinds on top before
    /// the flop.
    pub open spec fn turn_completed_spec(self) -> bool {
        &&& count_matched(self.players@, self.bet_phase) == self.players@.len()
        &&& if self.poker_phase == 0 && !self.been_all_in {
            self.turn_in_phase >= self.total_players + 2
        } else {
            self.turn_in_phase >= self.n_players_in_hand
        }
    }

    fn is_turn_completed(&self) -> (r: bool)
        requires
            self.wf(),
        ensures
            r == self.turn_completed_spec(),
    {
        let t_p = self.total_players as usize;
        let mut count: usize = 0;
        let mut i: usize = 0;
        while i < t_p
            invariant
                self.wf(),
                t_p == self.players@.len(),
                0 <= i <= t_p,
                count == count_matched(self.players@.take(i as int), self.bet_phase),
                count <= i,
            decreases t_p - i,
        {
            proof {
                assert(self.players@.take(i + 1).drop_last() =~= self.players@.take(i as int));
                assert(self.players@.take(i + 1).last() == self.players@[i as int]);
            }
            if self.bet_phase == self.players[i].bet || self.players[i].in_all_in
                || !self.players[i].in_hand {
                count = count + 1;
            }
            i = i + 1;
        }
        proof {
            assert(self.players@.take(t_p as int) =~= self.players@);
        }
        let done = t_p == count;
        if self.poker_phase == 0 && !self.been_all_in {
            done && self.turn_in_phase >= self.total_players + 2
        } else {
            done && self.turn_in_phase >= self.n_players_in_hand
        }
    }

    /// The legal action codes for the acting seat, in the order offered:
    /// a forced blind opens the round; with no bet outstanding, check or
    /// bet; with the bet matched, check or raise; below the bet, fold,
    /// call, the affordable raise tiers and all-in — but after an all-in
    /// this round, the ordinary bet and raise tiers are suppressed and
    /// only fold, call and all-in remain.
    pub open spec fn legal_actions_spec(self) -> Seq<u8> {
        let cp = self.current_player as int;
        let p = self.players@[cp];
        let n = self.total_players as int;
        if !p.in_hand {
            Seq::empty()
        } else if self.poker_phase == 0 && p.bet == 0 && cp == (self.button + 1) % n {
            seq![0u8]
        } else if self.poker_phase == 0 && p.bet == 0 && cp == (self.button + 2) % n {
            seq![1u8]
        } else if p.bet < self.bet_phase {
            seq![2u8] + (if !self.been_all_in {
                (if p.credits >= self.bet_phase {
                    seq![5u8]
                } else {
                    Seq::<u8>::empty()
                }) + (if self.bet_phase < 25 && 25 < p.credits {
                    seq![6u8]
                } else {
                    Seq::<u8>::empty()
                }) + (if self.bet_phase < 50 && 50 < p.credits {
                    seq![7u8]
                } else {
                    Seq::<u8>::empty()
                }) + (if self.bet_phase < 100 && 100 < p.credits {
                    seq![8u8]
                } else {
                    Seq::<u8>::empty()
                }) + (if self.bet_phase < 500 && 500 < p.credits {
                    seq![9u8]
                } else {
                    Seq::<u8>::empty()
                }) + (if self.bet_phase < 1000 && 1000 < p.credits {
                    seq![10u8]
                } else {
                    Seq::<u8>::empty()
                }) + seq![11u8]
            } else {
                (if p.credits >= self.bet_phase {
                    seq![5u8]
                } else {
                    Seq::<u8>::empty()
                }) + seq![11u8]
            })
        } else if self.bet_phase == 0 {
            seq![3u8, 4u8]
        } else if self.bet_phase == p.bet {
            seq![3u8, 6u8]
        } else {
            Seq::empty()
        }
    }

    /// The ordered action codes legal for the player to act.
    pub fn legal_actions(&self) -> (r: Vec<u8>)
        requires
            self.wf(),
        ensures
            r@ == self.legal_actions_spec(),
    {
        let c_p = self.current_player as usize;
        let mut actions: Vec<u8> = Vec::new();
        if !self.players[c_p].in_hand {
            proof {
                assert(actions@ =~= self.legal_actions_spec());
            }
            return actions;
        }
        if self.poker_phase == 0 && self.players[c_p].bet == 0 {
            if self.current_player == (self.button + 1) % self.total_players {
                actions.push(0);
                proof {
                    assert(actions@ =~= self.legal_actions_spec());
                }
                return actions;
            }
            if self.current_player == (self.button + 2) % self.total_players {
                actions.push(1);
                proof {
                    assert(actions@ =~= self.legal_actions_spec());
                }
                return actions;
            }
        }
        if self.bet_phase == 0 {
            actions.push(3);
            actions.push(4);
        }
        if self.bet_phase == self.players[c_p].bet && self.bet_phase != 0 {
            actions.push(3);
            actions.push(6);
        }
        if self.players[c_p].bet < self.bet_phase {
            actions.push(2);
            if !self.been_all_in {
                if self.players[c_p].credits >= self.bet_phase {
                    actions.push(5);
                }
                if self.bet_phase < 25 && 25 < self.players[c_p].credits {
                    actions.push(6);
                }
                if self.bet_phase < 50 && 50 < self.players[c_p].credits {
                    actions.push(7);
                }
                if self.bet_phase < 100 && 100 < self.players[c_p].credits {
                    actions.push(8);
                }
                if self.bet_phase < 500 && 500 < self.players[c_p].credits {
                    actions.push(9);
                }
                if self.bet_phase < 1000 && 1000 < self.players[c_p].credits {
                    actions.push(10);
                }
                actions.push(11);
            } else {
                if self.players[c_p].credits >= self.bet_phase {
                    actions.push(5);
                }
                actions.push(11);
            }
        }
        proof {
            assert(actions@ =~= self.legal_actions_spec());
        }
        actions
    }

    /// Sweep every street bet into the pots. With no all-in this round,
    /// all bets join the single main pot and every seat is eligible.
    /// After an all-in, the in-hand players' distinct bet amounts form
    /// tiers: each tier takes from every player the slice of their bet
    /// between the previous level and its own, and the slice above the
    /// top level joins the top tier. The first tier joins the main pot;
    /// each further tier opens a side pot whose eligible seats are those
    /// whose street bet reached its level. The chips collected equal the
    /// bets swept.
    #[verifier::loop_isolation(false)]
    #[verifier::rlimit(100)]
    fn collect_bets(&mut self)
        requires
            old(self).wf(),
        ensures
            final(self).wf(),
            final(self).players@.len() == old(self).players@.len(),
            forall|i: int| 0 <= i < old(self).players@.len() ==> final(self).players@[i]
                == (Player { bet: 0, ..old(self).players@[i] }),
            sum_amounts(final(self).hole@) == sum_amounts(old(self).hole@) + sum_bets(
                old(self).players@,
            ),
            final(self).hole_limbs@.len() == final(self).hole@.len(),
            final(self).hole@.len() >= old(self).hole@.len(),
            final(self).hole_limbs@[0]@ == all_ids(old(self).players@.len() as int),
            !old(self).been_all_in ==> final(self).hole@ == old(self).hole@.update(
                0,
                ((old(self).hole@[0] + sum_bets(old(self).players@)) as u64),
            ),
            old(self).been_all_in ==> {
                let lv = spec_levels(old(self).players@, old(self).players@.len() as int);
                let np = old(self).players@.len() as int;
                let base = old(self).hole@.len() as int;
                &&& lv.len() >= 1
                &&& final(self).hole@.len() == base + lv.len() - 1
                &&& final(self).hole@[0] as int == old(self).hole@[0] + tier_amount(
                    old(self).players@,
                    lv,
                    0,
                    np,
                )
                &&& (forall|x: int| 1 <= x < base ==> final(self).hole@[x] == old(self).hole@[x])
                &&& (forall|x: int| 0 <= x < lv.len() - 1 ==> #[trigger] final(self).hole@[base + x]
                    as int == tier_amount(old(self).players@, lv, x + 1, np))
                &&& (forall|x: int| 0 <= x < lv.len() - 1 ==> (#[trigger] final(self).hole_limbs@[base + x])@ == tier_eligible(old(self).players@, lv[x + 1], np))
                &&& (forall|x: int| 1 <= x < base ==> (#[trigger] final(self).hole_limbs@[x])@
                    == if x < old(self).hole_limbs@.len() {
                    old(self).hole_limbs@[x]@
                } else {
                    Seq::<u8>::empty()
                })
            },
            final(self).deck == old(self).deck,
            final(self).community_cards == old(self).community_cards,
            final(self).n_players_in_hand == old(self).n_players_in_hand,
            final(self).total_players == old(self).total_players,
            final(self).current_player == old(self).current_player,
            final(self).turn_in_phase == old(self).turn_in_phase,
            final(self).poker_phase == old(self).poker_phase,
            final(self).bet_phase == old(self).bet_phase,
            final(self).button == old(self).button,
            final(self).been_all_in == old(self).been_all_in,
            final(self).infinite_credits == old(self).infinite_credits,
    {
        let ghost ps0 = self.players@;
        let ghost hole0 = self.hole@;
        let n = self.total_players as usize;
        proof {
            lemma_amounts_bounds(hole0, 0);
            lemma_sums_nonneg(ps0);
            lemma_amounts_nonneg(hole0);
        }
        if !self.been_all_in {
            let mut total: u64 = 0;
            let mut i: usize = 0;
            proof {
                assert(ps0.take(0) =~= Seq::<Player>::empty());
            }
            while i < n
                invariant
                    0 <= i <= n,
                    self.players@.len() == ps0.len(),
                    forall|m: int| 0 <= m < i ==> self.players@[m] == (Player {
                        bet: 0,
                        ..ps0[m]
                    }),
                    forall|m: int| i <= m < ps0.len() ==> self.players@[m] == ps0[m],
                    total == sum_bets(ps0.take(i as int)),
                    same_core(*old(self), *self),
                    self.hole@ == hole0,
                    self.hole_limbs@ == old(self).hole_limbs@,
                decreases n - i,
            {
                proof {
                    lemma_sum_bets_take_step(ps0, i as int);
                    lemma_sum_bets_take_bound(ps0, i + 1);
                }
                total = total + self.players[i].bet;
                self.players[i].bet = 0;
                proof {
                    assert(self.players@[i as int] == (Player { bet: 0, ..ps0[i as int] }));
                }
                i = i + 1;
            }
            proof {
                assert(ps0.take(n as int) =~= ps0);
            }
            self.hole[0] = self.hole[0] + total;
            proof {
                lemma_amounts_update(hole0, 0, (hole0[0] + total) as u64);
            }
            let limb = make_all_ids(self.total_players);
            let mut limbs: Vec<Vec<u8>> = Vec::new();
            limbs.push(limb);
            self.hole_limbs = limbs;
            proof {
                assert(self.hole_limbs@.len() == 1);
                assert(self.hole_limbs@[0]@ == all_ids(ps0.len() as int));
                assert(self.hole@ =~= hole0.update(0, ((hole0[0] + sum_bets(ps0)) as u64)));
            }
        } else {
            // The distinct bet levels of the in-hand players, ascending.
            let mut levels: Vec<u64> = Vec::new();
            let mut i: usize = 0;
            while i < n
                invariant
                    0 <= i <= n,
                    self.players@ == ps0,
                    strictly_sorted(levels@),
                    levels@.len() <= i,
                    levels@ == spec_levels(ps0, i as int),
                    forall|m: int| 0 <= m < i && (#[trigger] ps0[m]).in_hand ==> levels@.contains(
                        ps0[m].bet,
                    ),
                decreases n - i,
            {
                if self.players[i].in_hand {
                    let b = self.players[i].bet;
                    let ghost lv0 = levels@;
                    insert_level(&mut levels, b);
                    proof {
                        assert(levels@.contains(b));
                        assert(ps0[i as int].in_hand && levels@.contains(ps0[i as int].bet));
                        assert forall|m: int|
                            0 <= m < i + 1 && (#[trigger] ps0[m]).in_hand implies levels@.contains(
                            ps0[m].bet,
                        ) by {
                            if m < i {
                                assert(lv0.contains(ps0[m].bet));
                            }
                        }
                    }
                }
                i = i + 1;
            }
            proof {
                lemma_count_in_hand_witness(ps0);
                let w = choose|m: int| 0 <= m < ps0.len() && ps0[m].in_hand;
                assert(levels@.contains(ps0[w].bet));
                assert(levels@.len() >= 1);
            }
            let n_levels = levels.len();
            // Eligibility for the side-pot tiers: seats whose street bet
            // reached the tier's level.
            let mut side_limbs: Vec<Vec<u8>> = Vec::new();
            let mut k: usize = 1;
            while k < n_levels
                invariant
                    1 <= k <= n_levels,
                    self.players@ == ps0,
                    n == ps0.len(),
                    n_levels == levels@.len(),
                    side_limbs@.len() == k - 1,
                    forall|x: int| 0 <= x < k - 1 ==> (#[trigger] side_limbs@[x])@
                        == tier_eligible(ps0, levels@[x + 1], n as int),
                decreases n_levels - k,
            {
                let mut e: Vec<u8> = Vec::new();
                let mut m: usize = 0;
                while m < n
                    invariant
                        0 <= m <= n,
                        self.players@ == ps0,
                        n == ps0.len(),
                        n_levels == levels@.len(),
                        1 <= k < n_levels,
                        e@ == tier_eligible(ps0, levels@[k as int], m as int),
                    decreases n - m,
                {
                    if self.players[m].bet >= levels[k] {
                        e.push(self.players[m].id);
                    }
                    m = m + 1;
                }
                side_limbs.push(e);
                k = k + 1;
            }
            // Distribute each player's bet across the tiers.
            let mut pots_new: Vec<u64> = Vec::new();
            let mut k2: usize = 0;
            while k2 < n_levels
                invariant
                    0 <= k2 <= n_levels,
                    pots_new@.len() == k2,
                    forall|x: int| 0 <= x < k2 ==> #[trigger] pots_new@[x] == 0,
                    sum_amounts(pots_new@) == 0,
                decreases n_levels - k2,
            {
                let ghost pn0 = pots_new@;
                pots_new.push(0);
                proof {
                    lemma_amounts_push(pn0, 0);
                }
                k2 = k2 + 1;
            }
            let mut i2: usize = 0;
            proof {
                assert(ps0.take(0) =~= Seq::<Player>::empty());
                assert(forall|x: int|
                    0 <= x < n_levels ==> tier_amount(ps0, levels@, x, 0) == 0);
            }
            while i2 < n
                invariant
                    0 <= i2 <= n,
                    self.players@.len() == ps0.len(),
                    forall|m: int| 0 <= m < i2 ==> self.players@[m] == (Player {
                        bet: 0,
                        ..ps0[m]
                    }),
                    forall|m: int| i2 <= m < ps0.len() ==> self.players@[m] == ps0[m],
                    pots_new@.len() == n_levels,
                    n_levels == levels@.len(),
                    1 <= n_levels,
                    strictly_sorted(levels@),
                    sum_amounts(pots_new@) == sum_bets(ps0.take(i2 as int)),
                    forall|x: int| 0 <= x < n_levels ==> #[trigger] pots_new@[x] as int
                        == tier_amount(ps0, levels@, x, i2 as int),
                    same_core(*old(self), *self),
                    self.hole@ == hole0,
                    self.hole_limbs@ == old(self).hole_limbs@,
                decreases n - i2,
            {
                let b = self.players[i2].bet;
                let ghost base = sum_bets(ps0.take(i2 as int));
                proof {
                    lemma_sum_bets_take_step(ps0, i2 as int);
                    lemma_sum_bets_take_bound(ps0, i2 + 1);
                }
                let mut prev: u64 = 0;
                let mut k3: usize = 0;
                while k3 < n_levels
                    invariant
                        0 <= k3 <= n_levels,
                        pots_new@.len() == n_levels,
                        n_levels == levels@.len(),
                        strictly_sorted(levels@),
                        prev == if k3 == 0 {
                            0
                        } else {
                            levels@[k3 - 1] as int
                        },
                        b == ps0[i2 as int].bet,
                        forall|x: int| 0 <= x < n_levels ==> #[trigger] pots_new@[x] as int
                            == tier_amount(ps0, levels@, x, i2 as int) + if x < k3 {
                            base_slice(b, levels@, x)
                        } else {
                            0int
                        },
                        sum_amounts(pots_new@) == base + (if b < prev {
                            b as int
                        } else {
                            prev as int
                        }),
                        base + b <= sum_bets(ps0),
                        sum_bets(ps0) + sum_amounts(hole0) <= i64::MAX,
                    decreases n_levels - k3,
                {
                    let lv = levels[k3];
                    let c: u64 = if b >= lv {
                        lv - prev
                    } else if b > prev {
                        b - prev
                    } else {
                        0
                    };
                    proof {
                        lemma_amounts_bounds(pots_new@, k3 as int);
                        assert(c as int == base_slice(b, levels@, k3 as int));
                    }
                    let ghost pn0 = pots_new@;
                    pots_new[k3] = pots_new[k3] + c;
                    proof {
                        lemma_amounts_update(pn0, k3 as int, (pn0[k3 as int] + c) as u64);
                    }
                    prev = lv;
                    k3 = k3 + 1;
                }
                if b > prev {
                    proof {
                        lemma_amounts_bounds(pots_new@, n_levels - 1);
                    }
                    let ghost pn0 = pots_new@;
                    let top = pots_new[n_levels - 1] + (b - prev);
                    pots_new[n_levels - 1] = top;
                    proof {
                        lemma_amounts_update(pn0, n_levels - 1, top);
                    }
                }
                self.players[i2].bet = 0;
                proof {
                    assert(self.players@[i2 as int] == (Player { bet: 0, ..ps0[i2 as int] }));
                    assert forall|x: int| 0 <= x < n_levels implies #[trigger] pots_new@[x] as int
                        == tier_amount(ps0, levels@, x, i2 + 1) by {
                        assert(tier_amount(ps0, levels@, x, i2 + 1) == tier_amount(
                            ps0,
                            levels@,
                            x,
                            i2 as int,
                        ) + tier_slice(ps0[i2 as int].bet, levels@, x));
                    }
                }
                i2 = i2 + 1;
            }
            proof {
                assert(ps0.take(n as int) =~= ps0);
            }
            // Merge: the first tier joins the main pot, the rest open new
            // side pots.
            proof {
                lemma_amounts_bounds(pots_new@, 0);
            }
            self.hole[0] = self.hole[0] + pots_new[0];
            let ghost hole1 = self.hole@;
            proof {
                lemma_amounts_update(hole0, 0, (hole0[0] + pots_new@[0]) as u64);
                assert(pots_new@.take(1).drop_last() =~= Seq::<u64>::empty());
                assert(sum_amounts(Seq::<u64>::empty()) == 0);
                assert(sum_amounts(pots_new@.take(1)) == pots_new@[0]);
            }
            let mut k4: usize = 1;
            while k4 < n_levels
                invariant
                    1 <= k4 <= n_levels,
                    pots_new@.len() == n_levels,
                    self.hole@.len() == hole0.len() + k4 - 1,
                    sum_amounts(self.hole@) == sum_amounts(hole0) + sum_amounts(pots_new@.take(k4 as int)),
                    self.hole@[0] == hole1[0],
                    hole1[0] as int == hole0[0] + pots_new@[0],
                    forall|x: int| 1 <= x < hole0.len() ==> #[trigger] self.hole@[x] == hole0[x],
                    forall|x: int| 0 <= x < k4 - 1 ==> #[trigger] self.hole@[hole0.len() + x]
                        == pots_new@[x + 1],
                    same_core(*old(self), *self),
                    self.players@.len() == ps0.len(),
                    forall|m: int| 0 <= m < ps0.len() ==> self.players@[m] == (Player {
                        bet: 0,
                        ..ps0[m]
                    }),
                    self.hole_limbs@ == old(self).hole_limbs@,
                decreases n_levels - k4,
            {
                let ghost h = self.hole@;
                self.hole.push(pots_new[k4]);
                proof {
                    lemma_amounts_push(h, pots_new@[k4 as int]);
                    assert(pots_new@.take(k4 + 1).drop_last() =~= pots_new@.take(k4 as int));
                    assert(pots_new@.take(k4 + 1).last() == pots_new@[k4 as int]);
                }
                k4 = k4 + 1;
            }
            proof {
                assert(pots_new@.take(n_levels as int) =~= pots_new@);
            }
            // Eligibility: every seat for the main pot; earlier side pots
            // keep their sets; the new tiers take theirs.
            let old_limbs_len = self.hole_limbs.len();
            let mut limbs: Vec<Vec<u8>> = Vec::new();
            limbs.push(make_all_ids(self.total_players));
            let mut k5: usize = 1;
            let ghost old_hole_len = hole0.len();
            while k5 < self.hole.len() - (n_levels - 1)
                invariant
                    1 <= k5 <= old_hole_len,
                    self.hole@.len() == old_hole_len + n_levels - 1,
                    old_limbs_len == old(self).hole_limbs@.len(),
                    self.hole_limbs@ == old(self).hole_limbs@,
                    limbs@.len() == k5,
                    limbs@[0]@ == all_ids(ps0.len() as int),
                    forall|x: int| 1 <= x < k5 ==> (#[trigger] limbs@[x])@ == if x
                        < old(self).hole_limbs@.len() {
                        old(self).hole_limbs@[x]@
                    } else {
                        Seq::<u8>::empty()
                    },
                decreases old_hole_len - k5,
            {
                if k5 < old_limbs_len {
                    let carried = self.hole_limbs[k5].clone();
                    proof {
                        assert(carried@ =~= self.hole_limbs@[k5 as int]@);
                    }
                    limbs.push(carried);
                } else {
                    limbs.push(Vec::new());
                }
                k5 = k5 + 1;
            }
            let mut k6: usize = 0;
            while k6 < side_limbs.len()
                invariant
                    0 <= k6 <= side_limbs@.len(),
                    side_limbs@.len() == n_levels - 1,
                    n_levels == levels@.len(),
                    n == ps0.len(),
                    limbs@.len() == old_hole_len + k6,
                    limbs@[0]@ == all_ids(ps0.len() as int),
                    forall|x: int| 1 <= x < old_hole_len ==> (#[trigger] limbs@[x])@ == if x
                        < old(self).hole_limbs@.len() {
                        old(self).hole_limbs@[x]@
                    } else {
                        Seq::<u8>::empty()
                    },
                    forall|x: int| 0 <= x < side_limbs@.len() ==> (#[trigger] side_limbs@[x])@
                        == tier_eligible(ps0, levels@[x + 1], n as int),
                    forall|x: int| 0 <= x < k6 ==> (#[trigger] limbs@[old_hole_len + x])@
                        == tier_eligible(ps0, levels@[x + 1], n as int),
                decreases side_limbs@.len() - k6,
            {
                let tier = side_limbs[k6].clone();
                proof {
                    assert(tier@ =~= side_limbs@[k6 as int]@);
                }
                limbs.push(tier);
                k6 = k6 + 1;
            }
            self.hole_limbs = limbs;
        }
        proof {
            let psf = self.players@;
            assert(forall|i: int| 0 <= i < psf.len() ==> (#[trigger] psf[i]).bet == 0);
            lemma_sum_bets_zero(psf);
            lemma_sums_pointwise(psf, ps0);
        }
    }

    /// Pay out the pots and report each seat's net result for the round:
    /// its winnings minus everything it bet this round. Winners' credits
    /// grow by their winnings; the pots themselves are cleared at the next
    /// reset.
    #[verifier::loop_isolation(false)]
    #[verifier::rlimit(100)]
    fn get_reward(&mut self) -> (r: Vec<i64>)
        requires
            old(self).wf(),
            old(self).hole_limbs@.len() == old(self).hole@.len(),
        ensures
            r@.len() == old(self).players@.len(),
            forall|i: int| 0 <= i < old(self).players@.len() ==> r@[i] == winnings_spec(
                old(self).players@,
                hand_values(old(self).players@),
                old(self).hole@,
                limb_views(old(self).hole_limbs@),
                i,
                old(self).n_players_in_hand as int,
            ) - old(self).players@[i].total_bet,
            final(self).players@.len() == old(self).players@.len(),
            forall|i: int| 0 <= i < old(self).players@.len() ==> final(self).players@[i]
                == (Player {
                credits: ((old(self).players@[i].credits + winnings_spec(
                    old(self).players@,
                    hand_values(old(self).players@),
                    old(self).hole@,
                    limb_views(old(self).hole_limbs@),
                    i,
                    old(self).n_players_in_hand as int,
                )) as u64),
                ..old(self).players@[i]
            }),
            sum_credits(final(self).players@) <= sum_credits(old(self).players@) + sum_amounts(
                old(self).hole@,
            ),
            sum_credits(final(self).players@) == sum_credits(old(self).players@)
                + distributed_amounts(
                old(self).players@,
                hand_values(old(self).players@),
                old(self).hole@,
                limb_views(old(self).hole_limbs@),
                old(self).n_players_in_hand as int,
            ),
            same_core(*old(self), *final(self)),
            final(self).hole@ == old(self).hole@,
            final(self).hole_limbs@ == old(self).hole_limbs@,
    {
        let ghost ps0 = self.players@;
        let ghost vals = hand_values(ps0);
        let ghost holes0 = self.hole@;
        proof {
            assert(forall|j: int| 0 <= j < ps0.len() ==> #[trigger] vals[j] == ps0[j].hand_value@);
        }
        let ghost lvs = limb_views(self.hole_limbs@);
        let ghost contenders = self.n_players_in_hand as int;
        let n = self.total_players as usize;
        proof {
            lemma_sums_nonneg(ps0);
            lemma_amounts_nonneg(holes0);
        }
        let mut ws: Vec<u64> = Vec::new();
        let mut z: usize = 0;
        while z < n
            invariant
                0 <= z <= n,
                ws@.len() == z,
                forall|m: int| 0 <= m < z ==> #[trigger] ws@[m] == 0,
                sum_amounts(ws@) == 0,
            decreases n - z,
        {
            let ghost w0 = ws@;
            ws.push(0);
            proof {
                lemma_amounts_push(w0, 0);
            }
            z = z + 1;
        }
        let n_pots = self.hole.len();
        proof {
            assert(holes0.take(0) =~= Seq::<u64>::empty());
            assert(lvs.take(0) =~= Seq::<Seq<u8>>::empty());
            assert forall|i: int| 0 <= i < n implies #[trigger] ws@[i] == winnings_spec(
                ps0,
                vals,
                holes0.take(0),
                lvs.take(0),
                i,
                contenders,
            ) by {
                assert(winnings_spec(ps0, vals, holes0.take(0), lvs.take(0), i, contenders)
                    == 0);
            }
        }
        let mut k: usize = 0;
        while k < n_pots
            invariant
                0 <= k <= n_pots,
                n_pots == holes0.len(),
                *self == *old(self),
                ws@.len() == n,
                n == ps0.len(),
                lvs.len() == n_pots,
                forall|i: int| 0 <= i < n ==> #[trigger] ws@[i] == winnings_spec(
                    ps0,
                    vals,
                    holes0.take(k as int),
                    lvs.take(k as int),
                    i,
                    contenders,
                ),
                sum_amounts(ws@) <= sum_amounts(holes0.take(k as int)),
                sum_amounts(ws@) == distributed_amounts(
                    ps0,
                    vals,
                    holes0.take(k as int),
                    lvs.take(k as int),
                    contenders,
                ),
            decreases n_pots - k,
        {
            let amount = self.hole[k];
            let ghost limb = lvs[k as int];
            let ghost ws_before = ws@;
            proof {
                assert(sum_amounts(ws_before) <= sum_amounts(holes0.take(k as int)));
                assert(limb == self.hole_limbs@[k as int]@);
                lemma_amounts_take_step(holes0, k as int);
                lemma_amounts_take_bound(holes0, k + 1);
                lemma_amounts_bounds(holes0, k as int);
            }
            if self.n_players_in_hand > 1 {
                // Find the strongest hand value among the eligible seats.
                let mut best: Option<Vec<u8>> = Option::None;
                let ghost mut bi: int = 0;
                let mut m: usize = 0;
                while m < n
                    invariant
                        0 <= m <= n,
                        *self == *old(self),
                        ws@ == ws_before,
                        limb == self.hole_limbs@[k as int]@,
                        k < n_pots,
                        match best {
                            Option::Some(bv) => {
                                &&& 0 <= bi < m
                                &&& eligible(ps0, limb, bi)
                                &&& ps0[bi].hand_value@ == bv@
                                &&& forall|j: int| 0 <= j < m && eligible(ps0, limb, j)
                                    ==> cmp_value((#[trigger] ps0[j]).hand_value@, bv@) != 1
                            },
                            Option::None => forall|j: int| 0 <= j < m ==> !eligible(ps0, limb, j),
                        },
                    decreases n - m,
                {
                    let elig = self.players[m].in_hand && contains_u8(
                        &self.hole_limbs[k],
                        self.players[m].id,
                    );
                    proof {
                        assert(elig == eligible(ps0, limb, m as int));
                    }
                    if elig {
                        let is_new_best: bool = match &best {
                            Option::None => {
                                proof {
                                    lemma_cmp_total(
                                        ps0[m as int].hand_value@,
                                        ps0[m as int].hand_value@,
                                    );
                                }
                                true
                            },
                            Option::Some(bv) => {
                                let w = winner(&self.players[m].hand_value, bv);
                                if w == 1 {
                                    proof {
                                        let ghost hv = ps0[m as int].hand_value@;
                                        assert forall|j: int|
                                            0 <= j < m + 1 && eligible(ps0, limb, j) implies
                                            cmp_value((#[trigger] ps0[j]).hand_value@, hv) != 1 by {
                                            if j < m && cmp_value(ps0[j].hand_value@, hv) == 1 {
                                                lemma_cmp_strict_transitive(
                                                    ps0[j].hand_value@,
                                                    hv,
                                                    bv@,
                                                );
                                            }
                                            lemma_cmp_total(hv, hv);
                                        }
                                    }
                                    true
                                } else {
                                    false
                                }
                            },
                        };
                        if is_new_best {
                            let bv2 = self.players[m].hand_value.clone();
                            proof {
                                assert(bv2@ =~= ps0[m as int].hand_value@);
                            }
                            best = Option::Some(bv2);
                            proof {
                                bi = m as int;
                            }
                        }
                    }
                    m = m + 1;
                }
                match &best {
                    Option::None => {
                        proof {
                            assert(sum_amounts(ws@) == sum_amounts(ws_before));
                            assert forall|i: int| !is_pot_winner(ps0, vals, limb, i) by {
                                if 0 <= i < ps0.len() {
                                    assert(!eligible(ps0, limb, i));
                                }
                            }
                            assert(!pot_has_winner(ps0, vals, limb, contenders));
                            assert forall|i: int| 0 <= i < n implies #[trigger] ws@[i]
                                == winnings_spec(
                                ps0,
                                vals,
                                holes0.take(k + 1),
                                lvs.take(k + 1),
                                i,
                                contenders,
                            ) by {
                                assert(holes0.take(k + 1).drop_last() =~= holes0.take(k as int));
                                assert(lvs.take(k + 1).drop_last() =~= lvs.take(k as int));
                                assert(holes0.take(k + 1).last() == holes0[k as int]);
                                assert(lvs.take(k + 1).last() == limb);
                                assert(!is_pot_winner(ps0, vals, limb, i));
                                assert(pot_share(ps0, vals, limb, holes0[k as int], i, contenders) == 0);
                            }
                        }
                    },
                    Option::Some(bv) => {
                        // The winners are exactly the eligible seats whose
                        // hand value equals the strongest one.
                        proof {
                            assert forall|i: int| 0 <= i < n implies (is_pot_winner(ps0, vals, limb, i)
                                <==> (eligible(ps0, limb, i) && ps0[i].hand_value@ == bv@)) by {
                                if eligible(ps0, limb, i) && ps0[i].hand_value@ == bv@ {
                                    assert forall|j: int|
                                        0 <= j < ps0.len() && eligible(ps0, limb, j) implies
                                        cmp_value(#[trigger] vals[j], vals[i]) != 1 by {
                                        assert(vals[j] == ps0[j].hand_value@);
                                        assert(vals[i] == ps0[i].hand_value@);
                                        assert(cmp_value(ps0[j].hand_value@, bv@) != 1);
                                    }
                                    assert(is_pot_winner(ps0, vals, limb, i));
                                }
                                if is_pot_winner(ps0, vals, limb, i) {
                                    assert(vals[bi] == ps0[bi].hand_value@);
                                    assert(vals[i] == ps0[i].hand_value@);
                                    assert(cmp_value(vals[bi], vals[i]) != 1);
                                    assert(cmp_value(ps0[bi].hand_value@, ps0[i].hand_value@)
                                        != 1);
                                    assert(cmp_value(ps0[i].hand_value@, bv@) != 1);
                                    lemma_cmp_antisymmetric(bv@, ps0[i].hand_value@);
                                    lemma_cmp_total(ps0[i].hand_value@, bv@);
                                    assert(cmp_value(ps0[i].hand_value@, bv@) != 2);
                                    assert(ps0[i].hand_value@ == bv@);
                                }
                            }
                            assert(is_pot_winner(ps0, vals, limb, bi));
                            lemma_count_winners_at_least(ps0, vals, limb, bi, n as int);
                        }
                        // Count the winners and find the first in seat order.
                        let mut cnt: usize = 0;
                        let mut first: usize = n;
                        let mut m2: usize = 0;
                        while m2 < n
                            invariant
                                0 <= m2 <= n,
                                *self == *old(self),
                                ws@ == ws_before,
                                limb == self.hole_limbs@[k as int]@,
                                k < n_pots,
                                forall|i: int| 0 <= i < n ==> (is_pot_winner(ps0, vals, limb, i) <==> (
                                eligible(ps0, limb, i) && (#[trigger] ps0[i]).hand_value@ == bv@)),
                                cnt == count_pot_winners(ps0, vals, limb, m2 as int),
                                cnt <= m2,
                                cnt > 0 ==> first < m2 && first as int == first_pot_winner_from(
                                    ps0,
                                    vals,
                                    limb,
                                    0,
                                ) && is_pot_winner(ps0, vals, limb, first as int),
                                cnt == 0 ==> first == n && forall|j: int| 0 <= j < m2
                                    ==> !is_pot_winner(ps0, vals, limb, j),
                            decreases n - m2,
                        {
                            let elig = self.players[m2].in_hand && contains_u8(
                                &self.hole_limbs[k],
                                self.players[m2].id,
                            );
                            let mut is_w = false;
                            if elig {
                                let w = winner(&self.players[m2].hand_value, bv);
                                proof {
                                    lemma_cmp_total(ps0[m2 as int].hand_value@, bv@);
                                }
                                if w == 0 {
                                    is_w = true;
                                }
                            }
                            proof {
                                assert(is_w == is_pot_winner(ps0, vals, limb, m2 as int));
                            }
                            if is_w {
                                if cnt == 0 {
                                    first = m2;
                                    proof {
                                        lemma_first_winner_skip(ps0, vals, limb, m2 as int);
                                    }
                                }
                                cnt = cnt + 1;
                            }
                            m2 = m2 + 1;
                        }
                        proof {
                            assert(cnt == count_pot_winners(ps0, vals, limb, n as int));
                            assert(cnt >= 1);
                        }
                        // Split the pot among the winners; the first takes
                        // the remainder.
                        let share = amount / (cnt as u64);
                        let rem = amount % (cnt as u64);
                        proof {
                            vstd::arithmetic::div_mod::lemma_fundamental_div_mod(
                                amount as int,
                                cnt as int,
                            );
                        }
                        proof {
                            assert(count_pot_winners(ps0, vals, limb, 0) == 0);
                            assert(share * count_pot_winners(ps0, vals, limb, 0) == 0) by (
                            nonlinear_arith)
                                requires
                                    count_pot_winners(ps0, vals, limb, 0) == 0,
                            ;
                        }
                        let mut m3: usize = 0;
                        while m3 < n
                            invariant
                                0 <= m3 <= n,
                                *self == *old(self),
                                ws@.len() == n,
                                limb == self.hole_limbs@[k as int]@,
                                k < n_pots,
                                cnt == count_pot_winners(ps0, vals, limb, n as int),
                                1 <= cnt,
                                first < n,
                                first as int == first_pot_winner_from(ps0, vals, limb, 0),
                                is_pot_winner(ps0, vals, limb, first as int),
                                share == amount as int / cnt as int,
                                rem == amount as int % cnt as int,
                                amount == holes0[k as int],
                                forall|j: int| 0 <= j < m3 ==> #[trigger] ws@[j] == ws_before[j]
                                    + pot_share(ps0, vals, limb, amount, j, contenders),
                                forall|j: int| m3 <= j < n ==> #[trigger] ws@[j] == ws_before[j],
                                sum_amounts(ws@) == sum_amounts(ws_before) + share
                                    * count_pot_winners(ps0, vals, limb, m3 as int) + if first < m3 {
                                    rem as int
                                } else {
                                    0int
                                },
                            decreases n - m3,
                        {
                            let elig = self.players[m3].in_hand && contains_u8(
                                &self.hole_limbs[k],
                                self.players[m3].id,
                            );
                            let mut is_w = false;
                            if elig {
                                let w = winner(&self.players[m3].hand_value, bv);
                                proof {
                                    lemma_cmp_total(ps0[m3 as int].hand_value@, bv@);
                                }
                                if w == 0 {
                                    is_w = true;
                                }
                            }
                            proof {
                                assert(is_w == is_pot_winner(ps0, vals, limb, m3 as int));
                                lemma_count_winners_monotone(ps0, vals, limb, 0, m3 as int);
                                lemma_count_winners_monotone(ps0, vals, limb, m3 as int, n as int);
                                lemma_count_winners_monotone(ps0, vals, limb, m3 + 1, n as int);
                                assert(count_pot_winners(ps0, vals, limb, 0) == 0);
                                lemma_amounts_bounds(ws@, m3 as int);
                                lemma_amounts_nonneg(ws_before);
                                assert(share * count_pot_winners(ps0, vals, limb, m3 as int) <= share
                                    * cnt) by (nonlinear_arith)
                                    requires
                                        share >= 0,
                                        count_pot_winners(ps0, vals, limb, m3 as int) <= cnt as int,
                                        count_pot_winners(ps0, vals, limb, m3 as int) >= 0,
                                ;
                                assert(sum_amounts(ws_before) <= sum_amounts(
                                    holes0.take(k as int),
                                ));
                                lemma_amounts_take_bound(holes0, k as int);
                            }
                            if is_w {
                                proof {
                                    assert(share * (cnt as int) == (cnt as int) * share) by (
                                    nonlinear_arith);
                                    assert(share + rem <= amount) by (nonlinear_arith)
                                        requires
                                            share * (cnt as int) + rem == amount as int,
                                            1 <= cnt as int,
                                            share >= 0,
                                            rem >= 0,
                                    ;
                                    assert(sum_amounts(ws@) <= sum_amounts(ws_before) + share * (
                                    cnt as int) + rem);
                                    assert(sum_amounts(ws@) <= sum_amounts(ws_before)
                                        + amount);
                                    lemma_amounts_take_step(holes0, k as int);
                                    lemma_amounts_take_bound(holes0, k + 1);
                                }
                                let ghost w0 = ws@;
                                let add: u64 = if m3 == first {
                                    share + rem
                                } else {
                                    share
                                };
                                let cur = ws[m3];
                                ws[m3] = cur + add;
                                proof {
                                    lemma_amounts_update(w0, m3 as int, (cur + add) as u64);
                                }
                            }
                            proof {
                                let c0 = count_pot_winners(ps0, vals, limb, m3 as int);
                                let c1 = count_pot_winners(ps0, vals, limb, m3 + 1);
                                assert(c1 == c0 + if is_w {
                                    1int
                                } else {
                                    0int
                                });
                                if is_w {
                                    assert(share * c1 == share * c0 + share) by (nonlinear_arith)
                                        requires
                                            c1 == c0 + 1,
                                    ;
                                }
                            }
                            m3 = m3 + 1;
                        }
                        proof {
                            assert(sum_amounts(ws@) == sum_amounts(ws_before) + share * (
                            cnt as int) + rem);
                            assert(share * (cnt as int) == (cnt as int) * share) by (
                            nonlinear_arith);
                            assert(share * (cnt as int) + rem == amount as int);
                            assert(pot_has_winner(ps0, vals, limb, contenders));
                            assert forall|i: int| 0 <= i < n implies #[trigger] ws@[i]
                                == winnings_spec(
                                ps0,
                                vals,
                                holes0.take(k + 1),
                                lvs.take(k + 1),
                                i,
                                contenders,
                            ) by {
                                assert(holes0.take(k + 1).drop_last() =~= holes0.take(k as int));
                                assert(lvs.take(k + 1).drop_last() =~= lvs.take(k as int));
                                assert(holes0.take(k + 1).last() == holes0[k as int]);
                                assert(lvs.take(k + 1).last() == limb);
                            }
                        }
                    },
                }
            } else {
                // A single contender takes every pot uncontested.
                proof {
                    assert(ps0.take(0) =~= Seq::<Player>::empty());
                    lemma_count_in_hand_take_bound(ps0, 0);
                }
                let mut m4: usize = 0;
                while m4 < n
                    invariant
                        0 <= m4 <= n,
                        *self == *old(self),
                        ws@.len() == n,
                        contenders == 1,
                        count_in_hand(ps0) == 1,
                        amount == holes0[k as int],
                        k < n_pots,
                        forall|j: int| 0 <= j < m4 ==> #[trigger] ws@[j] == ws_before[j] + if ps0[
                            j
                        ].in_hand {
                            amount as int
                        } else {
                            0int
                        },
                        forall|j: int| m4 <= j < n ==> #[trigger] ws@[j] == ws_before[j],
                        sum_amounts(ws@) == sum_amounts(ws_before) + amount * count_in_hand(
                            ps0.take(m4 as int),
                        ),
                    decreases n - m4,
                {
                    proof {
                        lemma_count_in_hand_take_step(ps0, m4 as int);
                        lemma_count_in_hand_take_bound(ps0, m4 as int);
                        lemma_count_in_hand_take_bound(ps0, m4 + 1);
                        lemma_amounts_bounds(ws@, m4 as int);
                        lemma_amounts_nonneg(ws_before);
                        assert(sum_amounts(ws_before) <= sum_amounts(holes0.take(k as int)));
                        lemma_amounts_take_bound(holes0, k as int);
                    }
                    if self.players[m4].in_hand {
                        let ghost w0 = ws@;
                        let cur = ws[m4];
                        ws[m4] = cur + amount;
                        proof {
                            lemma_amounts_update(w0, m4 as int, (cur + amount) as u64);
                        }
                    }
                    proof {
                        let c0 = count_in_hand(ps0.take(m4 as int));
                        let c1 = count_in_hand(ps0.take(m4 + 1));
                        assert(c1 == c0 + if ps0[m4 as int].in_hand {
                            1int
                        } else {
                            0int
                        });
                        if ps0[m4 as int].in_hand {
                            assert(amount * c1 == amount * c0 + amount) by (nonlinear_arith)
                                requires
                                    c1 == c0 + 1,
                            ;
                        }
                    }
                    m4 = m4 + 1;
                }
                proof {
                    assert(ps0.take(n as int) =~= ps0);
                    assert(count_in_hand(ps0) == 1);
                    assert(pot_has_winner(ps0, vals, limb, contenders));
                    assert(sum_amounts(ws@) == sum_amounts(ws_before) + amount * count_in_hand(
                        ps0,
                    ));
                    assert(amount * count_in_hand(ps0) == amount) by (nonlinear_arith)
                        requires
                            count_in_hand(ps0) == 1,
                    ;
                    assert forall|i: int| 0 <= i < n implies #[trigger] ws@[i] == winnings_spec(
                        ps0,
                        vals,
                        holes0.take(k + 1),
                        lvs.take(k + 1),
                        i,
                        contenders,
                    ) by {
                        assert(holes0.take(k + 1).drop_last() =~= holes0.take(k as int));
                        assert(lvs.take(k + 1).drop_last() =~= lvs.take(k as int));
                        assert(holes0.take(k + 1).last() == holes0[k as int]);
                        assert(lvs.take(k + 1).last() == limb);
                    }
                }
            }
            proof {
                lemma_amounts_take_step(holes0, k as int);
                assert(sum_amounts(ws@) <= sum_amounts(holes0.take(k as int)) + amount);
                assert(sum_amounts(ws@) <= sum_amounts(holes0.take(k + 1)));
                assert(holes0.take(k + 1).drop_last() =~= holes0.take(k as int));
                assert(lvs.take(k + 1).drop_last() =~= lvs.take(k as int));
                assert(holes0.take(k + 1).last() == holes0[k as int]);
                assert(lvs.take(k + 1).last() == limb);
            }
            k = k + 1;
        }
        proof {
            assert(holes0.take(n_pots as int) =~= holes0);
            assert(lvs.take(n_pots as int) =~= lvs);
            lemma_amounts_nonneg(ws@);
        }
        // Net result per seat: winnings minus the whole round's bets.
        let mut reward: Vec<i64> = Vec::new();
        let mut i: usize = 0;
        while i < n
            invariant
                0 <= i <= n,
                *self == *old(self),
                ws@.len() == n,
                n == ps0.len(),
                reward@.len() == i,
                sum_amounts(ws@) <= sum_amounts(holes0),
                forall|m: int| 0 <= m < i ==> #[trigger] reward@[m] == ws@[m]
                    - ps0[m].total_bet,
            decreases n - i,
        {
            proof {
                lemma_amounts_bounds(ws@, i as int);
                lemma_sums_bounds(ps0, i as int);
                lemma_amounts_nonneg(holes0);
            }
            reward.push(ws[i] as i64 - self.players[i].total_bet as i64);
            i = i + 1;
        }
        // Winners collect their earnings.
        let mut i2: usize = 0;
        proof {
            assert(ws@.take(0) =~= Seq::<u64>::empty());
        }
        while i2 < n
            invariant
                0 <= i2 <= n,
                ws@.len() == n,
                n == ps0.len(),
                self.players@.len() == n,
                same_core(*old(self), *self),
                self.hole@ == holes0,
                self.hole_limbs@ == old(self).hole_limbs@,
                self.bet_phase == old(self).bet_phase,
                sum_amounts(ws@) <= sum_amounts(holes0),
                forall|m: int| 0 <= m < i2 ==> #[trigger] self.players@[m] == (Player {
                    credits: ((ps0[m].credits + ws@[m]) as u64),
                    ..ps0[m]
                }),
                forall|m: int| i2 <= m < n ==> #[trigger] self.players@[m] == ps0[m],
                sum_credits(self.players@) == sum_credits(ps0) + sum_amounts(
                    ws@.take(i2 as int),
                ),
            decreases n - i2,
        {
            proof {
                lemma_amounts_bounds(ws@, i2 as int);
                lemma_sums_bounds(ps0, i2 as int);
                lemma_amounts_take_step(ws@, i2 as int);
                lemma_amounts_take_bound(ws@, i2 + 1);
            }
            let ghost psx = self.players@;
            let w = ws[i2];
            let cur = self.players[i2].credits;
            self.players[i2].credits = cur + w;
            proof {
                assert(self.players@ =~= psx.update(
                    i2 as int,
                    (Player { credits: ((ps0[i2 as int].credits + ws@[i2 as int]) as u64), ..ps0[
                        i2 as int
                    ] }),
                ));
                lemma_sums_update(
                    psx,
                    i2 as int,
                    (Player { credits: ((ps0[i2 as int].credits + ws@[i2 as int]) as u64), ..ps0[
                        i2 as int
                    ] }),
                );
            }
            i2 = i2 + 1;
        }
        proof {
            assert(ws@.take(n as int) =~= ws@);
            assert forall|i3: int| 0 <= i3 < n implies #[trigger] reward@[i3] == winnings_spec(
                ps0,
                vals,
                holes0,
                lvs,
                i3,
                contenders,
            ) - ps0[i3].total_bet by {
                assert(ws@[i3] == winnings_spec(ps0, vals, holes0, lvs, i3, contenders));
            }
        }
        reward
    }

    /// At showdown, give each contender their best five-card hand from
    /// their hole cards and the board, and record its strength vector.
    #[verifier::loop_isolation(false)]
    fn assign_winning_combination(&mut self)
        requires
            old(self).wf(),
            old(self).community_cards.wf(),
            all_valid(old(self).community_cards@),
            old(self).community_cards@.len() == 5,
            forall|i: int| 0 <= i < old(self).players@.len() ==> {
                &&& (#[trigger] old(self).players@[i]).hand.wf()
                &&& all_valid(old(self).players@[i].hand@)
                &&& old(self).players@[i].hand@.len() == 2
            },
        ensures
            final(self).wf(),
            final(self).players@.len() == old(self).players@.len(),
            forall|i: int| 0 <= i < old(self).players@.len() && (#[trigger] old(
                self,
            ).players@[i]).in_hand ==> {
                let best = best_hand_spec(
                    merge_cards(old(self).players@[i].hand@, old(self).community_cards@),
                );
                &&& final(self).players@[i].hand@ == best
                &&& final(self).players@[i].hand@.len() == 5
                &&& final(self).players@[i].hand.wf()
                &&& all_valid(final(self).players@[i].hand@)
                &&& final(self).players@[i].hand_value@ == strength(best)
                &&& final(self).players@[i].id == old(self).players@[i].id
                &&& final(self).players@[i].credits == old(self).players@[i].credits
                &&& final(self).players@[i].bet == old(self).players@[i].bet
                &&& final(self).players@[i].total_bet == old(self).players@[i].total_bet
                &&& final(self).players@[i].in_hand == old(self).players@[i].in_hand
                &&& final(self).players@[i].in_all_in == old(self).players@[i].in_all_in
                &&& final(self).players@[i].initial_credit == old(self).players@[i].initial_credit
            },
            forall|i: int| 0 <= i < old(self).players@.len() && !(#[trigger] old(
                self,
            ).players@[i]).in_hand ==> final(self).players@[i] == old(self).players@[i],
            same_core(*old(self), *final(self)),
            final(self).bet_phase == old(self).bet_phase,
            final(self).hole@ == old(self).hole@,
            final(self).hole_limbs@ == old(self).hole_limbs@,
    {
        let ghost ps0 = self.players@;
        let n = self.total_players as usize;
        let mut i: usize = 0;
        while i < n
            invariant
                0 <= i <= n,
                n == ps0.len(),
                self.players@.len() == n,
                same_core(*old(self), *self),
                self.bet_phase == old(self).bet_phase,
                self.hole@ == old(self).hole@,
                self.hole_limbs@ == old(self).hole_limbs@,
                self.community_cards == old(self).community_cards,
                forall|m: int| 0 <= m < i && (#[trigger] ps0[m]).in_hand ==> {
                    let best = best_hand_spec(
                        merge_cards(ps0[m].hand@, old(self).community_cards@),
                    );
                    &&& self.players@[m].hand@ == best
                    &&& self.players@[m].hand_value@ == strength(best)
                    &&& self.players@[m].hand.wf()
                    &&& all_valid(self.players@[m].hand@)
                    &&& self.players@[m].hand@.len() == 5
                    &&& self.players@[m].id == ps0[m].id
                    &&& self.players@[m].credits == ps0[m].credits
                    &&& self.players@[m].bet == ps0[m].bet
                    &&& self.players@[m].total_bet == ps0[m].total_bet
                    &&& self.players@[m].in_hand == ps0[m].in_hand
                    &&& self.players@[m].in_all_in == ps0[m].in_all_in
                    &&& self.players@[m].initial_credit == ps0[m].initial_credit
                },
                forall|m: int| 0 <= m < i && !(#[trigger] ps0[m]).in_hand ==> self.players@[m]
                    == ps0[m],
                forall|m: int| i <= m < n ==> #[trigger] self.players@[m] == ps0[m],
            decreases n - i,
        {
            if self.players[i].in_hand {
                let community = self.community_cards.clone_hand();
                self.players[i].set_winner_combination(&community);
                let v = self.players[i].hand.get_value();
                self.players[i].hand_value = v;
            }
            i = i + 1;
        }
        proof {
            assert forall|m: int| 0 <= m < self.players@.len() implies {
                &&& (#[trigger] self.players@[m]).id == ps0[m].id
                &&& self.players@[m].bet == ps0[m].bet
                &&& self.players@[m].hand@.len() <= 5
            } by {
                assert(ps0[m].in_hand || !ps0[m].in_hand);
                if ps0[m].in_hand {
                    assert(self.players@[m].hand@.len() == 5);
                } else {
                    assert(self.players@[m] == ps0[m]);
                }
            }
            lemma_sums_pointwise(self.players@, ps0);
            lemma_sum_bets_pointwise(self.players@, ps0);
        }
    }

    /// The part of the invariant that survives a payout, before the next
    /// reset rebuilds the pots: the seating, the index bounds, and the
    /// bound on credits.
    pub open spec fn base_wf(self) -> bool {
        &&& self.players@.len() == self.total_players as int
        &&& 2 <= self.total_players <= 23
        &&& forall|i: int| 0 <= i < self.players@.len() ==> (#[trigger] self.players@[i]).id == i
        &&& self.current_player < self.total_players
        &&& self.button < self.total_players
        &&& forall|i: int| 0 <= i < self.players@.len() ==> (#[trigger] self.players@[i]).hand@.len()
            <= 5
        &&& self.community_cards@.len() <= 5
        &&& sum_credits(self.players@) <= sum_initials(self.players@)
        &&& sum_initials(self.players@) <= i64::MAX as int
    }

    /// `obs` is the observation of table `t`: the community cards and the
    /// acting player's hole cards in integer form, zero-padded, then every
    /// seat's credits laid out five to a row.
    #[verifier::opaque]
    pub open spec fn observation_ok(t: Poker, obs: ObservationVals) -> bool {
        let comm = t.community_cards@;
        let hand = t.players@[t.current_player as int].hand@;
        let ps = t.players@;
        &&& forall|i: int| 0 <= i < 5 ==> obs@[0]@[0]@[i] == if i < comm.len() {
            comm[i].spec_to_int() as u64
        } else {
            0u64
        }
        &&& forall|i: int| 0 <= i < 5 ==> obs@[0]@[1]@[i] == if i < hand.len() {
            hand[i].spec_to_int() as u64
        } else {
            0u64
        }
        &&& forall|r: int, i: int| 2 <= r < 5 && 0 <= i < 5 ==> obs@[0]@[r]@[i] == 0u64
        &&& forall|y: int, x: int| 0 <= y < 5 && 0 <= x < 5 ==> obs@[1]@[y]@[x] == if y * 5 + x
            < ps.len() {
            ps[y * 5 + x].credits
        } else {
            0u64
        }
    }

    /// The observation tensor for the player to act.
    #[verifier::loop_isolation(false)]
    fn get_observation(&self) -> (res: ObservationVals)
        requires
            self.base_wf(),
            all_valid(self.community_cards@),
            all_valid(self.players@[self.current_player as int].hand@),
        ensures
            Poker::observation_ok(*self, res),
    {
        proof {
            reveal(Poker::observation_ok);
        }
        let mut res: ObservationVals = [[[0u64; 5]; 5]; 2];
        let c_p = self.current_player as usize;
        let comm_len = self.community_cards.cards.len();
        let mut i: usize = 0;
        while i < comm_len
            invariant
                0 <= i <= comm_len,
                comm_len == self.community_cards@.len() <= 5,
                forall|m: int| 0 <= m < i ==> res@[0]@[0]@[m]
                    == self.community_cards@[m].spec_to_int() as u64,
                forall|m: int| i <= m < 5 ==> res@[0]@[0]@[m] == 0u64,
                forall|r: int, m: int| 1 <= r < 5 && 0 <= m < 5 ==> res@[0]@[r]@[m] == 0u64,
                forall|r: int, m: int| 0 <= r < 5 && 0 <= m < 5 ==> res@[1]@[r]@[m] == 0u64,
            decreases comm_len - i,
        {
            proof {
                assert(self.community_cards@[i as int].valid());
            }
            res[0][0][i] = self.community_cards.cards[i].card_to_int() as u64;
            i = i + 1;
        }
        let hand_len = self.players[c_p].hand.cards.len();
        let mut j: usize = 0;
        while j < hand_len
            invariant
                0 <= j <= hand_len,
                hand_len == self.players@[c_p as int].hand@.len() <= 5,
                c_p == self.current_player as int,
                forall|m: int| 0 <= m < 5 ==> res@[0]@[0]@[m] == if m
                    < self.community_cards@.len() {
                    self.community_cards@[m].spec_to_int() as u64
                } else {
                    0u64
                },
                forall|m: int| 0 <= m < j ==> res@[0]@[1]@[m] == self.players@[c_p as int].hand@[
                    m
                ].spec_to_int() as u64,
                forall|m: int| j <= m < 5 ==> res@[0]@[1]@[m] == 0u64,
                forall|r: int, m: int| 2 <= r < 5 && 0 <= m < 5 ==> res@[0]@[r]@[m] == 0u64,
                forall|r: int, m: int| 0 <= r < 5 && 0 <= m < 5 ==> res@[1]@[r]@[m] == 0u64,
            decreases hand_len - j,
        {
            proof {
                assert(self.players@[c_p as int].hand@[j as int].valid());
            }
            res[0][1][j] = self.players[c_p].hand.cards[j].card_to_int() as u64;
            j = j + 1;
        }
        let n = self.players.len();
        let mut k: usize = 0;
        while k < n
            invariant
                0 <= k <= n,
                n == self.players@.len() <= 23,
                c_p == self.current_player as int,
                forall|m: int| 0 <= m < 5 ==> res@[0]@[0]@[m] == if m
                    < self.community_cards@.len() {
                    self.community_cards@[m].spec_to_int() as u64
                } else {
                    0u64
                },
                forall|m: int| 0 <= m < 5 ==> res@[0]@[1]@[m] == if m < self.players@[
                    c_p as int
                ].hand@.len() {
                    self.players@[c_p as int].hand@[m].spec_to_int() as u64
                } else {
                    0u64
                },
                forall|r: int, m: int| 2 <= r < 5 && 0 <= m < 5 ==> res@[0]@[r]@[m] == 0u64,
                forall|y: int, x: int| 0 <= y < 5 && 0 <= x < 5 ==> res@[1]@[y]@[x] == if y * 5
                    + x < k {
                    self.players@[y * 5 + x].credits
                } else {
                    0u64
                },
            decreases n - k,
        {
            let x = k % 5;
            let y = k / 5;
            res[1][y][x] = self.players[k].credits;
            k = k + 1;
        }
        res
    }

    /// A full snapshot of the round: community cards in integer form, the
    /// players, the pots, and the counters of the betting state machine.
    pub fn get_state(&self) -> (r: (Vec<u8>, &Vec<Player>, &Vec<u64>, u8, u8, u8, u8, u8, u8, u64))
        requires
            self.base_wf(),
            all_valid(self.community_cards@),
        ensures
            r.0@.len() == self.community_cards@.len(),
            forall|i: int| 0 <= i < self.community_cards@.len() ==> r.0@[i] == (
            #[trigger] self.community_cards@[i]).spec_to_int(),
            r.1 == &self.players,
            r.2 == &self.hole,
            r.3 == self.total_players,
            r.4 == self.n_players_in_hand,
            r.5 == self.current_player,
            r.6 == self.button,
            r.7 == self.poker_phase,
            r.8 == self.turn_in_phase,
            r.9 == self.bet_phase,
    {
        (
            self.community_cards.hand_to_vec(),
            &self.players,
            &self.hole,
            self.total_players,
            self.n_players_in_hand,
            self.current_player,
            self.button,
            self.poker_phase,
            self.turn_in_phase,
            self.bet_phase,
        )
    }

    /// Start the next round: rebuild and reshuffle the deck, clear the
    /// board, bets and pots, restore every seat to the hand, and deal two
    /// hole cards per player. The seat after the button acts first. The
    /// observation returned shows the table as it stood before the reset.
    #[verifier::loop_isolation(false)]
    pub fn reset(&mut self) -> (observation: ObservationVals)
        requires
            old(self).base_wf(),
            all_valid(old(self).community_cards@),
            all_valid(old(self).players@[old(self).current_player as int].hand@),
        ensures
            Poker::observation_ok(*old(self), observation),
            final(self).wf(),
            final(self).dealt(),
            final(self).deal_distinct(),
            final(self).players@.len() == old(self).players@.len(),
            forall|i: int| 0 <= i < old(self).players@.len() ==> {
                &&& (#[trigger] final(self).players@[i]).id == i
                &&& final(self).players@[i].credits == if old(self).infinite_credits {
                    old(self).players@[i].initial_credit
                } else {
                    old(self).players@[i].credits
                }
                &&& final(self).players@[i].bet == 0
                &&& final(self).players@[i].total_bet == 0
                &&& final(self).players@[i].in_hand
                &&& !final(self).players@[i].in_all_in
                &&& final(self).players@[i].hand_value@.len() == 0
                &&& final(self).players@[i].initial_credit == old(self).players@[i].initial_credit
            },
            final(self).total_players == old(self).total_players,
            final(self).n_players_in_hand == old(self).total_players,
            final(self).current_player == (old(self).button + 1) % (old(
                self,
            ).total_players as int),
            final(self).turn_in_phase == 0,
            final(self).poker_phase == 0,
            final(self).bet_phase == 0,
            final(self).button == old(self).button,
            !final(self).been_all_in,
            final(self).hole@ =~= seq![0u64],
            final(self).hole_limbs@.len() == 0,
            final(self).infinite_credits == old(self).infinite_credits,
    {
        let observation = self.get_observation();
        let ghost ps0 = self.players@;
        self.deck = DeckC::new();
        self.community_cards = HandC::new();
        self.turn_in_phase = 0;
        self.poker_phase = 0;
        self.bet_phase = 0;
        self.been_all_in = false;
        let mut hole: Vec<u64> = Vec::new();
        hole.push(0);
        proof {
            assert(hole@.drop_last() =~= Seq::<u64>::empty());
            assert(sum_amounts(Seq::<u64>::empty()) == 0);
            assert(sum_amounts(hole@) == 0);
        }
        self.hole = hole;
        self.hole_limbs = Vec::new();
        let pay_back_credit = self.infinite_credits;
        let n = self.total_players as usize;
        let mut i: usize = 0;
        while i < n
            invariant
                0 <= i <= n,
                n == ps0.len(),
                self.players@.len() == n,
                pay_back_credit == old(self).infinite_credits,
                forall|m: int| 0 <= m < i ==> #[trigger] self.players@[m] == (Player {
                    credits: if pay_back_credit {
                        ps0[m].initial_credit
                    } else {
                        ps0[m].credits
                    },
                    hand: self.players@[m].hand,
                    hand_value: self.players@[m].hand_value,
                    bet: 0,
                    total_bet: 0,
                    in_hand: true,
                    in_all_in: false,
                    ..ps0[m]
                }),
                forall|m: int| 0 <= m < i ==> (#[trigger] self.players@[m]).hand@.len() == 0
                    && self.players@[m].hand_value@.len() == 0,
                forall|m: int| i <= m < n ==> #[trigger] self.players@[m] == ps0[m],
                self.total_players == old(self).total_players,
                self.turn_in_phase == 0,
                self.poker_phase == 0,
                self.bet_phase == 0,
                !self.been_all_in,
                sum_amounts(self.hole@) == 0,
                self.hole@.len() == 1,
                self.hole@[0] == 0,
                self.hole_limbs@.len() == 0,
                self.infinite_credits == old(self).infinite_credits,
                self.button == old(self).button,
                self.community_cards@.len() == 0,
                self.deck.wf(),
                self.deck@.len() == 52,
            decreases n - i,
        {
            self.players[i].reset(pay_back_credit);
            i = i + 1;
        }
        self.current_player = (self.button + 1) % self.total_players;
        self.n_players_in_hand = self.total_players;
        let mut d: usize = 0;
        while d < n
            invariant
                0 <= d <= n,
                n == ps0.len() <= 23,
                self.players@.len() == n,
                forall|m: int| 0 <= m < n ==> {
                    &&& (#[trigger] self.players@[m]).id == ps0[m].id
                    &&& self.players@[m].credits == if old(self).infinite_credits {
                        ps0[m].initial_credit
                    } else {
                        ps0[m].credits
                    }
                    &&& self.players@[m].bet == 0
                    &&& self.players@[m].total_bet == 0
                    &&& self.players@[m].in_hand
                    &&& !self.players@[m].in_all_in
                    &&& self.players@[m].hand_value@.len() == 0
                    &&& self.players@[m].initial_credit == ps0[m].initial_credit
                },
                forall|m: int| 0 <= m < d ==> {
                    &&& (#[trigger] self.players@[m]).hand@.len() == 2
                    &&& self.players@[m].hand.wf()
                    &&& all_valid(self.players@[m].hand@)
                },
                forall|m: int, kk: int|
                    0 <= m < d && 0 <= kk < self.players@[m].hand@.len()
                        ==> !self.deck@.contains(#[trigger] self.players@[m].hand@[kk]),
                forall|m: int, kk: int, j: int, ll: int|
                    #![trigger self.players@[m].hand@[kk], self.players@[j].hand@[ll]]
                    0 <= m < d && 0 <= kk < self.players@[m].hand@.len() && 0 <= j < d && 0 <= ll
                        < self.players@[j].hand@.len() && (m != j || kk != ll)
                        ==> self.players@[m].hand@[kk] != self.players@[j].hand@[ll],
                forall|m: int| d <= m < n ==> (#[trigger] self.players@[m]).hand@.len() == 0
                    && self.players@[m].hand.wf(),
                self.total_players == old(self).total_players,
                self.current_player == (old(self).button + 1) % (old(self).total_players as int),
                self.n_players_in_hand == self.total_players,
                self.turn_in_phase == 0,
                self.poker_phase == 0,
                self.bet_phase == 0,
                !self.been_all_in,
                sum_amounts(self.hole@) == 0,
                self.hole@.len() == 1,
                self.hole@[0] == 0,
                self.hole_limbs@.len() == 0,
                self.infinite_credits == old(self).infinite_credits,
                self.button == old(self).button,
                self.community_cards@.len() == 0,
                self.deck.wf(),
                self.deck@.len() == 52 - 2 * d,
            decreases n - d,
        {
            let ghost deck0 = self.deck@;
            let c1 = match self.deck.get_card() {
                Option::Some(c) => c,
                Option::None => vstd::pervasive::unreached(),
            };
            let ghost deck1 = self.deck@;
            let c2 = match self.deck.get_card() {
                Option::Some(c) => c,
                Option::None => vstd::pervasive::unreached(),
            };
            proof {
                assert(deck0.contains(c1)) by {
                    let kk = choose|kk: int|
                        0 <= kk < deck0.len() && c1 == deck0[kk] && deck1 == deck0.remove(kk);
                    assert(deck0[kk] == c1);
                }
                assert(deck1.contains(c2)) by {
                    let kk = choose|kk: int|
                        0 <= kk < deck1.len() && c2 == deck1[kk] && self.deck@ == deck1.remove(
                            kk,
                        );
                    assert(deck1[kk] == c2);
                }
                assert(deck0.contains(c2));
                assert(!deck1.contains(c1));
                assert(c1 != c2);
            }
            self.players[d].hand.set_card(c1);
            proof {
                assert(self.players@[d as int].hand@ =~= seq![c1]);
            }
            self.players[d].hand.set_card(c2);
            proof {
                let h = self.players@[d as int].hand@;
                let p = insert_pos(seq![c1], c2);
                assert(seq![c1].drop_first() =~= Seq::<CardC>::empty());
                assert(insert_pos(Seq::<CardC>::empty(), c2) == 0);
                assert(0 <= p <= 1);
                assert(h == seq![c1].insert(p, c2));
                assert(h[p] == c2);
                assert forall|kk: int| 0 <= kk < h.len() implies h[kk] == c1 || h[kk] == c2 by {
                    if kk < p {
                        assert(h[kk] == seq![c1][kk]);
                    } else if kk > p {
                        assert(h[kk] == seq![c1][kk - 1]);
                    }
                }
            }
            d = d + 1;
        }
        proof {
            assert(self.hole@ =~= seq![0u64]);
            let psf = self.players@;
            lemma_sums_pointwise_initials(psf, ps0);
            lemma_sum_bets_zero(psf);
            lemma_total_bets_zero(psf);
            lemma_count_all_in_hand(psf);
            if old(self).infinite_credits {
                lemma_sum_credits_of_initials(psf, ps0);
            } else {
                lemma_sum_credits_pointwise(psf, ps0);
            }
        }
        observation
    }

    /// Deal `count` cards from the deck onto the board.
    #[verifier::loop_isolation(false)]
    fn deal_community(&mut self, count: usize)
        requires
            old(self).wf(),
            old(self).deck.wf(),
            old(self).community_cards.wf(),
            all_valid(old(self).community_cards@),
            old(self).community_cards@.len() + count <= 5,
            old(self).deck@.len() == 52 - 2 * old(self).players@.len()
                - old(self).community_cards@.len(),
        ensures
            final(self).wf(),
            final(self).deck.wf(),
            final(self).community_cards.wf(),
            all_valid(final(self).community_cards@),
            final(self).community_cards@.len() == old(self).community_cards@.len() + count,
            count == 0 ==> final(self).community_cards == old(self).community_cards,
            final(self).deck@.len() == 52 - 2 * final(self).players@.len()
                - final(self).community_cards@.len(),
            final(self).players@ == old(self).players@,
            final(self).n_players_in_hand == old(self).n_players_in_hand,
            final(self).total_players == old(self).total_players,
            final(self).current_player == old(self).current_player,
            final(self).turn_in_phase == old(self).turn_in_phase,
            final(self).poker_phase == old(self).poker_phase,
            final(self).bet_phase == old(self).bet_phase,
            final(self).button == old(self).button,
            final(self).been_all_in == old(self).been_all_in,
            final(self).hole@ == old(self).hole@,
            final(self).hole_limbs@ == old(self).hole_limbs@,
            final(self).infinite_credits == old(self).infinite_credits,
    {
        let n = self.players.len();
        let mut d: usize = 0;
        while d < count
            invariant
                0 <= d <= count,
                n == self.players@.len(),
                self.players@ == old(self).players@,
                self.n_players_in_hand == old(self).n_players_in_hand,
                self.total_players == old(self).total_players,
                self.current_player == old(self).current_player,
                self.turn_in_phase == old(self).turn_in_phase,
                self.poker_phase == old(self).poker_phase,
                self.bet_phase == old(self).bet_phase,
                self.button == old(self).button,
                self.been_all_in == old(self).been_all_in,
                self.hole@ == old(self).hole@,
                self.hole_limbs@ == old(self).hole_limbs@,
                self.infinite_credits == old(self).infinite_credits,
                self.deck.wf(),
                self.community_cards.wf(),
                all_valid(self.community_cards@),
                self.community_cards@.len() == old(self).community_cards@.len() + d,
                d == 0 ==> self.community_cards == old(self).community_cards,
                self.community_cards@.len() + count - d <= 5,
                self.deck@.len() == 52 - 2 * n - self.community_cards@.len(),
            decreases count - d,
        {
            proof {
                assert(self.deck@.len() > 0);
            }
            let c = match self.deck.get_card() {
                Option::Some(c) => c,
                Option::None => vstd::pervasive::unreached(),
            };
            self.community_cards.set_card(c);
            d = d + 1;
        }
    }

    /// Zero rewards, one per seat.
    #[verifier::loop_isolation(false)]
    fn zero_rewards(n: usize) -> (r: Vec<i64>)
        ensures
            r@.len() == n,
            forall|i: int| 0 <= i < n ==> #[trigger] r@[i] == 0,
    {
        let mut r: Vec<i64> = Vec::new();
        let mut i: usize = 0;
        while i < n
            invariant
                0 <= i <= n,
                r@.len() == i,
                forall|m: int| 0 <= m < i ==> #[trigger] r@[m] == 0,
            decreases n - i,
        {
            r.push(0);
            i = i + 1;
        }
        r
    }

    /// The session ends when the button has come back around to seat zero.
    fn is_done(&self) -> (r: bool)
        ensures
            r == (self.button == 0),
    {
        self.button == 0
    }

    /// Whether the acting seat can cover the bet the action forces: the
    /// blinds and the opening bet are fixed amounts, a call asks for the
    /// difference to the outstanding bet, and each raise tier asks for its
    /// own amount.
    pub open spec fn affordable(self, action: u8) -> bool {
        let p = self.players@[self.current_player as int];
        if action == 0 {
            p.credits >= 5
        } else if action == 1 {
            p.credits >= 10
        } else if action == 4 {
            p.credits >= 10
        } else if action == 5 {
            p.credits >= self.bet_phase - p.bet
        } else if action == 6 {
            p.credits >= 25
        } else if action == 7 {
            p.credits >= 50
        } else if action == 8 {
            p.credits >= 100
        } else if action == 9 {
            p.credits >= 500
        } else if action == 10 {
            p.credits >= 1000
        } else {
            true
        }
    }

    /// What seat `i` takes when the round settles from this state: its
    /// share of the swept pots, judged by the showdown hand values.
    pub open spec fn settle_winnings(self, i: int) -> int {
        settlement_winnings(
            self.players@,
            self.community_cards@,
            self.hole@,
            limb_views(self.hole_limbs@),
            self.been_all_in,
            self.n_players_in_hand as int,
            i,
        )
    }

    /// End the round: sweep the last bets, evaluate the contenders' hands
    /// when more than one remains, pay out the pots, advance the button,
    /// and reset the table for the next round.
    fn settle_round(&mut self) -> (res: (ObservationVals, Vec<i64>, bool))
        requires
            old(self).wf(),
            old(self).community_cards.wf(),
            all_valid(old(self).community_cards@),
            old(self).community_cards@.len() <= 5,
            old(self).n_players_in_hand > 1 ==> old(self).community_cards@.len() == 5,
            forall|i: int| 0 <= i < old(self).players@.len() ==> {
                &&& (#[trigger] old(self).players@[i]).hand.wf()
                &&& all_valid(old(self).players@[i].hand@)
                &&& old(self).players@[i].hand@.len() == 2
            },
        ensures
            final(self).wf(),
            final(self).dealt(),
            Poker::observation_ok(*final(self), res.0),
            res.1@.len() == old(self).total_players as int,
            forall|i: int| 0 <= i < old(self).players@.len() ==> #[trigger] res.1@[i] == old(
                self,
            ).settle_winnings(i) - old(self).players@[i].total_bet,
            forall|i: int| 0 <= i < old(self).players@.len() ==> (#[trigger] final(self).players@[i]).credits == if old(self).infinite_credits {
                old(self).players@[i].initial_credit
            } else {
                ((old(self).players@[i].credits + old(self).settle_winnings(i)) as u64)
            },
            res.2 == (final(self).button == 0),
            final(self).button == (old(self).button + 1) % (old(self).total_players as int),
            final(self).poker_phase == 0,
            final(self).n_players_in_hand == final(self).total_players,
            final(self).total_players == old(self).total_players,
            final(self).turn_in_phase == 0,
            !final(self).been_all_in,
            final(self).hole@ =~= seq![0u64],
            forall|i: int| 0 <= i < final(self).players@.len() ==> (#[trigger] final(self).players@[i]).bet == 0 && final(self).players@[i].total_bet == 0 && final(self).players@[i].in_hand && !final(self).players@[i].in_all_in && final(self).players@[i].hand_value@.len() == 0,
    {
        self.collect_bets();
        let ghost ps_c = self.players@;
        let ghost hole_c = self.hole@;
        let ghost limbs_c = limb_views(self.hole_limbs@);
        let ghost old_ps = old(self).players@;
        let ghost contenders = old(self).n_players_in_hand as int;
        proof {
            // The sweep matches its specification, pot by pot and list by
            // list.
            let np = old_ps.len() as int;
            let base = old(self).hole@.len() as int;
            let lv = spec_levels(old_ps, np);
            let sh = swept_holes(old_ps, old(self).hole@, old(self).been_all_in);
            let sl = swept_limbs(
                old_ps,
                old(self).hole@,
                limb_views(old(self).hole_limbs@),
                old(self).been_all_in,
            );
            if old(self).been_all_in {
                assert forall|x: int| 0 <= x < hole_c.len() implies #[trigger] hole_c[x]
                    == sh[x] by {
                    if x >= base {
                        assert(hole_c[base + (x - base)] as int == tier_amount(
                            old_ps,
                            lv,
                            (x - base) + 1,
                            np,
                        ));
                    }
                }
                assert forall|x: int| 0 <= x < limbs_c.len() implies #[trigger] limbs_c[x]
                    == sl[x] by {
                    assert(limbs_c[x] == self.hole_limbs@[x]@);
                    if 1 <= x < base {
                        assert((self.hole_limbs@[x])@ == if x < old(self).hole_limbs@.len() {
                            old(self).hole_limbs@[x]@
                        } else {
                            Seq::<u8>::empty()
                        });
                    } else if x >= base {
                        assert((self.hole_limbs@[base + (x - base)])@ == tier_eligible(
                            old_ps,
                            lv[(x - base) + 1],
                            np,
                        ));
                    }
                }
            } else {
                assert(forall|x: int| 0 <= x < hole_c.len() ==> #[trigger] hole_c[x] == sh[x]);
                assert(forall|x: int|
                    0 <= x < limbs_c.len() ==> #[trigger] limbs_c[x] == sl[x]);
            }
            assert(hole_c =~= sh);
            assert(limbs_c =~= sl);
        }
        let ghost sv = showdown_values(old_ps, old(self).community_cards@, contenders);
        if self.n_players_in_hand > 1 {
            self.assign_winning_combination();
            proof {
                assert forall|i: int|
                    0 <= i < ps_c.len() && (#[trigger] ps_c[i]).in_hand implies {
                        &&& self.players@[i].id == ps_c[i].id
                        &&& self.players@[i].hand@.len() == 5
                        &&& self.players@[i].hand.wf()
                        &&& all_valid(self.players@[i].hand@)
                        &&& self.players@[i].initial_credit == ps_c[i].initial_credit
                    } by {
                    assert(self.players@[i].hand@ == best_hand_spec(
                        merge_cards(ps_c[i].hand@, self.community_cards@),
                    ));
                    assert(self.players@[i].id == ps_c[i].id);
                    assert(self.players@[i].hand@.len() == 5);
                    assert(self.players@[i].hand.wf());
                    assert(all_valid(self.players@[i].hand@));
                    assert(self.players@[i].initial_credit == ps_c[i].initial_credit);
                }
                assert(forall|i: int|
                    0 <= i < ps_c.len() && !(#[trigger] ps_c[i]).in_hand ==> self.players@[i]
                        == ps_c[i]);
            }
        }
        let ghost ps_a = self.players@;
        proof {
            assert forall|i: int| 0 <= i < ps_a.len() implies {
                &&& (#[trigger] ps_a[i]).id == i
                &&& ps_a[i].hand@.len() <= 5
                &&& all_valid(ps_a[i].hand@)
                &&& ps_a[i].initial_credit == ps_c[i].initial_credit
            } by {
                assert(ps_c[i] == (Player { bet: 0, ..old(self).players@[i] }));
                assert(all_valid(old(self).players@[i].hand@));
                assert(ps_c[i].hand == old(self).players@[i].hand);
                if old(self).n_players_in_hand > 1 {
                    if ps_c[i].in_hand {
                    } else {
                        assert(ps_a[i] == ps_c[i]);
                    }
                } else {
                    assert(ps_a[i] == ps_c[i]);
                }
            }
        }
        let reward = self.get_reward();
        let ghost ps_r = self.players@;
        proof {
            // The hand values and the seating at the payout match the
            // showdown specification over the pre-settlement state.
            assert forall|i: int| 0 <= i < ps_a.len() implies #[trigger] hand_values(ps_a)[i]
                == sv[i] by {
                if contenders > 1 && old_ps[i].in_hand {
                } else {
                    assert(ps_a[i] == ps_c[i]);
                }
            }
            assert(hand_values(ps_a) =~= sv);
            assert(same_seating(ps_a, swept_players(old_ps))) by {
                assert forall|i: int| 0 <= i < ps_a.len() implies (#[trigger] ps_a[i]).in_hand
                    == swept_players(old_ps)[i].in_hand && ps_a[i].id == swept_players(
                    old_ps,
                )[i].id by {
                    if old_ps[i].in_hand && contenders > 1 {
                    } else {
                        assert(ps_a[i] == ps_c[i]);
                    }
                }
            }
            reveal(settlement_winnings);
            assert forall|i: int| 0 <= i < old_ps.len() implies #[trigger] reward@[i] == old(
                self,
            ).settle_winnings(i) - old_ps[i].total_bet by {
                lemma_winnings_agree(
                    ps_a,
                    swept_players(old_ps),
                    sv,
                    hole_c,
                    limbs_c,
                    i,
                    contenders,
                );
                assert(ps_a[i].total_bet == old_ps[i].total_bet);
            }
            assert forall|i: int| 0 <= i < ps_r.len() implies {
                &&& (#[trigger] ps_r[i]).id == i
                &&& ps_r[i].hand@.len() <= 5
                &&& all_valid(ps_r[i].hand@)
                &&& ps_r[i].initial_credit == ps_a[i].initial_credit
            } by {
                assert(ps_r[i].hand == ps_a[i].hand);
            }
            lemma_sums_pointwise_initials(ps_r, ps_a);
            lemma_sums_nonneg(ps_a);
            lemma_amounts_nonneg(self.hole@);
        }
        self.next_dealer();
        proof {
            assert(self.base_wf());
            assert(all_valid(self.players@[self.current_player as int].hand@));
        }
        self.reset();
        proof {
            lemma_sums_nonneg(self.players@);
            lemma_amounts_nonneg(self.hole@);
            assert(self.base_wf());
            assert forall|i: int| 0 <= i < old_ps.len() implies (#[trigger] self.players@[i]).credits
                == if old(self).infinite_credits {
                old_ps[i].initial_credit
            } else {
                ((old_ps[i].credits + old(self).settle_winnings(i)) as u64)
            } by {
                reveal(settlement_winnings);
                assert(ps_c[i] == (Player { bet: 0, ..old_ps[i] }));
                if contenders > 1 && ps_c[i].in_hand {
                } else {
                    assert(ps_a[i] == ps_c[i]);
                }
                assert(ps_a[i].credits == old_ps[i].credits);
                assert(ps_a[i].initial_credit == old_ps[i].initial_credit);
                assert(ps_r[i].credits == (ps_a[i].credits + winnings_spec(
                    ps_a,
                    hand_values(ps_a),
                    hole_c,
                    limbs_c,
                    i,
                    contenders,
                )) as u64);
                assert(ps_r[i].initial_credit == ps_a[i].initial_credit);
                lemma_winnings_agree(
                    ps_a,
                    swept_players(old_ps),
                    sv,
                    hole_c,
                    limbs_c,
                    i,
                    contenders,
                );
            }
        }
        // The driver sees the next round's table, as a fresh observation.
        let obs = self.get_observation();
        let done = self.is_done();
        (obs, reward, done)
    }

    /// Move to the next street: advance the phase, deal its community
    /// cards, sweep the street bets into the main pot, clear the counters
    /// and restart the action at the button.
    fn advance_street(&mut self)
        requires
            old(self).wf(),
            !old(self).been_all_in,
            old(self).poker_phase < 3,
            old(self).deck.wf(),
            old(self).community_cards.wf(),
            all_valid(old(self).community_cards@),
            old(self).community_cards@.len() == phase_cards(old(self).poker_phase),
            old(self).deck@.len() == 52 - 2 * old(self).players@.len() - old(
                self,
            ).community_cards@.len(),
        ensures
            final(self).wf(),
            final(self).poker_phase == old(self).poker_phase + 1,
            final(self).community_cards@.len() == phase_cards(((old(self).poker_phase + 1) as u8)),
            final(self).community_cards.wf(),
            all_valid(final(self).community_cards@),
            final(self).deck.wf(),
            final(self).deck@.len() == 52 - 2 * final(self).players@.len() - final(self).community_cards@.len(),
            final(self).players@.len() == old(self).players@.len(),
            forall|i: int| 0 <= i < old(self).players@.len() ==> final(self).players@[i]
                == (Player { bet: 0, ..old(self).players@[i] }),
            final(self).hole@ == old(self).hole@.update(
                0,
                ((old(self).hole@[0] + sum_bets(old(self).players@)) as u64),
            ),
            final(self).hole_limbs@.len() == 1,
            final(self).hole_limbs@[0]@ == all_ids(old(self).players@.len() as int),
            final(self).bet_phase == 0,
            final(self).turn_in_phase == 0,
            final(self).n_players_in_hand == old(self).n_players_in_hand,
            !final(self).been_all_in,
            final(self).button == old(self).button,
            final(self).current_player == old(self).button,
            final(self).total_players == old(self).total_players,
            final(self).infinite_credits == old(self).infinite_credits,
    {
        self.poker_phase = self.poker_phase + 1;
        if self.poker_phase == 1 {
            self.deal_community(3);
        } else {
            self.deal_community(1);
        }
        self.turn_in_phase = 0;
        self.current_player = self.button;
        self.collect_bets();
        self.bet_phase = 0;
    }

    /// Resolve the turn once the action has been applied: settle the
    /// round when a single contender remains or the completed street was
    /// the river or followed an all-in; advance to the next street when
    /// the street completed; otherwise pass the action on.
    #[verifier::loop_isolation(false)]
    #[verifier::rlimit(100)]
    #[verifier::spinoff_prover]
    fn finish_step(&mut self, change_player: bool) -> (out: (ObservationVals, Vec<i64>, bool))
        requires
            old(self).wf(),
            old(self).dealt(),
        ensures
            final(self).wf(),
            final(self).dealt(),
            Poker::observation_ok(*final(self), out.0),
            out.1@.len() == old(self).total_players as int,
            out.2 == (old(self).resolves_settlement() && (old(self).button + 1) % (old(
                self,
            ).total_players as int) == 0),
            !old(self).resolves_settlement() ==> forall|i: int|
                0 <= i < out.1@.len() ==> #[trigger] out.1@[i] == 0,
            !old(self).resolves_settlement() && !old(self).turn_completed_spec() ==> {
                &&& final(self).players@ == old(self).players@
                &&& final(self).bet_phase == old(self).bet_phase
                &&& final(self).n_players_in_hand == old(self).n_players_in_hand
                &&& final(self).turn_in_phase == old(self).turn_in_phase
                &&& final(self).been_all_in == old(self).been_all_in
                &&& final(self).deck == old(self).deck
                &&& final(self).community_cards == old(self).community_cards
                &&& final(self).poker_phase == old(self).poker_phase
                &&& final(self).button == old(self).button
                &&& final(self).hole@ == old(self).hole@
                &&& final(self).hole_limbs@ == old(self).hole_limbs@
                &&& if change_player {
                    is_next_in_hand(
                        final(self).players@,
                        old(self).current_player as int,
                        final(self).current_player as int,
                    )
                } else {
                    final(self).current_player == old(self).current_player
                }
            },
            !old(self).resolves_settlement() && old(self).turn_completed_spec() ==> {
                &&& final(self).poker_phase == old(self).poker_phase + 1
                &&& final(self).community_cards@.len() == phase_cards(
                    ((old(self).poker_phase + 1) as u8),
                )
                &&& final(self).players@.len() == old(self).players@.len()
                &&& (forall|i: int| 0 <= i < old(self).players@.len() ==> final(self).players@[i]
                    == (Player { bet: 0, ..old(self).players@[i] }))
                &&& final(self).hole@ == old(self).hole@.update(
                    0,
                    ((old(self).hole@[0] + sum_bets(old(self).players@)) as u64),
                )
                &&& final(self).hole_limbs@.len() == 1
                &&& final(self).hole_limbs@[0]@ == all_ids(old(self).players@.len() as int)
                &&& final(self).bet_phase == 0
                &&& final(self).turn_in_phase == 0
                &&& final(self).n_players_in_hand == old(self).n_players_in_hand
                &&& !final(self).been_all_in
                &&& final(self).button == old(self).button
                &&& if change_player {
                    is_next_in_hand(
                        final(self).players@,
                        old(self).button as int,
                        final(self).current_player as int,
                    )
                } else {
                    final(self).current_player == old(self).button
                }
            },
            old(self).resolves_settlement() ==> {
                &&& final(self).poker_phase == 0
                &&& final(self).turn_in_phase == 0
                &&& !final(self).been_all_in
                &&& final(self).n_players_in_hand == final(self).total_players
                &&& final(self).button as int == (old(self).button + 1) % (old(
                    self,
                ).total_players as int)
                &&& final(self).hole@ =~= seq![0u64]
                &&& forall|i: int| 0 <= i < final(self).players@.len() ==> (#[trigger] final(self).players@[i]).bet == 0 && final(self).players@[i].total_bet == 0 && final(self).players@[i].in_hand && !final(self).players@[i].in_all_in && final(self).players@[i].hand_value@.len() == 0
            },
            old(self).resolves_settlement() && (old(self).n_players_in_hand == 1 || old(
                self,
            ).community_cards@.len() == 5) ==> forall|i: int|
                0 <= i < old(self).players@.len() ==> #[trigger] out.1@[i] == settlement_winnings(
                    old(self).players@,
                    old(self).community_cards@,
                    old(self).hole@,
                    limb_views(old(self).hole_limbs@),
                    old(self).been_all_in,
                    old(self).n_players_in_hand as int,
                    i,
                ) - old(self).players@[i].total_bet,
    {
        if self.n_players_in_hand == 1 {
            // Early termination: the sole contender wins everything
            // uncontested, with no hand evaluation.
            return self.settle_round();
        }
        let completed = self.is_turn_completed();
        if completed {
            if self.been_all_in {
                // Deal out the rest of the board at once and settle.
                let missing = 5 - self.community_cards.len();
                self.deal_community(missing);
                proof {
                    if old(self).community_cards@.len() == 5 {
                        assert(self.community_cards == old(self).community_cards);
                    }
                }
                return self.settle_round();
            }
            if self.poker_phase == 3 {
                // The river's betting is over: showdown.
                return self.settle_round();
            }
            self.advance_street();
        }
        if change_player {
            self.next_player();
        }
        proof {
            lemma_sums_nonneg(self.players@);
            lemma_amounts_nonneg(self.hole@);
            assert(self.base_wf());
            assert(self.dealt());
        }
        let obs = self.get_observation();
        let reward = Poker::zero_rewards(self.players.len());
        (obs, reward, false)
    }

    /// Apply one action for the player to act. An action outside the
    /// legal set, or one whose forced bet the player cannot cover, is
    /// rejected with no change to the table. A legal action may complete
    /// the street, deal community cards, or settle the round: at
    /// settlement the pots are paid out, the rewards report each seat's
    /// net result for the round, the button advances, and the table is
    /// reset for the next round. The done flag reports the button's
    /// return to seat zero.
    #[verifier::rlimit(100)]
    #[verifier::spinoff_prover]
    pub fn step(&mut self, action: u8, change_player: bool) -> (r: Result<
        (ObservationVals, Vec<i64>, bool),
        PokerError,
    >)
        requires
            old(self).wf(),
            old(self).dealt(),
        ensures
            final(self).wf(),
            r is Err ==> *final(self) == *old(self) && r == Result::<
                (ObservationVals, Vec<i64>, bool),
                PokerError,
            >::Err(PokerError::InvalidAction),
            r is Ok <==> (action <= 11 && old(self).legal_actions_spec().contains(action) && old(
                self,
            ).affordable(action)),
            r is Ok ==> final(self).dealt(),
            r matches Result::Ok(t) ==> Poker::observation_ok(*final(self), t.0),
            r matches Result::Ok(t) ==> t.1@.len() == old(self).total_players as int,
            r matches Result::Ok(t) ==> t.2 == (old(self).step_settles(action) && (old(self).button
                + 1) % (old(self).total_players as int) == 0),
            r matches Result::Ok(t) ==> (!old(self).step_settles(action) ==> forall|i: int|
                0 <= i < t.1@.len() ==> #[trigger] t.1@[i] == 0),
            r is Ok && !old(self).step_settles(action) && !old(self).acted_turn_completed(action)
                ==> {
                &&& final(self).players@ == old(self).acted_players(action)
                &&& final(self).bet_phase as int == old(self).acted_bet_phase(action)
                &&& final(self).n_players_in_hand as int == old(self).acted_contenders(action)
                &&& final(self).turn_in_phase as int == old(self).acted_turn()
                &&& final(self).been_all_in == old(self).acted_been_all_in(action)
                &&& final(self).deck == old(self).deck
                &&& final(self).community_cards == old(self).community_cards
                &&& final(self).poker_phase == old(self).poker_phase
                &&& final(self).button == old(self).button
                &&& final(self).hole@ == old(self).hole@
                &&& final(self).hole_limbs@ == old(self).hole_limbs@
                &&& if change_player {
                    is_next_in_hand(
                        final(self).players@,
                        old(self).current_player as int,
                        final(self).current_player as int,
                    )
                } else {
                    final(self).current_player == old(self).current_player
                }
            },
            r is Ok && !old(self).step_settles(action) && old(self).acted_turn_completed(action)
                ==> {
                let ap = old(self).acted_players(action);
                &&& final(self).poker_phase == old(self).poker_phase + 1
                &&& final(self).community_cards@.len() == phase_cards(
                    ((old(self).poker_phase + 1) as u8),
                )
                &&& final(self).players@.len() == ap.len()
                &&& (forall|i: int| 0 <= i < ap.len() ==> final(self).players@[i] == (Player {
                    bet: 0,
                    ..ap[i]
                }))
                &&& final(self).hole@ == old(self).hole@.update(
                    0,
                    ((old(self).hole@[0] + sum_bets(ap)) as u64),
                )
                &&& final(self).hole_limbs@.len() == 1
                &&& final(self).hole_limbs@[0]@ == all_ids(ap.len() as int)
                &&& final(self).bet_phase == 0
                &&& final(self).turn_in_phase == 0
                &&& final(self).n_players_in_hand as int == old(self).acted_contenders(action)
                &&& !final(self).been_all_in
                &&& final(self).button == old(self).button
                &&& if change_player {
                    is_next_in_hand(
                        final(self).players@,
                        old(self).button as int,
                        final(self).current_player as int,
                    )
                } else {
                    final(self).current_player == old(self).button
                }
            },
            r is Ok && old(self).step_settles(action) ==> {
                &&& final(self).poker_phase == 0
                &&& final(self).turn_in_phase == 0
                &&& !final(self).been_all_in
                &&& final(self).n_players_in_hand == final(self).total_players
                &&& final(self).button as int == (old(self).button + 1) % (old(
                    self,
                ).total_players as int)
                &&& final(self).hole@ =~= seq![0u64]
                &&& forall|i: int| 0 <= i < final(self).players@.len() ==> (#[trigger] final(self).players@[i]).bet == 0 && final(self).players@[i].total_bet == 0 && final(self).players@[i].in_hand && !final(self).players@[i].in_all_in && final(self).players@[i].hand_value@.len() == 0
            },
            r matches Result::Ok(t) ==> ((old(self).step_settles(action) && (old(
                self,
            ).acted_contenders(action) == 1 || old(self).community_cards@.len() == 5)) ==> forall|
                i: int,
            |
                0 <= i < old(self).players@.len() ==> #[trigger] t.1@[i] == settlement_winnings(
                    old(self).acted_players(action),
                    old(self).community_cards@,
                    old(self).hole@,
                    limb_views(old(self).hole_limbs@),
                    old(self).acted_been_all_in(action),
                    old(self).acted_contenders(action),
                    i,
                ) - old(self).acted_players(action)[i].total_bet),
    {
        let c_p = self.current_player as usize;
        let legal = self.legal_actions();
        if action > 11 || !contains_u8(&legal, action) {
            return Result::Err(PokerError::InvalidAction);
        }
        if action == 0 {
            let res = self.to_bet(5);
            if res.is_err() {
                return Result::Err(PokerError::InvalidAction);
            }
        }
        if action == 1 {
            let res = self.to_bet(10);
            if res.is_err() {
                return Result::Err(PokerError::InvalidAction);
            }
        }
        if action == 2 && self.n_players_in_hand >= 2 {
            // A lone contender cannot leave the hand: the round is already
            // theirs and settles below.
            self.players[c_p].in_hand = false;
            proof {
                let ghost ps0 = old(self).players@;
                assert(self.players@ =~= ps0.update(
                    c_p as int,
                    (Player { in_hand: false, ..ps0[c_p as int] }),
                ));
                lemma_sums_update(ps0, c_p as int, (Player { in_hand: false, ..ps0[c_p as int] }));
            }
            self.n_players_in_hand = self.n_players_in_hand - 1;
            proof {
                let ghost ps0 = old(self).players@;
                assert(self.players@ == ps0.update(
                    c_p as int,
                    (Player { in_hand: false, ..ps0[c_p as int] }),
                ));
                assert(count_in_hand(self.players@) == count_in_hand(ps0) - 1);
                assert(self.n_players_in_hand as int == count_in_hand(self.players@));
                assert(self.wf());
            }
        }
        if action == 4 {
            let res = self.to_bet(10);
            if res.is_err() {
                return Result::Err(PokerError::InvalidAction);
            }
        }
        if action == 5 {
            let owed = self.bet_phase - self.players[c_p].bet;
            let res = self.to_bet(owed);
            if res.is_err() {
                return Result::Err(PokerError::InvalidAction);
            }
        }
        if action == 6 {
            let res = self.to_bet(25);
            if res.is_err() {
                return Result::Err(PokerError::InvalidAction);
            }
        }
        if action == 7 {
            let res = self.to_bet(50);
            if res.is_err() {
                return Result::Err(PokerError::InvalidAction);
            }
        }
        if action == 8 {
            let res = self.to_bet(100);
            if res.is_err() {
                return Result::Err(PokerError::InvalidAction);
            }
        }
        if action == 9 {
            let res = self.to_bet(500);
            if res.is_err() {
                return Result::Err(PokerError::InvalidAction);
            }
        }
        if action == 10 {
            let res = self.to_bet(1000);
            if res.is_err() {
                return Result::Err(PokerError::InvalidAction);
            }
        }
        if action == 11 {
            self.all_in();
        }
        // The thresholds for a completed street never pass 25, so the
        // action counter can saturate far above them.
        if self.turn_in_phase < 250 {
            self.turn_in_phase = self.turn_in_phase + 1;
        }
        proof {
            assert(self.wf());
            // The table now holds exactly the acted state.
            assert(self.players@ == old(self).acted_players(action));
            assert(self.bet_phase as int == old(self).acted_bet_phase(action));
            assert(self.n_players_in_hand as int == old(self).acted_contenders(action));
            assert(self.turn_in_phase as int == old(self).acted_turn());
            assert(self.been_all_in == old(self).acted_been_all_in(action));
            assert(self.community_cards == old(self).community_cards);
            assert(self.hole@ == old(self).hole@);
            assert(self.hole_limbs@ == old(self).hole_limbs@);
            assert(self.poker_phase == old(self).poker_phase);
            assert(self.turn_completed_spec() == old(self).acted_turn_completed(action));
            assert(self.resolves_settlement() == old(self).step_settles(action));
            assert(self.dealt());
        }
        let out = self.finish_step(change_player);
        Result::Ok(out)
    }

    pub fn get_total_players(&self) -> (n: u8)
        ensures
            n == self.total_players,
    {
        self.total_players
    }

    /// The seat of the player to act next.
    pub fn to_play(&self) -> (p: u8)
        ensures
            p == self.current_player,
    {
        self.current_player
    }
}

/// The seat numbers of all players as a vector, in order.
#[verifier::loop_isolation(false)]
fn make_all_ids(n: u8) -> (r: Vec<u8>)
    ensures
        r@ == all_ids(n as int),
{
    let mut r: Vec<u8> = Vec::new();
    let mut i: u8 = 0;
    while i < n
        invariant
            0 <= i <= n,
            r@.len() == i as int,
            forall|m: int| 0 <= m < i ==> #[trigger] r@[m] == m as u8,
        decreases n - i,
    {
        r.push(i);
        i = i + 1;
    }
    proof {
        assert(r@ =~= all_ids(n as int));
    }
    r
}

/// Insert an amount into a strictly ascending list of bet levels, keeping
/// it strictly ascending; an amount already present is not repeated.
#[verifier::loop_isolation(false)]
fn insert_level(levels: &mut Vec<u64>, b: u64)
    requires
        strictly_sorted(old(levels)@),
        old(levels)@.len() < usize::MAX,
    ensures
        strictly_sorted(final(levels)@),
        final(levels)@ == level_insert(old(levels)@, b),
        forall|x: u64| final(levels)@.contains(x) <==> (old(levels)@.contains(x) || x == b),
        final(levels)@.len() >= 1,
        old(levels)@.len() <= final(levels)@.len() <= old(levels)@.len() + 1,
{
    let ghost s0 = levels@;
    let mut i: usize = 0;
    while i < levels.len()
        invariant
            0 <= i <= s0.len(),
            levels@ == s0,
            forall|m: int| 0 <= m < i ==> #[trigger] s0[m] < b,
        decreases s0.len() - i,
    {
        if levels[i] == b {
            proof {
                assert(s0.contains(b));
                lemma_level_insert_found(s0, b, i as int);
            }
            return ;
        }
        if levels[i] > b {
            proof {
                lemma_level_insert_at(s0, b, i as int);
            }
            levels.insert(i, b);
            proof {
                let t = levels@;
                assert(forall|m: int| 0 <= m < i ==> #[trigger] t[m] == s0[m]);
                assert(t[i as int] == b);
                assert(forall|m: int| i < m < t.len() ==> #[trigger] t[m] == s0[m - 1]);
                assert forall|x: u64| t.contains(x) implies (s0.contains(x) || x == b) by {
                    let m = choose|m: int| 0 <= m < t.len() && t[m] == x;
                    if m < i {
                        assert(s0[m] == x);
                    } else if m > i {
                        assert(s0[m - 1] == x);
                    }
                }
                assert forall|x: u64| s0.contains(x) || x == b implies t.contains(x) by {
                    if s0.contains(x) {
                        let m = choose|m: int| 0 <= m < s0.len() && s0[m] == x;
                        if m < i {
                            assert(t[m] == x);
                        } else {
                            assert(t[m + 1] == x);
                        }
                    } else {
                        assert(t[i as int] == b);
                    }
                }
            }
            return ;
        }
        i = i + 1;
    }
    proof {
        lemma_level_insert_at(s0, b, s0.len() as int);
        assert(s0.insert(s0.len() as int, b) =~= s0.push(b));
    }
    levels.push(b);
    proof {
        let t = levels@;
        assert(t.drop_last() =~= s0);
        assert(t[t.len() - 1] == b);
        assert(forall|m: int| 0 <= m < s0.len() ==> #[trigger] t[m] == s0[m]);
        assert forall|x: u64| t.contains(x) implies (s0.contains(x) || x == b) by {
            let m = choose|m: int| 0 <= m < t.len() && t[m] == x;
            if m < t.len() - 1 {
                assert(s0[m] == x);
            }
        }
        assert forall|x: u64| s0.contains(x) || x == b implies t.contains(x) by {
            if s0.contains(x) {
                let m = choose|m: int| 0 <= m < s0.len() && s0[m] == x;
                assert(t[m] == x);
            } else {
                assert(t[t.len() - 1] == b);
            }
        }
    }
}

/// The views of the eligibility lists.
pub open spec fn limb_views(ls: Seq<Vec<u8>>) -> Seq<Seq<u8>> {
    Seq::new(ls.len(), |k: int| ls[k]@)
}

/// Seat `i` may win a pot whose eligible list is `limb`: still in the
/// hand, and listed.
pub open spec fn eligible(ps: Seq<Player>, limb: Seq<u8>, i: int) -> bool {
    ps[i].in_hand && limb.contains(ps[i].id)
}

/// The hand values the players hold, seat by seat.
pub open spec fn hand_values(ps: Seq<Player>) -> Seq<Seq<u8>> {
    Seq::new(ps.len(), |i: int| ps[i].hand_value@)
}

/// Seat `i` holds a strongest hand value among the seats eligible for
/// the pot; `vals` gives each seat's hand value.
pub open spec fn is_pot_winner(ps: Seq<Player>, vals: Seq<Seq<u8>>, limb: Seq<u8>, i: int) -> bool {
    &&& 0 <= i < ps.len()
    &&& eligible(ps, limb, i)
    &&& forall|j: int| 0 <= j < ps.len() && eligible(ps, limb, j) ==> cmp_value(
        #[trigger] vals[j],
        vals[i],
    ) != 1
}

/// How many of the first `up` seats win the pot.
pub open spec fn count_pot_winners(ps: Seq<Player>, vals: Seq<Seq<u8>>, limb: Seq<u8>, up: int) -> int
    decreases up,
{
    if up <= 0 {
        0
    } else {
        count_pot_winners(ps, vals, limb, up - 1) + if is_pot_winner(ps, vals, limb, up - 1) {
            1int
        } else {
            0int
        }
    }
}

/// The first winning seat at or after `i`; the seat count when none is.
pub open spec fn first_pot_winner_from(ps: Seq<Player>, vals: Seq<Seq<u8>>, limb: Seq<u8>, i: int) -> int
    decreases ps.len() - i,
{
    if i < 0 || i >= ps.len() {
        ps.len() as int
    } else if is_pot_winner(ps, vals, limb, i) {
        i
    } else {
        first_pot_winner_from(ps, vals, limb, i + 1)
    }
}

/// What seat `i` takes from one pot. With more than one contender left in
/// the round, the pot splits evenly among the seats holding a strongest
/// eligible hand, and the first winner in seat order takes the
/// indivisible remainder; with a single contender, the whole pot is
/// theirs uncontested, with no hand comparison.
pub open spec fn pot_share(
    ps: Seq<Player>,
    vals: Seq<Seq<u8>>,
    limb: Seq<u8>,
    amount: u64,
    i: int,
    contenders: int,
) -> int {
    if contenders > 1 {
        let w = count_pot_winners(ps, vals, limb, ps.len() as int);
        if is_pot_winner(ps, vals, limb, i) {
            amount as int / w + if i == first_pot_winner_from(ps, vals, limb, 0) {
                amount as int % w
            } else {
                0int
            }
        } else {
            0
        }
    } else {
        if ps[i].in_hand {
            amount as int
        } else {
            0
        }
    }
}

/// What seat `i` takes over a series of pots.
pub open spec fn winnings_spec(
    ps: Seq<Player>,
    vals: Seq<Seq<u8>>,
    holes: Seq<u64>,
    limbs: Seq<Seq<u8>>,
    i: int,
    contenders: int,
) -> int
    decreases holes.len(),
{
    if holes.len() == 0 {
        0
    } else {
        winnings_spec(ps, vals, holes.drop_last(), limbs.drop_last(), i, contenders) + pot_share(
            ps,
            vals,
            limbs.last(),
            holes.last(),
            i,
            contenders,
        )
    }
}

/// Whether the pot can be won at all: with more than one contender,
/// some seat holds a strongest eligible hand; with one, some seat is
/// still in the hand.
pub open spec fn pot_has_winner(
    ps: Seq<Player>,
    vals: Seq<Seq<u8>>,
    limb: Seq<u8>,
    contenders: int,
) -> bool {
    if contenders > 1 {
        exists|i: int| is_pot_winner(ps, vals, limb, i)
    } else {
        count_in_hand(ps) >= 1
    }
}

/// What the payout hands out in total: each pot in full when it has a
/// winner, nothing otherwise.
pub open spec fn distributed_amounts(
    ps: Seq<Player>,
    vals: Seq<Seq<u8>>,
    holes: Seq<u64>,
    limbs: Seq<Seq<u8>>,
    contenders: int,
) -> int
    decreases holes.len(),
{
    if holes.len() == 0 {
        0
    } else {
        distributed_amounts(ps, vals, holes.drop_last(), limbs.drop_last(), contenders) + if
            pot_has_winner(ps, vals, limbs.last(), contenders) {
            holes.last() as int
        } else {
            0int
        }
    }
}

/// Every pot with a winning seat is fully distributed: when each pot has
/// one, the payout hands out exactly the pot total, and the chips are
/// conserved through the settlement.
pub proof fn lemma_full_distribution(
    ps: Seq<Player>,
    vals: Seq<Seq<u8>>,
    holes: Seq<u64>,
    limbs: Seq<Seq<u8>>,
    contenders: int,
)
    requires
        limbs.len() == holes.len(),
        forall|k: int| 0 <= k < holes.len() ==> pot_has_winner(
            ps,
            vals,
            #[trigger] limbs[k],
            contenders,
        ),
    ensures
        distributed_amounts(ps, vals, holes, limbs, contenders) == sum_amounts(holes),
    decreases holes.len(),
{
    if holes.len() > 0 {
        assert(forall|k: int|
            0 <= k < limbs.drop_last().len() ==> #[trigger] limbs.drop_last()[k] == limbs[k]);
        lemma_full_distribution(ps, vals, holes.drop_last(), limbs.drop_last(), contenders);
        assert(limbs.last() == limbs[limbs.len() - 1]);
    }
}

/// Whether an amount sequence holds `x`.
#[verifier::loop_isolation(false)]
fn contains_u8(v: &Vec<u8>, x: u8) -> (b: bool)
    ensures
        b == v@.contains(x),
{
    let mut i: usize = 0;
    while i < v.len()
        invariant
            0 <= i <= v@.len(),
            forall|m: int| 0 <= m < i ==> #[trigger] v@[m] != x,
        decreases v@.len() - i,
    {
        if v[i] == x {
            return true;
        }
        i = i + 1;
    }
    false
}

/// One more element extends the prefix sum of amounts by it.
pub proof fn lemma_amounts_take_step(h: Seq<u64>, i: int)
    requires
        0 <= i < h.len(),
    ensures
        sum_amounts(h.take(i + 1)) == sum_amounts(h.take(i)) + h[i],
{
    assert(h.take(i + 1).drop_last() =~= h.take(i));
    assert(h.take(i + 1).last() == h[i]);
}

/// A prefix sum of amounts never exceeds the full sum.
pub proof fn lemma_amounts_take_bound(h: Seq<u64>, i: int)
    requires
        0 <= i <= h.len(),
    ensures
        sum_amounts(h.take(i)) <= sum_amounts(h),
    decreases h.len() - i,
{
    if i == h.len() {
        assert(h.take(i) =~= h);
    } else {
        lemma_amounts_take_step(h, i);
        lemma_amounts_take_bound(h, i + 1);
    }
}

/// One more seat extends the prefix in-hand count by its flag.
pub proof fn lemma_count_in_hand_take_step(ps: Seq<Player>, i: int)
    requires
        0 <= i < ps.len(),
    ensures
        count_in_hand(ps.take(i + 1)) == count_in_hand(ps.take(i)) + if ps[i].in_hand {
            1int
        } else {
            0int
        },
{
    assert(ps.take(i + 1).drop_last() =~= ps.take(i));
    assert(ps.take(i + 1).last() == ps[i]);
}

/// A prefix in-hand count never exceeds the full count.
pub proof fn lemma_count_in_hand_take_bound(ps: Seq<Player>, i: int)
    requires
        0 <= i <= ps.len(),
    ensures
        count_in_hand(ps.take(i)) <= count_in_hand(ps),
        count_in_hand(ps.take(i)) >= 0,
    decreases ps.len() - i,
{
    lemma_sums_nonneg(ps.take(i));
    if i == ps.len() {
        assert(ps.take(i) =~= ps);
    } else {
        lemma_count_in_hand_take_step(ps, i);
        lemma_count_in_hand_take_bound(ps, i + 1);
    }
}

/// Counting winners over more seats never counts fewer.
pub proof fn lemma_count_winners_monotone(
    ps: Seq<Player>,
    vals: Seq<Seq<u8>>,
    limb: Seq<u8>,
    a: int,
    b: int,
)
    requires
        a <= b,
    ensures
        count_pot_winners(ps, vals, limb, a) <= count_pot_winners(ps, vals, limb, b),
    decreases b - a,
{
    if a < b {
        lemma_count_winners_monotone(ps, vals, limb, a, b - 1);
    }
}

/// A winning seat below `up` makes the winner count positive.
pub proof fn lemma_count_winners_at_least(
    ps: Seq<Player>,
    vals: Seq<Seq<u8>>,
    limb: Seq<u8>,
    i: int,
    up: int,
)
    requires
        is_pot_winner(ps, vals, limb, i),
        i < up,
    ensures
        count_pot_winners(ps, vals, limb, up) >= 1,
    decreases up - i,
{
    lemma_count_winners_monotone(ps, vals, limb, 0, i);
    if i < up - 1 {
        lemma_count_winners_at_least(ps, vals, limb, i, up - 1);
    }
}

/// With no winner below `i`, the search for the first winner may start
/// at `i`.
pub proof fn lemma_first_winner_skip(ps: Seq<Player>, vals: Seq<Seq<u8>>, limb: Seq<u8>, i: int)
    requires
        0 <= i,
        forall|j: int| 0 <= j < i ==> !is_pot_winner(ps, vals, limb, j),
    ensures
        first_pot_winner_from(ps, vals, limb, 0) == first_pot_winner_from(ps, vals, limb, i),
    decreases i,
{
    if i > 0 {
        lemma_first_winner_skip(ps, vals, limb, i - 1);
        if i - 1 < ps.len() {
            assert(first_pot_winner_from(ps, vals, limb, i - 1) == first_pot_winner_from(
                ps,
                vals,
                limb,
                i,
            ));
        } else {
            assert(first_pot_winner_from(ps, vals, limb, i - 1) == ps.len() as int);
            assert(first_pot_winner_from(ps, vals, limb, i) == ps.len() as int);
        }
    }
}

/// Two line-ups that agree on street bets seat by seat have the same
/// bet sum.
pub proof fn lemma_sum_bets_pointwise(a: Seq<Player>, b: Seq<Player>)
    requires
        a.len() == b.len(),
        forall|i: int| 0 <= i < a.len() ==> (#[trigger] a[i]).bet == (#[trigger] b[i]).bet,
    ensures
        sum_bets(a) == sum_bets(b),
    decreases a.len(),
{
    if a.len() > 0 {
        assert(forall|i: int|
            0 <= i < a.drop_last().len() ==> #[trigger] a.drop_last()[i] == a[i]);
        assert(forall|i: int|
            0 <= i < b.drop_last().len() ==> #[trigger] b.drop_last()[i] == b[i]);
        lemma_sum_bets_pointwise(a.drop_last(), b.drop_last());
        assert(a.last() == a[a.len() - 1] && b.last() == b[b.len() - 1]);
    }
}

/// Conservation of chips: once every street bet has been swept into the
/// pots, the pot amounts add up to exactly what the players bet this
/// round. This holds at settlement, where the sweep has just run.
pub proof fn lemma_pot_conservation(t: Poker)
    requires
        t.wf(),
        forall|i: int| 0 <= i < t.players@.len() ==> (#[trigger] t.players@[i]).bet == 0,
    ensures
        sum_amounts(t.hole@) == sum_total_bets(t.players@),
{
    lemma_sum_bets_zero(t.players@);
}

/// A seat that has folded is offered no action for the rest of the
/// round: its legal action set is empty.
pub proof fn lemma_folded_seat_has_no_actions(t: Poker)
    requires
        t.wf(),
        !t.players@[t.current_player as int].in_hand,
    ensures
        t.legal_actions_spec() =~= Seq::<u8>::empty(),
{
}

/// Two line-ups with the same initial stake seat by seat have the same
/// stake sum.
pub proof fn lemma_sums_pointwise_initials(a: Seq<Player>, b: Seq<Player>)
    requires
        a.len() == b.len(),
        forall|i: int| 0 <= i < a.len() ==> (#[trigger] a[i]).initial_credit == (
        #[trigger] b[i]).initial_credit,
    ensures
        sum_initials(a) == sum_initials(b),
    decreases a.len(),
{
    if a.len() > 0 {
        assert(forall|i: int|
            0 <= i < a.drop_last().len() ==> #[trigger] a.drop_last()[i] == a[i]);
        assert(forall|i: int|
            0 <= i < b.drop_last().len() ==> #[trigger] b.drop_last()[i] == b[i]);
        lemma_sums_pointwise_initials(a.drop_last(), b.drop_last());
        assert(a.last() == a[a.len() - 1] && b.last() == b[b.len() - 1]);
    }
}

/// When every round bet is zero, their sum is zero.
pub proof fn lemma_total_bets_zero(ps: Seq<Player>)
    requires
        forall|i: int| 0 <= i < ps.len() ==> (#[trigger] ps[i]).total_bet == 0,
    ensures
        sum_total_bets(ps) == 0,
    decreases ps.len(),
{
    if ps.len() > 0 {
        assert(forall|i: int|
            0 <= i < ps.drop_last().len() ==> #[trigger] ps.drop_last()[i] == ps[i]);
        lemma_total_bets_zero(ps.drop_last());
        assert(ps.last() == ps[ps.len() - 1]);
    }
}

/// When every seat is in the hand, the in-hand count is the seat count.
pub proof fn lemma_count_all_in_hand(ps: Seq<Player>)
    requires
        forall|i: int| 0 <= i < ps.len() ==> (#[trigger] ps[i]).in_hand,
    ensures
        count_in_hand(ps) == ps.len(),
    decreases ps.len(),
{
    if ps.len() > 0 {
        assert(forall|i: int|
            0 <= i < ps.drop_last().len() ==> #[trigger] ps.drop_last()[i] == ps[i]);
        lemma_count_all_in_hand(ps.drop_last());
        assert(ps.last() == ps[ps.len() - 1]);
    }
}

/// A line-up whose credits equal the other's initial stakes seat by seat
/// carries the other's stake sum as credits.
pub proof fn lemma_sum_credits_of_initials(a: Seq<Player>, b: Seq<Player>)
    requires
        a.len() == b.len(),
        forall|i: int| 0 <= i < a.len() ==> (#[trigger] a[i]).credits == (
        #[trigger] b[i]).initial_credit,
    ensures
        sum_credits(a) == sum_initials(b),
    decreases a.len(),
{
    if a.len() > 0 {
        assert(forall|i: int|
            0 <= i < a.drop_last().len() ==> #[trigger] a.drop_last()[i] == a[i]);
        assert(forall|i: int|
            0 <= i < b.drop_last().len() ==> #[trigger] b.drop_last()[i] == b[i]);
        lemma_sum_credits_of_initials(a.drop_last(), b.drop_last());
        assert(a.last() == a[a.len() - 1] && b.last() == b[b.len() - 1]);
    }
}

/// Two line-ups that agree on credits seat by seat have the same credit
/// sum.
pub proof fn lemma_sum_credits_pointwise(a: Seq<Player>, b: Seq<Player>)
    requires
        a.len() == b.len(),
        forall|i: int| 0 <= i < a.len() ==> (#[trigger] a[i]).credits == (
        #[trigger] b[i]).credits,
    ensures
        sum_credits(a) == sum_credits(b),
    decreases a.len(),
{
    if a.len() > 0 {
        assert(forall|i: int|
            0 <= i < a.drop_last().len() ==> #[trigger] a.drop_last()[i] == a[i]);
        assert(forall|i: int|
            0 <= i < b.drop_last().len() ==> #[trigger] b.drop_last()[i] == b[i]);
        lemma_sum_credits_pointwise(a.drop_last(), b.drop_last());
        assert(a.last() == a[a.len() - 1] && b.last() == b[b.len() - 1]);
    }
}

/// When every street bet is zero, their sum is zero.
pub proof fn lemma_sum_bets_zero(ps: Seq<Player>)
    requires
        forall|i: int| 0 <= i < ps.len() ==> (#[trigger] ps[i]).bet == 0,
    ensures
        sum_bets(ps) == 0,
    decreases ps.len(),
{
    if ps.len() > 0 {
        assert(forall|i: int|
            0 <= i < ps.drop_last().len() ==> #[trigger] ps.drop_last()[i] == ps[i]);
        lemma_sum_bets_zero(ps.drop_last());
        assert(ps.last() == ps[ps.len() - 1]);
    }
}

/// Two line-ups that agree on credits, round bets, stakes and the in-hand
/// flag seat by seat have the same sums and the same in-hand count.
pub proof fn lemma_sums_pointwise(a: Seq<Player>, b: Seq<Player>)
    requires
        a.len() == b.len(),
        forall|i: int| 0 <= i < a.len() ==> {
            &&& (#[trigger] a[i]).credits == (#[trigger] b[i]).credits
            &&& a[i].total_bet == b[i].total_bet
            &&& a[i].initial_credit == b[i].initial_credit
            &&& a[i].in_hand == b[i].in_hand
        },
    ensures
        sum_credits(a) == sum_credits(b),
        sum_total_bets(a) == sum_total_bets(b),
        sum_initials(a) == sum_initials(b),
        count_in_hand(a) == count_in_hand(b),
    decreases a.len(),
{
    if a.len() > 0 {
        assert(forall|i: int|
            0 <= i < a.drop_last().len() ==> #[trigger] a.drop_last()[i] == a[i]);
        assert(forall|i: int|
            0 <= i < b.drop_last().len() ==> #[trigger] b.drop_last()[i] == b[i]);
        lemma_sums_pointwise(a.drop_last(), b.drop_last());
        assert(a.last() == a[a.len() - 1] && b.last() == b[b.len() - 1]);
    }
}

} // verus!
