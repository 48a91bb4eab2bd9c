//! Strength vectors: the ordered tuples `[category, tiebreaks...]` that rank
//! five-card poker hands, and the element-wise comparison between them.

use vstd::prelude::*;
use crate::card::CardC;

verus! {

/// How many cards of `s` have rank `v`.
pub open spec fn count_rank(s: Seq<CardC>, v: int) -> int
    decreases s.len(),
{
    if s.len() == 0 {
        0
    } else {
        count_rank(s.drop_last(), v) + if s.last().value == v {
            1int
        } else {
            0int
        }
    }
}

/// The ranks between 2 and `up` that occur exactly `k` times in `s`,
/// in ascending order.
pub open spec fn ranks_with_count(s: Seq<CardC>, k: int, up: int) -> Seq<u8>
    decreases up,
{
    if up < 2 {
        Seq::empty()
    } else {
        let rest = ranks_with_count(s, k, up - 1);
        if count_rank(s, up) == k {
            rest.push(up as u8)
        } else {
            rest
        }
    }
}

/// Ranks paired exactly twice, ascending.
pub open spec fn pairs_of(s: Seq<CardC>) -> Seq<u8> {
    ranks_with_count(s, 2, 14)
}

/// Ranks occurring exactly three times, ascending.
pub open spec fn triples_of(s: Seq<CardC>) -> Seq<u8> {
    ranks_with_count(s, 3, 14)
}

/// Ranks occurring exactly four times, ascending.
pub open spec fn quads_of(s: Seq<CardC>) -> Seq<u8> {
    ranks_with_count(s, 4, 14)
}

/// Ranks occurring exactly once, ascending.
pub open spec fn singles_of(s: Seq<CardC>) -> Seq<u8> {
    ranks_with_count(s, 1, 14)
}

/// All five cards share one suit.
pub open spec fn is_flush(s: Seq<CardC>) -> bool {
    forall|i: int| 0 <= i < s.len() ==> #[trigger] s[i].figure == s[0].figure
}

/// The wheel: ranks 2, 3, 4, 5 and an ace playing low.
pub open spec fn is_wheel(s: Seq<CardC>) -> bool {
    s.len() == 5 && s[0].value == 2 && s[1].value == 3 && s[2].value == 4 && s[3].value == 5
        && s[4].value == 14
}

/// Five consecutive ranks in ascending order.
pub open spec fn is_consecutive(s: Seq<CardC>) -> bool {
    s.len() == 5 && forall|i: int| 0 <= i < 5 ==> #[trigger] s[i].value == s[0].value + i
}

/// Ten through ace in one run.
pub open spec fn is_royal(s: Seq<CardC>) -> bool {
    is_consecutive(s) && s[0].value == 10
}

/// The strength vector of a sorted five-card hand: the category first,
/// then the tiebreak ranks in descending significance.
pub open spec fn strength(s: Seq<CardC>) -> Seq<u8> {
    let pairs = pairs_of(s);
    let triples = triples_of(s);
    let quads = quads_of(s);
    let singles = singles_of(s);
    if pairs.len() == 2 {
        seq![3u8, pairs[1], pairs[0], singles[0]]
    } else if pairs.len() == 1 && triples.len() == 1 {
        seq![7u8, triples[0], pairs[0]]
    } else if pairs.len() == 1 {
        seq![2u8, pairs[0], singles[2], singles[1], singles[0]]
    } else if triples.len() == 1 {
        seq![4u8, triples[0], singles[1], singles[0]]
    } else if quads.len() == 1 {
        seq![8u8, quads[0], singles[0]]
    } else if is_flush(s) && is_royal(s) {
        seq![10u8, 14u8]
    } else if is_flush(s) && is_wheel(s) {
        seq![9u8, 5u8]
    } else if is_flush(s) && is_consecutive(s) {
        seq![9u8, s[4].value]
    } else if is_flush(s) {
        seq![6u8, s[4].value, s[3].value, s[2].value, s[1].value, s[0].value]
    } else if is_wheel(s) {
        seq![5u8, 5u8]
    } else if is_consecutive(s) {
        seq![5u8, s[4].value]
    } else {
        seq![1u8, s[4].value, s[3].value, s[2].value, s[1].value, s[0].value]
    }
}

/// The number of cards of `s` whose rank lies between 2 and `up`.
pub open spec fn total_count(s: Seq<CardC>, up: int) -> int
    decreases up,
{
    if up < 2 {
        0
    } else {
        total_count(s, up - 1) + count_rank(s, up)
    }
}

/// A rank count is never negative and never exceeds the hand size.
pub proof fn lemma_count_rank_bounds(s: Seq<CardC>, v: int)
    ensures
        0 <= count_rank(s, v) <= s.len(),
    decreases s.len(),
{
    if s.len() > 0 {
        lemma_count_rank_bounds(s.drop_last(), v);
    }
}

proof fn lemma_total_count_empty(s: Seq<CardC>, up: int)
    requires
        s.len() == 0,
    ensures
        total_count(s, up) == 0,
    decreases up,
{
    if up >= 2 {
        lemma_total_count_empty(s, up - 1);
    }
}

proof fn lemma_total_count_step(s: Seq<CardC>, up: int)
    requires
        s.len() > 0,
    ensures
        total_count(s, up) == total_count(s.drop_last(), up) + if 2 <= s.last().value <= up {
            1int
        } else {
            0int
        },
    decreases up,
{
    if up >= 2 {
        lemma_total_count_step(s, up - 1);
    }
}

/// Each card of a valid hand is counted exactly once over the rank range.
pub proof fn lemma_total_count_all(s: Seq<CardC>)
    requires
        forall|i: int| 0 <= i < s.len() ==> (#[trigger] s[i]).valid(),
    ensures
        total_count(s, 14) == s.len(),
    decreases s.len(),
{
    if s.len() == 0 {
        lemma_total_count_empty(s, 14);
    } else {
        assert(forall|i: int|
            0 <= i < s.drop_last().len() ==> #[trigger] s.drop_last()[i] == s[i]);
        lemma_total_count_all(s.drop_last());
        lemma_total_count_step(s, 14);
        assert(s[s.len() - 1].valid());
        assert(s.last() == s[s.len() - 1]);
    }
}

/// The rank groups partition the hand: counting each rank that occurs `k`
/// times with weight `k` accounts for every card.
pub proof fn lemma_rank_partition(s: Seq<CardC>, up: int)
    requires
        forall|v: int| count_rank(s, v) <= 5,
    ensures
        ranks_with_count(s, 1, up).len() + 2 * ranks_with_count(s, 2, up).len() + 3
            * ranks_with_count(s, 3, up).len() + 4 * ranks_with_count(s, 4, up).len() + 5
            * ranks_with_count(s, 5, up).len() == total_count(s, up),
    decreases up,
{
    if up >= 2 {
        lemma_rank_partition(s, up - 1);
        lemma_count_rank_bounds(s, up);
    }
}

/// Element-wise comparison of two strength vectors: 1 when `a` is stronger,
/// 2 when `b` is stronger, 0 when they are the same vector. The first
/// differing element decides; a vector that extends the other is stronger.
pub open spec fn cmp_value(a: Seq<u8>, b: Seq<u8>) -> u8
    decreases a.len() + b.len(),
{
    if a.len() == 0 && b.len() == 0 {
        0u8
    } else if b.len() == 0 {
        1u8
    } else if a.len() == 0 {
        2u8
    } else if a[0] > b[0] {
        1u8
    } else if b[0] > a[0] {
        2u8
    } else {
        cmp_value(a.drop_first(), b.drop_first())
    }
}

/// Compare two strength vectors element-wise: 1 when the first is stronger,
/// 2 when the second is, 0 on an exact tie.
pub fn winner(value_a: &Vec<u8>, value_b: &Vec<u8>) -> (r: u8)
    ensures
        r == cmp_value(value_a@, value_b@),
{
    let n: usize = if value_a.len() < value_b.len() {
        value_a.len()
    } else {
        value_b.len()
    };
    let mut i: usize = 0;
    proof {
        assert(value_a@.skip(0) =~= value_a@);
        assert(value_b@.skip(0) =~= value_b@);
    }
    while i < n
        invariant
            0 <= i <= n,
            n <= value_a@.len(),
            n <= value_b@.len(),
            n == if value_a@.len() < value_b@.len() {
                value_a@.len()
            } else {
                value_b@.len()
            },
            cmp_value(value_a@, value_b@) == cmp_value(
                value_a@.skip(i as int),
                value_b@.skip(i as int),
            ),
        decreases n - i,
    {
        let ghost sa = value_a@.skip(i as int);
        let ghost sb = value_b@.skip(i as int);
        if value_a[i] > value_b[i] {
            assert(sa[0] == value_a@[i as int] && sb[0] == value_b@[i as int]);
            return 1;
        }
        if value_b[i] > value_a[i] {
            assert(sa[0] == value_a@[i as int] && sb[0] == value_b@[i as int]);
            return 2;
        }
        proof {
            assert(sa[0] == value_a@[i as int] && sb[0] == value_b@[i as int]);
            assert(sa.drop_first() =~= value_a@.skip(i + 1));
            assert(sb.drop_first() =~= value_b@.skip(i + 1));
        }
        i = i + 1;
    }
    proof {
        assert(value_a@.skip(i as int).len() == value_a@.len() - i);
        assert(value_b@.skip(i as int).len() == value_b@.len() - i);
    }
    if value_a.len() == value_b.len() {
        0
    } else if value_a.len() > value_b.len() {
        1
    } else {
        2
    }
}

/// The comparison answers 0, 1 or 2, and answers 0 exactly on equal vectors:
/// together with the two lemmas below, a total order on strength vectors.
pub proof fn lemma_cmp_total(a: Seq<u8>, b: Seq<u8>)
    ensures
        cmp_value(a, b) == 0 || cmp_value(a, b) == 1 || cmp_value(a, b) == 2,
        cmp_value(a, b) == 0 <==> a == b,
    decreases a.len() + b.len(),
{
    if a.len() == 0 && b.len() == 0 {
        assert(a =~= b);
    } else if a.len() > 0 && b.len() > 0 && a[0] == b[0] {
        lemma_cmp_total(a.drop_first(), b.drop_first());
        if cmp_value(a, b) == 0 {
            assert(a.drop_first() == b.drop_first());
            assert(a =~= b) by {
                assert(forall|i: int|
                    1 <= i < a.len() ==> #[trigger] a[i] == a.drop_first()[i - 1]);
                assert(forall|i: int|
                    1 <= i < b.len() ==> #[trigger] b[i] == b.drop_first()[i - 1]);
            }
        }
        if a == b {
            assert(a.drop_first() =~= b.drop_first());
        }
    } else {
        if a == b {
            assert(a.len() == b.len());
            if a.len() > 0 {
                assert(a[0] == b[0]);
            }
        }
    }
}

/// Comparison is antisymmetric: `a` beats `b` exactly when `b` loses to `a`.
pub proof fn lemma_cmp_antisymmetric(a: Seq<u8>, b: Seq<u8>)
    ensures
        cmp_value(a, b) == 1 <==> cmp_value(b, a) == 2,
    decreases a.len() + b.len(),
{
    if a.len() > 0 && b.len() > 0 && a[0] == b[0] {
        lemma_cmp_antisymmetric(a.drop_first(), b.drop_first());
    }
}

/// Comparison is transitive: when `a` is at least as strong as `b` and `b`
/// at least as strong as `c`, `a` is at least as strong as `c`.
pub proof fn lemma_cmp_transitive(a: Seq<u8>, b: Seq<u8>, c: Seq<u8>)
    requires
        cmp_value(a, b) != 2,
        cmp_value(b, c) != 2,
    ensures
        cmp_value(a, c) != 2,
    decreases a.len() + b.len() + c.len(),
{
    if a.len() > 0 && b.len() > 0 && c.len() > 0 && a[0] == b[0] && b[0] == c[0] {
        lemma_cmp_transitive(a.drop_first(), b.drop_first(), c.drop_first());
    }
}

/// Strict comparison chains: what beats a winner beats what the winner
/// beat.
pub proof fn lemma_cmp_strict_transitive(a: Seq<u8>, b: Seq<u8>, c: Seq<u8>)
    requires
        cmp_value(a, b) == 1,
        cmp_value(b, c) == 1,
    ensures
        cmp_value(a, c) == 1,
{
    lemma_cmp_transitive(a, b, c);
    lemma_cmp_total(a, c);
    if cmp_value(a, c) == 0 {
        lemma_cmp_antisymmetric(b, c);
        assert(a == c);
    }
}

/// A higher category always wins, whatever the tiebreaks: any strength
/// vector of a stronger category compares greater than any vector of a
/// weaker one. In particular four of a kind beats a full house.
pub proof fn lemma_higher_category_wins(a: Seq<u8>, b: Seq<u8>)
    requires
        a.len() > 0,
        b.len() > 0,
        a[0] > b[0],
    ensures
        cmp_value(a, b) == 1,
{
}

} // verus!
