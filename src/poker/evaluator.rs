//! The seven-card hand evaluator.
//!
//! Each of the eight categories, straight flush down to pair, has a pool: a
//! sequence of pattern groups, strongest first, where a group holds every
//! concrete set of cards that makes the category at one minor rank. A hand is
//! ranked by the first pattern it covers, scanning the pools in order.
use std::cmp::Ordering;
use std::collections::HashMap;
use vstd::prelude::*;
use crate::poker::hand::{card_bit, count_below, holds, holds_rank, top_cards, Hand, RANK_COUNT};

verus! {

/// The three-suit subsets of one rank, as four bits.
pub open spec fn three_suits(j: int) -> u64 {
    seq![0b1110u64, 0b1101u64, 0b1011u64, 0b0111u64][j]
}

/// The two-suit subsets of one rank, as four bits.
pub open spec fn two_suits(j: int) -> u64 {
    seq![0b1100u64, 0b1010u64, 0b1001u64, 0b0110u64, 0b0101u64, 0b0011u64][j]
}

/// The rank `12 - t`: pools list ranks from the ace down.
pub open spec fn rank_from_top(t: int) -> u64 {
    (12 - t) as u64
}

/// Four-bit suit set `suits` placed on rank `rank`.
pub open spec fn on_rank(suits: u64, rank: u64) -> u64 {
    suits << ((rank * 4) as u64)
}

/// Four of a kind, one group per rank, aces first.
pub open spec fn quad_pool() -> Seq<Seq<u64>> {
    Seq::new(13, |t: int| seq![on_rank(0b1111u64, rank_from_top(t))])
}

/// Three of a kind, one group per rank, aces first.
pub open spec fn trip_pool() -> Seq<Seq<u64>> {
    Seq::new(13, |t: int| Seq::new(4, |j: int| on_rank(three_suits(j), rank_from_top(t))))
}

/// One pair, one group per rank, aces first.
pub open spec fn pair_pool() -> Seq<Seq<u64>> {
    Seq::new(13, |t: int| Seq::new(6, |j: int| on_rank(two_suits(j), rank_from_top(t))))
}

/// The lowest rank of the straight whose top rank is `rank`: the ace plays
/// low below the five.
pub open spec fn straight_low(rank: u64) -> u64 {
    if rank == 3 {
        12
    } else {
        (rank - 4) as u64
    }
}

/// The straight from rank `rank` down, its five cards' suits read two bits
/// each from `suits`, the top card's from the lowest bits.
pub open spec fn straight_mask(rank: u64, suits: u64) -> u64 {
    card_bit((rank * 4 + (suits & 3u64)) as u64) | card_bit(
        ((rank - 1) * 4 + ((suits >> 2u64) & 3u64)) as u64,
    ) | card_bit(((rank - 2) * 4 + ((suits >> 4u64) & 3u64)) as u64) | card_bit(
        ((rank - 3) * 4 + ((suits >> 6u64) & 3u64)) as u64,
    ) | card_bit((straight_low(rank) * 4 + ((suits >> 8u64) & 3u64)) as u64)
}

/// The suit code gives all five cards one suit.
pub open spec fn one_suit(suits: u64) -> bool {
    suits == 0 || suits == 0x155 || suits == 0x2aa || suits == 0x3ff
}

/// The straights from rank `rank` over the suit codes below `n`, in code
/// order: those of one suit where `flush`, the others where not.
pub open spec fn straight_group(rank: u64, flush: bool, n: nat) -> Seq<u64>
    decreases n,
{
    if n == 0 {
        seq![]
    } else {
        let prev = straight_group(rank, flush, (n - 1) as nat);
        if one_suit((n - 1) as u64) == flush {
            prev.push(straight_mask(rank, (n - 1) as u64))
        } else {
            prev
        }
    }
}

/// Straight flushes, one group per top rank, ace-high first, five-high last.
pub open spec fn straight_flush_pool() -> Seq<Seq<u64>> {
    Seq::new(10, |t: int| straight_group(rank_from_top(t), true, 1024))
}

/// Straights that are not flushes, grouped as the straight flushes are.
pub open spec fn straight_pool() -> Seq<Seq<u64>> {
    Seq::new(10, |t: int| straight_group(rank_from_top(t), false, 1024))
}

/// The cards of suit `suit` at the ranks of the rank set `ranks` below `n`.
pub open spec fn suited_ranks(ranks: u64, suit: u64, n: nat) -> u64
    decreases n,
{
    if n == 0 {
        0
    } else {
        let prev = suited_ranks(ranks, suit, (n - 1) as nat);
        if holds(ranks, (n - 1) as u64) {
            prev | card_bit(((n - 1) * 4 + suit) as u64)
        } else {
            prev
        }
    }
}

/// The four flushes, one per suit, of the five ranks in `ranks`.
pub open spec fn flush_group(ranks: u64) -> Seq<u64> {
    Seq::new(4, |s: int| suited_ranks(ranks, s as u64, 13))
}

/// The flush groups of the rank sets from 8191 down to `8192 - n` that hold
/// five ranks. The larger a rank set as a number, the stronger the flush.
pub open spec fn flush_groups(n: nat) -> Seq<Seq<u64>>
    decreases n,
{
    if n == 0 {
        seq![]
    } else {
        let prev = flush_groups((n - 1) as nat);
        let ranks = (8192 - n) as u64;
        if count_below(ranks, 13) == 5 {
            prev.push(flush_group(ranks))
        } else {
            prev
        }
    }
}

/// Flushes, one group per set of five ranks, strongest first.
pub open spec fn flush_pool() -> Seq<Seq<u64>> {
    flush_groups(8192)
}

/// The first rank of the `i`-th ordered pair of ranks, both from the ace down.
pub open spec fn first_rank(i: int) -> u64 {
    (12 - i / 13) as u64
}

/// The second rank of the `i`-th ordered pair of ranks.
pub open spec fn second_rank(i: int) -> u64 {
    (12 - i % 13) as u64
}

/// Full houses of three cards of rank `hi` and two of rank `lo`.
pub open spec fn full_house_group(hi: u64, lo: u64) -> Seq<u64> {
    Seq::new(24, |j: int| on_rank(three_suits(j / 6), hi) | on_rank(two_suits(j % 6), lo))
}

/// The full house groups of the first `n` ordered pairs of distinct ranks.
pub open spec fn full_house_groups(n: nat) -> Seq<Seq<u64>>
    decreases n,
{
    if n == 0 {
        seq![]
    } else {
        let prev = full_house_groups((n - 1) as nat);
        let i = n - 1;
        if first_rank(i) != second_rank(i) {
            prev.push(full_house_group(first_rank(i), second_rank(i)))
        } else {
            prev
        }
    }
}

/// Full houses, one group per (three's rank, pair's rank), strongest first.
pub open spec fn full_house_pool() -> Seq<Seq<u64>> {
    full_house_groups(169)
}

/// Two pairs of ranks `hi` and `lo`.
pub open spec fn two_pair_group(hi: u64, lo: u64) -> Seq<u64> {
    Seq::new(36, |j: int| on_rank(two_suits(j / 6), hi) | on_rank(two_suits(j % 6), lo))
}

/// The two pair groups of the first `n` ordered pairs of ranks, kept where
/// the first rank is the higher.
pub open spec fn two_pair_groups(n: nat) -> Seq<Seq<u64>>
    decreases n,
{
    if n == 0 {
        seq![]
    } else {
        let prev = two_pair_groups((n - 1) as nat);
        let i = n - 1;
        if first_rank(i) > second_rank(i) {
            prev.push(two_pair_group(first_rank(i), second_rank(i)))
        } else {
            prev
        }
    }
}

/// Two pairs, one group per (higher, lower) rank pair, strongest first.
pub open spec fn two_pair_pool() -> Seq<Seq<u64>> {
    two_pair_groups(169)
}

/// The eight pools, strongest category first: straight flush, four of a
/// kind, full house, flush, straight, three of a kind, two pair, pair.
pub open spec fn pools() -> Seq<Seq<Seq<u64>>> {
    seq![
        straight_flush_pool(),
        quad_pool(),
        full_house_pool(),
        flush_pool(),
        straight_pool(),
        trip_pool(),
        two_pair_pool(),
        pair_pool(),
    ]
}

/// The major rank of a hand that matches no pool: high card.
pub const HIGH_CARD: usize = 8;

/// Every card of `pattern` is in `hand`.
pub open spec fn covers(hand: u64, pattern: u64) -> bool {
    hand & pattern == pattern
}

/// The first pattern of `group`, from index `j` on, that `hand` covers.
pub open spec fn first_match(hand: u64, group: Seq<u64>, j: nat) -> Option<u64>
    decreases group.len() - j,
{
    if j >= group.len() {
        None
    } else if covers(hand, group[j as int]) {
        Some(group[j as int])
    } else {
        first_match(hand, group, j + 1)
    }
}

/// The first group of `pool`, from index `i` on, with a pattern that `hand`
/// covers: that pattern and the group's index.
pub open spec fn rank_in(hand: u64, pool: Seq<Seq<u64>>, i: nat) -> Option<(u64, nat)>
    decreases pool.len() - i,
{
    if i >= pool.len() {
        None
    } else {
        match first_match(hand, pool[i as int], 0) {
            Some(p) => Some((p, i)),
            None => rank_in(hand, pool, i + 1),
        }
    }
}

/// How many cards beside `pattern` make up a five-card hand.
pub open spec fn kicker_count(pattern: u64) -> nat {
    if count_below(pattern, 64) >= 5 {
        0
    } else {
        (5 - count_below(pattern, 64)) as nat
    }
}

/// The evaluation of `hand` by the pools from major rank `m` on.
pub open spec fn evaluate_from(hand: u64, m: nat) -> (nat, nat, u64)
    decreases 8 - m,
{
    if m >= 8 {
        (8, 0, top_cards(hand, 5, 52))
    } else {
        match rank_in(hand, pools()[m as int], 0) {
            Some((p, minor)) => (m, minor, p),
            None => evaluate_from(hand, m + 1),
        }
    }
}

/// The evaluation of `hand`: the major rank (the first pool that matches,
/// 8 where none does), the minor rank (the first group of that pool that
/// matches), and the matched pattern (the first pattern of that group that
/// the hand covers; for high card the hand's five best cards).
pub open spec fn evaluation(hand: u64) -> (nat, nat, u64) {
    evaluate_from(hand, 0)
}

/// The cards of `hand` that break a tie within its category and minor rank,
/// given its evaluation `e`: the best cards outside the matched pattern that
/// make five with it; for high card the five best cards themselves.
pub open spec fn tie_break(hand: u64, e: (nat, nat, u64)) -> u64 {
    if e.0 >= 8 {
        e.2
    } else {
        top_cards(hand & !e.2, kicker_count(e.2), 52)
    }
}

/// Rank by rank from rank `r - 1` down, the first rank held by one of `a`, `b`
/// but not the other decides; `Equal` where none does.
pub open spec fn compare_ranks(a: u64, b: u64, r: nat) -> Ordering
    decreases r,
{
    if r == 0 {
        Ordering::Equal
    } else {
        let x = holds_rank(a, (r - 1) as u64);
        let y = holds_rank(b, (r - 1) as u64);
        if x == y {
            compare_ranks(a, b, (r - 1) as nat)
        } else if x {
            Ordering::Greater
        } else {
            Ordering::Less
        }
    }
}

/// How hand `a` stands against hand `b`: the lower major rank wins, then the
/// lower minor rank, then the tie-break cards from the ace down.
pub open spec fn compare_hands(a: u64, b: u64) -> Ordering {
    let ea = evaluation(a);
    let eb = evaluation(b);
    if ea.0 < eb.0 {
        Ordering::Greater
    } else if eb.0 < ea.0 {
        Ordering::Less
    } else if ea.1 < eb.1 {
        Ordering::Greater
    } else if eb.1 < ea.1 {
        Ordering::Less
    } else {
        compare_ranks(tie_break(a, ea), tie_break(b, eb), 13)
    }
}

/// The number of patterns in the first `n` groups of `pool`.
pub open spec fn pattern_total(pool: Seq<Seq<u64>>, n: nat) -> nat
    decreases n,
{
    if n == 0 || n > pool.len() {
        0
    } else {
        pattern_total(pool, (n - 1) as nat) + pool[n - 1].len()
    }
}

proof fn lemma_straight_group_len(rank: u64, flush: bool, n: nat)
    ensures
        straight_group(rank, flush, n).len() <= n,
    decreases n,
{
    if n > 0 {
        lemma_straight_group_len(rank, flush, (n - 1) as nat);
    }
}

proof fn lemma_flush_groups(n: nat)
    ensures
        flush_groups(n).len() <= n,
        forall|k: int| 0 <= k < flush_groups(n).len() ==> #[trigger] flush_groups(n)[k].len() == 4,
    decreases n,
{
    if n > 0 {
        lemma_flush_groups((n - 1) as nat);
    }
}

proof fn lemma_full_house_groups(n: nat)
    ensures
        full_house_groups(n).len() <= n,
        forall|k: int|
            0 <= k < full_house_groups(n).len() ==> #[trigger] full_house_groups(n)[k].len() == 24,
    decreases n,
{
    if n > 0 {
        lemma_full_house_groups((n - 1) as nat);
    }
}

proof fn lemma_two_pair_groups(n: nat)
    ensures
        two_pair_groups(n).len() <= n,
        forall|k: int|
            0 <= k < two_pair_groups(n).len() ==> #[trigger] two_pair_groups(n)[k].len() == 36,
    decreases n,
{
    if n > 0 {
        lemma_two_pair_groups((n - 1) as nat);
    }
}

/// Every pool has at most 8192 groups of at most 1024 patterns each.
proof fn lemma_pool_sizes(m: int)
    requires
        0 <= m < 8,
    ensures
        pools()[m].len() <= 8192,
        forall|i: int| 0 <= i < pools()[m].len() ==> #[trigger] pools()[m][i].len() <= 1024,
{
    lemma_flush_groups(8192);
    lemma_full_house_groups(169);
    lemma_two_pair_groups(169);
    assert forall|i: int| 0 <= i < 10 implies #[trigger] straight_pool()[i].len() <= 1024 by {
        lemma_straight_group_len(rank_from_top(i), false, 1024);
    }
    assert forall|i: int| 0 <= i < 10 implies #[trigger] straight_flush_pool()[i].len() <= 1024 by {
        lemma_straight_group_len(rank_from_top(i), true, 1024);
    }
    let ps = pools();
    assert(ps[0] == straight_flush_pool() && ps[1] == quad_pool() && ps[2] == full_house_pool()
        && ps[3] == flush_pool() && ps[4] == straight_pool() && ps[5] == trip_pool() && ps[6]
        == two_pair_pool() && ps[7] == pair_pool());
    assert forall|i: int| 0 <= i < ps[m].len() implies #[trigger] ps[m][i].len() <= 1024 by {
        if m == 0 {
            assert(straight_flush_pool()[i].len() <= 1024);
        } else if m == 4 {
            assert(straight_pool()[i].len() <= 1024);
        } else if m == 3 {
            assert(flush_pool()[i].len() == 4);
        } else if m == 2 {
            assert(full_house_pool()[i].len() == 24);
        } else if m == 6 {
            assert(two_pair_pool()[i].len() == 36);
        }
    }
}

proof fn lemma_pattern_total_bound(pool: Seq<Seq<u64>>, n: nat)
    requires
        n <= pool.len(),
        forall|i: int| 0 <= i < pool.len() ==> #[trigger] pool[i].len() <= 1024,
    ensures
        pattern_total(pool, n) <= 1024 * n,
    decreases n,
{
    if n > 0 {
        lemma_pattern_total_bound(pool, (n - 1) as nat);
    }
}

/// The outcome seen from the other side.
pub open spec fn mirror(o: Ordering) -> Ordering {
    match o {
        Ordering::Greater => Ordering::Less,
        Ordering::Less => Ordering::Greater,
        Ordering::Equal => Ordering::Equal,
    }
}

proof fn lemma_compare_ranks_mirror(a: u64, b: u64, r: nat)
    ensures
        compare_ranks(a, b, r) == mirror(compare_ranks(b, a, r)),
    decreases r,
{
    if r > 0 {
        lemma_compare_ranks_mirror(a, b, (r - 1) as nat);
    }
}

proof fn lemma_compare_ranks_same(a: u64, r: nat)
    ensures
        compare_ranks(a, a, r) == Ordering::Equal,
    decreases r,
{
    if r > 0 {
        lemma_compare_ranks_same(a, (r - 1) as nat);
    }
}

/// Comparing `a` with `b` and `b` with `a` gives mirrored outcomes: one
/// `Greater` and the other `Less`, or both `Equal`.
pub proof fn lemma_compare_antisymmetric(a: u64, b: u64)
    ensures
        compare_hands(a, b) == mirror(compare_hands(b, a)),
{
    lemma_compare_ranks_mirror(tie_break(a, evaluation(a)), tie_break(b, evaluation(b)), 13);
}

/// A hand compared with itself is `Equal`.
pub proof fn lemma_compare_reflexive(a: u64)
    ensures
        compare_hands(a, a) == Ordering::Equal,
{
    lemma_compare_ranks_same(tie_break(a, evaluation(a)), 13);
}

/// The category decides first: a hand of a stronger category (a smaller
/// major rank) beats any hand of a weaker one, whatever their cards.
pub proof fn lemma_category_order(a: u64, b: u64)
    requires
        evaluation(a).0 < evaluation(b).0,
    ensures
        compare_hands(a, b) == Ordering::Greater,
        compare_hands(b, a) == Ordering::Less,
{
}

proof fn lemma_rank_in_bound(hand: u64, pool: Seq<Seq<u64>>, i: nat)
    ensures
        rank_in(hand, pool, i) matches Some((p, minor)) ==> minor < pool.len(),
    decreases pool.len() - i,
{
    if i < pool.len() {
        lemma_rank_in_bound(hand, pool, i + 1);
    }
}

/// Major ranks are at most 8, minor ranks below 8192.
pub proof fn lemma_evaluation_bounds(hand: u64)
    ensures
        evaluation(hand).0 <= 8,
        evaluation(hand).1 < 8192,
{
    lemma_evaluate_from_bounds(hand, 0);
}

proof fn lemma_evaluate_from_bounds(hand: u64, m: nat)
    ensures
        evaluate_from(hand, m).0 <= 8,
        evaluate_from(hand, m).1 < 8192,
    decreases 8 - m,
{
    if m < 8 {
        lemma_pool_sizes(m as int);
        lemma_rank_in_bound(hand, pools()[m as int], 0);
        lemma_evaluate_from_bounds(hand, m + 1);
    }
}

fn three_suit_mask(j: usize) -> (r: u64)
    requires
        j < 4,
    ensures
        r == three_suits(j as int),
{
    match j {
        0 => 0b1110,
        1 => 0b1101,
        2 => 0b1011,
        _ => 0b0111,
    }
}

fn two_suit_mask(j: usize) -> (r: u64)
    requires
        j < 6,
    ensures
        r == two_suits(j as int),
{
    match j {
        0 => 0b1100,
        1 => 0b1010,
        2 => 0b1001,
        3 => 0b0110,
        4 => 0b0101,
        _ => 0b0011,
    }
}

/// A pool whose groups have the views of `pool` has that deep view.
proof fn lemma_pool_view(v: &Vec<Vec<u64>>, pool: Seq<Seq<u64>>)
    requires
        v@.len() == pool.len(),
        forall|i: int| 0 <= i < pool.len() ==> #[trigger] v@[i]@ == pool[i],
    ensures
        v.deep_view() == pool,
{
    assert forall|i: int| 0 <= i < pool.len() implies v.deep_view()[i] == pool[i] by {
        assert(v@[i].deep_view() =~= v@[i]@);
    }
    assert(v.deep_view() =~= pool);
}

/// An evaluation as the executable code returns it.
pub open spec fn as_result(e: (nat, nat, u64)) -> (usize, usize, u64) {
    (e.0 as usize, e.1 as usize, e.2)
}

/// Owns the eight pools, built once, and a cache of evaluations by mask.
pub struct Evaluator {
    straight_flush_hand: Vec<Vec<u64>>,
    quad_hand: Vec<Vec<u64>>,
    full_house_hand: Vec<Vec<u64>>,
    flush_hand: Vec<Vec<u64>>,
    straight_hand: Vec<Vec<u64>>,
    trip_hand: Vec<Vec<u64>>,
    two_pair_hand: Vec<Vec<u64>>,
    pair_hand: Vec<Vec<u64>>,
    cache: HashMap<u64, (usize, usize, u64)>,
}

impl Evaluator {
    /// The pools are the canonical ones and every cached evaluation is right.
    pub closed spec fn wf(&self) -> bool {
        &&& self.straight_flush_hand.deep_view() == straight_flush_pool()
        &&& self.quad_hand.deep_view() == quad_pool()
        &&& self.full_house_hand.deep_view() == full_house_pool()
        &&& self.flush_hand.deep_view() == flush_pool()
        &&& self.straight_hand.deep_view() == straight_pool()
        &&& self.trip_hand.deep_view() == trip_pool()
        &&& self.two_pair_hand.deep_view() == two_pair_pool()
        &&& self.pair_hand.deep_view() == pair_pool()
        &&& forall|k: u64| #[trigger]
            self.cache@.contains_key(k) ==> self.cache@[k] == as_result(evaluation(k))
    }

    /// The cached evaluations, by mask.
    pub closed spec fn cache_view(&self) -> Map<u64, (usize, usize, u64)> {
        self.cache@
    }

    /// Builds the eight pools, with an empty cache.
    pub fn new() -> (r: Self)
        ensures
            r.wf(),
            r.cache_view() == Map::<u64, (usize, usize, u64)>::empty(),
    {
        let (straight_flush_hand, straight_hand) = Self::build_straight_hand();
        let r = Evaluator {
            straight_flush_hand,
            quad_hand: Self::build_quad_hand(),
            full_house_hand: Self::build_full_house_hand(),
            flush_hand: Self::build_flush_hand(),
            straight_hand,
            trip_hand: Self::build_trip_hand(),
            two_pair_hand: Self::build_two_pair_hand(),
            pair_hand: Self::build_pair_hand(),
            cache: HashMap::new(),
        };
        r
    }

    /// The pool of major rank `m`.
    fn pool(&self, m: usize) -> (r: &Vec<Vec<u64>>)
        requires
            self.wf(),
            m < 8,
        ensures
            r.deep_view() == pools()[m as int],
    {
        match m {
            0 => &self.straight_flush_hand,
            1 => &self.quad_hand,
            2 => &self.full_house_hand,
            3 => &self.flush_hand,
            4 => &self.straight_hand,
            5 => &self.trip_hand,
            6 => &self.two_pair_hand,
            _ => &self.pair_hand,
        }
    }

    /// The number of patterns in the pool of major rank `major`.
    pub fn pattern_count(&self, major: usize) -> (r: usize)
        requires
            self.wf(),
            major < 8,
        ensures
            r == pattern_total(pools()[major as int], pools()[major as int].len()),
    {
        let pool = self.pool(major);
        let ghost pv = pools()[major as int];
        proof {
            lemma_pool_sizes(major as int);
            lemma_pattern_total_bound(pv, pv.len());
        }
        let mut total: usize = 0;
        let mut i: usize = 0;
        while i < pool.len()
            invariant
                pool.deep_view() == pv,
                pv.len() <= 8192,
                forall|k: int| 0 <= k < pv.len() ==> #[trigger] pv[k].len() <= 1024,
                i <= pv.len(),
                total == pattern_total(pv, i as nat),
            decreases pv.len() - i,
        {
            proof {
                lemma_pattern_total_bound(pv, (i + 1) as nat);
            }
            assert(pool@[i as int]@.len() == pv[i as int].len());
            total = total + pool[i].len();
            i = i + 1;
        }
        total
    }

    /// The first pattern of `group` that `hand` covers.
    fn find_in_group(hand: &Hand, group: &Vec<u64>) -> (r: Option<u64>)
        ensures
            r == first_match(hand.mask, group@, 0),
    {
        let mut j: usize = 0;
        while j < group.len()
            invariant
                j <= group@.len(),
                first_match(hand.mask, group@, 0) == first_match(hand.mask, group@, j as nat),
            decreases group@.len() - j,
        {
            if hand.matches(group[j]) {
                return Some(group[j]);
            }
            j = j + 1;
        }
        None
    }

    /// The first group of `pool` with a pattern that `hand` covers: that
    /// pattern and the group's index.
    fn get_rank_in(hand: &Hand, pool: &Vec<Vec<u64>>) -> (r: Option<(u64, usize)>)
        ensures
            match r {
                Some((p, i)) => rank_in(hand.mask, pool.deep_view(), 0) == Some((p, i as nat)),
                None => rank_in(hand.mask, pool.deep_view(), 0) == None::<(u64, nat)>,
            },
    {
        let ghost pv = pool.deep_view();
        let mut i: usize = 0;
        while i < pool.len()
            invariant
                pv == pool.deep_view(),
                i <= pv.len(),
                rank_in(hand.mask, pv, 0) == rank_in(hand.mask, pv, i as nat),
            decreases pv.len() - i,
        {
            assert(pool@[i as int]@ =~= pv[i as int]);
            if let Some(pattern) = Self::find_in_group(hand, &pool[i]) {
                return Some((pattern, i));
            }
            i = i + 1;
        }
        None
    }

    /// The evaluation of `hand`: its major rank, its minor rank and its
    /// matched pattern. The evaluation is cached under the hand's mask.
    pub fn get_strongest_5(&mut self, hand: &Hand) -> (r: (usize, usize, u64))
        requires
            old(self).wf(),
        ensures
            final(self).wf(),
            r == as_result(evaluation(hand.mask)),
            final(self).cache_view() == old(self).cache_view().insert(hand.mask, r),
    {
        broadcast use vstd::std_specs::hash::group_hash_axioms;

        let key = hand.mask;
        if let Some(res) = self.cache.get(&key) {
            assert(self.cache@.insert(key, *res) =~= self.cache@);
            return *res;
        }
        let ghost start = self.cache@;
        let mut m: usize = 0;
        while m < 8
            invariant
                self.wf(),
                self.cache@ == start,
                old(self).cache@ == start,
                key == hand.mask,
                m <= 8,
                evaluate_from(key, 0) == evaluate_from(key, m as nat),
            decreases 8 - m,
        {
            let pool = self.pool(m);
            proof {
                lemma_pool_sizes(m as int);
            }
            let found = Self::get_rank_in(hand, pool);
            if let Some((pattern, minor)) = found {
                let res = (m, minor, pattern);
                self.cache.insert(key, res);
                return res;
            }
            m = m + 1;
        }
        let res = (HIGH_CARD, 0, hand.get_highest_card(5));
        self.cache.insert(key, res);
        res
    }

    /// Compares two sets of tie-break cards rank by rank from the ace down.
    pub fn compare_high_card(a: &Hand, b: &Hand) -> (r: Ordering)
        ensures
            r == compare_ranks(a.mask, b.mask, 13),
    {
        let mut rank: u64 = RANK_COUNT;
        while rank > 0
            invariant
                rank <= 13,
                compare_ranks(a.mask, b.mask, 13) == compare_ranks(a.mask, b.mask, rank as nat),
            decreases rank,
        {
            let a_matched = a.has_rank(rank - 1);
            let b_matched = b.has_rank(rank - 1);
            if a_matched != b_matched {
                if a_matched {
                    return Ordering::Greater;
                } else {
                    return Ordering::Less;
                }
            }
            rank = rank - 1;
        }
        Ordering::Equal
    }

    /// The cards of `hand` that break a tie, given its evaluation `e`.
    fn tie_break_cards(hand: &Hand, e: (usize, usize, u64)) -> (r: u64)
        ensures
            r == tie_break(hand.mask, (e.0 as nat, e.1 as nat, e.2)),
    {
        let (major, _, pattern) = e;
        if major >= HIGH_CARD {
            pattern
        } else {
            let n = Hand::from_mask(pattern).len();
            let k: usize = if n >= 5 {
                0
            } else {
                (5 - n) as usize
            };
            hand.get_highest_card_not_in(pattern, k)
        }
    }

    /// How hand `a` stands against hand `b`: `Greater` where `a` is the
    /// stronger, `Less` where `b` is, `Equal` on a tie. Both evaluations
    /// are cached.
    pub fn compare(&mut self, a: &Hand, b: &Hand) -> (r: Ordering)
        requires
            old(self).wf(),
        ensures
            final(self).wf(),
            r == compare_hands(a.mask, b.mask),
            final(self).cache_view() == old(self).cache_view().insert(
                a.mask,
                as_result(evaluation(a.mask)),
            ).insert(b.mask, as_result(evaluation(b.mask))),
    {
        let (rank_major_a, rank_minor_a, pattern_a) = self.get_strongest_5(a);
        let (rank_major_b, rank_minor_b, pattern_b) = self.get_strongest_5(b);
        proof {
            lemma_evaluation_bounds(a.mask);
            lemma_evaluation_bounds(b.mask);
        }
        if rank_major_a < rank_major_b {
            return Ordering::Greater;
        }
        if rank_major_b < rank_major_a {
            return Ordering::Less;
        }
        if rank_minor_a < rank_minor_b {
            return Ordering::Greater;
        }
        if rank_minor_b < rank_minor_a {
            return Ordering::Less;
        }
        let kick_a = Self::tie_break_cards(a, (rank_major_a, rank_minor_a, pattern_a));
        let kick_b = Self::tie_break_cards(b, (rank_major_b, rank_minor_b, pattern_b));
        Self::compare_high_card(&Hand::from_mask(kick_a), &Hand::from_mask(kick_b))
    }

    fn straight_mask_of(rank: u64, suit: u64) -> (r: u64)
        requires
            3 <= rank <= 12,
            suit < 1024,
        ensures
            r == straight_mask(rank, suit),
    {
        let low = if rank == 3 {
            12
        } else {
            rank - 4
        };
        let s0 = suit & 3;
        let s1 = (suit >> 2) & 3;
        let s2 = (suit >> 4) & 3;
        let s3 = (suit >> 6) & 3;
        let s4 = (suit >> 8) & 3;
        assert(s0 <= 3 && s1 <= 3 && s2 <= 3 && s3 <= 3 && s4 <= 3) by (bit_vector)
            requires
                s0 == suit & 3,
                s1 == (suit >> 2) & 3,
                s2 == (suit >> 4) & 3,
                s3 == (suit >> 6) & 3,
                s4 == (suit >> 8) & 3,
        ;
        (1u64 << (rank * 4 + s0)) | (1u64 << ((rank - 1) * 4 + s1)) | (1u64 << ((rank - 2) * 4
            + s2)) | (1u64 << ((rank - 3) * 4 + s3)) | (1u64 << (low * 4 + s4))
    }

    fn build_straight_hand() -> (r: (Vec<Vec<u64>>, Vec<Vec<u64>>))
        ensures
            r.0.deep_view() == straight_flush_pool(),
            r.1.deep_view() == straight_pool(),
    {
        let mut flushes: Vec<Vec<u64>> = Vec::new();
        let mut plain: Vec<Vec<u64>> = Vec::new();
        let mut t: u64 = 0;
        while t < 10
            invariant
                t <= 10,
                flushes@.len() == t,
                plain@.len() == t,
                forall|i: int| 0 <= i < t ==> #[trigger] flushes@[i]@ == straight_flush_pool()[i],
                forall|i: int| 0 <= i < t ==> #[trigger] plain@[i]@ == straight_pool()[i],
            decreases 10 - t,
        {
            let rank = 12 - t;
            let mut arr: Vec<u64> = Vec::new();
            let mut arr_st: Vec<u64> = Vec::new();
            let mut suit: u64 = 0;
            while suit < 1024
                invariant
                    t < 10,
                    rank == rank_from_top(t as int),
                    suit <= 1024,
                    arr_st@ == straight_group(rank, true, suit as nat),
                    arr@ == straight_group(rank, false, suit as nat),
                decreases 1024 - suit,
            {
                let mask = Self::straight_mask_of(rank, suit);
                let same_suit = suit == 0b0000000000 || suit == 0b0101010101 || suit
                    == 0b1010101010 || suit == 0b1111111111;
                if same_suit {
                    arr_st.push(mask);
                } else {
                    arr.push(mask);
                }
                suit = suit + 1;
            }
            flushes.push(arr_st);
            plain.push(arr);
            t = t + 1;
        }
        proof {
            lemma_pool_view(&flushes, straight_flush_pool());
            lemma_pool_view(&plain, straight_pool());
        }
        (flushes, plain)
    }

    fn rank_set_size(ranks: u64) -> (r: u64)
        ensures
            r == count_below(ranks, 13),
    {
        let mut count: u64 = 0;
        let mut r: u64 = 0;
        while r < 13
            invariant
                r <= 13,
                count <= r,
                count == count_below(ranks, r as nat),
            decreases 13 - r,
        {
            if (ranks >> r) & 1 == 1 {
                count = count + 1;
            }
            r = r + 1;
        }
        count
    }

    fn suited_ranks_of(ranks: u64, suit: u64) -> (r: u64)
        requires
            suit < 4,
        ensures
            r == suited_ranks(ranks, suit, 13),
    {
        let mut mask: u64 = 0;
        let mut r: u64 = 0;
        while r < 13
            invariant
                r <= 13,
                suit < 4,
                mask == suited_ranks(ranks, suit, r as nat),
            decreases 13 - r,
        {
            if (ranks >> r) & 1 == 1 {
                mask = mask | (1u64 << (r * 4 + suit));
            }
            r = r + 1;
        }
        mask
    }

    fn build_flush_hand() -> (r: Vec<Vec<u64>>)
        ensures
            r.deep_view() == flush_pool(),
    {
        let mut pool: Vec<Vec<u64>> = Vec::new();
        let mut i: u64 = 0;
        while i < 8192
            invariant
                i <= 8192,
                pool@.len() == flush_groups(i as nat).len(),
                forall|k: int|
                    0 <= k < pool@.len() ==> #[trigger] pool@[k]@ == flush_groups(i as nat)[k],
            decreases 8192 - i,
        {
            let ranks = 8191 - i;
            if Self::rank_set_size(ranks) == 5 {
                let mut arr: Vec<u64> = Vec::new();
                let mut suit: u64 = 0;
                while suit < 4
                    invariant
                        suit <= 4,
                        arr@ =~= flush_group(ranks).take(suit as int),
                    decreases 4 - suit,
                {
                    arr.push(Self::suited_ranks_of(ranks, suit));
                    suit = suit + 1;
                }
                assert(arr@ =~= flush_group(ranks));
                pool.push(arr);
            }
            i = i + 1;
        }
        proof {
            lemma_pool_view(&pool, flush_pool());
        }
        pool
    }

    fn build_full_house_hand() -> (r: Vec<Vec<u64>>)
        ensures
            r.deep_view() == full_house_pool(),
    {
        let mut pool: Vec<Vec<u64>> = Vec::new();
        let mut i: u64 = 0;
        while i < 169
            invariant
                i <= 169,
                pool@.len() == full_house_groups(i as nat).len(),
                forall|k: int|
                    0 <= k < pool@.len() ==> #[trigger] pool@[k]@ == full_house_groups(
                        i as nat,
                    )[k],
            decreases 169 - i,
        {
            let r1 = 12 - i / 13;
            let r2 = 12 - i % 13;
            if r1 != r2 {
                let mut arr: Vec<u64> = Vec::new();
                let mut j: usize = 0;
                while j < 24
                    invariant
                        j <= 24,
                        r1 == first_rank(i as int),
                        r2 == second_rank(i as int),
                        r1 <= 12,
                        r2 <= 12,
                        arr@ =~= full_house_group(r1, r2).take(j as int),
                    decreases 24 - j,
                {
                    let mask = (three_suit_mask(j / 6) << (r1 * 4)) | (two_suit_mask(j % 6) << (r2
                        * 4));
                    arr.push(mask);
                    j = j + 1;
                }
                assert(arr@ =~= full_house_group(r1, r2));
                pool.push(arr);
            }
            i = i + 1;
        }
        proof {
            lemma_pool_view(&pool, full_house_pool());
        }
        pool
    }

    fn build_two_pair_hand() -> (r: Vec<Vec<u64>>)
        ensures
            r.deep_view() == two_pair_pool(),
    {
        let mut pool: Vec<Vec<u64>> = Vec::new();
        let mut i: u64 = 0;
        while i < 169
            invariant
                i <= 169,
                pool@.len() == two_pair_groups(i as nat).len(),
                forall|k: int|
                    0 <= k < pool@.len() ==> #[trigger] pool@[k]@ == two_pair_groups(i as nat)[k],
            decreases 169 - i,
        {
            let r1 = 12 - i / 13;
            let r2 = 12 - i % 13;
            if r1 > r2 {
                let mut arr: Vec<u64> = Vec::new();
                let mut j: usize = 0;
                while j < 36
                    invariant
                        j <= 36,
                        r1 == first_rank(i as int),
                        r2 == second_rank(i as int),
                        r1 <= 12,
                        r2 <= 12,
                        arr@ =~= two_pair_group(r1, r2).take(j as int),
                    decreases 36 - j,
                {
                    let mask = (two_suit_mask(j / 6) << (r1 * 4)) | (two_suit_mask(j % 6) << (r2
                        * 4));
                    arr.push(mask);
                    j = j + 1;
                }
                assert(arr@ =~= two_pair_group(r1, r2));
                pool.push(arr);
            }
            i = i + 1;
        }
        proof {
            lemma_pool_view(&pool, two_pair_pool());
        }
        pool
    }

    fn build_quad_hand() -> (r: Vec<Vec<u64>>)
        ensures
            r.deep_view() == quad_pool(),
    {
        let mut pool: Vec<Vec<u64>> = Vec::new();
        let mut t: u64 = 0;
        while t < RANK_COUNT
            invariant
                t <= 13,
                pool@.len() == t,
                forall|i: int| 0 <= i < t ==> #[trigger] pool@[i]@ == quad_pool()[i],
            decreases 13 - t,
        {
            let rank = 12 - t;
            let group = vec![0b1111u64 << (rank * 4)];
            assert(group@ =~= quad_pool()[t as int]);
            pool.push(group);
            t = t + 1;
        }
        proof {
            lemma_pool_view(&pool, quad_pool());
        }
        pool
    }

    fn build_trip_hand() -> (r: Vec<Vec<u64>>)
        ensures
            r.deep_view() == trip_pool(),
    {
        let mut pool: Vec<Vec<u64>> = Vec::new();
        let mut t: u64 = 0;
        while t < RANK_COUNT
            invariant
                t <= 13,
                pool@.len() == t,
                forall|i: int| 0 <= i < t ==> #[trigger] pool@[i]@ == trip_pool()[i],
            decreases 13 - t,
        {
            let rank = 12 - t;
            let mut group: Vec<u64> = Vec::new();
            let mut j: usize = 0;
            while j < 4
                invariant
                    j <= 4,
                    t < 13,
                    rank == rank_from_top(t as int),
                    group@ =~= trip_pool()[t as int].take(j as int),
                decreases 4 - j,
            {
                group.push(three_suit_mask(j) << (rank * 4));
                j = j + 1;
            }
            assert(group@ =~= trip_pool()[t as int]);
            pool.push(group);
            t = t + 1;
        }
        proof {
            lemma_pool_view(&pool, trip_pool());
        }
        pool
    }

    fn build_pair_hand() -> (r: Vec<Vec<u64>>)
        ensures
            r.deep_view() == pair_pool(),
    {
        let mut pool: Vec<Vec<u64>> = Vec::new();
        let mut t: u64 = 0;
        while t < RANK_COUNT
            invariant
                t <= 13,
                pool@.len() == t,
                forall|i: int| 0 <= i < t ==> #[trigger] pool@[i]@ == pair_pool()[i],
            decreases 13 - t,
        {
            let rank = 12 - t;
            let mut group: Vec<u64> = Vec::new();
            let mut j: usize = 0;
            while j < 6
                invariant
                    j <= 6,
                    t < 13,
                    rank == rank_from_top(t as int),
                    group@ =~= pair_pool()[t as int].take(j as int),
                decreases 6 - j,
            {
                group.push(two_suit_mask(j) << (rank * 4));
                j = j + 1;
            }
            assert(group@ =~= pair_pool()[t as int]);
            pool.push(group);
            t = t + 1;
        }
        proof {
            lemma_pool_view(&pool, pair_pool());
        }
        pool
    }
}

} // verus!
