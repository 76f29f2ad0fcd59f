//! The enumeration engine: completes a partial deal in every legal way and
//! counts how the first hand fares against the second.
use std::cmp::Ordering;
use vstd::prelude::*;
use crate::poker::evaluator::{compare_hands, Evaluator};
use crate::poker::hand::{card_bit, count_below, holds, in_deck, parse_hand, Hand, CARD_COUNT};

verus! {

/// The number of cards in `mask`.
pub open spec fn card_count(mask: u64) -> nat {
    count_below(mask, 64)
}

/// The cards below index `n` that `used` does not hold, in increasing order.
pub open spec fn remaining_below(used: u64, n: nat) -> Seq<u64>
    decreases n,
{
    if n == 0 {
        seq![]
    } else {
        let prev = remaining_below(used, (n - 1) as nat);
        if holds(used, (n - 1) as u64) {
            prev
        } else {
            prev.push((n - 1) as u64)
        }
    }
}

/// The deck without the cards of `used`, in increasing order.
pub open spec fn remaining(used: u64) -> Seq<u64> {
    remaining_below(used, 52)
}

/// Every way of adding `k` cards taken from `s[j..]` to `base`, each choice
/// once: first the choices that take `s[j]`, then those that skip it.
pub open spec fn combos_from(s: Seq<u64>, j: nat, k: nat, base: u64) -> Seq<u64>
    decreases s.len() - j,
{
    if k == 0 {
        seq![base]
    } else if j >= s.len() {
        seq![]
    } else {
        combos_from(s, j + 1, (k - 1) as nat, base | card_bit(s[j as int])) + combos_from(
            s,
            j + 1,
            k,
            base,
        )
    }
}

/// Every set of `k` cards out of `s`, as masks, each once.
pub open spec fn combos(s: Seq<u64>, k: nat) -> Seq<u64> {
    combos_from(s, 0, k, 0)
}

/// How many cards `mask` lacks to hold `target`.
pub open spec fn missing(mask: u64, target: nat) -> nat {
    if card_count(mask) >= target {
        0
    } else {
        (target - card_count(mask)) as nat
    }
}

/// Win, loss and tie counts, as a triple.
pub open spec fn score(o: Ordering) -> (nat, nat, nat) {
    match o {
        Ordering::Greater => (1, 0, 0),
        Ordering::Less => (0, 1, 0),
        Ordering::Equal => (0, 0, 1),
    }
}

pub open spec fn add3(x: (nat, nat, nat), y: (nat, nat, nat)) -> (nat, nat, nat) {
    (x.0 + y.0, x.1 + y.1, x.2 + y.2)
}

/// The outcomes of hole cards `a` against `b` on the community `c` completed
/// by each of the first `n` of `boards`.
pub open spec fn tally_boards(a: u64, b: u64, c: u64, boards: Seq<u64>, n: nat) -> (nat, nat, nat)
    decreases n,
{
    if n == 0 || n > boards.len() {
        (0, 0, 0)
    } else {
        let full = c | boards[n - 1];
        add3(tally_boards(a, b, c, boards, (n - 1) as nat), score(compare_hands(a | full, b | full)))
    }
}

/// The ways to complete the community `c` to five cards once `a` and `b`
/// are dealt.
pub open spec fn board_completions(a: u64, b: u64, c: u64) -> Seq<u64> {
    combos(remaining(a | b | c), missing(c, 5))
}

/// The outcomes over the first `n` of the completions `opps` of the second
/// hand, each with every completion of the community.
pub open spec fn tally_deals(a: u64, b: u64, c: u64, opps: Seq<u64>, n: nat) -> (nat, nat, nat)
    decreases n,
{
    if n == 0 || n > opps.len() {
        (0, 0, 0)
    } else {
        let b2 = b | opps[n - 1];
        let boards = board_completions(a, b2, c);
        add3(tally_deals(a, b, c, opps, (n - 1) as nat), tally_boards(a, b2, c, boards, boards.len()))
    }
}

/// The ways to complete the second hand to two cards.
pub open spec fn hand_completions(a: u64, b: u64, c: u64) -> Seq<u64> {
    combos(remaining(a | b | c), missing(b, 2))
}

/// Wins, losses and ties of `a` against `b` over every legal completion of
/// the deal: the second hand to two cards, then the community to five.
pub open spec fn outcome_counts(a: u64, b: u64, c: u64) -> (nat, nat, nat) {
    let opps = hand_completions(a, b, c);
    tally_deals(a, b, c, opps, opps.len())
}

/// A deal that can be solved: two hole cards, none or two for the other
/// hand, three to five community cards, no card dealt twice.
pub open spec fn valid_deal(a: u64, b: u64, c: u64) -> bool {
    &&& card_count(a) == 2
    &&& (card_count(b) == 0 || card_count(b) == 2)
    &&& 3 <= card_count(c) <= 5
    &&& a & b == 0
    &&& a & c == 0
    &&& b & c == 0
}

/// The number of ways to choose `k` of `n` things.
pub open spec fn binomial(n: nat, k: nat) -> nat
    decreases n,
{
    if k == 0 {
        1
    } else if n == 0 {
        0
    } else {
        binomial((n - 1) as nat, (k - 1) as nat) + binomial((n - 1) as nat, k)
    }
}

/// A deal in progress: the first hole hand, the second (empty when unknown)
/// and the community cards, with the evaluator that scores them.
pub struct Game {
    pub hand_a: Hand,
    pub hand_b: Hand,
    pub community: Hand,
    pub evaluator: Evaluator,
}

/// A count triple as the executable code returns it.
pub open spec fn as_counts(t: (nat, nat, nat)) -> (usize, usize, usize) {
    (t.0 as usize, t.1 as usize, t.2 as usize)
}

/// `r` is what solving the deal `a`, `b`, `c` gives: the error exactly when
/// the deal is not valid, else the wins, losses and ties over every completion.
pub open spec fn solved(a: u64, b: u64, c: u64, r: Result<(usize, usize, usize), String>) -> bool {
    match r {
        Ok(t) => valid_deal(a, b, c) && t == as_counts(outcome_counts(a, b, c)),
        Err(e) => !valid_deal(a, b, c) && e@ == "Invalid game!"@,
    }
}

impl Game {
    /// The evaluator is well formed and the three hands hold only cards
    /// of the deck.
    pub open spec fn wf(&self) -> bool {
        &&& self.evaluator.wf()
        &&& self.hand_a.wf()
        &&& self.hand_b.wf()
        &&& self.community.wf()
    }

    /// An empty deal with a freshly built evaluator.
    pub fn new() -> (r: Self)
        ensures
            r.wf(),
            r.hand_a.mask == 0,
            r.hand_b.mask == 0,
            r.community.mask == 0,
            r.evaluator.cache_view() == Map::<u64, (usize, usize, u64)>::empty(),
    {
        assert(in_deck(0u64)) by (bit_vector);
        Self {
            hand_a: Hand::from_mask(0),
            hand_b: Hand::from_mask(0),
            community: Hand::from_mask(0),
            evaluator: Evaluator::new(),
        }
    }

    fn is_valid(&self) -> (r: bool)
        ensures
            r == valid_deal(self.hand_a.mask, self.hand_b.mask, self.community.mask),
    {
        let a = self.hand_a.len();
        let b = self.hand_b.len();
        let c = self.community.len();
        a == 2 && (b == 0 || b == 2) && 3 <= c && c <= 5 && !self.hand_a.overlap(&self.hand_b)
            && !self.hand_a.overlap(&self.community) && !self.hand_b.overlap(&self.community)
    }

    /// Reads the three hands from their notation and solves the deal.
    pub fn solve_by(&mut self, a: &str, b: &str, c: &str) -> (r: Result<(usize, usize, usize), String>)
        requires
            old(self).evaluator.wf(),
        ensures
            final(self).wf(),
            final(self).hand_a.mask == parse_hand(a@),
            final(self).hand_b.mask == parse_hand(b@),
            final(self).community.mask == parse_hand(c@),
            solved(final(self).hand_a.mask, final(self).hand_b.mask, final(self).community.mask, r),
    {
        self.hand_a = Hand::from_string(a);
        self.hand_b = Hand::from_string(b);
        self.community = Hand::from_string(c);
        self.solve()
    }

    /// Counts wins, losses and ties of the first hand over every legal
    /// completion of the deal; fails on a deal that is not valid.
    pub fn solve(&mut self) -> (r: Result<(usize, usize, usize), String>)
        requires
            old(self).wf(),
        ensures
            final(self).wf(),
            final(self).hand_a == old(self).hand_a,
            final(self).hand_b == old(self).hand_b,
            final(self).community == old(self).community,
            r is Err ==> *final(self) == *old(self),
            solved(final(self).hand_a.mask, final(self).hand_b.mask, final(self).community.mask, r),
    {
        if !self.is_valid() {
            return Err(String::from_str("Invalid game!"));
        }
        let a = self.hand_a.mask;
        let b = self.hand_b.mask;
        let c = self.community.mask;
        let need_b = (2 - self.hand_b.len()) as usize;
        let need_c = (5 - self.community.len()) as usize;
        let deck = remaining_cards(a | b | c);
        proof {
            lemma_remaining_below(a | b | c, 52);
            lemma_combos_len(deck@, 0, need_b as nat, 0);
            lemma_binomial_small(deck@.len(), need_b as nat);
            assert(deck@.len() * deck@.len() <= 2704) by (nonlinear_arith)
                requires deck@.len() <= 52;
        }
        let opps = combinations(&deck, need_b);
        let mut win: usize = 0;
        let mut lose: usize = 0;
        let mut tie: usize = 0;
        let mut i: usize = 0;
        while i < opps.len()
            invariant
                self.evaluator.wf(),
                self.hand_a.mask == a,
                self.hand_b.mask == b,
                self.community.mask == c,
                need_c as nat == missing(c, 5),
                need_c <= 2,
                opps@ == hand_completions(a, b, c),
                opps@.len() <= 2705,
                i <= opps@.len(),
                (win as nat, lose as nat, tie as nat) == tally_deals(a, b, c, opps@, i as nat),
                win + lose + tie <= i * 2705,
            decreases opps@.len() - i,
        {
            let b2 = b | opps[i];
            let deck2 = remaining_cards(a | b2 | c);
            proof {
                lemma_remaining_below(a | b2 | c, 52);
                lemma_combos_len(deck2@, 0, need_c as nat, 0);
                lemma_binomial_small(deck2@.len(), need_c as nat);
                assert(deck2@.len() * deck2@.len() <= 2704) by (nonlinear_arith)
                    requires deck2@.len() <= 52;
            }
            let boards = combinations(&deck2, need_c);
            let ghost done = tally_deals(a, b, c, opps@, i as nat);
            let mut j: usize = 0;
            while j < boards.len()
                invariant
                    self.evaluator.wf(),
                    self.hand_a.mask == a,
                    self.hand_b.mask == b,
                    self.community.mask == c,
                    i < opps@.len(),
                    opps@.len() <= 2705,
                    boards@ == board_completions(a, b2, c),
                    boards@.len() <= 2705,
                    j <= boards@.len(),
                    (win as nat, lose as nat, tie as nat) == add3(
                        done,
                        tally_boards(a, b2, c, boards@, j as nat),
                    ),
                    win + lose + tie <= i * 2705 + j,
                decreases boards@.len() - j,
            {
                let full = c | boards[j];
                match self.evaluator.compare(&Hand::from_mask(a | full), &Hand::from_mask(b2 | full)) {
                    Ordering::Greater => win = win + 1,
                    Ordering::Less => lose = lose + 1,
                    Ordering::Equal => tie = tie + 1,
                }
                j = j + 1;
            }
            i = i + 1;
        }
        Ok((win, lose, tie))
    }
}

proof fn lemma_bits_of_or(x: u64, y: u64, i: u64)
    requires
        i < 64,
    ensures
        holds(x | y, i) == (holds(x, i) || holds(y, i)),
        x & y == 0 ==> !(holds(x, i) && holds(y, i)),
{
    assert(((x | y) >> i) & 1 == 1 <==> ((x >> i) & 1 == 1 || (y >> i) & 1 == 1)) by (bit_vector)
        requires
            i < 64,
    ;
    assert(x & y == 0 ==> !((x >> i) & 1 == 1 && (y >> i) & 1 == 1)) by (bit_vector)
        requires
            i < 64,
    ;
}

/// Disjoint masks: the cards of the union are counted once each.
proof fn lemma_count_disjoint_union(x: u64, y: u64, k: nat)
    requires
        x & y == 0,
        k <= 64,
    ensures
        count_below(x | y, k) == count_below(x, k) + count_below(y, k),
    decreases k,
{
    if k > 0 {
        lemma_count_disjoint_union(x, y, (k - 1) as nat);
        lemma_bits_of_or(x, y, (k - 1) as u64);
    }
}

proof fn lemma_count_single(c: u64, k: nat)
    requires
        c < 64,
        k <= 64,
    ensures
        count_below(card_bit(c), k) == (if c < k {
            1nat
        } else {
            0nat
        }),
    decreases k,
{
    if k > 0 {
        lemma_count_single(c, (k - 1) as nat);
        let i = (k - 1) as u64;
        assert((((1u64 << c) >> i) & 1 == 1) <==> i == c) by (bit_vector)
            requires
                c < 64,
                i < 64,
        ;
    }
}

proof fn lemma_count_zero(k: nat)
    requires
        k <= 64,
    ensures
        count_below(0, k) == 0,
    decreases k,
{
    if k > 0 {
        lemma_count_zero((k - 1) as nat);
        let i = (k - 1) as u64;
        assert((0u64 >> i) & 1 != 1) by (bit_vector);
    }
}

/// A mask within the deck has all its cards below index 52.
proof fn lemma_count_in_deck(m: u64, k: nat)
    requires
        in_deck(m),
        52 <= k <= 64,
    ensures
        count_below(m, k) == count_below(m, 52),
    decreases k,
{
    if k > 52 {
        lemma_count_in_deck(m, (k - 1) as nat);
        let i = (k - 1) as u64;
        assert((m >> 52u64 == 0) ==> (m >> i) & 1 != 1) by (bit_vector)
            requires
                52 <= i < 64,
        ;
    }
}

proof fn lemma_remaining_len(used: u64, n: nat)
    requires
        n <= 64,
    ensures
        remaining_below(used, n).len() + count_below(used, n) == n,
    decreases n,
{
    if n > 0 {
        lemma_remaining_len(used, (n - 1) as nat);
    }
}

/// Every completion drawn from cards outside `u` adds `k` cards, none of `u`.
proof fn lemma_combos_members(s: Seq<u64>, j: nat, k: nat, base: u64, u: u64)
    requires
        j <= s.len(),
        forall|i: int| 0 <= i < s.len() ==> #[trigger] s[i] < 52 && !holds(u, s[i]),
        forall|i: int, l: int| 0 <= i < l < s.len() ==> #[trigger] s[i] < #[trigger] s[l],
        base & u == 0,
        in_deck(base),
        forall|i: int| j <= i < s.len() ==> !holds(base, #[trigger] s[i]),
    ensures
        forall|x: int|
            0 <= x < combos_from(s, j, k, base).len() ==> {
                let m = #[trigger] combos_from(s, j, k, base)[x];
                &&& m & u == 0
                &&& in_deck(m)
                &&& count_below(m, 52) == count_below(base, 52) + k
            },
    decreases s.len() - j,
{
    if k > 0 && j < s.len() {
        let c = s[j as int];
        let base2 = base | card_bit(c);
        assert(c < 52 && !holds(u, c) && !holds(base, c));
        assert(base2 & u == 0 && in_deck(base2) && base & (1u64 << c) == 0) by (bit_vector)
            requires
                base2 == base | (1u64 << c),
                base & u == 0,
                in_deck(base),
                c < 52,
                (u >> c) & 1 != 1,
                (base >> c) & 1 != 1,
        ;
        assert forall|i: int| j + 1 <= i < s.len() implies !holds(base2, #[trigger] s[i]) by {
            assert(s[i] < 52 && c < s[i]);
            lemma_bits_of_or(base, card_bit(c), s[i]);
            lemma_count_single_bit(c, s[i]);
        }
        lemma_count_disjoint_union(base, card_bit(c), 52);
        lemma_count_single(c, 52);
        lemma_combos_members(s, j + 1, (k - 1) as nat, base2, u);
        lemma_combos_members(s, j + 1, k, base, u);
        let left = combos_from(s, j + 1, (k - 1) as nat, base2);
        let right = combos_from(s, j + 1, k, base);
        assert(combos_from(s, j, k, base) == left + right);
        assert forall|x: int| 0 <= x < combos_from(s, j, k, base).len() implies {
            let m = #[trigger] combos_from(s, j, k, base)[x];
            &&& m & u == 0
            &&& in_deck(m)
            &&& count_below(m, 52) == count_below(base, 52) + k
        } by {
            if x < left.len() {
                assert(combos_from(s, j, k, base)[x] == left[x]);
            } else {
                assert(combos_from(s, j, k, base)[x] == right[x - left.len()]);
            }
        }
    }
}

proof fn lemma_count_single_bit(c: u64, i: u64)
    requires
        c < 64,
        i < 64,
    ensures
        holds(card_bit(c), i) == (i == c),
{
    assert((((1u64 << c) >> i) & 1 == 1) <==> i == c) by (bit_vector)
        requires
            c < 64,
            i < 64,
    ;
}

/// Over the first `n` completions of the second hand, each with `size`
/// completions of the community, there are `n * size` outcomes.
proof fn lemma_tally_deals_total(a: u64, b: u64, c: u64, opps: Seq<u64>, n: nat, size: nat)
    requires
        n <= opps.len(),
        forall|i: int|
            0 <= i < opps.len() ==> (#[trigger] board_completions(a, b | opps[i], c)).len() == size,
    ensures
        tally_deals(a, b, c, opps, n).0 + tally_deals(a, b, c, opps, n).1 + tally_deals(
            a,
            b,
            c,
            opps,
            n,
        ).2 == n * size,
    decreases n,
{
    if n > 0 {
        lemma_tally_deals_total(a, b, c, opps, (n - 1) as nat, size);
        let b2 = b | opps[n - 1];
        let boards = board_completions(a, b2, c);
        lemma_tally_boards_total(a, b2, c, boards, boards.len());
        assert(boards.len() == size);
        assert((n - 1) * size + size == n * size) by (nonlinear_arith);
        let prev = tally_deals(a, b, c, opps, (n - 1) as nat);
        let here = tally_boards(a, b2, c, boards, boards.len());
        assert(tally_deals(a, b, c, opps, n) == add3(prev, here));
    } else {
        assert(0 * size == 0);
    }
}

/// The number of cards not dealt yet.
pub open spec fn undealt(a: u64, b: u64, c: u64) -> nat {
    (52 - card_count(a) - card_count(b) - card_count(c)) as nat
}

/// Over a valid deal, wins, losses and ties add up to the number of legal
/// completions: the ways to pick the second hand's missing cards from the
/// undealt ones, times the ways to pick the community's missing cards from
/// those left.
pub proof fn lemma_outcome_total(a: u64, b: u64, c: u64)
    requires
        valid_deal(a, b, c),
        in_deck(a),
        in_deck(b),
        in_deck(c),
    ensures
        ({
            let t = outcome_counts(a, b, c);
            let kb = missing(b, 2);
            t.0 + t.1 + t.2 == binomial(undealt(a, b, c), kb) * binomial(
                (undealt(a, b, c) - kb) as nat,
                missing(c, 5),
            )
        }),
{
    let u = a | b | c;
    let kb = missing(b, 2);
    let kc = missing(c, 5);
    let n = undealt(a, b, c);
    assert(in_deck(u) && (a | b) & c == 0) by (bit_vector)
        requires
            u == a | b | c,
            in_deck(a),
            in_deck(b),
            in_deck(c),
            a & c == 0,
            b & c == 0,
    ;
    lemma_count_disjoint_union(a, b, 64);
    lemma_count_disjoint_union(a | b, c, 64);
    lemma_count_in_deck(u, 64);
    lemma_remaining_len(u, 52);
    lemma_remaining_below(u, 52);
    let deck = remaining(u);
    assert(deck.len() == n);
    let opps = hand_completions(a, b, c);
    lemma_combos_len(deck, 0, kb, 0);
    lemma_count_zero(52);
    assert(0u64 & u == 0 && in_deck(0u64)) by (bit_vector);
    assert forall|i: int| 0 <= i < deck.len() implies !holds(0u64, #[trigger] deck[i]) by {
        let x = deck[i];
        assert((0u64 >> x) & 1 != 1) by (bit_vector);
    }
    lemma_combos_members(deck, 0, kb, 0, u);
    let size = binomial((n - kb) as nat, kc);
    assert forall|i: int| 0 <= i < opps.len() implies (#[trigger] board_completions(
        a,
        b | opps[i],
        c,
    )).len() == size by {
        let bx = opps[i];
        let u2 = a | (b | bx) | c;
        assert(bx & u == 0 && in_deck(bx) && count_below(bx, 52) == kb);
        assert(u2 == bx | u) by (bit_vector)
            requires
                u2 == a | (b | bx) | c,
                u == a | b | c,
        ;
        lemma_count_disjoint_union(bx, u, 52);
        lemma_remaining_len(u2, 52);
        lemma_combos_len(remaining(u2), 0, kc, 0);
    }
    lemma_tally_deals_total(a, b, c, opps, opps.len(), size);
}

/// No two entries of `s` are equal.
pub open spec fn no_repeats(s: Seq<u64>) -> bool {
    forall|x: int, y: int| 0 <= x < y < s.len() ==> #[trigger] s[x] != #[trigger] s[y]
}

proof fn lemma_holds_with_card(m: u64, x: u64, c: u64)
    requires
        x < 64,
        c < 64,
    ensures
        holds(m | card_bit(x), c) == (holds(m, c) || c == x),
{
    lemma_bits_of_or(m, card_bit(x), c);
    lemma_count_single_bit(x, c);
}

/// Each completion keeps the cards of `base` and adds only cards of
/// `s[j..]`, all above `lo`.
proof fn lemma_combos_cards(s: Seq<u64>, j: nat, k: nat, base: u64, lo: int)
    requires
        j <= s.len(),
        forall|i: int| j <= i < s.len() ==> lo < #[trigger] s[i] < 64,
    ensures
        forall|x: int, c: u64|
            0 <= x < combos_from(s, j, k, base).len() && c < 64 ==> {
                &&& holds(base, c) ==> #[trigger] holds(combos_from(s, j, k, base)[x], c)
                &&& holds(combos_from(s, j, k, base)[x], c) && !holds(base, c) ==> lo < c
            },
    decreases s.len() - j,
{
    if k > 0 && j < s.len() {
        let card = s[j as int];
        let base2 = base | card_bit(card);
        lemma_combos_cards(s, j + 1, (k - 1) as nat, base2, lo);
        lemma_combos_cards(s, j + 1, k, base, lo);
        let left = combos_from(s, j + 1, (k - 1) as nat, base2);
        let right = combos_from(s, j + 1, k, base);
        assert(combos_from(s, j, k, base) == left + right);
        assert forall|x: int, c: u64|
            0 <= x < combos_from(s, j, k, base).len() && c < 64 implies {
                &&& holds(base, c) ==> #[trigger] holds(combos_from(s, j, k, base)[x], c)
                &&& holds(combos_from(s, j, k, base)[x], c) && !holds(base, c) ==> lo < c
            } by {
            lemma_holds_with_card(base, card, c);
            if x < left.len() {
                assert(combos_from(s, j, k, base)[x] == left[x]);
                assert(holds(base2, c) ==> holds(left[x], c));
            } else {
                assert(combos_from(s, j, k, base)[x] == right[x - left.len()]);
                assert(holds(base, c) ==> holds(right[x - left.len()], c));
            }
        }
    }
}

proof fn lemma_combos_from_no_repeats(s: Seq<u64>, j: nat, k: nat, base: u64)
    requires
        j <= s.len(),
        forall|i: int| 0 <= i < s.len() ==> #[trigger] s[i] < 64,
        forall|i: int, l: int| 0 <= i < l < s.len() ==> #[trigger] s[i] < #[trigger] s[l],
        forall|i: int| j <= i < s.len() ==> !holds(base, #[trigger] s[i]),
    ensures
        no_repeats(combos_from(s, j, k, base)),
    decreases s.len() - j,
{
    if k > 0 && j < s.len() {
        let card = s[j as int];
        let base2 = base | card_bit(card);
        assert forall|i: int| j + 1 <= i < s.len() implies !holds(base2, #[trigger] s[i]) by {
            lemma_holds_with_card(base, card, s[i]);
        }
        lemma_combos_from_no_repeats(s, j + 1, (k - 1) as nat, base2);
        lemma_combos_from_no_repeats(s, j + 1, k, base);
        lemma_combos_cards(s, j + 1, (k - 1) as nat, base2, -1);
        lemma_combos_cards(s, j + 1, k, base, card as int);
        lemma_holds_with_card(base, card, card);
        let left = combos_from(s, j + 1, (k - 1) as nat, base2);
        let right = combos_from(s, j + 1, k, base);
        let all = combos_from(s, j, k, base);
        assert(all == left + right);
        assert forall|x: int, y: int| 0 <= x < y < all.len() implies #[trigger] all[x]
            != #[trigger] all[y] by {
            if y < left.len() {
                assert(all[x] == left[x] && all[y] == left[y]);
            } else if x >= left.len() {
                assert(all[x] == right[x - left.len()] && all[y] == right[y - left.len()]);
            } else {
                assert(all[x] == left[x] && all[y] == right[y - left.len()]);
                assert(holds(left[x], card));
                assert(!holds(right[y - left.len()], card));
            }
        }
    }
}

/// The completions drawn from what is left of the deck hold no set of
/// cards twice: no deal is counted twice.
pub proof fn lemma_completions_distinct(used: u64, k: nat)
    ensures
        no_repeats(combos(remaining(used), k)),
{
    let deck = remaining(used);
    lemma_remaining_below(used, 52);
    assert forall|i: int| 0 <= i < deck.len() implies !holds(0u64, #[trigger] deck[i]) by {
        let x = deck[i];
        assert((0u64 >> x) & 1 != 1) by (bit_vector);
    }
    lemma_combos_from_no_repeats(deck, 0, k, 0);
}

proof fn lemma_remaining_below(used: u64, n: nat)
    requires
        n <= 64,
    ensures
        remaining_below(used, n).len() <= n,
        forall|i: int|
            0 <= i < remaining_below(used, n).len() ==> #[trigger] remaining_below(used, n)[i] < n
                && !holds(used, remaining_below(used, n)[i]),
        forall|i: int, j: int|
            0 <= i < j < remaining_below(used, n).len() ==> #[trigger] remaining_below(used, n)[i]
                < #[trigger] remaining_below(used, n)[j],
    decreases n,
{
    if n > 0 {
        lemma_remaining_below(used, (n - 1) as nat);
        let prev = remaining_below(used, (n - 1) as nat);
        let cur = remaining_below(used, n);
        assert forall|i: int, j: int| 0 <= i < j < cur.len() implies #[trigger] cur[i]
            < #[trigger] cur[j] by {
            if j < prev.len() {
                assert(cur[i] == prev[i] && cur[j] == prev[j]);
            } else {
                assert(cur == prev.push((n - 1) as u64));
                assert(cur[i] == prev[i]);
                assert(prev[i] < n - 1);
            }
        }
    }
}

proof fn lemma_combos_len(s: Seq<u64>, j: nat, k: nat, base: u64)
    requires
        j <= s.len(),
    ensures
        combos_from(s, j, k, base).len() == binomial((s.len() - j) as nat, k),
    decreases s.len() - j,
{
    if k > 0 && j < s.len() {
        lemma_combos_len(s, j + 1, (k - 1) as nat, base | card_bit(s[j as int]));
        lemma_combos_len(s, j + 1, k, base);
    }
}

proof fn lemma_binomial_small(n: nat, k: nat)
    requires
        k <= 2,
    ensures
        binomial(n, k) <= n * n + 1,
{
    if k == 1 {
        lemma_binomial_one(n);
        assert(n <= n * n + 1) by (nonlinear_arith);
    } else if k == 2 {
        lemma_binomial_two(n);
    }
}

proof fn lemma_binomial_two(n: nat)
    ensures
        binomial(n, 2) <= n * n,
    decreases n,
{
    if n > 0 {
        let m = (n - 1) as nat;
        lemma_binomial_two(m);
        lemma_binomial_one(m);
        assert(binomial(n, 2) == binomial(m, 1) + binomial(m, 2));
        assert(m + m * m <= n * n) by (nonlinear_arith)
            requires
                n == m + 1,
        ;
    }
}

proof fn lemma_binomial_one(n: nat)
    ensures
        binomial(n, 1) == n,
    decreases n,
{
    if n > 0 {
        let m = (n - 1) as nat;
        lemma_binomial_one(m);
        assert(binomial(n, 1) == binomial(m, 0) + binomial(m, 1));
    }
}

/// The first `n` boards give `n` outcomes in all.
proof fn lemma_tally_boards_total(a: u64, b: u64, c: u64, boards: Seq<u64>, n: nat)
    requires
        n <= boards.len(),
    ensures
        tally_boards(a, b, c, boards, n).0 + tally_boards(a, b, c, boards, n).1 + tally_boards(
            a,
            b,
            c,
            boards,
            n,
        ).2 == n,
    decreases n,
{
    if n > 0 {
        lemma_tally_boards_total(a, b, c, boards, (n - 1) as nat);
    }
}

/// The deck without the cards of `used`, in increasing order.
fn remaining_cards(used: u64) -> (r: Vec<u64>)
    ensures
        r@ == remaining(used),
{
    let mut deck: Vec<u64> = Vec::new();
    let mut i: u64 = 0;
    while i < CARD_COUNT
        invariant
            i <= 52,
            deck@ == remaining_below(used, i as nat),
        decreases 52 - i,
    {
        if (used >> i) & 1 != 1 {
            deck.push(i);
        }
        i = i + 1;
    }
    deck
}

/// A work-list entry: the deck cursor, how many cards are still to be
/// taken, and the cards taken so far.
pub type Pick = (usize, usize, u64);

/// The completions still owed by the work list `st`, top entry first.
pub open spec fn pending(deck: Seq<u64>, st: Seq<Pick>) -> Seq<u64>
    decreases st.len(),
{
    if st.len() == 0 {
        seq![]
    } else {
        let e = st.last();
        combos_from(deck, e.0 as nat, e.1 as nat, e.2) + pending(deck, st.drop_last())
    }
}

/// The number of entries that expanding an entry with `l` cards left in the
/// deck and `k` to take goes through.
pub open spec fn expansion_size(l: nat, k: nat) -> nat
    decreases l,
{
    if k == 0 || l == 0 {
        1
    } else {
        1 + expansion_size((l - 1) as nat, (k - 1) as nat) + expansion_size((l - 1) as nat, k)
    }
}

/// The work left in the work list `st` over a deck of `n` cards.
pub open spec fn work_left(n: nat, st: Seq<Pick>) -> nat
    decreases st.len(),
{
    if st.len() == 0 {
        0
    } else {
        let e = st.last();
        work_left(n, st.drop_last()) + expansion_size((n - e.0) as nat, e.1 as nat)
    }
}

/// Every set of `k` cards out of `deck`, as masks, each once. Works through
/// a list of partial picks: an entry either takes the card at its cursor or
/// skips it, and both continue from the next card, so no set comes twice.
fn combinations(deck: &Vec<u64>, k: usize) -> (r: Vec<u64>)
    requires
        forall|i: int| 0 <= i < deck@.len() ==> #[trigger] deck@[i] < 64,
    ensures
        r@ == combos(deck@, k as nat),
{
    let n = deck.len();
    let mut out: Vec<u64> = Vec::new();
    let mut stack: Vec<Pick> = Vec::new();
    stack.push((0, k, 0));
    assert(stack@.drop_last() =~= Seq::<Pick>::empty());
    assert(pending(deck@, stack@.drop_last()) == Seq::<u64>::empty());
    assert(out@ + pending(deck@, stack@) =~= combos(deck@, k as nat));
    while stack.len() > 0
        invariant
            n == deck@.len(),
            forall|i: int| 0 <= i < deck@.len() ==> #[trigger] deck@[i] < 64,
            forall|i: int| 0 <= i < stack@.len() ==> (#[trigger] stack@[i]).0 <= n,
            out@ + pending(deck@, stack@) == combos(deck@, k as nat),
        decreases work_left(n as nat, stack@),
    {
        let ghost before = stack@;
        let ghost rest = before.drop_last();
        let top = stack.pop();
        let (cursor, need, partial) = match top {
            Some(e) => e,
            None => (n, 0, 0),
        };
        assert(stack@ == rest);
        assert((cursor, need, partial) == before.last());
        let ghost owed = combos_from(deck@, cursor as nat, need as nat, partial);
        assert(pending(deck@, before) == owed + pending(deck@, rest));
        if need == 0 {
            let ghost prev = out@;
            out.push(partial);
            assert(owed == seq![partial]);
            assert(prev + (owed + pending(deck@, rest)) =~= out@ + pending(deck@, rest));
        } else if cursor < n {
            let taken = partial | (1u64 << deck[cursor]);
            stack.push((cursor + 1, need, partial));
            stack.push((cursor + 1, need - 1, taken));
            let ghost skip = combos_from(deck@, (cursor + 1) as nat, need as nat, partial);
            let ghost take = combos_from(deck@, (cursor + 1) as nat, (need - 1) as nat, taken);
            assert(stack@.drop_last().drop_last() =~= rest);
            assert(pending(deck@, stack@.drop_last()) == skip + pending(deck@, rest));
            assert(pending(deck@, stack@) == take + (skip + pending(deck@, rest)));
            assert(owed == take + skip);
            assert(take + (skip + pending(deck@, rest)) =~= owed + pending(deck@, rest));
            assert(work_left(n as nat, stack@.drop_last()) == work_left(n as nat, rest)
                + expansion_size((n - cursor - 1) as nat, need as nat));
        } else {
            assert(owed =~= Seq::<u64>::empty());
            assert(out@ + (owed + pending(deck@, rest)) =~= out@ + pending(deck@, rest));
        }
    }
    assert(out@ =~= combos(deck@, k as nat));
    out
}

} // verus!
