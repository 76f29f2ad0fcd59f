//! A hand as a set of cards, held as a 64-bit mask.
//!
//! Card `c` (in `0..52`) is `rank * 4 + suit`, ranks ordered two to ace and
//! suits `s`, `c`, `d`, `h`; the hand holds card `c` exactly when bit `c` of
//! its mask is set.
use vstd::prelude::*;

verus! {

pub const RANK_COUNT: u64 = 13;

pub const SUIT_COUNT: u64 = 4;

pub const CARD_COUNT: u64 = 52;

/// Bit `c` of `mask` is set: the hand holds card `c`.
pub open spec fn holds(mask: u64, c: u64) -> bool {
    (mask >> c) & 1 == 1
}

/// The mask of the single card `c`.
pub open spec fn card_bit(c: u64) -> u64 {
    1u64 << c
}

/// No bit at or above the deck size is set.
pub open spec fn in_deck(mask: u64) -> bool {
    mask >> 52u64 == 0
}

/// The number of cards of `mask` with an index below `n`.
pub open spec fn count_below(mask: u64, n: nat) -> nat
    decreases n,
{
    if n == 0 {
        0
    } else {
        count_below(mask, (n - 1) as nat) + if holds(mask, (n - 1) as u64) {
            1nat
        } else {
            0nat
        }
    }
}

/// The `count` highest cards of `mask` among those with an index below `n`
/// (all of them where there are fewer).
pub open spec fn top_cards(mask: u64, count: nat, n: nat) -> u64
    decreases n,
{
    if n == 0 || count == 0 {
        0
    } else if holds(mask, (n - 1) as u64) {
        card_bit((n - 1) as u64) | top_cards(mask, (count - 1) as nat, (n - 1) as nat)
    } else {
        top_cards(mask, count, (n - 1) as nat)
    }
}

/// Some card of rank `rank` is in `mask`.
pub open spec fn holds_rank(mask: u64, rank: u64) -> bool {
    holds(mask, (rank * 4) as u64) || holds(mask, (rank * 4 + 1) as u64) || holds(
        mask,
        (rank * 4 + 2) as u64,
    ) || holds(mask, (rank * 4 + 3) as u64)
}

/// The rank named by a character of `23456789TJQKA`; any other reads as the lowest.
pub open spec fn rank_of_char(c: char) -> u64 {
    if c == '2' {
        0
    } else if c == '3' {
        1
    } else if c == '4' {
        2
    } else if c == '5' {
        3
    } else if c == '6' {
        4
    } else if c == '7' {
        5
    } else if c == '8' {
        6
    } else if c == '9' {
        7
    } else if c == 'T' {
        8
    } else if c == 'J' {
        9
    } else if c == 'Q' {
        10
    } else if c == 'K' {
        11
    } else if c == 'A' {
        12
    } else {
        0
    }
}

/// The suit named by a character of `scdh`; any other reads as the first.
pub open spec fn suit_of_char(c: char) -> u64 {
    if c == 's' {
        0
    } else if c == 'c' {
        1
    } else if c == 'd' {
        2
    } else if c == 'h' {
        3
    } else {
        0
    }
}

/// The card named by a rank character and a suit character.
pub open spec fn card_of(r: char, s: char) -> u64 {
    (rank_of_char(r) * 4 + suit_of_char(s)) as u64
}

/// The cards named by the first `k` two-character tokens of `s`.
pub open spec fn parse_tokens(s: Seq<char>, k: nat) -> u64
    decreases k,
{
    if k == 0 {
        0
    } else {
        parse_tokens(s, (k - 1) as nat) | card_bit(card_of(s[2 * k - 2], s[2 * k - 1]))
    }
}

/// The cards named by `s`: one per complete token, a trailing odd character ignored.
pub open spec fn parse_hand(s: Seq<char>) -> u64 {
    parse_tokens(s, s.len() / 2)
}

/// The bits of `mask` below index `k`.
pub open spec fn low_bits(mask: u64, k: u64) -> u64 {
    mask & (((1u64 << k) - 1u64) as u64)
}

proof fn lemma_low_bits_step(m: u64, k: u64)
    requires
        k < 63,
    ensures
        holds(m, k) ==> low_bits(m, (k + 1) as u64) == (card_bit(k) | low_bits(m, k)),
        !holds(m, k) ==> low_bits(m, (k + 1) as u64) == low_bits(m, k),
{
    assert(((m >> k) & 1 == 1) ==> (m & (((1u64 << ((k + 1) as u64)) - 1u64) as u64)) == ((1u64 << k) | (m
        & (((1u64 << k) - 1u64) as u64)))) by (bit_vector)
        requires
            k < 63,
    ;
    assert(!((m >> k) & 1 == 1) ==> (m & (((1u64 << ((k + 1) as u64)) - 1u64) as u64)) == (m & (((1u64 << k) - 1u64) as u64))) by (bit_vector)
        requires
            k < 63,
    ;
}

proof fn lemma_top_cards_all(m: u64, n: nat, k: nat)
    requires
        k <= 52,
        n >= count_below(m, k),
    ensures
        top_cards(m, n, k) == low_bits(m, k as u64),
    decreases k,
{
    if k == 0 {
        assert(m & (((1u64 << 0u64) - 1u64) as u64) == 0) by (bit_vector);
    } else {
        let j = (k - 1) as nat;
        lemma_low_bits_step(m, j as u64);
        if holds(m, j as u64) {
            lemma_top_cards_all(m, (n - 1) as nat, j);
        } else {
            lemma_top_cards_all(m, n, j);
            if n == 0 {
                assert(top_cards(m, 0, j) == 0);
            }
        }
    }
}

proof fn lemma_count_below_mono(m: u64, j: nat, k: nat)
    requires
        j <= k,
    ensures
        count_below(m, j) <= count_below(m, k),
    decreases k,
{
    if j < k {
        lemma_count_below_mono(m, j, (k - 1) as nat);
    }
}

proof fn lemma_parse_in_deck(s: Seq<char>, k: nat)
    ensures
        in_deck(parse_tokens(s, k)),
    decreases k,
{
    if k == 0 {
        assert(in_deck(0u64)) by (bit_vector);
    } else {
        lemma_parse_in_deck(s, (k - 1) as nat);
        let prev = parse_tokens(s, (k - 1) as nat);
        let card = card_of(s[2 * k - 2], s[2 * k - 1]);
        assert(in_deck(prev | (1u64 << card))) by (bit_vector)
            requires
                in_deck(prev),
                card < 52,
        ;
    }
}

/// Taking as many highest cards as a hand holds, or more, gives back the
/// whole hand.
pub proof fn lemma_highest_cards_whole(mask: u64, n: nat)
    requires
        in_deck(mask),
        n >= count_below(mask, 64),
    ensures
        top_cards(mask, n, 52) == mask,
{
    lemma_count_below_mono(mask, 52, 64);
    lemma_top_cards_all(mask, n, 52);
    assert(mask >> 52u64 == 0 ==> mask & (((1u64 << 52u64) - 1u64) as u64) == mask) by (bit_vector);
}

/// Reading a hand from notation and then taking its `n` highest cards, for
/// any `n` at least its number of cards, gives back the hand read.
pub proof fn lemma_parse_round_trip(s: Seq<char>, n: nat)
    requires
        n >= count_below(parse_hand(s), 64),
    ensures
        top_cards(parse_hand(s), n, 52) == parse_hand(s),
{
    lemma_parse_in_deck(s, s.len() / 2);
    lemma_highest_cards_whole(parse_hand(s), n);
}

#[derive(Debug, Clone, Copy, PartialEq, Eq, Structural)]
pub struct Hand {
    pub mask: u64,
}

impl Hand {
    /// A hand is well formed when it holds no bit outside the deck.
    pub open spec fn wf(&self) -> bool {
        in_deck(self.mask)
    }

    /// The number of cards in the hand.
    pub open spec fn size(&self) -> nat {
        count_below(self.mask, 64)
    }

    pub fn from_mask(mask: u64) -> (r: Hand)
        ensures
            r.mask == mask,
    {
        Hand { mask }
    }

    fn rank_index(c: char) -> (r: u64)
        ensures
            r == rank_of_char(c),
    {
        match c {
            '2' => 0,
            '3' => 1,
            '4' => 2,
            '5' => 3,
            '6' => 4,
            '7' => 5,
            '8' => 6,
            '9' => 7,
            'T' => 8,
            'J' => 9,
            'Q' => 10,
            'K' => 11,
            'A' => 12,
            _ => 0,
        }
    }

    fn suit_index(c: char) -> (r: u64)
        ensures
            r == suit_of_char(c),
    {
        match c {
            's' => 0,
            'c' => 1,
            'd' => 2,
            'h' => 3,
            _ => 0,
        }
    }

    /// Reads a hand written as rank-suit tokens such as `AsKd`.
    pub fn from_string(s: &str) -> (r: Hand)
        ensures
            r.mask == parse_hand(s@),
            r.wf(),
    {
        let n = s.unicode_len();
        let tokens = n / 2;
        let mut mask: u64 = 0;
        let mut k: usize = 0;
        assert(in_deck(0u64)) by (bit_vector);
        while k < tokens
            invariant
                n == s@.len(),
                tokens == s@.len() / 2,
                k <= tokens,
                mask == parse_tokens(s@, k as nat),
                in_deck(mask),
            decreases tokens - k,
        {
            let rank = Self::rank_index(s.get_char(2 * k));
            let suit = Self::suit_index(s.get_char(2 * k + 1));
            let card = rank * SUIT_COUNT + suit;
            assert(in_deck(mask | (1u64 << card))) by (bit_vector)
                requires
                    in_deck(mask),
                    card < 52,
            ;
            mask = mask | (1u64 << card);
            k = k + 1;
        }
        Hand { mask }
    }

    /// The number of cards in the hand.
    pub fn len(&self) -> (r: u32)
        ensures
            r == self.size(),
    {
        let mut count: u32 = 0;
        let mut i: u64 = 0;
        while i < 64
            invariant
                i <= 64,
                count == count_below(self.mask, i as nat),
                count <= i,
            decreases 64 - i,
        {
            if (self.mask >> i) & 1 == 1 {
                count = count + 1;
            }
            i = i + 1;
        }
        count
    }

    /// The cards of both hands.
    pub fn merge(&self, other: &Self) -> (r: Self)
        ensures
            r.mask == self.mask | other.mask,
    {
        Self { mask: self.mask | other.mask }
    }

    /// The `count` highest cards of the hand that are not in `pattern`.
    pub fn get_highest_card_not_in(&self, pattern: u64, count: usize) -> (r: u64)
        ensures
            r == top_cards(self.mask & !pattern, count as nat, 52),
    {
        Self::highest_of(self.mask & !pattern, count)
    }

    /// The `count` highest cards of the hand, or all of them where it holds fewer.
    pub fn get_highest_card(&self, count: usize) -> (r: u64)
        ensures
            r == top_cards(self.mask, count as nat, 52),
    {
        Self::highest_of(self.mask, count)
    }

    fn highest_of(mask: u64, count: usize) -> (r: u64)
        ensures
            r == top_cards(mask, count as nat, 52),
    {
        let mut ret: u64 = 0;
        let mut left: usize = count;
        let mut i: u64 = 52;
        assert(forall|x: u64| 0u64 | x == x) by (bit_vector);
        while i > 0 && left > 0
            invariant
                i <= 52,
                left <= count,
                top_cards(mask, count as nat, 52) == ret | top_cards(mask, left as nat, i as nat),
            decreases i,
        {
            let ghost t = top_cards(mask, (left - 1) as nat, (i - 1) as nat);
            if (mask >> (i - 1)) & 1 == 1 {
                let b: u64 = 1u64 << (i - 1);
                assert(ret | (b | t) == (ret | b) | t) by (bit_vector);
                ret = ret | b;
                left = left - 1;
            }
            i = i - 1;
        }
        assert(ret | 0 == ret) by (bit_vector);
        ret
    }

    /// Whether the two hands share a card.
    pub fn overlap(&self, other: &Self) -> (r: bool)
        ensures
            r == (self.mask & other.mask != 0),
    {
        self.mask & other.mask != 0
    }

    /// Whether every card of `pattern` is in the hand.
    pub fn matches(&self, pattern: u64) -> (r: bool)
        ensures
            r == (self.mask & pattern == pattern),
    {
        self.mask & pattern == pattern
    }

    /// Whether the hand holds a card of rank `rank`, in any suit.
    pub fn has_rank(&self, rank: u64) -> (r: bool)
        requires
            rank < RANK_COUNT,
        ensures
            r == holds_rank(self.mask, rank),
    {
        let m = self.mask;
        assert(((m & (0b1111u64 << (rank * 4))) != 0) == ((m >> (rank * 4)) & 1 == 1 || (m >> (
        rank * 4 + 1)) & 1 == 1 || (m >> (rank * 4 + 2)) & 1 == 1 || (m >> (rank * 4 + 3)) & 1
            == 1)) by (bit_vector)
            requires
                rank < 13,
        ;
        (m & (0b1111u64 << (rank * SUIT_COUNT))) != 0
    }
}

impl<'a> From<&'a str> for Hand {
    /// Reads a hand written as rank-suit tokens, as `from_string` does.
    fn from(hand: &'a str) -> (r: Self) {
        Self::from_string(hand)
    }
}

impl<'a> vstd::std_specs::convert::FromSpecImpl<&'a str> for Hand {
    open spec fn obeys_from_spec() -> bool {
        true
    }

    open spec fn from_spec(v: &'a str) -> Self {
        Hand { mask: parse_hand(v@) }
    }
}

impl From<u64> for Hand {
    /// The hand of the cards set in `mask`.
    fn from(mask: u64) -> (r: Self) {
        Self::from_mask(mask)
    }
}

impl vstd::std_specs::convert::FromSpecImpl<u64> for Hand {
    open spec fn obeys_from_spec() -> bool {
        true
    }

    open spec fn from_spec(v: u64) -> Self {
        Hand { mask: v }
    }
}

} // verus!
