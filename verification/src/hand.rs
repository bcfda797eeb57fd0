//! Scoring of hands: one hand at a time, and sixteen hands side by side.
use vstd::prelude::*;
use crate::bits::{
    bit32, bit64, pop, high_index, binary_length, count_ones, clear_lowest, lemma_bit32_and,
    lemma_bit32_or, lemma_bit32_shl, lemma_bit32_high_clear, lemma_bit64_and, lemma_bit64_shl,
    lemma_mask32_of_bits, lemma_mask64_of_bits,
};
use crate::score::{
    suit_word, holds, has_rank, is_paired, is_tripled, is_quad, ends_straight, present_ranks,
    paired_ranks, tripled_ranks, quad_ranks, straight_highs, suit_has, suit_ranks, top_five, is_held, held_ranks,
    ends_run, run_ends, hand_score, STRAIGHT_FLUSH, QUADS, FULL_HOUSE, FLUSH, STRAIGHT, TRIPS,
    TWO_PAIR, PAIR,
};

verus! {

proof fn lemma_const_bits(i: u32)
    by (bit_vector)
    requires
        i < 32,
    ensures
        bit32(0xFFFF_FFFDu32, i) == (i != 1),
        bit32(0xFFFFu32, i) == (i < 16),
        bit32(0xFFFDu32, i) == (i < 16 && i != 1),
        bit32(2u32, i) == (i == 1),
{
}

proof fn lemma_word_bound(c: u64, k: u64)
    by (bit_vector)
    ensures
        (((c >> k) & 0xFFFFu64) as u32) < 0x10000u32,
{
}

/// Every suit word is below 2^16.
proof fn lemma_words_small(c: u64)
    ensures
        suit_word(c, 0) < 0x10000,
        suit_word(c, 1) < 0x10000,
        suit_word(c, 2) < 0x10000,
        suit_word(c, 3) < 0x10000,
{
    lemma_word_bound(c, 0);
    lemma_word_bound(c, 16);
    lemma_word_bound(c, 32);
    lemma_word_bound(c, 48);
}

/// No suit word has a bit at 16 or above.
proof fn lemma_words_high_clear(c: u64, i: u32)
    requires
        16 <= i < 32,
    ensures
        !holds(c, 0, i),
        !holds(c, 1, i),
        !holds(c, 2, i),
        !holds(c, 3, i),
{
    lemma_words_small(c);
    lemma_bit32_high_clear(suit_word(c, 0), i);
    lemma_bit32_high_clear(suit_word(c, 1), i);
    lemma_bit32_high_clear(suit_word(c, 2), i);
    lemma_bit32_high_clear(suit_word(c, 3), i);
}

/// The union of the suits is the set of present ranks.
proof fn lemma_present(c: u64)
    ensures
        suit_word(c, 0) | suit_word(c, 1) | suit_word(c, 2) | suit_word(c, 3) == present_ranks(c),
{
    let (a, b, d, e) = (suit_word(c, 0), suit_word(c, 1), suit_word(c, 2), suit_word(c, 3));
    let x = a | b | d | e;
    assert forall|i: u32| i < 32 implies #[trigger] bit32(x, i) == (i < 16 && has_rank(c, i)) by {
        lemma_bit32_or(a | b | d, e, i);
        lemma_bit32_or(a | b, d, i);
        lemma_bit32_or(a, b, i);
        if i >= 16 {
            lemma_words_high_clear(c, i);
        }
    }
    lemma_mask32_of_bits(x, |r: u32| has_rank(c, r), 16);
}

/// The pair detector finds the paired ranks.
proof fn lemma_pairs(c: u64)
    ensures
        ((suit_word(c, 0) & suit_word(c, 1)) | (suit_word(c, 2) & suit_word(c, 3)) | ((suit_word(
            c,
            0,
        ) | suit_word(c, 1)) & (suit_word(c, 2) | suit_word(c, 3)))) & 0xFFFF_FFFDu32 & 0xFFFFu32
            == paired_ranks(c),
{
    let (a, b, d, e) = (suit_word(c, 0), suit_word(c, 1), suit_word(c, 2), suit_word(c, 3));
    let y = (a & b) | (d & e) | ((a | b) & (d | e));
    let x = y & 0xFFFF_FFFDu32 & 0xFFFFu32;
    assert forall|i: u32| i < 32 implies #[trigger] bit32(x, i) == (i < 16 && is_paired(c, i)) by {
        lemma_bit32_and(y & 0xFFFF_FFFDu32, 0xFFFFu32, i);
        lemma_bit32_and(y, 0xFFFF_FFFDu32, i);
        lemma_bit32_or((a & b) | (d & e), (a | b) & (d | e), i);
        lemma_bit32_or(a & b, d & e, i);
        lemma_bit32_and(a, b, i);
        lemma_bit32_and(d, e, i);
        lemma_bit32_and(a | b, d | e, i);
        lemma_bit32_or(a, b, i);
        lemma_bit32_or(d, e, i);
        lemma_const_bits(i);
    }
    lemma_mask32_of_bits(x, |r: u32| is_paired(c, r), 16);
}

/// The triple detector finds the tripled ranks.
proof fn lemma_trips(c: u64)
    ensures
        (((suit_word(c, 0) & suit_word(c, 1)) & (suit_word(c, 2) | suit_word(c, 3))) | ((suit_word(
            c,
            2,
        ) & suit_word(c, 3)) & (suit_word(c, 0) | suit_word(c, 1)))) & 0xFFFF_FFFDu32
            == tripled_ranks(c),
{
    let (a, b, d, e) = (suit_word(c, 0), suit_word(c, 1), suit_word(c, 2), suit_word(c, 3));
    let y = ((a & b) & (d | e)) | ((d & e) & (a | b));
    let x = y & 0xFFFF_FFFDu32;
    assert forall|i: u32| i < 32 implies #[trigger] bit32(x, i) == (i < 16 && is_tripled(c, i)) by {
        lemma_bit32_and(y, 0xFFFF_FFFDu32, i);
        lemma_bit32_or((a & b) & (d | e), (d & e) & (a | b), i);
        lemma_bit32_and(a & b, d | e, i);
        lemma_bit32_and(d & e, a | b, i);
        lemma_bit32_and(a, b, i);
        lemma_bit32_and(d, e, i);
        lemma_bit32_or(a, b, i);
        lemma_bit32_or(d, e, i);
        lemma_const_bits(i);
        if i >= 16 {
            lemma_words_high_clear(c, i);
        }
    }
    lemma_mask32_of_bits(x, |r: u32| is_tripled(c, r), 16);
}

/// The quad detector finds the ranks held in all four suits.
proof fn lemma_quads(c: u64)
    ensures
        (suit_word(c, 0) & suit_word(c, 1)) & (suit_word(c, 2) & suit_word(c, 3)) == quad_ranks(c),
{
    let (a, b, d, e) = (suit_word(c, 0), suit_word(c, 1), suit_word(c, 2), suit_word(c, 3));
    let x = (a & b) & (d & e);
    assert forall|i: u32| i < 32 implies #[trigger] bit32(x, i) == (i < 16 && is_quad(c, i)) by {
        lemma_bit32_and(a & b, d & e, i);
        lemma_bit32_and(a, b, i);
        lemma_bit32_and(d, e, i);
        if i >= 16 {
            lemma_words_high_clear(c, i);
        }
    }
    lemma_mask32_of_bits(x, |r: u32| is_quad(c, r), 16);
}

/// A suit word without the low-ace bit is the suit's rank set.
proof fn lemma_suit_ranks(c: u64, s: u64)
    requires
        s < 4,
    ensures
        suit_word(c, s) & 0xFFFDu32 == suit_ranks(c, s),
{
    let w = suit_word(c, s);
    let x = w & 0xFFFDu32;
    assert forall|i: u32| i < 32 implies #[trigger] bit32(x, i) == (i < 16 && suit_has(c, s, i)) by {
        lemma_bit32_and(w, 0xFFFDu32, i);
        lemma_const_bits(i);
    }
    lemma_mask32_of_bits(x, |r: u32| suit_has(c, s, r), 16);
}

/// The union of the suits without the low-ace bit is the set of held ranks.
proof fn lemma_held_ranks(c: u64)
    ensures
        present_ranks(c) & 0xFFFDu32 == held_ranks(c),
{
    let x = present_ranks(c) & 0xFFFDu32;
    assert forall|i: u32| i < 32 implies #[trigger] bit32(x, i) == (i < 16 && is_held(c, i)) by {
        lemma_bit32_and(present_ranks(c), 0xFFFDu32, i);
        lemma_present_bit(c, i);
        lemma_const_bits(i);
    }
    lemma_mask32_of_bits(x, |r: u32| is_held(c, r), 16);
}

/// Bits of the present-rank set.
proof fn lemma_present_bit(c: u64, i: u32)
    requires
        i < 32,
    ensures
        bit32(present_ranks(c), i) == (i < 16 && has_rank(c, i)),
{
    crate::bits::lemma_mask32_bit(|r: u32| has_rank(c, r), 16, i);
}

/// The straight detector finds the straight ends.
proof fn lemma_straights(c: u64)
    ensures
        ({
            let fd = present_ranks(c);
            let s1 = fd & (fd << 1u32);
            let s2 = s1 & (s1 << 2u32);
            s2 & (fd << 4u32)
        }) == straight_highs(c),
{
    let fd = present_ranks(c);
    let s1 = fd & (fd << 1u32);
    let s2 = s1 & (s1 << 2u32);
    let x = s2 & (fd << 4u32);
    assert forall|i: u32| i < 32 implies #[trigger] bit32(x, i) == (i < 16 && ends_straight(c, i)) by {
        lemma_bit32_and(s2, fd << 4u32, i);
        lemma_bit32_and(s1, s1 << 2u32, i);
        lemma_bit32_and(fd, fd << 1u32, i);
        lemma_bit32_shl(fd, 4, i);
        lemma_bit32_shl(s1, 2, i);
        lemma_bit32_shl(fd, 1, i);
        lemma_present_bit(c, i);
        if i >= 1 {
            lemma_present_bit(c, (i - 1) as u32);
        }
        if i >= 2 {
            lemma_bit32_and(fd, fd << 1u32, (i - 2) as u32);
            lemma_bit32_shl(fd, 1, (i - 2) as u32);
            lemma_present_bit(c, (i - 2) as u32);
        }
        if i >= 3 {
            lemma_present_bit(c, (i - 3) as u32);
        }
        if i >= 4 {
            lemma_present_bit(c, (i - 4) as u32);
        }
    }
    lemma_mask32_of_bits(x, |r: u32| ends_straight(c, r), 16);
}

/// The straight-flush detector finds the ends of runs of five card bits.
proof fn lemma_runs(c: u64)
    ensures
        ({
            let r1 = c & (c << 1u64);
            let r2 = r1 & (r1 << 2u64);
            r2 & (c << 4u64)
        }) == run_ends(c),
{
    let r1 = c & (c << 1u64);
    let r2 = r1 & (r1 << 2u64);
    let x = r2 & (c << 4u64);
    assert forall|i: u64| i < 64 implies #[trigger] bit64(x, i) == (i < 64 && ends_run(c, i)) by {
        lemma_bit64_and(r2, c << 4u64, i);
        lemma_bit64_and(r1, r1 << 2u64, i);
        lemma_bit64_and(c, c << 1u64, i);
        lemma_bit64_shl(c, 4, i);
        lemma_bit64_shl(r1, 2, i);
        lemma_bit64_shl(c, 1, i);
        if i >= 2 {
            lemma_bit64_and(c, c << 1u64, (i - 2) as u64);
            lemma_bit64_shl(c, 1, (i - 2) as u64);
        }
    }
    lemma_mask64_of_bits(x, |j: u64| ends_run(c, j), 64);
}


/// The 16-bit word of suit `s`.
fn word(cards: u64, s: u64) -> (w: u32)
    requires
        s < 4,
    ensures
        w == suit_word(cards, s),
{
    ((cards >> (16 * s)) & 0xFFFF) as u32
}

/// The ranks of a flush suit, or nothing when the word (without its low-ace
/// bit) holds fewer than five ranks.
fn flush_part(clean: u32) -> (f: u32)
    ensures
        f == (if pop(clean) >= 5 {
            clean
        } else {
            0u32
        }),
{
    if count_ones(clean) >= 5 {
        clean
    } else {
        0
    }
}

/// The five highest of at most seven ranks, dropping the lowest ones beyond five.
fn keep_top_five(flush: u32) -> (f: u32)
    ensures
        f == top_five(flush),
{
    let n = count_ones(flush);
    let mut f = flush;
    if n >= 6 && f != 0 {
        f = clear_lowest(f);
    }
    if n >= 7 && f != 0 {
        f = clear_lowest(f);
    }
    f
}

/// The score of one hand, given as its 64-bit card set.
pub fn score_cards(cards: u64) -> (score: u32)
    ensures
        score == hand_score(cards),
{
    let h0 = word(cards, 0);
    let h1 = word(cards, 1);
    let h2 = word(cards, 2);
    let h3 = word(cards, 3);
    proof {
        lemma_words_small(cards);
        lemma_present(cards);
        lemma_pairs(cards);
        lemma_trips(cards);
        lemma_quads(cards);
        lemma_straights(cards);
        lemma_runs(cards);
        lemma_held_ranks(cards);
        lemma_suit_ranks(cards, 0);
        lemma_suit_ranks(cards, 1);
        lemma_suit_ranks(cards, 2);
        lemma_suit_ranks(cards, 3);
        crate::bits::lemma_pop_zero(32);
    }
    let folded_dirty = h0 | h1 | h2 | h3;
    let folded_clean = folded_dirty ^ 2;
    let held = folded_dirty & 0xFFFD;
    let ab_and = h0 & h1;
    let ab_or = h0 | h1;
    let cd_and = h2 & h3;
    let cd_or = h2 | h3;

    // One pair and two pair.
    let pair_reduced = (ab_and | cd_and | (ab_or & cd_or)) & 0xFFFF_FFFD & 0xFFFF;
    let pair_check = pair_reduced != 0;
    let two_pair_check = count_ones(pair_reduced) > 1;
    let first = if pair_check {
        high_index(pair_reduced)
    } else {
        0
    };
    let second = if two_pair_check {
        high_index(pair_reduced ^ (1u32 << first))
    } else {
        0
    };
    let kickers = if two_pair_check {
        folded_clean ^ (1u32 << first) ^ (1u32 << second)
    } else {
        folded_clean ^ (1u32 << first)
    };
    let k1 = 1u32 << high_index(kickers);
    let k_rem1 = kickers ^ k1;
    let k2 = 1u32 << high_index(k_rem1);
    let k_rem2 = k_rem1 ^ k2;
    let k3 = 1u32 << high_index(k_rem2);
    let two_pair_res = TWO_PAIR | first << 24 | second << 20 | k1;
    let pair_res = PAIR | first << 24 | (k1 | k2 | k3);

    let mut res = keep_top_five(held);
    if pair_check {
        res = pair_res;
    }
    if two_pair_check {
        res = two_pair_res;
    }

    // Three of a kind.
    let triple_reduced = ((ab_and & cd_or) | (cd_and & ab_or)) & 0xFFFF_FFFD;
    let trip_check = triple_reduced != 0;
    let trip_rank_idx = high_index(triple_reduced);
    let trip_kickers = folded_clean ^ (1u32 << trip_rank_idx);
    let trip_k1 = 1u32 << high_index(trip_kickers);
    let trip_k_rem1 = trip_kickers ^ trip_k1;
    let trip_k2 = 1u32 << high_index(trip_k_rem1);
    if trip_check {
        res = TRIPS | (trip_rank_idx << 24) | (trip_k1 | trip_k2);
    }

    // Straight.
    let mut straight_calc = folded_dirty & (folded_dirty << 1);
    straight_calc = straight_calc & (straight_calc << 2);
    straight_calc = straight_calc & (folded_dirty << 4);
    if straight_calc != 0 {
        res = STRAIGHT | high_index(straight_calc);
    }

    // Flush.
    let flush = flush_part(h0 & 0xFFFD) | flush_part(h1 & 0xFFFD) | flush_part(h2 & 0xFFFD)
        | flush_part(h3 & 0xFFFD);
    if count_ones(flush) >= 5 {
        res = FLUSH | keep_top_five(flush);
    }

    // Full house.
    if trip_check && two_pair_check {
        res = FULL_HOUSE | (trip_rank_idx << 24) | (high_index(pair_reduced ^ (1u32 << trip_rank_idx))
            << 20);
    }

    // Four of a kind.
    let quad_calc = ab_and & cd_and;
    if quad_calc != 0 {
        res = QUADS | (high_index(quad_calc) << 24) | binary_length(folded_dirty ^ quad_calc);
    }

    // Straight flush.
    let mut straight_flush_calc = cards & (cards << 1);
    straight_flush_calc = straight_flush_calc & (straight_flush_calc << 2);
    straight_flush_calc = straight_flush_calc & (cards << 4);
    let folded_runs = (#[verifier::truncate] ((straight_flush_calc | (straight_flush_calc >> 32))
        as u32));
    if folded_runs != 0 {
        res = STRAIGHT_FLUSH | high_index(folded_runs);
    }
    res
}

/// The scores of sixteen hands, one per lane.
#[derive(PartialEq, Eq, PartialOrd, Ord, Debug)]
pub struct Hand([u32; 16]);

impl View for Hand {
    type V = Seq<u32>;

    closed spec fn view(&self) -> Seq<u32> {
        self.0@
    }
}

impl Hand {
    /// Scores sixteen hands, each given as its 64-bit card set.
    pub fn new(cards: [u64; 16]) -> (h: Hand)
        ensures
            h@.len() == 16,
            forall|i: int| 0 <= i < 16 ==> #[trigger] h@[i] == hand_score(cards@[i]),
    {
        let mut scores = [0u32; 16];
        let mut i: usize = 0;
        while i < 16
            invariant
                i <= 16,
                scores@.len() == 16,
                forall|j: int| 0 <= j < i ==> #[trigger] scores@[j] == hand_score(cards@[j]),
            decreases 16 - i,
        {
            scores[i] = score_cards(cards[i]);
            i = i + 1;
        }
        Hand(scores)
    }

    /// The sixteen scores.
    pub fn to_array(&self) -> (a: [u32; 16])
        ensures
            a@ == self@,
    {
        self.0
    }
}

} // verus!
