//! What a seven-card hand scores.
//!
//! A hand is a 64-bit set of cards: suit `s` (0..4) owns bits `16 * s .. 16 * s + 16`,
//! and inside a suit bit `r` stands for rank `r` (2..=14); bit 1 repeats the
//! ace so that it can also play low. The score is a 32-bit value whose top
//! four bits name the category and whose lower bits break ties.
use vstd::prelude::*;
use crate::bits::{bit32, bit64, mask32, mask64, pop, hi, single, bit_length, drop_lowest};

verus! {

/// Category bits of a straight flush.
pub const STRAIGHT_FLUSH: u32 = 0xF000_0000;
/// Category bits of four of a kind.
pub const QUADS: u32 = 0xE000_0000;
/// Category bits of a full house.
pub const FULL_HOUSE: u32 = 0x6000_0000;
/// Category bits of a flush.
pub const FLUSH: u32 = 0x5000_0000;
/// Category bits of a straight.
pub const STRAIGHT: u32 = 0x4000_0000;
/// Category bits of three of a kind.
pub const TRIPS: u32 = 0x3000_0000;
/// Category bits of two pair.
pub const TWO_PAIR: u32 = 0x2000_0000;
/// Category bits of one pair.
pub const PAIR: u32 = 0x1000_0000;

/// The 16 bits of suit `s` in a hand.
pub open spec fn suit_word(cards: u64, s: u64) -> u32 {
    ((cards >> ((16 * s) as u64)) & 0xFFFFu64) as u32
}

/// Suit `s` of the hand holds rank bit `r`.
pub open spec fn holds(cards: u64, s: u64, r: u32) -> bool {
    bit32(suit_word(cards, s), r)
}

/// In how many suits the hand holds rank bit `r`.
pub open spec fn rank_count(cards: u64, r: u32) -> nat {
    (if holds(cards, 0, r) { 1nat } else { 0nat }) + (if holds(cards, 1, r) { 1nat } else { 0nat })
        + (if holds(cards, 2, r) { 1nat } else { 0nat }) + (if holds(cards, 3, r) {
        1nat
    } else {
        0nat
    })
}

/// The set of rank bits (below 16) where `p` holds, as a bit mask.
pub open spec fn ranks_where(p: spec_fn(u32) -> bool) -> u32 {
    mask32(p, 16)
}

/// Rank bit `r` appears in some suit.
pub open spec fn has_rank(cards: u64, r: u32) -> bool {
    rank_count(cards, r) >= 1
}

/// Rank bit `r` (other than the low-ace bit) appears in at least two suits.
pub open spec fn is_paired(cards: u64, r: u32) -> bool {
    r != 1 && rank_count(cards, r) >= 2
}

/// Rank bit `r` (other than the low-ace bit) appears in at least three suits.
pub open spec fn is_tripled(cards: u64, r: u32) -> bool {
    r != 1 && rank_count(cards, r) >= 3
}

/// Rank bit `r` appears in all four suits.
pub open spec fn is_quad(cards: u64, r: u32) -> bool {
    rank_count(cards, r) == 4
}

/// Rank bits `r - 4 ..= r` all appear: a straight ending at `r`.
pub open spec fn ends_straight(cards: u64, r: u32) -> bool {
    4 <= r && has_rank(cards, r) && has_rank(cards, (r - 1) as u32) && has_rank(
        cards,
        (r - 2) as u32,
    ) && has_rank(cards, (r - 3) as u32) && has_rank(cards, (r - 4) as u32)
}

/// Every rank bit that appears in the hand.
pub open spec fn present_ranks(cards: u64) -> u32 {
    ranks_where(|r: u32| has_rank(cards, r))
}

/// The paired rank bits.
pub open spec fn paired_ranks(cards: u64) -> u32 {
    ranks_where(|r: u32| is_paired(cards, r))
}

/// The tripled rank bits.
pub open spec fn tripled_ranks(cards: u64) -> u32 {
    ranks_where(|r: u32| is_tripled(cards, r))
}

/// The rank bits held in all four suits.
pub open spec fn quad_ranks(cards: u64) -> u32 {
    ranks_where(|r: u32| is_quad(cards, r))
}

/// The rank bits that end a straight.
pub open spec fn straight_highs(cards: u64) -> u32 {
    ranks_where(|r: u32| ends_straight(cards, r))
}

/// Suit `s` holds rank bit `r`, leaving out the low-ace bit.
pub open spec fn suit_has(cards: u64, s: u64, r: u32) -> bool {
    r != 1 && holds(cards, s, r)
}

/// The rank bits of suit `s`, without the low-ace bit.
pub open spec fn suit_ranks(cards: u64, s: u64) -> u32 {
    ranks_where(|r: u32| suit_has(cards, s, r))
}

/// The ranks of suit `s` when it holds at least five of them, else nothing.
pub open spec fn flush_suit_ranks(cards: u64, s: u64) -> u32 {
    if pop(suit_ranks(cards, s)) >= 5 {
        suit_ranks(cards, s)
    } else {
        0u32
    }
}

/// The ranks of all suits that hold at least five ranks.
pub open spec fn flush_ranks(cards: u64) -> u32 {
    flush_suit_ranks(cards, 0) | flush_suit_ranks(cards, 1) | flush_suit_ranks(cards, 2)
        | flush_suit_ranks(cards, 3)
}

/// The five highest of at most seven ranks: with six ranks the lowest is
/// dropped, with seven or more the two lowest are.
pub open spec fn top_five(f: u32) -> u32 {
    let once = if pop(f) >= 6 {
        drop_lowest(f)
    } else {
        f
    };
    if pop(f) >= 7 {
        drop_lowest(once)
    } else {
        once
    }
}

/// Card bit `j` of the hand ends a run of five consecutive card bits.
pub open spec fn ends_run(cards: u64, j: u64) -> bool {
    4 <= j && bit64(cards, j) && bit64(cards, (j - 1) as u64) && bit64(cards, (j - 2) as u64)
        && bit64(cards, (j - 3) as u64) && bit64(cards, (j - 4) as u64)
}

/// The card bits that end a run of five: the tops of the straight flushes.
pub open spec fn run_ends(cards: u64) -> u64 {
    mask64(|j: u64| ends_run(cards, j), 64)
}

/// The run ends with the upper half of the hand folded onto the lower half:
/// suits 0 and 2 land in bits 0..16, suits 1 and 3 in bits 16..32. With
/// straight flushes in more than one suit (more cards than a seven-card hand
/// holds), the score takes the top run end of the upper half when it has one.
pub open spec fn run_ends_folded(cards: u64) -> u32 {
    (run_ends(cards) | (run_ends(cards) >> 32u64)) as u32
}

/// The highest bit of `k` (by `hi`), alone.
pub open spec fn top_one(k: u32) -> u32 {
    single(hi(k))
}

/// The two highest bits of `k`, taken one after the other by `top_one`.
pub open spec fn top_two(k: u32) -> u32 {
    let a = top_one(k);
    a | top_one(k ^ a)
}

/// The three highest bits of `k`, taken one after the other by `top_one`.
pub open spec fn top_three(k: u32) -> u32 {
    let a = top_one(k);
    let b = top_one(k ^ a);
    a | b | top_one(k ^ a ^ b)
}

/// Rank bit `r` (other than the low-ace bit) appears in some suit.
pub open spec fn is_held(cards: u64, r: u32) -> bool {
    r != 1 && has_rank(cards, r)
}

/// The ranks held, without the low-ace bit.
pub open spec fn held_ranks(cards: u64) -> u32 {
    ranks_where(|r: u32| is_held(cards, r))
}

/// The pool of kickers: the present ranks with the low-ace bit flipped. An
/// ace's low bit leaves the pool; a hand without an ace gets bit 1, which
/// ranks below every real card and so counts only when real kickers run out.
pub open spec fn kicker_pool(cards: u64) -> u32 {
    present_ranks(cards) ^ 2u32
}

/// Score of a straight flush.
pub open spec fn straight_flush_score(cards: u64) -> u32 {
    STRAIGHT_FLUSH | hi(run_ends_folded(cards))
}

/// Score of four of a kind: the quad rank, then the number of binary digits of
/// the other ranks.
pub open spec fn quads_score(cards: u64) -> u32 {
    let q = quad_ranks(cards);
    QUADS | (hi(q) << 24u32) | bit_length(present_ranks(cards) ^ q)
}

/// Score of a full house: the highest tripled rank, then the highest other
/// paired rank.
pub open spec fn full_house_score(cards: u64) -> u32 {
    let top = hi(tripled_ranks(cards));
    FULL_HOUSE | (top << 24u32) | (hi(paired_ranks(cards) ^ single(top)) << 20u32)
}

/// Score of a flush.
pub open spec fn flush_score(cards: u64) -> u32 {
    FLUSH | top_five(flush_ranks(cards))
}

/// Score of a straight: its highest rank.
pub open spec fn straight_score(cards: u64) -> u32 {
    STRAIGHT | hi(straight_highs(cards))
}

/// Score of three of a kind: the tripled rank, then two kickers.
pub open spec fn trips_score(cards: u64) -> u32 {
    let top = hi(tripled_ranks(cards));
    TRIPS | (top << 24u32) | top_two(kicker_pool(cards) ^ single(top))
}

/// Score of two pair: the top pair, the second pair, then one kicker.
pub open spec fn two_pair_score(cards: u64) -> u32 {
    let p = paired_ranks(cards);
    let first = hi(p);
    let second = hi(p ^ single(first));
    TWO_PAIR | (first << 24u32) | (second << 20u32) | top_one(
        kicker_pool(cards) ^ single(first) ^ single(second),
    )
}

/// Score of one pair: the pair, then three kickers.
pub open spec fn pair_score(cards: u64) -> u32 {
    let first = hi(paired_ranks(cards));
    PAIR | (first << 24u32) | top_three(kicker_pool(cards) ^ single(first))
}

/// The score of a hand: the best category it makes, each category's score
/// laid out as above, and, without any combination, its five highest ranks.
pub open spec fn hand_score(cards: u64) -> u32 {
    if run_ends_folded(cards) != 0 {
        straight_flush_score(cards)
    } else if quad_ranks(cards) != 0 {
        quads_score(cards)
    } else if tripled_ranks(cards) != 0 && pop(paired_ranks(cards)) > 1 {
        full_house_score(cards)
    } else if pop(flush_ranks(cards)) >= 5 {
        flush_score(cards)
    } else if straight_highs(cards) != 0 {
        straight_score(cards)
    } else if tripled_ranks(cards) != 0 {
        trips_score(cards)
    } else if pop(paired_ranks(cards)) > 1 {
        two_pair_score(cards)
    } else if paired_ranks(cards) != 0 {
        pair_score(cards)
    } else {
        top_five(held_ranks(cards))
    }
}


/// A hand whose suits use only rank bits 1..=14, with the low-ace bit set
/// exactly when the ace is: the card sets that hands of real cards make.
pub open spec fn well_formed_hand(cards: u64) -> bool {
    forall|s: u64|
        s < 4 ==> !#[trigger] holds(cards, s, 0) && !holds(cards, s, 15) && holds(cards, s, 1)
            == holds(cards, s, 14)
}

/// The category of a hand, from 8 (straight flush) down through four of a
/// kind, full house, flush, straight, three of a kind, two pair and one pair
/// to 0 (high card).
pub open spec fn category(cards: u64) -> nat {
    if run_ends_folded(cards) != 0 {
        8
    } else if quad_ranks(cards) != 0 {
        7
    } else if tripled_ranks(cards) != 0 && pop(paired_ranks(cards)) > 1 {
        6
    } else if pop(flush_ranks(cards)) >= 5 {
        5
    } else if straight_highs(cards) != 0 {
        4
    } else if tripled_ranks(cards) != 0 {
        3
    } else if pop(paired_ranks(cards)) > 1 {
        2
    } else if paired_ranks(cards) != 0 {
        1
    } else {
        0
    }
}

} // verus!
