//! Properties of the hand score that hold across hands: a better category
//! always scores higher, and within a category the hand with the higher
//! deciding ranks scores higher.
use vstd::prelude::*;
use crate::bits::{
    bit32, bit64, mask32, hi, single, low_bit, drop_lowest, lemma_mask32_bit, lemma_mask64_bit,
    lemma_bits_below, lemma_top_bit, lemma_low_bit, lemma_bit32_high_clear, lemma_bit32_ext,
    lemma_bit32_or,
};
use crate::score::{
    suit_word, holds, rank_count, is_paired, is_tripled, ends_straight, ends_run, run_ends,
    well_formed_hand, has_rank, is_quad, suit_has, is_held, present_ranks, paired_ranks,
    tripled_ranks, quad_ranks, straight_highs, flush_suit_ranks, flush_ranks, top_five, run_ends_folded, top_one, top_two,
    top_three, kicker_pool, held_ranks, hand_score, category,
};

verus! {

proof fn lemma_small_shifts(h: u32)
    by (bit_vector)
    ensures
        (1u32 << 16u32) == 0x10000u32,
        h < 16 ==> (1u32 << h) < 0x10000u32,
        h < 16 ==> (h << 24u32) < 0x1000_0000u32,
        h < 16 ==> (h << 20u32) < 0x0100_0000u32,
{
}

proof fn lemma_or_bounds(a: u32, b: u32, k: u32)
    by (bit_vector)
    requires
        k < 32,
        a < (1u32 << k),
        b < (1u32 << k),
    ensures
        (a | b) < (1u32 << k),
        (a ^ b) < (1u32 << k),
{
}

/// The category bits: each category's constant, with a payload below 2^28
/// beneath it, stays within the category's band.
proof fn lemma_category_bits(cat: u32, x: u32)
    by (bit_vector)
    requires
        cat == 0xF000_0000u32 || cat == 0xE000_0000u32 || cat == 0x6000_0000u32 || cat
            == 0x5000_0000u32 || cat == 0x4000_0000u32 || cat == 0x3000_0000u32 || cat
            == 0x2000_0000u32 || cat == 0x1000_0000u32,
        x < 0x1000_0000u32,
    ensures
        cat <= (cat | x),
        (cat | x) <= cat + 0x0FFF_FFFFu32,
{
}

proof fn lemma_three_fields_bv(cat: u32, a: u32, b: u32, x: u32)
    by (bit_vector)
    requires
        cat == 0xF000_0000u32 || cat == 0xE000_0000u32 || cat == 0x6000_0000u32 || cat
            == 0x5000_0000u32 || cat == 0x4000_0000u32 || cat == 0x3000_0000u32 || cat
            == 0x2000_0000u32 || cat == 0x1000_0000u32,
        a < 16,
        b < 16,
        x < 0x10000u32,
    ensures
        (cat | (a << 24u32) | (b << 20u32) | x) == cat | ((a << 24u32) | (b << 20u32) | x),
        ((a << 24u32) | (b << 20u32) | x) < 0x1000_0000u32,
        (cat | (a << 24u32) | x) == cat | ((a << 24u32) | x),
        ((a << 24u32) | x) < 0x1000_0000u32,
        (cat | (a << 24u32) | (b << 20u32)) == cat | ((a << 24u32) | (b << 20u32)),
        ((a << 24u32) | (b << 20u32)) < 0x1000_0000u32,
        (cat | (a << 24u32)) == cat | (a << 24u32),
        (a << 24u32) < 0x1000_0000u32,
{
}

/// A mask over the sixteen rank bits is below 2^16.
proof fn lemma_rank_mask_small(p: spec_fn(u32) -> bool)
    ensures
        mask32(p, 16) < 0x10000,
{
    assert forall|i: u32| 16 <= i < 32 implies !#[trigger] bit32(mask32(p, 16), i) by {
        lemma_mask32_bit(p, 16, i);
    }
    lemma_bits_below(mask32(p, 16), 16);
    lemma_small_shifts(0);
}

/// The highest bit of a nonzero value below 2^16 is its `hi`.
proof fn lemma_top_small(x: u32)
    requires
        0 < x < 0x10000,
    ensures
        crate::bits::top_bit(x) < 16,
        hi(x) == crate::bits::top_bit(x),
{
    lemma_top_bit(x);
    if crate::bits::top_bit(x) >= 16 {
        lemma_bit32_high_clear(x, crate::bits::top_bit(x));
    }
}

/// Values made of picked highest bits are below 2^16.
proof fn lemma_top_picks_small(k: u32)
    ensures
        top_one(k) < 0x10000,
        top_two(k) < 0x10000,
        top_three(k) < 0x10000,
{
    lemma_small_shifts(hi(k));
    let a = top_one(k);
    let b = top_one(k ^ a);
    let c = top_one(k ^ a ^ b);
    lemma_small_shifts(hi(k ^ a));
    lemma_small_shifts(hi(k ^ a ^ b));
    lemma_or_bounds(a, b, 16);
    lemma_or_bounds(a | b, c, 16);
}

/// Dropping the lowest bit of a value below 2^16 keeps it below 2^16.
proof fn lemma_drop_lowest_small(x: u32)
    requires
        x < 0x10000,
    ensures
        drop_lowest(x) < 0x10000,
{
    if x != 0 {
        lemma_low_bit(x);
        if low_bit(x) >= 16 {
            lemma_bit32_high_clear(x, low_bit(x));
        }
        lemma_small_shifts(low_bit(x));
        lemma_or_bounds(x, single(low_bit(x)), 16);
    }
}

/// The five highest of ranks below 2^16 are below 2^16.
proof fn lemma_top_five_small(x: u32)
    requires
        x < 0x10000,
    ensures
        top_five(x) < 0x10000,
{
    lemma_drop_lowest_small(x);
    lemma_drop_lowest_small(drop_lowest(x));
}

/// The flush ranks of a hand are below 2^16.
proof fn lemma_flush_ranks_small(c: u64)
    ensures
        flush_ranks(c) < 0x10000,
{
    lemma_rank_mask_small(|r: u32| suit_has(c, 0, r));
    lemma_rank_mask_small(|r: u32| suit_has(c, 1, r));
    lemma_rank_mask_small(|r: u32| suit_has(c, 2, r));
    lemma_rank_mask_small(|r: u32| suit_has(c, 3, r));
    lemma_small_shifts(0);
    lemma_or_bounds(flush_suit_ranks(c, 0), flush_suit_ranks(c, 1), 16);
    lemma_or_bounds(flush_suit_ranks(c, 0) | flush_suit_ranks(c, 1), flush_suit_ranks(c, 2), 16);
    lemma_or_bounds(
        flush_suit_ranks(c, 0) | flush_suit_ranks(c, 1) | flush_suit_ranks(c, 2),
        flush_suit_ranks(c, 3),
        16,
    );
}

/// Where the score of a hand lies for each category: its top four bits name
/// the category (8 for a straight flush, down to 0 for high card), and the
/// lower 28 bits break ties within it.
pub proof fn lemma_score_range(c: u64)
    ensures
        category(c) == 8 ==> 0xF000_0000 <= hand_score(c),
        category(c) == 7 ==> 0xE000_0000 <= hand_score(c) <= 0xEFFF_FFFF,
        category(c) == 6 ==> 0x6000_0000 <= hand_score(c) <= 0x6FFF_FFFF,
        category(c) == 5 ==> 0x5000_0000 <= hand_score(c) <= 0x5FFF_FFFF,
        category(c) == 4 ==> 0x4000_0000 <= hand_score(c) <= 0x4FFF_FFFF,
        category(c) == 3 ==> 0x3000_0000 <= hand_score(c) <= 0x3FFF_FFFF,
        category(c) == 2 ==> 0x2000_0000 <= hand_score(c) <= 0x2FFF_FFFF,
        category(c) == 1 ==> 0x1000_0000 <= hand_score(c) <= 0x1FFF_FFFF,
        category(c) == 0 ==> hand_score(c) <= 0x0FFF_FFFF,
{
    lemma_small_shifts(0);
    let p = paired_ranks(c);
    let t = tripled_ranks(c);
    let q = quad_ranks(c);
    let cat = category(c);
    if cat == 8 {
        lemma_category_bits(0xF000_0000, hi(run_ends_folded(c)));
    } else if cat == 7 {
        let rest = present_ranks(c) ^ q;
        if rest != 0 {
            lemma_top_bit(rest);
        }
        lemma_three_fields_bv(0xE000_0000, hi(q), 0, crate::bits::bit_length(rest));
        lemma_category_bits(0xE000_0000, (hi(q) << 24u32) | crate::bits::bit_length(rest));
    } else if cat == 6 {
        let top = hi(t);
        let second = hi(p ^ single(top));
        lemma_three_fields_bv(0x6000_0000, top, second, 0);
        lemma_category_bits(0x6000_0000, (top << 24u32) | (second << 20u32));
    } else if cat == 5 {
        lemma_flush_ranks_small(c);
        lemma_top_five_small(flush_ranks(c));
        lemma_category_bits(0x5000_0000, top_five(flush_ranks(c)));
    } else if cat == 4 {
        lemma_category_bits(0x4000_0000, hi(straight_highs(c)));
    } else if cat == 3 {
        let top = hi(t);
        let k = top_two(kicker_pool(c) ^ single(top));
        lemma_top_picks_small(kicker_pool(c) ^ single(top));
        lemma_three_fields_bv(0x3000_0000, top, 0, k);
        lemma_category_bits(0x3000_0000, (top << 24u32) | k);
    } else if cat == 2 {
        let first = hi(p);
        let second = hi(p ^ single(first));
        let k = top_one(kicker_pool(c) ^ single(first) ^ single(second));
        lemma_top_picks_small(kicker_pool(c) ^ single(first) ^ single(second));
        lemma_three_fields_bv(0x2000_0000, first, second, k);
        lemma_category_bits(0x2000_0000, (first << 24u32) | (second << 20u32) | k);
    } else if cat == 1 {
        let first = hi(p);
        let k = top_three(kicker_pool(c) ^ single(first));
        lemma_top_picks_small(kicker_pool(c) ^ single(first));
        lemma_three_fields_bv(0x1000_0000, first, 0, k);
        lemma_category_bits(0x1000_0000, (first << 24u32) | k);
    } else {
        lemma_rank_mask_small(|r: u32| is_held(c, r));
        lemma_top_five_small(held_ranks(c));
    }
}

/// A better category scores higher: straight flush over four of a kind over
/// full house over flush over straight over three of a kind over two pair
/// over one pair over high card.
pub proof fn lemma_category_order(c1: u64, c2: u64)
    requires
        category(c1) > category(c2),
    ensures
        hand_score(c1) > hand_score(c2),
{
    lemma_score_range(c1);
    lemma_score_range(c2);
}

proof fn lemma_fields_order_bv(cat: u32, a1: u32, b1: u32, x1: u32, a2: u32, b2: u32, x2: u32)
    by (bit_vector)
    requires
        cat == 0xF000_0000u32 || cat == 0xE000_0000u32 || cat == 0x6000_0000u32 || cat
            == 0x5000_0000u32 || cat == 0x4000_0000u32 || cat == 0x3000_0000u32 || cat
            == 0x2000_0000u32 || cat == 0x1000_0000u32,
        a1 < 16,
        b1 < 16,
        a2 < 16,
        b2 < 16,
        x1 < 0x10000u32,
        x2 < 0x10000u32,
    ensures
        a1 > a2 ==> (cat | (a1 << 24u32) | (b1 << 20u32) | x1) > (cat | (a2 << 24u32) | (b2
            << 20u32) | x2),
        a1 == a2 && b1 > b2 ==> (cat | (a1 << 24u32) | (b1 << 20u32) | x1) > (cat | (a2 << 24u32)
            | (b2 << 20u32) | x2),
        a1 == a2 && b1 == b2 && x1 > x2 ==> (cat | (a1 << 24u32) | (b1 << 20u32) | x1) > (cat | (a2
            << 24u32) | (b2 << 20u32) | x2),
        a1 > a2 ==> (cat | (a1 << 24u32) | x1) > (cat | (a2 << 24u32) | x2),
        a1 == a2 && x1 > x2 ==> (cat | (a1 << 24u32) | x1) > (cat | (a2 << 24u32) | x2),
        a1 > a2 ==> (cat | (a1 << 24u32) | (b1 << 20u32)) > (cat | (a2 << 24u32) | (b2 << 20u32)),
        a1 == a2 && b1 > b2 ==> (cat | (a1 << 24u32) | (b1 << 20u32)) > (cat | (a2 << 24u32) | (b2
            << 20u32)),
        a1 > a2 ==> (cat | a1) > (cat | a2),
        x1 > x2 ==> (cat | x1) > (cat | x2),
{
}

/// Between two straight flushes the one with the higher top card wins.
pub proof fn lemma_straight_flush_order(c1: u64, c2: u64)
    requires
        category(c1) == 8,
        category(c2) == 8,
        hi(run_ends_folded(c1)) > hi(run_ends_folded(c2)),
    ensures
        hand_score(c1) > hand_score(c2),
{
    lemma_fields_order_bv(0xF000_0000, hi(run_ends_folded(c1)), 0, 0, hi(run_ends_folded(c2)), 0, 0);
}

/// Between two hands with four of a kind the higher quad rank wins, and with
/// equal quads the higher kicker wins.
pub proof fn lemma_quads_order(c1: u64, c2: u64)
    requires
        category(c1) == 7,
        category(c2) == 7,
        hi(quad_ranks(c1)) > hi(quad_ranks(c2)) || (hi(quad_ranks(c1)) == hi(quad_ranks(c2))
            && hi(present_ranks(c1) ^ quad_ranks(c1)) > hi(present_ranks(c2) ^ quad_ranks(c2))
            && present_ranks(c1) ^ quad_ranks(c1) != 0 && present_ranks(c2) ^ quad_ranks(c2) != 0),
    ensures
        hand_score(c1) > hand_score(c2),
{
    let r1 = present_ranks(c1) ^ quad_ranks(c1);
    let r2 = present_ranks(c2) ^ quad_ranks(c2);
    let x = crate::bits::bit_length(r1);
    let y = crate::bits::bit_length(r2);
    lemma_rank_mask_small(|r: u32| has_rank(c1, r));
    lemma_rank_mask_small(|r: u32| has_rank(c2, r));
    lemma_rank_mask_small(|r: u32| is_quad(c1, r));
    lemma_rank_mask_small(|r: u32| is_quad(c2, r));
    lemma_small_shifts(0);
    lemma_or_bounds(present_ranks(c1), quad_ranks(c1), 16);
    lemma_or_bounds(present_ranks(c2), quad_ranks(c2), 16);
    if r1 != 0 {
        lemma_top_small(r1);
    }
    if r2 != 0 {
        lemma_top_small(r2);
    }
    lemma_fields_order_bv(0xE000_0000, hi(quad_ranks(c1)), 0, x, hi(quad_ranks(c2)), 0, y);
}

/// Between two full houses the higher three of a kind wins, and with equal
/// threes the higher pair wins.
pub proof fn lemma_full_house_order(c1: u64, c2: u64)
    requires
        category(c1) == 6,
        category(c2) == 6,
        hi(tripled_ranks(c1)) > hi(tripled_ranks(c2)) || (hi(tripled_ranks(c1)) == hi(
            tripled_ranks(c2),
        ) && hi(paired_ranks(c1) ^ single(hi(tripled_ranks(c1)))) > hi(
            paired_ranks(c2) ^ single(hi(tripled_ranks(c2))),
        )),
    ensures
        hand_score(c1) > hand_score(c2),
{
    let a1 = hi(tripled_ranks(c1));
    let a2 = hi(tripled_ranks(c2));
    lemma_fields_order_bv(
        0x6000_0000,
        a1,
        hi(paired_ranks(c1) ^ single(a1)),
        0,
        a2,
        hi(paired_ranks(c2) ^ single(a2)),
        0,
    );
}

/// Between two flushes the one whose five counted ranks form the larger set,
/// read from the highest rank down, wins.
pub proof fn lemma_flush_order(c1: u64, c2: u64)
    requires
        category(c1) == 5,
        category(c2) == 5,
        top_five(flush_ranks(c1)) > top_five(flush_ranks(c2)),
    ensures
        hand_score(c1) > hand_score(c2),
{
    lemma_flush_ranks_small(c1);
    lemma_flush_ranks_small(c2);
    lemma_top_five_small(flush_ranks(c1));
    lemma_top_five_small(flush_ranks(c2));
    lemma_fields_order_bv(0x5000_0000, 0, 0, top_five(flush_ranks(c1)), 0, 0, top_five(flush_ranks(c2)));
}

/// Between two straights the one with the higher top card wins.
pub proof fn lemma_straight_order(c1: u64, c2: u64)
    requires
        category(c1) == 4,
        category(c2) == 4,
        hi(straight_highs(c1)) > hi(straight_highs(c2)),
    ensures
        hand_score(c1) > hand_score(c2),
{
    lemma_fields_order_bv(0x4000_0000, hi(straight_highs(c1)), 0, 0, hi(straight_highs(c2)), 0, 0);
}

/// The kickers of a hand with three of a kind: the ranks it holds other than
/// that of the three of a kind.
pub open spec fn trips_kickers(cards: u64) -> u32 {
    kicker_pool(cards) ^ single(hi(tripled_ranks(cards)))
}

/// Between two hands with three of a kind the higher three of a kind wins,
/// and with equal threes the better two kickers win.
pub proof fn lemma_trips_order(c1: u64, c2: u64)
    requires
        category(c1) == 3,
        category(c2) == 3,
        hi(tripled_ranks(c1)) > hi(tripled_ranks(c2)) || (hi(tripled_ranks(c1)) == hi(
            tripled_ranks(c2),
        ) && top_two(trips_kickers(c1)) > top_two(trips_kickers(c2))),
    ensures
        hand_score(c1) > hand_score(c2),
{
    lemma_top_picks_small(trips_kickers(c1));
    lemma_top_picks_small(trips_kickers(c2));
    lemma_fields_order_bv(
        0x3000_0000,
        hi(tripled_ranks(c1)),
        0,
        top_two(trips_kickers(c1)),
        hi(tripled_ranks(c2)),
        0,
        top_two(trips_kickers(c2)),
    );
}

/// Between two hands with two pair the higher top pair wins, with equal top
/// pairs the higher second pair wins, and with both equal the higher kicker.
pub proof fn lemma_two_pair_order(c1: u64, c2: u64)
    requires
        category(c1) == 2,
        category(c2) == 2,
        ({
            let f1 = hi(paired_ranks(c1));
            let f2 = hi(paired_ranks(c2));
            let s1 = hi(paired_ranks(c1) ^ single(f1));
            let s2 = hi(paired_ranks(c2) ^ single(f2));
            f1 > f2 || (f1 == f2 && s1 > s2) || (f1 == f2 && s1 == s2 && top_one(
                kicker_pool(c1) ^ single(f1) ^ single(s1),
            ) > top_one(kicker_pool(c2) ^ single(f2) ^ single(s2)))
        }),
    ensures
        hand_score(c1) > hand_score(c2),
{
    let p1 = paired_ranks(c1);
    let p2 = paired_ranks(c2);
    let f1 = hi(p1);
    let f2 = hi(p2);
    let s1 = hi(p1 ^ single(f1));
    let s2 = hi(p2 ^ single(f2));
    lemma_top_picks_small(kicker_pool(c1) ^ single(f1) ^ single(s1));
    lemma_top_picks_small(kicker_pool(c2) ^ single(f2) ^ single(s2));
    lemma_fields_order_bv(
        0x2000_0000,
        f1,
        s1,
        top_one(kicker_pool(c1) ^ single(f1) ^ single(s1)),
        f2,
        s2,
        top_one(kicker_pool(c2) ^ single(f2) ^ single(s2)),
    );
}

/// Between two hands with one pair the higher pair wins, and with equal pairs
/// the better three kickers win.
pub proof fn lemma_pair_order(c1: u64, c2: u64)
    requires
        category(c1) == 1,
        category(c2) == 1,
        hi(paired_ranks(c1)) > hi(paired_ranks(c2)) || (hi(paired_ranks(c1)) == hi(
            paired_ranks(c2),
        ) && top_three(kicker_pool(c1) ^ single(hi(paired_ranks(c1)))) > top_three(
            kicker_pool(c2) ^ single(hi(paired_ranks(c2))),
        )),
    ensures
        hand_score(c1) > hand_score(c2),
{
    let f1 = hi(paired_ranks(c1));
    let f2 = hi(paired_ranks(c2));
    lemma_top_picks_small(kicker_pool(c1) ^ single(f1));
    lemma_top_picks_small(kicker_pool(c2) ^ single(f2));
    lemma_fields_order_bv(
        0x1000_0000,
        f1,
        0,
        top_three(kicker_pool(c1) ^ single(f1)),
        f2,
        0,
        top_three(kicker_pool(c2) ^ single(f2)),
    );
}

/// Between two high-card hands only the five highest ranks count: equal five
/// highest ranks tie, and otherwise the larger set of them, read from the
/// highest rank down, wins.
pub proof fn lemma_high_card_order(c1: u64, c2: u64)
    requires
        category(c1) == 0,
        category(c2) == 0,
    ensures
        top_five(held_ranks(c1)) == top_five(held_ranks(c2)) ==> hand_score(c1) == hand_score(c2),
        top_five(held_ranks(c1)) > top_five(held_ranks(c2)) ==> hand_score(c1) > hand_score(c2),
{
}

/// `sigma` maps the four suits one to one onto themselves.
pub open spec fn is_suit_permutation(sigma: spec_fn(u64) -> u64) -> bool {
    &&& forall|s: u64| s < 4 ==> #[trigger] sigma(s) < 4
    &&& forall|s: u64, t: u64| s < 4 && t < 4 && s != t ==> #[trigger] sigma(s) != #[trigger] sigma(t)
}

/// `c2` is `c1` with its suits renamed: suit `s` of `c2` holds what suit
/// `sigma(s)` of `c1` holds.
pub open spec fn renamed_suits(c1: u64, c2: u64, sigma: spec_fn(u64) -> u64) -> bool {
    forall|s: u64| s < 4 ==> #[trigger] suit_word(c2, s) == suit_word(c1, sigma(s))
}

/// Every suit is the image of some suit.
proof fn lemma_permutation_onto(sigma: spec_fn(u64) -> u64, v: u64)
    requires
        is_suit_permutation(sigma),
        v < 4,
    ensures
        exists|s: u64| s < 4 && #[trigger] sigma(s) == v,
{
    let (a, b, c, d) = (sigma(0), sigma(1), sigma(2), sigma(3));
    assert(a < 4 && b < 4 && c < 4 && d < 4);
    assert(a != b && a != c && a != d && b != c && b != d && c != d);
    if a == v {
        assert(sigma(0) == v);
    } else if b == v {
        assert(sigma(1) == v);
    } else if c == v {
        assert(sigma(2) == v);
    } else {
        assert(sigma(3) == v);
    }
}

/// Renaming suits keeps how many suits hold each rank.
proof fn lemma_renamed_counts(c1: u64, c2: u64, sigma: spec_fn(u64) -> u64, r: u32)
    requires
        is_suit_permutation(sigma),
        renamed_suits(c1, c2, sigma),
    ensures
        rank_count(c2, r) == rank_count(c1, r),
{
    let (a, b, c, d) = (sigma(0), sigma(1), sigma(2), sigma(3));
    assert(a < 4 && b < 4 && c < 4 && d < 4);
    assert(a != b && a != c && a != d && b != c && b != d && c != d);
    assert(suit_word(c2, 0) == suit_word(c1, a));
    assert(suit_word(c2, 1) == suit_word(c1, b));
    assert(suit_word(c2, 2) == suit_word(c1, c));
    assert(suit_word(c2, 3) == suit_word(c1, d));
    let h = |s: u64| if holds(c1, s, r) { 1nat } else { 0nat };
    assert(rank_count(c1, r) == h(0) + h(1) + h(2) + h(3));
    assert(rank_count(c2, r) == h(a) + h(b) + h(c) + h(d));
}

proof fn lemma_fold_bits_bv(x: u64, i: u32)
    by (bit_vector)
    requires
        i < 32,
    ensures
        bit32((x | (x >> 32u64)) as u32, i) == (bit64(x, i as u64) || bit64(x, (i + 32) as u64)),
{
}

pub(crate) proof fn lemma_word_bit_bv(c: u64, s: u64, r: u32)
    by (bit_vector)
    requires
        s < 4,
        r < 16,
    ensures
        bit32(((c >> ((16 * s) as u64)) & 0xFFFFu64) as u32, r) == bit64(c, (16 * s + r) as u64),
{
}

pub(crate) proof fn lemma_word_high_bv(c: u64, s: u64, r: u32)
    by (bit_vector)
    requires
        s < 4,
        16 <= r < 32,
    ensures
        !bit32(((c >> ((16 * s) as u64)) & 0xFFFFu64) as u32, r),
{
}

/// Suit `s` holds ranks `r - 4 ..= r`: a straight flush in that suit ending at `r`.
pub open spec fn suit_run(cards: u64, s: u64, r: u32) -> bool {
    4 <= r && holds(cards, s, r) && holds(cards, s, (r - 1) as u32) && holds(
        cards,
        s,
        (r - 2) as u32,
    ) && holds(cards, s, (r - 3) as u32) && holds(cards, s, (r - 4) as u32)
}

/// In a well-formed hand a run of five card bits stays inside one suit.
proof fn lemma_run_in_suit(c: u64, s: u64, r: u32)
    requires
        well_formed_hand(c),
        s < 4,
        r < 16,
    ensures
        ends_run(c, (16 * s + r) as u64) == suit_run(c, s, r),
{
    let j = (16 * s + r) as u64;
    if r >= 4 {
        lemma_word_bit_bv(c, s, r);
        lemma_word_bit_bv(c, s, (r - 1) as u32);
        lemma_word_bit_bv(c, s, (r - 2) as u32);
        lemma_word_bit_bv(c, s, (r - 3) as u32);
        lemma_word_bit_bv(c, s, (r - 4) as u32);
    } else if s > 0 {
        let p = (s - 1) as u64;
        assert(!holds(c, p, 0) && !holds(c, p, 15));
        lemma_word_bit_bv(c, p, 15);
        assert((16 * p + 15) as u64 == (j - (r + 1)) as u64);
    }
}

/// Bit `i` of the folded run ends: below 16, a straight flush ending at rank
/// `i` in suit 0 or 2; from 16 on, one ending at rank `i - 16` in suit 1 or 3.
proof fn lemma_folded_runs_bit(c: u64, i: u32)
    requires
        well_formed_hand(c),
        i < 32,
    ensures
        bit32(run_ends_folded(c), i) == (if i < 16 {
            suit_run(c, 0, i) || suit_run(c, 2, i)
        } else {
            suit_run(c, 1, (i - 16) as u32) || suit_run(c, 3, (i - 16) as u32)
        }),
{
    lemma_fold_bits_bv(run_ends(c), i);
    lemma_mask64_bit(|j: u64| ends_run(c, j), 64, i as u64);
    lemma_mask64_bit(|j: u64| ends_run(c, j), 64, (i + 32) as u64);
    if i < 16 {
        lemma_run_in_suit(c, 0, i);
        lemma_run_in_suit(c, 2, i);
    } else {
        lemma_run_in_suit(c, 1, (i - 16) as u32);
        lemma_run_in_suit(c, 3, (i - 16) as u32);
    }
}

/// The ranks that end a straight flush in some suit.
pub open spec fn straight_flush_ranks(cards: u64) -> u32 {
    mask32(
        |r: u32|
            suit_run(cards, 0, r) || suit_run(cards, 1, r) || suit_run(cards, 2, r) || suit_run(
                cards,
                3,
                r,
            ),
        16,
    )
}

/// At most one suit holds a straight flush, as in any hand of seven cards.
pub open spec fn one_straight_flush_suit(cards: u64) -> bool {
    forall|s: u64, t: u64, r1: u32, r2: u32|
        s < 4 && t < 4 && r1 < 16 && r2 < 16 && #[trigger] suit_run(cards, s, r1)
            && #[trigger] suit_run(cards, t, r2) ==> s == t
}

/// No rank bit at 16 or above ends a run in a suit.
proof fn lemma_suit_run_small(c: u64, s: u64, r: u32)
    requires
        s < 4,
        16 <= r < 32,
    ensures
        !suit_run(c, s, r),
{
    lemma_word_high_bv(c, s, r);
}

proof fn lemma_shift_16_bv(w: u32, i: u32)
    by (bit_vector)
    requires
        i < 32,
    ensures
        bit32(w << 16u32, i) == (i >= 16 && bit32(w, (i - 16) as u32)),
{
}

/// With straight flushes in at most one suit, the folded run ends are
/// nonzero exactly when some suit holds a straight flush, and then their
/// `hi` is the top straight-flush rank.
proof fn lemma_folded_runs(c: u64)
    requires
        well_formed_hand(c),
        one_straight_flush_suit(c),
    ensures
        (run_ends_folded(c) != 0) == (straight_flush_ranks(c) != 0),
        run_ends_folded(c) != 0 ==> hi(run_ends_folded(c)) == hi(straight_flush_ranks(c)),
{
    let f = run_ends_folded(c);
    let w = straight_flush_ranks(c);
    let p = |r: u32|
        suit_run(c, 0, r) || suit_run(c, 1, r) || suit_run(c, 2, r) || suit_run(c, 3, r);
    assert forall|r: u32| r < 32 implies #[trigger] bit32(w, r) == (r < 16 && p(r)) by {
        lemma_mask32_bit(p, 16, r);
    }
    lemma_rank_mask_small(p);
    if exists|s: u64, r: u32| s < 4 && r < 16 && #[trigger] suit_run(c, s, r) {
        let (s0, r0) = choose|s: u64, r: u32| s < 4 && r < 16 && #[trigger] suit_run(c, s, r);
        assert(bit32(w, r0));
        if w == 0 {
            crate::bits::lemma_bit32_zero(r0);
        }
        assert forall|t: u64, r: u32| t < 4 && t != s0 && r < 16 implies !#[trigger] suit_run(
            c,
            t,
            r,
        ) by {
            if suit_run(c, t, r) {
                assert(suit_run(c, s0, r0));
            }
        }
        if s0 == 0 || s0 == 2 {
            assert forall|i: u32| i < 32 implies #[trigger] bit32(f, i) == bit32(w, i) by {
                lemma_folded_runs_bit(c, i);
                if i >= 16 {
                    lemma_suit_run_small(c, s0, i);
                }
            }
            lemma_bit32_ext(f, w);
        } else {
            let y = w << 16u32;
            assert forall|i: u32| i < 32 implies #[trigger] bit32(f, i) == bit32(y, i) by {
                lemma_folded_runs_bit(c, i);
                lemma_shift_16_bv(w, i);
                if i < 16 {
                    assert(!suit_run(c, 0, i) && !suit_run(c, 2, i));
                } else {
                    assert(bit32(w, (i - 16) as u32) == suit_run(c, s0, (i - 16) as u32));
                }
            }
            lemma_bit32_ext(f, y);
            lemma_top_small(w);
            lemma_top_bit(w);
            let t = crate::bits::top_bit(w);
            let t16 = (t + 16) as u32;
            lemma_shift_16_bv(w, t16);
            assert forall|j: u32| t16 < j < 32 implies !#[trigger] bit32(y, j) by {
                lemma_shift_16_bv(w, j);
            }
            crate::bits::lemma_top_below_is(y, 32, t16);
            if y == 0 {
                crate::bits::lemma_bit32_zero(t16);
            }
        }
    } else {
        assert forall|i: u32| i < 32 implies #[trigger] bit32(f, i) == bit32(0u32, i) by {
            lemma_folded_runs_bit(c, i);
            crate::bits::lemma_bit32_zero(i);
            if i < 16 {
                assert(!suit_run(c, 0, i) && !suit_run(c, 2, i));
            } else {
                assert(!suit_run(c, 1, (i - 16) as u32) && !suit_run(c, 3, (i - 16) as u32));
            }
        }
        lemma_bit32_ext(f, 0);
        assert forall|i: u32| i < 32 implies #[trigger] bit32(w, i) == bit32(0u32, i) by {
            crate::bits::lemma_bit32_zero(i);
            if i < 16 {
                assert(!suit_run(c, 0, i) && !suit_run(c, 1, i) && !suit_run(c, 2, i)
                    && !suit_run(c, 3, i));
            }
        }
        lemma_bit32_ext(w, 0);
    }
}

/// Renaming the suits of a well-formed hand keeps it well formed, keeps its
/// straight-flush ranks, and keeps straight flushes to at most one suit.
proof fn lemma_renamed_runs(c1: u64, c2: u64, sigma: spec_fn(u64) -> u64)
    requires
        is_suit_permutation(sigma),
        renamed_suits(c1, c2, sigma),
        well_formed_hand(c1),
        one_straight_flush_suit(c1),
    ensures
        well_formed_hand(c2),
        one_straight_flush_suit(c2),
        straight_flush_ranks(c2) == straight_flush_ranks(c1),
{
    assert forall|s: u64| s < 4 implies !#[trigger] holds(c2, s, 0) && !holds(c2, s, 15) && holds(
        c2,
        s,
        1,
    ) == holds(c2, s, 14) by {
        assert(suit_word(c2, s) == suit_word(c1, sigma(s)));
        assert(sigma(s) < 4);
        assert(!holds(c1, sigma(s), 0));
    }
    assert(well_formed_hand(c2));
    assert forall|s: u64, r: u32| s < 4 implies #[trigger] suit_run(c2, s, r) == suit_run(
        c1,
        sigma(s),
        r,
    ) by {
        assert(suit_word(c2, s) == suit_word(c1, sigma(s)));
    }
    assert forall|s: u64, t: u64, r1: u32, r2: u32|
        s < 4 && t < 4 && r1 < 16 && r2 < 16 && #[trigger] suit_run(c2, s, r1) && #[trigger] suit_run(
            c2,
            t,
            r2,
        ) implies s == t by {
        assert(suit_run(c1, sigma(s), r1) && suit_run(c1, sigma(t), r2));
        assert(sigma(s) < 4 && sigma(t) < 4);
    }
    assert forall|r: u32| #[trigger] suit_run(c1, 0, r) || suit_run(c1, 1, r) || suit_run(c1, 2, r)
        || suit_run(c1, 3, r) implies suit_run(c2, 0, r) || suit_run(c2, 1, r) || suit_run(c2, 2, r)
        || suit_run(c2, 3, r) by {
        lemma_permutation_onto(sigma, 0);
        lemma_permutation_onto(sigma, 1);
        lemma_permutation_onto(sigma, 2);
        lemma_permutation_onto(sigma, 3);
        let s0 = choose|s: u64| s < 4 && #[trigger] sigma(s) == 0;
        let s1 = choose|s: u64| s < 4 && #[trigger] sigma(s) == 1;
        let s2 = choose|s: u64| s < 4 && #[trigger] sigma(s) == 2;
        let s3 = choose|s: u64| s < 4 && #[trigger] sigma(s) == 3;
        assert(suit_run(c2, s0, r) == suit_run(c1, 0, r));
        assert(suit_run(c2, s1, r) == suit_run(c1, 1, r));
        assert(suit_run(c2, s2, r) == suit_run(c1, 2, r));
        assert(suit_run(c2, s3, r) == suit_run(c1, 3, r));
    }
    assert forall|r: u32| #[trigger] suit_run(c2, 0, r) || suit_run(c2, 1, r) || suit_run(c2, 2, r)
        || suit_run(c2, 3, r) implies suit_run(c1, 0, r) || suit_run(c1, 1, r) || suit_run(c1, 2, r)
        || suit_run(c1, 3, r) by {
        assert(sigma(0) < 4 && sigma(1) < 4 && sigma(2) < 4 && sigma(3) < 4);
        assert(suit_run(c2, 0, r) == suit_run(c1, sigma(0), r));
        assert(suit_run(c2, 1, r) == suit_run(c1, sigma(1), r));
        assert(suit_run(c2, 2, r) == suit_run(c1, sigma(2), r));
        assert(suit_run(c2, 3, r) == suit_run(c1, sigma(3), r));
    }
    assert((|r: u32|
        suit_run(c2, 0, r) || suit_run(c2, 1, r) || suit_run(c2, 2, r) || suit_run(c2, 3, r))
        =~= (|r: u32|
        suit_run(c1, 0, r) || suit_run(c1, 1, r) || suit_run(c1, 2, r) || suit_run(c1, 3, r)));
}

/// Renaming suits keeps the flush ranks.
proof fn lemma_renamed_flush(c1: u64, c2: u64, sigma: spec_fn(u64) -> u64)
    requires
        is_suit_permutation(sigma),
        renamed_suits(c1, c2, sigma),
    ensures
        flush_ranks(c2) == flush_ranks(c1),
{
    assert forall|s: u64| s < 4 implies #[trigger] flush_suit_ranks(c2, s) == flush_suit_ranks(
        c1,
        sigma(s),
    ) by {
        assert(suit_word(c2, s) == suit_word(c1, sigma(s)));
        assert((|r: u32| suit_has(c2, s, r)) =~= (|r: u32| suit_has(c1, sigma(s), r)));
    }
    let f1 = flush_ranks(c1);
    let f2 = flush_ranks(c2);
    assert forall|i: u32| i < 32 implies #[trigger] bit32(f2, i) == bit32(f1, i) by {
        let g1 = |s: u64| flush_suit_ranks(c1, s);
        lemma_bit32_or(g1(0) | g1(1) | g1(2), g1(3), i);
        lemma_bit32_or(g1(0) | g1(1), g1(2), i);
        lemma_bit32_or(g1(0), g1(1), i);
        let g2 = |s: u64| flush_suit_ranks(c2, s);
        lemma_bit32_or(g2(0) | g2(1) | g2(2), g2(3), i);
        lemma_bit32_or(g2(0) | g2(1), g2(2), i);
        lemma_bit32_or(g2(0), g2(1), i);
        assert(sigma(0) < 4 && sigma(1) < 4 && sigma(2) < 4 && sigma(3) < 4);
        assert(flush_suit_ranks(c2, 0) == flush_suit_ranks(c1, sigma(0)));
        assert(flush_suit_ranks(c2, 1) == flush_suit_ranks(c1, sigma(1)));
        assert(flush_suit_ranks(c2, 2) == flush_suit_ranks(c1, sigma(2)));
        assert(flush_suit_ranks(c2, 3) == flush_suit_ranks(c1, sigma(3)));
        lemma_permutation_onto(sigma, 0);
        lemma_permutation_onto(sigma, 1);
        lemma_permutation_onto(sigma, 2);
        lemma_permutation_onto(sigma, 3);
        assert(sigma(0) != sigma(1) && sigma(0) != sigma(2) && sigma(0) != sigma(3));
        assert(sigma(1) != sigma(2) && sigma(1) != sigma(3) && sigma(2) != sigma(3));
    }
    lemma_bit32_ext(f2, f1);
}

/// No suit outranks another: renaming the suits of a well-formed hand (as
/// the card set of real cards is) with straight flushes in at most one suit
/// (as in any hand of seven cards) leaves its score unchanged.
pub proof fn lemma_suit_renaming(c1: u64, c2: u64, sigma: spec_fn(u64) -> u64)
    requires
        is_suit_permutation(sigma),
        renamed_suits(c1, c2, sigma),
        well_formed_hand(c1),
        one_straight_flush_suit(c1),
    ensures
        hand_score(c2) == hand_score(c1),
{
    assert forall|r: u32| #[trigger] rank_count(c2, r) == rank_count(c1, r) by {
        lemma_renamed_counts(c1, c2, sigma, r);
    }
    assert((|r: u32| has_rank(c2, r)) =~= (|r: u32| has_rank(c1, r)));
    assert((|r: u32| is_held(c2, r)) =~= (|r: u32| is_held(c1, r)));
    assert((|r: u32| is_paired(c2, r)) =~= (|r: u32| is_paired(c1, r)));
    assert((|r: u32| is_tripled(c2, r)) =~= (|r: u32| is_tripled(c1, r)));
    assert((|r: u32| is_quad(c2, r)) =~= (|r: u32| is_quad(c1, r)));
    assert((|r: u32| ends_straight(c2, r)) =~= (|r: u32| ends_straight(c1, r)));
    lemma_renamed_runs(c1, c2, sigma);
    lemma_folded_runs(c1);
    lemma_folded_runs(c2);
    lemma_renamed_flush(c1, c2, sigma);
}

/// A value with at least two set bits below `n` has one other than `t`.
proof fn lemma_pop_other_bit(x: u32, n: nat, t: u32)
    requires
        n <= 32,
        crate::bits::pop_below(x, n) >= 2,
    ensures
        exists|j: u32| j < n && j != t && #[trigger] bit32(x, j),
    decreases n,
{
    if n > 0 {
        let k = (n - 1) as u32;
        if bit32(x, k) && k != t {
            assert(bit32(x, k));
        } else if !bit32(x, k) {
            lemma_pop_other_bit(x, (n - 1) as nat, t);
        } else {
            lemma_pop_some_bit(x, (n - 1) as nat);
            let j = choose|j: u32| j < n - 1 && #[trigger] bit32(x, j);
            assert(j != t);
        }
    }
}

/// A value with a set bit below `n` counted has one.
proof fn lemma_pop_some_bit(x: u32, n: nat)
    requires
        n <= 32,
        crate::bits::pop_below(x, n) >= 1,
    ensures
        exists|j: u32| j < n && #[trigger] bit32(x, j),
    decreases n,
{
    if n > 0 {
        if !bit32(x, (n - 1) as u32) {
            lemma_pop_some_bit(x, (n - 1) as nat);
        }
    }
}

/// The top pair of a hand: its highest paired rank.
pub open spec fn top_pair(cards: u64) -> u32 {
    hi(paired_ranks(cards))
}

/// The second pair of a hand: its highest paired rank below the top pair.
pub open spec fn second_pair(cards: u64) -> u32 {
    hi(paired_ranks(cards) ^ single(top_pair(cards)))
}

/// The ranks a hand holds other than its top two pairs (a third pair's rank
/// among them).
pub open spec fn ranks_beside_pairs(cards: u64) -> u32 {
    mask32(
        |r: u32| is_held(cards, r) && r != top_pair(cards) && r != second_pair(cards),
        16,
    )
}

proof fn lemma_single_order_bv(a: u32, b: u32)
    by (bit_vector)
    requires
        a < 16,
        b < 16,
    ensures
        a > b ==> (1u32 << a) > (1u32 << b),
        (1u32 << a) < 0x10000u32,
{
}

/// The kicker of a two-pair hand is the highest rank it holds beside its two
/// top pairs.
proof fn lemma_two_pair_kicker_field(c: u64)
    requires
        well_formed_hand(c),
        category(c) == 2,
        ranks_beside_pairs(c) != 0,
    ensures
        hand_score(c) == crate::score::TWO_PAIR | (top_pair(c) << 24u32) | (second_pair(c)
            << 20u32) | single(hi(ranks_beside_pairs(c))),
        hi(ranks_beside_pairs(c)) < 16,
{
    let p = paired_ranks(c);
    let f = top_pair(c);
    let s = second_pair(c);
    let out = ranks_beside_pairs(c);
    let k = kicker_pool(c) ^ single(f) ^ single(s);
    let pr = present_ranks(c);
    crate::bits::lemma_pop_zero(32);
    lemma_rank_mask_small(|r: u32| is_paired(c, r));
    lemma_rank_mask_small(|r: u32| has_rank(c, r));
    lemma_rank_mask_small(|r: u32| is_held(c, r) && r != f && r != s);
    assert(!crate::score::holds(c, 0, 0) && !crate::score::holds(c, 1, 0)
        && !crate::score::holds(c, 2, 0) && !crate::score::holds(c, 3, 0));
    if p == 0 {
        assert(crate::bits::pop_below(0u32, 32) == 0);
    }
    lemma_top_small(p);
    lemma_top_bit(p);
    lemma_pop_other_bit(p, 32, f);
    let j0 = choose|j: u32| j < 32 && j != f && #[trigger] bit32(p, j);
    crate::bits::lemma_bit32_xor(p, single(f), j0);
    crate::bits::lemma_bit32_single(f, j0);
    let p2 = p ^ single(f);
    if p2 == 0 {
        crate::bits::lemma_bit32_zero(j0);
    }
    lemma_small_shifts(f);
    lemma_or_bounds(p, single(f), 16);
    lemma_top_small(p2);
    lemma_top_bit(p2);
    crate::bits::lemma_bit32_xor(p, single(f), s);
    crate::bits::lemma_bit32_single(f, s);
    crate::bits::lemma_bit32_single(f, f);
    crate::bits::lemma_bit32_xor(p, single(f), f);
    lemma_mask32_bit(|r: u32| is_paired(c, r), 16, f);
    lemma_mask32_bit(|r: u32| is_paired(c, r), 16, s);
    assert(f != s && f >= 2 && s >= 2);
    let po = |r: u32| is_held(c, r) && r != f && r != s;
    assert forall|i: u32| 2 <= i < 32 implies #[trigger] bit32(k, i) == bit32(out, i) by {
        crate::bits::lemma_bit32_xor(kicker_pool(c) ^ single(f), single(s), i);
        crate::bits::lemma_bit32_xor(kicker_pool(c), single(f), i);
        crate::bits::lemma_bit32_xor(pr, 2, i);
        crate::bits::lemma_bit32_single(f, i);
        crate::bits::lemma_bit32_single(s, i);
        crate::bits::lemma_bit32_single(1, i);
        lemma_mask32_bit(|r: u32| has_rank(c, r), 16, i);
        lemma_mask32_bit(po, 16, i);
        assert(single(1) == 2u32) by (bit_vector);
    }
    lemma_mask32_bit(po, 16, 0);
    lemma_mask32_bit(po, 16, 1);
    lemma_top_small(out);
    lemma_top_bit(out);
    let t = crate::bits::top_bit(out);
    assert(t >= 2);
    assert forall|i: u32| t < i < 32 implies !#[trigger] bit32(k, i) by {}
    crate::bits::lemma_top_below_is(k, 32, t);
    if k == 0 {
        crate::bits::lemma_bit32_zero(t);
    }
}

/// Between two-pair hands with the same two top pairs, the one holding the
/// higher rank beside those pairs (a third pair's rank counts) scores higher,
/// and they tie exactly when those highest ranks are equal.
pub proof fn lemma_two_pair_kicker(c1: u64, c2: u64)
    requires
        well_formed_hand(c1),
        well_formed_hand(c2),
        category(c1) == 2,
        category(c2) == 2,
        top_pair(c1) == top_pair(c2),
        second_pair(c1) == second_pair(c2),
        ranks_beside_pairs(c1) != 0,
        ranks_beside_pairs(c2) != 0,
    ensures
        (hand_score(c1) > hand_score(c2)) == (hi(ranks_beside_pairs(c1)) > hi(
            ranks_beside_pairs(c2),
        )),
        (hand_score(c1) == hand_score(c2)) == (hi(ranks_beside_pairs(c1)) == hi(
            ranks_beside_pairs(c2),
        )),
{
    lemma_two_pair_kicker_field(c1);
    lemma_two_pair_kicker_field(c2);
    let a = hi(ranks_beside_pairs(c1));
    let b = hi(ranks_beside_pairs(c2));
    let f = top_pair(c1);
    let s = second_pair(c1);
    lemma_single_order_bv(a, b);
    lemma_single_order_bv(b, a);
    lemma_fields_order_bv(0x2000_0000, f, s, single(a), f, s, single(b));
    lemma_fields_order_bv(0x2000_0000, f, s, single(b), f, s, single(a));
    if a != b {
        assert(single(a) != single(b));
    }
}

} // verus!
