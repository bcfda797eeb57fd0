//! Dealing and tallying for the Monte Carlo equity estimate: the card set of a
//! seven-card hand, the cards that may still be dealt, the turning of random
//! bytes into cards, and the share of the pot that the player wins.
use vstd::prelude::*;
use crate::bits::{
    bit32, bit64, mask64, lemma_mask64_bit, lemma_bit64_or, lemma_bit64_single,
    lemma_bit64_zero, lemma_bit64_and, lemma_mask64_of_bits,
};
use crate::card::{Card, Rank, Suit, is_card_byte};
use crate::hand::Hand;
use crate::score::{hand_score, holds, well_formed_hand};

verus! {

/// Card byte `v` marks card bit `j`: its own bit, and for an ace also the
/// low-ace bit of its suit.
pub open spec fn marks(v: u8, j: u64) -> bool {
    j == v as u64 || (v & 0x0Fu8 == 14u8 && j == (v ^ 0x0Fu8) as u64)
}

/// Some card among `cards` marks card bit `j`.
pub open spec fn marked_by(cards: Seq<u8>, j: u64) -> bool {
    exists|k: int| 0 <= k < cards.len() && #[trigger] marks(cards[k], j)
}

/// The card set of a hand: every bit that one of its cards marks, except bit 0.
pub open spec fn hand_bits(cards: Seq<u8>) -> u64 {
    mask64(|j: u64| j != 0 && marked_by(cards, j), 64)
}

/// The bytes of a sequence of cards.
pub open spec fn card_bytes(cards: Seq<Card>) -> Seq<u8> {
    cards.map_values(|c: Card| c@)
}

proof fn lemma_byte_facts(v: u8, b: u8)
    by (bit_vector)
    ensures
        v & 0xC0u8 == 0u8 ==> v < 64 && (v ^ 0x0Fu8) < 64,
        v < 64 ==> (v ^ 0x0Fu8) < 64,
        v < 64 ==> v == (v & 0x0Fu8) | (v & 0x30u8),
        v < 64 ==> v & 0xC0u8 == 0u8,
        v < 64 ==> v & 0x3Fu8 == v,
        (v & 0x0Fu8) as u64 == (v as u64) & 0x0Fu64,
        (b & 0x3Fu8) < 64,
        v < 64 ==> (v ^ 0x0Fu8) as int == (v & 0x30u8) as int + 15 - (v & 0x0Fu8) as int,
        v < 64 ==> v as int == (v & 0x30u8) as int + (v & 0x0Fu8) as int,
        v & 0x30u8 == 0u8 || v & 0x30u8 == 0x10u8 || v & 0x30u8 == 0x20u8 || v & 0x30u8 == 0x30u8,
        v & 0x0Fu8 < 16,
{
}

proof fn lemma_word_bit(c: u64, k: u64, r: u32)
    by (bit_vector)
    requires
        r < 16,
        k < 49,
    ensures
        bit32((((c >> k) & 0xFFFFu64) as u32), r) == bit64(c, (k + r as u64) as u64),
{
}

proof fn lemma_deck_facts(available: u64, used: u64, i: u64)
    by (bit_vector)
    ensures
        (0x7FFC_7FFC_7FFC_7FFCu64 & !used) & !0x7FFC_7FFC_7FFC_7FFCu64 == 0,
        i < 64 ==> available & !0x7FFC_7FFC_7FFC_7FFCu64 == 0 ==> bit64(available, i) ==> bit64(
            0x7FFC_7FFC_7FFC_7FFCu64,
            i,
        ),
        i < 64 ==> bit64(0x7FFC_7FFC_7FFC_7FFCu64, i) == (2 <= (i & 0x0F) && (i & 0x0F) <= 14),
        i < 64 ==> bit64(0xFFFF_FFFF_FFFF_FFFEu64, i) == (i != 0),
        !bit64(0x7FFC_7FFC_7FFC_7FFCu64, 0),
{
}

proof fn lemma_mark_bits(v: u8, j: u64)
    requires
        v < 64,
        j < 64,
    ensures
        bit64((1u64 << v as u64) | (if v & 0x0Fu8 == 14u8 {
            1u64 << (v ^ 0x0Fu8) as u64
        } else {
            0u64
        }), j) == marks(v, j),
{
    let own = 1u64 << v as u64;
    lemma_byte_facts(v, 0);
    let low = if v & 0x0Fu8 == 14u8 {
        1u64 << (v ^ 0x0Fu8) as u64
    } else {
        0u64
    };
    lemma_bit64_or(own, low, j);
    lemma_bit64_single(v as u64, j);
    if v & 0x0Fu8 == 14u8 {
        lemma_bit64_single((v ^ 0x0Fu8) as u64, j);
    } else {
        lemma_bit64_zero(j);
    }
}

/// The 64-bit card set of a seven-card hand.
pub fn hand_arr_to_u64(cards: &[Card; 7]) -> (hand: u64)
    ensures
        hand == hand_bits(card_bytes(cards@)),
{
    let ghost bytes = card_bytes(cards@);
    let mut hand_u64: u64 = 0;
    let mut i: usize = 0;
    assert forall|j: u64| j < 64 implies #[trigger] bit64(hand_u64, j) == marked_by(
        bytes.subrange(0, 0),
        j,
    ) by {
        lemma_bit64_zero(j);
    }
    while i < 7
        invariant
            i <= 7,
            bytes == card_bytes(cards@),
            bytes.len() == 7,
            forall|j: u64|
                j < 64 ==> #[trigger] bit64(hand_u64, j) == marked_by(bytes.subrange(0, i as int), j),
        decreases 7 - i,
    {
        let card_val = cards[i].byte();
        proof {
            lemma_byte_facts(card_val, 0);
        }
        let low_ace = if (card_val & 0x0F) == 14 {
            1u64 << ((card_val ^ 0x0F) as u64)
        } else {
            0
        };
        let mark = (1u64 << (card_val as u64)) | low_ace;
        let ghost old_hand = hand_u64;
        hand_u64 = hand_u64 | mark;
        assert forall|j: u64| j < 64 implies #[trigger] bit64(hand_u64, j) == marked_by(
            bytes.subrange(0, i + 1),
            j,
        ) by {
            lemma_bit64_or(old_hand, mark, j);
            lemma_mark_bits(card_val, j);
            let pre = bytes.subrange(0, i as int);
            let post = bytes.subrange(0, i + 1);
            assert(post[i as int] == card_val);
            if marked_by(post, j) {
                let k = choose|k: int| 0 <= k < post.len() && #[trigger] marks(post[k], j);
                if k < i {
                    assert(pre[k] == post[k]);
                }
            }
            if marked_by(pre, j) {
                let k = choose|k: int| 0 <= k < pre.len() && #[trigger] marks(pre[k], j);
                assert(pre[k] == post[k]);
            }
        }
        i = i + 1;
    }
    let result = hand_u64 & 0xFFFF_FFFF_FFFF_FFFE;
    assert(bytes.subrange(0, 7) == bytes);
    assert forall|j: u64| j < 64 implies #[trigger] bit64(result, j) == (j < 64 && (j != 0
        && marked_by(bytes, j))) by {
        lemma_bit64_and(hand_u64, 0xFFFF_FFFF_FFFF_FFFEu64, j);
        lemma_deck_facts(0, 0, j);
    }
    proof {
        lemma_mask64_of_bits(result, |j: u64| j != 0 && marked_by(bytes, j), 64);
    }
    result
}



/// The card set of real cards is a well-formed hand: no bit 0 or 15 in any
/// suit, and the low-ace bit of a suit set exactly when its ace is held.
pub proof fn lemma_hand_bits_well_formed(bytes: Seq<u8>)
    requires
        forall|k: int| 0 <= k < bytes.len() ==> is_card_byte(#[trigger] bytes[k]),
    ensures
        well_formed_hand(hand_bits(bytes)),
{
    let c = hand_bits(bytes);
    let p = |j: u64| j != 0 && marked_by(bytes, j);
    assert forall|s: u64| s < 4 implies !#[trigger] holds(c, s, 0) && !holds(c, s, 15) && holds(
        c,
        s,
        1,
    ) == holds(c, s, 14) by {
        let base = (16 * s) as u64;
        lemma_word_bit(c, base, 0);
        lemma_word_bit(c, base, 15);
        lemma_word_bit(c, base, 1);
        lemma_word_bit(c, base, 14);
        lemma_mask64_bit(p, 64, base);
        lemma_mask64_bit(p, 64, (base + 15) as u64);
        lemma_mask64_bit(p, 64, (base + 1) as u64);
        lemma_mask64_bit(p, 64, (base + 14) as u64);
        assert forall|k: int| 0 <= k < bytes.len() implies {
            let v = #[trigger] bytes[k];
            &&& !marks(v, base)
            &&& !marks(v, (base + 15) as u64)
            &&& marks(v, (base + 1) as u64) == (v as u64 == base + 14)
            &&& marks(v, (base + 14) as u64) == (v as u64 == base + 14)
        } by {
            let v = bytes[k];
            assert(is_card_byte(v));
            lemma_byte_facts(v, 0);
        }
        if marked_by(bytes, base) {
            let k = choose|k: int| 0 <= k < bytes.len() && #[trigger] marks(bytes[k], base);
        }
        if marked_by(bytes, (base + 15) as u64) {
            let k = choose|k: int|
                0 <= k < bytes.len() && #[trigger] marks(bytes[k], (base + 15) as u64);
        }
        if marked_by(bytes, (base + 1) as u64) {
            let k = choose|k: int|
                0 <= k < bytes.len() && #[trigger] marks(bytes[k], (base + 1) as u64);
            assert(marks(bytes[k], (base + 14) as u64));
        }
        if marked_by(bytes, (base + 14) as u64) {
            let k = choose|k: int|
                0 <= k < bytes.len() && #[trigger] marks(bytes[k], (base + 14) as u64);
            assert(marks(bytes[k], (base + 1) as u64));
        }
    }
}

/// The card set of a hand depends only on which cards it holds, not on their
/// order or repetition.
pub proof fn lemma_hand_bits_same_cards(a: Seq<u8>, b: Seq<u8>)
    requires
        forall|v: u8| a.contains(v) <==> b.contains(v),
    ensures
        hand_bits(a) == hand_bits(b),
{
    assert forall|j: u64| marked_by(a, j) == marked_by(b, j) by {
        if marked_by(a, j) {
            let k = choose|k: int| 0 <= k < a.len() && #[trigger] marks(a[k], j);
            assert(a.contains(a[k]));
            let m = choose|m: int| 0 <= m < b.len() && b[m] == a[k];
            assert(marks(b[m], j));
        }
        if marked_by(b, j) {
            let k = choose|k: int| 0 <= k < b.len() && #[trigger] marks(b[k], j);
            assert(b.contains(b[k]));
            let m = choose|m: int| 0 <= m < a.len() && a[m] == b[k];
            assert(marks(a[m], j));
        }
    }
    assert((|j: u64| j != 0 && marked_by(a, j)) =~= (|j: u64| j != 0 && marked_by(b, j)));
}

proof fn lemma_byte_arith_bv(v: u8)
    by (bit_vector)
    requires
        v < 64,
    ensures
        (v & 0x0Fu8) == v % 16,
        (v ^ 0x0Fu8) == (v / 16) * 16 + 15 - v % 16,
{
}

/// Card byte `v` marks bit `16 * s + r`: the card is of suit `s`, and `r` is
/// its rank, or 1 for an ace.
proof fn lemma_marks_arith(v: u8, s: u64, r: u64)
    requires
        v < 64,
        s < 4,
        r < 16,
    ensures
        marks(v, (16 * s + r) as u64) == (v / 16 == s && (r == v % 16 || (v % 16 == 14 && r == 1))),
{
    lemma_byte_arith_bv(v);
}

/// The card byte that marks bit `b` of suit `s`: the card itself, or the
/// suit's ace for the low-ace bit.
pub open spec fn marking_card(s: u64, b: u32) -> int {
    16 * s + if b == 1 {
        14
    } else {
        b as int
    }
}

/// A bit of suit `s` set in the card set of real cards comes from the card
/// that marks it.
proof fn lemma_held_card(x: Seq<u8>, s: u64, b: u32)
    requires
        forall|k: int| 0 <= k < x.len() ==> is_card_byte(#[trigger] x[k]),
        s < 4,
        b < 16,
        crate::score::holds(hand_bits(x), s, b),
    ensures
        exists|k: int| 0 <= k < x.len() && x[k] as int == marking_card(s, b),
{
    let c = hand_bits(x);
    let j = (16 * s + b) as u64;
    crate::laws::lemma_word_bit_bv(c, s, b);
    lemma_mask64_bit(|j: u64| j != 0 && marked_by(x, j), 64, j);
    assert(bit64(c, j));
    assert(marked_by(x, j));
    let k = choose|k: int| 0 <= k < x.len() && #[trigger] marks(x[k], j);
    let v = x[k];
    assert(is_card_byte(v));
    crate::card::lemma_card_byte_small(v);
    lemma_marks_arith(v, s, b as u64);
    lemma_byte_arith_bv(v);
    assert(v % 16 != 1);
    assert(v as int == 16 * (v / 16) + v % 16);
    assert(x[k] as int == marking_card(s, b));
}

/// Seven cards hold straight flushes in at most one suit: two would take ten
/// different cards.
pub proof fn lemma_seven_cards_one_straight_flush_suit(x: Seq<u8>)
    requires
        x.len() <= 7,
        forall|k: int| 0 <= k < x.len() ==> is_card_byte(#[trigger] x[k]),
    ensures
        crate::laws::one_straight_flush_suit(hand_bits(x)),
{
    let c = hand_bits(x);
    assert forall|s: u64, t: u64, r1: u32, r2: u32|
        s < 4 && t < 4 && r1 < 16 && r2 < 16 && #[trigger] crate::laws::suit_run(c, s, r1)
            && #[trigger] crate::laws::suit_run(c, t, r2) implies s == t by {
        if s != t {
            let ten: Seq<int> = seq![
                marking_card(s, r1), marking_card(s, (r1 - 1) as u32),
                marking_card(s, (r1 - 2) as u32), marking_card(s, (r1 - 3) as u32),
                marking_card(s, (r1 - 4) as u32), marking_card(t, r2),
                marking_card(t, (r2 - 1) as u32), marking_card(t, (r2 - 2) as u32),
                marking_card(t, (r2 - 3) as u32), marking_card(t, (r2 - 4) as u32),
            ];
            let ints: Seq<int> = x.map_values(|v: u8| v as int);
            assert forall|m: int| 0 <= m < 10 implies ints.contains(#[trigger] ten[m]) by {
                let (su, b) = if m < 5 {
                    (s, (r1 - m) as u32)
                } else {
                    (t, (r2 - (m - 5)) as u32)
                };
                lemma_held_card(x, su, b);
                let k = choose|k: int| 0 <= k < x.len() && x[k] as int == marking_card(su, b);
                assert(ints[k] == ten[m]);
            }
            assert(ten.no_duplicates());
            ten.unique_seq_to_set();
            ints.lemma_cardinality_of_set();
            assert(ten.to_set().subset_of(ints.to_set()));
            vstd::seq_lib::seq_to_set_is_finite(ints);
            vstd::set_lib::lemma_len_subset(ten.to_set(), ints.to_set());
        }
    }
}

/// At most seven cards and the same cards with their suits renamed by `tau`
/// (same ranks, suit `s` becoming `tau(s)`) have the same score: no suit
/// outranks another.
pub proof fn lemma_cards_suit_renaming(x: Seq<u8>, y: Seq<u8>, tau: spec_fn(u64) -> u64)
    requires
        crate::laws::is_suit_permutation(tau),
        x.len() == y.len(),
        x.len() <= 7,
        forall|k: int| 0 <= k < x.len() ==> is_card_byte(#[trigger] x[k]),
        forall|k: int|
            0 <= k < x.len() ==> #[trigger] y[k] % 16 == x[k] % 16 && y[k] / 16 == tau(
                (x[k] / 16) as u64,
            ),
    ensures
        hand_score(hand_bits(y)) == hand_score(hand_bits(x)),
{
    let cx = hand_bits(x);
    let cy = hand_bits(y);
    assert forall|k: int| 0 <= k < y.len() implies is_card_byte(#[trigger] y[k]) by {
        let v = x[k];
        assert(is_card_byte(v));
        lemma_byte_facts(v, 0);
        lemma_byte_arith_bv(v);
        assert(tau((v / 16) as u64) < 4);
        crate::card::lemma_card_byte_small(v);
        assert(y[k] < 64);
        lemma_byte_arith_bv(y[k]);
        lemma_byte_facts(y[k], 0);
        assert(y[k] & 0x0Fu8 == v & 0x0Fu8);
    }
    lemma_hand_bits_well_formed(y);
    lemma_seven_cards_one_straight_flush_suit(y);
    assert forall|s: u64| s < 4 implies #[trigger] crate::score::suit_word(cx, s)
        == crate::score::suit_word(cy, tau(s)) by {
        let t = tau(s);
        assert(t < 4);
        assert forall|r: u32| r < 32 implies #[trigger] bit32(crate::score::suit_word(cx, s), r)
            == bit32(crate::score::suit_word(cy, t), r) by {
            if r < 16 {
                crate::laws::lemma_word_bit_bv(cx, s, r);
                crate::laws::lemma_word_bit_bv(cy, t, r);
                let j = (16 * s + r) as u64;
                let i = (16 * t + r) as u64;
                lemma_mask64_bit(|j: u64| j != 0 && marked_by(x, j), 64, j);
                lemma_mask64_bit(|j: u64| j != 0 && marked_by(y, j), 64, i);
                assert forall|k: int| 0 <= k < x.len() implies #[trigger] marks(x[k], j) == marks(
                    y[k],
                    i,
                ) && (marks(x[k], j) ==> r != 0) by {
                    let v = x[k];
                    assert(is_card_byte(v));
                    lemma_byte_facts(v, 0);
                    lemma_byte_facts(y[k], 0);
                    crate::card::lemma_card_byte_small(v);
                    lemma_marks_arith(v, s, r as u64);
                    lemma_marks_arith(y[k], t, r as u64);
                    assert(tau((v / 16) as u64) < 4);
                    if v / 16 != s {
                        assert((v / 16) as u64 != s);
                        assert(tau((v / 16) as u64) != tau(s));
                    }
                }
                if marked_by(x, j) {
                    let k = choose|k: int| 0 <= k < x.len() && #[trigger] marks(x[k], j);
                    assert(marks(y[k], i));
                }
                if marked_by(y, i) {
                    let k = choose|k: int| 0 <= k < y.len() && #[trigger] marks(y[k], i);
                    assert(marks(x[k], j));
                }
            } else {
                crate::laws::lemma_word_high_bv(cx, s, r);
                crate::laws::lemma_word_high_bv(cy, t, r);
            }
        }
        crate::bits::lemma_bit32_ext(crate::score::suit_word(cx, s), crate::score::suit_word(cy, t));
    }
    crate::laws::lemma_suit_renaming(cy, cx, tau);
}

/// The 52 cards: ranks 2 to 14 in each of the four suits.
pub const FULL_DECK: u64 = 0x7FFC_7FFC_7FFC_7FFC;

/// The card values below `n` that cannot be dealt, in increasing order.
pub open spec fn forbidden_below(available: u64, n: nat) -> Seq<u8>
    decreases n,
{
    if n == 0 {
        Seq::empty()
    } else {
        let rest = forbidden_below(available, (n - 1) as nat);
        if bit64(available, (n - 1) as u64) {
            rest
        } else {
            rest.push((n - 1) as u8)
        }
    }
}

/// The card values (below 64) that cannot be dealt, in increasing order.
pub open spec fn forbidden_values(available: u64) -> Seq<u8> {
    forbidden_below(available, 64)
}

/// A random byte screened for dealing: its low six bits when they name a card
/// that can be dealt, else 0.
pub open spec fn screened(lane: u8, available: u64) -> u8 {
    let v = lane & 0x3Fu8;
    if bit64(available, v as u64) {
        v
    } else {
        0u8
    }
}

/// Screening deals exactly the cards still in the deck: a byte whose low six
/// bits name a card that can be dealt yields that card, any other byte yields
/// 0, which names no card; so every card in the deck can be dealt, and no
/// other.
pub proof fn lemma_screen_deals_the_deck(lane: u8, available: u64)
    requires
        available & !FULL_DECK == 0,
    ensures
        bit64(available, (lane & 0x3Fu8) as u64) ==> screened(lane, available) == lane & 0x3Fu8,
        !bit64(available, (lane & 0x3Fu8) as u64) ==> screened(lane, available) == 0,
        screened(lane, available) != 0 <==> bit64(available, (lane & 0x3Fu8) as u64),
        (lane < 64 && bit64(available, lane as u64)) ==> screened(lane, available) == lane,
{
    lemma_deck_facts(available, 0, 0);
    lemma_byte_facts(lane, lane);
    if bit64(available, (lane & 0x3Fu8) as u64) && lane & 0x3Fu8 == 0 {
        lemma_deck_facts(available, 0, 0);
    }
}

/// Membership in the forbidden list is the complement of availability.
proof fn lemma_forbidden_below(available: u64, n: nat, v: u8)
    requires
        n <= 64,
        v < 64,
    ensures
        forbidden_below(available, n).contains(v) == (v < n && !bit64(available, v as u64)),
        forall|k: int|
            0 <= k < forbidden_below(available, n).len() ==> #[trigger] forbidden_below(
                available,
                n,
            )[k] < n,
    decreases n,
{
    if n > 0 {
        lemma_forbidden_below(available, (n - 1) as nat, v);
        let rest = forbidden_below(available, (n - 1) as nat);
        if !bit64(available, (n - 1) as u64) {
            assert(rest.push((n - 1) as u8)[rest.len() as int] == (n - 1) as u8);
            if rest.contains(v) {
                let k = choose|k: int| 0 <= k < rest.len() && rest[k] == v;
                assert(rest.push((n - 1) as u8)[k] == v);
            }
            let longer = rest.push((n - 1) as u8);
            if longer.contains(v) && v != (n - 1) as u8 {
                let k = choose|k: int| 0 <= k < longer.len() && longer[k] == v;
                assert(rest[k] == v);
            }
        }
    }
}

/// A copy of a slice of cards.
fn copy_cards(cards: &[Card]) -> (v: Vec<Card>)
    ensures
        v@ == cards@,
{
    let mut v: Vec<Card> = Vec::new();
    let mut i: usize = 0;
    while i < cards.len()
        invariant
            i <= cards@.len(),
            v@ == cards@.subrange(0, i as int),
        decreases cards@.len() - i,
    {
        v.push(cards[i]);
        i = i + 1;
    }
    assert(cards@.subrange(0, cards@.len() as int) == cards@);
    v
}

/// A copy of a slice of two-card hands.
fn copy_hands(hands: &[[Card; 2]]) -> (v: Vec<[Card; 2]>)
    ensures
        v@ == hands@,
{
    let mut v: Vec<[Card; 2]> = Vec::new();
    let mut i: usize = 0;
    while i < hands.len()
        invariant
            i <= hands@.len(),
            v@ == hands@.subrange(0, i as int),
        decreases hands@.len() - i,
    {
        v.push(hands[i]);
        i = i + 1;
    }
    assert(hands@.subrange(0, hands@.len() as int) == hands@);
    v
}

/// What the dealer needs to know of a hand being played out: the known cards,
/// how many cards are still to be dealt, and which cards can be dealt.
pub struct Deal {
    pub hole: [Card; 2],
    pub board: Vec<Card>,
    pub opponents: Vec<[Card; 2]>,
    pub num_random_opponents: usize,
    pub board_cards_needed: usize,
    pub cards_to_draw: usize,
    pub available: u64,
    pub forbidden: Vec<u8>,
    pub lookup: Vec<Card>,
}

impl Deal {
    /// The deal's fields agree with each other.
    pub open spec fn wf(&self) -> bool {
        &&& self.board@.len() <= 5
        &&& self.board_cards_needed == 5 - self.board@.len()
        &&& self.cards_to_draw == self.board_cards_needed + 2 * self.num_random_opponents
        &&& self.available & !FULL_DECK == 0
        &&& self.forbidden@ == forbidden_values(self.available)
        &&& self.lookup@.len() == 64
        &&& forall|v: int|
            0 <= v < 64 && bit64(self.available, v as u64) ==> (#[trigger] self.lookup@[v])@
                == v as u8
    }

    /// Sets up the deal of a hand: the player's hole cards, the known board
    /// cards, the known opponents' hands, the number of opponents whose cards
    /// are dealt at random, and the set of cards already in use.
    pub fn new(
        hole: [Card; 2],
        board: &[Card],
        opponents: &[[Card; 2]],
        num_random_opponents: usize,
        used_cards_bitmask: u64,
    ) -> (deal: Deal)
        requires
            board@.len() <= 5,
            5 + 2 * num_random_opponents <= usize::MAX,
        ensures
            deal.wf(),
            deal.hole == hole,
            deal.board@ == board@,
            deal.opponents@ == opponents@,
            deal.num_random_opponents == num_random_opponents,
            deal.available == FULL_DECK & !used_cards_bitmask,
            forall|v: int|
                0 <= v < 64 && !bit64(deal.available, v as u64) ==> #[trigger] deal.lookup@[v]
                    == hole[0],
    {
        let board_cards_needed = 5 - board.len();
        let cards_to_draw = board_cards_needed + 2 * num_random_opponents;
        let available = FULL_DECK & !used_cards_bitmask;
        proof {
            lemma_deck_facts(available, used_cards_bitmask, 0);
        }

        let mut forbidden: Vec<u8> = Vec::new();
        let mut lookup: Vec<Card> = Vec::new();
        let mut i: u64 = 0;
        while i < 64
            invariant
                i <= 64,
                available & !FULL_DECK == 0,
                forbidden@ == forbidden_below(available, i as nat),
                lookup@.len() == i,
                forall|v: int|
                    0 <= v < i && bit64(available, v as u64) ==> (#[trigger] lookup@[v])@ == v
                        as u8,
                forall|v: int|
                    0 <= v < i && !bit64(available, v as u64) ==> #[trigger] lookup@[v] == hole[0],
            decreases 64 - i,
        {
            let card = if available & (1u64 << i) == 0 {
                forbidden.push(i as u8);
                hole[0]
            } else {
                let v = i as u8;
                proof {
                    lemma_mask_bit(available, i);
                    lemma_deck_facts(available, used_cards_bitmask, i);
                    lemma_byte_facts(v, 0);
                }
                let rank = Rank::try_from(v).unwrap();
                let suit = Suit::try_from(v).unwrap();
                let c = Card::new(rank, suit);
                proof {
                    crate::card::lemma_byte_parts(v);
                }
                c
            };
            proof {
                if available & (1u64 << i) == 0 {
                    lemma_mask_bit(available, i);
                }
            }
            lookup.push(card);
            i = i + 1;
        }
        Deal {
            hole,
            board: copy_cards(board),
            opponents: copy_hands(opponents),
            num_random_opponents,
            board_cards_needed,
            cards_to_draw,
            available,
            forbidden,
            lookup,
        }
    }

    /// A block of random bytes screened for dealing: each byte's low six bits,
    /// zeroed when they name a card that cannot be dealt.
    pub fn screen(&self, block: &[u8; 64]) -> (lanes: [u8; 64])
        requires
            self.wf(),
        ensures
            forall|k: int| 0 <= k < 64 ==> #[trigger] lanes@[k] == screened(block@[k], self.available),
            forall|k: int|
                0 <= k < 64 ==> (#[trigger] lanes@[k] == (if bit64(
                    self.available,
                    (block@[k] & 0x3Fu8) as u64,
                ) {
                    block@[k] & 0x3Fu8
                } else {
                    0u8
                })),
    {
        let mut lanes = [0u8; 64];
        let mut k: usize = 0;
        while k < 64
            invariant
                k <= 64,
                self.wf(),
                lanes@.len() == 64,
                forall|j: int|
                    0 <= j < k ==> #[trigger] lanes@[j] == screened(block@[j], self.available),
            decreases 64 - k,
        {
            let b = block[k];
            let v = b & 0x3F;
            let mut lane = v;
            let mut f: usize = 0;
            proof {
                lemma_byte_facts(0, b);
            }
            while f < self.forbidden.len()
                invariant
                    f <= self.forbidden@.len(),
                    lane == (if self.forbidden@.subrange(0, f as int).contains(v) {
                        0u8
                    } else {
                        v
                    }),
                decreases self.forbidden@.len() - f,
            {
                if lane == self.forbidden[f] {
                    lane = 0;
                }
                proof {
                    let pre = self.forbidden@.subrange(0, f as int);
                    let post = self.forbidden@.subrange(0, f + 1);
                    assert(post[f as int] == self.forbidden@[f as int]);
                    if pre.contains(v) {
                        let j = choose|j: int| 0 <= j < pre.len() && pre[j] == v;
                        assert(post[j] == v);
                    }
                    if post.contains(v) && v != self.forbidden@[f as int] {
                        let j = choose|j: int| 0 <= j < post.len() && post[j] == v;
                        assert(pre[j] == v);
                    }
                }
                f = f + 1;
            }
            proof {
                assert(self.forbidden@.subrange(0, self.forbidden@.len() as int) == self.forbidden@);
                lemma_forbidden_below(self.available, 64, v);
                lemma_forbidden_below(self.available, 64, 0);
                lemma_deck_facts(self.available, 0, 0);
            }
            lanes[k] = lane;
            k = k + 1;
        }
        lanes
    }
}


/// One step of dealing from a screened lane: a nonzero lane adds its card when
/// fewer than `target` cards are drawn and that card is not drawn yet.
pub open spec fn take_lane(drawn: Seq<u8>, lane: u8, target: nat) -> Seq<u8> {
    if lane != 0 && drawn.len() < target && !drawn.contains(lane) {
        drawn.push(lane)
    } else {
        drawn
    }
}

/// Dealing from the screened lanes in order.
pub open spec fn take_lanes(drawn: Seq<u8>, lanes: Seq<u8>, target: nat) -> Seq<u8>
    decreases lanes.len(),
{
    if lanes.len() == 0 {
        drawn
    } else {
        take_lane(take_lanes(drawn, lanes.drop_last(), target), lanes.last(), target)
    }
}

/// The screened lanes of a block of random bytes.
pub open spec fn screened_lanes(block: Seq<u8>, available: u64) -> Seq<u8> {
    Seq::new(64, |k: int| screened(block[k], available))
}

/// A full set of dealt cards for one game: as many as the deal needs, each a
/// card that can be dealt.
pub open spec fn draw_complete(deal: &Deal, drawn: Seq<u8>) -> bool {
    &&& drawn.len() == deal.cards_to_draw
    &&& forall|k: int|
        0 <= k < drawn.len() ==> #[trigger] drawn[k] < 64 && bit64(deal.available, drawn[k] as u64)
}

proof fn lemma_mask_bit(mask: u64, v: u64)
    by (bit_vector)
    requires
        v < 64,
    ensures
        (mask & (1u64 << v) == 0) == !bit64(mask, v),
{
}

/// The cards dealt so far in one game, with the set of them as a bit mask.
pub struct Draw {
    pub cards: Vec<u8>,
    pub mask: u64,
}

impl Draw {
    /// The draw agrees with the deal: at most the cards needed, no card twice,
    /// only cards that can be dealt, and the mask holds exactly the cards drawn.
    pub open spec fn wf(&self, deal: &Deal) -> bool {
        &&& self.cards@.len() <= deal.cards_to_draw
        &&& self.cards@.no_duplicates()
        &&& forall|k: int|
            0 <= k < self.cards@.len() ==> #[trigger] self.cards@[k] < 64 && bit64(
                deal.available,
                self.cards@[k] as u64,
            )
        &&& forall|v: u64| v < 64 ==> #[trigger] bit64(self.mask, v) == self.cards@.contains(v as u8)
    }

    /// Nothing dealt yet.
    pub fn new() -> (d: Draw)
        ensures
            d.cards@ == Seq::<u8>::empty(),
            forall|deal: &Deal| #[trigger] d.wf(deal),
    {
        assert forall|v: u64| v < 64 implies !#[trigger] bit64(0u64, v) by {
            lemma_bit64_zero(v);
        }
        Draw { cards: Vec::new(), mask: 0 }
    }

    /// Whether every card the deal needs has been dealt.
    pub fn is_complete(&self, deal: &Deal) -> (r: bool)
        ensures
            r == (self.cards@.len() == deal.cards_to_draw),
    {
        self.cards.len() == deal.cards_to_draw
    }

    /// Deals from one block of random bytes: the block is screened, then each
    /// nonzero lane in order adds its card unless it was dealt already or
    /// enough cards are dealt.
    pub fn absorb(&mut self, deal: &Deal, block: &[u8; 64])
        requires
            deal.wf(),
            old(self).wf(deal),
        ensures
            final(self).wf(deal),
            final(self).cards@ == take_lanes(
                old(self).cards@,
                screened_lanes(block@, deal.available),
                deal.cards_to_draw as nat,
            ),
    {
        let lanes = deal.screen(block);
        let ghost start = self.cards@;
        let ghost all = screened_lanes(block@, deal.available);
        assert(lanes@ =~= all);
        let mut k: usize = 0;
        while k < 64
            invariant
                k <= 64,
                deal.wf(),
                self.wf(deal),
                lanes@ == all,
                all == screened_lanes(block@, deal.available),
                self.cards@ == take_lanes(start, all.subrange(0, k as int), deal.cards_to_draw as nat),
            decreases 64 - k,
        {
            let card_val = lanes[k];
            let ghost before = self.cards@;
            proof {
                assert(all.subrange(0, k + 1).drop_last() == all.subrange(0, k as int));
                assert(all.subrange(0, k + 1).last() == card_val);
                let b = block@[k as int];
                assert(card_val == 0u8 || card_val == (b & 0x3Fu8));
                lemma_byte_facts(0, b);
            }
            if card_val != 0 && self.cards.len() < deal.cards_to_draw && self.mask & (1u64
                << card_val) == 0 {
                proof {
                    lemma_mask_bit(self.mask, card_val as u64);
                    assert(!before.contains(card_val));
                }
                let ghost old_mask = self.mask;
                let new_mask = self.mask | (1u64 << card_val);
                self.mask = new_mask;
                self.cards.push(card_val);
                proof {
                    assert forall|v: u64| v < 64 implies #[trigger] bit64(new_mask, v)
                        == self.cards@.contains(v as u8) by {
                        lemma_bit64_or(old_mask, 1u64 << card_val, v);
                        lemma_bit64_single(card_val as u64, v);
                        if self.cards@.contains(v as u8) {
                            let j = choose|j: int|
                                0 <= j < self.cards@.len() && self.cards@[j] == v as u8;
                            if j < before.len() {
                                assert(before[j] == v as u8);
                            }
                        }
                        if before.contains(v as u8) {
                            let j = choose|j: int| 0 <= j < before.len() && before[j] == v as u8;
                            assert(self.cards@[j] == v as u8);
                        }
                        assert(self.cards@[before.len() as int] == card_val);
                    }
                }
            } else {
                proof {
                    if card_val != 0 && self.cards@.len() < deal.cards_to_draw {
                        lemma_mask_bit(self.mask, card_val as u64);
                    }
                }
            }
            k = k + 1;
        }
        assert(all.subrange(0, 64) == all);
    }
}


/// The five board cards of a game: the known ones, then the first cards dealt.
pub open spec fn completed_board(deal: &Deal, drawn: Seq<u8>) -> Seq<u8> {
    card_bytes(deal.board@) + drawn.subrange(0, deal.board_cards_needed as int)
}

/// The card set of each player's hand in one game: the player first, then the
/// known opponents, then the random opponents, who take the cards dealt after
/// the board two by two.
pub open spec fn game_hands(deal: &Deal, drawn: Seq<u8>) -> Seq<u64> {
    let b = completed_board(deal, drawn);
    let need = deal.board_cards_needed as int;
    seq![hand_bits(b + card_bytes(deal.hole@))] + Seq::new(
        deal.opponents@.len(),
        |j: int| hand_bits(b + card_bytes(deal.opponents@[j]@)),
    ) + Seq::new(
        deal.num_random_opponents as nat,
        |j: int| hand_bits(b + seq![drawn[need + 2 * j], drawn[need + 2 * j + 1]]),
    )
}

/// The score of each player's hand in one game.
pub open spec fn game_scores(deal: &Deal, drawn: Seq<u8>) -> Seq<u32> {
    game_hands(deal, drawn).map_values(|h: u64| hand_score(h))
}

/// The highest of the first `n` scores.
pub open spec fn top_score_below(s: Seq<u32>, n: nat) -> u32
    decreases n,
{
    if n <= 1 {
        s[0]
    } else {
        let m = top_score_below(s, (n - 1) as nat);
        if s[n - 1] > m {
            s[n - 1]
        } else {
            m
        }
    }
}

/// The highest score.
pub open spec fn top_score(s: Seq<u32>) -> u32 {
    top_score_below(s, s.len())
}

/// How many of the first `n` scores equal `x`.
pub open spec fn count_score_below(s: Seq<u32>, x: u32, n: nat) -> nat
    decreases n,
{
    if n == 0 {
        0
    } else {
        count_score_below(s, x, (n - 1) as nat) + if s[n - 1] == x {
            1nat
        } else {
            0nat
        }
    }
}

/// How many players share the highest score.
pub open spec fn num_winners(s: Seq<u32>) -> nat {
    count_score_below(s, top_score(s), s.len())
}

/// Into how many equal parts the pot is split when player `p` holds one of
/// the highest scores; 0 when player `p` loses.
pub open spec fn split_of(s: Seq<u32>, p: int) -> nat {
    if s[p] == top_score(s) {
        num_winners(s)
    } else {
        0
    }
}

/// No score among the first `n` exceeds their highest.
pub proof fn lemma_top_score_bound(s: Seq<u32>, n: nat)
    requires
        1 <= n <= s.len(),
    ensures
        forall|k: int| 0 <= k < n ==> s[k] <= top_score_below(s, n),
        exists|k: int| 0 <= k < n && s[k] == top_score_below(s, n),
    decreases n,
{
    if n > 1 {
        lemma_top_score_bound(s, (n - 1) as nat);
        let k = choose|k: int| 0 <= k < n - 1 && s[k] == top_score_below(s, (n - 1) as nat);
        if s[n - 1] > top_score_below(s, (n - 1) as nat) {
            assert(s[n - 1] == top_score_below(s, n));
        } else {
            assert(s[k] == top_score_below(s, n));
        }
    } else {
        assert(s[0] == top_score_below(s, n));
    }
}

/// A value absent from the first `n` scores is counted zero times.
proof fn lemma_count_absent(s: Seq<u32>, x: u32, n: nat)
    requires
        n <= s.len(),
        forall|k: int| 0 <= k < n ==> s[k] != x,
    ensures
        count_score_below(s, x, n) == 0,
    decreases n,
{
    if n > 0 {
        lemma_count_absent(s, x, (n - 1) as nat);
    }
}

/// Into how many parts the pot is split when the player wins or ties for the
/// win, 0 when the player loses; `scores` holds the player's score first and
/// then the opponents' scores. A clean win is a split into one part.
pub fn hero_split(scores: &[u32]) -> (parts: usize)
    requires
        1 <= scores@.len(),
    ensures
        parts == split_of(scores@, 0),
        parts <= scores@.len(),
{
    let ghost s = scores@;
    let hero_score = scores[0];
    let mut max_score = hero_score;
    let mut winners_count: usize = 1;
    let mut j: usize = 1;
    assert(count_score_below(s, hero_score, 0) == 0);
    while j < scores.len()
        invariant
            s == scores@,
            1 <= j <= s.len(),
            max_score == top_score_below(s, j as nat),
            winners_count == count_score_below(s, max_score, j as nat),
            1 <= winners_count <= j,
        decreases s.len() - j,
    {
        let opp_score = scores[j];
        if opp_score > max_score {
            proof {
                lemma_top_score_bound(s, j as nat);
                lemma_count_absent(s, opp_score, j as nat);
            }
            max_score = opp_score;
            winners_count = 1;
        } else if opp_score == max_score {
            winners_count = winners_count + 1;
        }
        j = j + 1;
    }
    if hero_score == max_score {
        winners_count
    } else {
        0
    }
}

/// How many of the first `n` players hold a share of the pot.
pub open spec fn sharers_below(s: Seq<u32>, n: nat) -> nat
    decreases n,
{
    if n == 0 {
        0
    } else {
        sharers_below(s, (n - 1) as nat) + if split_of(s, n - 1) != 0 {
            1nat
        } else {
            0nat
        }
    }
}

/// A count of the first `n` scores is at most `n`, and at least one when the
/// value occurs among them.
proof fn lemma_count_bounds(s: Seq<u32>, x: u32, n: nat)
    requires
        n <= s.len(),
    ensures
        count_score_below(s, x, n) <= n,
        (exists|k: int| 0 <= k < n && s[k] == x) ==> count_score_below(s, x, n) >= 1,
    decreases n,
{
    if n > 0 {
        lemma_count_bounds(s, x, (n - 1) as nat);
        if exists|k: int| 0 <= k < n && s[k] == x {
            let k = choose|k: int| 0 <= k < n && s[k] == x;
            if k < n - 1 {
                assert(exists|k: int| 0 <= k < n - 1 && s[k] == x);
            }
        }
    }
}

/// The players holding a share are those with the highest score.
proof fn lemma_sharers_count(s: Seq<u32>, n: nat)
    requires
        1 <= num_winners(s),
        n <= s.len(),
    ensures
        sharers_below(s, n) == count_score_below(s, top_score(s), n),
    decreases n,
{
    if n > 0 {
        lemma_sharers_count(s, (n - 1) as nat);
    }
}

/// A pot is shared out in full: at least one player wins, every player who
/// holds a share splits the pot into as many parts as there are players
/// holding a share, so that the parts add up to the whole pot, and every
/// player with the highest score holds a share.
pub proof fn lemma_pot_fully_shared(s: Seq<u32>)
    requires
        1 <= s.len(),
    ensures
        1 <= num_winners(s) <= s.len(),
        sharers_below(s, s.len()) == num_winners(s),
        forall|p: int| 0 <= p < s.len() && split_of(s, p) != 0 ==> split_of(s, p) == num_winners(s),
        forall|p: int| 0 <= p < s.len() ==> (split_of(s, p) != 0 <==> s[p] == top_score(s)),
{
    lemma_top_score_bound(s, s.len());
    lemma_count_bounds(s, top_score(s), s.len());
    lemma_sharers_count(s, s.len());
}

/// Heads up on a full board, swapping the player and the single opponent
/// swaps their scores, and their shares of the pot are complementary: one
/// wins it whole and the other gets nothing, or they split it in two.
pub proof fn lemma_heads_up_shares(d1: &Deal, d2: &Deal, drawn: Seq<u8>)
    requires
        d1.wf(),
        d2.wf(),
        d1.board@.len() == 5,
        d2.board@ == d1.board@,
        d1.opponents@.len() == 1,
        d2.opponents@.len() == 1,
        d1.num_random_opponents == 0,
        d2.num_random_opponents == 0,
        d2.hole == d1.opponents@[0],
        d2.opponents@[0] == d1.hole,
    ensures
        game_scores(d2, drawn) == seq![game_scores(d1, drawn)[1], game_scores(d1, drawn)[0]],
        ({
            let a = split_of(game_scores(d1, drawn), 0);
            let b = split_of(game_scores(d2, drawn), 0);
            (a == 1 && b == 0) || (a == 0 && b == 1) || (a == 2 && b == 2)
        }),
{
    let h1 = game_hands(d1, drawn);
    let h2 = game_hands(d2, drawn);
    assert(completed_board(d1, drawn) == completed_board(d2, drawn));
    assert(h1.len() == 2);
    assert(h2 =~= seq![h1[1], h1[0]]);
    let s1 = game_scores(d1, drawn);
    let s2 = game_scores(d2, drawn);
    assert(s2 =~= seq![s1[1], s1[0]]);
    reveal_with_fuel(top_score_below, 3);
    reveal_with_fuel(count_score_below, 3);
}

proof fn lemma_low_nibble_bv(i: u64)
    by (bit_vector)
    requires
        i < 64,
    ensures
        i & 0x0Fu64 == i % 16,
{
}

/// A card that can be dealt has a real rank (2 to 14) in its low four bits.
proof fn lemma_dealable_card(deal: &Deal, v: u8)
    requires
        deal.wf(),
        v < 64,
        bit64(deal.available, v as u64),
    ensures
        2 <= v % 16 <= 14,
        v != 0,
{
    lemma_deck_facts(deal.available, 0, v as u64);
    lemma_low_nibble_bv(v as u64);
}

/// Two cards with real ranks that mark the same card bit are the same card.
proof fn lemma_marks_unique(v: u8, w: u8, i: u64)
    requires
        v < 64,
        w < 64,
        2 <= v % 16 <= 14,
        2 <= w % 16 <= 14,
        i < 64,
        marks(v, i),
        marks(w, i),
    ensures
        v == w,
{
    let s = i / 16;
    let r = i % 16;
    assert(i == 16 * s + r);
    lemma_marks_arith(v, s, r);
    lemma_marks_arith(w, s, r);
}

/// A card marks its own bit.
proof fn lemma_card_in_hand(cards: Seq<u8>, k: int)
    requires
        0 <= k < cards.len(),
        cards[k] < 64,
        cards[k] != 0,
    ensures
        bit64(hand_bits(cards), cards[k] as u64),
{
    lemma_mask64_bit(|j: u64| j != 0 && marked_by(cards, j), 64, cards[k] as u64);
    assert(marks(cards[k], cards[k] as u64));
}

/// The cards of a game are dealt once: two random opponents' hands have in
/// common exactly the board.
pub proof fn lemma_random_opponents_share_only_board(deal: &Deal, drawn: Seq<u8>, j: int, k: int)
    requires
        deal.wf(),
        draw_complete(deal, drawn),
        drawn.no_duplicates(),
        0 <= j < k < deal.num_random_opponents,
    ensures
        game_hands(deal, drawn)[1 + deal.opponents@.len() + j] & game_hands(deal, drawn)[1
            + deal.opponents@.len() + k] == hand_bits(completed_board(deal, drawn)),
{
    let h = game_hands(deal, drawn);
    let base = 1 + deal.opponents@.len();
    let b = completed_board(deal, drawn);
    let need = deal.board_cards_needed as int;
    let sj = b + seq![drawn[need + 2 * j], drawn[need + 2 * j + 1]];
    let sk = b + seq![drawn[need + 2 * k], drawn[need + 2 * k + 1]];
    assert(h[base + j] == hand_bits(sj));
    assert(h[base + k] == hand_bits(sk));
    let pj = |i: u64| i != 0 && marked_by(sj, i);
    let pk = |i: u64| i != 0 && marked_by(sk, i);
    let pb = |i: u64| i != 0 && marked_by(b, i);
    assert forall|i: u64| i < 64 implies #[trigger] bit64(hand_bits(sj) & hand_bits(sk), i)
        == bit64(hand_bits(b), i) by {
        lemma_bit64_and(hand_bits(sj), hand_bits(sk), i);
        lemma_mask64_bit(pj, 64, i);
        lemma_mask64_bit(pk, 64, i);
        lemma_mask64_bit(pb, 64, i);
        if marked_by(b, i) {
            let m = choose|m: int| 0 <= m < b.len() && #[trigger] marks(b[m], i);
            assert(sj[m] == b[m] && sk[m] == b[m]);
        }
        if marked_by(sj, i) && marked_by(sk, i) && !marked_by(b, i) {
            let mj = choose|m: int| 0 <= m < sj.len() && #[trigger] marks(sj[m], i);
            let mk = choose|m: int| 0 <= m < sk.len() && #[trigger] marks(sk[m], i);
            if mj < b.len() {
                assert(sj[mj] == b[mj]);
            } else if mk < b.len() {
                assert(sk[mk] == b[mk]);
            } else {
                let dj = need + 2 * j + (mj - b.len());
                let dk = need + 2 * k + (mk - b.len());
                assert(sj[mj] == drawn[dj]);
                assert(sk[mk] == drawn[dk]);
                lemma_dealable_card(deal, drawn[dj]);
                lemma_dealable_card(deal, drawn[dk]);
                lemma_marks_unique(drawn[dj], drawn[dk], i);
                assert(dj != dk);
            }
        }
    }
    crate::bits::lemma_bit64_ext(hand_bits(sj) & hand_bits(sk), hand_bits(b));
}

/// Every card dealt after the board goes to a random opponent: random
/// opponent `(m - need) / 2` holds the card dealt at position `m`.
pub proof fn lemma_dealt_cards_reach_opponents(deal: &Deal, drawn: Seq<u8>, m: int)
    requires
        deal.wf(),
        draw_complete(deal, drawn),
        deal.board_cards_needed <= m < deal.cards_to_draw,
    ensures
        exists|j: int|
            0 <= j < deal.num_random_opponents && bit64(
                #[trigger] game_hands(deal, drawn)[1 + deal.opponents@.len() + j],
                drawn[m] as u64,
            ),
{
    let need = deal.board_cards_needed as int;
    let j = (m - need) / 2;
    let b = completed_board(deal, drawn);
    let sj = b + seq![drawn[need + 2 * j], drawn[need + 2 * j + 1]];
    assert(game_hands(deal, drawn)[1 + deal.opponents@.len() + j] == hand_bits(sj));
    lemma_dealable_card(deal, drawn[m]);
    let pos = b.len() + (m - need - 2 * j);
    assert(sj[pos] == drawn[m]);
    lemma_card_in_hand(sj, pos);
}

/// The board of a game as cards: the known board cards, then the first cards dealt.
fn complete_board(deal: &Deal, drawn: &Vec<u8>) -> (b: [Card; 5])
    requires
        deal.wf(),
        draw_complete(deal, drawn@),
    ensures
        card_bytes(b@) == completed_board(deal, drawn@),
{
    let mut b = [deal.hole[0]; 5];
    let n = deal.board.len();
    let mut i: usize = 0;
    while i < n
        invariant
            n == deal.board@.len(),
            n <= 5,
            i <= n,
            b@.len() == 5,
            forall|j: int| 0 <= j < i ==> #[trigger] b@[j] == deal.board@[j],
        decreases n - i,
    {
        b[i] = deal.board[i];
        i = i + 1;
    }
    let mut i: usize = 0;
    while i < deal.board_cards_needed
        invariant
            deal.wf(),
            draw_complete(deal, drawn@),
            n == deal.board@.len(),
            i <= deal.board_cards_needed,
            b@.len() == 5,
            forall|j: int| 0 <= j < n ==> #[trigger] b@[j] == deal.board@[j],
            forall|j: int| 0 <= j < i ==> (#[trigger] b@[n + j])@ == drawn@[j],
        decreases deal.board_cards_needed - i,
    {
        let v = drawn[i];
        assert(v < 64 && bit64(deal.available, v as u64));
        b[n + i] = deal.lookup[v as usize];
        i = i + 1;
    }
    assert(card_bytes(b@) =~= completed_board(deal, drawn@)) by {
        assert forall|j: int| 0 <= j < 5 implies #[trigger] card_bytes(b@)[j]
            == completed_board(deal, drawn@)[j] by {
            if j >= n {
                assert(b@[n + (j - n)] == b@[j]);
            }
        }
    }
    b
}

/// The card set of each player's hand in one game.
pub fn game_hand_bits(deal: &Deal, drawn: &Vec<u8>) -> (hands: Vec<u64>)
    requires
        deal.wf(),
        draw_complete(deal, drawn@),
    ensures
        hands@ == game_hands(deal, drawn@),
{
    let b = complete_board(deal, drawn);
    let ghost board = completed_board(deal, drawn@);
    let ghost expected = game_hands(deal, drawn@);
    let mut hands: Vec<u64> = Vec::new();
    let hero = [b[0], b[1], b[2], b[3], b[4], deal.hole[0], deal.hole[1]];
    assert(card_bytes(hero@) =~= board + card_bytes(deal.hole@));
    hands.push(hand_arr_to_u64(&hero));
    let mut j: usize = 0;
    while j < deal.opponents.len()
        invariant
            deal.wf(),
            card_bytes(b@) == board,
            board == completed_board(deal, drawn@),
            expected == game_hands(deal, drawn@),
            j <= deal.opponents@.len(),
            hands@ == expected.subrange(0, 1 + j),
        decreases deal.opponents@.len() - j,
    {
        let opp = deal.opponents[j];
        let arr = [b[0], b[1], b[2], b[3], b[4], opp[0], opp[1]];
        assert(card_bytes(arr@) =~= board + card_bytes(deal.opponents@[j as int]@));
        hands.push(hand_arr_to_u64(&arr));
        assert(hands@ =~= expected.subrange(0, 1 + j + 1));
        j = j + 1;
    }
    let known = deal.opponents.len();
    let need = deal.board_cards_needed;
    let mut j: usize = 0;
    while j < deal.num_random_opponents
        invariant
            deal.wf(),
            draw_complete(deal, drawn@),
            card_bytes(b@) == board,
            board == completed_board(deal, drawn@),
            expected == game_hands(deal, drawn@),
            known == deal.opponents@.len(),
            need == deal.board_cards_needed,
            j <= deal.num_random_opponents,
            hands@ == expected.subrange(0, 1 + known + j),
        decreases deal.num_random_opponents - j,
    {
        let v0 = drawn[need + 2 * j];
        let v1 = drawn[need + 2 * j + 1];
        assert(v0 < 64 && bit64(deal.available, v0 as u64));
        assert(v1 < 64 && bit64(deal.available, v1 as u64));
        let c0 = deal.lookup[v0 as usize];
        let c1 = deal.lookup[v1 as usize];
        let arr = [b[0], b[1], b[2], b[3], b[4], c0, c1];
        assert(card_bytes(arr@) =~= board + seq![
            drawn@[need + 2 * j],
            drawn@[need + 2 * j + 1],
        ]);
        hands.push(hand_arr_to_u64(&arr));
        assert(hands@ =~= expected.subrange(0, 1 + known + j + 1));
        j = j + 1;
    }
    assert(expected.subrange(0, expected.len() as int) == expected);
    hands
}

/// The scores of many hands, taken sixteen at a time; the last group is
/// filled up with empty hands, whose scores are dropped.
pub fn score_hands(hands: &Vec<u64>) -> (scores: Vec<u32>)
    ensures
        scores@ == hands@.map_values(|h: u64| hand_score(h)),
{
    let n = hands.len();
    let mut scores: Vec<u32> = Vec::new();
    let mut i: usize = 0;
    while i < n
        invariant
            n == hands@.len(),
            i <= n,
            scores@.len() == i,
            forall|k: int| 0 <= k < i ==> #[trigger] scores@[k] == hand_score(hands@[k]),
        decreases n - i,
    {
        let mut group = [0u64; 16];
        let mut k: usize = 0;
        while k < 16 && k < n - i
            invariant
                n == hands@.len(),
                i < n,
                k <= 16,
                k <= n - i,
                group@.len() == 16,
                forall|j: int| 0 <= j < k ==> #[trigger] group@[j] == hands@[i + j],
            decreases 16 - k,
        {
            group[k] = hands[i + k];
            k = k + 1;
        }
        let lanes = Hand::new(group).to_array();
        let mut j: usize = 0;
        while j < k
            invariant
                n == hands@.len(),
                k <= 16,
                i + k <= n,
                j <= k,
                group@.len() == 16,
                lanes@.len() == 16,
                forall|m: int| 0 <= m < k ==> #[trigger] group@[m] == hands@[i + m],
                forall|m: int| 0 <= m < 16 ==> #[trigger] lanes@[m] == hand_score(group@[m]),
                scores@.len() == i + j,
                forall|m: int| 0 <= m < i + j ==> #[trigger] scores@[m] == hand_score(hands@[m]),
            decreases k - j,
        {
            scores.push(lanes[j]);
            assert(group@[j as int] == hands@[i + j]);
            j = j + 1;
        }
        i = i + k;
    }
    assert(scores@ =~= hands@.map_values(|h: u64| hand_score(h)));
    scores
}

/// How many players take part in each game: the player, the known opponents
/// and the random opponents.
pub open spec fn num_players(deal: &Deal) -> nat {
    (1 + deal.opponents@.len() + deal.num_random_opponents) as nat
}

/// The hands of the first `n` games, one game after another.
pub open spec fn batch_hands(deal: &Deal, draws: Seq<Vec<u8>>, n: nat) -> Seq<u64>
    decreases n,
{
    if n == 0 {
        Seq::empty()
    } else {
        batch_hands(deal, draws, (n - 1) as nat) + game_hands(deal, draws[n - 1]@)
    }
}

/// Game `g`'s hands stand at positions `g * p` to `g * p + p` of the batch,
/// where `p` is the number of players.
proof fn lemma_batch_hands(deal: &Deal, draws: Seq<Vec<u8>>, n: nat, g: int, k: int)
    requires
        0 <= g < n,
        0 <= k < num_players(deal),
    ensures
        batch_hands(deal, draws, n).len() == n * num_players(deal),
        g * num_players(deal) + k < n * num_players(deal),
        batch_hands(deal, draws, n)[g * num_players(deal) + k] == game_hands(deal, draws[g]@)[k],
    decreases n,
{
    let p = num_players(deal) as int;
    lemma_batch_len(deal, draws, (n - 1) as nat);
    lemma_game_hands_len(deal, draws[n - 1]@);
    assert(n * p == (n - 1) * p + p) by (nonlinear_arith);
    if g < n - 1 {
        lemma_batch_hands(deal, draws, (n - 1) as nat, g, k);
    } else {
        assert(g * p == (n - 1) * p);
    }
}

/// The batch holds `p` hands per game.
proof fn lemma_batch_len(deal: &Deal, draws: Seq<Vec<u8>>, n: nat)
    ensures
        batch_hands(deal, draws, n).len() == n * num_players(deal),
    decreases n,
{
    let p = num_players(deal) as int;
    if n > 0 {
        lemma_batch_len(deal, draws, (n - 1) as nat);
        lemma_game_hands_len(deal, draws[n - 1]@);
        assert(n * p == (n - 1) * p + p) by (nonlinear_arith);
    } else {
        assert(n * p == 0) by (nonlinear_arith)
            requires
                n == 0,
        ;
    }
}

/// One hand per player.
proof fn lemma_game_hands_len(deal: &Deal, drawn: Seq<u8>)
    ensures
        game_hands(deal, drawn).len() == num_players(deal),
{
}

/// Number of games played out in one batch.
pub const GAMES_PER_BATCH: usize = 16;

/// Plays out games from the cards dealt for each and returns, game by game,
/// into how many parts the pot is split when the player shares it (0 when the
/// player loses). The hands of all games are scored together, sixteen at a
/// time.
pub fn play_batch(deal: &Deal, draws: &Vec<Vec<u8>>) -> (splits: Vec<usize>)
    requires
        deal.wf(),
        forall|g: int| 0 <= g < draws@.len() ==> draw_complete(deal, #[trigger] draws@[g]@),
    ensures
        splits@.len() == draws@.len(),
        forall|g: int|
            0 <= g < draws@.len() ==> #[trigger] splits@[g] == split_of(
                game_scores(deal, draws@[g]@),
                0,
            ),
{
    let ghost p = num_players(deal);
    let mut hands: Vec<u64> = Vec::new();
    let mut g: usize = 0;
    while g < draws.len()
        invariant
            deal.wf(),
            forall|g: int| 0 <= g < draws@.len() ==> draw_complete(deal, #[trigger] draws@[g]@),
            g <= draws@.len(),
            hands@ == batch_hands(deal, draws@, g as nat),
        decreases draws@.len() - g,
    {
        let mut game = game_hand_bits(deal, &draws[g]);
        hands.append(&mut game);
        g = g + 1;
    }
    let scores = score_hands(&hands);
    let mut splits: Vec<usize> = Vec::new();
    if draws.len() == 0 {
        return splits;
    }
    let total = hands.len();
    proof {
        lemma_batch_len(deal, draws@, draws@.len());
        assert(p <= draws@.len() * p) by (nonlinear_arith)
            requires
                draws@.len() >= 1,
        ;
        assert(p <= total);
    }
    let players = 1 + deal.opponents.len() + deal.num_random_opponents;
    let mut g: usize = 0;
    while g < draws.len()
        invariant
            deal.wf(),
            g <= draws@.len(),
            players == p,
            p == num_players(deal),
            total == hands@.len(),
            hands@ == batch_hands(deal, draws@, draws@.len()),
            scores@ == hands@.map_values(|h: u64| hand_score(h)),
            splits@.len() == g,
            forall|k: int|
                0 <= k < g ==> #[trigger] splits@[k] == split_of(game_scores(deal, draws@[k]@), 0),
        decreases draws@.len() - g,
    {
        proof {
            lemma_batch_hands(deal, draws@, draws@.len(), g as int, 0);
            lemma_batch_len(deal, draws@, draws@.len());
        }
        let start = g * players;
        let mut game: Vec<u32> = Vec::new();
        let mut j: usize = 0;
        while j < players
            invariant
                deal.wf(),
                g < draws@.len(),
                players == p,
                p == num_players(deal),
                total == hands@.len(),
                start == g * p,
                hands@ == batch_hands(deal, draws@, draws@.len()),
                scores@ == hands@.map_values(|h: u64| hand_score(h)),
                j <= players,
                game@.len() == j,
                forall|m: int|
                    0 <= m < j ==> #[trigger] game@[m] == game_scores(deal, draws@[g as int]@)[m],
            decreases players - j,
        {
            proof {
                lemma_batch_hands(deal, draws@, draws@.len(), g as int, j as int);
            }
            game.push(scores[start + j]);
            j = j + 1;
        }
        assert(game@ =~= game_scores(deal, draws@[g as int]@));
        splits.push(hero_split(game.as_slice()));
        g = g + 1;
    }
    splits
}

/// The nonzero bytes of a sequence, in order.
pub open spec fn nonzero_bytes(s: Seq<u8>) -> Seq<u8>
    decreases s.len(),
{
    if s.len() == 0 {
        Seq::empty()
    } else if s.last() != 0 {
        nonzero_bytes(s.drop_last()).push(s.last())
    } else {
        nonzero_bytes(s.drop_last())
    }
}

/// The nonzero lanes of a block of bytes, in lane order.
pub fn extract_non_zeros(vector: &[u8; 64]) -> (extracted: Vec<u8>)
    ensures
        extracted@ == nonzero_bytes(vector@),
{
    let mut extracted: Vec<u8> = Vec::new();
    let mut i: usize = 0;
    while i < 64
        invariant
            i <= 64,
            vector@.len() == 64,
            extracted@ == nonzero_bytes(vector@.subrange(0, i as int)),
        decreases 64 - i,
    {
        assert(vector@.subrange(0, i + 1).drop_last() == vector@.subrange(0, i as int));
        if vector[i] != 0 {
            extracted.push(vector[i]);
        }
        i = i + 1;
    }
    assert(vector@.subrange(0, 64) == vector@);
    extracted
}

} // verus!
