//! Validating a hand set up for equity estimation: the board size, the number
//! of opponents, and that no card is given twice.
use vstd::prelude::*;
use crate::bits::{
    bit64, mask64, lemma_bit64_or, lemma_bit64_single, lemma_bit64_zero, lemma_mask64_of_bits,
};
use crate::card::{Card, is_card_byte};
use crate::equity::card_bytes;

verus! {

/// The card set of a list of card bytes: bit `v` for each byte `v`.
pub open spec fn cards_mask(bytes: Seq<u8>) -> u64 {
    mask64(|j: u64| exists|k: int| 0 <= k < bytes.len() && #[trigger] bytes[k] as u64 == j, 64)
}

/// The bytes of a list of two-card hands, hand after hand.
pub open spec fn pair_bytes(hands: Seq<[Card; 2]>) -> Seq<u8>
    decreases hands.len(),
{
    if hands.len() == 0 {
        Seq::empty()
    } else {
        pair_bytes(hands.drop_last()) + card_bytes(hands.last()@)
    }
}

/// The cards in use, as set-up validation combines them: the board's cards,
/// the hole cards and the known opponents' cards, each group as a set, and the
/// three sets combined by exclusive or (so that a card given in two groups cancels).
pub open spec fn used_cards_mask(hole: Seq<Card>, board: Seq<Card>, opponents: Seq<[Card; 2]>) -> u64 {
    cards_mask(card_bytes(board)) ^ cards_mask(card_bytes(hole)) ^ cards_mask(pair_bytes(opponents))
}

/// Number of set bits of `x` below position `n`.
pub open spec fn pop64_below(x: u64, n: nat) -> nat
    decreases n,
{
    if n == 0 {
        0
    } else {
        pop64_below(x, (n - 1) as nat) + if bit64(x, (n - 1) as u64) {
            1nat
        } else {
            0nat
        }
    }
}

/// Number of set bits of `x`.
pub open spec fn pop64(x: u64) -> nat {
    pop64_below(x, 64)
}

/// Why a set-up is refused.
#[derive(Debug, Clone, Copy, PartialEq, Eq, Structural)]
pub enum SetupError {
    /// More than five board cards.
    TooManyBoardCards,
    /// The opponents, known and random, number fewer than 1 or more than 21.
    BadOpponentCount,
    /// Some card is given more than once.
    RepeatedCard,
}

/// Number of set bits of a 64-bit value.
pub fn count_ones64(x: u64) -> (n: u32)
    ensures
        n == pop64(x),
        n <= 64,
{
    let mut n: u32 = 0;
    let mut i: u64 = 0;
    while i < 64
        invariant
            i <= 64,
            n == pop64_below(x, i as nat),
            n <= i,
        decreases 64 - i,
    {
        if (x >> i) & 1 == 1 {
            n = n + 1;
        }
        i = i + 1;
    }
    n
}

/// Adds the bits of `bytes` to a set of card bits.
fn add_card_bits(acc: u64, cards: &[Card]) -> (r: u64)
    ensures
        forall|j: u64|
            j < 64 ==> #[trigger] bit64(r, j) == (bit64(acc, j) || exists|k: int|
                0 <= k < cards@.len() && #[trigger] card_bytes(cards@)[k] as u64 == j),
{
    let ghost bytes = card_bytes(cards@);
    let mut r = acc;
    let mut i: usize = 0;
    while i < cards.len()
        invariant
            i <= cards@.len(),
            bytes == card_bytes(cards@),
            forall|j: u64|
                j < 64 ==> #[trigger] bit64(r, j) == (bit64(acc, j) || exists|k: int|
                    0 <= k < i && #[trigger] bytes[k] as u64 == j),
        decreases cards@.len() - i,
    {
        let v = cards[i].byte();
        assert(v < 64) by (bit_vector)
            requires
                v & 0xC0u8 == 0u8,
        ;
        let ghost before = r;
        r = r | (1u64 << (v as u64));
        assert forall|j: u64| j < 64 implies #[trigger] bit64(r, j) == (bit64(acc, j) || exists|k: int|
            0 <= k < i + 1 && #[trigger] bytes[k] as u64 == j) by {
            lemma_bit64_or(before, 1u64 << (v as u64), j);
            lemma_bit64_single(v as u64, j);
            assert(bytes[i as int] == v);
            if exists|k: int| 0 <= k < i + 1 && #[trigger] bytes[k] as u64 == j {
                let k = choose|k: int| 0 <= k < i + 1 && #[trigger] bytes[k] as u64 == j;
                if k < i {
                    assert(exists|k: int| 0 <= k < i && #[trigger] bytes[k] as u64 == j);
                }
            }
        }
        i = i + 1;
    }
    r
}

/// The card set of a list of cards.
pub fn cards_bits(cards: &[Card]) -> (r: u64)
    ensures
        r == cards_mask(card_bytes(cards@)),
{
    let ghost bytes = card_bytes(cards@);
    assert forall|j: u64| j < 64 implies !#[trigger] bit64(0u64, j) by {
        lemma_bit64_zero(j);
    }
    let r = add_card_bits(0, cards);
    proof {
        lemma_mask64_of_bits(
            r,
            |j: u64| exists|k: int| 0 <= k < bytes.len() && #[trigger] bytes[k] as u64 == j,
            64,
        );
    }
    r
}

/// The card set of a list of two-card hands.
pub fn hands_bits(hands: &[[Card; 2]]) -> (r: u64)
    ensures
        r == cards_mask(pair_bytes(hands@)),
{
    let mut r: u64 = 0;
    let mut i: usize = 0;
    assert forall|j: u64| j < 64 implies !#[trigger] bit64(0u64, j) by {
        lemma_bit64_zero(j);
    }
    while i < hands.len()
        invariant
            i <= hands@.len(),
            forall|j: u64|
                j < 64 ==> #[trigger] bit64(r, j) == exists|k: int|
                    0 <= k < pair_bytes(hands@.subrange(0, i as int)).len() && #[trigger] pair_bytes(
                        hands@.subrange(0, i as int),
                    )[k] as u64 == j,
        decreases hands@.len() - i,
    {
        let hand = hands[i];
        let ghost before = r;
        let ghost pre = pair_bytes(hands@.subrange(0, i as int));
        let ghost post = pair_bytes(hands@.subrange(0, i + 1));
        assert(hands@.subrange(0, i + 1).drop_last() == hands@.subrange(0, i as int));
        assert(post == pre + card_bytes(hand@));
        r = add_card_bits(r, &hand);
        assert forall|j: u64| j < 64 implies #[trigger] bit64(r, j) == exists|k: int|
            0 <= k < post.len() && #[trigger] post[k] as u64 == j by {
            if exists|k: int| 0 <= k < post.len() && #[trigger] post[k] as u64 == j {
                let k = choose|k: int| 0 <= k < post.len() && #[trigger] post[k] as u64 == j;
                if k < pre.len() {
                    assert(pre[k] == post[k]);
                } else {
                    assert(card_bytes(hand@)[k - pre.len()] == post[k]);
                }
            }
            if exists|k: int| 0 <= k < pre.len() && #[trigger] pre[k] as u64 == j {
                let k = choose|k: int| 0 <= k < pre.len() && #[trigger] pre[k] as u64 == j;
                assert(post[k] == pre[k]);
            }
            if exists|k: int| 0 <= k < 2 && #[trigger] card_bytes(hand@)[k] as u64 == j {
                let k = choose|k: int| 0 <= k < 2 && #[trigger] card_bytes(hand@)[k] as u64 == j;
                assert(post[pre.len() + k] == card_bytes(hand@)[k]);
            }
        }
        i = i + 1;
    }
    assert(hands@.subrange(0, hands@.len() as int) == hands@);
    let ghost bytes = pair_bytes(hands@);
    proof {
        lemma_mask64_of_bits(
            r,
            |j: u64| exists|k: int| 0 <= k < bytes.len() && #[trigger] bytes[k] as u64 == j,
            64,
        );
    }
    r
}

/// Validates a set-up as the command line does before estimating equity: at most
/// five board cards, between 1 and 21 opponents in all, and as many distinct
/// cards in use as cards given. On success it returns the set of cards in use.
pub fn validate_setup(
    hole: &[Card; 2],
    board: &[Card],
    opponents: &[[Card; 2]],
    num_random_opponents: usize,
) -> (r: Result<u64, SetupError>)
    ensures
        board@.len() > 5 ==> r == Err::<u64, SetupError>(SetupError::TooManyBoardCards),
        board@.len() <= 5 && !(1 <= opponents@.len() + num_random_opponents <= 21) ==> r == Err::<
            u64,
            SetupError,
        >(SetupError::BadOpponentCount),
        board@.len() <= 5 && 1 <= opponents@.len() + num_random_opponents <= 21 ==> {
            let used = used_cards_mask(hole@, board@, opponents@);
            let expected = 2 + board@.len() + 2 * opponents@.len();
            if pop64(used) == expected {
                r == Ok::<u64, SetupError>(used)
            } else {
                r == Err::<u64, SetupError>(SetupError::RepeatedCard)
            }
        },
        board@.len() <= 5 && 1 <= opponents@.len() + num_random_opponents <= 21
            && setup_cards_distinct(hole@, board@, opponents@) ==> r is Ok,
{
    if board.len() > 5 {
        return Err(SetupError::TooManyBoardCards);
    }
    if num_random_opponents > 21 || opponents.len() > 21 {
        return Err(SetupError::BadOpponentCount);
    }
    let num_opponents = opponents.len() + num_random_opponents;
    if num_opponents < 1 || num_opponents > 21 {
        return Err(SetupError::BadOpponentCount);
    }
    let expected_cards: u32 = (2 + board.len() + opponents.len() * 2) as u32;
    let actual_cards = cards_bits(board) ^ cards_bits(hole) ^ hands_bits(opponents);
    proof {
        if setup_cards_distinct(hole@, board@, opponents@) {
            lemma_distinct_setup_counts(hole@, board@, opponents@);
        }
    }
    if count_ones64(actual_cards) != expected_cards {
        return Err(SetupError::RepeatedCard);
    }
    Ok(actual_cards)
}


/// Counting the bits of an exclusive or: bits set in both are lost twice.
proof fn lemma_pop64_xor(x: u64, y: u64, n: nat)
    requires
        n <= 64,
    ensures
        pop64_below(x ^ y, n) + 2 * pop64_below(x & y, n) == pop64_below(x, n) + pop64_below(y, n),
    decreases n,
{
    if n > 0 {
        let k = (n - 1) as u64;
        lemma_pop64_xor(x, y, (n - 1) as nat);
        crate::bits::lemma_bit64_xor(x, y, k);
        crate::bits::lemma_bit64_and(x, y, k);
    }
}

/// A count of zero means no bit is set.
proof fn lemma_pop64_none(x: u64, n: nat)
    requires
        n <= 64,
        pop64_below(x, n) == 0,
    ensures
        forall|j: u64| j < n ==> !#[trigger] bit64(x, j),
    decreases n,
{
    if n > 0 {
        lemma_pop64_none(x, (n - 1) as nat);
    }
}

/// Adding one bit raises the count by one exactly when the bit was clear.
proof fn lemma_pop64_add_bit(x: u64, v: u64, n: nat)
    requires
        n <= 64,
        v < 64,
    ensures
        pop64_below(x | (1u64 << v), n) == pop64_below(x, n) + if v < n && !bit64(x, v) {
            1nat
        } else {
            0nat
        },
    decreases n,
{
    if n > 0 {
        let k = (n - 1) as u64;
        lemma_pop64_add_bit(x, v, (n - 1) as nat);
        lemma_bit64_or(x, 1u64 << v, k);
        lemma_bit64_single(v, k);
    }
}

/// The card set of a list grown by one card.
proof fn lemma_cards_mask_push(s: Seq<u8>, v: u8)
    requires
        v < 64,
    ensures
        cards_mask(s.push(v)) == cards_mask(s) | (1u64 << v as u64),
        forall|j: u64| j < 64 ==> #[trigger] bit64(cards_mask(s), j) == s.contains(j as u8),
{
    let t = s.push(v);
    let ps = |j: u64| exists|k: int| 0 <= k < s.len() && #[trigger] s[k] as u64 == j;
    let pt = |j: u64| exists|k: int| 0 <= k < t.len() && #[trigger] t[k] as u64 == j;
    let x = cards_mask(s) | (1u64 << v as u64);
    assert forall|j: u64| j < 64 implies #[trigger] bit64(x, j) == (j < 64 && pt(j)) by {
        lemma_bit64_or(cards_mask(s), 1u64 << v as u64, j);
        lemma_bit64_single(v as u64, j);
        crate::bits::lemma_mask64_bit(ps, 64, j);
        if pt(j) {
            let k = choose|k: int| 0 <= k < t.len() && #[trigger] t[k] as u64 == j;
            if k < s.len() {
                assert(s[k] == t[k]);
            }
        }
        if ps(j) {
            let k = choose|k: int| 0 <= k < s.len() && #[trigger] s[k] as u64 == j;
            assert(t[k] == s[k]);
        }
        assert(t[s.len() as int] == v);
    }
    lemma_mask64_of_bits(x, pt, 64);
    assert forall|j: u64| j < 64 implies #[trigger] bit64(cards_mask(s), j) == s.contains(
        j as u8,
    ) by {
        crate::bits::lemma_mask64_bit(ps, 64, j);
        if s.contains(j as u8) {
            let k = choose|k: int| 0 <= k < s.len() && s[k] == j as u8;
            assert(s[k] as u64 == j);
        }
    }
}

/// The card set of a list has at most as many cards as the list, and as many
/// only when no card repeats.
proof fn lemma_cards_mask_count(s: Seq<u8>)
    requires
        forall|k: int| 0 <= k < s.len() ==> #[trigger] s[k] < 64,
    ensures
        pop64(cards_mask(s)) <= s.len(),
        pop64(cards_mask(s)) == s.len() ==> s.no_duplicates(),
    decreases s.len(),
{
    if s.len() == 0 {
        assert forall|j: u64| j < 64 implies !#[trigger] bit64(cards_mask(s), j) by {
            crate::bits::lemma_mask64_bit(
                |j: u64| exists|k: int| 0 <= k < s.len() && #[trigger] s[k] as u64 == j,
                64,
                j,
            );
        }
        lemma_pop64_zero_mask(cards_mask(s), 64);
    } else {
        let r = s.drop_last();
        let v = s.last();
        assert(r.push(v) == s);
        lemma_cards_mask_count(r);
        lemma_cards_mask_push(r, v);
        lemma_pop64_add_bit(cards_mask(r), v as u64, 64);
        if pop64(cards_mask(s)) == s.len() {
            assert(!bit64(cards_mask(r), v as u64));
            assert(!r.contains(v));
            assert forall|i: int, j: int| 0 <= i < s.len() && 0 <= j < s.len() && i != j implies s[i]
                != s[j] by {
                if i < r.len() && j < r.len() {
                    assert(r[i] == s[i] && r[j] == s[j]);
                } else if i < r.len() {
                    assert(r[i] == s[i]);
                } else if j < r.len() {
                    assert(r[j] == s[j]);
                }
            }
        }
    }
}

/// A value with no set bit counts zero.
proof fn lemma_pop64_zero_mask(x: u64, n: nat)
    requires
        n <= 64,
        forall|j: u64| j < 64 ==> !#[trigger] bit64(x, j),
    ensures
        pop64_below(x, n) == 0,
    decreases n,
{
    if n > 0 {
        lemma_pop64_zero_mask(x, (n - 1) as nat);
    }
}

/// The bytes of `n` two-card hands number `2 * n`, and each is a byte of one of the hands.
proof fn lemma_pair_bytes(hands: Seq<[Card; 2]>)
    ensures
        pair_bytes(hands).len() == 2 * hands.len(),
    decreases hands.len(),
{
    if hands.len() > 0 {
        lemma_pair_bytes(hands.drop_last());
    }
}

/// A set-up that validation accepts gives no card twice: the board, the hole
/// cards and the known opponents' cards are all different.
pub proof fn lemma_accepted_setup_distinct(
    hole: Seq<Card>,
    board: Seq<Card>,
    opponents: Seq<[Card; 2]>,
)
    requires
        hole.len() == 2,
        forall|k: int|
            0 <= k < (card_bytes(board) + card_bytes(hole) + pair_bytes(opponents)).len()
                ==> is_card_byte(
                #[trigger] (card_bytes(board) + card_bytes(hole) + pair_bytes(opponents))[k],
            ),
        pop64(used_cards_mask(hole, board, opponents)) == 2 + board.len() + 2 * opponents.len(),
    ensures
        (card_bytes(board) + card_bytes(hole) + pair_bytes(opponents)).no_duplicates(),
{
    let sb = card_bytes(board);
    let sh = card_bytes(hole);
    let so = pair_bytes(opponents);
    let all = sb + sh + so;
    lemma_pair_bytes(opponents);
    assert forall|k: int| 0 <= k < all.len() implies #[trigger] all[k] < 64 by {
        crate::card::lemma_card_byte_small(all[k]);
    }
    assert forall|k: int| 0 <= k < sb.len() implies #[trigger] sb[k] < 64 by {
        assert(all[k] == sb[k]);
    }
    assert forall|k: int| 0 <= k < sh.len() implies #[trigger] sh[k] < 64 by {
        assert(all[sb.len() + k] == sh[k]);
    }
    assert forall|k: int| 0 <= k < so.len() implies #[trigger] so[k] < 64 by {
        assert(all[sb.len() + sh.len() + k] == so[k]);
    }
    let a = cards_mask(sb);
    let b = cards_mask(sh);
    let o = cards_mask(so);
    lemma_cards_mask_count(sb);
    lemma_cards_mask_count(sh);
    lemma_cards_mask_count(so);
    lemma_pop64_xor(a, b, 64);
    lemma_pop64_xor(a ^ b, o, 64);
    assert(pop64_below(a & b, 64) == 0);
    assert(pop64_below((a ^ b) & o, 64) == 0);
    lemma_pop64_none(a & b, 64);
    lemma_pop64_none((a ^ b) & o, 64);
    lemma_cards_mask_push(sb, 0);
    lemma_cards_mask_push(sh, 0);
    lemma_cards_mask_push(so, 0);
    assert forall|i: int, j: int| 0 <= i < all.len() && 0 <= j < all.len() && i != j implies all[i]
        != all[j] by {
        if all[i] == all[j] {
            let v = all[i] as u64;
            crate::bits::lemma_bit64_and(a, b, v);
            crate::bits::lemma_bit64_and(a ^ b, o, v);
            crate::bits::lemma_bit64_xor(a, b, v);
            let gi = if i < sb.len() { 0int } else if i < sb.len() + sh.len() { 1int } else { 2int };
            let gj = if j < sb.len() { 0int } else if j < sb.len() + sh.len() { 1int } else { 2int };
            if gi == 0 { assert(sb.contains(all[i])) by { assert(sb[i] == all[i]); } }
            if gi == 1 { assert(sh.contains(all[i])) by { assert(sh[i - sb.len()] == all[i]); } }
            if gi == 2 { assert(so.contains(all[i])) by { assert(so[i - sb.len() - sh.len()] == all[i]); } }
            if gj == 0 { assert(sb.contains(all[j])) by { assert(sb[j] == all[j]); } }
            if gj == 1 { assert(sh.contains(all[j])) by { assert(sh[j - sb.len()] == all[j]); } }
            if gj == 2 { assert(so.contains(all[j])) by { assert(so[j - sb.len() - sh.len()] == all[j]); } }
            if gi == gj {
                if gi == 0 {
                    assert(sb[i] == sb[j]);
                } else if gi == 1 {
                    assert(sh[i - sb.len()] == sh[j - sb.len()]);
                } else {
                    assert(so[i - sb.len() - sh.len()] == so[j - sb.len() - sh.len()]);
                }
            }
        }
    }
}

/// The cards of a set-up are real cards and all different: the two hole
/// cards, the board cards and both cards of every known opponent.
pub open spec fn setup_cards_distinct(
    hole: Seq<Card>,
    board: Seq<Card>,
    opponents: Seq<[Card; 2]>,
) -> bool {
    &&& hole.len() == 2
    &&& is_card_byte(hole[0]@) && is_card_byte(hole[1]@) && hole[0]@ != hole[1]@
    &&& forall|i: int| 0 <= i < board.len() ==> is_card_byte(#[trigger] board[i]@)
    &&& forall|j: int, e: int|
        0 <= j < opponents.len() && 0 <= e < 2 ==> is_card_byte(#[trigger] opponents[j]@[e]@)
    &&& forall|i: int, i2: int|
        0 <= i < board.len() && 0 <= i2 < board.len() && i != i2 ==> #[trigger] board[i]@
            != #[trigger] board[i2]@
    &&& forall|i: int, h: int| 0 <= i < board.len() && 0 <= h < 2 ==> #[trigger] board[i]@ != #[trigger] hole[h]@
    &&& forall|j: int, e: int, i: int|
        0 <= j < opponents.len() && 0 <= e < 2 && 0 <= i < board.len() ==> #[trigger] opponents[j]@[e]@
            != #[trigger] board[i]@
    &&& forall|j: int, e: int, h: int|
        0 <= j < opponents.len() && 0 <= e < 2 && 0 <= h < 2 ==> #[trigger] opponents[j]@[e]@
            != #[trigger] hole[h]@
    &&& forall|j: int, e: int, j2: int, e2: int|
        0 <= j < opponents.len() && 0 <= e < 2 && 0 <= j2 < opponents.len() && 0 <= e2 < 2 && (j
            != j2 || e != e2) ==> #[trigger] opponents[j]@[e]@ != #[trigger] opponents[j2]@[e2]@
}

/// The bytes of two-card hands, hand after hand: byte `m` is card `m % 2` of
/// hand `m / 2`.
proof fn lemma_pair_bytes_index(hands: Seq<[Card; 2]>)
    ensures
        pair_bytes(hands).len() == 2 * hands.len(),
        forall|m: int|
            0 <= m < 2 * hands.len() ==> #[trigger] pair_bytes(hands)[m] == hands[m / 2]@[m % 2]@,
    decreases hands.len(),
{
    if hands.len() > 0 {
        let r = hands.drop_last();
        lemma_pair_bytes_index(r);
        assert forall|m: int| 0 <= m < 2 * hands.len() implies #[trigger] pair_bytes(hands)[m]
            == hands[m / 2]@[m % 2]@ by {
            if m < 2 * r.len() {
                assert(pair_bytes(r)[m] == r[m / 2]@[m % 2]@);
                assert(r[m / 2] == hands[m / 2]);
            } else {
                assert(m / 2 == hands.len() - 1);
                assert(hands.last() == hands[m / 2]);
            }
        }
    }
}

/// A list of distinct card bits has as many bits in its set as entries.
proof fn lemma_cards_mask_exact(s: Seq<u8>)
    requires
        forall|k: int| 0 <= k < s.len() ==> #[trigger] s[k] < 64,
        s.no_duplicates(),
    ensures
        pop64(cards_mask(s)) == s.len(),
    decreases s.len(),
{
    if s.len() == 0 {
        lemma_cards_mask_count(s);
    } else {
        let r = s.drop_last();
        let v = s.last();
        assert(r.push(v) == s);
        assert(!r.contains(v)) by {
            if r.contains(v) {
                let k = choose|k: int| 0 <= k < r.len() && r[k] == v;
                assert(s[k] == s[s.len() - 1]);
            }
        }
        lemma_cards_mask_exact(r);
        lemma_cards_mask_push(r, v);
        lemma_pop64_add_bit(cards_mask(r), v as u64, 64);
    }
}

/// Two card sets with no card in common: the count of their exclusive or is
/// the sum of their counts.
proof fn lemma_disjoint_xor_count(x: u64, y: u64)
    requires
        forall|v: u64| v < 64 ==> !(#[trigger] bit64(x, v) && bit64(y, v)),
    ensures
        pop64(x ^ y) == pop64(x) + pop64(y),
{
    assert forall|v: u64| v < 64 implies !#[trigger] bit64(x & y, v) by {
        crate::bits::lemma_bit64_and(x, y, v);
    }
    lemma_pop64_zero_mask(x & y, 64);
    lemma_pop64_xor(x, y, 64);
}

/// Validation accepts every set-up whose cards are all different: the cards
/// in use then number exactly the cards given.
pub proof fn lemma_distinct_setup_counts(
    hole: Seq<Card>,
    board: Seq<Card>,
    opponents: Seq<[Card; 2]>,
)
    requires
        setup_cards_distinct(hole, board, opponents),
    ensures
        pop64(used_cards_mask(hole, board, opponents)) == 2 + board.len() + 2 * opponents.len(),
{
    let sb = card_bytes(board);
    let sh = card_bytes(hole);
    let so = pair_bytes(opponents);
    lemma_pair_bytes_index(opponents);
    assert forall|k: int| 0 <= k < sb.len() implies #[trigger] sb[k] < 64 by {
        crate::card::lemma_card_byte_small(board[k]@);
    }
    assert forall|k: int| 0 <= k < sh.len() implies #[trigger] sh[k] < 64 by {
        crate::card::lemma_card_byte_small(hole[k]@);
    }
    assert forall|k: int| 0 <= k < so.len() implies #[trigger] so[k] < 64 by {
        crate::card::lemma_card_byte_small(opponents[k / 2]@[k % 2]@);
    }
    assert(sb.no_duplicates());
    assert(sh.no_duplicates());
    assert forall|a: int, b: int| 0 <= a < so.len() && 0 <= b < so.len() && a != b implies so[a]
        != so[b] by {
        assert(so[a] == opponents[a / 2]@[a % 2]@);
        assert(so[b] == opponents[b / 2]@[b % 2]@);
    }
    lemma_cards_mask_exact(sb);
    lemma_cards_mask_exact(sh);
    lemma_cards_mask_exact(so);
    let a = cards_mask(sb);
    let b = cards_mask(sh);
    let o = cards_mask(so);
    lemma_cards_mask_push(sb, 0);
    lemma_cards_mask_push(sh, 0);
    lemma_cards_mask_push(so, 0);
    assert forall|v: u64| v < 64 implies !(#[trigger] bit64(a, v) && bit64(b, v)) by {
        if bit64(a, v) && bit64(b, v) {
            let i = choose|i: int| 0 <= i < sb.len() && sb[i] == v as u8;
            let h = choose|h: int| 0 <= h < sh.len() && sh[h] == v as u8;
            assert(board[i]@ != hole[h]@);
        }
    }
    lemma_disjoint_xor_count(a, b);
    assert forall|v: u64| v < 64 implies !(#[trigger] bit64(a ^ b, v) && bit64(o, v)) by {
        crate::bits::lemma_bit64_xor(a, b, v);
        if bit64(a ^ b, v) && bit64(o, v) {
            let m = choose|m: int| 0 <= m < so.len() && so[m] == v as u8;
            assert(so[m] == opponents[m / 2]@[m % 2]@);
            if bit64(a, v) {
                let i = choose|i: int| 0 <= i < sb.len() && sb[i] == v as u8;
                assert(opponents[m / 2]@[m % 2]@ != board[i]@);
            } else {
                let h = choose|h: int| 0 <= h < sh.len() && sh[h] == v as u8;
                assert(opponents[m / 2]@[m % 2]@ != hole[h]@);
            }
        }
    }
    lemma_disjoint_xor_count(a ^ b, o);
}

} // verus!
