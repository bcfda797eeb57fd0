use wide_hand_eval::card::{Card, Rank, Suit};
use wide_hand_eval::equity::{
    extract_non_zeros, hand_arr_to_u64, hero_split, play_batch, score_hands, Deal, Draw, FULL_DECK,
    GAMES_PER_BATCH,
};
use wide_hand_eval::hand::{score_cards, Hand};
use wide_hand_eval::setup::{validate_setup, SetupError};
use std::cmp::Ordering;

fn c(rank: Rank, suit: Suit) -> Card {
    Card::new(rank, suit)
}

fn score(cards: [Card; 7]) -> u32 {
    score_cards(hand_arr_to_u64(&cards))
}

// ----- cards -----------------------------------------------------------------

#[test]
fn card_new_keeps_rank_and_suit() {
    let card = c(Rank::Queen, Suit::Diamonds);
    assert_eq!(card.rank(), Rank::Queen);
    assert_eq!(card.suit(), Suit::Diamonds);
    assert_eq!(card.byte(), 0x2C);
}

#[test]
fn rank_and_suit_try_from() {
    assert_eq!(Rank::try_from(0x2E), Ok(Rank::Ace));
    assert_eq!(Rank::try_from(0x02), Ok(Rank::Two));
    assert_eq!(Rank::try_from(0x0F), Err("Invalid rank value"));
    assert_eq!(Rank::try_from(0x31), Err("Invalid rank value"));
    assert_eq!(Suit::try_from(0x25), Ok(Suit::Diamonds));
    assert_eq!(Suit::try_from(0x3E), Ok(Suit::Spades));
    assert_eq!(Suit::try_from(0x00), Ok(Suit::Hearts));
}

#[test]
fn rank_and_suit_from_str() {
    assert_eq!(Rank::from_str("10"), Ok(Rank::Ten));
    assert_eq!(Rank::from_str("T"), Ok(Rank::Ten));
    assert_eq!(Rank::from_str("A"), Ok(Rank::Ace));
    assert_eq!(Rank::from_str("1"), Err("Invalid rank '1'".to_string()));
    assert_eq!(Rank::from_str("t"), Err("Invalid rank 't'".to_string()));
    assert_eq!(Suit::from_str("C"), Ok(Suit::Clubs));
    assert_eq!(Suit::from_str("X"), Err("Invalid suit 'X'".to_string()));
}

#[test]
fn card_from_str_accepts_card_texts() {
    assert_eq!(Card::from_str("AS"), Ok(c(Rank::Ace, Suit::Spades)));
    assert_eq!(Card::from_str(" as "), Ok(c(Rank::Ace, Suit::Spades)));
    assert_eq!(Card::from_str("10h"), Ok(c(Rank::Ten, Suit::Hearts)));
    assert_eq!(Card::from_str("td"), Ok(c(Rank::Ten, Suit::Diamonds)));
}

#[test]
fn card_from_str_errors() {
    assert_eq!(
        Card::from_str("A"),
        Err("Invalid length for card string: 'A'".to_string())
    );
    assert_eq!(
        Card::from_str("10HS"),
        Err("Invalid length for card string: '10HS'".to_string())
    );
    assert_eq!(Card::from_str("XS"), Err("Invalid rank 'X'".to_string()));
    assert_eq!(Card::from_str("AX"), Err("Invalid suit 'X'".to_string()));
    assert_eq!(Card::from_str("11S"), Err("Invalid rank '11'".to_string()));
}

#[test]
fn card_from_str_splitting_inside_a_character() {
    assert_eq!(Card::from_str("é"), Err("Invalid card string: 'É'".to_string()));
    assert_eq!(Card::from_str("Aé"), Err("Invalid card string: 'AÉ'".to_string()));
    assert_eq!(Card::from_str(" aé "), Err("Invalid card string: 'AÉ'".to_string()));
}

#[test]
fn card_from_str_ignores_space_and_case() {
    for s in [" as ", "Td", "10h\n", "x", "qQ", "aé", "\tkc"] {
        assert_eq!(Card::from_str(s), Card::from_str(&s.trim().to_uppercase()));
    }
}

#[test]
fn card_text_round_trip_all_cards() {
    for v in 0u8..64 {
        if FULL_DECK & (1u64 << v) != 0 {
            let card = c(Rank::try_from(v).unwrap(), Suit::try_from(v).unwrap());
            assert_eq!(card.byte(), v);
            let text = card.to_string();
            assert_eq!(text.len(), 2);
            assert_eq!(Card::from_normalized(&text), Ok(card));
        }
    }
    assert_eq!(c(Rank::Ten, Suit::Clubs).to_string(), "TC");
    assert_eq!(Rank::Ten.text(), "T");
    assert_eq!(Suit::Spades.symbol(), 'S');
}

#[test]
fn cards_compare_by_rank() {
    assert_eq!(
        c(Rank::Ace, Suit::Spades).partial_cmp(&c(Rank::Ace, Suit::Hearts)),
        Some(Ordering::Equal)
    );
    assert!(c(Rank::King, Suit::Spades) < c(Rank::Ace, Suit::Hearts));
    assert!(!(c(Rank::Two, Suit::Spades) > c(Rank::Two, Suit::Hearts)));
    assert!(c(Rank::Ace, Suit::Spades) != c(Rank::Ace, Suit::Hearts));
}

// ----- hand bits and scores --------------------------------------------------

#[test]
fn hand_bits_marks_low_ace() {
    let bits = hand_arr_to_u64(&[
        c(Rank::Ace, Suit::Clubs),
        c(Rank::Two, Suit::Hearts),
        c(Rank::Three, Suit::Hearts),
        c(Rank::Four, Suit::Hearts),
        c(Rank::Five, Suit::Hearts),
        c(Rank::Six, Suit::Hearts),
        c(Rank::Seven, Suit::Hearts),
    ]);
    assert_eq!(bits, (1u64 << 30) | (1u64 << 17) | 0b1111_1100);
}

#[test]
fn hand_bits_ignore_order() {
    let a = [
        c(Rank::Ace, Suit::Hearts),
        c(Rank::King, Suit::Diamonds),
        c(Rank::Queen, Suit::Clubs),
        c(Rank::Jack, Suit::Spades),
        c(Rank::Nine, Suit::Hearts),
        c(Rank::Five, Suit::Diamonds),
        c(Rank::Two, Suit::Diamonds),
    ];
    let mut b = a;
    b.reverse();
    assert_eq!(hand_arr_to_u64(&a), hand_arr_to_u64(&b));
}

#[test]
fn score_high_card_exact() {
    let s = score([
        c(Rank::Ace, Suit::Hearts),
        c(Rank::Queen, Suit::Spades),
        c(Rank::Ten, Suit::Diamonds),
        c(Rank::Eight, Suit::Clubs),
        c(Rank::Six, Suit::Hearts),
        c(Rank::Four, Suit::Diamonds),
        c(Rank::Two, Suit::Diamonds),
    ]);
    assert_eq!(s, 0x5540);
}

#[test]
fn score_pair_exact() {
    let s = score([
        c(Rank::Ace, Suit::Hearts),
        c(Rank::Ace, Suit::Diamonds),
        c(Rank::Queen, Suit::Hearts),
        c(Rank::Ten, Suit::Clubs),
        c(Rank::Eight, Suit::Spades),
        c(Rank::Five, Suit::Diamonds),
        c(Rank::Two, Suit::Diamonds),
    ]);
    assert_eq!(s, 0x1E00_1500);
}

#[test]
fn score_two_pair_exact() {
    let s = score([
        c(Rank::Ace, Suit::Hearts),
        c(Rank::Ace, Suit::Diamonds),
        c(Rank::Queen, Suit::Hearts),
        c(Rank::Queen, Suit::Clubs),
        c(Rank::Eight, Suit::Spades),
        c(Rank::Five, Suit::Diamonds),
        c(Rank::Two, Suit::Diamonds),
    ]);
    assert_eq!(s, 0x2EC0_0100);
}

#[test]
fn score_trips_exact() {
    let s = score([
        c(Rank::Ace, Suit::Hearts),
        c(Rank::Ace, Suit::Diamonds),
        c(Rank::Ace, Suit::Clubs),
        c(Rank::Queen, Suit::Clubs),
        c(Rank::Eight, Suit::Spades),
        c(Rank::Five, Suit::Diamonds),
        c(Rank::Two, Suit::Diamonds),
    ]);
    assert_eq!(s, 0x3E00_1100);
}

#[test]
fn score_straight_exact() {
    let s = score([
        c(Rank::Ace, Suit::Hearts),
        c(Rank::King, Suit::Diamonds),
        c(Rank::Queen, Suit::Clubs),
        c(Rank::Jack, Suit::Clubs),
        c(Rank::Ten, Suit::Spades),
        c(Rank::Five, Suit::Diamonds),
        c(Rank::Two, Suit::Diamonds),
    ]);
    assert_eq!(s, 0x4000_000E);
}

#[test]
fn score_flush_exact() {
    let s = score([
        c(Rank::Ace, Suit::Diamonds),
        c(Rank::King, Suit::Diamonds),
        c(Rank::Queen, Suit::Clubs),
        c(Rank::Jack, Suit::Diamonds),
        c(Rank::Seven, Suit::Spades),
        c(Rank::Five, Suit::Diamonds),
        c(Rank::Two, Suit::Diamonds),
    ]);
    assert_eq!(s, 0x5000_6824);
}

#[test]
fn score_flush_keeps_top_five_of_seven() {
    let s = score([
        c(Rank::Ace, Suit::Clubs),
        c(Rank::King, Suit::Clubs),
        c(Rank::Nine, Suit::Clubs),
        c(Rank::Seven, Suit::Clubs),
        c(Rank::Five, Suit::Clubs),
        c(Rank::Four, Suit::Clubs),
        c(Rank::Two, Suit::Clubs),
    ]);
    assert_eq!(s, 0x5000_0000 | (1 << 14) | (1 << 13) | (1 << 9) | (1 << 7) | (1 << 5));
}

#[test]
fn score_full_house_exact() {
    let s = score([
        c(Rank::Ace, Suit::Diamonds),
        c(Rank::Ace, Suit::Spades),
        c(Rank::Ace, Suit::Clubs),
        c(Rank::Jack, Suit::Diamonds),
        c(Rank::Jack, Suit::Spades),
        c(Rank::Five, Suit::Diamonds),
        c(Rank::Two, Suit::Diamonds),
    ]);
    assert_eq!(s, 0x6EB0_0000);
}

#[test]
fn score_quads_exact() {
    let s = score([
        c(Rank::Ace, Suit::Diamonds),
        c(Rank::Ace, Suit::Spades),
        c(Rank::Ace, Suit::Clubs),
        c(Rank::Ace, Suit::Hearts),
        c(Rank::Jack, Suit::Spades),
        c(Rank::Five, Suit::Diamonds),
        c(Rank::Two, Suit::Diamonds),
    ]);
    assert_eq!(s, 0xEE00_000C);
}

#[test]
fn score_wheel_straight_flush_exact() {
    let s = score([
        c(Rank::Ace, Suit::Hearts),
        c(Rank::Five, Suit::Hearts),
        c(Rank::Four, Suit::Hearts),
        c(Rank::Three, Suit::Hearts),
        c(Rank::Two, Suit::Hearts),
        c(Rank::Five, Suit::Diamonds),
        c(Rank::Two, Suit::Diamonds),
    ]);
    assert_eq!(s, 0xF000_0005);
}

#[test]
fn short_hand_takes_low_ace_bit_as_last_kicker() {
    // 7-7-K-3: the kicker pool gets bit 1 when there is no ace.
    let bits = (1u64 << 7) | (1u64 << (16 + 7)) | (1u64 << 13) | (1u64 << 3);
    assert_eq!(score_cards(bits), 0x1700_200A);
}

#[test]
fn straight_flushes_in_two_suits_fold_by_halves() {
    // Ace-high in hearts and six-high in clubs: the upper half (clubs) decides.
    let hearts = 0x7C02u64;
    let clubs = 0x007Cu64 << 16;
    assert_eq!(score_cards(hearts | clubs), 0xF000_0006);
    assert_eq!(score_cards(hearts), 0xF000_000E);
}

#[test]
fn score_of_empty_hand() {
    assert_eq!(score_cards(0), 0);
}

#[test]
fn lowest_two_pair_outranks_pair_of_aces() {
    let low_two_pair = score([
        c(Rank::Three, Suit::Hearts),
        c(Rank::Three, Suit::Diamonds),
        c(Rank::Two, Suit::Clubs),
        c(Rank::Two, Suit::Spades),
        c(Rank::Four, Suit::Hearts),
        c(Rank::Five, Suit::Diamonds),
        c(Rank::Nine, Suit::Clubs),
    ]);
    let pair_of_aces = score([
        c(Rank::Ace, Suit::Hearts),
        c(Rank::Ace, Suit::Diamonds),
        c(Rank::King, Suit::Clubs),
        c(Rank::Queen, Suit::Spades),
        c(Rank::Nine, Suit::Hearts),
        c(Rank::Eight, Suit::Diamonds),
        c(Rank::Six, Suit::Clubs),
    ]);
    assert!(low_two_pair > pair_of_aces);
}

fn hand_of(cards: [(Rank, Suit); 7]) -> u32 {
    score(cards.map(|(r, s)| c(r, s)))
}

#[test]
fn trips_kickers_decide() {
    let ace_king = hand_of([
        (Rank::Two, Suit::Hearts), (Rank::Two, Suit::Clubs), (Rank::Two, Suit::Diamonds),
        (Rank::Ace, Suit::Spades), (Rank::King, Suit::Hearts), (Rank::Seven, Suit::Clubs),
        (Rank::Five, Suit::Diamonds),
    ]);
    let king_queen = hand_of([
        (Rank::Two, Suit::Hearts), (Rank::Two, Suit::Clubs), (Rank::Two, Suit::Diamonds),
        (Rank::King, Suit::Spades), (Rank::Queen, Suit::Hearts), (Rank::Seven, Suit::Clubs),
        (Rank::Five, Suit::Diamonds),
    ]);
    assert!(ace_king > king_queen);
}

#[test]
fn high_card_counts_five_cards() {
    let with_three = hand_of([
        (Rank::Ace, Suit::Hearts), (Rank::Queen, Suit::Spades), (Rank::Ten, Suit::Diamonds),
        (Rank::Eight, Suit::Clubs), (Rank::Six, Suit::Hearts), (Rank::Four, Suit::Diamonds),
        (Rank::Three, Suit::Clubs),
    ]);
    let with_two = hand_of([
        (Rank::Ace, Suit::Hearts), (Rank::Queen, Suit::Spades), (Rank::Ten, Suit::Diamonds),
        (Rank::Eight, Suit::Clubs), (Rank::Six, Suit::Hearts), (Rank::Four, Suit::Diamonds),
        (Rank::Two, Suit::Clubs),
    ]);
    assert_eq!(with_three, with_two);
}

#[test]
fn full_house_counts_one_three_and_one_pair() {
    let two_threes = hand_of([
        (Rank::Ace, Suit::Hearts), (Rank::Ace, Suit::Clubs), (Rank::Ace, Suit::Diamonds),
        (Rank::King, Suit::Spades), (Rank::King, Suit::Hearts), (Rank::King, Suit::Clubs),
        (Rank::Queen, Suit::Diamonds),
    ]);
    let one_three = hand_of([
        (Rank::Ace, Suit::Hearts), (Rank::Ace, Suit::Clubs), (Rank::Ace, Suit::Diamonds),
        (Rank::King, Suit::Spades), (Rank::King, Suit::Hearts), (Rank::Queen, Suit::Clubs),
        (Rank::Jack, Suit::Diamonds),
    ]);
    assert_eq!(two_threes, one_three);
}

#[test]
fn two_pair_of_kings_and_queens_beats_pair_of_aces() {
    let kings_queens = hand_of([
        (Rank::King, Suit::Hearts), (Rank::King, Suit::Diamonds), (Rank::Queen, Suit::Hearts),
        (Rank::Queen, Suit::Clubs), (Rank::Eight, Suit::Spades), (Rank::Five, Suit::Diamonds),
        (Rank::Two, Suit::Diamonds),
    ]);
    let aces = hand_of([
        (Rank::Ace, Suit::Hearts), (Rank::Ace, Suit::Diamonds), (Rank::Queen, Suit::Hearts),
        (Rank::Ten, Suit::Clubs), (Rank::Eight, Suit::Spades), (Rank::Five, Suit::Diamonds),
        (Rank::Two, Suit::Diamonds),
    ]);
    assert!(kings_queens > aces);
}

#[test]
fn higher_trips_wins() {
    let threes = hand_of([
        (Rank::Three, Suit::Hearts), (Rank::Three, Suit::Clubs), (Rank::Three, Suit::Spades),
        (Rank::Four, Suit::Diamonds), (Rank::Six, Suit::Hearts), (Rank::Nine, Suit::Clubs), (Rank::Jack, Suit::Spades),
    ]);
    let twos = hand_of([
        (Rank::Two, Suit::Hearts), (Rank::Two, Suit::Clubs), (Rank::Two, Suit::Spades),
        (Rank::Ace, Suit::Diamonds), (Rank::King, Suit::Hearts), (Rank::Nine, Suit::Diamonds), (Rank::Seven, Suit::Spades),
    ]);
    assert!(threes > twos);
}

#[test]
fn higher_full_house_wins() {
    let threes_full = hand_of([
        (Rank::Three, Suit::Hearts), (Rank::Three, Suit::Clubs), (Rank::Three, Suit::Spades),
        (Rank::Two, Suit::Diamonds), (Rank::Two, Suit::Hearts), (Rank::Nine, Suit::Clubs), (Rank::Jack, Suit::Spades),
    ]);
    let twos_full = hand_of([
        (Rank::Two, Suit::Hearts), (Rank::Two, Suit::Clubs), (Rank::Two, Suit::Spades),
        (Rank::Ace, Suit::Diamonds), (Rank::Ace, Suit::Hearts), (Rank::King, Suit::Diamonds), (Rank::King, Suit::Spades),
    ]);
    assert!(threes_full > twos_full);
}

#[test]
fn two_pair_by_top_then_second_pair() {
    let queens_fives = hand_of([
        (Rank::Queen, Suit::Hearts), (Rank::Queen, Suit::Clubs), (Rank::Five, Suit::Spades),
        (Rank::Five, Suit::Diamonds), (Rank::Two, Suit::Hearts), (Rank::Three, Suit::Clubs), (Rank::Seven, Suit::Spades),
    ]);
    let queens_fours = hand_of([
        (Rank::Queen, Suit::Diamonds), (Rank::Queen, Suit::Spades), (Rank::Four, Suit::Spades),
        (Rank::Four, Suit::Diamonds), (Rank::Ace, Suit::Hearts), (Rank::King, Suit::Clubs), (Rank::Nine, Suit::Spades),
    ]);
    let jacks_tens = hand_of([
        (Rank::Jack, Suit::Diamonds), (Rank::Jack, Suit::Spades), (Rank::Ten, Suit::Spades),
        (Rank::Ten, Suit::Diamonds), (Rank::Ace, Suit::Hearts), (Rank::King, Suit::Clubs), (Rank::Nine, Suit::Spades),
    ]);
    assert!(queens_fives > queens_fours);
    assert!(queens_fours > jacks_tens);
}

#[test]
fn higher_pair_wins() {
    let threes = hand_of([
        (Rank::Three, Suit::Hearts), (Rank::Three, Suit::Clubs), (Rank::Five, Suit::Spades),
        (Rank::Six, Suit::Diamonds), (Rank::Eight, Suit::Hearts), (Rank::Ten, Suit::Clubs), (Rank::Queen, Suit::Spades),
    ]);
    let twos = hand_of([
        (Rank::Two, Suit::Hearts), (Rank::Two, Suit::Clubs), (Rank::Ace, Suit::Spades),
        (Rank::King, Suit::Diamonds), (Rank::Queen, Suit::Hearts), (Rank::Nine, Suit::Clubs), (Rank::Seven, Suit::Spades),
    ]);
    assert!(threes > twos);
}

#[test]
fn higher_flush_wins() {
    let king_high = hand_of([
        (Rank::King, Suit::Hearts), (Rank::Nine, Suit::Hearts), (Rank::Seven, Suit::Hearts),
        (Rank::Five, Suit::Hearts), (Rank::Three, Suit::Hearts), (Rank::Ace, Suit::Clubs), (Rank::Ace, Suit::Spades),
    ]);
    let queen_high = hand_of([
        (Rank::Queen, Suit::Clubs), (Rank::Jack, Suit::Clubs), (Rank::Ten, Suit::Clubs),
        (Rank::Eight, Suit::Clubs), (Rank::Six, Suit::Clubs), (Rank::Ace, Suit::Hearts), (Rank::King, Suit::Spades),
    ]);
    assert!(king_high > queen_high);
}

#[test]
fn hand_scores_sixteen_lanes() {
    let a = hand_arr_to_u64(&[
        c(Rank::Ace, Suit::Diamonds),
        c(Rank::Ace, Suit::Spades),
        c(Rank::Ace, Suit::Clubs),
        c(Rank::Ace, Suit::Hearts),
        c(Rank::Jack, Suit::Spades),
        c(Rank::Five, Suit::Diamonds),
        c(Rank::Two, Suit::Diamonds),
    ]);
    let b = hand_arr_to_u64(&[
        c(Rank::Ace, Suit::Hearts),
        c(Rank::Queen, Suit::Spades),
        c(Rank::Ten, Suit::Diamonds),
        c(Rank::Eight, Suit::Clubs),
        c(Rank::Six, Suit::Hearts),
        c(Rank::Four, Suit::Diamonds),
        c(Rank::Two, Suit::Diamonds),
    ]);
    let mut lanes = [0u64; 16];
    for (i, lane) in lanes.iter_mut().enumerate() {
        *lane = if i % 2 == 0 { a } else { b };
    }
    let scores = Hand::new(lanes).to_array();
    for (i, s) in scores.iter().enumerate() {
        assert_eq!(*s, if i % 2 == 0 { 0xEE00_000C } else { 0x5540 });
    }
}

// ----- dealing ---------------------------------------------------------------

fn readme_deal() -> (Deal, u64) {
    let hole = [c(Rank::Ace, Suit::Spades), c(Rank::Ace, Suit::Clubs)];
    let board = [
        c(Rank::Ace, Suit::Diamonds),
        c(Rank::Ten, Suit::Clubs),
        c(Rank::Nine, Suit::Spades),
    ];
    let opponents = [[c(Rank::Eight, Suit::Clubs), c(Rank::Six, Suit::Clubs)]];
    let used = validate_setup(&hole, &board, &opponents, 5).unwrap();
    (Deal::new(hole, &board, &opponents, 5, used), used)
}

#[test]
fn deal_counts_cards_to_draw() {
    let (deal, used) = readme_deal();
    assert_eq!(used.count_ones(), 7);
    assert_eq!(deal.board_cards_needed, 2);
    assert_eq!(deal.cards_to_draw, 12);
    assert_eq!(deal.available, FULL_DECK & !used);
    assert_eq!(deal.available.count_ones(), 45);
    assert_eq!(deal.forbidden.len(), 64 - 45);
    assert_eq!(deal.forbidden[0], 0);
    assert_eq!(deal.lookup[0x12].byte(), 0x12);
}

#[test]
fn screen_zeroes_unavailable_cards() {
    let (deal, _) = readme_deal();
    let mut block = [0u8; 64];
    block[0] = 0x2E; // ace of diamonds, on the board
    block[1] = 0xC2 | 0x00; // two of hearts after masking the two high bits
    block[2] = 0x0F; // rank 15: no card
    block[3] = 0x33; // three of spades
    let lanes = deal.screen(&block);
    assert_eq!(lanes[0], 0);
    assert_eq!(lanes[1], 0x02);
    assert_eq!(lanes[2], 0);
    assert_eq!(lanes[3], 0x33);
    assert!(lanes[4..].iter().all(|&v| v == 0));
}

#[test]
fn absorb_takes_each_card_once_and_stops_when_full() {
    let (deal, _) = readme_deal();
    let mut block = [0u8; 64];
    for (i, lane) in block.iter_mut().enumerate() {
        *lane = [0x02u8, 0x02, 0x13, 0x24, 0x35, 0x05][i % 6];
    }
    let mut draw = Draw::new();
    draw.absorb(&deal, &block);
    assert_eq!(draw.cards, vec![0x02, 0x13, 0x24, 0x35, 0x05]);
    assert!(!draw.is_complete(&deal));
    let mut block2 = [0u8; 64];
    for (i, lane) in block2.iter_mut().enumerate() {
        *lane = 0x02 + (i as u8 % 13);
    }
    draw.absorb(&deal, &block2);
    assert_eq!(draw.cards.len(), 12);
    assert!(draw.is_complete(&deal));
    assert_eq!(
        draw.cards,
        vec![0x02, 0x13, 0x24, 0x35, 0x05, 0x03, 0x04, 0x06, 0x07, 0x08, 0x09, 0x0A]
    );
}

#[test]
fn extract_non_zeros_keeps_order() {
    let mut v = [0u8; 64];
    v[3] = 7;
    v[10] = 1;
    v[63] = 9;
    assert_eq!(extract_non_zeros(&v), vec![7, 1, 9]);
}

// ----- tallying --------------------------------------------------------------

#[test]
fn hero_split_counts_winners() {
    assert_eq!(hero_split(&[5, 3, 4]), 1);
    assert_eq!(hero_split(&[5, 5, 4]), 2);
    assert_eq!(hero_split(&[5, 5, 5]), 3);
    assert_eq!(hero_split(&[4, 5, 5]), 0);
    assert_eq!(hero_split(&[1]), 1);
}

#[test]
fn pot_shares_add_up() {
    let scores = [9u32, 9, 2, 9, 1];
    let mut sharers = 0;
    for p in 0..scores.len() {
        let mut rotated = scores.to_vec();
        rotated.swap(0, p);
        let parts = hero_split(&rotated);
        if parts != 0 {
            assert_eq!(parts, 3);
            sharers += 1;
        }
    }
    assert_eq!(sharers, 3);
}

#[test]
fn play_batch_with_nothing_left_to_deal() {
    let hole = [c(Rank::Ace, Suit::Spades), c(Rank::Ace, Suit::Clubs)];
    let board = [
        c(Rank::Two, Suit::Diamonds),
        c(Rank::Seven, Suit::Clubs),
        c(Rank::Nine, Suit::Spades),
        c(Rank::Jack, Suit::Hearts),
        c(Rank::Four, Suit::Hearts),
    ];
    let opponents = [[c(Rank::King, Suit::Clubs), c(Rank::King, Suit::Hearts)]];
    let used = validate_setup(&hole, &board, &opponents, 0).unwrap();
    let deal = Deal::new(hole, &board, &opponents, 0, used);
    let draws = vec![Vec::new(); GAMES_PER_BATCH];
    assert_eq!(play_batch(&deal, &draws), vec![1; GAMES_PER_BATCH]);
}

#[test]
fn play_batch_split_pot() {
    let hole = [c(Rank::Two, Suit::Spades), c(Rank::Three, Suit::Clubs)];
    let board = [
        c(Rank::Ace, Suit::Hearts),
        c(Rank::King, Suit::Hearts),
        c(Rank::Queen, Suit::Hearts),
        c(Rank::Jack, Suit::Hearts),
        c(Rank::Ten, Suit::Hearts),
    ];
    let opponents = [[c(Rank::Four, Suit::Clubs), c(Rank::Five, Suit::Diamonds)]];
    let used = validate_setup(&hole, &board, &opponents, 0).unwrap();
    let deal = Deal::new(hole, &board, &opponents, 0, used);
    let draws = vec![Vec::new(); GAMES_PER_BATCH];
    assert_eq!(play_batch(&deal, &draws), vec![2; GAMES_PER_BATCH]);
}

#[test]
fn play_batch_with_dealt_cards() {
    let hole = [c(Rank::Ace, Suit::Spades), c(Rank::Ace, Suit::Clubs)];
    let board = [
        c(Rank::Two, Suit::Diamonds),
        c(Rank::Seven, Suit::Clubs),
        c(Rank::Nine, Suit::Spades),
    ];
    let used = validate_setup(&hole, &board, &[], 1).unwrap();
    let deal = Deal::new(hole, &board, &[], 1, used);
    assert_eq!(deal.cards_to_draw, 4);
    // Board gets the jack of hearts and four of hearts; the opponent gets two kings.
    let game = vec![0x0B, 0x04, 0x1D, 0x0D];
    let draws = vec![game; GAMES_PER_BATCH];
    assert_eq!(play_batch(&deal, &draws), vec![1; GAMES_PER_BATCH]);
    // Board gets the seven and two of hearts; the opponent's seven and two make a full house.
    let game2 = vec![0x07, 0x02, 0x37, 0x12];
    let draws2 = vec![game2; GAMES_PER_BATCH];
    assert_eq!(play_batch(&deal, &draws2), vec![0; GAMES_PER_BATCH]);
}

#[test]
fn play_batch_mixed_games() {
    let hole = [c(Rank::Ace, Suit::Spades), c(Rank::Ace, Suit::Clubs)];
    let board = [
        c(Rank::Two, Suit::Diamonds),
        c(Rank::Seven, Suit::Clubs),
        c(Rank::Nine, Suit::Spades),
    ];
    let opponents = [[c(Rank::Six, Suit::Clubs), c(Rank::Six, Suit::Diamonds)]];
    let used = validate_setup(&hole, &board, &opponents, 1).unwrap();
    let deal = Deal::new(hole, &board, &opponents, 1, used);
    let win = vec![0x0B, 0x04, 0x1D, 0x0D];
    let lose = vec![0x07, 0x02, 0x37, 0x12];
    let mut draws = Vec::new();
    for g in 0..17 {
        draws.push(if g % 3 == 0 { lose.clone() } else { win.clone() });
    }
    let expected: Vec<usize> = (0..17).map(|g| if g % 3 == 0 { 0 } else { 1 }).collect();
    assert_eq!(play_batch(&deal, &draws), expected);
    assert_eq!(play_batch(&deal, &Vec::new()), Vec::<usize>::new());
}

#[test]
fn score_hands_across_groups() {
    let royal = hand_arr_to_u64(&[
        c(Rank::Ace, Suit::Hearts),
        c(Rank::King, Suit::Hearts),
        c(Rank::Queen, Suit::Hearts),
        c(Rank::Jack, Suit::Hearts),
        c(Rank::Ten, Suit::Hearts),
        c(Rank::Two, Suit::Clubs),
        c(Rank::Three, Suit::Diamonds),
    ]);
    let hands: Vec<u64> = (0..37u64).map(|i| if i % 5 == 0 { royal } else { 0 }).collect();
    let scores = score_hands(&hands);
    assert_eq!(scores.len(), 37);
    for (i, s) in scores.iter().enumerate() {
        assert_eq!(*s, score_cards(hands[i]));
    }
    assert_eq!(scores[35], score_cards(royal));
    assert_ne!(scores[35], scores[36]);
    assert!(score_hands(&Vec::new()).is_empty());
}

#[test]
fn renaming_suits_keeps_scores() {
    let cards = [
        (Rank::Ace, Suit::Hearts), (Rank::King, Suit::Hearts), (Rank::Queen, Suit::Hearts),
        (Rank::Jack, Suit::Hearts), (Rank::Ten, Suit::Clubs), (Rank::Two, Suit::Diamonds),
        (Rank::Two, Suit::Spades),
    ];
    let rename = |s: Suit| match s {
        Suit::Hearts => Suit::Spades,
        Suit::Clubs => Suit::Hearts,
        Suit::Diamonds => Suit::Clubs,
        Suit::Spades => Suit::Diamonds,
    };
    let renamed = cards.map(|(r, s)| (r, rename(s)));
    assert_eq!(hand_of(cards), hand_of(renamed));
    let flush = [
        (Rank::Ace, Suit::Clubs), (Rank::Nine, Suit::Clubs), (Rank::Seven, Suit::Clubs),
        (Rank::Five, Suit::Clubs), (Rank::Three, Suit::Clubs), (Rank::Two, Suit::Diamonds),
        (Rank::King, Suit::Spades),
    ];
    assert_eq!(hand_of(flush), hand_of(flush.map(|(r, s)| (r, rename(s)))));
}

#[test]
fn heads_up_shares_are_complementary() {
    let board = [
        c(Rank::Two, Suit::Diamonds),
        c(Rank::Seven, Suit::Clubs),
        c(Rank::Nine, Suit::Spades),
        c(Rank::Jack, Suit::Hearts),
        c(Rank::Four, Suit::Hearts),
    ];
    let cases = [
        ([c(Rank::Ace, Suit::Spades), c(Rank::Ace, Suit::Clubs)],
         [c(Rank::King, Suit::Clubs), c(Rank::King, Suit::Hearts)], (1, 0)),
        ([c(Rank::Ace, Suit::Spades), c(Rank::Three, Suit::Clubs)],
         [c(Rank::Ace, Suit::Hearts), c(Rank::Three, Suit::Diamonds)], (2, 2)),
    ];
    for (a, b, expected) in cases {
        let used_ab = validate_setup(&a, &board, &[b], 0).unwrap();
        let used_ba = validate_setup(&b, &board, &[a], 0).unwrap();
        let ab = Deal::new(a, &board, &[b], 0, used_ab);
        let ba = Deal::new(b, &board, &[a], 0, used_ba);
        let draws = vec![Vec::new(); 3];
        assert_eq!(play_batch(&ab, &draws), vec![expected.0; 3]);
        assert_eq!(play_batch(&ba, &draws), vec![expected.1; 3]);
    }
}

// ----- set-up validation -----------------------------------------------------

#[test]
fn validate_setup_errors() {
    let hole = [c(Rank::Ace, Suit::Spades), c(Rank::Ace, Suit::Clubs)];
    let six = [c(Rank::Two, Suit::Hearts); 6];
    assert_eq!(validate_setup(&hole, &six, &[], 1), Err(SetupError::TooManyBoardCards));
    assert_eq!(validate_setup(&hole, &[], &[], 0), Err(SetupError::BadOpponentCount));
    assert_eq!(validate_setup(&hole, &[], &[], 22), Err(SetupError::BadOpponentCount));
    assert_eq!(
        validate_setup(&hole, &[c(Rank::Ace, Suit::Spades)], &[], 1),
        Err(SetupError::RepeatedCard)
    );
    assert_eq!(
        validate_setup(&hole, &[], &[[c(Rank::Two, Suit::Hearts), c(Rank::Two, Suit::Hearts)]], 0),
        Err(SetupError::RepeatedCard)
    );
    assert_eq!(
        validate_setup(&hole, &[], &[], 21),
        Ok((1u64 << 0x3E) | (1u64 << 0x1E))
    );
}
