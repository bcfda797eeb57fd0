//! Cards, ranks and suits, and their one-byte encoding: the rank (2..=14) in
//! the low four bits and the suit in bits 4 and 5.
use vstd::prelude::*;
use crate::text::{concat3, text_eq};
use vstd::string::*;
use vstd::utf8::*;

verus! {

broadcast use {encode_utf8_decode_utf8, group_string_axioms};

/// Selects the suit bits of a card byte.
pub const SUIT_MASK: u8 = 0x30;

/// Selects the rank bits of a card byte.
pub const RANK_MASK: u8 = 0x0F;

/// The four suits, ordered by their encoding.
#[derive(Debug, Copy, Clone, PartialEq, Eq, PartialOrd, Ord, Structural)]
pub enum Suit {
    Hearts,
    Clubs,
    Diamonds,
    Spades,
}

/// The thirteen ranks, ordered from two to ace.
#[derive(Debug, Copy, Clone, PartialEq, Eq, PartialOrd, Ord, Structural)]
pub enum Rank {
    Two,
    Three,
    Four,
    Five,
    Six,
    Seven,
    Eight,
    Nine,
    Ten,
    Jack,
    Queen,
    King,
    Ace,
}

/// The suit's bits inside a card byte.
pub open spec fn suit_bits(s: Suit) -> u8 {
    match s {
        Suit::Hearts => 0x00u8,
        Suit::Clubs => 0x10u8,
        Suit::Diamonds => 0x20u8,
        Suit::Spades => 0x30u8,
    }
}

/// The suit that the suit bits of `v` name.
pub open spec fn suit_of_bits(v: u8) -> Suit {
    let b = v & 0x30u8;
    if b == 0x00u8 {
        Suit::Hearts
    } else if b == 0x10u8 {
        Suit::Clubs
    } else if b == 0x20u8 {
        Suit::Diamonds
    } else {
        Suit::Spades
    }
}

/// The numeric value of a rank, 2 for a two up to 14 for an ace.
pub open spec fn rank_number(r: Rank) -> u8 {
    match r {
        Rank::Two => 2u8,
        Rank::Three => 3u8,
        Rank::Four => 4u8,
        Rank::Five => 5u8,
        Rank::Six => 6u8,
        Rank::Seven => 7u8,
        Rank::Eight => 8u8,
        Rank::Nine => 9u8,
        Rank::Ten => 10u8,
        Rank::Jack => 11u8,
        Rank::Queen => 12u8,
        Rank::King => 13u8,
        Rank::Ace => 14u8,
    }
}

/// The rank with numeric value `n`, if there is one.
pub open spec fn rank_with_number(n: u8) -> Option<Rank> {
    if n == 2 {
        Some(Rank::Two)
    } else if n == 3 {
        Some(Rank::Three)
    } else if n == 4 {
        Some(Rank::Four)
    } else if n == 5 {
        Some(Rank::Five)
    } else if n == 6 {
        Some(Rank::Six)
    } else if n == 7 {
        Some(Rank::Seven)
    } else if n == 8 {
        Some(Rank::Eight)
    } else if n == 9 {
        Some(Rank::Nine)
    } else if n == 10 {
        Some(Rank::Ten)
    } else if n == 11 {
        Some(Rank::Jack)
    } else if n == 12 {
        Some(Rank::Queen)
    } else if n == 13 {
        Some(Rank::King)
    } else if n == 14 {
        Some(Rank::Ace)
    } else {
        None
    }
}

/// The rank that the rank bits of `v` name, if any.
pub open spec fn rank_of_bits(v: u8) -> Option<Rank> {
    rank_with_number(v & 0x0Fu8)
}

/// The one-letter text of a suit.
pub open spec fn suit_symbol(s: Suit) -> char {
    match s {
        Suit::Hearts => 'H',
        Suit::Clubs => 'C',
        Suit::Diamonds => 'D',
        Suit::Spades => 'S',
    }
}

/// The one-character text of a rank; ten is written `T`.
pub open spec fn rank_symbol(r: Rank) -> char {
    match r {
        Rank::Two => '2',
        Rank::Three => '3',
        Rank::Four => '4',
        Rank::Five => '5',
        Rank::Six => '6',
        Rank::Seven => '7',
        Rank::Eight => '8',
        Rank::Nine => '9',
        Rank::Ten => 'T',
        Rank::Jack => 'J',
        Rank::Queen => 'Q',
        Rank::King => 'K',
        Rank::Ace => 'A',
    }
}

/// The suit that a text names: exactly one of `H`, `C`, `D`, `S`.
pub open spec fn suit_from_text(t: Seq<char>) -> Option<Suit> {
    if t == seq!['H'] {
        Some(Suit::Hearts)
    } else if t == seq!['C'] {
        Some(Suit::Clubs)
    } else if t == seq!['D'] {
        Some(Suit::Diamonds)
    } else if t == seq!['S'] {
        Some(Suit::Spades)
    } else {
        None
    }
}

/// The rank that a text names: a digit 2 to 9, `10` or `T`, `J`, `Q`, `K`, `A`.
pub open spec fn rank_from_text(t: Seq<char>) -> Option<Rank> {
    if t == seq!['2'] {
        Some(Rank::Two)
    } else if t == seq!['3'] {
        Some(Rank::Three)
    } else if t == seq!['4'] {
        Some(Rank::Four)
    } else if t == seq!['5'] {
        Some(Rank::Five)
    } else if t == seq!['6'] {
        Some(Rank::Six)
    } else if t == seq!['7'] {
        Some(Rank::Seven)
    } else if t == seq!['8'] {
        Some(Rank::Eight)
    } else if t == seq!['9'] {
        Some(Rank::Nine)
    } else if t == seq!['1', '0'] || t == seq!['T'] {
        Some(Rank::Ten)
    } else if t == seq!['J'] {
        Some(Rank::Jack)
    } else if t == seq!['Q'] {
        Some(Rank::Queen)
    } else if t == seq!['K'] {
        Some(Rank::King)
    } else if t == seq!['A'] {
        Some(Rank::Ace)
    } else {
        None
    }
}

/// The message of a rejected suit text.
pub open spec fn invalid_suit_message(t: Seq<char>) -> Seq<char> {
    seq!['I', 'n', 'v', 'a', 'l', 'i', 'd', ' ', 's', 'u', 'i', 't', ' ', '\''] + t + seq!['\'']
}

/// The message of a rejected rank text.
pub open spec fn invalid_rank_message(t: Seq<char>) -> Seq<char> {
    seq!['I', 'n', 'v', 'a', 'l', 'i', 'd', ' ', 'r', 'a', 'n', 'k', ' ', '\''] + t + seq!['\'']
}

proof fn lemma_suit_bits_bv(v: u8)
    by (bit_vector)
    ensures
        v & 0x30u8 == 0u8 || v & 0x30u8 == 0x10u8 || v & 0x30u8 == 0x20u8 || v & 0x30u8
            == 0x30u8,
        v & 0x0Fu8 < 16u8,
        (v & 0x0Fu8) | (v & 0x30u8) == v & 0x3Fu8,
        v < 16 ==> v & 0x0Fu8 == v,
        (v == 0u8 || v == 0x10u8 || v == 0x20u8 || v == 0x30u8) ==> v & 0x30u8 == v,
        v & 0xC0u8 == 0u8 ==> v & 0x3Fu8 == v,
        v & 0xC0u8 == 0u8 ==> v < 64,
{
}

/// A card byte is below 64.
pub proof fn lemma_card_byte_small(v: u8)
    requires
        is_card_byte(v),
    ensures
        v < 64,
{
    lemma_suit_bits_bv(v);
}

/// A byte with a rank is the card byte of its rank and suit, up to bits 6 and 7.
pub proof fn lemma_byte_parts(v: u8)
    requires
        rank_of_bits(v) is Some,
    ensures
        card_byte(rank_of_card(v), suit_of_bits(v)) == v & 0x3Fu8,
{
    lemma_suit_bits_bv(v);
}

impl Suit {
    /// The suit's bits inside a card byte.
    pub fn bits(&self) -> (b: u8)
        ensures
            b == suit_bits(*self),
    {
        match self {
            Suit::Hearts => 0x00,
            Suit::Clubs => 0x10,
            Suit::Diamonds => 0x20,
            Suit::Spades => 0x30,
        }
    }

    /// The suit named by the suit bits of `value`; every byte names one.
    pub fn try_from(value: u8) -> (r: Result<Suit, &'static str>)
        ensures
            r matches Ok(s) && s == suit_of_bits(value),
    {
        proof {
            lemma_suit_bits_bv(value);
        }
        match value & SUIT_MASK {
            0x00 => Ok(Suit::Hearts),
            0x10 => Ok(Suit::Clubs),
            0x20 => Ok(Suit::Diamonds),
            _ => Ok(Suit::Spades),
        }
    }

    /// Parses the one-letter text of a suit.
    pub fn from_str(s: &str) -> (r: Result<Suit, String>)
        ensures
            match r {
                Ok(suit) => suit_from_text(s@) == Some(suit),
                Err(m) => suit_from_text(s@) is None && m@ == invalid_suit_message(s@),
            },
    {
        proof {
            reveal_strlit("H");
            assert("H"@ =~= seq!['H']);
            reveal_strlit("C");
            assert("C"@ =~= seq!['C']);
            reveal_strlit("D");
            assert("D"@ =~= seq!['D']);
            reveal_strlit("S");
            assert("S"@ =~= seq!['S']);
            reveal_strlit("Invalid suit '");
            reveal_strlit("'");
        }
        if text_eq(s, "H") {
            Ok(Suit::Hearts)
        } else if text_eq(s, "C") {
            Ok(Suit::Clubs)
        } else if text_eq(s, "D") {
            Ok(Suit::Diamonds)
        } else if text_eq(s, "S") {
            Ok(Suit::Spades)
        } else {
            let m = concat3("Invalid suit '", s, "'");
            assert(m@ =~= invalid_suit_message(s@));
            Err(m)
        }
    }


    /// The text of the suit, its symbol alone.
    pub fn text(&self) -> (t: &'static str)
        ensures
            t@ == seq![suit_symbol(*self)],
    {
        proof {
            reveal_strlit("H");
            assert("H"@ =~= seq!['H']);
            reveal_strlit("C");
            assert("C"@ =~= seq!['C']);
            reveal_strlit("D");
            assert("D"@ =~= seq!['D']);
            reveal_strlit("S");
            assert("S"@ =~= seq!['S']);
        }
        match self {
            Suit::Hearts => "H",
            Suit::Clubs => "C",
            Suit::Diamonds => "D",
            Suit::Spades => "S",
        }
    }

    /// The one-letter text of the suit.
    pub fn symbol(&self) -> (c: char)
        ensures
            c == suit_symbol(*self),
    {
        match self {
            Suit::Hearts => 'H',
            Suit::Clubs => 'C',
            Suit::Diamonds => 'D',
            Suit::Spades => 'S',
        }
    }
}

impl Rank {
    /// The numeric value of the rank, 2 to 14.
    pub fn number(&self) -> (n: u8)
        ensures
            n == rank_number(*self),
    {
        match self {
            Rank::Two => 2,
            Rank::Three => 3,
            Rank::Four => 4,
            Rank::Five => 5,
            Rank::Six => 6,
            Rank::Seven => 7,
            Rank::Eight => 8,
            Rank::Nine => 9,
            Rank::Ten => 10,
            Rank::Jack => 11,
            Rank::Queen => 12,
            Rank::King => 13,
            Rank::Ace => 14,
        }
    }

    /// The rank named by the rank bits of `value`; bits outside 2..=14 name none.
    pub fn try_from(value: u8) -> (r: Result<Rank, &'static str>)
        ensures
            match r {
                Ok(rank) => rank_of_bits(value) == Some(rank),
                Err(m) => rank_of_bits(value) is None && m@ == "Invalid rank value"@,
            },
    {
        match value & RANK_MASK {
            2 => Ok(Rank::Two),
            3 => Ok(Rank::Three),
            4 => Ok(Rank::Four),
            5 => Ok(Rank::Five),
            6 => Ok(Rank::Six),
            7 => Ok(Rank::Seven),
            8 => Ok(Rank::Eight),
            9 => Ok(Rank::Nine),
            10 => Ok(Rank::Ten),
            11 => Ok(Rank::Jack),
            12 => Ok(Rank::Queen),
            13 => Ok(Rank::King),
            14 => Ok(Rank::Ace),
            _ => Err("Invalid rank value"),
        }
    }

    /// Parses the text of a rank.
    pub fn from_str(s: &str) -> (r: Result<Rank, String>)
        ensures
            match r {
                Ok(rank) => rank_from_text(s@) == Some(rank),
                Err(m) => rank_from_text(s@) is None && m@ == invalid_rank_message(s@),
            },
    {
        proof {
            reveal_strlit("2");
            assert("2"@ =~= seq!['2']);
            reveal_strlit("3");
            assert("3"@ =~= seq!['3']);
            reveal_strlit("4");
            assert("4"@ =~= seq!['4']);
            reveal_strlit("5");
            assert("5"@ =~= seq!['5']);
            reveal_strlit("6");
            assert("6"@ =~= seq!['6']);
            reveal_strlit("7");
            assert("7"@ =~= seq!['7']);
            reveal_strlit("8");
            assert("8"@ =~= seq!['8']);
            reveal_strlit("9");
            assert("9"@ =~= seq!['9']);
            reveal_strlit("10");
            assert("10"@ =~= seq!['1', '0']);
            reveal_strlit("T");
            assert("T"@ =~= seq!['T']);
            reveal_strlit("J");
            assert("J"@ =~= seq!['J']);
            reveal_strlit("Q");
            assert("Q"@ =~= seq!['Q']);
            reveal_strlit("K");
            assert("K"@ =~= seq!['K']);
            reveal_strlit("A");
            assert("A"@ =~= seq!['A']);
            reveal_strlit("Invalid rank '");
            reveal_strlit("'");
        }
        if text_eq(s, "2") {
            Ok(Rank::Two)
        } else if text_eq(s, "3") {
            Ok(Rank::Three)
        } else if text_eq(s, "4") {
            Ok(Rank::Four)
        } else if text_eq(s, "5") {
            Ok(Rank::Five)
        } else if text_eq(s, "6") {
            Ok(Rank::Six)
        } else if text_eq(s, "7") {
            Ok(Rank::Seven)
        } else if text_eq(s, "8") {
            Ok(Rank::Eight)
        } else if text_eq(s, "9") {
            Ok(Rank::Nine)
        } else if text_eq(s, "10") || text_eq(s, "T") {
            Ok(Rank::Ten)
        } else if text_eq(s, "J") {
            Ok(Rank::Jack)
        } else if text_eq(s, "Q") {
            Ok(Rank::Queen)
        } else if text_eq(s, "K") {
            Ok(Rank::King)
        } else if text_eq(s, "A") {
            Ok(Rank::Ace)
        } else {
            let m = concat3("Invalid rank '", s, "'");
            assert(m@ =~= invalid_rank_message(s@));
            Err(m)
        }
    }


    /// The text of the rank, its symbol alone.
    pub fn text(&self) -> (t: &'static str)
        ensures
            t@ == seq![rank_symbol(*self)],
    {
        proof {
            reveal_strlit("2");
            assert("2"@ =~= seq!['2']);
            reveal_strlit("3");
            assert("3"@ =~= seq!['3']);
            reveal_strlit("4");
            assert("4"@ =~= seq!['4']);
            reveal_strlit("5");
            assert("5"@ =~= seq!['5']);
            reveal_strlit("6");
            assert("6"@ =~= seq!['6']);
            reveal_strlit("7");
            assert("7"@ =~= seq!['7']);
            reveal_strlit("8");
            assert("8"@ =~= seq!['8']);
            reveal_strlit("9");
            assert("9"@ =~= seq!['9']);
            reveal_strlit("T");
            assert("T"@ =~= seq!['T']);
            reveal_strlit("J");
            assert("J"@ =~= seq!['J']);
            reveal_strlit("Q");
            assert("Q"@ =~= seq!['Q']);
            reveal_strlit("K");
            assert("K"@ =~= seq!['K']);
            reveal_strlit("A");
            assert("A"@ =~= seq!['A']);
        }
        match self {
            Rank::Two => "2",
            Rank::Three => "3",
            Rank::Four => "4",
            Rank::Five => "5",
            Rank::Six => "6",
            Rank::Seven => "7",
            Rank::Eight => "8",
            Rank::Nine => "9",
            Rank::Ten => "T",
            Rank::Jack => "J",
            Rank::Queen => "Q",
            Rank::King => "K",
            Rank::Ace => "A",
        }
    }

    /// The one-character text of the rank; ten is written `T`.
    pub fn symbol(&self) -> (c: char)
        ensures
            c == rank_symbol(*self),
    {
        match self {
            Rank::Two => '2',
            Rank::Three => '3',
            Rank::Four => '4',
            Rank::Five => '5',
            Rank::Six => '6',
            Rank::Seven => '7',
            Rank::Eight => '8',
            Rank::Nine => '9',
            Rank::Ten => 'T',
            Rank::Jack => 'J',
            Rank::Queen => 'Q',
            Rank::King => 'K',
            Rank::Ace => 'A',
        }
    }
}


/// A card byte: a rank in 2..=14 in the low four bits, the suit in bits 4 and 5,
/// and bits 6 and 7 clear.
pub open spec fn is_card_byte(v: u8) -> bool {
    rank_of_bits(v) is Some && v & 0xC0u8 == 0u8
}

/// The byte of the card with the given rank and suit.
pub open spec fn card_byte(r: Rank, s: Suit) -> u8 {
    rank_number(r) | suit_bits(s)
}

/// The rank of a card byte.
pub open spec fn rank_of_card(v: u8) -> Rank {
    rank_of_bits(v)->Some_0
}

/// The two-character text of a card byte: rank then suit.
pub open spec fn card_text(v: u8) -> Seq<char> {
    seq![rank_symbol(rank_of_card(v)), suit_symbol(suit_of_bits(v))]
}

/// The message of a card text whose length is out of range.
pub open spec fn invalid_length_message(t: Seq<char>) -> Seq<char> {
    seq![
        'I', 'n', 'v', 'a', 'l', 'i', 'd', ' ', 'l', 'e', 'n', 'g', 't', 'h', ' ', 'f', 'o', 'r',
        ' ', 'c', 'a', 'r', 'd', ' ', 's', 't', 'r', 'i', 'n', 'g', ':', ' ', '\'',
    ] + t + seq!['\'']
}

/// A text of two or three bytes can be split before its last byte only when
/// that byte starts a character.
pub open spec fn card_text_splittable(t: Seq<char>) -> bool {
    let b = encode_utf8(t);
    b.len() < 2 || b.len() > 3 || is_char_boundary(b, b.len() - 1)
}

/// The message of a card text of the right length whose last byte does not
/// start a character, so that it has no one-byte suit.
pub open spec fn invalid_card_message(t: Seq<char>) -> Seq<char> {
    seq![
        'I', 'n', 'v', 'a', 'l', 'i', 'd', ' ', 'c', 'a', 'r', 'd', ' ', 's', 't', 'r', 'i', 'n',
        'g', ':', ' ', '\'',
    ] + t + seq!['\'']
}

/// What a normalized card text parses to: the card byte, or the error message.
/// The text must be two or three bytes long and its last byte must start a
/// character; all bytes but the last name the rank and the last byte names
/// the suit.
pub open spec fn parse_card_text(t: Seq<char>) -> Result<u8, Seq<char>> {
    let b = encode_utf8(t);
    let n = b.len();
    if n < 2 || n > 3 {
        Err(invalid_length_message(t))
    } else if !card_text_splittable(t) {
        Err(invalid_card_message(t))
    } else {
        let rank_text = decode_utf8(b.subrange(0, n - 1));
        let suit_text = decode_utf8(b.subrange(n - 1, n as int));
        match rank_from_text(rank_text) {
            None => Err(invalid_rank_message(rank_text)),
            Some(r) => match suit_from_text(suit_text) {
                None => Err(invalid_suit_message(suit_text)),
                Some(s) => Ok(card_byte(r, s)),
            },
        }
    }
}

/// The characters that Unicode gives the White_Space property.
pub open spec fn is_white_space(c: char) -> bool {
    ('\u{9}' <= c && c <= '\u{d}') || c == ' ' || c == '\u{85}' || c == '\u{a0}' || c
        == '\u{1680}' || ('\u{2000}' <= c && c <= '\u{200a}') || c == '\u{2028}' || c == '\u{2029}'
        || c == '\u{202f}' || c == '\u{205f}' || c == '\u{3000}'
}

/// The text without its leading white space.
pub open spec fn trim_start_text(t: Seq<char>) -> Seq<char>
    decreases t.len(),
{
    if t.len() > 0 && is_white_space(t[0]) {
        trim_start_text(t.drop_first())
    } else {
        t
    }
}

/// The text without its trailing white space.
pub open spec fn trim_end_text(t: Seq<char>) -> Seq<char>
    decreases t.len(),
{
    if t.len() > 0 && is_white_space(t.last()) {
        trim_end_text(t.drop_last())
    } else {
        t
    }
}

/// The text without leading and trailing white space.
pub open spec fn trimmed(t: Seq<char>) -> Seq<char> {
    trim_end_text(trim_start_text(t))
}

/// What `str::to_uppercase` gives for a text (the Unicode uppercase mapping).
pub uninterp spec fn uppercased(t: Seq<char>) -> Seq<char>;

/// The upper case of an ASCII character: `a` to `z` become `A` to `Z`, and
/// every other character stays.
pub open spec fn ascii_upper(c: char) -> char {
    if 'a' <= c && c <= 'z' {
        ((c as u32) - 32) as char
    } else {
        c
    }
}

/// `str::trim`: the documentation defines white space by the Unicode
/// White_Space property, which `is_white_space` lists.
#[verifier::external_body]
fn trim_text(s: &str) -> (r: &str)
    ensures
        r@ == trimmed(s@),
{
    s.trim()
}

/// The upper case of a text: on ASCII text each character's `ascii_upper`,
/// and otherwise the Unicode mapping.
pub open spec fn upper_text(t: Seq<char>) -> Seq<char> {
    if is_ascii_chars(t) {
        t.map_values(|c: char| ascii_upper(c))
    } else {
        uppercased(t)
    }
}

/// `str::to_uppercase`: the result is named by `uppercased`, since the Unicode
/// case mapping takes tables to state. On ASCII text the mapping is stated:
/// Unicode maps `a` to `z` to `A` to `Z` and leaves every other ASCII
/// character as it is; of other text nothing more is stated.
#[verifier::external_body]
fn uppercase_text(s: &str) -> (r: String)
    ensures
        r@ == uppercased(s@),
        is_ascii_chars(s@) ==> r@ == s@.map_values(|c: char| ascii_upper(c)),
{
    s.to_uppercase()
}

proof fn lemma_card_byte_bv(r: u8, s: u8)
    by (bit_vector)
    requires
        2 <= r <= 14,
        s == 0u8 || s == 0x10u8 || s == 0x20u8 || s == 0x30u8,
    ensures
        r ^ s == r | s,
        (r | s) & 0x0Fu8 == r,
        (r | s) & 0x30u8 == s,
        (r | s) & 0xC0u8 == 0u8,
{
}

/// The card byte of a rank and a suit is a card byte naming them.
pub proof fn lemma_card_byte(r: Rank, s: Suit)
    ensures
        is_card_byte(card_byte(r, s)),
        rank_of_bits(card_byte(r, s)) == Some(r),
        suit_of_bits(card_byte(r, s)) == s,
        rank_number(r) ^ suit_bits(s) == card_byte(r, s),
{
    lemma_card_byte_bv(rank_number(r), suit_bits(s));
}


/// A rank's number names the rank again, and a suit's bits name the suit again.
pub proof fn lemma_number_round_trip(r: Rank, s: Suit)
    ensures
        rank_of_bits(rank_number(r)) == Some(r),
        suit_of_bits(suit_bits(s)) == s,
{
    lemma_suit_bits_bv(rank_number(r));
    lemma_suit_bits_bv(suit_bits(s));
}

/// A rank's symbol parses to the rank, and a suit's symbol to the suit.
pub proof fn lemma_symbol_round_trip(r: Rank, s: Suit)
    ensures
        rank_from_text(seq![rank_symbol(r)]) == Some(r),
        suit_from_text(seq![suit_symbol(s)]) == Some(s),
{
    let t = seq![rank_symbol(r)];
    let u = seq![suit_symbol(s)];
    assert(t.len() == 1 && t[0] == rank_symbol(r));
    assert(u.len() == 1 && u[0] == suit_symbol(s));
    assert(seq!['1', '0'].len() == 2);
    assert(seq!['2'][0] == '2' && seq!['3'][0] == '3' && seq!['4'][0] == '4' && seq!['5'][0] == '5'
        && seq!['6'][0] == '6' && seq!['7'][0] == '7' && seq!['8'][0] == '8' && seq!['9'][0] == '9'
        && seq!['T'][0] == 'T' && seq!['J'][0] == 'J' && seq!['Q'][0] == 'Q' && seq!['K'][0] == 'K'
        && seq!['A'][0] == 'A');
    assert(seq!['H'][0] == 'H' && seq!['C'][0] == 'C' && seq!['D'][0] == 'D' && seq!['S'][0]
        == 'S');
    match r {
        Rank::Two => assert(t =~= seq!['2']),
        Rank::Three => assert(t =~= seq!['3']),
        Rank::Four => assert(t =~= seq!['4']),
        Rank::Five => assert(t =~= seq!['5']),
        Rank::Six => assert(t =~= seq!['6']),
        Rank::Seven => assert(t =~= seq!['7']),
        Rank::Eight => assert(t =~= seq!['8']),
        Rank::Nine => assert(t =~= seq!['9']),
        Rank::Ten => assert(t =~= seq!['T']),
        Rank::Jack => assert(t =~= seq!['J']),
        Rank::Queen => assert(t =~= seq!['Q']),
        Rank::King => assert(t =~= seq!['K']),
        Rank::Ace => assert(t =~= seq!['A']),
    }
    match s {
        Suit::Hearts => assert(u =~= seq!['H']),
        Suit::Clubs => assert(u =~= seq!['C']),
        Suit::Diamonds => assert(u =~= seq!['D']),
        Suit::Spades => assert(u =~= seq!['S']),
    }
}

/// The text of a card parses back to the card.
pub proof fn lemma_card_text_round_trip(v: u8)
    requires
        is_card_byte(v),
    ensures
        card_text_splittable(card_text(v)),
        parse_card_text(card_text(v)) == Ok::<u8, Seq<char>>(v),
{
    let r = rank_of_card(v);
    let s = suit_of_bits(v);
    let t = card_text(v);
    let a = seq![rank_symbol(r)];
    let b = seq![suit_symbol(s)];
    assert(t =~= a + b);
    assert(is_ascii_chars(t));
    assert(is_ascii_chars(a));
    assert(is_ascii_chars(b));
    is_ascii_chars_encode_utf8(t);
    is_ascii_chars_encode_utf8(a);
    is_ascii_chars_encode_utf8(b);
    let bytes = encode_utf8(t);
    encode_utf8_valid_utf8(t);
    encode_utf8_valid_utf8(a);
    encode_utf8_valid_utf8(b);
    assert(bytes.len() == 2);
    assert(bytes[1] == suit_symbol(s) as u8);
    assert(bytes.subrange(0, 1) =~= encode_utf8(a));
    assert(bytes.subrange(1, 2) =~= encode_utf8(b));
    assert(decode_utf8(encode_utf8(a)) == a);
    assert(decode_utf8(encode_utf8(b)) == b);
    lemma_symbol_round_trip(r, s);
    lemma_byte_parts(v);
    lemma_suit_bits_bv(v);
    is_char_boundary_iff_is_leading_byte(bytes, 1);
    assert(is_leading_byte_width_1(bytes[1]));
}

/// A playing card, stored as its card byte.
#[derive(Debug, Copy, Clone, PartialEq, Eq, Structural)]
pub struct Card(pub(crate) u8);

impl View for Card {
    type V = u8;

    closed spec fn view(&self) -> u8 {
        self.0
    }
}

impl Card {
    #[verifier::type_invariant]
    spec fn well_formed(self) -> bool {
        is_card_byte(self.0)
    }

    /// The card of the given rank and suit.
    pub fn new(rank: Rank, suit: Suit) -> (c: Card)
        ensures
            c@ == card_byte(rank, suit),
    {
        proof {
            lemma_card_byte(rank, suit);
        }
        Card(rank.number() ^ suit.bits())
    }

    /// The card's byte.
    pub fn byte(&self) -> (v: u8)
        ensures
            v == self@,
            is_card_byte(v),
    {
        proof {
            use_type_invariant(self);
        }
        self.0
    }

    /// The card's suit.
    pub fn suit(&self) -> (s: Suit)
        ensures
            s == suit_of_bits(self@),
    {
        proof {
            lemma_suit_bits_bv(self.0);
        }
        match self.0 & SUIT_MASK {
            0x00 => Suit::Hearts,
            0x10 => Suit::Clubs,
            0x20 => Suit::Diamonds,
            _ => Suit::Spades,
        }
    }

    /// The card's rank.
    pub fn rank(&self) -> (r: Rank)
        ensures
            rank_of_bits(self@) == Some(r),
            r == rank_of_card(self@),
    {
        proof {
            use_type_invariant(self);
        }
        match self.0 & RANK_MASK {
            2 => Rank::Two,
            3 => Rank::Three,
            4 => Rank::Four,
            5 => Rank::Five,
            6 => Rank::Six,
            7 => Rank::Seven,
            8 => Rank::Eight,
            9 => Rank::Nine,
            10 => Rank::Ten,
            11 => Rank::Jack,
            12 => Rank::Queen,
            13 => Rank::King,
            14 => Rank::Ace,
            _ => {
                proof {
                    assert(false);
                }
                Rank::Ace
            },
        }
    }

    /// The card's two-character text, rank then suit (ten is written `T`).
    pub fn to_string(&self) -> (t: String)
        ensures
            t@ == card_text(self@),
    {
        let mut t = String::from_str(self.rank().text());
        t.append(self.suit().text());
        assert(t@ =~= card_text(self@));
        t
    }

    /// Parses a card text that is already trimmed and in upper case.
    pub fn from_normalized(u: &str) -> (r: Result<Card, String>)
        ensures
            match r {
                Ok(c) => parse_card_text(u@) == Ok::<u8, Seq<char>>(c@),
                Err(m) => parse_card_text(u@) == Err::<u8, Seq<char>>(m@),
            },
    {
        proof {
            reveal_strlit("Invalid length for card string: '");
            reveal_strlit("Invalid card string: '");
            reveal_strlit("'");
        }
        let n = u.as_bytes().len();
        if n < 2 || n > 3 {
            let m = concat3("Invalid length for card string: '", u, "'");
            assert(m@ =~= invalid_length_message(u@));
            return Err(m);
        }
        if !u.is_char_boundary(n - 1) {
            let m = concat3("Invalid card string: '", u, "'");
            assert(m@ =~= invalid_card_message(u@));
            return Err(m);
        }
        let (rank_str, suit_str) = u.split_at(n - 1);
        proof {
            assert(decode_utf8(encode_utf8(rank_str@)) == rank_str@);
            assert(decode_utf8(encode_utf8(suit_str@)) == suit_str@);
        }
        let rank = match Rank::from_str(rank_str) {
            Ok(rank) => rank,
            Err(m) => {
                return Err(m);
            },
        };
        let suit = match Suit::from_str(suit_str) {
            Ok(suit) => suit,
            Err(m) => {
                return Err(m);
            },
        };
        Ok(Card::new(rank, suit))
    }

    /// Parses the text of a card, as `Card` does for command-line input: white
    /// space around the text is ignored and letters may be in either case.
    pub fn from_str(s: &str) -> (r: Result<Card, String>)
        ensures
            match r {
                Ok(c) => parse_card_text(upper_text(trimmed(s@))) == Ok::<u8, Seq<char>>(c@),
                Err(m) => parse_card_text(upper_text(trimmed(s@))) == Err::<u8, Seq<char>>(m@),
            },
    {
        let t = trim_text(s);
        let u = uppercase_text(t);
        Card::from_normalized(u.as_str())
    }
}


/// Trimming the start leaves a suffix of the text.
proof fn lemma_trim_start_suffix(t: Seq<char>)
    ensures
        exists|i: int| 0 <= i <= t.len() && trim_start_text(t) == t.subrange(i, t.len() as int),
        trim_start_text(t).len() > 0 ==> !is_white_space(trim_start_text(t)[0]),
    decreases t.len(),
{
    if t.len() > 0 && is_white_space(t[0]) {
        lemma_trim_start_suffix(t.drop_first());
        let i = choose|i: int|
            0 <= i <= t.drop_first().len() && trim_start_text(t.drop_first())
                == t.drop_first().subrange(i, t.drop_first().len() as int);
        assert(t.drop_first().subrange(i, t.drop_first().len() as int) =~= t.subrange(
            i + 1,
            t.len() as int,
        ));
    } else {
        assert(t.subrange(0, t.len() as int) =~= t);
    }
}

/// Trimming the end leaves a prefix of the text.
proof fn lemma_trim_end_prefix(t: Seq<char>)
    ensures
        exists|n: int| 0 <= n <= t.len() && trim_end_text(t) == t.subrange(0, n),
        trim_end_text(t).len() > 0 ==> !is_white_space(trim_end_text(t).last()),
    decreases t.len(),
{
    if t.len() > 0 && is_white_space(t.last()) {
        lemma_trim_end_prefix(t.drop_last());
        let n = choose|n: int|
            0 <= n <= t.drop_last().len() && trim_end_text(t.drop_last())
                == t.drop_last().subrange(0, n);
        assert(t.drop_last().subrange(0, n) =~= t.subrange(0, n));
    } else {
        assert(t.subrange(0, t.len() as int) =~= t);
    }
}

/// The trimmed text: a piece of the text, with no white space at either end.
proof fn lemma_trimmed_shape(t: Seq<char>)
    ensures
        exists|i: int, n: int| 0 <= i <= n <= t.len() && trimmed(t) == t.subrange(i, n),
        trimmed(t).len() > 0 ==> !is_white_space(trimmed(t)[0]) && !is_white_space(
            trimmed(t).last(),
        ),
{
    let a = trim_start_text(t);
    lemma_trim_start_suffix(t);
    lemma_trim_end_prefix(a);
    let i = choose|i: int| 0 <= i <= t.len() && a == t.subrange(i, t.len() as int);
    let n = choose|n: int| 0 <= n <= a.len() && trim_end_text(a) == a.subrange(0, n);
    assert(a.subrange(0, n) =~= t.subrange(i, i + n));
    if trimmed(t).len() > 0 {
        assert(trimmed(t)[0] == a[0]);
    }
}

/// Text with no white space at either end is its own trim.
proof fn lemma_trimmed_unchanged(t: Seq<char>)
    requires
        t.len() > 0 ==> !is_white_space(t[0]) && !is_white_space(t.last()),
    ensures
        trimmed(t) == t,
{
}

/// Normalising card text twice gives what normalising once gives, for ASCII
/// text: trimming and then upper-casing an already trimmed, upper-cased text
/// changes nothing, so the parse of a text and of its normalised form agree.
pub proof fn lemma_normalized_text_stable(t: Seq<char>)
    requires
        is_ascii_chars(t),
    ensures
        upper_text(trimmed(upper_text(trimmed(t)))) == upper_text(trimmed(t)),
{
    let u = trimmed(t);
    lemma_trimmed_shape(t);
    let (i, n) = choose|i: int, n: int| 0 <= i <= n <= t.len() && u == t.subrange(i, n);
    assert(is_ascii_chars(u)) by {
        assert forall|k: int| 0 <= k < u.len() implies '\0' <= #[trigger] u[k] <= '\u{7f}' by {
            assert(u[k] == t[i + k]);
        }
    }
    let w = u.map_values(|c: char| ascii_upper(c));
    assert(upper_text(u) == w);
    assert(is_ascii_chars(w)) by {
        assert forall|k: int| 0 <= k < w.len() implies '\0' <= #[trigger] w[k] <= '\u{7f}' by {
            assert(w[k] == ascii_upper(u[k]));
            assert('\0' <= u[k] <= '\u{7f}');
        }
    }
    if w.len() > 0 {
        assert(w[0] == ascii_upper(u[0]));
        assert(w.last() == ascii_upper(u.last()));
        assert('\0' <= u[0] <= '\u{7f}');
        assert('\0' <= u[u.len() - 1] <= '\u{7f}');
    }
    lemma_trimmed_unchanged(w);
    let ww = w.map_values(|c: char| ascii_upper(c));
    assert(ww =~= w) by {
        assert forall|k: int| 0 <= k < w.len() implies #[trigger] ww[k] == w[k] by {
            assert(w[k] == ascii_upper(u[k]));
        }
    }
}

/// The conventional name of the rank with value `n`: its decimal digits for
/// 2 to 10, and the initial of Jack, Queen, King and Ace for 11 to 14.
pub open spec fn number_name(n: u8) -> Seq<char> {
    if n <= 9 {
        seq![((n as u32) + 48) as char]
    } else if n == 10 {
        seq!['1', '0']
    } else if n == 11 {
        seq!['J']
    } else if n == 12 {
        seq!['Q']
    } else if n == 13 {
        seq!['K']
    } else {
        seq!['A']
    }
}

/// Rank texts mean their ranks: each rank's conventional name parses to that
/// rank, a text parses to a rank only when it is the rank's name (or `T` for
/// ten), and a rank is written as its name, with `T` for ten.
pub proof fn lemma_rank_names(r: Rank, t: Seq<char>)
    ensures
        rank_from_text(number_name(rank_number(r))) == Some(r),
        rank_from_text(t) == Some(r) ==> t == number_name(rank_number(r)) || (rank_number(r) == 10
            && t == seq!['T']),
        seq![rank_symbol(r)] == (if rank_number(r) == 10 {
            seq!['T']
        } else {
            number_name(rank_number(r))
        }),
{
    assert forall|c: char| (#[trigger] seq![c]).len() == 1 && seq![c][0] == c by {}
    assert(seq!['1', '0'].len() == 2 && seq!['1', '0'][0] == '1');
    match r {
        Rank::Two => {
            assert(number_name(2u8) =~= seq!['2']);
        },
        Rank::Three => {
            assert(number_name(3u8) =~= seq!['3']);
        },
        Rank::Four => {
            assert(number_name(4u8) =~= seq!['4']);
        },
        Rank::Five => {
            assert(number_name(5u8) =~= seq!['5']);
        },
        Rank::Six => {
            assert(number_name(6u8) =~= seq!['6']);
        },
        Rank::Seven => {
            assert(number_name(7u8) =~= seq!['7']);
        },
        Rank::Eight => {
            assert(number_name(8u8) =~= seq!['8']);
        },
        Rank::Nine => {
            assert(number_name(9u8) =~= seq!['9']);
        },
        Rank::Ten => {
            assert(number_name(10u8) =~= seq!['1', '0']);
            assert(rank_from_text(seq!['1', '0']) == Some(Rank::Ten));
        },
        Rank::Jack => {
            assert(rank_from_text(seq!['J']) == Some(Rank::Jack));
        },
        Rank::Queen => {
            assert(rank_from_text(seq!['Q']) == Some(Rank::Queen));
        },
        Rank::King => {
            assert(rank_from_text(seq!['K']) == Some(Rank::King));
        },
        Rank::Ace => {
            assert(rank_from_text(seq!['A']) == Some(Rank::Ace));
        },
    }
}

} // verus!
