//! Two-character card notation: a rank in `23456789TJQKA` and a suit in `hdcs`,
//! tokens separated by whitespace, input read as UTF-8 bytes.

use vstd::prelude::*;

use crate::card::Card;

verus! {

/// ASCII codes of the notation's characters.
pub const ZERO: u8 = 48;
pub const TWO: u8 = 50;
pub const NINE: u8 = 57;
pub const TEN: u8 = 84;
pub const JACK: u8 = 74;
pub const QUEEN: u8 = 81;
pub const KING: u8 = 75;
pub const ACE: u8 = 65;
pub const HEARTS: u8 = 104;
pub const DIAMONDS: u8 = 100;
pub const CLUBS: u8 = 99;
pub const SPADES: u8 = 115;

/// The length in bytes of the whitespace character that starts at `i` in the
/// UTF-8 text `s`, or 0 where none does. Whitespace is Unicode's White_Space:
/// U+0009..=U+000D, U+0020, U+0085, U+00A0, U+1680, U+2000..=U+200A, U+2028,
/// U+2029, U+202F, U+205F and U+3000.
pub open spec fn space_len(s: Seq<u8>, i: int) -> int {
    if i < 0 || i >= s.len() {
        0
    } else if s[i] == 32 || (9 <= s[i] <= 13) {
        1
    } else if s[i] == 0xC2 && i + 1 < s.len() && (s[i + 1] == 0x85 || s[i + 1] == 0xA0) {
        2
    } else if s[i] == 0xE1 && i + 2 < s.len() && s[i + 1] == 0x9A && s[i + 2] == 0x80 {
        3
    } else if s[i] == 0xE2 && i + 2 < s.len() && ((s[i + 1] == 0x80 && ((0x80 <= s[i + 2]
        <= 0x8A) || s[i + 2] == 0xA8 || s[i + 2] == 0xA9 || s[i + 2] == 0xAF)) || (s[i + 1]
        == 0x81 && s[i + 2] == 0x9F)) {
        3
    } else if s[i] == 0xE3 && i + 2 < s.len() && s[i + 1] == 0x80 && s[i + 2] == 0x80 {
        3
    } else {
        0
    }
}

/// The rank that a rank character names.
pub open spec fn rank_of_char(b: u8) -> Option<u8> {
    if TWO <= b <= NINE {
        Some((b - ZERO) as u8)
    } else if b == TEN {
        Some(10)
    } else if b == JACK {
        Some(11)
    } else if b == QUEEN {
        Some(12)
    } else if b == KING {
        Some(13)
    } else if b == ACE {
        Some(14)
    } else {
        None
    }
}

/// The suit that a suit character names: hearts 0, diamonds 1, clubs 2, spades 3.
pub open spec fn suit_of_char(b: u8) -> Option<u8> {
    if b == HEARTS {
        Some(0)
    } else if b == DIAMONDS {
        Some(1)
    } else if b == CLUBS {
        Some(2)
    } else if b == SPADES {
        Some(3)
    } else {
        None
    }
}

/// The card that a rank character and a suit character name.
pub open spec fn card_of_chars(r: u8, s: u8) -> Option<Card> {
    match (rank_of_char(r), suit_of_char(s)) {
        (Some(value), Some(suit)) => Some(Card { value, suit }),
        _ => None,
    }
}

/// The cards written in `s` from position `i` on, or `None` where a token is
/// not a card.
pub open spec fn cards_from(s: Seq<u8>, i: int) -> Option<Seq<Card>>
    decreases s.len() - i,
{
    if i < 0 || i >= s.len() {
        Some(seq![])
    } else if space_len(s, i) > 0 {
        cards_from(s, i + space_len(s, i))
    } else if i + 2 <= s.len() && (i + 2 == s.len() || space_len(s, i + 2) > 0) && card_of_chars(
        s[i],
        s[i + 1],
    ) is Some {
        match cards_from(s, i + 2) {
            Some(rest) => Some(seq![card_of_chars(s[i], s[i + 1])->Some_0] + rest),
            None => None,
        }
    } else {
        None
    }
}

/// `r` with `acc` in front of the cards, if any.
pub open spec fn after(acc: Seq<Card>, r: Option<Seq<Card>>) -> Option<Seq<Card>> {
    match r {
        Some(rest) => Some(acc + rest),
        None => None,
    }
}

/// Reads one card from a rank character and a suit character.
pub fn parse_card(rank: u8, suit: u8) -> (r: Option<Card>)
    ensures
        r == card_of_chars(rank, suit),
{
    let value: u8 = if TWO <= rank && rank <= NINE {
        rank - ZERO
    } else if rank == TEN {
        10
    } else if rank == JACK {
        11
    } else if rank == QUEEN {
        12
    } else if rank == KING {
        13
    } else if rank == ACE {
        14
    } else {
        return None;
    };
    let s: u8 = if suit == HEARTS {
        0
    } else if suit == DIAMONDS {
        1
    } else if suit == CLUBS {
        2
    } else if suit == SPADES {
        3
    } else {
        return None;
    };
    Some(Card { value, suit: s })
}

/// The length of the whitespace character at `i`, 0 where there is none.
fn space_at(input: &[u8], i: usize) -> (r: usize)
    requires
        i < input@.len(),
    ensures
        r == space_len(input@, i as int),
{
    let n = input.len();
    let b = input[i];
    if b == 32 || (9 <= b && b <= 13) {
        1
    } else if b == 0xC2 && n - i > 1 && (input[i + 1] == 0x85 || input[i + 1] == 0xA0) {
        2
    } else if n - i > 2 {
        let b1 = input[i + 1];
        let b2 = input[i + 2];
        if b == 0xE1 && b1 == 0x9A && b2 == 0x80 {
            3
        } else if b == 0xE2 && ((b1 == 0x80 && ((0x80 <= b2 && b2 <= 0x8A) || b2 == 0xA8 || b2
            == 0xA9 || b2 == 0xAF)) || (b1 == 0x81 && b2 == 0x9F)) {
            3
        } else if b == 0xE3 && b1 == 0x80 && b2 == 0x80 {
            3
        } else {
            0
        }
    } else {
        0
    }
}

/// The whitespace-separated cards of `input`, or `None` where any token is not
/// exactly a rank character followed by a suit character.
fn scan_cards(input: &[u8]) -> (r: Option<Vec<Card>>)
    ensures
        match r {
            Some(cards) => cards_from(input@, 0) == Some(cards@),
            None => cards_from(input@, 0) is None,
        },
{
    let ghost s = input@;
    let mut cards: Vec<Card> = Vec::new();
    let mut i: usize = 0;
    assert(after(seq![], cards_from(s, 0)) == cards_from(s, 0)) by {
        if let Some(x) = cards_from(s, 0) {
            assert(seq![] + x =~= x);
        }
    }
    while i < input.len()
        invariant
            i <= s.len(),
            s == input@,
            cards_from(s, 0) == after(cards@, cards_from(s, i as int)),
        decreases s.len() - i,
    {
        let sp = space_at(input, i);
        if sp > 0 {
            i += sp;
        } else {
            if input.len() - i < 2 {
                return None;
            }
            if input.len() - i > 2 && space_at(input, i + 2) == 0 {
                return None;
            }
            match parse_card(input[i], input[i + 1]) {
                Some(c) => {
                    proof {
                        if let Some(rest) = cards_from(s, i + 2) {
                            assert(cards@ + (seq![c] + rest) =~= cards@.push(c) + rest);
                        }
                    }
                    cards.push(c);
                    i += 2;
                },
                None => {
                    return None;
                },
            }
        }
    }
    assert(cards@ + seq![] =~= cards@);
    Some(cards)
}

/// Whether every whitespace-separated token of `input` is a rank character
/// followed by a suit character.
pub fn cards_well_formed(input: &[u8]) -> (r: bool)
    ensures
        r == (cards_from(input@, 0) is Some),
{
    scan_cards(input).is_some()
}

/// Reads the whitespace-separated cards of `input`, in order; the input must
/// be well formed.
pub fn parse_cards(input: &[u8]) -> (r: Vec<Card>)
    requires
        cards_from(input@, 0) is Some,
    ensures
        cards_from(input@, 0) == Some(r@),
{
    match scan_cards(input) {
        Some(cards) => cards,
        None => Vec::new(),
    }
}

} // verus!
