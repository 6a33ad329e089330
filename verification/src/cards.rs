//! The text notation of cards: rank, then suit, as in `Td`.

use vstd::prelude::*;

verus! {

/// The character of a rank, from `2` (rank 0) to `A` (rank 12).
pub open spec fn rank_char(rank: int) -> char {
    if rank < 8 {
        (rank + '2' as int) as char
    } else if rank == 8 {
        'T'
    } else if rank == 9 {
        'J'
    } else if rank == 10 {
        'Q'
    } else if rank == 11 {
        'K'
    } else {
        'A'
    }
}

/// The character of a suit: clubs, diamonds, hearts, spades.
pub open spec fn suit_char(suit: int) -> char {
    if suit == 0 {
        'c'
    } else if suit == 1 {
        'd'
    } else if suit == 2 {
        'h'
    } else {
        's'
    }
}

/// The rank that a character names; letters count in either case.
pub open spec fn rank_of(c: char) -> Option<u8> {
    if '2' <= c <= '9' {
        Some((c as int - '2' as int) as u8)
    } else if c == 'T' || c == 't' {
        Some(8)
    } else if c == 'J' || c == 'j' {
        Some(9)
    } else if c == 'Q' || c == 'q' {
        Some(10)
    } else if c == 'K' || c == 'k' {
        Some(11)
    } else if c == 'A' || c == 'a' {
        Some(12)
    } else {
        None
    }
}

/// The suit that a character names.
pub open spec fn suit_of(c: char) -> Option<u8> {
    if c == 'c' {
        Some(0)
    } else if c == 'd' {
        Some(1)
    } else if c == 'h' {
        Some(2)
    } else if c == 's' {
        Some(3)
    } else {
        None
    }
}

/// The card that a rank character and a suit character name together.
pub open spec fn card_of(rank: char, suit: char) -> Option<u8> {
    match (rank_of(rank), suit_of(suit)) {
        (Some(r), Some(s)) => Some((4 * r + s) as u8),
        _ => None,
    }
}

/// The text of a card; a number outside the deck has none.
pub open spec fn card_text(card: u8) -> Option<Seq<char>> {
    if card < 52 {
        Some(seq![rank_char((card / 4) as int), suit_char((card % 4) as int)])
    } else {
        None
    }
}

/// The text of a card, or nothing for a number outside the deck.
pub open spec fn text_or_nothing(card: u8) -> Seq<char> {
    match card_text(card) {
        Some(t) => t,
        None => Seq::empty(),
    }
}

/// The text of a flop: its cards one after the other.
pub open spec fn flop_text(cards: Seq<u8>) -> Seq<char> {
    text_or_nothing(cards[0]) + text_or_nothing(cards[1]) + text_or_nothing(cards[2])
}

fn read_rank(c: char) -> (r: Option<u8>)
    ensures
        r == rank_of(c),
{
    if '2' <= c && c <= '9' {
        Some((c as u32 - 50) as u8)
    } else if c == 'T' || c == 't' {
        Some(8)
    } else if c == 'J' || c == 'j' {
        Some(9)
    } else if c == 'Q' || c == 'q' {
        Some(10)
    } else if c == 'K' || c == 'k' {
        Some(11)
    } else if c == 'A' || c == 'a' {
        Some(12)
    } else {
        None
    }
}

fn read_suit(c: char) -> (r: Option<u8>)
    ensures
        r == suit_of(c),
{
    if c == 'c' {
        Some(0)
    } else if c == 'd' {
        Some(1)
    } else if c == 'h' {
        Some(2)
    } else if c == 's' {
        Some(3)
    } else {
        None
    }
}

/// The card that two characters name.
pub fn card_from_chars(rank: char, suit: char) -> (card: Option<u8>)
    ensures
        card == card_of(rank, suit),
{
    match (read_rank(rank), read_suit(suit)) {
        (Some(r), Some(s)) => Some(4 * r + s),
        _ => None,
    }
}

/// The text of a card, or `None` for a number outside the deck.
pub fn card_to_string(card: u8) -> (res: Option<String>)
    ensures
        match res {
            Some(t) => card_text(card) == Some(t@),
            None => card_text(card) is None,
        },
{
    if card >= 52 {
        return None;
    }
    let rank: u8 = card / 4;
    let suit: u8 = card % 4;
    let r: char = if rank < 8 {
        (rank + 50) as char
    } else if rank == 8 {
        'T'
    } else if rank == 9 {
        'J'
    } else if rank == 10 {
        'Q'
    } else if rank == 11 {
        'K'
    } else {
        'A'
    };
    let s: char = if suit == 0 {
        'c'
    } else if suit == 1 {
        'd'
    } else if suit == 2 {
        'h'
    } else {
        's'
    };
    let mut out: String = String::new();
    out.push(r);
    out.push(s);
    assert(out@ =~= seq![rank_char((card / 4) as int), suit_char((card % 4) as int)]);
    Some(out)
}

/// The text of a flop. Numbers outside the deck leave no trace in it.
pub fn flop_string(cards: [u8; 3]) -> (text: String)
    ensures
        text@ == flop_text(cards@),
{
    let mut text: String = card_to_string(cards[0]).unwrap_or_default();
    text.append(card_to_string(cards[1]).unwrap_or_default().as_str());
    text.append(card_to_string(cards[2]).unwrap_or_default().as_str());
    text
}

// ---- Laws ----------------------------------------------------------------------------------

/// Reading a card's text gives the card back.
pub proof fn law_card_text_reads_back(card: u8)
    requires
        card < 52,
    ensures
        card_text(card) is Some,
        card_text(card)->0.len() == 2,
        card_of(card_text(card)->0[0], card_text(card)->0[1]) == Some(card),
{
}

/// Different flops of the deck have different texts, all of six characters.
pub proof fn law_flop_texts_differ(a: Seq<u8>, b: Seq<u8>)
    requires
        a.len() == 3,
        b.len() == 3,
        forall|i: int| 0 <= i < 3 ==> #[trigger] a[i] < 52,
        forall|i: int| 0 <= i < 3 ==> #[trigger] b[i] < 52,
    ensures
        flop_text(a).len() == 6,
        flop_text(a) == flop_text(b) ==> a == b,
{
    let ta = flop_text(a);
    let tb = flop_text(b);
    assert forall|i: int| 0 <= i < 3 && ta == tb implies a[i] == b[i] by {
        assert(ta[2 * i] == card_text(a[i])->0[0] && ta[2 * i + 1] == card_text(a[i])->0[1]);
        assert(tb[2 * i] == card_text(b[i])->0[0] && tb[2 * i + 1] == card_text(b[i])->0[1]);
        law_card_text_reads_back(a[i]);
        law_card_text_reads_back(b[i]);
    }
    if ta == tb {
        assert(a =~= b);
    }
}

/// A card is written as its rank, then its suit.
pub proof fn law_cards_have_the_usual_notation(card: u8)
    requires
        card < 52,
    ensures
        card_text(card) == Some(
            seq!["23456789TJQKA"@[(card / 4) as int], "cdhs"@[(card % 4) as int]],
        ),
{
    reveal_strlit("23456789TJQKA");
    reveal_strlit("cdhs");
}

/// Two characters name a card exactly if they are its rank, in either case, and
/// its suit.
pub proof fn law_cards_are_read_in_either_case(rank: char, suit: char, card: u8)
    ensures
        card_of(rank, suit) == Some(card) <==> card < 52 && suit == "cdhs"@[(card % 4) as int] && (
        rank == "23456789TJQKA"@[(card / 4) as int] || rank == "23456789tjqka"@[(card
            / 4) as int]),
{
    reveal_strlit("23456789TJQKA");
    reveal_strlit("23456789tjqka");
    reveal_strlit("cdhs");
    match (rank_of(rank), suit_of(suit)) {
        (Some(r), Some(s)) => {
            assert(r < 13 && s < 4);
            assert((4 * r + s) / 4 == r && (4 * r + s) % 4 == s);
        },
        _ => {},
    }
}

/// The text of a flop is the notation of its cards, one after the other.
pub proof fn law_flop_text_lists_its_cards(cards: Seq<u8>, i: int)
    requires
        cards.len() == 3,
        forall|k: int| 0 <= k < 3 ==> #[trigger] cards[k] < 52,
        0 <= i < 3,
    ensures
        flop_text(cards).len() == 6,
        flop_text(cards)[2 * i] == "23456789TJQKA"@[(cards[i] / 4) as int],
        flop_text(cards)[2 * i + 1] == "cdhs"@[(cards[i] % 4) as int],
{
    law_cards_have_the_usual_notation(cards[0]);
    law_cards_have_the_usual_notation(cards[1]);
    law_cards_have_the_usual_notation(cards[2]);
}

} // verus!
