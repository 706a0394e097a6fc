//! Printing cards.
use vstd::prelude::*;

verus! {

/// The rank letters, deuce to ace.
pub open spec fn rank_letters() -> Seq<char> {
    seq!['2', '3', '4', '5', '6', '7', '8', '9', 'T', 'J', 'Q', 'K', 'A']
}

/// The suit letters: clubs, diamonds, hearts, spades.
pub open spec fn suit_letters() -> Seq<char> {
    seq!['c', 'd', 'h', 's']
}

/// Appends one character to a string (`String::push`).
#[verifier::external_body]
pub(crate) fn push_char(s: &mut String, c: char)
    ensures
        final(s)@ == old(s)@.push(c),
{
    s.push(c);
}

fn rank_letter(r: i32) -> (c: char)
    requires
        0 <= r < 13,
    ensures
        c == rank_letters()[r as int],
{
    match r {
        0 => '2',
        1 => '3',
        2 => '4',
        3 => '5',
        4 => '6',
        5 => '7',
        6 => '8',
        7 => '9',
        8 => 'T',
        9 => 'J',
        10 => 'Q',
        11 => 'K',
        _ => 'A',
    }
}

fn suit_letter(s: i32) -> (c: char)
    requires
        0 <= s < 4,
    ensures
        c == suit_letters()[s as int],
{
    match s {
        0 => 'c',
        1 => 'd',
        2 => 'h',
        _ => 's',
    }
}

/// The two-letter name of a card, rank then suit: 1 is "2c", 52 is "As".
pub fn card_to_string(card: i32) -> (r: String)
    requires
        1 <= card <= 52,
    ensures
        r@ == seq![rank_letters()[(card - 1) / 4], suit_letters()[(card - 1) % 4]],
{
    let zero_based: i32 = card - 1;
    let rank: i32 = zero_based / 4;
    let suit: i32 = zero_based % 4;
    let mut s = String::new();
    push_char(&mut s, rank_letter(rank));
    push_char(&mut s, suit_letter(suit));
    assert(s@ =~= seq![rank_letters()[(card - 1) / 4], suit_letters()[(card - 1) % 4]]);
    s
}

} // verus!
