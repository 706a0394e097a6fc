//! The rules of Kuhn poker: three cards (K, Q, J), one card each, actions bet (`b`) and pass
//! (`p`). An information set is written as the owner's card followed by the actions so far.
use vstd::prelude::*;
use crate::game::helpers::push_char;

verus! {

/// The three cards, highest first.
pub open spec fn kuhn_ranks() -> Seq<char> {
    seq!['K', 'Q', 'J']
}

/// The elements of `s` other than `c`, in order.
pub open spec fn without(s: Seq<char>, c: char) -> Seq<char>
    decreases s.len(),
{
    if s.len() == 0 {
        seq![]
    } else {
        without(s.drop_last(), c) + if s.last() != c {
            seq![s.last()]
        } else {
            seq![]
        }
    }
}

/// The cards the opponent may hold when the owner holds `pocket`.
pub open spec fn opponent_pockets(pocket: char) -> Seq<char> {
    without(kuhn_ranks(), pocket)
}

/// The action histories that end a hand.
pub open spec fn is_terminal_history(h: Seq<char>) -> bool {
    ||| h == seq!['p', 'p']
    ||| h == seq!['b', 'b']
    ||| h == seq!['b', 'p']
    ||| h == seq!['p', 'b', 'b']
    ||| h == seq!['p', 'b', 'p']
}

/// Player one's card beats player two's: a king always wins, a jack always loses, and a queen
/// beats a jack.
pub open spec fn higher(p1: char, p2: char) -> bool {
    p1 == 'K' || (p1 != 'J' && p2 == 'J')
}

/// The pair of cards can be compared: one of them is a king or a jack.
pub open spec fn comparable(p1: char, p2: char) -> bool {
    p1 == 'K' || p1 == 'J' || p2 == 'K' || p2 == 'J'
}

/// The histories that go to a showdown.
pub open spec fn is_showdown(h: Seq<char>) -> bool {
    h == seq!['p', 'p'] || h == seq!['b', 'b'] || h == seq!['p', 'b', 'b']
}

/// The payoffs to the two players at the end of history `h`: a check-down is worth one chip to
/// the higher card, a fold after a bet one chip to the bettor, a called bet two chips to the
/// higher card.
pub open spec fn terminal_utility(p1: char, p2: char, h: Seq<char>) -> (i32, i32) {
    if h == seq!['p', 'b', 'p'] {
        (-1i32, 1i32)
    } else if h == seq!['b', 'p'] {
        (1i32, -1i32)
    } else if h == seq!['p', 'p'] {
        if higher(p1, p2) {
            (1i32, -1i32)
        } else {
            (-1i32, 1i32)
        }
    } else if higher(p1, p2) {
        (2i32, -2i32)
    } else {
        (-2i32, 2i32)
    }
}

/// A character that takes one byte in UTF-8.
pub open spec fn is_ascii_char(c: char) -> bool {
    (c as u32) < 128
}

/// Whether `s` spells exactly the characters of `w`.
fn spells(s: &str, w: &[char]) -> (r: bool)
    ensures
        r == (s@ == w@),
{
    let n: usize = s.unicode_len();
    if n != w.len() {
        return false;
    }
    let mut i: usize = 0;
    while i < n
        invariant
            i <= n,
            n == s@.len(),
            n == w@.len(),
            forall|j: int| 0 <= j < i ==> s@[j] == w@[j],
        decreases n - i,
    {
        if s.get_char(i) != w[i] {
            return false;
        }
        i = i + 1;
    }
    assert(s@ =~= w@);
    true
}

/// The player who decides at an information set: 0 when the string's length in bytes is
/// odd, 1 when it is even.
pub fn get_deciding_player_for_infoset_str(info: &str) -> (r: usize)
    ensures
        r as int == (info.len() as int - 1) % 2,
{
    let n: usize = info.len();
    if n % 2 == 0 {
        1
    } else {
        0
    }
}

/// Whether an action history ends the hand: pass-pass, bet-bet, bet-pass, pass-bet-bet or
/// pass-bet-pass.
pub fn terminal_action(action_str: &str) -> (r: bool)
    ensures
        r == is_terminal_history(action_str@),
{
    spells(action_str, &['p', 'p']) || spells(action_str, &['b', 'b']) || spells(
        action_str,
        &['b', 'p'],
    ) || spells(action_str, &['p', 'b', 'b']) || spells(action_str, &['p', 'b', 'p'])
}

/// The cards other than `pocket`, highest first.
pub fn get_possible_opponent_pockets(pocket: char) -> (r: Vec<char>)
    ensures
        r@ == opponent_pockets(pocket),
{
    let mut v: Vec<char> = Vec::new();
    if 'K' != pocket {
        v.push('K');
    }
    if 'Q' != pocket {
        v.push('Q');
    }
    if 'J' != pocket {
        v.push('J');
    }
    proof {
        reveal_with_fuel(without, 4);
        assert(kuhn_ranks().drop_last() =~= seq!['K', 'Q']);
        assert(kuhn_ranks().drop_last().drop_last() =~= seq!['K']);
        assert(kuhn_ranks().drop_last().drop_last().drop_last() =~= Seq::<char>::empty());
        assert(v@ =~= opponent_pockets(pocket));
    }
    v
}

/// The opponent's information sets that lead to `info`: for each card the opponent may hold,
/// that card followed by the actions of `info` without its last one.
pub fn get_ancestral_infoset_strs(info: &str) -> (r: Vec<String>)
    requires
        info@.len() >= 2,
        is_ascii_char(info@[0]),
        is_ascii_char(info@.last()),
    ensures
        r@.len() == opponent_pockets(info@[0]).len(),
        forall|k: int|
            0 <= k < r@.len() ==> #[trigger] r@[k]@ == seq![opponent_pockets(info@[0])[k]]
                + info@.subrange(1, info@.len() - 1),
{
    let n: usize = info.unicode_len();
    let opps: Vec<char> = get_possible_opponent_pockets(info.get_char(0));
    let mid: &str = info.substring_char(1, n - 1);
    let mut out: Vec<String> = Vec::new();
    let mut k: usize = 0;
    while k < opps.len()
        invariant
            k <= opps@.len(),
            opps@ == opponent_pockets(info@[0]),
            mid@ == info@.subrange(1, info@.len() - 1),
            out@.len() == k,
            forall|j: int| 0 <= j < k ==> #[trigger] out@[j]@ == seq![opps@[j]] + mid@,
        decreases opps@.len() - k,
    {
        let mut s = String::new();
        push_char(&mut s, opps[k]);
        s.append(mid);
        out.push(s);
        k = k + 1;
    }
    out
}

/// The owner's information sets reached from `info` by `action` and the opponent's reply: for
/// each card the opponent may hold, that card followed by the actions of `info` and `action`.
pub fn get_descendant_infoset_strs(info: &str, action: char) -> (r: Vec<String>)
    requires
        info@.len() >= 1,
        is_ascii_char(info@[0]),
    ensures
        r@.len() == opponent_pockets(info@[0]).len(),
        forall|k: int|
            0 <= k < r@.len() ==> #[trigger] r@[k]@ == seq![opponent_pockets(info@[0])[k]]
                + info@.subrange(1, info@.len() as int) + seq![action],
{
    let n: usize = info.unicode_len();
    let opps: Vec<char> = get_possible_opponent_pockets(info.get_char(0));
    let rest: &str = info.substring_char(1, n);
    let mut out: Vec<String> = Vec::new();
    let mut k: usize = 0;
    while k < opps.len()
        invariant
            k <= opps@.len(),
            opps@ == opponent_pockets(info@[0]),
            rest@ == info@.subrange(1, info@.len() as int),
            out@.len() == k,
            forall|j: int| 0 <= j < k ==> #[trigger] out@[j]@ == seq![opps@[j]] + rest@ + seq![action],
        decreases opps@.len() - k,
    {
        let mut s = String::new();
        push_char(&mut s, opps[k]);
        s.append(rest);
        push_char(&mut s, action);
        out.push(s);
        k = k + 1;
    }
    out
}

/// The action histories at which a player decides, shortest first: none, a pass, a bet, a pass
/// and a bet.
pub open spec fn decision_histories() -> Seq<Seq<char>> {
    seq![seq![], seq!['p'], seq!['b'], seq!['p', 'b']]
}

/// The `i`-th information set in the order a solver visits them: the decision histories
/// shortest first and, for each, the owner's card highest first.
pub open spec fn infoset_key(i: int) -> Seq<char> {
    seq![kuhn_ranks()[i % 3]] + decision_histories()[i / 3]
}

/// All twelve information sets of Kuhn poker, in order: `K`, `Q`, `J`, `Kp`, `Qp`, `Jp`, `Kb`,
/// `Qb`, `Jb`, `Kpb`, `Qpb`, `Jpb`.
pub fn infoset_keys() -> (r: Vec<String>)
    ensures
        r@.len() == 12,
        forall|i: int| 0 <= i < 12 ==> #[trigger] r@[i]@ == infoset_key(i),
{
    let ranks: [char; 3] = ['K', 'Q', 'J'];
    let mut out: Vec<String> = Vec::new();
    let mut h: usize = 0;
    while h < 4
        invariant
            h <= 4,
            ranks@ == kuhn_ranks(),
            out@.len() == 3 * h,
            forall|i: int| 0 <= i < 3 * h ==> #[trigger] out@[i]@ == infoset_key(i),
        decreases 4 - h,
    {
        let mut k: usize = 0;
        while k < 3
            invariant
                h < 4,
                k <= 3,
                ranks@ == kuhn_ranks(),
                out@.len() == 3 * h + k,
                forall|i: int| 0 <= i < 3 * h + k ==> #[trigger] out@[i]@ == infoset_key(i),
            decreases 3 - k,
        {
            let mut s = String::new();
            push_char(&mut s, ranks[k]);
            if h == 1 {
                push_char(&mut s, 'p');
            } else if h == 2 {
                push_char(&mut s, 'b');
            } else if h == 3 {
                push_char(&mut s, 'p');
                push_char(&mut s, 'b');
            }
            proof {
                let i: int = 3 * h + k;
                assert(i % 3 == k as int && i / 3 == h as int) by (nonlinear_arith)
                    requires
                        i == 3 * h + k,
                        k < 3,
                ;
                assert(s@ =~= infoset_key(i));
            }
            out.push(s);
            k = k + 1;
        }
        h = h + 1;
    }
    out
}

/// Whether player one's card beats player two's (one of them must be a king or a jack).
pub fn player_one_pocket_is_higher(p1: char, p2: char) -> (r: bool)
    requires
        comparable(p1, p2),
    ensures
        r == higher(p1, p2),
{
    if p1 == 'K' {
        true
    } else if p1 == 'J' {
        false
    } else if p2 == 'K' {
        false
    } else {
        true
    }
}

/// The payoffs to the two players at the end of a hand; a showdown needs comparable cards.
pub fn calc_utility_at_terminal_node(p1: char, p2: char, action_str: &str) -> (r: (i32, i32))
    requires
        is_terminal_history(action_str@),
        is_showdown(action_str@) ==> comparable(p1, p2),
    ensures
        r == terminal_utility(p1, p2, action_str@),
{
    if spells(action_str, &['p', 'p']) {
        if player_one_pocket_is_higher(p1, p2) {
            (1, -1)
        } else {
            (-1, 1)
        }
    } else if spells(action_str, &['p', 'b', 'p']) {
        (-1, 1)
    } else if spells(action_str, &['b', 'p']) {
        (1, -1)
    } else if player_one_pocket_is_higher(p1, p2) {
        (2, -2)
    } else {
        (-2, 2)
    }
}

/// Kuhn poker is zero-sum: at the end of every hand the two payoffs cancel.
pub proof fn law_zero_sum(p1: char, p2: char, h: Seq<char>)
    ensures
        terminal_utility(p1, p2, h).0 + terminal_utility(p1, p2, h).1 == 0,
{
}

/// Between two different cards of the deck exactly one is higher.
pub proof fn law_higher_is_strict(p1: char, p2: char)
    requires
        kuhn_ranks().contains(p1),
        kuhn_ranks().contains(p2),
        p1 != p2,
    ensures
        comparable(p1, p2),
        higher(p1, p2) != higher(p2, p1),
{
    let i = choose|i: int| 0 <= i < 3 && kuhn_ranks()[i] == p1;
    let j = choose|j: int| 0 <= j < 3 && kuhn_ranks()[j] == p2;
}

/// Holding a card of the deck, the opponent may hold either of the two others, never the same.
pub proof fn law_opponent_pockets(pocket: char)
    requires
        kuhn_ranks().contains(pocket),
    ensures
        opponent_pockets(pocket).len() == 2,
        !opponent_pockets(pocket).contains(pocket),
        forall|c: char| kuhn_ranks().contains(c) && c != pocket ==> opponent_pockets(pocket).contains(c),
{
    reveal_with_fuel(without, 4);
    assert(kuhn_ranks().drop_last() =~= seq!['K', 'Q']);
    assert(kuhn_ranks().drop_last().drop_last() =~= seq!['K']);
    assert(kuhn_ranks().drop_last().drop_last().drop_last() =~= Seq::<char>::empty());
    let i = choose|i: int| 0 <= i < 3 && kuhn_ranks()[i] == pocket;
    let o = opponent_pockets(pocket);
    if i == 0 {
        assert(o =~= seq!['Q', 'J']);
    } else if i == 1 {
        assert(o =~= seq!['K', 'J']);
    } else {
        assert(o =~= seq!['K', 'Q']);
    }
    assert forall|c: char| kuhn_ranks().contains(c) && c != pocket implies o.contains(c) by {
        let k = choose|k: int| 0 <= k < 3 && kuhn_ranks()[k] == c;
        if c == 'K' {
            assert(o[0] == 'K');
        } else if c == 'Q' {
            if i == 0 {
                assert(o[0] == 'Q');
            } else {
                assert(o[1] == 'Q');
            }
        } else {
            assert(o[1] == 'J');
        }
    }
}

/// A called bet (bet-bet, or pass-bet-bet) is worth two chips to the higher card and a pass
/// showdown or a fold one chip, whoever holds which card: between two different cards of the
/// deck the winner gets 2 (or 1) and the loser loses as much, the king always wins, the jack
/// always loses, and swapping the cards swaps the payoffs.
pub proof fn law_showdown_stakes(p1: char, p2: char, h: Seq<char>)
    requires
        kuhn_ranks().contains(p1),
        kuhn_ranks().contains(p2),
        p1 != p2,
        is_terminal_history(h),
    ensures
        ({
            let u = terminal_utility(p1, p2, h);
            let stake: int = if h == seq!['b', 'b'] || h == seq!['p', 'b', 'b'] {
                2
            } else {
                1
            };
            &&& (u.0 == stake && u.1 == -stake) || (u.0 == -stake && u.1 == stake)
            &&& is_showdown(h) ==> (p1 == 'K' ==> u.0 == stake) && (p1 == 'J' ==> u.0 == -stake)
            &&& is_showdown(h) ==> terminal_utility(p2, p1, h) == (u.1, u.0)
        }),
{
    law_higher_is_strict(p1, p2);
}

} // verus!
