//! Seven-card hand evaluation.
//!
//! A card is a number in `1..=52`: `card - 1 = 4 * rank + suit`, ranks `0..=12` running from
//! deuce to ace and suits `0..=3`. The value of a hand is `category * 4096 + tiebreak`, where
//! the category runs from 1 (high card) to 9 (straight flush) and the tiebreak, below 4096,
//! orders hands of the same category. A seven-card hand is worth its best five cards.
use vstd::prelude::*;

verus! {

/// The rank of a card, 0 (deuce) to 12 (ace).
pub open spec fn rank_of(c: i32) -> int {
    (c - 1) / 4
}

/// The suit of a card, 0 to 3.
pub open spec fn suit_of(c: i32) -> int {
    (c - 1) % 4
}

/// A card number in `1..=52`.
pub open spec fn valid_card(c: i32) -> bool {
    1 <= c <= 52
}

/// Every card of `h` is a card number.
pub open spec fn valid_cards(h: Seq<i32>) -> bool {
    forall|i: int| 0 <= i < h.len() ==> valid_card(#[trigger] h[i])
}

/// How many cards of `h` have rank `r`.
pub open spec fn rank_count(h: Seq<i32>, r: int) -> int
    decreases h.len(),
{
    if h.len() == 0 {
        0
    } else {
        rank_count(h.drop_last(), r) + if rank_of(h.last()) == r {
            1int
        } else {
            0int
        }
    }
}

/// The number of cards of each rank, indexed by rank.
pub open spec fn rank_counts(h: Seq<i32>) -> Seq<int> {
    Seq::new(13, |r: int| rank_count(h, r))
}

/// All cards share the suit of the first.
pub open spec fn is_flush(h: Seq<i32>) -> bool {
    forall|i: int| 0 <= i < h.len() ==> suit_of(#[trigger] h[i]) == suit_of(h[0])
}

/// Binomial coefficient by Pascal's rule.
pub open spec fn binom(n: nat, k: nat) -> nat
    decreases n,
{
    if k == 0 {
        1
    } else if n == 0 {
        0
    } else {
        binom((n - 1) as nat, (k - 1) as nat) + binom((n - 1) as nat, k)
    }
}

/// Two to the power `n`.
pub open spec fn two_pow(n: nat) -> nat
    decreases n,
{
    if n == 0 {
        1
    } else {
        2 * two_pow((n - 1) as nat)
    }
}

/// The highest rank below `hi`, other than `skip`, held at least `k` times; -1 if none.
pub open spec fn top_ge(cs: Seq<int>, k: int, hi: int, skip: int) -> int
    decreases hi,
{
    if hi <= 0 {
        -1
    } else if hi - 1 != skip && cs[hi - 1] >= k {
        hi - 1
    } else {
        top_ge(cs, k, hi - 1, skip)
    }
}

/// The combinatorial index of the (at most `m`) highest single ranks below `hi`: scanning down,
/// the j-th single found at rank `r` adds `binom(r, m - j)`. Higher singles give a higher index.
pub open spec fn colex(cs: Seq<int>, hi: int, m: int) -> int
    decreases hi,
{
    if hi <= 0 {
        0
    } else if m > 0 && cs[hi - 1] == 1 {
        binom((hi - 1) as nat, m as nat) + colex(cs, hi - 1, m - 1)
    } else {
        colex(cs, hi - 1, m)
    }
}

/// Five ranks ending at `t` are all held.
pub open spec fn has_run(cs: Seq<int>, t: int) -> bool {
    cs[t] >= 1 && cs[t - 1] >= 1 && cs[t - 2] >= 1 && cs[t - 3] >= 1 && cs[t - 4] >= 1
}

/// The ace-to-five straight is held.
pub open spec fn has_wheel(cs: Seq<int>) -> bool {
    cs[12] >= 1 && cs[0] >= 1 && cs[1] >= 1 && cs[2] >= 1 && cs[3] >= 1
}

/// The top rank of the highest straight whose top is at most `t`; 3 for the wheel; -1 if none.
pub open spec fn straight_from(cs: Seq<int>, t: int) -> int
    decreases t,
{
    if t < 4 {
        if has_wheel(cs) {
            3
        } else {
            -1
        }
    } else if has_run(cs, t) {
        t
    } else {
        straight_from(cs, t - 1)
    }
}

/// The top rank of the highest straight held, or -1.
pub open spec fn straight_top(cs: Seq<int>) -> int {
    straight_from(cs, 12)
}

/// The hand category from rank counts and flushness: 9 straight flush, 8 four of a kind,
/// 7 full house, 6 flush, 5 straight, 4 three of a kind, 3 two pair, 2 pair, 1 high card.
pub open spec fn category(cs: Seq<int>, fl: bool) -> int {
    let st = straight_top(cs);
    let q = top_ge(cs, 4, 13, -1);
    let t = top_ge(cs, 3, 13, -1);
    let p1 = top_ge(cs, 2, 13, t);
    let p2 = top_ge(cs, 2, p1, t);
    if st >= 0 && fl {
        9
    } else if q >= 0 {
        8
    } else if t >= 0 && p1 >= 0 {
        7
    } else if fl {
        6
    } else if st >= 0 {
        5
    } else if t >= 0 {
        4
    } else if p1 >= 0 && p2 >= 0 {
        3
    } else if p1 >= 0 {
        2
    } else {
        1
    }
}

/// The order within a category: the straight's top; the quad rank then the kicker; trips then
/// pair; the five flush ranks; trips then two kickers; high pair, low pair, kicker; pair then
/// three kickers; or the five ranks.
pub open spec fn tiebreak(cs: Seq<int>, fl: bool) -> int {
    let st = straight_top(cs);
    let q = top_ge(cs, 4, 13, -1);
    let t = top_ge(cs, 3, 13, -1);
    let p1 = top_ge(cs, 2, 13, t);
    let p2 = top_ge(cs, 2, p1, t);
    let c = category(cs, fl);
    if c == 9 || c == 5 {
        st
    } else if c == 8 {
        q * 13 + colex(cs, 13, 1)
    } else if c == 7 {
        t * 13 + p1
    } else if c == 6 || c == 1 {
        colex(cs, 13, 5)
    } else if c == 4 {
        t * 78 + colex(cs, 13, 2)
    } else if c == 3 {
        p1 * 169 + p2 * 13 + colex(cs, 13, 1)
    } else {
        p1 * 286 + colex(cs, 13, 3)
    }
}

/// The value of five cards.
pub open spec fn hand5_value(h: Seq<i32>) -> int {
    category(rank_counts(h), is_flush(h)) * 4096 + tiebreak(rank_counts(h), is_flush(h))
}

/// The five cards left when the cards at positions `i < j` are set aside.
pub open spec fn five_of(c: Seq<i32>, i: int, j: int) -> Seq<i32> {
    c.remove(j).remove(i)
}

/// `v` is the value of the best five of the seven cards `c`.
pub open spec fn is_best_value(c: Seq<i32>, v: int) -> bool {
    &&& exists|i: int, j: int| 0 <= i < j < 7 && v == hand5_value(#[trigger] five_of(c, i, j))
    &&& forall|i: int, j: int| 0 <= i < j < 7 ==> hand5_value(#[trigger] five_of(c, i, j)) <= v
}

/// The value of a seven-card hand: that of its best five cards.
pub open spec fn hand_value(c: Seq<i32>) -> int {
    choose|v: int| is_best_value(c, v)
}

/// A binomial coefficient is at most `2^n`, and does not shrink as `n` grows.
proof fn lemma_binom_bound(n: nat, k: nat)
    ensures
        binom(n, k) <= two_pow(n),
        binom(n, k) <= binom(n + 1, k),
    decreases n,
{
    if n > 0 {
        lemma_binom_bound((n - 1) as nat, k);
        if k > 0 {
            lemma_binom_bound((n - 1) as nat, (k - 1) as nat);
        }
    }
    assert(binom(n + 1, k) == if k == 0 {
        1
    } else {
        binom(n, (k - 1) as nat) + binom(n, k)
    });
}

proof fn lemma_colex_bound(cs: Seq<int>, hi: int, m: int)
    requires
        0 <= hi,
        0 <= m,
    ensures
        0 <= colex(cs, hi, m) <= binom(hi as nat, m as nat),
    decreases hi,
{
    if hi > 0 {
        lemma_binom_bound((hi - 1) as nat, m as nat);
        if m > 0 && cs[hi - 1] == 1 {
            lemma_colex_bound(cs, hi - 1, m - 1);
            assert(binom(hi as nat, m as nat) == binom((hi - 1) as nat, (m - 1) as nat) + binom(
                (hi - 1) as nat,
                m as nat,
            ));
        } else {
            lemma_colex_bound(cs, hi - 1, m);
        }
    }
}

proof fn lemma_top_ge_range(cs: Seq<int>, k: int, hi: int, skip: int)
    ensures
        -1 <= top_ge(cs, k, hi, skip) < if hi > 0 {
            hi
        } else {
            0
        },
        top_ge(cs, k, hi, skip) != skip || skip == -1,
    decreases hi,
{
    if hi > 0 {
        lemma_top_ge_range(cs, k, hi - 1, skip);
    }
}

proof fn lemma_straight_range(cs: Seq<int>, t: int)
    requires
        t >= 3,
    ensures
        -1 <= straight_from(cs, t) <= t,
    decreases t,
{
    if t >= 4 {
        lemma_straight_range(cs, t - 1);
    }
}

/// The tiebreak of every hand lies in `0..4096`, so the category is the value divided by 4096.
proof fn lemma_value_parts(cs: Seq<int>, fl: bool)
    ensures
        1 <= category(cs, fl) <= 9,
        0 <= tiebreak(cs, fl) < 4096,
{
    lemma_straight_range(cs, 12);
    lemma_top_ge_range(cs, 4, 13, -1);
    let t = top_ge(cs, 3, 13, -1);
    lemma_top_ge_range(cs, 3, 13, -1);
    lemma_top_ge_range(cs, 2, 13, t);
    let p1 = top_ge(cs, 2, 13, t);
    lemma_top_ge_range(cs, 2, p1, t);
    lemma_colex_bound(cs, 13, 1);
    lemma_colex_bound(cs, 13, 2);
    lemma_colex_bound(cs, 13, 3);
    lemma_colex_bound(cs, 13, 5);
    lemma_binom_values();
}

proof fn lemma_binom_values()
    ensures
        binom(13, 1) == 13,
        binom(13, 2) == 78,
        binom(13, 3) == 286,
        binom(13, 5) == 1287,
{
    reveal_with_fuel(binom, 14);
}

/// The counts of a rank table as integers.
pub open spec fn counts_view(cs: Seq<u8>) -> Seq<int> {
    cs.map_values(|x: u8| x as int)
}

/// `binom(n, k)`, by filling `n` rows of Pascal's triangle up to column `k`.
fn binom_exec(n: usize, k: usize) -> (r: u32)
    requires
        n <= 13,
        k <= 5,
    ensures
        r == binom(n as nat, k as nat),
{
    let mut row: Vec<u32> = Vec::new();
    row.push(1);
    let mut j0: usize = 0;
    while j0 < k
        invariant
            j0 <= k,
            row@.len() == j0 + 1,
            forall|jj: int| 0 <= jj <= j0 ==> #[trigger] row@[jj] == binom(0, jj as nat),
        decreases k - j0,
    {
        row.push(0);
        j0 = j0 + 1;
    }
    let mut i: usize = 0;
    while i < n
        invariant
            i <= n,
            n <= 13,
            k <= 5,
            row@.len() == k + 1,
            forall|jj: int| 0 <= jj <= k ==> #[trigger] row@[jj] == binom(i as nat, jj as nat),
        decreases n - i,
    {
        let mut j: usize = k;
        while j > 0
            invariant
                j <= k,
                i < n,
                n <= 13,
                k <= 5,
                row@.len() == k + 1,
                forall|jj: int|
                    0 <= jj <= k ==> #[trigger] row@[jj] == if jj > j {
                        binom((i + 1) as nat, jj as nat)
                    } else {
                        binom(i as nat, jj as nat)
                    },
            decreases j,
        {
            proof {
                lemma_binom_bound((i + 1) as nat, j as nat);
                reveal_with_fuel(two_pow, 14);
                lemma_two_pow_mono((i + 1) as nat, 13);
                assert(binom((i + 1) as nat, j as nat) == binom(i as nat, (j - 1) as nat) + binom(
                    i as nat,
                    j as nat,
                ));
            }
            let v: u32 = row[j] + row[j - 1];
            row.set(j, v);
            j = j - 1;
        }
        proof {
            assert(binom((i + 1) as nat, 0) == 1);
        }
        i = i + 1;
    }
    row[k]
}

proof fn lemma_two_pow_mono(a: nat, b: nat)
    requires
        a <= b,
    ensures
        two_pow(a) <= two_pow(b),
    decreases b,
{
    if a < b {
        lemma_two_pow_mono(a, (b - 1) as nat);
    }
}

/// The highest rank below `hi`, other than `skip`, held at least `k` times; -1 if none.
fn top_ge_exec(cs: &Vec<u8>, k: u8, hi: usize, skip: i32) -> (r: i32)
    requires
        cs@.len() == 13,
        hi <= 13,
    ensures
        r == top_ge(counts_view(cs@), k as int, hi as int, skip as int),
{
    let ghost v = counts_view(cs@);
    let mut h: usize = hi;
    while h > 0
        invariant
            h <= hi,
            hi <= 13,
            cs@.len() == 13,
            v == counts_view(cs@),
            top_ge(v, k as int, hi as int, skip as int) == top_ge(v, k as int, h as int, skip as int),
        decreases h,
    {
        let r: usize = h - 1;
        if (r as i32) != skip && cs[r] >= k {
            return r as i32;
        }
        h = h - 1;
    }
    -1
}

/// The combinatorial index of the `m` highest single ranks.
fn colex_exec(cs: &Vec<u8>, m: usize) -> (r: u32)
    requires
        cs@.len() == 13,
        m <= 5,
    ensures
        r == colex(counts_view(cs@), 13, m as int),
{
    let ghost v = counts_view(cs@);
    let mut acc: u32 = 0;
    let mut left: usize = m;
    let mut h: usize = 13;
    proof {
        lemma_colex_bound(v, 13, m as int);
        lemma_binom_bound(13, m as nat);
        reveal_with_fuel(two_pow, 14);
    }
    while h > 0
        invariant
            h <= 13,
            left <= m,
            m <= 5,
            cs@.len() == 13,
            v == counts_view(cs@),
            acc + colex(v, h as int, left as int) == colex(v, 13, m as int),
            colex(v, 13, m as int) <= 8192,
            0 <= colex(v, h as int, left as int),
        decreases h,
    {
        let r: usize = h - 1;
        proof {
            lemma_colex_bound(v, r as int, left as int);
            if left > 0 {
                lemma_colex_bound(v, r as int, left - 1);
            }
        }
        if left > 0 && cs[r] == 1 {
            let b: u32 = binom_exec(r, left);
            acc = acc + b;
            left = left - 1;
        }
        h = h - 1;
    }
    acc
}

/// The top rank of the highest straight held, 3 for the wheel, or -1.
fn straight_top_exec(cs: &Vec<u8>) -> (r: i32)
    requires
        cs@.len() == 13,
    ensures
        r == straight_top(counts_view(cs@)),
{
    let ghost v = counts_view(cs@);
    let mut t: usize = 12;
    while t >= 4
        invariant
            3 <= t <= 12,
            cs@.len() == 13,
            v == counts_view(cs@),
            straight_top(v) == straight_from(v, t as int),
        decreases t,
    {
        if cs[t] >= 1 && cs[t - 1] >= 1 && cs[t - 2] >= 1 && cs[t - 3] >= 1 && cs[t - 4] >= 1 {
            return t as i32;
        }
        t = t - 1;
    }
    if cs[12] >= 1 && cs[0] >= 1 && cs[1] >= 1 && cs[2] >= 1 && cs[3] >= 1 {
        3
    } else {
        -1
    }
}

/// The value `category * 4096 + tiebreak` of a rank table and flushness.
fn value_from_counts(cs: &Vec<u8>, fl: bool) -> (r: i32)
    requires
        cs@.len() == 13,
    ensures
        r == category(counts_view(cs@), fl) * 4096 + tiebreak(counts_view(cs@), fl),
{
    let ghost v = counts_view(cs@);
    proof {
        lemma_value_parts(v, fl);
        lemma_straight_range(v, 12);
        lemma_top_ge_range(v, 4, 13, -1);
        lemma_top_ge_range(v, 3, 13, -1);
        lemma_top_ge_range(v, 2, 13, top_ge(v, 3, 13, -1));
        lemma_colex_bound(v, 13, 1);
        lemma_colex_bound(v, 13, 2);
        lemma_colex_bound(v, 13, 3);
        lemma_colex_bound(v, 13, 5);
        lemma_binom_values();
    }
    let st: i32 = straight_top_exec(cs);
    let q: i32 = top_ge_exec(cs, 4, 13, -1);
    let t: i32 = top_ge_exec(cs, 3, 13, -1);
    let p1: i32 = top_ge_exec(cs, 2, 13, t);
    let p2: i32 = if p1 >= 0 {
        top_ge_exec(cs, 2, p1 as usize, t)
    } else {
        -1
    };
    proof {
        lemma_top_ge_range(v, 2, p1 as int, t as int);
    }
    if st >= 0 && fl {
        9 * 4096 + st
    } else if q >= 0 {
        let k: u32 = colex_exec(cs, 1);
        8 * 4096 + q * 13 + k as i32
    } else if t >= 0 && p1 >= 0 {
        7 * 4096 + t * 13 + p1
    } else if fl {
        let k: u32 = colex_exec(cs, 5);
        6 * 4096 + k as i32
    } else if st >= 0 {
        5 * 4096 + st
    } else if t >= 0 {
        let k: u32 = colex_exec(cs, 2);
        4 * 4096 + t * 78 + k as i32
    } else if p1 >= 0 && p2 >= 0 {
        let k: u32 = colex_exec(cs, 1);
        3 * 4096 + p1 * 169 + p2 * 13 + k as i32
    } else if p1 >= 0 {
        let k: u32 = colex_exec(cs, 3);
        2 * 4096 + p1 * 286 + k as i32
    } else {
        let k: u32 = colex_exec(cs, 5);
        4096 + k as i32
    }
}

proof fn lemma_rank_count_push(h: Seq<i32>, i: int, r: int)
    requires
        0 <= i < h.len(),
    ensures
        rank_count(h.take(i + 1), r) == rank_count(h.take(i), r) + if rank_of(h[i]) == r {
            1int
        } else {
            0int
        },
{
    assert(h.take(i + 1).drop_last() =~= h.take(i));
}

/// The value of five cards.
fn eval_5hand(h: &Vec<i32>) -> (r: i32)
    requires
        h@.len() == 5,
        valid_cards(h@),
    ensures
        r == hand5_value(h@),
{
    let mut cs: Vec<u8> = Vec::new();
    let mut z: usize = 0;
    while z < 13
        invariant
            z <= 13,
            cs@.len() == z,
            forall|r: int| 0 <= r < z ==> #[trigger] cs@[r] == 0,
        decreases 13 - z,
    {
        cs.push(0);
        z = z + 1;
    }
    let mut i: usize = 0;
    while i < 5
        invariant
            i <= 5,
            h@.len() == 5,
            valid_cards(h@),
            cs@.len() == 13,
            forall|r: int| 0 <= r < 13 ==> #[trigger] cs@[r] == rank_count(h@.take(i as int), r),
            forall|r: int| 0 <= r < 13 ==> #[trigger] cs@[r] <= i,
        decreases 5 - i,
    {
        let c: i32 = h[i];
        assert(valid_card(h@[i as int]));
        let rank: usize = ((c - 1) / 4) as usize;
        proof {
            assert forall|r: int| 0 <= r < 13 implies #[trigger] rank_count(h@.take(i + 1), r)
                == rank_count(h@.take(i as int), r) + if rank_of(h@[i as int]) == r {
                1int
            } else {
                0int
            } by {
                lemma_rank_count_push(h@, i as int, r);
            }
        }
        let old_count: u8 = cs[rank];
        cs.set(rank, old_count + 1);
        i = i + 1;
    }
    assert(h@.take(5) =~= h@);
    let s0: i32 = (h[0] - 1) % 4;
    let fl: bool = (h[1] - 1) % 4 == s0 && (h[2] - 1) % 4 == s0 && (h[3] - 1) % 4 == s0 && (
    h[4] - 1) % 4 == s0;
    proof {
        assert(counts_view(cs@) =~= rank_counts(h@));
        if fl {
            assert forall|k: int| 0 <= k < h@.len() implies suit_of(#[trigger] h@[k]) == suit_of(
                h@[0],
            ) by {
                assert(k == 0 || k == 1 || k == 2 || k == 3 || k == 4);
            }
        }
        if is_flush(h@) {
            assert(suit_of(h@[1]) == suit_of(h@[0]));
            assert(suit_of(h@[2]) == suit_of(h@[0]));
            assert(suit_of(h@[3]) == suit_of(h@[0]));
            assert(suit_of(h@[4]) == suit_of(h@[0]));
        }
    }
    value_from_counts(&cs, fl)
}

/// Evaluates seven cards: the value of the best five of them, computed from the cards (no lookup
/// table is read). Its category, the value shifted right by twelve bits, runs from 1 (high card)
/// to 9 (straight flush) as in the usual hand-rank tables; the tiebreak in the low twelve bits
/// is this crate's own numbering (a royal flush is `9 * 4096 + 12`), so values differ from a
/// table's within a category. `payoff` uses this function; `eval_7hand_in_table` walks a table.
pub fn eval_7hand(cards: [i32; 7]) -> (r: i32)
    requires
        valid_cards(cards@),
    ensures
        r == hand_value(cards@),
        is_best_value(cards@, r as int),
        1 <= (r >> 12) <= 9,
        (r >> 12) as int == r / 4096,
{
    let mut all: Vec<i32> = Vec::new();
    let mut k: usize = 0;
    while k < 7
        invariant
            k <= 7,
            all@ == cards@.take(k as int),
        decreases 7 - k,
    {
        all.push(cards[k]);
        assert(all@ =~= cards@.take(k + 1));
        k = k + 1;
    }
    assert(all@ =~= cards@);
    let ghost c = cards@;
    let mut best: i32 = i32::MIN;
    let ghost mut wi: int = 0;
    let ghost mut wj: int = 1;
    let mut i: usize = 0;
    while i < 7
        invariant
            i <= 7,
            all@ == c,
            c == cards@,
            valid_cards(c),
            i == 0 ==> best == i32::MIN,
            i > 0 ==> 0 <= wi < wj < 7 && best == hand5_value(five_of(c, wi, wj)),
            forall|a: int, b: int|
                0 <= a < i && a < b < 7 ==> hand5_value(#[trigger] five_of(c, a, b)) <= best,
        decreases 7 - i,
    {
        let mut j: usize = i + 1;
        while j < 7
            invariant
                i < 7,
                i + 1 <= j <= 7,
                all@ == c,
                c == cards@,
                valid_cards(c),
                (i == 0 && j == 1) ==> best == i32::MIN,
                !(i == 0 && j == 1) ==> 0 <= wi < wj < 7 && best == hand5_value(five_of(c, wi, wj)),
                forall|a: int, b: int|
                    ((0 <= a < i && a < b < 7) || (a == i && i < b < j)) ==> hand5_value(
                        #[trigger] five_of(c, a, b),
                    ) <= best,
            decreases 7 - j,
        {
            let mut five: Vec<i32> = all.clone();
            five.remove(j);
            five.remove(i);
            proof {
                assert(five@ == five_of(c, i as int, j as int));
                assert forall|t: int| 0 <= t < five@.len() implies valid_card(#[trigger] five@[t]) by {
                    if t < i {
                        assert(five@[t] == c[t]);
                    } else if t + 1 < j {
                        assert(five@[t] == c[t + 1]);
                    } else {
                        assert(five@[t] == c[t + 2]);
                    }
                }
            }
            let v: i32 = eval_5hand(&five);
            if (i == 0 && j == 1) || v > best {
                best = v;
                proof {
                    wi = i as int;
                    wj = j as int;
                }
            }
            j = j + 1;
        }
        i = i + 1;
    }
    proof {
        assert(is_best_value(c, best as int));
        lemma_best_value_unique(c, best as int);
        law_value_parts(five_of(c, wi, wj));
        let b: i32 = best;
        assert(b >= 0);
        assert(b >> 12 == b / 4096) by (bit_vector)
            requires
                b >= 0,
        ;
    }
    best
}

/// The maximum of a finite family is unique, so `hand_value` is the best value.
proof fn lemma_best_value_unique(c: Seq<i32>, v: int)
    requires
        is_best_value(c, v),
    ensures
        hand_value(c) == v,
{
    let w = hand_value(c);
    assert(is_best_value(c, w));
    let (i1, j1) = choose|i: int, j: int| 0 <= i < j < 7 && v == hand5_value(#[trigger] five_of(c, i, j));
    let (i2, j2) = choose|i: int, j: int| 0 <= i < j < 7 && w == hand5_value(#[trigger] five_of(c, i, j));
    assert(hand5_value(five_of(c, i1, j1)) <= w);
    assert(hand5_value(five_of(c, i2, j2)) <= v);
}

/// The value of five cards is their category times 4096 plus a tiebreak below 4096: the category
/// (1 to 9) is the value divided by 4096 and the tiebreak the remainder.
pub proof fn law_value_parts(h: Seq<i32>)
    ensures
        1 <= category(rank_counts(h), is_flush(h)) <= 9,
        hand5_value(h) / 4096 == category(rank_counts(h), is_flush(h)),
        hand5_value(h) % 4096 == tiebreak(rank_counts(h), is_flush(h)),
        4096 <= hand5_value(h) < 40960,
{
    lemma_value_parts(rank_counts(h), is_flush(h));
    let c = category(rank_counts(h), is_flush(h));
    let t = tiebreak(rank_counts(h), is_flush(h));
    vstd::arithmetic::div_mod::lemma_fundamental_div_mod_converse(c * 4096 + t, 4096, c, t);
}

/// Hands compare by category first: a hand of a higher category is worth more than any hand of a
/// lower one, whatever the tiebreaks.
pub proof fn law_category_first(h1: Seq<i32>, h2: Seq<i32>)
    requires
        category(rank_counts(h1), is_flush(h1)) > category(rank_counts(h2), is_flush(h2)),
    ensures
        hand5_value(h1) > hand5_value(h2),
{
    lemma_value_parts(rank_counts(h1), is_flush(h1));
    lemma_value_parts(rank_counts(h2), is_flush(h2));
}

spec fn pair_value(c: Seq<i32>, i: int, j: int) -> int {
    hand5_value(five_of(c, i, j))
}

spec fn max_row(c: Seq<i32>, i: int, j: int) -> int
    decreases 7 - j,
{
    if j >= 6 {
        pair_value(c, i, 6)
    } else {
        let a = pair_value(c, i, j);
        let b = max_row(c, i, j + 1);
        if a >= b {
            a
        } else {
            b
        }
    }
}

spec fn max_from(c: Seq<i32>, i: int) -> int
    decreases 6 - i,
{
    if i >= 5 {
        max_row(c, 5, 6)
    } else {
        let a = max_row(c, i, i + 1);
        let b = max_from(c, i + 1);
        if a >= b {
            a
        } else {
            b
        }
    }
}

proof fn lemma_max_row(c: Seq<i32>, i: int, j: int)
    requires
        0 <= i < j < 7,
    ensures
        exists|k: int| j <= k < 7 && max_row(c, i, j) == pair_value(c, i, k),
        forall|k: int| j <= k < 7 ==> pair_value(c, i, k) <= max_row(c, i, j),
    decreases 7 - j,
{
    if j < 6 {
        lemma_max_row(c, i, j + 1);
        if pair_value(c, i, j) >= max_row(c, i, j + 1) {
            assert(max_row(c, i, j) == pair_value(c, i, j));
        } else {
            let k = choose|k: int| j + 1 <= k < 7 && max_row(c, i, j + 1) == pair_value(c, i, k);
            assert(max_row(c, i, j) == pair_value(c, i, k));
        }
    } else {
        assert(max_row(c, i, j) == pair_value(c, i, 6));
    }
}

proof fn lemma_max_from(c: Seq<i32>, i: int)
    requires
        0 <= i < 6,
    ensures
        exists|a: int, b: int| i <= a < b < 7 && max_from(c, i) == pair_value(c, a, b),
        forall|a: int, b: int| i <= a < b < 7 ==> pair_value(c, a, b) <= max_from(c, i),
    decreases 6 - i,
{
    lemma_max_row(c, i, i + 1);
    if i < 5 {
        lemma_max_from(c, i + 1);
        if max_row(c, i, i + 1) >= max_from(c, i + 1) {
            let k = choose|k: int| i + 1 <= k < 7 && max_row(c, i, i + 1) == pair_value(c, i, k);
            assert(max_from(c, i) == pair_value(c, i, k));
        } else {
            let (a, b) = choose|a: int, b: int| i + 1 <= a < b < 7 && max_from(c, i + 1) == pair_value(c, a, b);
            assert(max_from(c, i) == pair_value(c, a, b));
        }
        assert forall|a: int, b: int| i <= a < b < 7 implies pair_value(c, a, b) <= max_from(c, i) by {
            if a == i {
                assert(pair_value(c, a, b) <= max_row(c, i, i + 1));
            }
        }
    } else {
        let k = choose|k: int| 6 <= k < 7 && max_row(c, 5, 6) == pair_value(c, 5, k);
        assert(max_from(c, i) == pair_value(c, 5, k));
    }
}

/// Every seven cards have a best five: `hand_value` is the value of some five of them and at least
/// the value of every five, and its category (the value divided by 4096) runs from 1 to 9.
pub proof fn law_best_five_exists(c: Seq<i32>)
    ensures
        is_best_value(c, hand_value(c)),
        1 <= hand_value(c) / 4096 <= 9,
{
    lemma_max_from(c, 0);
    let m = max_from(c, 0);
    let (a, b) = choose|a: int, b: int| 0 <= a < b < 7 && m == pair_value(c, a, b);
    assert(m == hand5_value(five_of(c, a, b)));
    assert forall|i: int, j: int| 0 <= i < j < 7 implies hand5_value(#[trigger] five_of(c, i, j)) <= m by {
        assert(pair_value(c, i, j) <= m);
    }
    assert(is_best_value(c, m));
    lemma_best_value_unique(c, m);
    law_value_parts(five_of(c, a, b));
}

proof fn lemma_rank_count_remove(s: Seq<i32>, q: int, r: int)
    requires
        0 <= q < s.len(),
    ensures
        rank_count(s.remove(q), r) == rank_count(s, r) - if rank_of(s[q]) == r {
            1int
        } else {
            0int
        },
    decreases s.len(),
{
    if q == s.len() - 1 {
        assert(s.remove(q) =~= s.drop_last());
    } else {
        let d = s.drop_last();
        assert(s.remove(q).drop_last() =~= d.remove(q));
        assert(s.remove(q).last() == s.last());
        assert(d[q] == s[q]);
        lemma_rank_count_remove(d, q, r);
    }
}

proof fn lemma_rank_count_multiset(h1: Seq<i32>, h2: Seq<i32>, r: int)
    requires
        h1.to_multiset() == h2.to_multiset(),
    ensures
        rank_count(h1, r) == rank_count(h2, r),
    decreases h1.len(),
{
    broadcast use vstd::seq_lib::group_to_multiset_ensures;
    broadcast use vstd::multiset::group_multiset_axioms;

    if h1.len() == 0 {
        assert(h2.to_multiset().len() == 0);
        assert(h2.len() == 0);
    } else {
        let x = h1.last();
        assert(h1.drop_last() =~= h1.remove(h1.len() - 1));
        assert(h1.contains(x)) by {
            assert(h1[h1.len() - 1] == x);
        }
        assert(h1.to_multiset().count(x) > 0);
        assert(h2.contains(x));
        let q = choose|q: int| 0 <= q < h2.len() && h2[q] == x;
        assert(h1.remove(h1.len() - 1).to_multiset() == h1.to_multiset().remove(x));
        assert(h2.remove(q).to_multiset() == h2.to_multiset().remove(x));
        lemma_rank_count_multiset(h1.drop_last(), h2.remove(q), r);
        lemma_rank_count_remove(h2, q, r);
    }
}

proof fn lemma_flush_multiset(h1: Seq<i32>, h2: Seq<i32>)
    requires
        h1.to_multiset() == h2.to_multiset(),
        is_flush(h1),
        h1.len() > 0,
    ensures
        is_flush(h2),
{
    broadcast use vstd::seq_lib::group_to_multiset_ensures;

    vstd::seq_lib::to_multiset_len(h1);
    vstd::seq_lib::to_multiset_len(h2);
    assert forall|a: int| 0 <= a < h2.len() implies suit_of(#[trigger] h2[a]) == suit_of(h1[0]) by {
        assert(h2.contains(h2[a]));
        assert(h2.to_multiset().count(h2[a]) > 0);
        assert(h1.contains(h2[a]));
        let k = choose|k: int| 0 <= k < h1.len() && h1[k] == h2[a];
    }
    assert(suit_of(h2[0]) == suit_of(h1[0]));
}

/// Five cards are worth the same in any order.
proof fn lemma_hand5_multiset(h1: Seq<i32>, h2: Seq<i32>)
    requires
        h1.to_multiset() == h2.to_multiset(),
        h1.len() > 0,
    ensures
        hand5_value(h1) == hand5_value(h2),
{
    broadcast use vstd::seq_lib::group_to_multiset_ensures;

    vstd::seq_lib::to_multiset_len(h1);
    vstd::seq_lib::to_multiset_len(h2);
    assert forall|r: int| 0 <= r < 13 implies #[trigger] rank_counts(h1)[r] == rank_counts(h2)[r] by {
        lemma_rank_count_multiset(h1, h2, r);
    }
    assert(rank_counts(h1) =~= rank_counts(h2));
    if is_flush(h1) {
        lemma_flush_multiset(h1, h2);
    }
    if is_flush(h2) {
        lemma_flush_multiset(h2, h1);
    }
}

proof fn lemma_five_of_multiset(c: Seq<i32>, i: int, j: int)
    requires
        0 <= i < j < c.len(),
    ensures
        five_of(c, i, j).to_multiset() == c.to_multiset().remove(c[j]).remove(c[i]),
{
    broadcast use vstd::seq_lib::group_to_multiset_ensures;

    assert(c.remove(j)[i] == c[i]);
    assert(c.remove(j).remove(i).to_multiset() == c.remove(j).to_multiset().remove(c.remove(j)[i]));
}

/// For any two positions of `c1`, some two positions of `c2` (holding the same cards) leave the
/// same five cards aside.
proof fn lemma_matching_pair(c1: Seq<i32>, c2: Seq<i32>, i: int, j: int)
    requires
        c1.len() == 7,
        c1.to_multiset() == c2.to_multiset(),
        0 <= i < j < 7,
    ensures
        exists|a: int, b: int|
            0 <= a < b < 7 && #[trigger] five_of(c2, a, b).to_multiset() == five_of(c1, i, j).to_multiset(),
{
    broadcast use vstd::seq_lib::group_to_multiset_ensures;
    broadcast use vstd::multiset::group_multiset_axioms;

    vstd::seq_lib::to_multiset_len(c1);
    vstd::seq_lib::to_multiset_len(c2);
    let x = c1[i];
    let y = c1[j];
    lemma_five_of_multiset(c1, i, j);
    assert(c1.contains(y)) by {
        assert(c1[j] == y);
    }
    vstd::seq_lib::to_multiset_contains(c1, y);
    vstd::seq_lib::to_multiset_contains(c2, y);
    assert(c2.contains(y));
    let qy = choose|q: int| 0 <= q < 7 && c2[q] == y;
    let r2 = c2.remove(qy);
    assert(r2.to_multiset() == c2.to_multiset().remove(y));
    let r1 = c1.remove(j);
    assert(r1.to_multiset() == c1.to_multiset().remove(y));
    assert(r1[i] == x);
    assert(r1.contains(x));
    vstd::seq_lib::to_multiset_contains(r1, x);
    vstd::seq_lib::to_multiset_contains(r2, x);
    assert(r2.contains(x));
    let qx2 = choose|q: int| 0 <= q < r2.len() && r2[q] == x;
    let qx = if qx2 < qy {
        qx2
    } else {
        qx2 + 1
    };
    assert(c2[qx] == x);
    let a = if qx < qy {
        qx
    } else {
        qy
    };
    let b = if qx < qy {
        qy
    } else {
        qx
    };
    lemma_five_of_multiset(c2, a, b);
    assert(five_of(c2, a, b).to_multiset() =~= five_of(c1, i, j).to_multiset());
}

/// A seven-card hand is worth the same whatever order its cards come in.
pub proof fn law_value_ignores_order(c1: Seq<i32>, c2: Seq<i32>)
    requires
        c1.len() == 7,
        c1.to_multiset() == c2.to_multiset(),
    ensures
        hand_value(c1) == hand_value(c2),
{
    broadcast use vstd::seq_lib::group_to_multiset_ensures;

    vstd::seq_lib::to_multiset_len(c1);
    vstd::seq_lib::to_multiset_len(c2);
    law_best_five_exists(c1);
    law_best_five_exists(c2);
    let v1 = hand_value(c1);
    let v2 = hand_value(c2);
    let (i1, j1) = choose|i: int, j: int| 0 <= i < j < 7 && v1 == hand5_value(#[trigger] five_of(c1, i, j));
    lemma_matching_pair(c1, c2, i1, j1);
    let (a, b) = choose|a: int, b: int|
        0 <= a < b < 7 && #[trigger] five_of(c2, a, b).to_multiset() == five_of(c1, i1, j1).to_multiset();
    lemma_hand5_multiset(five_of(c2, a, b), five_of(c1, i1, j1));
    assert(v1 <= v2);
    let (i2, j2) = choose|i: int, j: int| 0 <= i < j < 7 && v2 == hand5_value(#[trigger] five_of(c2, i, j));
    lemma_matching_pair(c2, c1, i2, j2);
    let (a2, b2) = choose|a: int, b: int|
        0 <= a < b < 7 && #[trigger] five_of(c1, a, b).to_multiset() == five_of(c2, i2, j2).to_multiset();
    lemma_hand5_multiset(five_of(c1, a2, b2), five_of(c2, i2, j2));
    assert(v2 <= v1);
}

/// The position reached in a hand-rank lookup table after `k` cards (`1 <= k <= 7`): the first
/// card leads from position `53 + card`, and each later card from the table entry at the
/// previous position plus the card.
pub open spec fn table_pos(hr: Seq<i32>, cards: Seq<i32>, k: int) -> int
    decreases k,
{
    if k <= 1 {
        53 + cards[0]
    } else {
        hr[table_pos(hr, cards, k - 1)] + cards[k - 1]
    }
}

/// The lookup walks inside the table: the cards are not negative, every position reached is in
/// the table, and every entry followed to a next position is not negative.
pub open spec fn table_walk_ok(hr: Seq<i32>, cards: Seq<i32>) -> bool {
    &&& forall|i: int| 0 <= i < 7 ==> 0 <= #[trigger] cards[i]
    &&& forall|k: int| 1 <= k <= 7 ==> 0 <= #[trigger] table_pos(hr, cards, k) < hr.len()
    &&& forall|k: int| 1 <= k < 7 ==> 0 <= hr[#[trigger] table_pos(hr, cards, k)]
}

/// Evaluates seven cards by walking a hand-rank lookup table one card at a time; the entry
/// reached after the seventh card is the value.
pub fn eval_7hand_in_table(hr: &[i32], cards: [i32; 7]) -> (r: i32)
    requires
        table_walk_ok(hr@, cards@),
    ensures
        r == hr@[table_pos(hr@, cards@, 7)],
{
    assert(0 <= cards@[0]);
    assert(0 <= table_pos(hr@, cards@, 1) < hr@.len());
    let mut p: usize = 53 + cards[0] as usize;
    let mut k: usize = 1;
    while k < 7
        invariant
            1 <= k <= 7,
            table_walk_ok(hr@, cards@),
            p == table_pos(hr@, cards@, k as int),
            p < hr@.len(),
        decreases 7 - k,
    {
        assert(0 <= hr@[table_pos(hr@, cards@, k as int)]);
        assert(0 <= cards@[k as int]);
        assert(0 <= table_pos(hr@, cards@, k + 1) < hr@.len());
        p = hr[p] as usize + cards[k] as usize;
        k = k + 1;
    }
    hr[p]
}

/// The five ranks `lo..lo + 4` all appear among the cards `h`.
pub open spec fn ranks_in_a_row(h: Seq<i32>, lo: int) -> bool {
    forall|r: int| lo <= r < lo + 5 ==> #[trigger] rank_count(h, r) >= 1
}

/// The ranks ace, deuce, three, four and five all appear among the cards `h`.
pub open spec fn ace_to_five(h: Seq<i32>) -> bool {
    &&& rank_count(h, 12) >= 1
    &&& forall|r: int| 0 <= r < 4 ==> #[trigger] rank_count(h, r) >= 1
}

/// What the straight search finds is a straight: five held ranks in a row ending at its top, or
/// the ace-to-five straight with top 3.
proof fn lemma_straight_found(cs: Seq<int>, t: int)
    requires
        3 <= t <= 12,
        straight_from(cs, t) >= 0,
    ensures
        (4 <= straight_from(cs, t) <= t && forall|r: int|
            straight_from(cs, t) - 4 <= r <= straight_from(cs, t) ==> #[trigger] cs[r] >= 1) || (
        straight_from(cs, t) == 3 && cs[12] >= 1 && forall|r: int| 0 <= r < 4 ==> #[trigger] cs[r] >= 1),
    decreases t,
{
    if t >= 4 && !has_run(cs, t) {
        lemma_straight_found(cs, t - 1);
    }
    if t >= 4 && has_run(cs, t) {
        assert forall|r: int| t - 4 <= r <= t implies #[trigger] cs[r] >= 1 by {
            if r == t {
            } else if r == t - 1 {
            } else if r == t - 2 {
            } else if r == t - 3 {
            } else {
            }
        }
    }
    if t < 4 {
        assert forall|r: int| 0 <= r < 4 implies #[trigger] cs[r] >= 1 by {
            if r == 0 {
            } else if r == 1 {
            } else if r == 2 {
            } else {
            }
        }
    }
}

/// Without five held ranks in a row and without the ace-to-five straight, the search finds no
/// straight.
proof fn lemma_straight_absent(cs: Seq<int>, t: int)
    requires
        3 <= t <= 12,
        forall|s: int| 4 <= s <= t ==> !has_run(cs, s),
        !has_wheel(cs),
    ensures
        straight_from(cs, t) == -1,
    decreases t,
{
    if t >= 4 {
        assert(!has_run(cs, t));
        lemma_straight_absent(cs, t - 1);
    }
}

/// With no rank held `k` times below `hi`, no rank is found.
proof fn lemma_top_ge_absent(cs: Seq<int>, k: int, hi: int, skip: int)
    requires
        hi <= cs.len(),
        forall|r: int| 0 <= r < hi ==> cs[r] < k,
    ensures
        top_ge(cs, k, hi, skip) == -1,
    decreases hi,
{
    if hi > 0 {
        lemma_top_ge_absent(cs, k, hi - 1, skip);
    }
}

/// Five cards make a straight (category 5) or a straight flush (category 9) only when five of
/// their ranks run in a row, `lo..lo + 4`, or are exactly ace, deuce, three, four and five.
pub proof fn law_straight_needs_a_run(h: Seq<i32>)
    ensures
        hand5_value(h) / 4096 == 5 || hand5_value(h) / 4096 == 9 ==> (exists|lo: int|
            0 <= lo <= 8 && #[trigger] ranks_in_a_row(h, lo)) || ace_to_five(h),
{
    law_value_parts(h);
    let cs = rank_counts(h);
    let c = category(cs, is_flush(h));
    if c == 5 || c == 9 {
        assert(straight_top(cs) >= 0);
        lemma_straight_found(cs, 12);
        let st = straight_from(cs, 12);
        if 4 <= st {
            assert forall|r: int| st - 4 <= r < st - 4 + 5 implies #[trigger] rank_count(h, r) >= 1 by {
                assert(cs[r] >= 1);
            }
            assert(ranks_in_a_row(h, st - 4));
        } else {
            assert forall|r: int| 0 <= r < 4 implies #[trigger] rank_count(h, r) >= 1 by {
                assert(cs[r] >= 1);
            }
            assert(cs[12] >= 1);
        }
    }
}

/// Five cards of different ranks, not all of one suit, whose ranks neither run five in a row nor
/// make ace to five, are a high-card hand (category 1).
pub proof fn law_no_run_is_high_card(h: Seq<i32>)
    requires
        forall|r: int| 0 <= r < 13 ==> rank_count(h, r) <= 1,
        !is_flush(h),
        forall|lo: int| 0 <= lo <= 8 ==> !#[trigger] ranks_in_a_row(h, lo),
        !ace_to_five(h),
    ensures
        category(rank_counts(h), is_flush(h)) == 1,
        hand5_value(h) / 4096 == 1,
{
    law_value_parts(h);
    let cs = rank_counts(h);
    assert forall|s: int| 4 <= s <= 12 implies !has_run(cs, s) by {
        if has_run(cs, s) {
            assert forall|r: int| s - 4 <= r < s - 4 + 5 implies #[trigger] rank_count(h, r) >= 1 by {
                assert(cs[r] >= 1);
            }
            assert(ranks_in_a_row(h, s - 4));
        }
    }
    if has_wheel(cs) {
        assert forall|r: int| 0 <= r < 4 implies #[trigger] rank_count(h, r) >= 1 by {
            assert(cs[r] >= 1);
        }
        assert(cs[12] >= 1);
    }
    lemma_straight_absent(cs, 12);
    assert forall|r: int| 0 <= r < 13 implies cs[r] < 2 by {
        assert(rank_count(h, r) <= 1);
    }
    lemma_top_ge_absent(cs, 4, 13, -1);
    lemma_top_ge_absent(cs, 3, 13, -1);
    lemma_top_ge_absent(cs, 2, 13, -1);
}

/// Seven cards are worth a straight or a straight flush only when five of their ranks run in a
/// row or make ace to five: `eval_7hand` never counts a straight that wraps past the ace.
pub proof fn law_seven_card_straight_needs_a_run(c: Seq<i32>)
    requires
        c.len() == 7,
    ensures
        hand_value(c) / 4096 == 5 || hand_value(c) / 4096 == 9 ==> (exists|lo: int|
            0 <= lo <= 8 && #[trigger] ranks_in_a_row(c, lo)) || ace_to_five(c),
{
    law_best_five_exists(c);
    let v = hand_value(c);
    let (i, j) = choose|i: int, j: int| 0 <= i < j < 7 && v == hand5_value(#[trigger] five_of(c, i, j));
    let f = five_of(c, i, j);
    law_straight_needs_a_run(f);
    assert forall|r: int| #[trigger] rank_count(f, r) >= 1 implies rank_count(c, r) >= 1 by {
        lemma_rank_count_remove(c, j, r);
        lemma_rank_count_remove(c.remove(j), i, r);
    }
    if v / 4096 == 5 || v / 4096 == 9 {
        if exists|lo: int| 0 <= lo <= 8 && #[trigger] ranks_in_a_row(f, lo) {
            let lo = choose|lo: int| 0 <= lo <= 8 && #[trigger] ranks_in_a_row(f, lo);
            assert forall|r: int| lo <= r < lo + 5 implies #[trigger] rank_count(c, r) >= 1 by {
                assert(rank_count(f, r) >= 1);
            }
            assert(ranks_in_a_row(c, lo));
        } else {
            assert forall|r: int| 0 <= r < 4 implies #[trigger] rank_count(c, r) >= 1 by {
                assert(rank_count(f, r) >= 1);
            }
            assert(rank_count(f, 12) >= 1);
        }
    }
}

} // verus!
