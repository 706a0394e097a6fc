//! The payoffs of a hand, taken over every seat, only move chips between players.
use vstd::prelude::*;
use crate::game::laws::{chips_committed, law_side_pots_total, pots_total};
use crate::game::pots::{
    contribution_levels, eligible_at, eval_bounded, hero_among, hero_share, hero_winnings, in_pot_seats_listed,
    max_strength, pot_winners, side_pots_fit, side_pots_for, strength, winners_with,
};
use crate::game::state::{in_pot, PlayerState};

verus! {

/// A seat's result from the pots: what it wins minus what it committed.
pub open spec fn seat_result(ps: Seq<PlayerState>, board: Seq<i32>,
    ev: spec_fn(Seq<i32>) -> int, h: int) -> int {
    hero_winnings(ps, board, ev, side_pots_for(ps), h) - ps[h].total_committed
}

/// The results of the seats `0..n` added up.
pub open spec fn results_upto(ps: Seq<PlayerState>, board: Seq<i32>,
    ev: spec_fn(Seq<i32>) -> int, n: int) -> int
    decreases n,
{
    if n <= 0 {
        0
    } else {
        results_upto(ps, board, ev, n - 1) + seat_result(ps, board, ev, n - 1)
    }
}

/// What the seats `0..n` win from the pots, added up.
pub open spec fn winnings_upto(
    ps: Seq<PlayerState>,
    board: Seq<i32>,
    ev: spec_fn(Seq<i32>) -> int,
    pots: Seq<(u32, Seq<u32>)>,
    n: int,
) -> int
    decreases n,
{
    if n <= 0 {
        0
    } else {
        winnings_upto(ps, board, ev, pots, n - 1) + hero_winnings(ps, board, ev, pots, n - 1)
    }
}

/// What the seats `0..n` take from one pot, added up.
pub open spec fn shares_upto(
    ps: Seq<PlayerState>,
    board: Seq<i32>,
    ev: spec_fn(Seq<i32>) -> int,
    pot: (u32, Seq<u32>),
    n: int,
) -> int
    decreases n,
{
    if n <= 0 {
        0
    } else {
        shares_upto(ps, board, ev, pot, n - 1) + hero_share(ps, board, ev, pot, n - 1)
    }
}

/// How many of the seats `0..n` are in `w`.
pub open spec fn members_upto(w: Seq<u32>, n: int) -> int
    decreases n,
{
    if n <= 0 {
        0
    } else {
        members_upto(w, n - 1) + if hero_among(w, n - 1) {
            1int
        } else {
            0int
        }
    }
}

/// What the seats `0..n` committed, added up.
pub open spec fn committed_upto(ps: Seq<PlayerState>, n: int) -> int
    decreases n,
{
    if n <= 0 {
        0
    } else {
        committed_upto(ps, n - 1) + ps[n - 1].total_committed
    }
}

/// Strictly increasing seat numbers.
pub open spec fn seats_increasing(w: Seq<u32>) -> bool {
    forall|a: int, b: int| 0 <= a < b < w.len() ==> w[a] < w[b]
}

proof fn lemma_winnings_split(
    ps: Seq<PlayerState>,
    board: Seq<i32>,
    ev: spec_fn(Seq<i32>) -> int,
    pots: Seq<(u32, Seq<u32>)>,
    n: int,
)
    requires
        pots.len() > 0,
    ensures
        winnings_upto(ps, board, ev, pots, n) == winnings_upto(ps, board, ev, pots.drop_last(), n)
            + shares_upto(ps, board, ev, pots.last(), n),
    decreases n,
{
    if n > 0 {
        lemma_winnings_split(ps, board, ev, pots, n - 1);
    }
}

proof fn lemma_winnings_empty(ps: Seq<PlayerState>, board: Seq<i32>,
    ev: spec_fn(Seq<i32>) -> int, pots: Seq<(u32, Seq<u32>)>, n: int)
    requires
        pots.len() == 0,
    ensures
        winnings_upto(ps, board, ev, pots, n) == 0,
    decreases n,
{
    if n > 0 {
        lemma_winnings_empty(ps, board, ev, pots, n - 1);
    }
}

proof fn lemma_shares_count(ps: Seq<PlayerState>, board: Seq<i32>,
    ev: spec_fn(Seq<i32>) -> int, pot: (u32, Seq<u32>), n: int)
    requires
        pot_winners(ps, board, ev, pot.1).len() > 0,
    ensures
        shares_upto(ps, board, ev, pot, n) == members_upto(pot_winners(ps, board, ev, pot.1), n) * (
        pot.0 as int / pot_winners(ps, board, ev, pot.1).len() as int),
    decreases n,
{
    if n > 0 {
        lemma_shares_count(ps, board, ev, pot, n - 1);
        let q: int = pot.0 as int / pot_winners(ps, board, ev, pot.1).len() as int;
        let m: int = members_upto(pot_winners(ps, board, ev, pot.1), n - 1);
        assert((m + 1) * q == m * q + q) by (nonlinear_arith);
    }
}

proof fn lemma_members_push(w: Seq<u32>, x: u32, n: int)
    requires
        !w.contains(x),
    ensures
        members_upto(w.push(x), n) == members_upto(w, n) + if 0 <= x < n {
            1int
        } else {
            0int
        },
    decreases n,
{
    if n > 0 {
        lemma_members_push(w, x, n - 1);
        let h = n - 1;
        let wp = w.push(x);
        if hero_among(wp, h) {
            let q = choose|q: int| 0 <= q < wp.len() && wp[q] as int == h;
            if q < w.len() {
                assert(w[q] == wp[q]);
            }
        }
        if hero_among(w, h) {
            let q = choose|q: int| 0 <= q < w.len() && w[q] as int == h;
            assert(wp[q] == w[q]);
            assert(h != x) by {
                if h == x {
                    assert(w[q] == x);
                }
            }
        }
        if h == x {
            assert(wp[w.len() as int] == x);
        }
    }
}

/// When the seats of `w` are distinct and below `n`, exactly `w.len()` of the seats `0..n` are
/// in `w`.
proof fn lemma_members_count(w: Seq<u32>, n: int)
    requires
        seats_increasing(w),
        forall|q: int| 0 <= q < w.len() ==> w[q] < n,
    ensures
        members_upto(w, n) == w.len(),
    decreases w.len(),
{
    if w.len() == 0 {
        lemma_members_none(w, n);
    } else {
        let d = w.drop_last();
        assert forall|a: int, b: int| 0 <= a < b < d.len() implies d[a] < d[b] by {
            assert(d[a] == w[a] && d[b] == w[b]);
        }
        assert forall|q: int| 0 <= q < d.len() implies d[q] < n by {
            assert(d[q] == w[q]);
        }
        lemma_members_count(d, n);
        assert(!d.contains(w.last())) by {
            if d.contains(w.last()) {
                let q = choose|q: int| 0 <= q < d.len() && d[q] == w.last();
                assert(w[q] < w[w.len() - 1]);
            }
        }
        assert(d.push(w.last()) =~= w);
        lemma_members_push(d, w.last(), n);
        assert(w[w.len() - 1] < n);
    }
}

proof fn lemma_members_none(w: Seq<u32>, n: int)
    requires
        w.len() == 0,
    ensures
        members_upto(w, n) == 0,
    decreases n,
{
    if n > 0 {
        lemma_members_none(w, n - 1);
    }
}

/// With each seat numbered by its position, the seats eligible at a level are increasing, each
/// is below the number of seats and is a player still in the pot.
proof fn lemma_eligible_seats(ps: Seq<PlayerState>, level: int)
    requires
        forall|i: int| 0 <= i < ps.len() ==> (#[trigger] ps[i]).idx as int == i,
    ensures
        seats_increasing(eligible_at(ps, level)),
        forall|q: int|
            0 <= q < eligible_at(ps, level).len() ==> #[trigger] eligible_at(ps, level)[q] < ps.len()
                && in_pot(ps[eligible_at(ps, level)[q] as int]),
    decreases ps.len(),
{
    if ps.len() > 0 {
        let d = ps.drop_last();
        assert forall|i: int| 0 <= i < d.len() implies (#[trigger] d[i]).idx as int == i by {
            assert(d[i] == ps[i]);
        }
        lemma_eligible_seats(d, level);
        let e = eligible_at(ps, level);
        let ed = eligible_at(d, level);
        assert(ps[ps.len() - 1] == ps.last());
        assert forall|q: int| 0 <= q < e.len() implies #[trigger] e[q] < ps.len() && in_pot(ps[e[q] as int]) by {
            if q < ed.len() {
                assert(e[q] == ed[q]);
                assert(d[ed[q] as int] == ps[ed[q] as int]);
            }
        }
        assert forall|a: int, b: int| 0 <= a < b < e.len() implies e[a] < e[b] by {
            if b < ed.len() {
                assert(e[a] == ed[a] && e[b] == ed[b]);
            } else {
                assert(e[a] == ed[a]);
                assert(ed[a] < d.len());
            }
        }
    }
}

/// The winners of a pot are drawn from its eligible seats, in order.
proof fn lemma_winners_from(ps: Seq<PlayerState>, board: Seq<i32>,
    ev: spec_fn(Seq<i32>) -> int, s: Seq<u32>, m: int, bound: int)
    requires
        seats_increasing(s),
        forall|q: int| 0 <= q < s.len() ==> s[q] < bound,
    ensures
        seats_increasing(winners_with(ps, board, ev, s, m)),
        forall|q: int|
            0 <= q < winners_with(ps, board, ev, s, m).len() ==> #[trigger] winners_with(ps, board, ev, s, m)[q]
                < bound && s.contains(winners_with(ps, board, ev, s, m)[q]),
    decreases s.len(),
{
    if s.len() > 0 {
        let d = s.drop_last();
        assert forall|a: int, b: int| 0 <= a < b < d.len() implies d[a] < d[b] by {
            assert(d[a] == s[a] && d[b] == s[b]);
        }
        lemma_winners_from(ps, board, ev, d, m, bound);
        let w = winners_with(ps, board, ev, s, m);
        let wd = winners_with(ps, board, ev, d, m);
        assert(s[s.len() - 1] == s.last());
        assert forall|q: int| 0 <= q < w.len() implies #[trigger] w[q] < bound && s.contains(w[q]) by {
            if q < wd.len() {
                assert(w[q] == wd[q]);
                let r = choose|r: int| 0 <= r < d.len() && d[r] == wd[q];
                assert(s[r] == d[r]);
            }
        }
        assert forall|a: int, b: int| 0 <= a < b < w.len() implies w[a] < w[b] by {
            if b < wd.len() {
                assert(w[a] == wd[a] && w[b] == wd[b]);
            } else {
                assert(w[a] == wd[a]);
                let r = choose|r: int| 0 <= r < d.len() && d[r] == wd[a];
                assert(s[r] < s[s.len() - 1]);
            }
        }
    }
}

/// A pot with someone eligible has at least one winner.
proof fn lemma_winners_nonempty(ps: Seq<PlayerState>, board: Seq<i32>,
    ev: spec_fn(Seq<i32>) -> int, s: Seq<u32>)
    requires
        s.len() > 0,
        eval_bounded(ev),
    ensures
        pot_winners(ps, board, ev, s).len() > 0,
    decreases s.len(),
{
    let d = s.drop_last();
    let b = strength(ps, board, ev, s.last());
    assert(ev(ps[s.last() as int].hole@ + board) >= i32::MIN);
    assert(d.len() == 0 ==> max_strength(ps, board, ev, d) == i32::MIN);
    if b != max_strength(ps, board, ev, s) {
        assert(d.len() > 0);
        lemma_winners_nonempty(ps, board, ev, d);
    }
}

/// A seat whose player is not in the pot wins nothing.
proof fn lemma_outsider_wins_nothing(
    ps: Seq<PlayerState>,
    board: Seq<i32>,
    ev: spec_fn(Seq<i32>) -> int,
    pots: Seq<(u32, Seq<u32>)>,
    h: int,
)
    requires
        forall|k: int|
            0 <= k < pots.len() ==> forall|q: int|
                0 <= q < (#[trigger] pots[k]).1.len() ==> pots[k].1[q] as int != h,
        forall|k: int, m: int, q: int|
            0 <= k < pots.len() && 0 <= q < winners_with(ps, board, ev, (#[trigger] pots[k]).1, m).len()
                ==> pots[k].1.contains(#[trigger] winners_with(ps, board, ev, pots[k].1, m)[q]),
    ensures
        hero_winnings(ps, board, ev, pots, h) == 0,
    decreases pots.len(),
{
    if pots.len() > 0 {
        let d = pots.drop_last();
        assert forall|k: int| 0 <= k < d.len() implies forall|q: int|
            0 <= q < (#[trigger] d[k]).1.len() ==> d[k].1[q] as int != h by {
            assert(d[k] == pots[k]);
        }
        assert forall|k: int, m: int, q: int|
            0 <= k < d.len() && 0 <= q < winners_with(ps, board, ev, (#[trigger] d[k]).1, m).len()
                implies d[k].1.contains(#[trigger] winners_with(ps, board, ev, d[k].1, m)[q]) by {
            assert(d[k] == pots[k]);
        }
        lemma_outsider_wins_nothing(ps, board, ev, d, h);
        let p = pots.last();
        assert(p == pots[pots.len() - 1]);
        let w = pot_winners(ps, board, ev, p.1);
        if hero_among(w, h) {
            let q = choose|q: int| 0 <= q < w.len() && w[q] as int == h;
            assert(p.1.contains(w[q]));
            let r = choose|r: int| 0 <= r < p.1.len() && p.1[r] == w[q];
            assert(p.1[r] as int != h);
        }
    }
}

proof fn lemma_pots_split(ps: Seq<PlayerState>, board: Seq<i32>,
    ev: spec_fn(Seq<i32>) -> int, pots: Seq<(u32, Seq<u32>)>, n: int)
    requires
        forall|k: int|
            0 <= k < pots.len() ==> pot_winners(ps, board, ev, (#[trigger] pots[k]).1).len() > 0
                && pots[k].0 as int % pot_winners(ps, board, ev, pots[k].1).len() as int == 0
                && seats_increasing(pot_winners(ps, board, ev, pots[k].1))
                && forall|q: int|
                0 <= q < pot_winners(ps, board, ev, pots[k].1).len() ==> pot_winners(ps, board, ev, pots[k].1)[q]
                    < n,
    ensures
        winnings_upto(ps, board, ev, pots, n) == pots_total(pots),
    decreases pots.len(),
{
    if pots.len() == 0 {
        lemma_winnings_empty(ps, board, ev, pots, n);
    } else {
        let d = pots.drop_last();
        assert forall|k: int| 0 <= k < d.len() implies pot_winners(ps, board, ev, (#[trigger] d[k]).1).len() > 0
            && d[k].0 as int % pot_winners(ps, board, ev, d[k].1).len() as int == 0
            && seats_increasing(pot_winners(ps, board, ev, d[k].1))
            && forall|q: int|
            0 <= q < pot_winners(ps, board, ev, d[k].1).len() ==> pot_winners(ps, board, ev, d[k].1)[q] < n by {
            assert(d[k] == pots[k]);
        }
        lemma_pots_split(ps, board, ev, d, n);
        lemma_winnings_split(ps, board, ev, pots, n);
        let p = pots.last();
        assert(p == pots[pots.len() - 1]);
        let w = pot_winners(ps, board, ev, p.1);
        lemma_shares_count(ps, board, ev, p, n);
        lemma_members_count(w, n);
        let a: int = p.0 as int;
        let c: int = w.len() as int;
        assert(c * (a / c) == a) by (nonlinear_arith)
            requires
                c > 0,
                a % c == 0,
        {
            vstd::arithmetic::div_mod::lemma_fundamental_div_mod(a, c);
        }
    }
}

proof fn lemma_results_split(ps: Seq<PlayerState>, board: Seq<i32>,
    ev: spec_fn(Seq<i32>) -> int, n: int)
    requires
        0 <= n <= ps.len(),
    ensures
        results_upto(ps, board, ev, n) == winnings_upto(ps, board, ev, side_pots_for(ps), n) - committed_upto(ps, n),
    decreases n,
{
    if n > 0 {
        lemma_results_split(ps, board, ev, n - 1);
    }
}

proof fn lemma_committed_upto(ps: Seq<PlayerState>, n: int)
    requires
        0 <= n <= ps.len(),
    ensures
        committed_upto(ps, n) == chips_committed(ps.take(n)),
    decreases n,
{
    if n > 0 {
        lemma_committed_upto(ps, n - 1);
        assert(ps.take(n).drop_last() =~= ps.take(n - 1));
    }
}

/// Payoffs only move chips between players: with each seat numbered by its position, someone
/// still in the pot, the pots fitting their counters and every pot splitting evenly among its
/// winners, the seats' results (winnings minus commitment) add up to zero, whichever evaluator
/// ranks the hands (the crate's own or a lookup table: `lemma_evaluators_bounded`). A folded
/// seat wins nothing, so its result is minus its commitment, as its payoff is.
pub proof fn law_payoffs_zero_sum(ps: Seq<PlayerState>, board: Seq<i32>, ev: spec_fn(Seq<i32>) -> int)
    requires
        eval_bounded(ev),
        forall|i: int| 0 <= i < ps.len() ==> (#[trigger] ps[i]).idx as int == i,
        exists|i: int| 0 <= i < ps.len() && in_pot(#[trigger] ps[i]),
        side_pots_fit(ps),
        forall|k: int|
            0 <= k < side_pots_for(ps).len() ==> (#[trigger] side_pots_for(ps)[k]).0 as int % pot_winners(
                ps,
                board,
                ev,
                side_pots_for(ps)[k].1,
            ).len() as int == 0,
    ensures
        results_upto(ps, board, ev, ps.len() as int) == 0,
        forall|h: int|
            0 <= h < ps.len() && (#[trigger] ps[h]).folded ==> hero_winnings(
                ps,
                board,
                ev,
                side_pots_for(ps),
                h,
            ) == 0,
{
    let sp = side_pots_for(ps);
    let n = ps.len() as int;
    let lv = contribution_levels(ps);
    law_side_pots_total(ps);
    in_pot_seats_listed(ps);
    assert(lv.len() > 0);
    assert forall|k: int| 0 <= k < sp.len() implies pot_winners(ps, board, ev, (#[trigger] sp[k]).1).len() > 0
        && sp[k].0 as int % pot_winners(ps, board, ev, sp[k].1).len() as int == 0
        && seats_increasing(pot_winners(ps, board, ev, sp[k].1))
        && forall|q: int|
        0 <= q < pot_winners(ps, board, ev, sp[k].1).len() ==> pot_winners(ps, board, ev, sp[k].1)[q] < n by {
        lemma_eligible_seats(ps, lv[k] as int);
        assert(sp[k].1.len() > 0);
        lemma_winners_nonempty(ps, board, ev, sp[k].1);
        lemma_winners_from(ps, board, ev, sp[k].1, max_strength(ps, board, ev, sp[k].1), n);
    }
    lemma_pots_split(ps, board, ev, sp, n);
    lemma_results_split(ps, board, ev, n);
    lemma_committed_upto(ps, n);
    assert(ps.take(n) =~= ps);
    assert forall|h: int| 0 <= h < ps.len() && (#[trigger] ps[h]).folded implies hero_winnings(
        ps,
        board,
        ev,
        sp,
        h,
    ) == 0 by {
        assert forall|k: int| 0 <= k < sp.len() implies forall|q: int|
            0 <= q < (#[trigger] sp[k]).1.len() ==> sp[k].1[q] as int != h by {
            lemma_eligible_seats(ps, lv[k] as int);
        }
        assert forall|k: int, m: int, q: int|
            0 <= k < sp.len() && 0 <= q < winners_with(ps, board, ev, (#[trigger] sp[k]).1, m).len()
                implies sp[k].1.contains(#[trigger] winners_with(ps, board, ev, sp[k].1, m)[q]) by {
            lemma_eligible_seats(ps, lv[k] as int);
            lemma_winners_from(ps, board, ev, sp[k].1, m, n);
        }
        lemma_outsider_wins_nothing(ps, board, ev, sp, h);
    }
}

} // verus!
