//! What the side pots of a hand are, and what the hero wins from them.
use vstd::prelude::*;
use crate::game::state::{in_pot, PlayerState};
use crate::game::handeval::{hand_value, law_best_five_exists, table_pos};

verus! {

/// `lv` lists, in strictly increasing order, exactly the distinct totals committed by the
/// players still in the pot (not folded, something committed).
pub open spec fn is_contribution_levels(ps: Seq<PlayerState>, lv: Seq<u32>) -> bool {
    &&& forall|a: int, b: int| 0 <= a < b < lv.len() ==> lv[a] < lv[b]
    &&& forall|x: u32|
        lv.contains(x) <==> exists|i: int|
            0 <= i < ps.len() && in_pot(#[trigger] ps[i]) && ps[i].total_committed == x
}

/// The distinct totals committed by the players still in the pot, in increasing order.
pub open spec fn contribution_levels(ps: Seq<PlayerState>) -> Seq<u32> {
    choose|lv: Seq<u32>| is_contribution_levels(ps, lv)
}

/// The seat numbers (`idx`) of the players still in the pot who committed at least `level`,
/// in seat order.
pub open spec fn eligible_at(ps: Seq<PlayerState>, level: int) -> Seq<u32>
    decreases ps.len(),
{
    if ps.len() == 0 {
        seq![]
    } else {
        eligible_at(ps.drop_last(), level) + if in_pot(ps.last()) && ps.last().total_committed
            >= level {
            seq![ps.last().idx as u32]
        } else {
            seq![]
        }
    }
}

/// The level below the `k`-th, or zero for the first.
pub open spec fn level_below(lv: Seq<u32>, k: int) -> int {
    if k == 0 {
        0
    } else {
        lv[k - 1] as int
    }
}

/// The chips of a commitment `t` that fall in the tier from `lo` up to `hi`; for the top tier,
/// every chip above `lo`.
pub open spec fn tier_share(t: int, lo: int, hi: int, top: bool) -> int {
    let below = if t <= lo {
        t
    } else {
        lo
    };
    if top {
        t - below
    } else {
        (if t <= hi {
            t
        } else {
            hi
        }) - below
    }
}

/// The chips all players, folded ones included, put into the tier from `lo` up to `hi` (or
/// above `lo`, for the top tier).
pub open spec fn tier_total(ps: Seq<PlayerState>, lo: int, hi: int, top: bool) -> int
    decreases ps.len(),
{
    if ps.len() == 0 {
        0
    } else {
        tier_total(ps.drop_last(), lo, hi, top) + tier_share(
            ps.last().total_committed as int,
            lo,
            hi,
            top,
        )
    }
}

/// The chips in the `k`-th pot: what every player, folded ones included, committed between the
/// level below and this level; the top pot also takes whatever was committed above the highest
/// level.
pub open spec fn pot_amount(ps: Seq<PlayerState>, lv: Seq<u32>, k: int) -> int {
    tier_total(ps, level_below(lv, k), lv[k] as int, k == lv.len() - 1)
}

/// The side pots of a table, lowest tier first: for each contribution level, its amount and
/// the players eligible for it.
pub open spec fn side_pots_for(ps: Seq<PlayerState>) -> Seq<(u32, Seq<u32>)> {
    let lv = contribution_levels(ps);
    Seq::new(
        lv.len(),
        |k: int| (pot_amount(ps, lv, k) as u32, eligible_at(ps, lv[k] as int)),
    )
}

/// Every side pot's amount fits in a `u32`.
pub open spec fn side_pots_fit(ps: Seq<PlayerState>) -> bool {
    let lv = contribution_levels(ps);
    forall|k: int| 0 <= k < lv.len() ==> #[trigger] pot_amount(ps, lv, k) <= u32::MAX
}

/// Two increasing lists with the same elements are the same list.
pub proof fn lemma_increasing_unique(a: Seq<u32>, b: Seq<u32>)
    requires
        forall|i: int, j: int| 0 <= i < j < a.len() ==> a[i] < a[j],
        forall|i: int, j: int| 0 <= i < j < b.len() ==> b[i] < b[j],
        forall|x: u32| a.contains(x) <==> b.contains(x),
    ensures
        a == b,
    decreases a.len(),
{
    if a.len() == 0 {
        if b.len() > 0 {
            assert(b.contains(b[0]));
        }
        assert(a =~= b);
    } else {
        assert(a.contains(a[0]));
        assert(b.len() > 0);
        assert(b.contains(b[0]));
        let ia = choose|i: int| 0 <= i < a.len() && a[i] == b[0];
        let ib = choose|i: int| 0 <= i < b.len() && b[i] == a[0];
        assert(a[0] <= b[0]) by {
            if ia > 0 {
                assert(a[0] < a[ia]);
            }
        }
        assert(b[0] <= a[0]) by {
            if ib > 0 {
                assert(b[0] < b[ib]);
            }
        }
        let a1 = a.drop_first();
        let b1 = b.drop_first();
        assert forall|x: u32| a1.contains(x) <==> b1.contains(x) by {
            if a1.contains(x) {
                let i = choose|i: int| 0 <= i < a1.len() && a1[i] == x;
                assert(a[i + 1] == x);
                assert(b.contains(x));
                let k = choose|k: int| 0 <= k < b.len() && b[k] == x;
                assert(a[0] < x);
                assert(k != 0);
                assert(b1[k - 1] == x);
            }
            if b1.contains(x) {
                let i = choose|i: int| 0 <= i < b1.len() && b1[i] == x;
                assert(b[i + 1] == x);
                assert(a.contains(x));
                let k = choose|k: int| 0 <= k < a.len() && a[k] == x;
                assert(b[0] < x);
                assert(k != 0);
                assert(a1[k - 1] == x);
            }
        }
        lemma_increasing_unique(a1, b1);
        assert(a =~= b) by {
            assert forall|i: int| 0 <= i < a.len() implies a[i] == b[i] by {
                if i > 0 {
                    assert(a[i] == a1[i - 1]);
                    assert(b[i] == b1[i - 1]);
                }
            }
        }
    }
}

/// Any list that meets the description is the one `contribution_levels` names.
pub proof fn lemma_levels_are(ps: Seq<PlayerState>, lv: Seq<u32>)
    requires
        is_contribution_levels(ps, lv),
    ensures
        contribution_levels(ps) == lv,
{
    let c = contribution_levels(ps);
    assert(is_contribution_levels(ps, c));
    lemma_increasing_unique(c, lv);
}

/// The eligible list over one more seat.
pub proof fn lemma_eligible_push(ps: Seq<PlayerState>, level: int, i: int)
    requires
        0 <= i < ps.len(),
    ensures
        eligible_at(ps.take(i + 1), level) == eligible_at(ps.take(i), level) + if in_pot(ps[i])
            && ps[i].total_committed >= level {
            seq![ps[i].idx as u32]
        } else {
            seq![]
        },
{
    assert(ps.take(i + 1).drop_last() =~= ps.take(i));
}

/// Each eligible seat number comes from a player in the pot, and there are no more of them
/// than seats; a player in the pot at the level makes the list non-empty.
pub proof fn lemma_eligible_facts(ps: Seq<PlayerState>, level: int)
    ensures
        eligible_at(ps, level).len() <= ps.len(),
        forall|t: int|
            #![trigger eligible_at(ps, level)[t]]
            0 <= t < eligible_at(ps, level).len() ==> exists|i: int|
                0 <= i < ps.len() && in_pot(#[trigger] ps[i]) && ps[i].total_committed >= level
                    && eligible_at(ps, level)[t] == ps[i].idx as u32,
        (exists|i: int| 0 <= i < ps.len() && in_pot(#[trigger] ps[i]) && ps[i].total_committed >= level)
            ==> eligible_at(ps, level).len() > 0,
    decreases ps.len(),
{
    if ps.len() > 0 {
        let q = ps.drop_last();
        lemma_eligible_facts(q, level);
        let e = eligible_at(ps, level);
        let eq = eligible_at(q, level);
        assert forall|t: int| #![trigger e[t]] 0 <= t < e.len() implies exists|i: int|
            0 <= i < ps.len() && in_pot(#[trigger] ps[i]) && ps[i].total_committed >= level && e[t]
                == ps[i].idx as u32 by {
            if t < eq.len() {
                let i = choose|i: int|
                    0 <= i < q.len() && in_pot(#[trigger] q[i]) && q[i].total_committed >= level
                        && eq[t] == q[i].idx as u32;
                assert(ps[i] == q[i]);
                assert(e[t] == eq[t]);
            } else {
                assert(e[t] == ps.last().idx as u32);
                assert(ps[ps.len() - 1] == ps.last());
            }
        }
        if exists|i: int| 0 <= i < ps.len() && in_pot(#[trigger] ps[i]) && ps[i].total_committed >= level {
            let i = choose|i: int| 0 <= i < ps.len() && in_pot(#[trigger] ps[i]) && ps[i].total_committed >= level;
            if i < ps.len() - 1 {
                assert(q[i] == ps[i]);
            }
        }
    }
}

/// Strictly increasing.
pub open spec fn increasing(lv: Seq<u32>) -> bool {
    forall|a: int, b: int| 0 <= a < b < lv.len() ==> lv[a] < lv[b]
}

/// Adds `x` to an increasing list at its place, unless it is already there.
pub(crate) fn insert_level(lv: &mut Vec<u32>, x: u32)
    requires
        increasing(old(lv)@),
    ensures
        increasing(final(lv)@),
        final(lv)@.contains(x),
        forall|y: u32| old(lv)@.contains(y) ==> final(lv)@.contains(y),
        forall|y: u32| final(lv)@.contains(y) ==> (old(lv)@.contains(y) || y == x),
{
    let mut pos: usize = 0;
    while pos < lv.len() && lv[pos] < x
        invariant
            pos <= lv.len(),
            forall|q: int| 0 <= q < pos ==> #[trigger] lv@[q] < x,
        decreases lv.len() - pos,
    {
        pos = pos + 1;
    }
    if pos < lv.len() && lv[pos] == x {
        assert(lv@.contains(x));
        return;
    }
    let ghost before = lv@;
    assert(before == old(lv)@);
    lv.insert(pos, x);
    assert(lv@[pos as int] == x);
    assert(lv@.contains(x));
    proof {
        assert forall|a: int, b: int| 0 <= a < b < lv@.len() implies lv@[a] < lv@[b] by {
            if b < pos {
                assert(lv@[a] == before[a] && lv@[b] == before[b]);
            } else if b == pos {
                assert(lv@[a] == before[a]);
            } else if a < pos {
                assert(lv@[a] == before[a] && lv@[b] == before[b - 1]);
                assert(before[pos as int] > x);
                if b - 1 > pos {
                    assert(before[pos as int] < before[b - 1]);
                }
            } else if a == pos {
                assert(lv@[b] == before[b - 1]);
                assert(before[pos as int] > x);
                if b - 1 > pos {
                    assert(before[pos as int] < before[b - 1]);
                }
            } else {
                assert(lv@[a] == before[a - 1] && lv@[b] == before[b - 1]);
            }
        }
        assert forall|y: u32| lv@.contains(y) <==> (before.contains(y) || y == x) by {
            if lv@.contains(y) {
                let q = choose|q: int| 0 <= q < lv@.len() && lv@[q] == y;
                if q < pos {
                    assert(before[q] == y);
                } else if q > pos {
                    assert(before[q - 1] == y);
                }
            }
            if before.contains(y) {
                let q = choose|q: int| 0 <= q < before.len() && before[q] == y;
                if q < pos {
                    assert(lv@[q] == y);
                } else {
                    assert(lv@[q + 1] == y);
                }
            }
            if y == x {
                assert(lv@[pos as int] == x);
            }
        }
    }
}

/// Hands ranked by the crate's own seven-card evaluator, `hand_value`.
pub open spec fn computed_eval() -> spec_fn(Seq<i32>) -> int {
    |c: Seq<i32>| hand_value(c)
}

/// Hands ranked by walking the hand-rank lookup table `hr`: the entry reached after the seventh
/// card.
pub open spec fn table_eval(hr: Seq<i32>) -> spec_fn(Seq<i32>) -> int {
    |c: Seq<i32>| hr[table_pos(hr, c, 7)] as int
}

/// Every value of the evaluator `ev` is at least `i32::MIN`, where the search for the strongest
/// hand starts.
pub open spec fn eval_bounded(ev: spec_fn(Seq<i32>) -> int) -> bool {
    forall|c: Seq<i32>| #[trigger] ev(c) >= i32::MIN
}

/// Both evaluators give values that an `i32` holds.
pub proof fn lemma_evaluators_bounded(hr: Seq<i32>)
    ensures
        eval_bounded(computed_eval()),
        eval_bounded(table_eval(hr)),
{
    assert forall|c: Seq<i32>| #[trigger] computed_eval()(c) >= i32::MIN by {
        law_best_five_exists(c);
    }
}

/// The value, by the evaluator `ev`, of the hand of the player in seat `e` with the given board.
pub open spec fn strength(ps: Seq<PlayerState>, board: Seq<i32>,
    ev: spec_fn(Seq<i32>) -> int, e: u32) -> int {
    ev(ps[e as int].hole@ + board)
}

/// The greatest hand value among the seats `s` (`i32::MIN` for none): the strongest hand, which
/// wins the pot.
pub open spec fn max_strength(ps: Seq<PlayerState>, board: Seq<i32>,
    ev: spec_fn(Seq<i32>) -> int, s: Seq<u32>) -> int
    decreases s.len(),
{
    if s.len() == 0 {
        i32::MIN as int
    } else {
        let a = max_strength(ps, board, ev, s.drop_last());
        let b = strength(ps, board, ev, s.last());
        if b > a {
            b
        } else {
            a
        }
    }
}

/// The seats of `s`, in order, whose hand value is `m`.
pub open spec fn winners_with(ps: Seq<PlayerState>, board: Seq<i32>,
    ev: spec_fn(Seq<i32>) -> int, s: Seq<u32>, m: int) -> Seq<
    u32,
>
    decreases s.len(),
{
    if s.len() == 0 {
        seq![]
    } else {
        winners_with(ps, board, ev, s.drop_last(), m) + if strength(ps, board, ev, s.last()) == m {
            seq![s.last()]
        } else {
            seq![]
        }
    }
}

/// The seats of `s` that win a pot: those whose hand value is the greatest.
pub open spec fn pot_winners(ps: Seq<PlayerState>, board: Seq<i32>,
    ev: spec_fn(Seq<i32>) -> int, s: Seq<u32>) -> Seq<u32> {
    winners_with(ps, board, ev, s, max_strength(ps, board, ev, s))
}

/// Seat `hero` is among `w`.
pub open spec fn hero_among(w: Seq<u32>, hero: int) -> bool {
    exists|q: int| 0 <= q < w.len() && w[q] as int == hero
}

/// What seat `hero` takes from one pot: an equal share, rounded down, when among its winners.
pub open spec fn hero_share(
    ps: Seq<PlayerState>,
    board: Seq<i32>,
    ev: spec_fn(Seq<i32>) -> int,
    pot: (u32, Seq<u32>),
    hero: int,
) -> int {
    let w = pot_winners(ps, board, ev, pot.1);
    if hero_among(w, hero) {
        pot.0 as int / w.len() as int
    } else {
        0
    }
}

/// What seat `hero` takes from all the pots.
pub open spec fn hero_winnings(
    ps: Seq<PlayerState>,
    board: Seq<i32>,
    ev: spec_fn(Seq<i32>) -> int,
    pots: Seq<(u32, Seq<u32>)>,
    hero: int,
) -> int
    decreases pots.len(),
{
    if pots.len() == 0 {
        0
    } else {
        hero_winnings(ps, board, ev, pots.drop_last(), hero) + hero_share(ps, board, ev, pots.last(), hero)
    }
}

pub proof fn lemma_strength_push(ps: Seq<PlayerState>, board: Seq<i32>,
    ev: spec_fn(Seq<i32>) -> int, s: Seq<u32>, t: int, m: int)
    requires
        0 <= t < s.len(),
    ensures
        max_strength(ps, board, ev, s.take(t + 1)) == if strength(ps, board, ev, s[t]) > max_strength(
            ps,
            board,
            ev,
            s.take(t),
        ) {
            strength(ps, board, ev, s[t])
        } else {
            max_strength(ps, board, ev, s.take(t))
        },
        winners_with(ps, board, ev, s.take(t + 1), m) == winners_with(ps, board, ev, s.take(t), m) + if strength(
            ps,
            board,
            ev,
            s[t],
        ) == m {
            seq![s[t]]
        } else {
            seq![]
        },
{
    assert(s.take(t + 1).drop_last() =~= s.take(t));
}

/// No seat of `s` has a value above the greatest, and nobody wins with a value that no seat has.
pub proof fn lemma_max_strength_facts(ps: Seq<PlayerState>, board: Seq<i32>,
    ev: spec_fn(Seq<i32>) -> int, s: Seq<u32>, m: int)
    ensures
        forall|q: int| 0 <= q < s.len() ==> max_strength(ps, board, ev, s) >= strength(ps, board, ev, #[trigger] s[q]),
        max_strength(ps, board, ev, s) >= i32::MIN,
        (forall|q: int| 0 <= q < s.len() ==> strength(ps, board, ev, #[trigger] s[q]) != m) ==> winners_with(
            ps,
            board,
            ev,
            s,
            m,
        ) == Seq::<u32>::empty(),
        winners_with(ps, board, ev, s, m).len() <= s.len(),
    decreases s.len(),
{
    if s.len() > 0 {
        let d = s.drop_last();
        lemma_max_strength_facts(ps, board, ev, d, m);
        assert forall|q: int| 0 <= q < s.len() implies max_strength(ps, board, ev, s) >= strength(
            ps,
            board,
            ev,
            #[trigger] s[q],
        ) by {
            if q < s.len() - 1 {
                assert(s[q] == d[q]);
            }
        }
        if forall|q: int| 0 <= q < s.len() ==> strength(ps, board, ev, #[trigger] s[q]) != m {
            assert forall|q: int| 0 <= q < d.len() implies strength(ps, board, ev, #[trigger] d[q]) != m by {
                assert(s[q] == d[q]);
            }
            assert(strength(ps, board, ev, s[s.len() - 1]) != m);
            assert(winners_with(ps, board, ev, s, m) =~= Seq::<u32>::empty());
        }
    }
}

/// Shares are never negative, so the winnings over the first pots never exceed the whole.
pub proof fn lemma_winnings_prefix(
    ps: Seq<PlayerState>,
    board: Seq<i32>,
    ev: spec_fn(Seq<i32>) -> int,
    pots: Seq<(u32, Seq<u32>)>,
    hero: int,
    k: int,
)
    requires
        0 <= k <= pots.len(),
    ensures
        0 <= hero_winnings(ps, board, ev, pots.take(k), hero) <= hero_winnings(ps, board, ev, pots, hero),
    decreases pots.len(),
{
    if k == pots.len() {
        assert(pots.take(k) =~= pots);
        lemma_winnings_nonneg(ps, board, ev, pots, hero);
    } else {
        let d = pots.drop_last();
        lemma_winnings_prefix(ps, board, ev, d, hero, k);
        assert(d.take(k) =~= pots.take(k));
        let w = pot_winners(ps, board, ev, pots.last().1);
        if hero_among(w, hero) {
            assert(w.len() > 0);
        }
    }
}

proof fn lemma_winnings_nonneg(
    ps: Seq<PlayerState>,
    board: Seq<i32>,
    ev: spec_fn(Seq<i32>) -> int,
    pots: Seq<(u32, Seq<u32>)>,
    hero: int,
)
    ensures
        0 <= hero_winnings(ps, board, ev, pots, hero),
    decreases pots.len(),
{
    if pots.len() > 0 {
        lemma_winnings_nonneg(ps, board, ev, pots.drop_last(), hero);
        let w = pot_winners(ps, board, ev, pots.last().1);
        if hero_among(w, hero) {
            assert(w.len() > 0);
        }
    }
}

/// Winnings over one more pot.
pub proof fn lemma_winnings_push(
    ps: Seq<PlayerState>,
    board: Seq<i32>,
    ev: spec_fn(Seq<i32>) -> int,
    pots: Seq<(u32, Seq<u32>)>,
    hero: int,
    k: int,
)
    requires
        0 <= k < pots.len(),
    ensures
        hero_winnings(ps, board, ev, pots.take(k + 1), hero) == hero_winnings(ps, board, ev, pots.take(k), hero)
            + hero_share(ps, board, ev, pots[k], hero),
{
    assert(pots.take(k + 1).drop_last() =~= pots.take(k));
}

/// `x` put into the increasing list `lv` at its place, unless already there.
pub open spec fn insert_sorted(lv: Seq<u32>, x: u32) -> Seq<u32>
    decreases lv.len(),
{
    if lv.len() == 0 {
        seq![x]
    } else if x < lv[0] {
        seq![x] + lv
    } else if x == lv[0] {
        lv
    } else {
        seq![lv[0]] + insert_sorted(lv.drop_first(), x)
    }
}

proof fn lemma_insert_sorted(lv: Seq<u32>, x: u32)
    requires
        increasing(lv),
    ensures
        increasing(insert_sorted(lv, x)),
        insert_sorted(lv, x).contains(x),
        forall|y: u32| #[trigger] lv.contains(y) ==> insert_sorted(lv, x).contains(y),
        forall|y: u32| #[trigger] insert_sorted(lv, x).contains(y) ==> (lv.contains(y) || y == x),
        insert_sorted(lv, x).len() > 0,
        insert_sorted(lv, x)[0] == if lv.len() == 0 || x < lv[0] {
            x
        } else {
            lv[0]
        },
    decreases lv.len(),
{
    let r = insert_sorted(lv, x);
    if lv.len() == 0 {
        assert(r[0] == x);
        assert(r =~= seq![x]);
        assert forall|y: u32| r.contains(y) <==> (lv.contains(y) || y == x) by {
            if r.contains(y) {
                let q = choose|q: int| 0 <= q < r.len() && r[q] == y;
            }
            if y == x {
                assert(r[0] == x);
            }
        }
    } else if x < lv[0] {
        assert(r[0] == x);
        assert forall|a: int, b: int| 0 <= a < b < r.len() implies r[a] < r[b] by {
            if a == 0 {
                assert(r[b] == lv[b - 1]);
                if b - 1 > 0 {
                    assert(lv[0] < lv[b - 1]);
                }
            } else {
                assert(r[a] == lv[a - 1] && r[b] == lv[b - 1]);
            }
        }
        assert forall|y: u32| r.contains(y) <==> (lv.contains(y) || y == x) by {
            if r.contains(y) {
                let q = choose|q: int| 0 <= q < r.len() && r[q] == y;
                if q > 0 {
                    assert(lv[q - 1] == y);
                }
            }
            if lv.contains(y) {
                let q = choose|q: int| 0 <= q < lv.len() && lv[q] == y;
                assert(r[q + 1] == y);
            }
            if y == x {
                assert(r[0] == x);
            }
        }
    } else if x == lv[0] {
        assert(r[0] == x);
        assert forall|y: u32| r.contains(y) <==> (lv.contains(y) || y == x) by {
            if y == x {
                assert(lv[0] == x);
            }
        }
    } else {
        let t = lv.drop_first();
        assert forall|a: int, b: int| 0 <= a < b < t.len() implies t[a] < t[b] by {
            assert(t[a] == lv[a + 1] && t[b] == lv[b + 1]);
        }
        lemma_insert_sorted(t, x);
        let it = insert_sorted(t, x);
        assert(r == seq![lv[0]] + it);
        assert(it.contains(x));
        let qx = choose|q2: int| 0 <= q2 < it.len() && it[q2] == x;
        assert(r[qx + 1] == x);
        assert forall|a: int, b: int| 0 <= a < b < r.len() implies r[a] < r[b] by {
            if a == 0 {
                assert(r[b] == it[b - 1]);
                assert(it.contains(it[b - 1]));
                if t.contains(it[b - 1]) {
                    let q = choose|q: int| 0 <= q < t.len() && t[q] == it[b - 1];
                    assert(lv[q + 1] == t[q]);
                    assert(lv[0] < lv[q + 1]);
                }
            } else {
                assert(r[a] == it[a - 1] && r[b] == it[b - 1]);
            }
        }
        assert forall|y: u32| r.contains(y) <==> (lv.contains(y) || y == x) by {
            if r.contains(y) {
                let q = choose|q: int| 0 <= q < r.len() && r[q] == y;
                if q > 0 {
                    assert(it[q - 1] == y);
                    assert(it.contains(y));
                    if t.contains(y) {
                        let q2 = choose|q2: int| 0 <= q2 < t.len() && t[q2] == y;
                        assert(lv[q2 + 1] == y);
                    }
                } else {
                    assert(lv[0] == y);
                }
            }
            if lv.contains(y) {
                let q = choose|q: int| 0 <= q < lv.len() && lv[q] == y;
                if q > 0 {
                    assert(t[q - 1] == y);
                    assert(t.contains(y));
                    assert(it.contains(y));
                    let q2 = choose|q2: int| 0 <= q2 < it.len() && it[q2] == y;
                    assert(r[q2 + 1] == y);
                } else {
                    assert(r[0] == y);
                }
            }
            if y == x {
                assert(it.contains(x));
                let q2 = choose|q2: int| 0 <= q2 < it.len() && it[q2] == x;
                assert(r[q2 + 1] == x);
            }
        }
    }
}

/// The contribution levels built seat by seat.
pub open spec fn levels_of(ps: Seq<PlayerState>) -> Seq<u32>
    decreases ps.len(),
{
    if ps.len() == 0 {
        seq![]
    } else if in_pot(ps.last()) {
        insert_sorted(levels_of(ps.drop_last()), ps.last().total_committed)
    } else {
        levels_of(ps.drop_last())
    }
}

proof fn lemma_levels_of(ps: Seq<PlayerState>)
    ensures
        is_contribution_levels(ps, levels_of(ps)),
    decreases ps.len(),
{
    if ps.len() == 0 {
    } else {
        let d = ps.drop_last();
        lemma_levels_of(d);
        let ld = levels_of(d);
        if in_pot(ps.last()) {
            lemma_insert_sorted(ld, ps.last().total_committed);
        }
        let l = levels_of(ps);
        assert forall|x: u32| l.contains(x) <==> exists|i: int|
            0 <= i < ps.len() && in_pot(#[trigger] ps[i]) && ps[i].total_committed == x by {
            if l.contains(x) {
                if ld.contains(x) {
                    let i = choose|i: int| 0 <= i < d.len() && in_pot(#[trigger] d[i]) && d[i].total_committed == x;
                    assert(ps[i] == d[i]);
                } else {
                    assert(ps[ps.len() - 1] == ps.last());
                }
            }
            if exists|i: int| 0 <= i < ps.len() && in_pot(#[trigger] ps[i]) && ps[i].total_committed == x {
                let i = choose|i: int| 0 <= i < ps.len() && in_pot(#[trigger] ps[i]) && ps[i].total_committed == x;
                if i < ps.len() - 1 {
                    assert(d[i] == ps[i]);
                    assert(ld.contains(x));
                } else {
                    assert(ps[i] == ps.last());
                }
            }
        }
    }
}

/// Every table has its list of contribution levels.
pub proof fn lemma_levels_exist(ps: Seq<PlayerState>)
    ensures
        is_contribution_levels(ps, contribution_levels(ps)),
{
    lemma_levels_of(ps);
    assert(is_contribution_levels(ps, levels_of(ps)));
}

/// A share of a tier is never negative, and a commitment that reaches the tier's top gives at
/// least the tier's height.
pub proof fn lemma_tier_share(t: int, lo: int, hi: int, top: bool)
    requires
        0 <= t,
        0 <= lo <= hi,
    ensures
        0 <= tier_share(t, lo, hi, top),
        t >= hi ==> tier_share(t, lo, hi, top) >= hi - lo,
{
}

/// The tier total over one more seat, and never below the total over fewer seats.
pub proof fn lemma_tier_prefix(ps: Seq<PlayerState>, lo: int, hi: int, top: bool, i: int)
    requires
        0 <= i <= ps.len(),
        0 <= lo <= hi,
    ensures
        0 <= tier_total(ps.take(i), lo, hi, top) <= tier_total(ps, lo, hi, top),
        i < ps.len() ==> tier_total(ps.take(i + 1), lo, hi, top) == tier_total(ps.take(i), lo, hi, top)
            + tier_share(ps[i].total_committed as int, lo, hi, top),
    decreases ps.len(),
{
    if i < ps.len() {
        assert(ps.take(i + 1).drop_last() =~= ps.take(i));
    }
    if i == ps.len() {
        assert(ps.take(i) =~= ps);
        lemma_tier_nonneg(ps, lo, hi, top);
    } else {
        let d = ps.drop_last();
        lemma_tier_prefix(d, lo, hi, top, i);
        assert(d.take(i) =~= ps.take(i));
        lemma_tier_share(ps.last().total_committed as int, lo, hi, top);
    }
}

pub proof fn lemma_tier_nonneg(ps: Seq<PlayerState>, lo: int, hi: int, top: bool)
    requires
        0 <= lo <= hi,
    ensures
        0 <= tier_total(ps, lo, hi, top),
    decreases ps.len(),
{
    if ps.len() > 0 {
        lemma_tier_nonneg(ps.drop_last(), lo, hi, top);
        lemma_tier_share(ps.last().total_committed as int, lo, hi, top);
    }
}

/// Each player eligible at a level gives at least one chip to that level's tier.
proof fn lemma_eligible_le_tier(ps: Seq<PlayerState>, lo: int, hi: int, top: bool)
    requires
        0 <= lo < hi,
    ensures
        eligible_at(ps, hi).len() <= tier_total(ps, lo, hi, top),
    decreases ps.len(),
{
    if ps.len() > 0 {
        lemma_eligible_le_tier(ps.drop_last(), lo, hi, top);
        lemma_tier_share(ps.last().total_committed as int, lo, hi, top);
    }
}

/// The levels rise from above zero.
pub proof fn lemma_level_gap(ps: Seq<PlayerState>, k: int)
    requires
        0 <= k < contribution_levels(ps).len(),
    ensures
        0 <= level_below(contribution_levels(ps), k) < contribution_levels(ps)[k],
        is_contribution_levels(ps, contribution_levels(ps)),
{
    lemma_levels_exist(ps);
    let lv = contribution_levels(ps);
    assert(lv.contains(lv[k]));
    if k > 0 {
        assert(lv[k - 1] < lv[k]);
    }
}

/// When the side pots fit their counters, so does the number of players eligible for each.
pub proof fn lemma_eligible_fits(ps: Seq<PlayerState>, k: int)
    requires
        side_pots_fit(ps),
        0 <= k < contribution_levels(ps).len(),
    ensures
        side_pots_for(ps)[k].1.len() <= u32::MAX,
{
    lemma_level_gap(ps, k);
    let lv = contribution_levels(ps);
    lemma_eligible_le_tier(ps, level_below(lv, k), lv[k] as int, k == lv.len() - 1);
    assert(pot_amount(ps, lv, k) <= u32::MAX);
}

/// Every side pot is open to someone, and there are pots whenever a player still in the pot has
/// committed chips.
pub proof fn in_pot_seats_listed(ps: Seq<PlayerState>)
    ensures
        (exists|i: int| 0 <= i < ps.len() && in_pot(#[trigger] ps[i])) ==> contribution_levels(ps).len() > 0,
        forall|k: int| 0 <= k < side_pots_for(ps).len() ==> (#[trigger] side_pots_for(ps)[k]).1.len() > 0,
{
    lemma_levels_exist(ps);
    let lv = contribution_levels(ps);
    if exists|i: int| 0 <= i < ps.len() && in_pot(#[trigger] ps[i]) {
        let i = choose|i: int| 0 <= i < ps.len() && in_pot(#[trigger] ps[i]);
        assert(lv.contains(ps[i].total_committed));
    }
    assert forall|k: int| 0 <= k < side_pots_for(ps).len() implies (#[trigger] side_pots_for(ps)[k]).1.len() > 0 by {
        assert(lv.contains(lv[k]));
        let j = choose|j: int| 0 <= j < ps.len() && in_pot(#[trigger] ps[j]) && ps[j].total_committed == lv[k];
        lemma_eligible_facts(ps, lv[k] as int);
        assert(in_pot(ps[j]) && ps[j].total_committed >= lv[k]);
    }
}

} // verus!
