# poker_cfr

A limit hold'em engine for counterfactual-regret training, with its rules proved in Verus,
and the rules of Kuhn poker.

- `src/game/state.rs` — the table: streets, actions, seats, pots, cards.
- `src/game/trns.rs` — legal actions, betting, turns, dealing, side pots, the hero's payoff
  (`payoff` ranks hands with the crate's own evaluator, `payoff_with_table` by walking a
  hand-rank lookup table).
- `src/game/pots.rs` — what the side pots are and what the hero wins from them.
- `src/game/handeval.rs` — seven-card hand values (`category * 4096 + tiebreak`), computed
  directly; the categories are those of the usual hand-rank lookup tables, the tiebreak numbers
  within a category are this crate's own. The walk over such a table is
  `eval_7hand_in_table`; both rank hands for the payoff, the strongest winning.
- `src/game/laws.rs` — properties across operations (chips conserved, turns go to players who
  can act, the side pots hold every chip committed, folded players' included, dealing only
  moves cards).
- `src/game/zero_sum.rs` — the seats' payoffs add up to zero, whichever evaluator ranks the
  hands.
- `src/deep_cfr/trv.rs` — node kinds and chance steps of the game tree.
- `src/kuhn.rs` — Kuhn poker information sets and payoffs.
- `app/` — the Kuhn poker CFR solver (floating point), loading the hand-rank table file and
  paying off by it, serde copies of the state types, and the floating-point tree node and
  regret tables.
