//! A Texas hold'em game engine for counterfactual-regret training: the state of a hand, its
//! legal actions and transitions, side pots, hand evaluation and the hero's payoff, together
//! with the rules of Kuhn poker.
pub mod deep_cfr;
pub mod game;
pub mod kuhn;
