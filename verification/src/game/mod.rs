pub mod handeval;
pub mod helpers;
pub mod infoset;
pub mod node;
pub mod playerimpl;
pub mod pots;
pub mod state;
pub mod trns;
pub mod vectorizing;
pub mod laws;
pub mod zero_sum;
