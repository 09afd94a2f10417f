//! Iterative generation of all permutations of `0..n`.
//!
//! A [`Permutations`] generator produces each of the `n!` rearrangements of
//! `0..n` exactly once, one per call to [`Permutations::next`], using the
//! Steinhaus-Johnson-Trotter algorithm with Even's direction-tracking
//! speedup.  Each step performs a single adjacent swap and runs in O(n) time.
//!
//! Each generator is one-way: construct a new one to iterate again.

mod model;
mod inverse;
mod generator;

pub use generator::PermError;
pub use generator::Permutations;
pub use inverse::inverse_perm;
pub use model::adjacent_swap_at;
pub use model::appears;
pub use model::differs_by_adjacent_swap;
pub use model::identity_seq;
pub use model::initial_dirs;
pub use model::inverse_of;
pub use model::is_permutation;
pub use model::largest_mobile_below;
pub use model::lemma_inverse_round_trip;
pub use model::lemma_step_adjacent_swap;
pub use model::mobile;
pub use model::position_of;
pub use model::seq_swap;
pub use model::sjt_step;
