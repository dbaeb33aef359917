//! One-time-initialised values, set up by explicit, ordered initialisation
//! calls instead of on first use.
//!
//! - [`slot`] holds the single cell, [`MagicStatic`], and its state machine.
//! - [`protocol`] models many threads racing on one cell and proves that the
//!   producer runs exactly once, whatever the interleaving.
//! - [`group`] runs ordered, possibly nested, lists of cells.

pub mod group;
pub mod protocol;
pub mod slot;

pub use group::{magic_static, Statics, Target};
pub use protocol::{after_claim, after_poll, Contention, Phase};
pub use slot::{InitError, MagicStatic, SlotState};
