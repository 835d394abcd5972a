//! Ticket-weighted pooled staking.
//!
//! Participants deposit an asset into a pool and earn lottery tickets: one
//! ticket for each unit and each day of the pool's commitment period. The
//! administrator tops up a prize fund, and a draw pays the whole fund to one
//! participant, picked with a weight of its tickets.
//!
//! - [`pool`] is the staking pool, [`draw`] its draw and [`shares`] its
//!   ticket arithmetic.
//! - [`registry`] keeps who holds what, [`identity`] tells accounts apart, and
//!   [`ledger`] names the transfers that the pool asks for.
//! - [`laws`] states what holds of every pool.
//! - [`deposit`], [`prize_pool`] and [`general_store`] are the pool's smaller
//!   companions: a plain vault, a prize that is shared out in proportion, and
//!   a key-value store.
//!
//! Each stateful type is described by a view, a plain mathematical value, and
//! by functions on views that say what each operation does. The executable
//! operations are proved to do exactly that, without overflow and without
//! panicking.

pub mod deposit;
pub mod draw;
pub mod error;
pub mod general_store;
pub mod identity;
pub mod laws;
pub mod ledger;
pub mod pool;
pub mod prize_pool;
pub mod registry;
pub mod shares;
