//! Reconciliation core of a fine-grained reactive renderer: a keyed list mapper that
//! reuses, moves and disposes per-item resources, and a child patcher that turns a new
//! region value into a short list of tree mutations.

pub mod binder;
pub mod keyed;
pub mod render;
pub mod selector;
pub mod spawn;
