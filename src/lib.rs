//! A shortlist: a container of fixed capacity that keeps the largest items
//! offered to it, with a single allocation made at construction.
//!
//! The element order is `T`'s own `Ord`, taken as a total order on values
//! (see [`order::total_order`]); what a shortlist retains is described by
//! multisets in [`retain`].
mod heap;
pub mod order;
pub mod retain;
mod shortlist;

pub use shortlist::Shortlist;
