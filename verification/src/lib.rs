//! An incremental dependency store: a small reactive computation graph.
//!
//! A [`store::Store`] owns a collection of value cells. An *input* cell holds
//! a value set directly by the caller; a *computed* cell caches the result of
//! a pure function applied to the current values of an ordered list of
//! dependency cells. Writing an input immediately and synchronously
//! recomputes every computed cell that could be affected, so that after every
//! operation each computed cell holds exactly the value its function would
//! produce from the current values of its dependencies.

pub mod compute;
pub mod store;
