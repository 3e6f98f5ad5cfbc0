//! A hierarchical state-machine execution engine.
//!
//! A state tree is a nest of node types: a leaf node carries no children,
//! while a composite node holds exactly one active child at a time, chosen
//! from a fixed set of variants. Events are delivered to the innermost
//! active leaf first and bubble outward until some node accepts them; a
//! transition replaces the whole active path, exiting and re-entering only
//! the branch below the point where the old and the new path diverge.
//!
//! The [`base`] module holds the dispatch protocol every node implements,
//! the [`reactor`] module drives event delivery and transitions, the
//! [`laws`] module proves the engine's ordering guarantees, and the
//! [`sample`] module carries a small concrete tree exercising all of it.
//!
//! A tree definition that breaks the protocol's obligations — an identity
//! path that overruns the depth bound, a decision vector out of step with
//! the path, a node using the reserved sentinel token — is rejected when
//! its `State` implementation is verified, before any reactor exists.

pub mod base;
pub mod laws;
pub mod reactor;
pub mod sample;

pub use reactor::React;
pub use reactor::Reactor;
