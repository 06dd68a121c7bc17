//! Locates nodes in an in-memory document tree with a small path language.
//!
//! A path such as `//book[@id=first]` is split into tokens ([`parser`]),
//! its shorthand symbols are rewritten into axis steps and the steps are run
//! on the tree, one after the other ([`translator`]). What a query yields is
//! defined in [`machine`] as a transition from state to state; [`engine`]
//! and [`walk`] compute it, and [`breadth`], [`reach`] and [`within`] hold
//! what follows from the definition. A tree is made of [`element`]s, whose
//! places are paths of child indices ([`position`]); it can be built step by
//! step or from the events that a reader reports of a document ([`events`]).

pub mod attributes;
pub mod breadth;
pub mod element;
pub mod engine;
pub mod errors;
pub mod events;
pub mod lookup;
pub mod machine;
pub mod parser;
pub mod position;
pub mod reach;
pub mod search;
pub mod tokens;
pub mod translator;
pub mod tree;
pub mod walk;
pub mod within;
