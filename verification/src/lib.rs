//! A scene-node hierarchy with verified structural invariants.
//!
//! The heart of the crate is [`object::Hierarchy`], an arena of positioned
//! nodes ([`object::Object`]) organized into a forest: every node carries a
//! local 2-D offset, at most one parent, and an ordered list of children.
//! Attaching, detaching and coordinate resolution are proved to keep the
//! parent and child links in agreement, the children lists duplicate-free,
//! and every ancestor chain cycle-free.
//!
//! [`callback::CallbackRegistry`] and [`callback::CallbackManager`] are a
//! sibling utility: they store listeners together with reference-counted
//! handlers and drop a listener once its handler is no longer held.

pub mod callback;
pub mod object;
