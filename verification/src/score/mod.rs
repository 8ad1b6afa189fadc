//! Scores: event identities and scopes, events, transformations.
pub mod id;
pub mod event;
pub mod transform;
pub mod text_order;
pub mod container;
