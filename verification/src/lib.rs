//! A generational arena: a container that hands out copyable handles
//! (slot index + generation counter) instead of references, so that reuse
//! of a freed slot can never be mistaken for a still-live object.
//!
//! Two variants are provided: a growable [`arena::Arena`] whose backing
//! storage extends on demand, and a fixed-capacity [`sarena::SArena`]
//! whose storage is allocated once at construction.

pub mod arena;
pub mod sarena;
