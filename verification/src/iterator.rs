//! Traversals of a rope: leaf by leaf, or character by character.
pub mod leaf;
pub mod character;
