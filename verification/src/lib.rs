//! Ropes: persistent, tree-shaped text containers over shared immutable
//! UTF-8 buffers, together with the string primitives they are built on.
//!
//! * [`utf8`] holds the mathematical vocabulary: character boundaries and
//!   the characters that a byte range of a buffer encodes.
//! * [`text`] holds the strings: how they are walked, cut, built,
//!   compared, searched, trimmed, escaped and converted.
//! * [`forest`] and [`order`] hold what is said of lists of pieces and of
//!   the order of texts.
//! * [`node`] holds the tree itself, its parts, its walks, its balancing
//!   and its traversals.
//! * [`rope`] holds the public handle and its operations, [`iterator`]
//!   the traversals of a rope, and [`laws`] what holds of the operations
//!   taken together.
pub mod utf8;
pub mod text;
pub mod forest;
pub mod order;
pub mod node;
pub mod rope;
pub mod iterator;
pub mod laws;
