//! Reverse-mode differentiation over a tape of scalar operations.
//!
//! A [`Tape`] records a directed acyclic graph of scalar operations, one
//! [`Node`] per operation, each naming its operands by their position on the
//! tape. A [`Value`] is a handle to one node; its operators record new nodes
//! and leave the old ones as they are, so that a value used twice is one
//! node with two users.
//!
//! Scalars are carried as IEEE-754 single-precision bit patterns. The
//! library never computes with them: it decides what is to be computed, and
//! in which order, and keeps the results. The arithmetic is the caller's,
//! handed in as two functions: one that computes a [`Task`], the forward
//! value of a node from those of its operands, and one that computes a
//! [`Step`], the new gradient of a node from one contribution to it.
//!
//! * [`Values::settle`] gives the nodes their forward values, in the order
//!   of the tape.
//! * [`Value::backprop`] runs a backward pass from a root: it gives every
//!   node a gradient in [`Gradients`], sets that of the root to one, and
//!   carries out the contributions of the pass, each a [`Push`] from a node
//!   to one of its operands. It refuses a part of the tape that could hold
//!   a cycle.
//! * [`Gradients::clear`] sets the gradients under a root back to zero,
//!   for the next pass.
//!
//! The contributions are laid out so that every contribution into a node
//! comes before every contribution out of it. Module [`pass`] states what
//! follows for the gradients that a pass leaves, whatever the arithmetic.
//!
//! Each of these can also be done step by step, by [`Values::next`] and
//! [`Values::supply`], and by [`Value::begin`], [`Values::step`] and
//! [`Gradients::set`].
pub mod draws;
pub mod error;
pub mod gradients;
pub mod neuron;
pub mod node;
pub mod order;
pub mod pass;
pub mod plan;
mod postorder;
pub mod tape;
pub mod value;
pub mod values;
mod walk;

pub use draws::Draws;
pub use error::StructuralError;
pub use gradients::Gradients;
pub use neuron::{Layer, Neuron, MLP};
pub use node::{Node, Op};
pub use plan::{Push, Slope};
pub use tape::Tape;
pub use value::Value;
pub use values::{Factor, Step, Task, Values};
