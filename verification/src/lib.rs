//! Runtime support for ahead-of-time compiled TypePy programs: the object
//! model, the allocator and a precise, stop-the-world, mark-and-sweep
//! garbage collector.
//!
//! The runtime works on an explicit model of the machine. Objects live in
//! a store of word blocks and are known by non-null references; a
//! prototype is registered once and known by its reference. What the
//! collector reads outside the heap, the code with its reference maps, the
//! stack and the globals, is handed over as regions of bytes and words with
//! their addresses. Within an object the layout is the one that compiled
//! code uses: prototype, mark and link in the first three words, the
//! length of an array in the fourth, attributes or elements behind.
//!
//! Every function is proved against a mathematical description of the
//! runtime's state:
//!
//! - [`model`] holds that state, what makes it well formed, and what
//!   marking, sweeping and collecting do to it;
//! - [`graph`] defines which objects the roots reach;
//! - [`roots`] defines where the roots are;
//! - [`runtime`] holds the executable state and, below it, the tracer, the
//!   sweeper, the collector, the allocator and the built-in functions;
//! - [`laws`] states what holds of the runtime as a whole.

pub mod bitmap;
pub mod graph;
pub mod heap;
pub mod laws;
pub mod layout;
pub mod memory;
pub mod model;
pub mod object;
pub mod roots;
pub mod runtime;
pub mod text;
pub mod traps;
pub mod words;
