//! A small embeddable just-in-time compilation engine.
//!
//! A [`context::Context`] owns one compilation session: an executable-memory
//! allocator enforcing the W^X discipline, an ordered list of IR modules, and
//! the symbol table that links them.  IR is built append-only, linked, and
//! handed to the code generator, which writes a generated image into a fresh
//! region, seals it to execute-only, and returns an entry point that can be
//! invoked with machine integers.
//!
//! The central guarantees are stated and proved where they live: the
//! allocator's laws — a sealed region exposes exactly the bytes written
//! into it, and no region steps from unmapped to executable — in
//! [`code_alloc`]; that an invoked entry point computes exactly the
//! straight-line semantics of the function it was generated from, in
//! [`gen`]; and that colliding exports poison a name for good, in
//! [`context`].

pub mod code_alloc;
pub mod context;
pub mod errors;
pub mod gen;
pub mod ir;

pub use errors::JitError;
