//! A small JavaScript engine core: a paged, bump-allocating heap for
//! garbage-collected objects, tagged value words, and the front end of a
//! compiler.

pub mod compiler;
pub mod gc;
pub mod value;

pub use compiler::{CompiledScript, Compiler, DeclKind, Error, StmtKind};
pub use gc::{
    CheckTypeId, CompactTypeId, Gc, GcFlags, GcHeader, GcIter, GcPtr, IncorrectGcType, Page,
    PageIter, Trace, PAGE_SIZE,
};
pub use value::{InvalidSmi, JsValue};
