//! Bytecode container and instruction-encoding layer for a stack-based
//! virtual machine: the instruction codec, the mutable chunk with its
//! constant pool and global-name table, forward-jump backpatching, and a
//! byte-level chunk serializer that rejects trailing garbage.

pub mod chunk;
pub mod op;
pub mod wire;

pub use chunk::{Chunk, ChunkView, CodeIterator, Constant, ConstantView, PendingJump};
pub use op::{Op, OpError};
pub use wire::ChunkReadError;
