//! Scripted interaction with a remote byte-stream peer: buffered reads with
//! delimiter scanning, line-oriented sends, and the integer codecs that
//! exploit scripts build on.

pub mod buffer;
pub mod context;
pub mod elf;
pub mod flat;
pub mod image;
pub mod names;
pub mod packing;
pub mod tube;

pub use buffer::Buffer;
pub use context::{Arch, Bits, Context, Endianness, LogLevel};
pub use elf::{Symbol, Symtab};
pub use flat::{Flatten, flat, flat_layout};
pub use tube::find_subsequence;
