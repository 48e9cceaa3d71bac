//! A reader, writer and mutator for ELF object files.
//!
//! An image is parsed into an [`object::Object`], edited in place, brought
//! back into a consistent layout and serialised again. Every function comes
//! with a contract over byte sequences that states what it returns.

pub mod error;
pub mod io;
pub mod layout;
pub mod object;
pub mod parse;
pub mod roundtrip;
pub mod section;
pub mod segment;
pub mod stream;
pub mod symbol;
pub mod tables;
pub mod theorems;
pub mod util;
