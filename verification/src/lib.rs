//! Annotated Agda sources turned into Literate Agda with LaTeX macros.
pub mod text;
pub mod lines;
pub mod span_str;
pub mod str_lines;
pub mod string_stack;
pub mod ltx_write;
pub mod command;
pub mod diagnostic;
pub mod translation;
pub mod document;
pub mod bytes;
pub mod vectored;
pub mod source_hash;
pub mod hash_writer;
pub mod escape;
pub mod driver;
pub mod outline;
pub mod output;
