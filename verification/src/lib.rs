//! Reader for memory images in the plain hex text format that
//! `objcopy -O verilog` emits: whitespace-separated byte values, `@address`
//! directives that move the load address, and `//` comment markers.
//!
//! [`Reader`] turns such a text into a stream of [`Record`]s, tracking the load
//! address of every byte and, on request, packing up to eight consecutive
//! bytes into one little-endian value.
pub mod data;
pub mod display;
pub mod hex;
pub mod reader;
pub mod record;
pub mod theorems;
pub mod token;

pub use data::DataType;
pub use data::group_new_data;
pub use record::ReaderError;
pub use record::Record;
pub use reader::Reader;
pub use reader::ReaderOptions;
pub use reader::ReaderState;
pub use token::Tokenizer;
