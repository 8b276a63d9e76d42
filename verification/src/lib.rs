//! A codec for memory-initialization text: a header that gives the shape of a
//! memory, followed by a list of address/value assignments.
//!
//! [`decode`] reads such text into a bit-packed [`PackedBuffer`]; [`Mif`]
//! renders a slice of fixed-width numbers back into the text form, collapsing
//! equal neighbours into address ranges.

pub mod ascii;
pub mod bits;
pub mod buffer;
pub mod content;
pub mod decoder;
pub mod error;
pub mod header;
pub mod lexer;
pub mod masking;
pub mod numeral;
pub mod order;
pub mod radix;
pub mod reading;
pub mod replace;
pub mod roundtrip;
pub mod runs;
pub mod suffix;
pub mod value;
pub mod writer;

pub use buffer::{Memory, PackedBuffer};
pub use content::{AddressSpec, Assignment, Statement};
pub use decoder::{decode, decode_bytes};
pub use error::{Expected, HeaderField, ParseError};
pub use header::{Header, HeaderDraft, Setting};
pub use radix::Radix;
pub use runs::{group_runs, Run};
pub use value::{ToMif, ValueKey};
pub use writer::{Document, Mif};
