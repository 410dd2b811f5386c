//! Parsing and canonical rendering of ION documents: named sections that
//! hold a key-ordered dictionary of typed values and a list of table rows.
//!
//! `grammar` states what reading a text means; `Parser` reads and is proved
//! to follow it; `render` states and writes the canonical text. `rescan`,
//! `round_trip` and `readable` prove that rendering what was read is a
//! fixed point, and which block of a repeated section name is kept, with
//! and without a filter; `table_text` proves how the header rule treats
//! repeated cells.

mod error;
mod from_ion;
pub mod grammar;
mod ion;
mod parser;
pub mod readable;
pub mod render;
pub mod rescan;
pub mod round_trip;
mod section;
pub mod table_text;
mod sorted_map;
mod text;
mod value;
mod writer;

pub use error::IonError;
pub use from_ion::{parse_bool, parse_signed, parse_unsigned, FromIon};
pub use ion::Ion;
pub use parser::{Element, Parser, ParserError};
pub use section::{IntoIter, Section};
pub use sorted_map::SortedMap;
pub use text::{chars_of, key_cmp};
pub use value::{Dictionary, Row, Value};
pub use writer::Writer;
