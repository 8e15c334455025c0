//! Parsing and writing of vCard / iCalendar style documents: nested `BEGIN:`/`END:` components
//! holding content lines `[group.]NAME[;param=value...]:value`, with escaped values and folded
//! lines.
use vstd::prelude::*;

pub mod grammar;
pub mod laws;
pub mod model;
pub mod parser;
pub mod text;
pub mod writer;

pub use model::{Component, Property};
pub use parser::parse_component;
pub use text::{escape_chars, fold_line, unescape_chars, unfold_lines};
pub use writer::write_component;

verus! {

} // verus!
