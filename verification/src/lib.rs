//! Selection-list parsing and line extraction: the core of a `cut`-style
//! tool, together with the small text utilities (counting, padding,
//! positive-integer parsing) shared by its sibling tools.

pub mod count;
pub mod digits;
pub mod extract;
pub mod fields;
pub mod parse;
pub mod render;
pub mod uniq;

pub use count::{count, FileInfo};
pub use digits::parse_positive_int;
pub use extract::{extract, extract_bytes, extract_chars, extract_fields, Extract};
pub use fields::split_fields;
pub use parse::{parse_index, parse_pos, parse_to_int, ParseError};
pub use render::{format_count, format_field, print_content, to_decimal};
pub use uniq::lines_match;
