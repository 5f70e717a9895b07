//! Line-oriented text reformatter: strips leading ideographic spaces
//! (U+3000) from each line, trims ASCII whitespace from both ends, drops
//! lines left empty, and emits each surviving line followed by a blank
//! separator line.

pub mod pipeline;
pub mod trim;

pub use pipeline::format_text;
pub use pipeline::Config;
pub use pipeline::Error;
pub use trim::trim_ascii_whitespace;
pub use trim::trim_start_str;
