//! Incremental parsing of subtext, a line-oriented plain-text markup, into
//! typed blocks made of typed spans of the input.

pub mod block;
pub mod error;
pub mod faithful;
pub mod locality;
pub mod openings;
pub mod parse;
pub mod predicate;
pub mod primitive;
pub mod sequence;
pub mod slashlink;
pub mod slug;
pub mod stream;
pub mod text;
pub mod util;

pub use error::ParseError;
pub use parse::parse;
pub use text::SharedString;
