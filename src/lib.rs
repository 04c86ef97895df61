pub mod basic_types;
pub mod chunk;
pub mod joiner;
pub mod locator;
pub mod magic_string;
pub mod offset_index;
pub mod source_map;
pub mod span;

pub use crate::basic_types::AssertIntoU32;
pub use crate::joiner::{Joiner, JoinerOptions};
pub use crate::locator::{Locator, Location};
pub use crate::magic_string::mutation::UpdateOptions;
pub use crate::magic_string::source_map::SourceMapOptions;
pub use crate::magic_string::{MagicString, MagicStringError, MagicStringOptions};
pub use crate::span::Span;
