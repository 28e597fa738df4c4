//! A terminal text-styling template library.
//!
//! A template string mixes literal text, argument slots (`{}`, `{2}`,
//! `{name}`, optionally with a format spec such as `{:x}`), and nested
//! style tags (`{$red+bold}...{/$}`). [`parse::parse`] turns such a
//! string into an immutable [`template::FormatStr`], and
//! [`render::render`] walks the parsed template with an ordered list of
//! positional values and a list of named values, emitting the literal
//! text, the resolved argument values, and ANSI SGR escape sequences at
//! every style-scope boundary.

pub mod codec;
pub mod laws;
pub mod parse;
pub mod render;
pub mod style;
pub mod template;

pub use style::Color;
pub use style::Style;
pub use template::FormatStr;
pub use parse::ParseError;
pub use render::NamedArg;
pub use render::RenderError;
