//! Extraction of abbreviation definitions from Japanese legal sentences.
//!
//! A legal sentence may introduce a short name for a long term in a
//! parenthetical remark: "... (hereinafter called 「X」)" or "... (means Y)".
//! This library finds such remarks and pairs each with the term it speaks of.
//!
//! - [`paren`] takes the parentheticals out of a sentence and keeps those
//!   that define something, together with the place where they stood.
//! - [`pattern`] tells what kind of definition a parenthetical is.
//! - [`dependency`] resolves, from the dependency tokens of the sentence,
//!   the span of the term that a parenthetical refers to.
//! - [`ryakusyou`] makes the pairs and reports them by law and place.
//! - [`rebuild`] shows that segmentation can be undone.
//! - [`text`] holds the helpers on characters.

pub mod dependency;
pub mod paren;
pub mod pattern;
pub mod rebuild;
pub mod ryakusyou;
pub mod text;

pub use dependency::JapaneseDependency;
pub use paren::{remove_paren, TextInfo};
pub use ryakusyou::{find_ryakusyou, Chapter, ParseRyakusyouInfo, Ryakusyou, RyakusyouInfo};
pub use text::check_paren;
