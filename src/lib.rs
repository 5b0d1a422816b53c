//! Translation strings with a fallback language.
//!
//! A language holds a table of strings, nested in named categories; a flat
//! key joins the category names and the string's name with a backslash
//! (`category\category2\foo`). A language set looks a key up in its current
//! language first, then in its fallback language.
use vstd::prelude::*;

pub mod language;
pub mod language_set;
pub mod tree;

pub use language::{Language, LanguageView};
pub use language_set::{LanguageSet, LanguageSetView};
pub use tree::{LanguageStringObject, SEPARATOR};

verus! {

} // verus!
