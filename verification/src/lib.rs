//! Random names assembled from your own word lists.
//!
//! A hand-edited or scraped word list almost always has a typo in it
//! somewhere: a trailing space that quietly doubles an entry's odds, a blank
//! line that becomes an empty name, a stray comma pasted in from a
//! spreadsheet. `NameGenerator` refuses to build from a list like that by
//! default, and tells you exactly which entry is the problem. If you know
//! your input is messy but harmless, opt into `Strictness::Lenient` and it
//! will clean the list up instead of erroring.
//!
//! `NameGenerator` only ever produces "first last". For anything else - a
//! title, a nickname in quotes, a fantasy name built from syllables - use
//! `TemplateGenerator`, which takes a pattern and any number of named slots.
pub mod names;
pub mod rng;
pub mod template;
pub mod text;
pub mod validate;

pub use names::NameGenerator;
pub use rng::Rng;
pub use template::{TemplateError, TemplateGenerator};
pub use validate::{BuildError, Strictness};
