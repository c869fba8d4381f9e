//! Japanese vocabulary extraction and spaced-repetition study records.
//!
//! `segmenter` cuts Hiragana and Katakana runs out of text, `store` keeps
//! the words in a sorted, duplicate-free list, `review` and `word` move each
//! word up a ladder of growing review intervals, and `command` reads the
//! command line.

pub mod command;
pub mod order;
pub mod review;
pub mod segmenter;
pub mod store;
pub mod text;
pub mod word;

pub use command::{Flags, SSData};
pub use review::{ReviewInterval, TimesReviewed};
pub use segmenter::{JapaneseWordParser, JapaneseWordType};
pub use store::{StoreError, WordStore};
pub use word::{JPWord, WordType};
