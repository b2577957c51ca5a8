//! Random phrase generation from a bank of categorized words.
//!
//! A [`word_bank::WordBank`] maps word-class names to lists of candidate
//! words.  A format string may contain placeholders of the form
//! `{{class}}`; the generator replaces each placeholder occurrence with an
//! independently chosen random word from the named class.

pub mod dictionary;
pub mod part_of_speech;
pub mod phrase_gen;
pub mod template;
mod text;
pub mod word_bank;
