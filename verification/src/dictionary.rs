//! A dictionary of categorized words with a format string, generating
//! random phrases by placeholder substitution.

use vstd::prelude::*;

use crate::template::{expand, generation_ok, is_expansion};
use crate::word_bank::WordBank;

verus! {

/// Possible errors when building a `Dictionary` from configuration text.
#[derive(Debug)]
pub enum DictionaryError {
    MissingConfigTable,
    MissingConfigTypeHeader,
    InvalidConfigTypeHeader,
    MissingFormatKey,
    MissingFormatString,
    MissingClassesTable,
    InvalidClassesKey,
    InvalidHeader(String),
}

impl DictionaryError {
    /// The wording of each error, for callers that report it.
    pub open spec fn message_spec(&self) -> Seq<char> {
        match self {
            DictionaryError::MissingConfigTable => "'config' table is missing"@,
            DictionaryError::MissingConfigTypeHeader => "config.type key is missing"@,
            DictionaryError::InvalidConfigTypeHeader => "config.type is not a string"@,
            DictionaryError::MissingFormatKey => "config.format key is missing"@,
            DictionaryError::MissingFormatString => "config.format is missing"@,
            DictionaryError::MissingClassesTable => "'classes' table is missing"@,
            DictionaryError::InvalidClassesKey => "a classes entry is not a string"@,
            DictionaryError::InvalidHeader(h) => "not a known part of speech: "@ + h@,
        }
    }

    /// Renders the error as text.
    pub fn message(&self) -> (r: String)
        ensures
            r@ == self.message_spec(),
    {
        match self {
            DictionaryError::MissingConfigTable => String::from_str("'config' table is missing"),
            DictionaryError::MissingConfigTypeHeader => String::from_str(
                "config.type key is missing",
            ),
            DictionaryError::InvalidConfigTypeHeader => String::from_str(
                "config.type is not a string",
            ),
            DictionaryError::MissingFormatKey => String::from_str("config.format key is missing"),
            DictionaryError::MissingFormatString => String::from_str("config.format is missing"),
            DictionaryError::MissingClassesTable => String::from_str("'classes' table is missing"),
            DictionaryError::InvalidClassesKey => String::from_str(
                "a classes entry is not a string",
            ),
            DictionaryError::InvalidHeader(h) => {
                let mut r = String::from_str("not a known part of speech: ");
                r.append(h.as_str());
                r
            },
        }
    }
}

/// Holds a class-to-words mapping and a format string, and generates
/// random phrases from them.
pub struct Dictionary {
    bank: WordBank,
    format: String,
}

impl Dictionary {
    /// The class-to-words mapping, as a mathematical map.
    pub closed spec fn bank_map(&self) -> Map<Seq<char>, Seq<Seq<char>>> {
        self.bank@
    }

    /// The format string, as a sequence of characters.
    pub closed spec fn format_chars(&self) -> Seq<char> {
        self.format@
    }

    /// Builds a dictionary from an already-parsed word bank and format
    /// string.
    pub fn new(bank: WordBank, format: String) -> (r: Dictionary)
        ensures
            r.bank_map() == bank@,
            r.format_chars() == format@,
    {
        Dictionary { bank, format }
    }

    /// Attempts to generate a random phrase with the words contained in
    /// the dictionary.  Returns `Some` unless a placeholder of the format
    /// names a class that is present but has no words.
    pub fn get_phrase(&self) -> (r: Option<String>)
        ensures
            r is Some <==> generation_ok(self.format_chars(), self.bank_map()),
            r matches Some(p) ==> is_expansion(self.format_chars(), self.bank_map(), p@),
    {
        expand(&self.bank, self.format.as_str())
    }
}

impl Default for Dictionary {
    /// Creates a new empty Dictionary.
    fn default() -> (r: Self)
        ensures
            r.bank_map() == Map::<Seq<char>, Seq<Seq<char>>>::empty(),
            r.format_chars() == Seq::<char>::empty(),
    {
        Dictionary { bank: WordBank::new(), format: String::new() }
    }
}

} // verus!
