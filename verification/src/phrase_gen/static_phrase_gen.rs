//! A phrase generator over a fixed template, the one generator kind the
//! configuration format currently names.

use vstd::prelude::*;

use crate::template::{expand, generation_ok, is_expansion};
use crate::word_bank::WordBank;

verus! {

/// Possible errors when creating a `StaticPhraseGen`.
#[derive(Debug)]
pub enum StaticPhraseGenError {
    MissingConfigTable,
    MissingConfigTypeHeader,
    InvalidConfigTypeHeader,
    MissingFormatKey,
    MissingFormatString,
    MissingClassesTable,
    InvalidClassesKey,
}

impl StaticPhraseGenError {
    /// The wording of each error, for callers that report it.
    pub open spec fn message_spec(&self) -> Seq<char> {
        match self {
            StaticPhraseGenError::MissingConfigTable => "'config' table is missing"@,
            StaticPhraseGenError::MissingConfigTypeHeader => "config.type key is missing"@,
            StaticPhraseGenError::InvalidConfigTypeHeader => "config.type is not a string"@,
            StaticPhraseGenError::MissingFormatKey => "config.format key is missing"@,
            StaticPhraseGenError::MissingFormatString => "config.format is missing"@,
            StaticPhraseGenError::MissingClassesTable => "'classes' table is missing"@,
            StaticPhraseGenError::InvalidClassesKey => "a classes entry is not a string"@,
        }
    }

    /// Renders the error as text.
    pub fn message(&self) -> (r: String)
        ensures
            r@ == self.message_spec(),
    {
        match self {
            StaticPhraseGenError::MissingConfigTable => String::from_str(
                "'config' table is missing",
            ),
            StaticPhraseGenError::MissingConfigTypeHeader => String::from_str(
                "config.type key is missing",
            ),
            StaticPhraseGenError::InvalidConfigTypeHeader => String::from_str(
                "config.type is not a string",
            ),
            StaticPhraseGenError::MissingFormatKey => String::from_str(
                "config.format key is missing",
            ),
            StaticPhraseGenError::MissingFormatString => String::from_str(
                "config.format is missing",
            ),
            StaticPhraseGenError::MissingClassesTable => String::from_str(
                "'classes' table is missing",
            ),
            StaticPhraseGenError::InvalidClassesKey => String::from_str(
                "a classes entry is not a string",
            ),
        }
    }
}

/// Associates word classes with candidate words and a fixed format string.
pub struct StaticPhraseGen {
    bank: WordBank,
    format: String,
}

impl StaticPhraseGen {
    /// The class-to-words mapping, as a mathematical map.
    pub closed spec fn bank_map(&self) -> Map<Seq<char>, Seq<Seq<char>>> {
        self.bank@
    }

    /// The format string, as a sequence of characters.
    pub closed spec fn format_chars(&self) -> Seq<char> {
        self.format@
    }

    /// Builds a generator from an already-parsed word bank and format
    /// string.
    pub fn new(bank: WordBank, format: String) -> (r: StaticPhraseGen)
        ensures
            r.bank_map() == bank@,
            r.format_chars() == format@,
    {
        StaticPhraseGen { bank, format }
    }

    /// Returns a copy of the format string with each placeholder replaced
    /// by a randomly chosen word of its class.  Returns `Some` unless a
    /// placeholder names a class that is present but has no words.
    pub fn get_phrase(&self) -> (r: Option<String>)
        ensures
            r is Some <==> generation_ok(self.format_chars(), self.bank_map()),
            r matches Some(p) ==> is_expansion(self.format_chars(), self.bank_map(), p@),
    {
        expand(&self.bank, self.format.as_str())
    }
}

impl Default for StaticPhraseGen {
    /// Creates a new empty generator.
    fn default() -> (r: Self)
        ensures
            r.bank_map() == Map::<Seq<char>, Seq<Seq<char>>>::empty(),
            r.format_chars() == Seq::<char>::empty(),
    {
        StaticPhraseGen { bank: WordBank::new(), format: String::new() }
    }
}

} // verus!
