//! The phrase generator: a word bank paired with a static format string.

use vstd::prelude::*;

use crate::template::{expand, generation_ok, is_expansion};
use crate::word_bank::WordBank;

pub mod phrase_gen_build_error;
pub mod static_phrase_gen;

verus! {

/// Associates word classes with candidate words and a format string, to
/// generate phrases with a static structure.
pub struct PhraseGen {
    bank: WordBank,
    format: String,
}

impl PhraseGen {
    /// The class-to-words mapping, as a mathematical map.
    pub closed spec fn bank_map(&self) -> Map<Seq<char>, Seq<Seq<char>>> {
        self.bank@
    }

    /// The format string, as a sequence of characters.
    pub closed spec fn format_chars(&self) -> Seq<char> {
        self.format@
    }

    /// Builds a generator from an already-parsed word bank and format
    /// string.
    pub fn new(bank: WordBank, format: String) -> (r: PhraseGen)
        ensures
            r.bank_map() == bank@,
            r.format_chars() == format@,
    {
        PhraseGen { bank, format }
    }

    /// Returns a copy of the format string with each placeholder replaced
    /// by a randomly chosen word of its class.  Returns `Some` unless a
    /// placeholder names a class that is present but has no words.
    pub fn get_phrase(&self) -> (r: Option<String>)
        ensures
            r is Some <==> generation_ok(self.format_chars(), self.bank_map()),
            r matches Some(p) ==> is_expansion(self.format_chars(), self.bank_map(), p@),
    {
        expand(&self.bank, self.format.as_str())
    }
}

impl Default for PhraseGen {
    /// Creates a new empty generator.
    fn default() -> (r: Self)
        ensures
            r.bank_map() == Map::<Seq<char>, Seq<Seq<char>>>::empty(),
            r.format_chars() == Seq::<char>::empty(),
    {
        PhraseGen { bank: WordBank::new(), format: String::new() }
    }
}

} // verus!
