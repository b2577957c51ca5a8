//! Errors raised while building a `PhraseGen` from configuration data.

use vstd::prelude::*;

verus! {

/// Possible errors when creating a `PhraseGen`: a field of the
/// configuration is missing, or holds a value of the wrong type.
#[derive(Debug)]
pub enum PhraseGenBuildError {
    MissingField(String),
    WrongFieldType(String),
}

impl PhraseGenBuildError {
    /// The wording of each error, for callers that report it.
    pub open spec fn message_spec(&self) -> Seq<char> {
        match self {
            PhraseGenBuildError::MissingField(field) => "'"@ + field@ + "' is missing"@,
            PhraseGenBuildError::WrongFieldType(field) => "'"@ + field@
                + "' doesn't have the expected type"@,
        }
    }

    /// Renders the error as text.
    pub fn message(&self) -> (r: String)
        ensures
            r@ == self.message_spec(),
    {
        match self {
            PhraseGenBuildError::MissingField(field) => {
                let mut r = String::from_str("'");
                r.append(field.as_str());
                r.append("' is missing");
                r
            },
            PhraseGenBuildError::WrongFieldType(field) => {
                let mut r = String::from_str("'");
                r.append(field.as_str());
                r.append("' doesn't have the expected type");
                r
            },
        }
    }
}

} // verus!
