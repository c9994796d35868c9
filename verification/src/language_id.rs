//! Names of languages.
use vstd::prelude::*;

verus! {

/// The name by which a registry knows a language.
#[derive(Debug, PartialEq, Eq, PartialOrd, Ord, Hash)]
pub struct LanguageId(String);

impl View for LanguageId {
    type V = Seq<char>;

    closed spec fn view(&self) -> Seq<char> {
        self.0@
    }
}

impl Clone for LanguageId {
    fn clone(&self) -> (copy: Self)
        ensures
            copy@ == self@,
    {
        LanguageId(self.0.clone())
    }
}

impl Default for LanguageId {
    fn default() -> (id: Self)
        ensures
            id@ == Seq::<char>::empty(),
    {
        LanguageId(String::new())
    }
}

impl LanguageId {
    /// The name that a text says.
    pub fn new(id: &str) -> (language: Self)
        ensures
            language@ == id@,
    {
        LanguageId(id.to_owned())
    }

    /// The name as a text.
    pub fn as_str(&self) -> (id: &str)
        ensures
            id@ == self@,
    {
        self.0.as_str()
    }
}

impl From<String> for LanguageId {
    fn from(value: String) -> (language: Self) {
        LanguageId(value)
    }
}

impl vstd::std_specs::convert::FromSpecImpl<String> for LanguageId {
    open spec fn obeys_from_spec() -> bool {
        true
    }

    closed spec fn from_spec(value: String) -> Self {
        LanguageId(value)
    }
}

} // verus!
