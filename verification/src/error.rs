//! The error of selector parsing.
use vstd::prelude::*;
use vstd::string::StringExecFns;

verus! {

/// An attribute clause that holds `=` and no attribute name: nothing stands before the
/// `=`, or nothing but one of the operator characters `^`, `$`, `*`.
#[derive(Debug, PartialEq, Eq, Clone)]
pub struct ParseError {
    /// The clause, as it stands between `[` and `]`.
    pub clause: String,
}

impl View for ParseError {
    type V = Seq<char>;

    open spec fn view(&self) -> Seq<char> {
        self.clause@
    }
}

impl ParseError {
    /// A sentence that names the clause.
    pub fn message(&self) -> (text: String)
        ensures
            text@ == "could not parse attribute clause \""@ + self@ + "\""@,
    {
        let text = String::from_str("could not parse attribute clause \"");
        let text = text.concat(self.clause.as_str());
        text.concat("\"")
    }
}

} // verus!
