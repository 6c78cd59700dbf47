//! The errors of the publisher and the server.

use vstd::prelude::*;
use vstd::string::StringExecFns;

verus! {

/// What is known of a failed read or write: what to tell the user, and whether the
/// input had come to its end.
#[derive(Debug)]
pub struct IoFailure {
    pub message: String,
    pub unexpected_eof: bool,
}

/// An error of the publisher or the server.
#[derive(Debug)]
pub enum VqdError {
    Io(IoFailure),
    Xml(String),
    MissingFile(String),
    Other(String),
}

/// What an error says.
pub enum ErrorText {
    Io { message: Seq<char>, unexpected_eof: bool },
    Xml(Seq<char>),
    MissingFile(Seq<char>),
    Other(Seq<char>),
}

impl View for VqdError {
    type V = ErrorText;

    open spec fn view(&self) -> ErrorText {
        match self {
            VqdError::Io(failure) => ErrorText::Io {
                message: failure.message@,
                unexpected_eof: failure.unexpected_eof,
            },
            VqdError::Xml(message) => ErrorText::Xml(message@),
            VqdError::MissingFile(path) => ErrorText::MissingFile(path@),
            VqdError::Other(message) => ErrorText::Other(message@),
        }
    }
}

impl VqdError {
    /// The text of the error.
    pub open spec fn text(&self) -> Seq<char> {
        match self {
            VqdError::Io(failure) => "I/O error: "@ + failure.message@,
            VqdError::Xml(message) => "XML parsing error: "@ + message@,
            VqdError::MissingFile(path) => "Missing file: "@ + path@,
            VqdError::Other(message) => "Other error: "@ + message@,
        }
    }

    /// The error is `Other`, with this message.
    pub open spec fn is_other(&self, message: Seq<char>) -> bool {
        self@ == ErrorText::Other(message)
    }

    /// The error as it is shown to the user.
    pub fn message(&self) -> (s: String)
        ensures
            s@ == self.text(),
    {
        match self {
            VqdError::Io(failure) => "I/O error: ".to_owned().concat(failure.message.as_str()),
            VqdError::Xml(message) => "XML parsing error: ".to_owned().concat(message.as_str()),
            VqdError::MissingFile(path) => "Missing file: ".to_owned().concat(path.as_str()),
            VqdError::Other(message) => "Other error: ".to_owned().concat(message.as_str()),
        }
    }
}

/// The text of an error names its kind and ends with what the error says.
pub proof fn law_text_names_kind(message: String, unexpected_eof: bool)
    ensures
        VqdError::Io(IoFailure { message, unexpected_eof }).text() == "I/O error: "@ + message@,
        VqdError::Xml(message).text() == "XML parsing error: "@ + message@,
        VqdError::MissingFile(message).text() == "Missing file: "@ + message@,
        VqdError::Other(message).text() == "Other error: "@ + message@,
{
}

/// Errors that say the same are of the same kind and have the same text.
pub proof fn law_error_says_its_text(e: VqdError, f: VqdError)
    requires
        e@ == f@,
    ensures
        e.text() == f.text(),
        e is Io <==> f is Io,
        e is Xml <==> f is Xml,
        e is MissingFile <==> f is MissingFile,
        e is Other <==> f is Other,
        e is Io ==> e->Io_0.unexpected_eof == f->Io_0.unexpected_eof,
{
}

/// What an error says is its kind and what it holds.
pub proof fn law_error_says_what_it_holds(e: VqdError, message: Seq<char>)
    ensures
        e matches VqdError::Io(failure) ==> e@ == (ErrorText::Io {
            message: failure.message@,
            unexpected_eof: failure.unexpected_eof,
        }),
        e matches VqdError::Xml(m) ==> e@ == ErrorText::Xml(m@),
        e matches VqdError::MissingFile(m) ==> e@ == ErrorText::MissingFile(m@),
        e matches VqdError::Other(m) ==> e@ == ErrorText::Other(m@),
        e.is_other(message) <==> e is Other && e->Other_0@ == message,
{
}

} // verus!
