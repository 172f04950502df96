//! The error type shared by encoding and decoding.

use vstd::prelude::*;

verus! {

/// What went wrong.
#[derive(Debug, Clone, Copy, PartialEq, Eq, Structural)]
pub enum ErrorKind {
    /// The input ended in the middle of a field.
    UnexpectedEndOfInput,
    /// The stream opens with another version token than `VERSION`.
    VersionMismatch,
    /// A tag is not the one that the requested shape calls for, or is unknown.
    TypeMismatch,
    /// A text field is not valid UTF-8.
    MalformedString,
    /// The strings of a string list do not end where its byte length says.
    DeclaredLengthMismatch,
    /// A length does not fit the four-byte length field, or the sink is full.
    ValueTooLarge,
    /// An error made by a caller, with a description only.
    Other,
}

/// An error of the codec: its kind, and a text for people.
#[derive(Debug, Clone, PartialEq)]
pub struct TsonError {
    pub kind: ErrorKind,
    pub description: String,
}

pub type TsonResult<T> = Result<T, TsonError>;

impl ErrorKind {
    /// The text that describes the kind.
    pub fn message(&self) -> (text: &'static str)
        ensures
            text@ == self.message_text(),
    {
        match self {
            ErrorKind::UnexpectedEndOfInput => "unexpected end of input",
            ErrorKind::VersionMismatch => "wrong version",
            ErrorKind::TypeMismatch => "wrong type",
            ErrorKind::MalformedString => "bad string",
            ErrorKind::DeclaredLengthMismatch => "declared length does not match",
            ErrorKind::ValueTooLarge => "list too large",
            ErrorKind::Other => "error",
        }
    }

    pub open spec fn message_text(&self) -> Seq<char> {
        match self {
            ErrorKind::UnexpectedEndOfInput => "unexpected end of input"@,
            ErrorKind::VersionMismatch => "wrong version"@,
            ErrorKind::TypeMismatch => "wrong type"@,
            ErrorKind::MalformedString => "bad string"@,
            ErrorKind::DeclaredLengthMismatch => "declared length does not match"@,
            ErrorKind::ValueTooLarge => "list too large"@,
            ErrorKind::Other => "error"@,
        }
    }
}

/// What can describe an error: a text, borrowed or owned.
pub trait Description: Sized {
    /// The text of the description.
    spec fn text(&self) -> Seq<char>;

    /// The description as an owned string.
    fn into_string(self) -> (r: String)
        ensures
            r@ == self.text(),
    ;
}

impl Description for String {
    open spec fn text(&self) -> Seq<char> {
        self@
    }

    fn into_string(self) -> (r: String) {
        self
    }
}

impl<'a> Description for &'a str {
    open spec fn text(&self) -> Seq<char> {
        self@
    }

    fn into_string(self) -> (r: String) {
        self.to_owned()
    }
}

impl TsonError {
    /// The description as a sequence of characters.
    pub open spec fn text(&self) -> Seq<char> {
        self.description@
    }

    /// An error of kind `Other` with the given description, kept as it was
    /// given.
    pub fn new<T: Description>(description: T) -> (e: TsonError)
        ensures
            e.kind == ErrorKind::Other,
            e.text() == description.text(),
    {
        TsonError { kind: ErrorKind::Other, description: description.into_string() }
    }

    /// An error of kind `Other` described by the text that `e` displays as.
    pub fn other<T: std::fmt::Display>(e: T) -> (r: TsonError)
        ensures
            r.kind == ErrorKind::Other,
            vstd::string::to_string_from_display_ensures::<T>(&e, r.description),
    {
        TsonError { kind: ErrorKind::Other, description: e.to_string() }
    }

    /// The error of the given kind, described by the kind's message.
    pub fn of_kind(kind: ErrorKind) -> (e: TsonError)
        ensures
            e.kind == kind,
            e.text() == kind.message_text(),
    {
        TsonError { kind, description: kind.message().to_owned() }
    }

    pub fn kind(&self) -> (kind: ErrorKind)
        ensures
            kind == self.kind,
    {
        self.kind
    }

    pub fn description(&self) -> (text: &str)
        ensures
            text@ == self.text(),
    {
        self.description.as_str()
    }

    /// The description as an owned string.
    pub fn to_string(&self) -> (text: String)
        ensures
            text@ == self.text(),
    {
        self.description.clone()
    }
}

} // verus!
