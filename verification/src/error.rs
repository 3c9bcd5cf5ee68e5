//! What can go wrong while state is read, written or checked.

use vstd::prelude::*;

verus! {

/// Why the `url` crate refused a text.
#[verifier::external_type_specification]
#[verifier::external_body]
pub struct ExUrlParseError(url::ParseError);

/// A value could not be written.
#[derive(Debug)]
pub enum SerializedError {
    /// The text written for an address would not be read back as that
    /// address.
    Address { text: String },
}

/// A text could not be read.
#[derive(Debug)]
pub enum DeserializedError {
    /// A line is not of the layout `regex`.
    Regex { unmatched: String, regex: String },
    /// Digits write a number that does not fit.
    ParseInt { digits: String },
    /// An address with a prefix was refused.
    NetworkParse(cidr::errors::NetworkParseError),
    /// A URL was refused.
    ParseUrl(url::ParseError),
    /// Another fault, in words.
    Custom(String),
}

impl DeserializedError {
    /// The fault of a line that is not of a layout.
    pub fn regex(unmatched: String, regex: &str) -> (e: Self)
        ensures
            e matches DeserializedError::Regex { unmatched: u, regex: r } && u == unmatched && r@
                == regex@,
    {
        DeserializedError::Regex { unmatched, regex: regex.to_owned() }
    }

    /// A fault in words.
    pub fn custom(reason: &str) -> (e: Self)
        ensures
            e matches DeserializedError::Custom(r) && r@ == reason@,
    {
        DeserializedError::Custom(reason.to_owned())
    }
}

/// One leg of a probe failed.
#[derive(Debug)]
pub enum ReqwestError {
    /// The client could not be built.
    Build { source: String },
    /// No answer came: the connection failed or the time ran out.
    Network { source: String },
    /// An answer came without the expected text in its body.
    BodyNoMatch { body: String, expected: String },
}

impl ReqwestError {
    /// The fault of a client that could not be built.
    pub fn build(err: String) -> (e: Self)
        ensures
            e == (ReqwestError::Build { source: err }),
    {
        ReqwestError::Build { source: err }
    }

    /// The fault of a leg without an answer.
    pub fn network(err: String) -> (e: Self)
        ensures
            e == (ReqwestError::Network { source: err }),
    {
        ReqwestError::Network { source: err }
    }

    /// The fault of an answer whose body lacks the expected text.
    pub fn body_no_match(body: String, expected: String) -> (e: Self)
        ensures
            e == (ReqwestError::BodyNoMatch { body, expected }),
    {
        ReqwestError::BodyNoMatch { body, expected }
    }

    /// Whether an answer came, with the wrong body.
    pub fn is_body_no_match(&self) -> (r: bool)
        ensures
            r == (self is BodyNoMatch),
    {
        match self {
            ReqwestError::BodyNoMatch { .. } => true,
            _ => false,
        }
    }
}

/// The kinds of error.
#[derive(Debug)]
pub enum ErrorKind {
    Serialized(SerializedError),
    Deserialized(DeserializedError),
    Reqwest(ReqwestError),
}

/// An error of any kind.
#[derive(Debug)]
pub struct Error(pub Box<ErrorKind>);

impl Error {
    /// The kind of this error.
    pub open spec fn kind(self) -> ErrorKind {
        *self.0
    }
}

impl From<SerializedError> for Error {
    fn from(err: SerializedError) -> (e: Self) {
        Error(Box::new(ErrorKind::Serialized(err)))
    }
}

impl vstd::std_specs::convert::FromSpecImpl<SerializedError> for Error {
    open spec fn obeys_from_spec() -> bool {
        true
    }

    open spec fn from_spec(err: SerializedError) -> Self {
        Error(Box::new(ErrorKind::Serialized(err)))
    }
}

impl From<DeserializedError> for Error {
    fn from(err: DeserializedError) -> (e: Self) {
        Error(Box::new(ErrorKind::Deserialized(err)))
    }
}

impl vstd::std_specs::convert::FromSpecImpl<DeserializedError> for Error {
    open spec fn obeys_from_spec() -> bool {
        true
    }

    open spec fn from_spec(err: DeserializedError) -> Self {
        Error(Box::new(ErrorKind::Deserialized(err)))
    }
}

impl From<ReqwestError> for Error {
    fn from(err: ReqwestError) -> (e: Self) {
        Error(Box::new(ErrorKind::Reqwest(err)))
    }
}

impl vstd::std_specs::convert::FromSpecImpl<ReqwestError> for Error {
    open spec fn obeys_from_spec() -> bool {
        true
    }

    open spec fn from_spec(err: ReqwestError) -> Self {
        Error(Box::new(ErrorKind::Reqwest(err)))
    }
}

} // verus!
