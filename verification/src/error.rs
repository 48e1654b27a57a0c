//! The library's error type.
//!
//! A `String` cannot be built in a specification, so what a conversion
//! into an error yields is said by the clauses of each `from` itself.

use vstd::prelude::*;
use vstd::std_specs::convert::FromSpecImpl;
use vstd::string::*;

verus! {

/// `std::io::Error`, of which nothing is known but that it is a value.
#[verifier::external_type_specification]
#[verifier::external_body]
pub struct ExIoError(std::io::Error);

/// A result of the library.
pub type JResult<T> = Result<T, Error>;

/// What went wrong: a message, with the I/O failure behind it if there was
/// one.
#[derive(Debug)]
pub enum Error {
    UnexpectIO(String, std::io::Error),
    Unexpected(String),
}

/// The text of an error that carries a message only.
pub open spec fn unexpected_text(msg: Seq<char>) -> Seq<char> {
    "Unexpected: "@ + msg
}

/// The text of an error that carries a message and the description of an
/// I/O failure.
pub open spec fn unexpected_io_text(msg: Seq<char>, detail: Seq<char>) -> Seq<char> {
    "Unexpected: "@ + msg + ", "@ + detail
}

/// `ToString::to_string` on a `std::io::Error`: its description, which
/// depends on the platform, so nothing is said of it.
#[verifier::external_body]
fn io_error_detail(e: &std::io::Error) -> (r: String) {
    e.to_string()
}

/// The text of an error with a message only.
pub fn render_unexpected(msg: &str) -> (r: String)
    ensures
        r@ == unexpected_text(msg@),
{
    let mut out = String::from_str("Unexpected: ");
    out.append(msg);
    out
}

/// The text of an error with a message and the description of an I/O
/// failure.
pub fn render_unexpected_io(msg: &str, detail: &str) -> (r: String)
    ensures
        r@ == unexpected_io_text(msg@, detail@),
{
    let mut out = String::from_str("Unexpected: ");
    out.append(msg);
    out.append(", ");
    out.append(detail);
    out
}

impl Error {
    /// The message the error was made with.
    pub open spec fn spec_message(&self) -> Seq<char> {
        match self {
            Error::UnexpectIO(msg, _) => msg@,
            Error::Unexpected(msg) => msg@,
        }
    }

    /// The error as text: `Unexpected: ` and the message, followed for an
    /// I/O failure by `, ` and its description.
    pub fn message(&self) -> (r: String)
        ensures
            self is Unexpected ==> r@ == unexpected_text(self.spec_message()),
            self is UnexpectIO ==> exists|detail: Seq<char>|
                r@ == unexpected_io_text(self.spec_message(), detail),
    {
        match self {
            Error::Unexpected(msg) => render_unexpected(msg.as_str()),
            Error::UnexpectIO(msg, e) => {
                let detail = io_error_detail(e);
                let out = render_unexpected_io(msg.as_str(), detail.as_str());
                assert(out@ == unexpected_io_text(self.spec_message(), detail@));
                out
            },
        }
    }
}

impl<'a> From<&'a str> for Error {
    fn from(e: &'a str) -> (r: Error)
        ensures
            r is Unexpected,
            r.spec_message() == e@,
    {
        Error::Unexpected(String::from_str(e))
    }
}

impl<'a> FromSpecImpl<&'a str> for Error {
    open spec fn obeys_from_spec() -> bool {
        false
    }

    open spec fn from_spec(v: &'a str) -> Error {
        arbitrary()
    }
}

impl<'a> From<(&'a str, std::io::Error)> for Error {
    fn from(e: (&'a str, std::io::Error)) -> (r: Error)
        ensures
            r matches Error::UnexpectIO(msg, cause) && msg@ == e.0@ && cause == e.1,
    {
        Error::UnexpectIO(String::from_str(e.0), e.1)
    }
}

impl<'a> FromSpecImpl<(&'a str, std::io::Error)> for Error {
    open spec fn obeys_from_spec() -> bool {
        false
    }

    open spec fn from_spec(v: (&'a str, std::io::Error)) -> Error {
        arbitrary()
    }
}

impl From<String> for Error {
    fn from(e: String) -> (r: Error)
        ensures
            r == Error::Unexpected(e),
    {
        Error::Unexpected(e)
    }
}

impl FromSpecImpl<String> for Error {
    open spec fn obeys_from_spec() -> bool {
        true
    }

    open spec fn from_spec(v: String) -> Error {
        Error::Unexpected(v)
    }
}

impl From<std::io::Error> for Error {
    fn from(e: std::io::Error) -> (r: Error)
        ensures
            r is Unexpected,
    {
        Error::Unexpected(io_error_detail(&e))
    }
}

impl FromSpecImpl<std::io::Error> for Error {
    open spec fn obeys_from_spec() -> bool {
        false
    }

    open spec fn from_spec(v: std::io::Error) -> Error {
        arbitrary()
    }
}

impl From<Error> for String {
    fn from(e: Error) -> (r: String)
        ensures
            e is Unexpected ==> r@ == unexpected_text(e.spec_message()),
            e is UnexpectIO ==> exists|detail: Seq<char>|
                r@ == unexpected_io_text(e.spec_message(), detail),
    {
        let out = e.message();
        proof {
            if e is UnexpectIO {
                let detail = choose|detail: Seq<char>|
                    out@ == unexpected_io_text(e.spec_message(), detail);
                assert(out@ == unexpected_io_text(e.spec_message(), detail));
            }
        }
        out
    }
}

impl FromSpecImpl<Error> for String {
    open spec fn obeys_from_spec() -> bool {
        false
    }

    open spec fn from_spec(v: Error) -> String {
        arbitrary()
    }
}

} // verus!
