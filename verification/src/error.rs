//! Errors of the mount.

use vstd::prelude::*;

use crate::text;

verus! {

/// Everything that can go wrong while serving a mount.
#[derive(Debug, Clone)]
pub enum Error {
    /// Encryption metadata, keys or names are not usable.
    Encryption(String),
    /// The Hub answered, but not with what was asked for.
    Hub { status: Option<u16>, message: String },
    /// The content store failed.
    Xet(String),
    /// The transport failed before an answer came.
    Http(String),
    /// A local file operation failed.
    Io(String),
}

pub type Result<T> = core::result::Result<T, Error>;

/// Whether a request that was answered with `status` may succeed later.
pub open spec fn retryable(status: u16) -> bool {
    status == 408 || status == 429 || 500 <= status <= 599
}

/// Whether a request that was answered with `status` may succeed later:
/// timeouts, rate limits and server errors.
pub fn is_retryable_status(status: u16) -> (r: bool)
    ensures
        r == retryable(status),
{
    status == 408 || status == 429 || (500 <= status && status <= 599)
}

impl Error {
    /// Whether this is an encryption error with the given message.
    pub open spec fn is_encryption(self, message: Seq<char>) -> bool {
        self matches Error::Encryption(m) && m@ == message
    }

    /// Whether this is a Hub error without a status and with the given message.
    pub open spec fn is_hub(self, message: Seq<char>) -> bool {
        self matches Error::Hub { status: None, message: m } && m@ == message
    }

    /// The status that the Hub answered with, if it answered.
    pub open spec fn spec_status(self) -> Option<u16> {
        match self {
            Error::Hub { status, message } => status,
            _ => None,
        }
    }

    /// Whether the same request may succeed later.
    pub open spec fn transient(self) -> bool {
        match self {
            Error::Hub { status: Some(s), message } => retryable(s),
            Error::Http(_) => true,
            _ => false,
        }
    }

    /// The text of this error.
    pub open spec fn text(self) -> Seq<char> {
        match self {
            Error::Encryption(m) => "encryption error: "@ + m@,
            Error::Hub { status: None, message } => "hub error: "@ + message@,
            Error::Hub { status: Some(s), message } => "hub error (status "@ + text::decimal(
                s as nat,
            ) + "): "@ + message@,
            Error::Xet(m) => "xet error: "@ + m@,
            Error::Http(m) => "http error: "@ + m@,
            Error::Io(m) => "I/O error: "@ + m@,
        }
    }

    /// A Hub error that no status came with.
    pub fn hub(message: &str) -> (e: Error)
        ensures
            e.is_hub(message@),
    {
        Error::Hub { status: None, message: message.to_owned() }
    }

    /// A Hub error that came with a status.
    pub fn hub_status(status: u16, message: &str) -> (e: Error)
        ensures
            e matches Error::Hub { status: s, message: m } && s == Some(status) && m@ == message@,
    {
        Error::Hub { status: Some(status), message: message.to_owned() }
    }

    /// The status that the Hub answered with, if it answered.
    pub fn status(&self) -> (s: Option<u16>)
        ensures
            s == self.spec_status(),
    {
        match self {
            Error::Hub { status, message } => *status,
            _ => None,
        }
    }

    /// Whether the same request may succeed later.
    pub fn is_transient(&self) -> (r: bool)
        ensures
            r == self.transient(),
    {
        match self {
            Error::Hub { status: Some(s), message } => is_retryable_status(*s),
            Error::Http(_) => true,
            _ => false,
        }
    }

    /// The text of this error.
    pub fn to_string(&self) -> (s: String)
        ensures
            s@ == self.text(),
    {
        let mut out: String = String::new();
        match self {
            Error::Encryption(m) => {
                out.push_str("encryption error: ");
                out.push_str(m.as_str());
                assert(out@ =~= self.text());
            },
            Error::Hub { status: None, message } => {
                out.push_str("hub error: ");
                out.push_str(message.as_str());
                assert(out@ =~= self.text());
            },
            Error::Hub { status: Some(s), message } => {
                out.push_str("hub error (status ");
                text::push_decimal(&mut out, *s as u64);
                out.push_str("): ");
                out.push_str(message.as_str());
                assert(out@ =~= self.text());
            },
            Error::Xet(m) => {
                out.push_str("xet error: ");
                out.push_str(m.as_str());
                assert(out@ =~= self.text());
            },
            Error::Http(m) => {
                out.push_str("http error: ");
                out.push_str(m.as_str());
                assert(out@ =~= self.text());
            },
            Error::Io(m) => {
                out.push_str("I/O error: ");
                out.push_str(m.as_str());
                assert(out@ =~= self.text());
            },
        }
        out
    }
}

/// A reply is worth another try exactly where it says that the request timed out,
/// that there were too many, or that the server was at fault.
pub proof fn law_retryable_statuses(status: u16, r: bool)
    requires
        call_ensures(is_retryable_status, (status,), r),
    ensures
        status == 408 || status == 429 ==> r,
        500 <= status < 600 ==> r,
        status < 400 ==> !r,
        400 <= status < 500 && status != 408 && status != 429 ==> !r,
        status >= 600 ==> !r,
{
}

/// An error may pass where no answer came, or where the answer is worth another
/// try; errors of the content store, of local files and of keys do not.
pub proof fn law_transient_errors(e: Error, r: bool)
    requires
        call_ensures(Error::is_transient, (&e,), r),
    ensures
        e is Http ==> r,
        e is Encryption || e is Xet || e is Io ==> !r,
        e.spec_status() is None && e is Hub ==> !r,
        e.spec_status() matches Some(s) ==> r == (s == 408 || s == 429 || (500 <= s && s < 600)),
{
}

/// Only an answer of the Hub has a status, and that is the one that it came with.
pub proof fn law_status_is_that_of_the_answer(e: Error, s: Option<u16>)
    requires
        call_ensures(Error::status, (&e,), s),
    ensures
        s is Some ==> e is Hub,
        e matches Error::Hub { status, message } ==> s == status,
{
}

/// The text of an error ends with the message that it carries.
pub proof fn law_text_ends_with_the_message(e: Error)
    ensures
        ({
            let message = match e {
                Error::Encryption(m) => m@,
                Error::Hub { status, message } => message@,
                Error::Xet(m) => m@,
                Error::Http(m) => m@,
                Error::Io(m) => m@,
            };
            &&& e.text().len() > message.len()
            &&& e.text().skip(e.text().len() - message.len()) == message
        }),
{
    reveal_strlit("encryption error: ");
    reveal_strlit("hub error: ");
    reveal_strlit("hub error (status ");
    reveal_strlit("): ");
    reveal_strlit("xet error: ");
    reveal_strlit("http error: ");
    reveal_strlit("I/O error: ");
    let message = match e {
        Error::Encryption(m) => m@,
        Error::Hub { status, message } => message@,
        Error::Xet(m) => m@,
        Error::Http(m) => m@,
        Error::Io(m) => m@,
    };
    assert(e.text().skip(e.text().len() - message.len()) =~= message);
}

/// The text of an error says where it comes from, and with an answer of the Hub its
/// status.
pub proof fn law_texts(e: Error)
    ensures
        e matches Error::Hub { status: Some(s), message } ==> e.text() == "hub error (status "@
            + text::decimal(s as nat) + "): "@ + message@,
        e matches Error::Hub { status: None, message } ==> e.text() == "hub error: "@ + message@,
        e matches Error::Encryption(m) ==> e.text() == "encryption error: "@ + m@,
        e matches Error::Xet(m) ==> e.text() == "xet error: "@ + m@,
        e matches Error::Http(m) ==> e.text() == "http error: "@ + m@,
        e matches Error::Io(m) ==> e.text() == "I/O error: "@ + m@,
{
}

} // verus!
