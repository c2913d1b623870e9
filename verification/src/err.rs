//! The errors that a page can fail with.

use vstd::prelude::*;
use vstd::string::StringExecFns;

verus! {

/// Everything that can make a page fail to render.
#[derive(Debug)]
pub enum Error {
    /// A template failed to load or render.
    Jinja(String),
    /// Reading or writing a file failed.
    Io(String),
    /// The stylesheet failed to compile.
    Sass(String),
    /// The web framework failed.
    Axum(String),
    /// An HTTP value could not be built.
    AxumHttp(String),
    /// An HTTP header value is malformed.
    AxumHttpHeader(String),
    /// A date or time has a field out of range; holds the field's name.
    ComponentRange(String),
    /// Anything else, with its message.
    Internal(String),
}

/// The text a visitor sees for an error: in development the kind of error
/// and its details, otherwise only that the server failed.
pub open spec fn error_message(e: Error, development: bool) -> Seq<char> {
    if !development {
        "Internal Server Error"@
    } else {
        match e {
            Error::Jinja(m) => "Jinja error: "@ + m@,
            Error::Io(m) => "IO Error: "@ + m@,
            Error::Sass(m) => "Sass Error: "@ + m@,
            Error::Axum(m) => "Axum Error: "@ + m@,
            Error::AxumHttp(m) => "Axum HTTP Error: "@ + m@,
            Error::AxumHttpHeader(m) => "Axum HTTP Header Error: "@ + m@,
            Error::ComponentRange(n) => "Component Range Error: "@ + n@ + " was not in range"@,
            Error::Internal(m) => "Internal Error: "@ + m@,
        }
    }
}

fn prefixed(prefix: &str, m: &str) -> (res: String)
    ensures
        res@ == prefix@ + m@,
{
    let mut s = String::from_str(prefix);
    s.append(m);
    s
}

impl Error {
    /// The text shown for the error.
    pub fn message(&self, development: bool) -> (res: String)
        ensures
            res@ == error_message(*self, development),
    {
        if !development {
            return String::from_str("Internal Server Error");
        }
        match self {
            Error::Jinja(m) => prefixed("Jinja error: ", m.as_str()),
            Error::Io(m) => prefixed("IO Error: ", m.as_str()),
            Error::Sass(m) => prefixed("Sass Error: ", m.as_str()),
            Error::Axum(m) => prefixed("Axum Error: ", m.as_str()),
            Error::AxumHttp(m) => prefixed("Axum HTTP Error: ", m.as_str()),
            Error::AxumHttpHeader(m) => prefixed("Axum HTTP Header Error: ", m.as_str()),
            Error::ComponentRange(n) => {
                let mut s = prefixed("Component Range Error: ", n.as_str());
                s.append(" was not in range");
                s
            },
            Error::Internal(m) => prefixed("Internal Error: ", m.as_str()),
        }
    }
}

} // verus!
