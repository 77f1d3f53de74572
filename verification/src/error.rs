use vstd::prelude::*;
use vstd::string::StringExecFns;

verus! {

/// What can go wrong. Training itself reports only `Shape` and `Config`; `Io`
/// and `Serde` are for programs that store models.
#[derive(Debug)]
pub enum Error {
    Shape(String),
    Config(String),
    Io(String),
    Serde(String),
}

pub type Result<T> = std::result::Result<T, Error>;

impl Error {
    /// The text that [`Error::message`] gives.
    pub open spec fn text(self) -> Seq<char> {
        match self {
            Error::Shape(m) => "shape mismatch: "@ + m@,
            Error::Config(m) => "invalid config: "@ + m@,
            Error::Io(m) => "io error: "@ + m@,
            Error::Serde(m) => "serialization error: "@ + m@,
        }
    }

    /// The kind of the error and its details, for display.
    pub fn message(&self) -> (r: String)
        ensures
            r@ == self.text(),
    {
        match self {
            Error::Shape(m) => "shape mismatch: ".to_owned().concat(m.as_str()),
            Error::Config(m) => "invalid config: ".to_owned().concat(m.as_str()),
            Error::Io(m) => "io error: ".to_owned().concat(m.as_str()),
            Error::Serde(m) => "serialization error: ".to_owned().concat(m.as_str()),
        }
    }
}

} // verus!
