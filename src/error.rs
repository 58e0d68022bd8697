use vstd::prelude::*;

verus! {

#[verifier::external_type_specification]
#[verifier::external_body]
pub struct ExIoError(std::io::Error);

/// What can go wrong while counting or while gathering the inputs.
#[derive(Debug)]
pub enum Error {
    /// Opening, stat-ing or reading a source failed.
    IO(std::io::Error),
    /// A byte sequence was not valid UTF-8 where text was required.
    UTF8(),
    /// A path in a path list was not valid UTF-8; holds its bytes.
    PATH(Vec<u8>),
    /// Several errors reported together.
    MANY(Vec<Error>),
    /// A textual error, such as a conflict between options.
    CUSTOM(String),
    /// An output format name that is not known.
    PARSEFORMAT(String),
}

impl From<std::io::Error> for Error {
    fn from(err: std::io::Error) -> (r: Error) {
        Error::IO(err)
    }
}

impl vstd::std_specs::convert::FromSpecImpl<std::io::Error> for Error {
    open spec fn obeys_from_spec() -> bool {
        true
    }

    open spec fn from_spec(err: std::io::Error) -> Error {
        Error::IO(err)
    }
}

impl From<Vec<Error>> for Error {
    fn from(errs: Vec<Error>) -> (r: Error) {
        Error::MANY(errs)
    }
}

impl vstd::std_specs::convert::FromSpecImpl<Vec<Error>> for Error {
    open spec fn obeys_from_spec() -> bool {
        true
    }

    open spec fn from_spec(errs: Vec<Error>) -> Error {
        Error::MANY(errs)
    }
}

impl From<String> for Error {
    fn from(msg: String) -> (r: Error) {
        Error::CUSTOM(msg)
    }
}

impl vstd::std_specs::convert::FromSpecImpl<String> for Error {
    open spec fn obeys_from_spec() -> bool {
        true
    }

    open spec fn from_spec(msg: String) -> Error {
        Error::CUSTOM(msg)
    }
}

} // verus!
