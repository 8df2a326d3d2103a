use vstd::prelude::*;
use vstd::string::StringExecFns;

verus! {

/// The kind of a failure.
#[derive(Clone, Copy, PartialEq, Eq, Debug, Structural)]
pub enum Code {
    NotFound,
    Corruption,
    NotSupported,
    InvalidArgument,
    IOError,
}

impl Code {
    /// The name of the kind, as it starts a rendered error.
    pub fn name(&self) -> (r: &'static str)
        ensures
            r@ == self.spec_name(),
    {
        match self {
            Code::NotFound => "NotFound",
            Code::Corruption => "Corruption",
            Code::NotSupported => "NotSupported",
            Code::InvalidArgument => "InvalidArgument",
            Code::IOError => "IOError",
        }
    }

    pub open spec fn spec_name(&self) -> Seq<char> {
        match self {
            Code::NotFound => "NotFound"@,
            Code::Corruption => "Corruption"@,
            Code::NotSupported => "NotSupported"@,
            Code::InvalidArgument => "InvalidArgument"@,
            Code::IOError => "IOError"@,
        }
    }
}

/// A failure: its kind and a free-text message.
#[derive(Clone, Debug)]
pub struct Error {
    pub code: Code,
    pub msg: String,
}

impl Error {
    pub fn not_found(msg: &str) -> (r: Self)
        ensures
            r.code == Code::NotFound,
            r.msg@ == msg@,
    {
        Error { code: Code::NotFound, msg: msg.to_owned() }
    }

    pub fn corruption(msg: &str) -> (r: Self)
        ensures
            r.code == Code::Corruption,
            r.msg@ == msg@,
    {
        Error { code: Code::Corruption, msg: msg.to_owned() }
    }

    pub fn not_supported(msg: &str) -> (r: Self)
        ensures
            r.code == Code::NotSupported,
            r.msg@ == msg@,
    {
        Error { code: Code::NotSupported, msg: msg.to_owned() }
    }

    pub fn invalid_argument(msg: &str) -> (r: Self)
        ensures
            r.code == Code::InvalidArgument,
            r.msg@ == msg@,
    {
        Error { code: Code::InvalidArgument, msg: msg.to_owned() }
    }

    pub fn io_error(msg: &str) -> (r: Self)
        ensures
            r.code == Code::IOError,
            r.msg@ == msg@,
    {
        Error { code: Code::IOError, msg: msg.to_owned() }
    }

    pub fn is_not_found(&self) -> (r: bool)
        ensures
            r == (self.code == Code::NotFound),
    {
        self.code == Code::NotFound
    }

    pub fn is_corruption(&self) -> (r: bool)
        ensures
            r == (self.code == Code::Corruption),
    {
        self.code == Code::Corruption
    }

    pub fn is_not_supported(&self) -> (r: bool)
        ensures
            r == (self.code == Code::NotSupported),
    {
        self.code == Code::NotSupported
    }

    pub fn is_invalid_argument(&self) -> (r: bool)
        ensures
            r == (self.code == Code::InvalidArgument),
    {
        self.code == Code::InvalidArgument
    }

    pub fn is_io_error(&self) -> (r: bool)
        ensures
            r == (self.code == Code::IOError),
    {
        self.code == Code::IOError
    }

    /// Renders the error as `"<kind>: <message>"`.
    pub fn to_string(&self) -> (r: String)
        ensures
            r@ == self.code.spec_name() + ": "@ + self.msg@,
    {
        let r = String::from_str(self.code.name());
        let r = r.concat(": ");
        r.concat(self.msg.as_str())
    }
}

/// The result of an operation that can fail with an `Error`.
pub type Result<T> = core::result::Result<T, Error>;

} // verus!
