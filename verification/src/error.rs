//! Failure values of the snapshot-file subsystem, and the decorator that
//! tags any error with the path it concerns.

use vstd::prelude::*;

verus! {

/// Malformed-data failures raised by the codec, the record parser, and the
/// metadata applier. Filesystem failures never take this form; they stay
/// with the caller that performs the I/O.
#[derive(Debug, Clone, Copy, PartialEq, Eq)]
pub enum StatError {
    /// A stored path holds an escape sequence the codec cannot decode.
    InvalidEscape,
    /// A `mode=` attribute is not an unsigned octal numeral that fits.
    InvalidMode,
    /// An `mtime=` attribute is not a valid timestamp.
    InvalidMtime,
    /// An apply target contains an empty or parent path segment.
    InvalidPath,
}

impl StatError {
    /// A short description of the failure for diagnostics.
    pub fn message(&self) -> (r: &'static str)
        ensures
            *self is InvalidEscape ==> r@ == "invalid escape sequence"@,
            *self is InvalidMode ==> r@ == "invalid mode attribute"@,
            *self is InvalidMtime ==> r@ == "invalid mtime attribute"@,
            *self is InvalidPath ==> r@ == "invalid path"@,
    {
        match self {
            StatError::InvalidEscape => "invalid escape sequence",
            StatError::InvalidMode => "invalid mode attribute",
            StatError::InvalidMtime => "invalid mtime attribute",
            StatError::InvalidPath => "invalid path",
        }
    }
}

/// An error decorated with the path or table identifier it concerns.
#[derive(Debug)]
pub struct ErrorWithPath<E> {
    pub error: E,
    pub path: String,
}

impl<E> ErrorWithPath<E> {
    pub fn new(error: E, path: String) -> (r: Self)
        ensures
            r.error == error,
            r.path == path,
    {
        ErrorWithPath { error, path }
    }
}

/// The diagnostic text that a stored path renders to. Paths are arbitrary
/// byte strings, so the rendering may be lossy.
pub uninterp spec fn lossy_chars(s: Seq<u8>) -> Seq<char>;

/// Relies on String::from_utf8_lossy: its result is a function of the input
/// bytes alone.
#[verifier::external_body]
fn lossy_string(v: &[u8]) -> (r: String)
    ensures
        r@ == lossy_chars(v@),
{
    String::from_utf8_lossy(v).into_owned()
}

/// A value that can serve as the path tag of a decorated error.
pub trait ErrorPath: Sized {
    /// The diagnostic text this value renders to.
    spec fn path_chars(&self) -> Seq<char>;

    fn into_error_path(self) -> (r: String)
        ensures
            r@ == self.path_chars(),
    ;
}

impl ErrorPath for &str {
    open spec fn path_chars(&self) -> Seq<char> {
        (*self)@
    }

    fn into_error_path(self) -> (r: String) {
        self.to_owned()
    }
}

impl ErrorPath for &[u8] {
    open spec fn path_chars(&self) -> Seq<char> {
        lossy_chars((*self)@)
    }

    fn into_error_path(self) -> (r: String) {
        lossy_string(self)
    }
}

/// Decorate an error with the path it concerns.
pub fn error_with_path<E, P: ErrorPath>(error: E, path: P) -> (r: ErrorWithPath<E>)
    ensures
        r.error == error,
        r.path@ == path.path_chars(),
{
    let tag = path.into_error_path();
    ErrorWithPath::new(error, tag)
}

/// Run an operation; on failure, decorate its error with the given path.
pub fn with_error_path<P: ErrorPath, F: FnOnce() -> Result<T, E>, T, E>(path: P, f: F) -> (r:
    Result<T, ErrorWithPath<E>>)
    requires
        call_requires(f, ()),
    ensures
        r matches Ok(t) ==> call_ensures(f, (), Result::Ok(t)),
        r matches Err(ep) ==> call_ensures(f, (), Result::Err(ep.error)) && ep.path@
            == path.path_chars(),
{
    match f() {
        Ok(t) => Ok(t),
        Err(e) => Err(error_with_path(e, path)),
    }
}

} // verus!
