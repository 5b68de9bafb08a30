//! Traversal errors: where an error occurred, at which depth, and why.
use vstd::prelude::*;

use crate::text::{decimal, display_path, push_decimal, shown_path};

verus! {

/// `std::path::PathBuf`, carried through opaquely.
#[verifier::external_type_specification]
#[verifier::external_body]
pub struct ExPathBuf(std::path::PathBuf);

/// `std::path::Path`, carried through opaquely.
#[verifier::external_type_specification]
#[verifier::external_body]
pub struct ExPath(std::path::Path);

/// `std::io::Error`, carried through opaquely.
#[verifier::external_type_specification]
#[verifier::external_body]
pub struct ExIoError(std::io::Error);

/// Distinguishes the cause of a traversal [`Error`].
#[derive(Debug)]
pub enum ErrorKind {
    /// Reading a directory entry or its metadata failed.
    Io(std::io::Error),
    /// Following a symlink would revisit an ancestor directory.
    LoopDetected,
}

/// Error produced during directory traversal, carrying the path, depth and
/// kind.
#[derive(Debug)]
pub struct Error {
    path: std::path::PathBuf,
    depth: usize,
    kind: ErrorKind,
}

/// What an [`Error`] holds.
pub struct ErrorView {
    pub path: std::path::PathBuf,
    pub depth: usize,
    pub kind: ErrorKind,
}

impl View for Error {
    type V = ErrorView;

    closed spec fn view(&self) -> ErrorView {
        ErrorView { path: self.path, depth: self.depth, kind: self.kind }
    }
}

/// The `Path` a `PathBuf` holds, as `PathBuf::as_path` borrows it.
pub uninterp spec fn borrowed_path(p: std::path::PathBuf) -> &'static std::path::Path;

/// The `Path` that a `PathBuf` dereferences to (`PathBuf::as_path`). The
/// contract names the result, a function of the buffer alone, and says
/// nothing more of it.
#[verifier::external_body]
fn path_buf_as_path(p: &std::path::PathBuf) -> (r: &std::path::Path)
    ensures
        r == borrowed_path(*p),
{
    p.as_path()
}

/// The start of an error's message, up to its kind: `Error on {path} with
/// depth {depth} and kind: `.
pub open spec fn message_head(e: ErrorView) -> Seq<char> {
    "Error on "@ + shown_path(e.path) + " with depth "@ + decimal(e.depth as nat) + " and kind: "@
}

impl Error {
    /// The I/O error for `path` at `depth`.
    pub closed spec fn spec_io(path: std::path::PathBuf, depth: usize, source: std::io::Error) -> Error {
        Error { path, depth, kind: ErrorKind::Io(source) }
    }

    /// The loop error for `path` at `depth`.
    pub closed spec fn spec_loop(path: std::path::PathBuf, depth: usize) -> Error {
        Error { path, depth, kind: ErrorKind::LoopDetected }
    }

    /// What an I/O error built by [`Error::spec_io`] holds.
    pub broadcast proof fn lemma_spec_io_view(path: std::path::PathBuf, depth: usize, source: std::io::Error)
        ensures
            #[trigger] Error::spec_io(path, depth, source)@ == (ErrorView { path, depth, kind: ErrorKind::Io(source) }),
    {
    }

    /// What a loop error built by [`Error::spec_loop`] holds.
    pub broadcast proof fn lemma_spec_loop_view(path: std::path::PathBuf, depth: usize)
        ensures
            #[trigger] Error::spec_loop(path, depth)@ == (ErrorView { path, depth, kind: ErrorKind::LoopDetected }),
    {
    }

    /// Builds the error for an I/O failure on `path` at `depth`.
    pub fn new_io_error(path: std::path::PathBuf, depth: usize, source: std::io::Error) -> (r: Error)
        ensures
            r == Error::spec_io(path, depth, source),
            r@.path == path,
            r@.depth == depth,
            r@.kind == ErrorKind::Io(source),
    {
        Error { path, depth, kind: ErrorKind::Io(source) }
    }

    /// Builds the error for a symlink loop reached at `path`, `depth`.
    pub fn loop_detected(path: std::path::PathBuf, depth: usize) -> (r: Error)
        ensures
            r == Error::spec_loop(path, depth),
            r@.path == path,
            r@.depth == depth,
            r@.kind == ErrorKind::LoopDetected,
    {
        Error { path, depth, kind: ErrorKind::LoopDetected }
    }

    /// Returns the filesystem path at which this error occurred.
    pub fn path(&self) -> (r: &std::path::Path)
        ensures
            r == borrowed_path(self@.path),
    {
        path_buf_as_path(&self.path)
    }

    /// Returns the traversal depth at which this error occurred.
    pub fn depth(&self) -> (r: usize)
        ensures
            r == self@.depth,
    {
        self.depth
    }

    /// Returns the kind of this error.
    pub fn kind(&self) -> (r: &ErrorKind)
        ensures
            *r == self@.kind,
    {
        &self.kind
    }

    /// Returns `true` if this error wraps an I/O error.
    pub fn is_io(&self) -> (r: bool)
        ensures
            r == (self@.kind is Io),
    {
        match &self.kind {
            ErrorKind::Io(_) => true,
            ErrorKind::LoopDetected => false,
        }
    }

    /// Returns `true` if this error is a symlink loop detection.
    pub fn is_loop(&self) -> (r: bool)
        ensures
            r == (self@.kind is LoopDetected),
    {
        match &self.kind {
            ErrorKind::Io(_) => false,
            ErrorKind::LoopDetected => true,
        }
    }

    /// Returns the inner I/O error, if this is an I/O error.
    pub fn io_error(&self) -> (r: Option<&std::io::Error>)
        ensures
            match self@.kind {
                ErrorKind::Io(e) => r == Some(&e),
                ErrorKind::LoopDetected => r is None,
            },
    {
        match &self.kind {
            ErrorKind::Io(e) => Some(e),
            ErrorKind::LoopDetected => None,
        }
    }

    /// Consumes the error and returns the inner I/O error, if any.
    pub fn into_io_error(self) -> (r: Option<std::io::Error>)
        ensures
            match self@.kind {
                ErrorKind::Io(e) => r == Some(e),
                ErrorKind::LoopDetected => r is None,
            },
    {
        match self.kind {
            ErrorKind::Io(e) => Some(e),
            ErrorKind::LoopDetected => None,
        }
    }

    /// The message of this error: `Error on {path} with depth {depth} and
    /// kind: {kind}`, where the path reads as `Path::display` shows it and
    /// the kind as the I/O error's own message or `symlink loop detected`.
    pub fn to_string(&self) -> (r: String)
        ensures
            match self@.kind {
                ErrorKind::LoopDetected => r@ == message_head(self@) + "symlink loop detected"@,
                ErrorKind::Io(e) => exists|t: String|
                    vstd::string::to_string_from_display_ensures::<std::io::Error>(&e, t) && r@
                        == message_head(self@) + t@,
            },
    {
        let mut s = String::new();
        s.push_str("Error on ");
        let path_text = display_path(&self.path);
        s.push_str(path_text.as_str());
        s.push_str(" with depth ");
        push_decimal(&mut s, self.depth);
        s.push_str(" and kind: ");
        assert(s@ =~= message_head(self@));
        match &self.kind {
            ErrorKind::Io(e) => {
                let t = e.to_string();
                s.push_str(t.as_str());
            },
            ErrorKind::LoopDetected => {
                s.push_str("symlink loop detected");
            },
        }
        s
    }
}

} // verus!
