//! Load-time errors.  Loading fails fast: the first violation aborts the
//! whole load and no partial automaton is returned.  Run-time misses (an
//! input symbol outside the alphabet, a missing transition, a drained stack)
//! are ordinary rejections, never errors.

use vstd::prelude::*;

verus! {

/// Why a description failed to load.
#[derive(Debug)]
pub enum LoadError {
    /// A numeric field is not a non-negative decimal integer in range.
    ParseInt,
    /// A single-character field does not hold exactly one character.
    ParseChar,
    /// A structural violation of the file grammar, with a description of the
    /// check that failed.
    FileFormat(String),
    /// The terminating `END` line is absent.
    MissingEnd,
    /// Two rules of a pushdown automaton overlap: an epsilon-input rule and
    /// another rule share a state and a stack-top symbol.
    IncorrectDPDA,
}

/// The kind of a [`LoadError`], with the diagnostic text abstracted away.
/// Contracts speak of kinds; the message strings are presentation only.
#[derive(Clone, Copy, Debug, PartialEq, Eq, Structural)]
pub enum LoadErrorKind {
    ParseInt,
    ParseChar,
    FileFormat,
    MissingEnd,
    IncorrectDPDA,
}

impl LoadError {
    /// The kind of this error.
    pub open spec fn kind(&self) -> LoadErrorKind {
        match self {
            LoadError::ParseInt => LoadErrorKind::ParseInt,
            LoadError::ParseChar => LoadErrorKind::ParseChar,
            LoadError::FileFormat(_) => LoadErrorKind::FileFormat,
            LoadError::MissingEnd => LoadErrorKind::MissingEnd,
            LoadError::IncorrectDPDA => LoadErrorKind::IncorrectDPDA,
        }
    }

    /// The kind, as an executable query for callers outside the proof world.
    pub fn kind_of(&self) -> (r: LoadErrorKind)
        ensures
            r == self.kind(),
    {
        match self {
            LoadError::ParseInt => LoadErrorKind::ParseInt,
            LoadError::ParseChar => LoadErrorKind::ParseChar,
            LoadError::FileFormat(_) => LoadErrorKind::FileFormat,
            LoadError::MissingEnd => LoadErrorKind::MissingEnd,
            LoadError::IncorrectDPDA => LoadErrorKind::IncorrectDPDA,
        }
    }

    /// A structural violation, with its diagnostic text.
    pub(crate) fn file_format(msg: &str) -> (r: LoadError)
        ensures
            r.kind() == LoadErrorKind::FileFormat,
    {
        LoadError::FileFormat(<String as vstd::string::StringExecFns>::from_str(msg))
    }

    /// The diagnostic text of a structural violation, where one was recorded.
    pub fn message(&self) -> (r: Option<&String>)
        ensures
            r is Some <==> self is FileFormat,
    {
        match self {
            LoadError::FileFormat(m) => Some(m),
            _ => None,
        }
    }
}

} // verus!
