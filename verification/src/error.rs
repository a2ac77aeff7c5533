use vstd::prelude::*;

verus! {

/// Errors of the parsing/serialization core and of the typed vCard layer.
///
/// Parsing is all-or-nothing: no partial tree is ever returned beside one of
/// these values.
#[derive(Debug)]
pub enum VObjectError {
    /// A logical line that fits no rule of the grammar: a property line
    /// without a colon, a property or `BEGIN`/`END` line outside any open
    /// component once the root is complete, or a property line before any
    /// `BEGIN`. Carries the offending line verbatim.
    ParserError(String),
    /// An `END:` tag that does not match the innermost open component.
    /// `expected` is the name of that component (empty when no component is
    /// open at all); `found` is the tag of the `END:` line.
    TagMismatch { expected: String, found: String },
    /// Input ended while the named component was still open.
    UnterminatedComponent(String),
    /// Input held no completed root component (for instance, empty input).
    NoRootComponent,
    /// The parsed root component is not named `VCARD`; carries the input.
    NotAVCard(String),
    /// The mandatory `N` property is absent.
    NameNotFound,
    /// The mandatory `VERSION` property is absent.
    VersionNotFound,
}

/// Mathematical model of an error: the same distinctions over plain
/// character sequences.
pub ghost enum AbsError {
    Malformed(Seq<char>),
    TagMismatch { expected: Seq<char>, found: Seq<char> },
    Unterminated(Seq<char>),
    NoRoot,
    NotAVCard(Seq<char>),
    NameNotFound,
    VersionNotFound,
}

impl VObjectError {
    pub open spec fn abs(&self) -> AbsError {
        match self {
            VObjectError::ParserError(s) => AbsError::Malformed(s@),
            VObjectError::TagMismatch { expected, found } => AbsError::TagMismatch {
                expected: expected@,
                found: found@,
            },
            VObjectError::UnterminatedComponent(s) => AbsError::Unterminated(s@),
            VObjectError::NoRootComponent => AbsError::NoRoot,
            VObjectError::NotAVCard(s) => AbsError::NotAVCard(s@),
            VObjectError::NameNotFound => AbsError::NameNotFound,
            VObjectError::VersionNotFound => AbsError::VersionNotFound,
        }
    }
}

} // verus!
