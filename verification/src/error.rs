use vstd::prelude::*;
use vstd::string::StringExecFns;

verus! {

/// What can go wrong while decoding or composing repository data.
#[derive(Debug, Clone, Copy, PartialEq, Eq, Structural)]
pub enum RuntimeError {
    /// A byte that is not allowed where it stands (a non-hex digit in an id,
    /// text that is not UTF-8).
    UnexpectedChar,
    /// A missing object, reference or index.
    NotFound,
    /// An object or file header that does not follow its layout.
    CorruptHeader,
    /// A record that is cut short or does not follow its layout.
    CorruptEntry,
    /// A payload whose length differs from the announced one.
    SizeMismatch,
    /// An object kind text or number outside the known ones.
    UnknownKind,
    /// A file mode outside the known ones.
    InvalidMode,
    /// A path that does not lie under the repository root.
    PathOutsideRepo,
    /// A file that does not start with the signature of its format.
    InvalidMagic,
    /// A format version other than the supported one.
    UnsupportedVersion,
    /// A feature of the format that is not handled.
    UnsupportedFeature,
    /// A failure of the underlying storage or codec.
    IoError,
}

impl RuntimeError {
    /// The text shown to a user for this error.
    pub open spec fn message_spec(self) -> Seq<char> {
        match self {
            RuntimeError::UnexpectedChar => "Invalid character found"@,
            RuntimeError::NotFound => "Not found"@,
            RuntimeError::CorruptHeader => "Corrupt header"@,
            RuntimeError::CorruptEntry => "Corrupt entry"@,
            RuntimeError::SizeMismatch => "Size mismatch"@,
            RuntimeError::UnknownKind => "Unknown object kind"@,
            RuntimeError::InvalidMode => "Invalid mode"@,
            RuntimeError::PathOutsideRepo => "Path is outside the repository"@,
            RuntimeError::InvalidMagic => "Invalid signature"@,
            RuntimeError::UnsupportedVersion => "Unsupported version"@,
            RuntimeError::UnsupportedFeature => "Unsupported feature"@,
            RuntimeError::IoError => "Input/output failure"@,
        }
    }

    /// Renders the error as text.
    pub fn message(&self) -> (res: String)
        ensures
            res@ == self.message_spec(),
    {
        let text = match self {
            RuntimeError::UnexpectedChar => "Invalid character found",
            RuntimeError::NotFound => "Not found",
            RuntimeError::CorruptHeader => "Corrupt header",
            RuntimeError::CorruptEntry => "Corrupt entry",
            RuntimeError::SizeMismatch => "Size mismatch",
            RuntimeError::UnknownKind => "Unknown object kind",
            RuntimeError::InvalidMode => "Invalid mode",
            RuntimeError::PathOutsideRepo => "Path is outside the repository",
            RuntimeError::InvalidMagic => "Invalid signature",
            RuntimeError::UnsupportedVersion => "Unsupported version",
            RuntimeError::UnsupportedFeature => "Unsupported feature",
            RuntimeError::IoError => "Input/output failure",
        };
        String::from_str(text)
    }
}

} // verus!
