use vstd::prelude::*;
use crate::error::RuntimeError;
use crate::text::str_eq;

verus! {

/// The kind of a stored object.
#[derive(Debug, Clone, Copy, PartialEq, Eq, Structural)]
pub enum Kind {
    /// File content; the flag tells an executable file from a plain one.
    Blob(bool),
    /// A commit.
    Commit,
    /// A directory snapshot.
    Tree,
    /// A link target.
    Symlink,
}

/// The kind that a file mode text stands for, if it is a known mode.
/// A tree is written `40000`; `040000` is accepted as well.
pub open spec fn kind_of_mode(mode: Seq<char>) -> Option<Kind> {
    if mode == "100644"@ {
        Some(Kind::Blob(false))
    } else if mode == "100755"@ {
        Some(Kind::Blob(true))
    } else if mode == "160000"@ {
        Some(Kind::Commit)
    } else if mode == "120000"@ {
        Some(Kind::Symlink)
    } else if mode == "040000"@ || mode == "40000"@ {
        Some(Kind::Tree)
    } else {
        None
    }
}

impl Kind {
    /// The file mode text under which an entry of this kind is listed in a tree.
    pub open spec fn mode_text(self) -> Seq<char> {
        match self {
            Kind::Blob(false) => "100644"@,
            Kind::Blob(true) => "100755"@,
            Kind::Commit => "160000"@,
            Kind::Tree => "40000"@,
            Kind::Symlink => "120000"@,
        }
    }

    /// The kind text that opens the header of a stored object.
    pub open spec fn text(self) -> Seq<char> {
        match self {
            Kind::Blob(_) => "blob"@,
            Kind::Commit => "commit"@,
            Kind::Tree => "tree"@,
            Kind::Symlink => "symlink"@,
        }
    }

    /// Reads a file mode text. Fails with `InvalidMode` on any text that is
    /// not one of the known modes.
    pub fn from_mode(mode: &str) -> (res: Result<Kind, RuntimeError>)
        ensures
            res == match kind_of_mode(mode@) {
                Some(kind) => Ok::<Kind, RuntimeError>(kind),
                None => Err(RuntimeError::InvalidMode),
            },
    {
        if str_eq(mode, "100644") {
            Ok(Kind::Blob(false))
        } else if str_eq(mode, "100755") {
            Ok(Kind::Blob(true))
        } else if str_eq(mode, "160000") {
            Ok(Kind::Commit)
        } else if str_eq(mode, "120000") {
            Ok(Kind::Symlink)
        } else if str_eq(mode, "040000") || str_eq(mode, "40000") {
            Ok(Kind::Tree)
        } else {
            Err(RuntimeError::InvalidMode)
        }
    }

    /// The file mode text of this kind.
    pub fn to_mode(&self) -> (res: &'static str)
        ensures
            res@ == self.mode_text(),
    {
        match self {
            Kind::Blob(false) => "100644",
            Kind::Blob(true) => "100755",
            Kind::Commit => "160000",
            Kind::Tree => "40000",
            Kind::Symlink => "120000",
        }
    }

    /// The kind text of this kind.
    pub fn string(&self) -> (res: &'static str)
        ensures
            res@ == self.text(),
    {
        match self {
            Kind::Blob(_) => "blob",
            Kind::Commit => "commit",
            Kind::Tree => "tree",
            Kind::Symlink => "symlink",
        }
    }
}

/// Reading back the mode text of a kind gives that kind.
pub proof fn lemma_mode_round_trip(kind: Kind)
    ensures
        kind_of_mode(kind.mode_text()) == Some(kind),
{
    reveal_strlit("100644");
    reveal_strlit("100755");
    reveal_strlit("160000");
    reveal_strlit("120000");
    reveal_strlit("040000");
    reveal_strlit("40000");
    assert("100644"@[3] != "100755"@[3]);
    assert("100644"@[1] != "160000"@[1]);
    assert("100644"@[1] != "120000"@[1]);
    assert("100755"@[1] != "160000"@[1]);
    assert("100755"@[1] != "120000"@[1]);
    assert("160000"@[1] != "120000"@[1]);
}

} // verus!
