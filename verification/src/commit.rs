use vstd::prelude::*;
use vstd::slice::slice_subrange;
use vstd::string::StrSliceExecFns;
use vstd::string::StringExecFns;
use vstd::utf8::{decode_utf8, encode_utf8, valid_utf8};
use crate::bytes::{find_byte, index_of, lemma_index_of, lemma_index_of_is};
use crate::digest::{
    hex_bytes, hex_decode_id, hex_encode, is_hex_id, lemma_hex_bytes_plain,
    lemma_hex_round_trip, unhex,
};
use crate::error::RuntimeError;
use crate::kind::Kind;
use crate::object::{
    decode_object, decode_stored, frame, object_id_of, parse_tree, render, tree_listing,
};
use crate::repository::{placed, ObjectFile, Placed, Repository};
use crate::text::{
    bytes_eq, chars_at, is_whitespace, lemma_ascii, push_str, strip_prefixes, to_chars, trim,
    trim_bytes, trim_end, trim_end_chars, trim_start,
};
use crate::zlib::zlib_inflate;

verus! {

/// The branch that the content of `HEAD` names: what is left of it without
/// `ref: refs/heads/` at its start and the white space at its end.
pub open spec fn branch_of_head(head: Seq<char>) -> Seq<char> {
    trim_end_chars(strip_prefixes(head, "ref: refs/heads/"@))
}

/// The id that the content of a branch file spells: 40 hexadecimal digits,
/// with blanks before and behind them left aside.
pub open spec fn tip_id(content: Seq<u8>) -> Option<Seq<u8>> {
    if is_hex_id(trim(content)) {
        Some(unhex(trim(content)))
    } else {
        None
    }
}

/// The commit at the tip of the branch, given the content of the branch
/// file, or `None` where there is no such file: `NotFound` without the
/// file, `UnexpectedChar` where it does not spell an id.
pub open spec fn tip_commit(tip: Option<Seq<u8>>) -> Result<Seq<u8>, RuntimeError> {
    match tip {
        None => Err(RuntimeError::NotFound),
        Some(content) => match tip_id(content) {
            Some(id) => Ok(id),
            None => Err(RuntimeError::UnexpectedChar),
        },
    }
}

/// The parent that a new commit gets: the commit at the tip of the branch,
/// and none where the branch has no tip that can be read.
pub open spec fn parent_of_tip(tip: Option<Seq<u8>>) -> Option<Seq<u8>> {
    match tip_commit(tip) {
        Ok(id) => Some(id),
        Err(_) => None,
    }
}

/// The line that names the parent of a commit; nothing for a commit
/// without a parent.
pub open spec fn parent_line(parent: Option<Seq<u8>>) -> Seq<u8> {
    match parent {
        Some(id) => encode_utf8("parent "@) + hex_bytes(id) + seq![0x0au8],
        None => Seq::empty(),
    }
}

/// The payload of a commit: the line of its tree, the line of its parent
/// where it has one, an empty line, the message, and a line feed.
pub open spec fn commit_payload(tree: Seq<u8>, parent: Option<Seq<u8>>, message: Seq<u8>) -> Seq<
    u8,
> {
    encode_utf8("tree "@) + hex_bytes(tree) + seq![0x0au8] + parent_line(parent) + seq![0x0au8]
        + message + seq![0x0au8]
}

/// The place of the last `/` of `path` before `end`; 0 where there is none.
pub open spec fn last_slash(path: Seq<char>, end: int) -> int
    decreases end,
{
    if end <= 0 {
        0
    } else if path[end - 1] == '/' {
        end - 1
    } else {
        last_slash(path, end - 1)
    }
}

/// The directory that holds the file `path`: the path up to its last `/`.
pub open spec fn parent_dir(path: Seq<char>) -> Seq<char> {
    path.take(last_slash(path, path.len() as int))
}

/// The path of the file of the branch `branch` in the repository at `root`.
/// A branch whose name holds `/` has its file in a directory below
/// `.git/refs/heads`.
pub open spec fn branch_file(root: Seq<char>, branch: Seq<char>) -> Seq<char> {
    root + "/"@ + ".git/refs/heads"@ + "/"@ + branch
}

/// What to write so that the branch points at a commit: the directory that
/// holds the file of the branch, which is to be made with all directories
/// above it where it is missing, the file of the branch, and its content.
#[derive(Debug)]
pub struct RefUpdate {
    pub dir: String,
    pub path: String,
    pub content: Vec<u8>,
}

/// What a commit comes to: the id of the commit, the file of its object,
/// and the update of the branch.
#[derive(Debug)]
pub struct CommitPlan {
    pub hash: [u8; 20],
    pub object: ObjectFile,
    pub update: RefUpdate,
}

/// What a commit comes to, as plain values.
pub struct Planned {
    pub hash: Seq<u8>,
    pub object: Placed,
    pub update_dir: Seq<char>,
    pub update_path: Seq<char>,
    pub update_content: Seq<u8>,
}

impl CommitPlan {
    /// The plan as plain values.
    pub open spec fn view(&self) -> Planned {
        Planned {
            hash: self.hash@,
            object: self.object@,
            update_dir: self.update.dir@,
            update_path: self.update.path@,
            update_content: self.update.content@,
        }
    }
}

/// The content of a branch file that was read, as plain values.
pub open spec fn content_of(tip: Option<&[u8]>) -> Option<Seq<u8>> {
    match tip {
        Some(content) => Some(content@),
        None => None,
    }
}

/// What a commit of the tree `tree` with the message `message` comes to in
/// the repository at `root`, where `HEAD` holds `head` and the file of the
/// current branch holds `tip`: the object of the commit, whose parent is the
/// tip where the tip can be read, written at its place; and the file of the
/// branch that `head` names, with the id of the commit in hexadecimal, and
/// the directory that holds that file. Fails as writing the object fails.
pub open spec fn planned_commit(
    root: Seq<char>,
    head: Seq<char>,
    tip: Option<Seq<u8>>,
    tree: Seq<u8>,
    message: Seq<u8>,
) -> Result<Planned, RuntimeError> {
    match placed(root, Kind::Commit, commit_payload(tree, parent_of_tip(tip), message)) {
        Ok(file) => Ok(
            Planned {
                hash: file.hash,
                object: file,
                update_dir: parent_dir(branch_file(root, branch_of_head(head))),
                update_path: branch_file(root, branch_of_head(head)),
                update_content: hex_bytes(file.hash),
            },
        ),
        Err(e) => Err(e),
    }
}

/// One step of the log: the line of a commit, and the id of its parent
/// where it has one.
#[derive(Debug)]
pub struct LogEntry {
    pub line: Vec<u8>,
    pub parent: Option<[u8; 20]>,
}

/// The first line of `text`: what stands before its first line feed.
pub open spec fn first_line(text: Seq<u8>) -> Seq<u8> {
    text.subrange(0, index_of(text, 0x0a, 0))
}

/// Whether `line` starts with `parent ` .
pub open spec fn is_parent_line(line: Seq<u8>) -> bool {
    line.len() >= 7 && line.subrange(0, 7) == encode_utf8("parent "@)
}

/// What the header lines of a commit from `pos` on say: the text behind
/// `parent ` on the first line that starts so, if there is one, and the
/// first line of the message, which is the line behind the first empty
/// line. Fails with `CorruptEntry` where no empty line ends the header.
pub open spec fn scan_commit(data: Seq<u8>, pos: int) -> Result<(Option<Seq<u8>>, Seq<u8>), RuntimeError>
    decreases data.len() - pos,
{
    if pos < 0 || pos >= data.len() {
        Err(RuntimeError::CorruptEntry)
    } else {
        let end = index_of(data, 0x0a, pos);
        if end == pos {
            Ok((None, first_line(data.skip(pos + 1))))
        } else if end < pos || end >= data.len() {
            Err(RuntimeError::CorruptEntry)
        } else {
            match scan_commit(data, end + 1) {
                Err(e) => Err(e),
                Ok((parent, subject)) => if is_parent_line(data.subrange(pos, end)) {
                    Ok((Some(data.subrange(pos + 7, end)), subject))
                } else {
                    Ok((parent, subject))
                },
            }
        }
    }
}

/// The line of the log for the commit `id` with the first line `subject`
/// of its message: the id in hexadecimal, a space, the subject, and a line
/// feed.
pub open spec fn log_line(id: Seq<u8>, subject: Seq<u8>) -> Seq<u8> {
    hex_bytes(id) + seq![0x20u8] + subject + seq![0x0au8]
}

/// The step of the log at the commit `id` with the payload `payload`: its
/// line, and the id of its parent. Fails as `scan_commit` does, and with
/// `UnexpectedChar` where the parent is not spelled as an id.
pub open spec fn log_step(id: Seq<u8>, payload: Seq<u8>) -> Result<(Seq<u8>, Option<Seq<u8>>), RuntimeError> {
    match scan_commit(payload, 0) {
        Err(e) => Err(e),
        Ok((parent, subject)) => match parent {
            None => Ok((log_line(id, subject), None)),
            Some(text) => if is_hex_id(text) {
                Ok((log_line(id, subject), Some(unhex(text))))
            } else {
                Err(RuntimeError::UnexpectedChar)
            },
        },
    }
}

/// The step of the log at the stored commit `stored`. Fails as decoding
/// the object fails, with `UnknownKind` where the object is no commit, and
/// as `log_step` does.
pub open spec fn log_of_stored(id: Seq<u8>, stored: Seq<u8>) -> Result<
    (Seq<u8>, Option<Seq<u8>>),
    RuntimeError,
> {
    match decode_object(stored) {
        Err(e) => Err(e),
        Ok((kind, _, payload)) => if kind != Kind::Commit {
            Err(RuntimeError::UnknownKind)
        } else {
            log_step(id, payload)
        },
    }
}

/// Composes the payload of a commit.
pub fn compose_commit(tree_hash: &[u8; 20], parent: Option<[u8; 20]>, message: &[u8]) -> (res: Vec<
    u8,
>)
    ensures
        res@ == commit_payload(
            tree_hash@,
            match parent {
                Some(id) => Some(id@),
                None => None,
            },
            message@,
        ),
{
    let mut out: Vec<u8> = Vec::new();
    push_str(&mut out, "tree ");
    out.extend_from_slice(hex_encode(tree_hash.as_slice()).as_slice());
    out.push(0x0a);
    let ghost head = out@;
    match parent {
        Some(id) => {
            push_str(&mut out, "parent ");
            out.extend_from_slice(hex_encode(id.as_slice()).as_slice());
            out.push(0x0a);
            assert(out@ =~= head + parent_line(Some(id@)));
        },
        None => {
            assert(out@ =~= head + parent_line(None));
        },
    }
    out.push(0x0a);
    out.extend_from_slice(message);
    out.push(0x0a);
    proof {
        let p = match parent {
            Some(id) => Some(id@),
            None => None,
        };
        assert(out@ =~= commit_payload(tree_hash@, p, message@));
    }
    out
}

/// What the header of a commit says, given the parent line `found` that
/// stands before the lines that `rest` is about.
pub open spec fn after_parent(
    found: Option<Seq<u8>>,
    rest: Result<(Option<Seq<u8>>, Seq<u8>), RuntimeError>,
) -> Result<(Option<Seq<u8>>, Seq<u8>), RuntimeError> {
    match rest {
        Err(e) => Err(e),
        Ok((parent, subject)) => Ok((if found is Some { found } else { parent }, subject)),
    }
}

/// The part of `data` between two places.
pub open spec fn span_of(data: Seq<u8>, span: Option<(usize, usize)>) -> Option<Seq<u8>> {
    match span {
        Some((a, b)) => Some(data.subrange(a as int, b as int)),
        None => None,
    }
}

/// Reads the header of a commit: finds the text behind `parent ` and the
/// first line of the message, each as the two places between which it
/// stands.
pub fn read_commit_header(data: &[u8]) -> (res: Result<
    (Option<(usize, usize)>, (usize, usize)),
    RuntimeError,
>)
    ensures
        match scan_commit(data@, 0) {
            Ok((parent, subject)) => res matches Ok((found, (from, to))) && from <= to
                <= data@.len() && data@.subrange(from as int, to as int) == subject && span_of(
                data@,
                found,
            ) == parent && (found matches Some((a, b)) ==> a <= b <= data@.len()),
            Err(e) => res matches Err(f) && f == e,
        },
{
    let total = data.len();
    let mut pos: usize = 0;
    let mut found: Option<(usize, usize)> = None;
    let ghost whole = scan_commit(data@, 0);
    loop
        invariant
            pos <= total,
            total == data@.len(),
            whole == scan_commit(data@, 0),
            whole == after_parent(span_of(data@, found), scan_commit(data@, pos as int)),
            found matches Some((a, b)) ==> a <= b <= total,
        decreases total - pos,
    {
        if pos >= total {
            return Err(RuntimeError::CorruptEntry);
        }
        let end = find_byte(data, 0x0a, pos);
        if end == pos {
            let rest = slice_subrange(data, pos + 1, total);
            assert(rest@ =~= data@.skip(pos + 1));
            let stop = find_byte(rest, 0x0a, 0);
            assert(rest@.subrange(0, stop as int) =~= data@.subrange(pos + 1, pos + 1 + stop));
            return Ok((found, (pos + 1, pos + 1 + stop)));
        }
        if end >= total {
            return Err(RuntimeError::CorruptEntry);
        }
        let is_parent = end - pos >= 7 && bytes_eq(
            slice_subrange(data, pos, pos + 7),
            "parent ".as_bytes(),
        );
        proof {
            let line = data@.subrange(pos as int, end as int);
            if end - pos >= 7 {
                assert(line.subrange(0, 7) =~= data@.subrange(pos as int, pos + 7));
            }
        }
        if is_parent && found.is_none() {
            found = Some((pos + 7, end));
        }
        pos = end + 1;
    }
}

/// The step of the log at the commit `id` with the payload `payload`.
pub fn log_entry(id: &[u8; 20], payload: &[u8]) -> (res: Result<LogEntry, RuntimeError>)
    ensures
        match log_step(id@, payload@) {
            Ok((line, parent)) => res matches Ok(entry) && entry.line@ == line && match parent {
                Some(p) => entry.parent matches Some(q) && q@ == p,
                None => entry.parent is None,
            },
            Err(e) => res matches Err(f) && f == e,
        },
{
    let (found, (from, to)) = match read_commit_header(payload) {
        Ok(found) => found,
        Err(e) => {
            return Err(e);
        },
    };
    let parent = match found {
        None => None,
        Some((a, b)) => match hex_decode_id(slice_subrange(payload, a, b)) {
            Some(parent) => Some(parent),
            None => {
                return Err(RuntimeError::UnexpectedChar);
            },
        },
    };
    let mut line = hex_encode(id.as_slice());
    line.push(0x20);
    line.extend_from_slice(slice_subrange(payload, from, to));
    line.push(0x0a);
    assert(line@ =~= log_line(id@, payload@.subrange(from as int, to as int)));
    Ok(LogEntry { line, parent })
}

/// The directory that holds the file `path`.
pub fn parent_of(path: &str) -> (res: String)
    ensures
        res@ == parent_dir(path@),
{
    let chars = to_chars(path);
    let mut end: usize = chars.len();
    while end > 0 && chars[end - 1] != '/'
        invariant
            end <= chars@.len(),
            chars@ == path@,
            last_slash(path@, path@.len() as int) == last_slash(path@, end as int),
        decreases end,
    {
        end -= 1;
    }
    let stop: usize = if end > 0 { end - 1 } else { 0 };
    proof {
        assert(path@.subrange(0, stop as int) =~= path@.take(stop as int));
    }
    String::from_str(path.substring_char(0, stop))
}

/// The file of a branch whose name holds no `/` lies in `.git/refs/heads`.
pub proof fn lemma_plain_branch(root: Seq<char>, branch: Seq<char>)
    requires
        forall|i: int| 0 <= i < branch.len() ==> branch[i] != '/',
    ensures
        parent_dir(branch_file(root, branch)) == root + "/"@ + ".git/refs/heads"@,
{
    reveal_strlit("/");
    let dir = root + "/"@ + ".git/refs/heads"@;
    let path = branch_file(root, branch);
    assert(path =~= dir + "/"@ + branch);
    assert(path[dir.len() as int] == '/');
    lemma_last_slash(path, dir.len() as int, path.len() as int);
    assert(path.take(dir.len() as int) =~= dir);
}

/// Where a `/` stands at `at` and none behind it before `end`, the last `/`
/// before `end` is the one at `at`.
pub proof fn lemma_last_slash(path: Seq<char>, at: int, end: int)
    requires
        0 <= at < end <= path.len(),
        path[at] == '/',
        forall|i: int| at < i < end ==> path[i] != '/',
    ensures
        last_slash(path, end) == at,
    decreases end - at,
{
    if end - 1 > at {
        lemma_last_slash(path, at, end - 1);
    }
}

impl Repository {
    /// The name of the current branch, given the content of `HEAD`.
    pub fn current_branch(&self, head: &str) -> (res: String)
        ensures
            res@ == branch_of_head(head@),
    {
        let prefix = to_chars("ref: refs/heads/");
        let chars = to_chars(head);
        let total = chars.len();
        proof {
            reveal_strlit("ref: refs/heads/");
        }
        let mut from: usize = 0;
        assert(head@.skip(0) =~= head@);
        while chars_at(&chars, from, &prefix)
            invariant
                from <= total,
                total == head@.len(),
                chars@ == head@,
                prefix@ == "ref: refs/heads/"@,
                prefix@.len() == 16,
                strip_prefixes(head@, prefix@) == strip_prefixes(head@.skip(from as int), prefix@),
            decreases total - from,
        {
            proof {
                let rest = head@.skip(from as int);
                assert(rest.subrange(0, 16) =~= head@.subrange(from as int, from + 16));
                assert(rest.skip(16) =~= head@.skip(from + 16));
            }
            from = from + 16;
        }
        proof {
            let rest = head@.skip(from as int);
            if rest.len() >= 16 {
                assert(rest.subrange(0, 16) =~= head@.subrange(from as int, from + 16));
            }
            assert(strip_prefixes(rest, prefix@) == rest);
        }
        let mut to: usize = total;
        assert(head@.subrange(from as int, to as int) =~= head@.skip(from as int));
        while to > from && is_whitespace(chars[to - 1])
            invariant
                from <= to <= total,
                total == head@.len(),
                chars@ == head@,
                branch_of_head(head@) == trim_end_chars(head@.subrange(from as int, to as int)),
            decreases to,
        {
            assert(head@.subrange(from as int, to as int).drop_last() =~= head@.subrange(
                from as int,
                to - 1,
            ));
            to -= 1;
        }
        String::from_str(head.substring_char(from, to))
    }

    /// The path of the file of the branch `branch`.
    pub fn branch_path(&self, branch: &str) -> (res: String)
        ensures
            res@ == branch_file(self.path@, branch@),
    {
        let mut path = self.under(".git/refs/heads");
        path.append("/");
        path.append(branch);
        path
    }

    /// The commit at the tip of the current branch, given the content of
    /// the branch file, or `None` where there is no such file. Fails with
    /// `NotFound` without the file, and with `UnexpectedChar` where its
    /// content does not spell an id.
    pub fn current_commit(&self, tip: Option<&[u8]>) -> (res: Result<[u8; 20], RuntimeError>)
        ensures
            match tip_commit(
                match tip {
                    Some(content) => Some(content@),
                    None => None,
                },
            ) {
                Ok(id) => res matches Ok(found) && found@ == id,
                Err(e) => res matches Err(f) && f == e,
            },
    {
        match tip {
            None => Err(RuntimeError::NotFound),
            Some(content) => {
                let (from, to) = trim_bytes(content);
                match hex_decode_id(slice_subrange(content, from, to)) {
                    Some(id) => Ok(id),
                    None => Err(RuntimeError::UnexpectedChar),
                }
            },
        }
    }

    /// Whether the current branch has a commit at its tip.
    pub fn has_current_commit(&self, tip: Option<&[u8]>) -> (res: bool)
        ensures
            res == tip_commit(
                match tip {
                    Some(content) => Some(content@),
                    None => None,
                },
            ) is Ok,
    {
        self.current_commit(tip).is_ok()
    }

    /// What to write so that the branch `branch` points at the commit
    /// `hash`: the file of the branch with the id in hexadecimal, and the
    /// directory that holds it, which is the path of the file up to its last
    /// `/`: `.git/refs/heads` for a plain name, and a directory below it for
    /// a name that holds `/`.
    pub fn set_current_commit(&self, branch: &str, hash: &[u8; 20]) -> (res: RefUpdate)
        ensures
            res.path@ == branch_file(self.path@, branch@),
            res.dir@ == parent_dir(res.path@),
            res.content@ == hex_bytes(hash@),
            tip_commit(Some(res.content@)) == Ok::<Seq<u8>, RuntimeError>(hash@),
    {
        proof {
            lemma_tip_round_trip(hash@);
        }
        let path = self.branch_path(branch);
        RefUpdate { dir: parent_of(path.as_str()), path, content: hex_encode(hash.as_slice()) }
    }

    /// Makes a commit of the tree `tree_hash` on the current branch.
    ///
    /// `head` is the content of `HEAD`, `tip` the content of the file of the
    /// current branch, `None` where there is none. The commit has the tip
    /// as its parent where the tip can be read, and no parent otherwise.
    /// The plan holds the object of the commit and the update that makes the
    /// branch point at it. Once the update is written, the tip of the
    /// branch is the new commit, and the log shows the new commit first and
    /// goes on at the commit that was the tip before. Fails with `IoError`
    /// exactly where the compressor fails on the frame of the commit.
    pub fn commit(&self, head: &str, tip: Option<&[u8]>, tree_hash: &[u8; 20], message: &str) -> (res:
        Result<CommitPlan, RuntimeError>)
        ensures
            match planned_commit(
                self.path@,
                head@,
                content_of(tip),
                tree_hash@,
                encode_utf8(message@),
            ) {
                Ok(made) => {
                    &&& res matches Ok(plan) && plan@ == made
                    &&& tip_commit(Some(made.update_content)) == Ok::<Seq<u8>, RuntimeError>(
                        made.hash,
                    )
                    &&& log_of_stored(made.hash, made.object.data) == Ok::<
                        (Seq<u8>, Option<Seq<u8>>),
                        RuntimeError,
                    >(
                        (
                            log_line(made.hash, first_line(encode_utf8(message@))),
                            parent_of_tip(content_of(tip)),
                        ),
                    )
                },
                Err(e) => res matches Err(f) && f == e,
            },
    {
        let parent = match self.current_commit(tip) {
            Ok(id) => Some(id),
            Err(_) => None,
        };
        let payload = compose_commit(tree_hash, parent, message.as_bytes());
        let size = payload.len();
        let object = match self.write_object(Kind::Commit, payload.as_slice()) {
            Ok(object) => object,
            Err(e) => {
                return Err(e);
            },
        };
        proof {
            lemma_commit_chain(tree_hash@, content_of(tip), encode_utf8(message@), object.data@);
        }
        let branch = self.current_branch(head);
        let update = self.set_current_commit(branch.as_str(), &object.hash);
        Ok(CommitPlan { hash: object.hash, object, update })
    }

    /// The text that shows a stored object. Fails as decoding the object
    /// and rendering it fail.
    pub fn show(&self, stored: &[u8]) -> (res: Result<String, RuntimeError>)
        ensures
            match decode_object(stored@) {
                Err(e) => res matches Err(f) && f == e,
                Ok((kind, _, payload)) => match render(kind, payload) {
                    Ok(bytes) => if valid_utf8(bytes) {
                        res matches Ok(text) && text@ == decode_utf8(bytes)
                    } else {
                        res matches Err(e) && e == RuntimeError::UnexpectedChar
                    },
                    Err(e) => res matches Err(f) && f == e,
                },
            },
            match decode_object(stored@) {
                Ok((kind, _, payload)) => kind == Kind::Tree ==> match parse_tree(payload) {
                    Ok(entries) => res matches Ok(text) && text@ == decode_utf8(
                        tree_listing(entries),
                    ),
                    Err(e) => res matches Err(f) && f == e,
                },
                Err(_) => true,
            },
    {
        match decode_stored(stored) {
            Ok(object) => object.string(),
            Err(e) => Err(e),
        }
    }

    /// One step of the log: the line of the commit `id`, whose file holds
    /// `stored`, and the id of its parent, at which the log goes on.
    pub fn log(&self, id: &[u8; 20], stored: &[u8]) -> (res: Result<LogEntry, RuntimeError>)
        ensures
            match log_of_stored(id@, stored@) {
                Ok((line, parent)) => res matches Ok(entry) && entry.line@ == line && match parent {
                    Some(p) => entry.parent matches Some(q) && q@ == p,
                    None => entry.parent is None,
                },
                Err(e) => res matches Err(f) && f == e,
            },
    {
        let object = match decode_stored(stored) {
            Ok(object) => object,
            Err(e) => {
                return Err(e);
            },
        };
        match object.kind {
            Kind::Commit => log_entry(id, object.data.as_slice()),
            _ => Err(RuntimeError::UnknownKind),
        }
    }
}

/// The hexadecimal text of an id, written to the file of a branch, is read
/// back as that id.
pub proof fn lemma_tip_round_trip(id: Seq<u8>)
    requires
        id.len() == 20,
    ensures
        tip_commit(Some(hex_bytes(id))) == Ok::<Seq<u8>, RuntimeError>(id),
{
    let text = hex_bytes(id);
    lemma_hex_round_trip(id);
    lemma_hex_bytes_plain(id);
    assert(48 <= text[0] <= 102);
    assert(48 <= text[39] <= 102);
    assert(trim_start(text) == text);
    assert(trim_end(text) == text);
}

/// The first line of a text does not change where a line feed is put
/// behind the text.
pub proof fn lemma_first_line_closed(text: Seq<u8>)
    ensures
        first_line(text + seq![0x0au8]) == first_line(text),
{
    let closed = text + seq![0x0au8];
    let at = index_of(text, 0x0a, 0);
    lemma_index_of(text, 0x0a, 0);
    assert forall|j: int| 0 <= j < at implies closed[j] != 0x0a by {
        assert(closed[j] == text[j]);
    }
    if at < text.len() {
        assert(closed[at] == text[at]);
    }
    lemma_index_of_is(closed, 0x0a, 0, at);
    assert(closed.subrange(0, at) =~= text.subrange(0, at));
}

/// An empty line ends the header: the line behind it is the first line of
/// the message.
pub proof fn lemma_scan_blank(data: Seq<u8>, pos: int)
    requires
        0 <= pos < data.len(),
        data[pos] == 0x0a,
    ensures
        scan_commit(data, pos) == Ok::<(Option<Seq<u8>>, Seq<u8>), RuntimeError>(
            (None, first_line(data.skip(pos + 1))),
        ),
{
    lemma_index_of_is(data, 0x0a, pos, pos);
}

/// A header line that does not start with `parent ` is passed over.
pub proof fn lemma_scan_other(data: Seq<u8>, pos: int, end: int)
    requires
        0 <= pos < end < data.len(),
        data[end] == 0x0a,
        forall|j: int| pos <= j < end ==> data[j] != 0x0a,
        !is_parent_line(data.subrange(pos, end)),
    ensures
        scan_commit(data, pos) == scan_commit(data, end + 1),
{
    lemma_index_of_is(data, 0x0a, pos, end);
}

/// A header line that starts with `parent ` names the parent, whatever
/// follows it, as long as the header ends.
pub proof fn lemma_scan_parent(data: Seq<u8>, pos: int, end: int)
    requires
        0 <= pos < end < data.len(),
        data[end] == 0x0a,
        forall|j: int| pos <= j < end ==> data[j] != 0x0a,
        is_parent_line(data.subrange(pos, end)),
        scan_commit(data, end + 1) is Ok,
    ensures
        scan_commit(data, pos) == Ok::<(Option<Seq<u8>>, Seq<u8>), RuntimeError>(
            (Some(data.subrange(pos + 7, end)), scan_commit(data, end + 1)->Ok_0.1),
        ),
{
    lemma_index_of_is(data, 0x0a, pos, end);
}

/// The bytes of `tree `, the id in hexadecimal and a line feed: 46 bytes
/// with no line feed before the last, the first of them a `t`.
pub proof fn lemma_tree_line(tree: Seq<u8>)
    requires
        tree.len() == 20,
    ensures
        ({
            let line = encode_utf8("tree "@) + hex_bytes(tree) + seq![0x0au8];
            &&& line.len() == 46
            &&& line[0] == 0x74
            &&& line[45] == 0x0a
            &&& forall|j: int| 0 <= j < 45 ==> line[j] != 0x0a
        }),
{
    let word = encode_utf8("tree "@);
    let line = word + hex_bytes(tree) + seq![0x0au8];
    reveal_strlit("tree ");
    lemma_ascii("tree "@);
    lemma_hex_round_trip(tree);
    lemma_hex_bytes_plain(tree);
    assert(word.len() == 5 && word[0] == 0x74);
    assert forall|j: int| 0 <= j < 45 implies line[j] != 0x0a by {
        if j < 5 {
            assert(line[j] == word[j]);
        } else {
            assert(line[j] == hex_bytes(tree)[j - 5]);
        }
    }
}

/// The line that names a parent: `parent `, the id in hexadecimal and a line
/// feed, 48 bytes with no line feed before the last.
pub proof fn lemma_parent_line(parent: Seq<u8>)
    requires
        parent.len() == 20,
    ensures
        ({
            let line = parent_line(Some(parent));
            &&& line.len() == 48
            &&& line[47] == 0x0a
            &&& forall|j: int| 0 <= j < 47 ==> line[j] != 0x0a
            &&& line.subrange(0, 7) == encode_utf8("parent "@)
            &&& line.subrange(7, 47) == hex_bytes(parent)
        }),
{
    let mark = encode_utf8("parent "@);
    let line = parent_line(Some(parent));
    reveal_strlit("parent ");
    lemma_ascii("parent "@);
    lemma_hex_round_trip(parent);
    lemma_hex_bytes_plain(parent);
    assert(mark.len() == 7);
    assert forall|j: int| 0 <= j < 47 implies line[j] != 0x0a by {
        if j < 7 {
            assert(line[j] == mark[j]);
        } else {
            assert(line[j] == hex_bytes(parent)[j - 7]);
        }
    }
    assert(line.subrange(0, 7) =~= mark);
    assert(line.subrange(7, 47) =~= hex_bytes(parent));
}

/// The log reads from the payload of a commit what the commit was made
/// with: the first line of its message, and its parent.
pub proof fn lemma_commit_log(id: Seq<u8>, tree: Seq<u8>, parent: Option<Seq<u8>>, message: Seq<u8>)
    requires
        tree.len() == 20,
        parent matches Some(p) ==> p.len() == 20,
    ensures
        log_step(id, commit_payload(tree, parent, message)) == Ok::<
            (Seq<u8>, Option<Seq<u8>>),
            RuntimeError,
        >((log_line(id, first_line(message)), parent)),
{
    let data = commit_payload(tree, parent, message);
    let head = encode_utf8("tree "@) + hex_bytes(tree) + seq![0x0au8];
    let closed = message + seq![0x0au8];
    lemma_tree_line(tree);
    lemma_first_line_closed(message);
    reveal_strlit("parent ");
    lemma_ascii("parent "@);
    assert(encode_utf8("parent "@)[0] == 0x70);
    match parent {
        None => {
            assert(data =~= head + seq![0x0au8] + closed);
            assert forall|j: int| 0 <= j < 45 implies data[j] != 0x0a by {
                assert(data[j] == head[j]);
            }
            assert(data[45] == head[45]);
            assert(data[0] == head[0]);
            assert(!is_parent_line(data.subrange(0, 45))) by {
                if data.subrange(0, 45).len() >= 7 {
                    assert(data.subrange(0, 45).subrange(0, 7)[0] == data[0]);
                }
            }
            assert(data[46] == 0x0a);
            assert(data.skip(47) =~= closed);
            lemma_scan_blank(data, 46);
            lemma_scan_other(data, 0, 45);
        },
        Some(p) => {
            let line = parent_line(Some(p));
            lemma_parent_line(p);
            lemma_hex_round_trip(p);
            assert(data =~= head + line + seq![0x0au8] + closed);
            assert forall|j: int| 0 <= j < 45 implies data[j] != 0x0a by {
                assert(data[j] == head[j]);
            }
            assert(data[45] == head[45]);
            assert(data[0] == head[0]);
            assert(!is_parent_line(data.subrange(0, 45))) by {
                if data.subrange(0, 45).len() >= 7 {
                    assert(data.subrange(0, 45).subrange(0, 7)[0] == data[0]);
                }
            }
            assert forall|j: int| 46 <= j < 93 implies data[j] != 0x0a by {
                assert(data[j] == line[j - 46]);
            }
            assert(data[93] == line[47]);
            assert(data.subrange(46, 93).subrange(0, 7) =~= line.subrange(0, 7));
            assert(data.subrange(53, 93) =~= line.subrange(7, 47));
            assert(data[94] == 0x0a);
            assert(data.skip(95) =~= closed);
            lemma_scan_blank(data, 94);
            lemma_scan_parent(data, 46, 93);
            lemma_scan_other(data, 0, 45);
        },
    }
}

/// Commit chain: once a commit is made and the branch file holds what the
/// commit plans for it, the tip of the branch is the new commit, and the
/// log, which starts at the tip, shows the new commit first and goes on at
/// the commit that was the tip before, if there was one. This holds of
/// every commit whose payload a machine can hold and whose id has the 20
/// bytes of a digest; `Repository::commit` states it of every commit that it
/// makes.
pub proof fn lemma_commit_chain(tree: Seq<u8>, tip: Option<Seq<u8>>, message: Seq<u8>, stored: Seq<u8>)
    requires
        tree.len() == 20,
        commit_payload(tree, parent_of_tip(tip), message).len() <= usize::MAX,
        object_id_of(Kind::Commit, commit_payload(tree, parent_of_tip(tip), message)).len() == 20,
        zlib_inflate(stored) matches Some(r) && r.0 == frame(
            Kind::Commit,
            commit_payload(tree, parent_of_tip(tip), message),
        ),
    ensures
        ({
            let payload = commit_payload(tree, parent_of_tip(tip), message);
            let id = object_id_of(Kind::Commit, payload);
            &&& tip_commit(Some(hex_bytes(id))) == Ok::<Seq<u8>, RuntimeError>(id)
            &&& log_of_stored(id, stored) == Ok::<(Seq<u8>, Option<Seq<u8>>), RuntimeError>(
                (log_line(id, first_line(message)), parent_of_tip(tip)),
            )
        }),
{
    let parent = parent_of_tip(tip);
    let payload = commit_payload(tree, parent, message);
    let id = object_id_of(Kind::Commit, payload);
    lemma_tip_round_trip(id);
    match parent {
        Some(p) => {
            assert(p.len() == 20) by {
                let content = tip->Some_0;
                assert(is_hex_id(trim(content)));
                assert(p == unhex(trim(content)));
            }
        },
        None => {},
    }
    lemma_commit_log(id, tree, parent, message);
    crate::object::lemma_object_round_trip(Kind::Commit, payload, stored);
}

} // verus!
