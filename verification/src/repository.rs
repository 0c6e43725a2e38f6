use vstd::multiset::Multiset;
use vstd::prelude::*;
use vstd::string::StrSliceExecFns;
use vstd::string::StringExecFns;
use vstd::utf8::{encode_utf8, encode_utf8_decode_utf8};
use crate::digest::{hex_chars, hex_string};
use crate::error::RuntimeError;
use crate::index::{
    index_bytes, list_index, parse_index, parse_index_bytes, record_lines, record_views,
    serialize_index, sort_records, sorted_records, IndexEntry,
};
use crate::kind::Kind;
use crate::object::{
    decode_object, decode_stored, encode_object, encoded, frame, stored_kind, LooseObject, Object,
    TreeEntry,
};
use crate::pack::{dump_idx_text, dump_pack, dump_pack_index, dump_pack_text};
use crate::files::{ignores, is_ignored_path};
use crate::text::{chars_at, stands_at, to_chars};
use crate::order::{lemma_lex_total, lex_lt};
use crate::tree::{
    build_tree, built_tree, child_entry, is_left_out, lemma_sort_entries, lemma_tree_canonical,
    names_unique, plain_name, sort_entries, sorted_by_name, tree_entries, tree_payload,
    valid_tree, TreeChild,
};
use crate::zlib::zlib_inflate;

verus! {

/// A repository: the path of its root, and the patterns of the files that
/// it leaves alone.
///
/// The repository does not touch the disk. Its methods say where a file
/// lies and what it holds; they take what was read and give what is to be
/// written.
#[derive(Debug)]
pub struct Repository {
    pub path: String,
    pub ignore: Vec<String>,
}

/// A stored object with the place of its file: the directory named by the
/// first two digits of its id, and the file in it named by the other 38.
#[derive(Debug)]
pub struct ObjectFile {
    pub hash: [u8; 20],
    pub dir: String,
    pub path: String,
    pub data: Vec<u8>,
}

/// What to create for a new repository: the directories, in this order, and
/// the file `HEAD` with its content.
#[derive(Debug)]
pub struct InitPlan {
    pub path: String,
    pub dirs: Vec<String>,
    pub head_path: String,
    pub head_content: String,
}

/// The root of the repository to work on: the one that the environment
/// names, and the current directory where it names none.
pub fn default_init_path(repo_path: Option<String>) -> (res: String)
    ensures
        res@ == match repo_path {
            Some(path) => path@,
            None => "."@,
        },
{
    match repo_path {
        Some(path) => path,
        None => String::from_str("."),
    }
}

/// The place of the first line feed in `s` at or after `from`; the length
/// of `s` where there is none.
pub open spec fn line_break(s: Seq<char>, from: int) -> int
    decreases s.len() - from,
{
    if from >= s.len() {
        s.len() as int
    } else if s[from] == '\n' {
        from
    } else {
        line_break(s, from + 1)
    }
}

/// A line without the carriage return before its line feed: `line` is what
/// stands before the line feed, or before the end of the text where
/// `ended` is false, and then it is left as it is.
pub open spec fn line_text(line: Seq<char>, ended: bool) -> Seq<char> {
    if ended && line.len() > 0 && line.last() == '\r' {
        line.drop_last()
    } else {
        line
    }
}

/// The lines of `s` from `from` on, without their line ends. A line feed at
/// the very end opens no further line.
pub open spec fn lines_from(s: Seq<char>, from: int) -> Seq<Seq<char>>
    decreases s.len() - from,
{
    if from < 0 || from >= s.len() {
        Seq::empty()
    } else {
        let end = line_break(s, from);
        if from <= end < s.len() {
            seq![line_text(s.subrange(from, end), true)] + lines_from(s, end + 1)
        } else {
            seq![line_text(s.subrange(from, s.len() as int), false)]
        }
    }
}

/// The texts of a sequence of strings.
pub open spec fn texts(strings: Seq<String>) -> Seq<Seq<char>> {
    strings.map_values(|s: String| s@)
}

/// A place that holds a line feed or is the end, with no line feed before
/// it from `from` on, is the line break.
pub proof fn lemma_line_break_is(s: Seq<char>, from: int, at: int)
    requires
        0 <= from <= at <= s.len(),
        at < s.len() ==> s[at] == '\n',
        forall|j: int| from <= j < at ==> s[j] != '\n',
    ensures
        line_break(s, from) == at,
    decreases at - from,
{
    if from < at {
        lemma_line_break_is(s, from + 1, at);
    }
}

/// Splits a text into its lines.
pub fn split_lines(content: &str) -> (res: Vec<String>)
    ensures
        texts(res@) == lines_from(content@, 0),
{
    let chars = to_chars(content);
    let total = chars.len();
    let mut lines: Vec<String> = Vec::new();
    let mut from: usize = 0;
    let ghost whole = lines_from(content@, 0);
    assert(texts(lines@) + lines_from(content@, 0) =~= whole);
    while from < total
        invariant
            from <= total,
            total == content@.len(),
            chars@ == content@,
            whole == texts(lines@) + lines_from(content@, from as int),
        decreases total - from,
    {
        let mut end: usize = from;
        while end < total && chars[end] != '\n'
            invariant
                from <= end <= total,
                total == content@.len(),
                chars@ == content@,
                forall|j: int| from <= j < end ==> content@[j] != '\n',
            decreases total - end,
        {
            end += 1;
        }
        proof {
            lemma_line_break_is(content@, from as int, end as int);
        }
        let stop: usize = if end < total && end > from && chars[end - 1] == '\r' {
            end - 1
        } else {
            end
        };
        let line = String::from_str(content.substring_char(from, stop));
        proof {
            let raw = content@.subrange(from as int, end as int);
            assert(line@ =~= line_text(raw, end < total)) by {
                if end > from {
                    assert(raw.last() == content@[end - 1]);
                    assert(raw.drop_last() =~= content@.subrange(from as int, end - 1));
                }
            }
            let done = texts(lines@);
            assert(texts(lines@.push(line)) =~= done.push(line@));
            if end < total {
                assert(done + (seq![line@] + lines_from(content@, end + 1)) =~= done.push(line@)
                    + lines_from(content@, end + 1));
            } else {
                assert(done + seq![line@] =~= done.push(line@) + lines_from(
                    content@,
                    total as int,
                ));
            }
        }
        lines.push(line);
        from = if end < total { end + 1 } else { total };
    }
    assert(texts(lines@) + Seq::<Seq<char>>::empty() =~= texts(lines@));
    lines
}

/// Whether `path` lies at or under `root`, both given in canonical form:
/// `path` starts with `root`, and ends there or goes on with a `/`.
pub open spec fn lies_under(path: Seq<char>, root: Seq<char>) -> bool {
    stands_at(path, 0, root) && (path.len() == root.len() || (root.len() > 0 && root.last() == '/')
        || path[root.len() as int] == '/')
}

/// Whether a file lies inside the repository. Both paths are given in
/// canonical form; `file_path` is `None` where the file has none, as when
/// it does not exist.
pub fn is_path_in_repo(repo_path: &str, file_path: Option<&str>) -> (res: bool)
    ensures
        res == (file_path matches Some(file) && lies_under(file@, repo_path@)),
{
    match file_path {
        None => false,
        Some(file) => {
            let root = to_chars(repo_path);
            let path = to_chars(file);
            if !chars_at(&path, 0, &root) {
                return false;
            }
            assert(path@.subrange(0, root@.len() as int).len() == root@.len());
            path.len() == root.len() || (root.len() > 0 && root[root.len() - 1] == '/')
                || path[root.len()] == '/'
        },
    }
}

/// The pack that a file name of the pack directory names: what stands
/// between `pack-` and `.pack`. `None` for a file name of another form.
pub open spec fn pack_id_of(name: Seq<char>) -> Option<Seq<char>> {
    if name.len() >= 10 && stands_at(name, 0, "pack-"@) && stands_at(
        name,
        name.len() - 5,
        ".pack"@,
    ) {
        Some(name.subrange(5, name.len() - 5))
    } else {
        None
    }
}

/// The packs that the file names `names` name, in their order.
pub open spec fn pack_ids(names: Seq<Seq<char>>) -> Seq<Seq<char>>
    decreases names.len(),
{
    if names.len() == 0 {
        Seq::empty()
    } else {
        match pack_id_of(names.last()) {
            Some(id) => pack_ids(names.drop_last()).push(id),
            None => pack_ids(names.drop_last()),
        }
    }
}

/// A stored object with the place of its file, as plain values.
pub struct Placed {
    pub hash: Seq<u8>,
    pub dir: Seq<char>,
    pub path: Seq<char>,
    pub data: Seq<u8>,
}

impl ObjectFile {
    /// The object and its place as plain values.
    pub open spec fn view(&self) -> Placed {
        Placed { hash: self.hash@, dir: self.dir@, path: self.path@, data: self.data@ }
    }
}

/// The directory of the object `hash` in the repository at `root`: it is
/// named by the first two hexadecimal digits of the id.
pub open spec fn object_dir(root: Seq<char>, hash: Seq<u8>) -> Seq<char> {
    root + "/"@ + ".git/objects/"@ + hex_chars(hash).take(2)
}

/// The file of the object `hash` in the repository at `root`: it lies in
/// the directory of the object and is named by the other digits of the id.
pub open spec fn object_file(root: Seq<char>, hash: Seq<u8>) -> Seq<char> {
    object_dir(root, hash) + "/"@ + hex_chars(hash).skip(2)
}

/// What writing an object in the repository at `root` gives: the encoded
/// object, and the place of its file. Fails as encoding the object fails.
pub open spec fn placed(root: Seq<char>, kind: Kind, payload: Seq<u8>) -> Result<
    Placed,
    RuntimeError,
> {
    match encoded(kind, payload) {
        Ok(made) => Ok(
            Placed {
                hash: made.hash,
                dir: object_dir(root, made.hash),
                path: object_file(root, made.hash),
                data: made.data,
            },
        ),
        Err(e) => Err(e),
    }
}

/// What writing the content of a file as a blob gives. Fails with
/// `PathOutsideRepo` where the file does not lie under the root, both given
/// in canonical form, and otherwise as writing the blob fails.
pub open spec fn placed_blob(
    root: Seq<char>,
    repo_path: Seq<char>,
    file_path: Option<Seq<char>>,
    content: Seq<u8>,
) -> Result<Placed, RuntimeError> {
    match file_path {
        Some(path) => if lies_under(path, repo_path) {
            placed(root, Kind::Blob(false), content)
        } else {
            Err(RuntimeError::PathOutsideRepo)
        },
        None => Err(RuntimeError::PathOutsideRepo),
    }
}

/// The path of the child `name` of the directory `dir`.
pub open spec fn child_path(dir: Seq<char>, name: Seq<char>) -> Seq<char> {
    dir + "/"@ + name
}

/// The children of the directory `dir` that go into its tree: those that
/// the patterns do not tell to leave alone, in their order.
pub open spec fn kept_children(
    children: Seq<TreeChild>,
    dir: Seq<char>,
    root: Seq<char>,
    patterns: Seq<Seq<char>>,
) -> Seq<TreeChild>
    decreases children.len(),
{
    if children.len() == 0 {
        Seq::empty()
    } else if ignores(root, patterns, child_path(dir, children.last().name@)) {
        kept_children(children.drop_last(), dir, root, patterns)
    } else {
        kept_children(children.drop_last(), dir, root, patterns).push(children.last())
    }
}

/// What writing the tree of the directory `dir` with these children gives
/// in the repository at `root`: the tree of the children that no pattern
/// tells to leave alone, and the place of its file. Fails with
/// `CorruptEntry` where two entries have one name or a name holds `/` or a
/// zero byte, and otherwise as encoding the tree fails.
pub open spec fn written_tree(
    children: Seq<TreeChild>,
    dir: Seq<char>,
    root: Seq<char>,
    patterns: Seq<Seq<char>>,
) -> Result<Placed, RuntimeError> {
    match built_tree(kept_children(children, dir, root, patterns)) {
        Ok(made) => Ok(
            Placed {
                hash: made.hash,
                dir: object_dir(root, made.hash),
                path: object_file(root, made.hash),
                data: made.data,
            },
        ),
        Err(e) => Err(e),
    }
}

/// The entries of the tree of the directory `dir` with these children.
pub open spec fn tree_of(
    children: Seq<TreeChild>,
    dir: Seq<char>,
    root: Seq<char>,
    patterns: Seq<Seq<char>>,
) -> Seq<TreeEntry> {
    tree_entries(kept_children(children, dir, root, patterns))
}

/// What a child adds to the tree of its directory: its entry, and nothing
/// where it is named `.git` or a pattern tells to leave it alone.
pub open spec fn entries_of_child(
    child: TreeChild,
    dir: Seq<char>,
    root: Seq<char>,
    patterns: Seq<Seq<char>>,
) -> Multiset<TreeEntry> {
    if child.name@ == ".git"@ || ignores(root, patterns, child_path(dir, child.name@)) {
        Multiset::empty()
    } else {
        Multiset::singleton(child_entry(child))
    }
}

/// A child at the end of a listing adds what it adds.
pub proof fn lemma_child_at_end(
    children: Seq<TreeChild>,
    child: TreeChild,
    dir: Seq<char>,
    root: Seq<char>,
    patterns: Seq<Seq<char>>,
)
    ensures
        tree_of(children.push(child), dir, root, patterns).to_multiset() == tree_of(
            children,
            dir,
            root,
            patterns,
        ).to_multiset().add(entries_of_child(child, dir, root, patterns)),
{
    let with = children.push(child);
    let kept = kept_children(children, dir, root, patterns);
    let before = tree_of(children, dir, root, patterns);
    assert(with.drop_last() =~= children);
    assert(with.last() == child);
    before.to_multiset_ensures();
    if ignores(root, patterns, child_path(dir, child.name@)) {
        assert(before.to_multiset().add(Multiset::empty()) =~= before.to_multiset());
    } else {
        assert(kept.push(child).drop_last() =~= kept);
        assert(kept.push(child).last() == child);
        if child.name@ == ".git"@ {
            assert(before.to_multiset().add(Multiset::empty()) =~= before.to_multiset());
        } else {
            assert(before.push(child_entry(child)).to_multiset() =~= before.to_multiset().add(
                Multiset::singleton(child_entry(child)),
            ));
        }
    }
}

/// A child adds what it adds wherever it stands in a listing.
pub proof fn lemma_child_anywhere(
    children: Seq<TreeChild>,
    at: int,
    child: TreeChild,
    dir: Seq<char>,
    root: Seq<char>,
    patterns: Seq<Seq<char>>,
)
    requires
        0 <= at <= children.len(),
    ensures
        tree_of(children.insert(at, child), dir, root, patterns).to_multiset() == tree_of(
            children,
            dir,
            root,
            patterns,
        ).to_multiset().add(entries_of_child(child, dir, root, patterns)),
    decreases children.len() - at,
{
    let with = children.insert(at, child);
    if at == children.len() {
        assert(with =~= children.push(child));
        lemma_child_at_end(children, child, dir, root, patterns);
    } else {
        let last = children.last();
        let front = children.drop_last();
        assert(with =~= front.insert(at, child).push(last));
        assert(children =~= front.push(last));
        lemma_child_anywhere(front, at, child, dir, root, patterns);
        lemma_child_at_end(front.insert(at, child), last, dir, root, patterns);
        lemma_child_at_end(front, last, dir, root, patterns);
        let base = tree_of(front, dir, root, patterns).to_multiset();
        let one = entries_of_child(child, dir, root, patterns);
        let other = entries_of_child(last, dir, root, patterns);
        assert(base.add(one).add(other) =~= base.add(other).add(one));
    }
}

/// Two listings of the same children give the same entries, each as often
/// in the one as in the other.
pub proof fn lemma_same_children(
    a: Seq<TreeChild>,
    b: Seq<TreeChild>,
    dir: Seq<char>,
    root: Seq<char>,
    patterns: Seq<Seq<char>>,
)
    requires
        a.to_multiset() == b.to_multiset(),
    ensures
        tree_of(a, dir, root, patterns).to_multiset() == tree_of(b, dir, root, patterns).to_multiset(),
    decreases a.len(),
{
    a.to_multiset_ensures();
    b.to_multiset_ensures();
    if a.len() == 0 {
        assert(a =~= b);
    } else {
        let child = a.last();
        let front = a.drop_last();
        assert(a.contains(child));
        assert(a.to_multiset().count(child) > 0);
        assert(b.to_multiset().count(child) > 0);
        assert(b.contains(child));
        let k = choose|k: int| 0 <= k < b.len() && b[k] == child;
        let rest = b.remove(k);
        front.to_multiset_ensures();
        assert(front.push(child) =~= a);
        assert(front.to_multiset() =~= rest.to_multiset()) by {
            assert(front.to_multiset().insert(child) == a.to_multiset());
            assert(rest.to_multiset() =~= b.to_multiset().remove(child));
        }
        lemma_same_children(front, rest, dir, root, patterns);
        lemma_child_at_end(front, child, dir, root, patterns);
        assert(rest.insert(k, child) =~= b);
        lemma_child_anywhere(rest, k, child, dir, root, patterns);
    }
}

/// Whether no two children have one name, as in a directory.
pub open spec fn distinct_names(children: Seq<TreeChild>) -> bool {
    forall|i: int, j: int|
        0 <= i < j < children.len() ==> (#[trigger] children[i]).name@ != (
        #[trigger] children[j]).name@
}

/// Every entry of the tree of a directory is the entry of one of its
/// children.
pub proof fn lemma_entry_of_a_child(
    children: Seq<TreeChild>,
    dir: Seq<char>,
    root: Seq<char>,
    patterns: Seq<Seq<char>>,
    e: TreeEntry,
)
    requires
        tree_of(children, dir, root, patterns).to_multiset().count(e) > 0,
    ensures
        exists|k: int| 0 <= k < children.len() && e == child_entry(#[trigger] children[k]),
    decreases children.len(),
{
    if children.len() == 0 {
        assert(tree_of(children, dir, root, patterns) =~= Seq::<TreeEntry>::empty());
        tree_of(children, dir, root, patterns).to_multiset_ensures();
        assert(!tree_of(children, dir, root, patterns).contains(e));
    } else {
        let last = children.last();
        let front = children.drop_last();
        assert(front.push(last) =~= children);
        lemma_child_at_end(front, last, dir, root, patterns);
        if tree_of(front, dir, root, patterns).to_multiset().count(e) > 0 {
            lemma_entry_of_a_child(front, dir, root, patterns, e);
            let k = choose|k: int| 0 <= k < front.len() && e == child_entry(#[trigger] front[k]);
            assert(children[k] == front[k]);
        } else {
            assert(entries_of_child(last, dir, root, patterns).count(e) > 0);
            assert(e == child_entry(children[children.len() - 1]));
        }
    }
}

/// Where no two children have one name, no two entries of the tree have.
pub proof fn lemma_distinct_names(
    children: Seq<TreeChild>,
    dir: Seq<char>,
    root: Seq<char>,
    patterns: Seq<Seq<char>>,
)
    requires
        distinct_names(children),
    ensures
        names_unique(tree_of(children, dir, root, patterns).to_multiset()),
{
    let entries = tree_of(children, dir, root, patterns).to_multiset();
    assert forall|a: TreeEntry, b: TreeEntry|
        #![trigger entries.count(a), entries.count(b)]
        entries.count(a) > 0 && entries.count(b) > 0 && a.name == b.name implies a == b by {
        lemma_entry_of_a_child(children, dir, root, patterns, a);
        lemma_entry_of_a_child(children, dir, root, patterns, b);
        let i = choose|k: int| 0 <= k < children.len() && a == child_entry(#[trigger] children[k]);
        let j = choose|k: int| 0 <= k < children.len() && b == child_entry(#[trigger] children[k]);
        encode_utf8_decode_utf8(children[i].name@);
        encode_utf8_decode_utf8(children[j].name@);
        assert(children[i].name@ == children[j].name@);
        if i < j {
            assert(children[i].name@ != children[j].name@);
        } else if j < i {
            assert(children[j].name@ != children[i].name@);
        }
    }
}

/// Where no two children have one name, no entry stands twice in the tree.
pub proof fn lemma_entries_once(
    children: Seq<TreeChild>,
    dir: Seq<char>,
    root: Seq<char>,
    patterns: Seq<Seq<char>>,
    e: TreeEntry,
)
    requires
        distinct_names(children),
    ensures
        tree_of(children, dir, root, patterns).to_multiset().count(e) <= 1,
    decreases children.len(),
{
    if children.len() == 0 {
        assert(tree_of(children, dir, root, patterns) =~= Seq::<TreeEntry>::empty());
        tree_of(children, dir, root, patterns).to_multiset_ensures();
        assert(!tree_of(children, dir, root, patterns).contains(e));
    } else {
        let last = children.last();
        let front = children.drop_last();
        assert(front.push(last) =~= children);
        assert forall|i: int, j: int| 0 <= i < j < front.len() implies (#[trigger] front[i]).name@
            != (#[trigger] front[j]).name@ by {
            assert(front[i] == children[i] && front[j] == children[j]);
        }
        lemma_entries_once(front, dir, root, patterns, e);
        lemma_child_at_end(front, last, dir, root, patterns);
        if tree_of(front, dir, root, patterns).to_multiset().count(e) > 0 && entries_of_child(
            last,
            dir,
            root,
            patterns,
        ).count(e) > 0 {
            lemma_entry_of_a_child(front, dir, root, patterns, e);
            let k = choose|k: int| 0 <= k < front.len() && e == child_entry(#[trigger] front[k]);
            assert(e == child_entry(last));
            encode_utf8_decode_utf8(front[k].name@);
            encode_utf8_decode_utf8(last.name@);
            assert(children[k] == front[k]);
            assert(children[k].name@ != children[children.len() - 1].name@);
        }
    }
}

/// Whether the names of the children hold no `/` and no zero byte.
pub open spec fn plain_names(children: Seq<TreeChild>) -> bool {
    forall|i: int|
        0 <= i < children.len() ==> plain_name(encode_utf8((#[trigger] children[i]).name@))
}

/// The children of a directory make a tree: where no two children have one
/// name and no name holds `/` or a zero byte, writing the tree fails only
/// as encoding it fails.
pub proof fn lemma_children_make_a_tree(
    children: Seq<TreeChild>,
    dir: Seq<char>,
    root: Seq<char>,
    patterns: Seq<Seq<char>>,
)
    requires
        distinct_names(children),
        plain_names(children),
    ensures
        valid_tree(sort_entries(tree_of(children, dir, root, patterns))),
        written_tree(children, dir, root, patterns) == placed(
            root,
            Kind::Tree,
            tree_payload(kept_children(children, dir, root, patterns)),
        ),
{
    let entries = tree_of(children, dir, root, patterns);
    let sorted = sort_entries(entries);
    lemma_sort_entries(entries);
    lemma_distinct_names(children, dir, root, patterns);
    sorted.to_multiset_ensures();
    entries.to_multiset_ensures();
    assert forall|x: TreeEntry| sorted.to_multiset().contains(x) implies sorted.to_multiset().count(
        x,
    ) == 1 by {
        lemma_entries_once(children, dir, root, patterns, x);
    }
    sorted.lemma_multiset_has_no_duplicates_conv();
    assert forall|i: int, j: int| 0 <= i < j < sorted.len() implies lex_lt(
        (#[trigger] sorted[i]).name,
        (#[trigger] sorted[j]).name,
    ) by {
        assert(sorted.contains(sorted[i]));
        assert(sorted.contains(sorted[j]));
        assert(sorted[i] != sorted[j]);
        assert(entries.to_multiset().count(sorted[i]) > 0);
        assert(entries.to_multiset().count(sorted[j]) > 0);
        assert(sorted[i].name != sorted[j].name);
        assert(!lex_lt(sorted[j].name, sorted[i].name));
        lemma_lex_total(sorted[i].name, sorted[j].name, 0);
    }
    assert forall|i: int| 0 <= i < sorted.len() implies plain_name((#[trigger] sorted[i]).name) by {
        assert(sorted.contains(sorted[i]));
        assert(entries.to_multiset().count(sorted[i]) > 0);
        lemma_entry_of_a_child(children, dir, root, patterns, sorted[i]);
        let k = choose|k: int|
            0 <= k < children.len() && sorted[i] == child_entry(#[trigger] children[k]);
        assert(plain_name(encode_utf8(children[k].name@)));
    }
}

/// Tree canonicalization: the tree of a directory does not depend on the
/// order in which its children are listed. Two listings of the same
/// children, no two of them of one name, give the same payload, in which
/// the entries stand in ascending order of their names, and so the same id
/// and the same file.
pub proof fn lemma_listing_order_of_children(
    a: Seq<TreeChild>,
    b: Seq<TreeChild>,
    dir: Seq<char>,
    root: Seq<char>,
    patterns: Seq<Seq<char>>,
)
    requires
        a.to_multiset() == b.to_multiset(),
        distinct_names(a),
    ensures
        sorted_by_name(sort_entries(tree_of(a, dir, root, patterns))),
        tree_payload(kept_children(a, dir, root, patterns)) == tree_payload(
            kept_children(b, dir, root, patterns),
        ),
        written_tree(a, dir, root, patterns) == written_tree(b, dir, root, patterns),
{
    lemma_same_children(a, b, dir, root, patterns);
    lemma_distinct_names(a, dir, root, patterns);
    lemma_tree_canonical(tree_of(a, dir, root, patterns), tree_of(b, dir, root, patterns));
}

/// A child named `.git` changes nothing: wherever it stands among the
/// children of a directory, the tree of the directory is the same as
/// without it.
pub proof fn lemma_metadata_left_out(
    children: Seq<TreeChild>,
    at: int,
    child: TreeChild,
    dir: Seq<char>,
    root: Seq<char>,
    patterns: Seq<Seq<char>>,
)
    requires
        0 <= at <= children.len(),
        child.name@ == ".git"@,
    ensures
        tree_entries(kept_children(children.insert(at, child), dir, root, patterns))
            == tree_entries(kept_children(children, dir, root, patterns)),
        tree_payload(kept_children(children.insert(at, child), dir, root, patterns))
            == tree_payload(kept_children(children, dir, root, patterns)),
        written_tree(children.insert(at, child), dir, root, patterns) == written_tree(
            children,
            dir,
            root,
            patterns,
        ),
    decreases children.len() - at,
{
    let with = children.insert(at, child);
    if at == children.len() {
        assert(with =~= children.push(child));
        assert(with.drop_last() =~= children);
        let kept = kept_children(children, dir, root, patterns);
        if !ignores(root, patterns, child_path(dir, child.name@)) {
            assert(kept.push(child).drop_last() =~= kept);
        }
    } else {
        let last = children.last();
        let front = children.drop_last();
        assert(with.last() == last);
        assert(with.drop_last() =~= front.insert(at, child));
        lemma_metadata_left_out(front, at, child, dir, root, patterns);
        if !ignores(root, patterns, child_path(dir, last.name@)) {
            let kept_with = kept_children(front.insert(at, child), dir, root, patterns);
            let kept = kept_children(front, dir, root, patterns);
            assert(kept_with.push(last).drop_last() =~= kept_with);
            assert(kept.push(last).drop_last() =~= kept);
        }
    }
}

impl Repository {
    /// A repository at `path`. `ignore_file` is the content of the file
    /// `.gitignore` at its root, `None` where there is none: each of its
    /// lines is a pattern.
    pub fn new(path: String, ignore_file: Option<&str>) -> (res: Repository)
        ensures
            res.path@ == path@,
            texts(res.ignore@) == match ignore_file {
                Some(content) => lines_from(content@, 0),
                None => Seq::<Seq<char>>::empty(),
            },
    {
        let mut repo = Repository { path, ignore: Vec::new() };
        assert(texts(repo.ignore@) =~= Seq::<Seq<char>>::empty());
        repo.load_ignore(ignore_file);
        repo
    }

    /// Takes the patterns from the content of `.gitignore`, one for each
    /// line. Without such a file the patterns stay as they are, and the
    /// answer is `false`.
    pub fn load_ignore(&mut self, ignore_file: Option<&str>) -> (res: bool)
        ensures
            final(self).path == old(self).path,
            res == ignore_file is Some,
            match ignore_file {
                Some(content) => texts(final(self).ignore@) == lines_from(content@, 0),
                None => final(self).ignore == old(self).ignore,
            },
    {
        match ignore_file {
            None => false,
            Some(content) => {
                self.ignore = split_lines(content);
                true
            },
        }
    }

    /// The path of what lies at `rest` under the root.
    pub fn under(&self, rest: &str) -> (res: String)
        ensures
            res@ == self.path@ + "/"@ + rest@,
    {
        let mut path = self.path.clone();
        path.append("/");
        path.append(rest);
        path
    }

    /// Moves the repository to `path` and says what to create there: the
    /// directories `.git`, `.git/objects` and `.git/refs`, and the file
    /// `.git/HEAD`, which names the branch `main`.
    pub fn init_repository(&mut self, path: &str) -> (res: InitPlan)
        ensures
            final(self).path@ == path@,
            final(self).ignore == old(self).ignore,
            res.path@ == path@,
            texts(res.dirs@) == seq![
                path@ + "/"@ + ".git"@,
                path@ + "/"@ + ".git/objects"@,
                path@ + "/"@ + ".git/refs"@,
            ],
            res.head_path@ == path@ + "/"@ + ".git/HEAD"@,
            res.head_content@ == "ref: refs/heads/main\n"@,
    {
        self.path = String::from_str(path);
        let mut dirs: Vec<String> = Vec::new();
        dirs.push(self.under(".git"));
        dirs.push(self.under(".git/objects"));
        dirs.push(self.under(".git/refs"));
        assert(texts(dirs@) =~= seq![
            path@ + "/"@ + ".git"@,
            path@ + "/"@ + ".git/objects"@,
            path@ + "/"@ + ".git/refs"@,
        ]);
        InitPlan {
            path: String::from_str(path),
            dirs,
            head_path: self.under(".git/HEAD"),
            head_content: String::from_str("ref: refs/heads/main\n"),
        }
    }

    /// The path of the file `HEAD`.
    pub fn head_path(&self) -> (res: String)
        ensures
            res@ == self.path@ + "/"@ + ".git/HEAD"@,
    {
        self.under(".git/HEAD")
    }

    /// The path of the staging index.
    pub fn index_path(&self) -> (res: String)
        ensures
            res@ == self.path@ + "/"@ + ".git/index"@,
    {
        self.under(".git/index")
    }

    /// The path of the directory that holds the packs.
    pub fn pack_dir(&self) -> (res: String)
        ensures
            res@ == self.path@ + "/"@ + ".git/objects/pack"@,
    {
        self.under(".git/objects/pack")
    }

    /// The directory and the file of the object whose id reads `object` in
    /// hexadecimal: the directory is named by the first two characters, the
    /// file by the others. Fails with `NotFound` on fewer than two
    /// characters.
    pub fn object_path(&self, object: &str) -> (res: Result<(String, String), RuntimeError>)
        ensures
            match res {
                Ok((dir, path)) => {
                    &&& object@.len() >= 2
                    &&& dir@ == self.path@ + "/"@ + ".git/objects/"@ + object@.take(2)
                    &&& path@ == dir@ + "/"@ + object@.skip(2)
                },
                Err(e) => e == RuntimeError::NotFound && object@.len() < 2,
            },
    {
        let count = object.unicode_len();
        if count < 2 {
            return Err(RuntimeError::NotFound);
        }
        let mut dir = self.under(".git/objects/");
        dir.append(object.substring_char(0, 2));
        let mut path = dir.clone();
        path.append("/");
        path.append(object.substring_char(2, count));
        proof {
            assert(object@.subrange(0, 2) =~= object@.take(2));
            assert(object@.subrange(2, count as int) =~= object@.skip(2));
        }
        Ok((dir, path))
    }

    /// Decodes the file of a stored object.
    pub fn read_object(&self, stored: &[u8]) -> (res: Result<Object, RuntimeError>)
        ensures
            match decode_object(stored@) {
                Ok(parts) => res matches Ok(object) && object@ == parts,
                Err(e) => res matches Err(f) && f == e,
            },
    {
        decode_stored(stored)
    }

    /// The directory and the file of the object `hash`.
    pub fn place_of(&self, hash: &[u8; 20]) -> (res: (String, String))
        ensures
            res.0@ == object_dir(self.path@, hash@),
            res.1@ == object_file(self.path@, hash@),
    {
        let hex = hex_string(hash.as_slice());
        let mut dir = self.under(".git/objects/");
        dir.append(hex.as_str().substring_char(0, 2));
        let mut path = dir.clone();
        path.append("/");
        path.append(hex.as_str().substring_char(2, 40));
        proof {
            assert(hex@.subrange(0, 2) =~= hex@.take(2));
            assert(hex@.subrange(2, 40) =~= hex@.skip(2));
        }
        (dir, path)
    }

    /// Puts an encoded object at its place.
    pub fn place(&self, object: LooseObject) -> (res: ObjectFile)
        ensures
            res.hash == object.hash,
            res.data == object.data,
            res.dir@ == object_dir(self.path@, object.hash@),
            res.path@ == object_file(self.path@, object.hash@),
    {
        let (dir, path) = self.place_of(&object.hash);
        ObjectFile { hash: object.hash, dir, path, data: object.data }
    }

    /// Encodes an object for the store and says where its file lies. The id
    /// is the SHA-1 digest of the frame; the file holds the frame as one
    /// zlib stream, which is decoded to the object again. Fails with
    /// `IoError` exactly where the compressor fails on the frame.
    pub fn write_object(&self, kind: Kind, content: &[u8]) -> (res: Result<ObjectFile, RuntimeError>)
        ensures
            match placed(self.path@, kind, content@) {
                Ok(made) => {
                    &&& res matches Ok(file) && file@ == made
                    &&& zlib_inflate(made.data) matches Some(r) && r.0 == frame(kind, content@)
                    &&& decode_object(made.data) == Ok::<(Kind, nat, Seq<u8>), RuntimeError>(
                        (stored_kind(kind), content@.len(), content@),
                    )
                },
                Err(e) => res matches Err(f) && f == e,
            },
    {
        match encode_object(kind, content) {
            Ok(object) => Ok(self.place(object)),
            Err(e) => Err(e),
        }
    }

    /// Encodes the content of a file as a blob, after making sure that the
    /// file lies inside the repository. `repo_path` and `file_path` are the
    /// canonical forms of the root and of the file; `file_path` is `None`
    /// where the file has none. Fails with `PathOutsideRepo` where the file
    /// does not lie under the root; inside the root it gives what writing
    /// the content as a plain blob gives.
    pub fn write_blob(&self, repo_path: &str, file_path: Option<&str>, content: &[u8]) -> (res:
        Result<ObjectFile, RuntimeError>)
        ensures
            match placed_blob(
                self.path@,
                repo_path@,
                match file_path {
                    Some(path) => Some(path@),
                    None => None,
                },
                content@,
            ) {
                Ok(made) => res matches Ok(file) && file@ == made,
                Err(e) => res matches Err(f) && f == e,
            },
    {
        if !is_path_in_repo(repo_path, file_path) {
            return Err(RuntimeError::PathOutsideRepo);
        }
        self.write_object(Kind::Blob(false), content)
    }

    /// Whether the repository leaves a path alone: whether one of its
    /// patterns matches the path.
    pub fn is_ignored(&self, path: &str) -> (res: bool)
        ensures
            res == ignores(self.path@, texts(self.ignore@), path@),
    {
        is_ignored_path(self.path.as_str(), &self.ignore, path)
    }

    /// Whether the child `name` of the directory `dir` stays out of the
    /// tree of `dir`: the directory `.git`, and what a pattern tells to
    /// leave alone.
    pub fn leaves_out(&self, dir: &str, name: &str) -> (res: bool)
        ensures
            res == (name@ == ".git"@ || ignores(
                self.path@,
                texts(self.ignore@),
                child_path(dir@, name@),
            )),
    {
        if is_left_out(name) {
            return true;
        }
        let mut path = String::from_str(dir);
        path.append("/");
        path.append(name);
        self.is_ignored(path.as_str())
    }

    /// The children of `dir` that no pattern tells to leave alone.
    pub fn keep_children(&self, dir: &str, children: &Vec<TreeChild>) -> (res: Vec<TreeChild>)
        ensures
            res@ == kept_children(children@, dir@, self.path@, texts(self.ignore@)),
    {
        let mut kept: Vec<TreeChild> = Vec::new();
        let mut i: usize = 0;
        let ghost root = self.path@;
        let ghost patterns = texts(self.ignore@);
        assert(kept@ =~= kept_children(children@.take(0), dir@, root, patterns));
        while i < children.len()
            invariant
                i <= children@.len(),
                root == self.path@,
                patterns == texts(self.ignore@),
                kept@ == kept_children(children@.take(i as int), dir@, root, patterns),
            decreases children@.len() - i,
        {
            let child = &children[i];
            proof {
                assert(children@.take(i + 1).drop_last() =~= children@.take(i as int));
                assert(children@.take(i + 1).last() == children@[i as int]);
            }
            let mut path = String::from_str(dir);
            path.append("/");
            path.append(child.name.as_str());
            if !self.is_ignored(path.as_str()) {
                let copy = TreeChild {
                    name: child.name.clone(),
                    is_dir: child.is_dir,
                    mode: child.mode,
                    hash: child.hash,
                };
                assert(copy == *child);
                kept.push(copy);
            }
            i += 1;
        }
        assert(children@.take(children@.len() as int) =~= children@);
        kept
    }

    /// Builds the tree of the directory `dir` from its children, whose own
    /// objects are stored already, and says where its file lies. The child
    /// `.git` and the children that a pattern tells to leave alone stay out
    /// of the tree; the others are written in ascending order of their
    /// names. Fails with `CorruptEntry` where two entries have one name or a
    /// name holds `/` or a zero byte, which does not happen with the
    /// children of a directory, and with `IoError` exactly where the
    /// compressor fails on the frame of the tree.
    pub fn write_tree(&self, dir: &str, children: &Vec<TreeChild>) -> (res: Result<
        ObjectFile,
        RuntimeError,
    >)
        ensures
            match written_tree(children@, dir@, self.path@, texts(self.ignore@)) {
                Ok(made) => res matches Ok(file) && file@ == made,
                Err(e) => res matches Err(f) && f == e,
            },
    {
        let kept = self.keep_children(dir, children);
        match build_tree(&kept) {
            Ok(object) => Ok(self.place(object)),
            Err(e) => Err(e),
        }
    }

    /// Lists the entries of a staging index, one line each: the id in
    /// hexadecimal, a space, and the path. Fails as reading the index fails.
    pub fn read_index(&self, data: &[u8]) -> (res: Result<Vec<u8>, RuntimeError>)
        ensures
            match parse_index_bytes(data@) {
                Ok(records) => res matches Ok(text) && text@ == record_lines(records),
                Err(e) => res matches Err(f) && f == e,
            },
    {
        match parse_index(data) {
            Ok(index) => Ok(list_index(&index)),
            Err(e) => Err(e),
        }
    }

    /// Writes a staging index that holds `entries`: sorts them by path, in
    /// place, and writes them in that order.
    pub fn write_index(&self, entries: &mut Vec<IndexEntry>) -> (res: Vec<u8>)
        requires
            old(entries)@.len() <= u32::MAX,
        ensures
            res@ == index_bytes(record_views(old(entries)@)),
            record_views(final(entries)@) == sort_records(record_views(old(entries)@)),
            sorted_records(record_views(final(entries)@)),
    {
        serialize_index(entries)
    }

    /// The packs among the files of the pack directory: for each file name
    /// of the form `pack-<id>.pack`, the id.
    pub fn dump_pack_files(&self, names: &Vec<String>) -> (res: Vec<String>)
        ensures
            texts(res@) == pack_ids(texts(names@)),
    {
        let mut ids: Vec<String> = Vec::new();
        let head = to_chars("pack-");
        let tail = to_chars(".pack");
        proof {
            reveal_strlit("pack-");
            reveal_strlit(".pack");
        }
        let mut i: usize = 0;
        assert(texts(names@).take(0) =~= Seq::<Seq<char>>::empty());
        assert(texts(ids@) =~= pack_ids(texts(names@).take(0)));
        while i < names.len()
            invariant
                i <= names@.len(),
                head@ == "pack-"@,
                tail@ == ".pack"@,
                head@.len() == 5,
                tail@.len() == 5,
                texts(ids@) == pack_ids(texts(names@).take(i as int)),
            decreases names@.len() - i,
        {
            let name = names[i].as_str();
            let chars = to_chars(name);
            proof {
                let all = texts(names@);
                assert(all.take(i + 1).drop_last() =~= all.take(i as int));
                assert(all.take(i + 1).last() == name@);
            }
            if chars.len() >= 10 && chars_at(&chars, 0, &head) && chars_at(
                &chars,
                chars.len() - 5,
                &tail,
            ) {
                let id = String::from_str(name.substring_char(5, chars.len() - 5));
                proof {
                    assert(texts(ids@.push(id)) =~= texts(ids@).push(id@));
                }
                ids.push(id);
            }
            i += 1;
        }
        assert(texts(names@).take(names@.len() as int) =~= texts(names@));
        ids
    }

    /// The path of the pack `pack_id`.
    pub fn dump_pack_file(&self, pack_id: &str) -> (res: String)
        ensures
            res@ == self.path@ + "/"@ + ".git/objects/pack/pack-"@ + pack_id@ + ".pack"@,
    {
        let mut path = self.under(".git/objects/pack/pack-");
        path.append(pack_id);
        path.append(".pack");
        path
    }

    /// The path of the index of the pack `pack_id`.
    pub fn pack_index_path(&self, pack_id: &str) -> (res: String)
        ensures
            res@ == self.path@ + "/"@ + ".git/objects/pack/pack-"@ + pack_id@ + ".idx"@,
    {
        let mut path = self.under(".git/objects/pack/pack-");
        path.append(pack_id);
        path.append(".idx");
        path
    }

    /// Lists the objects of a pack, one line each, after checking its head
    /// and the digest at its end.
    pub fn dump_pack(&self, data: &[u8]) -> (res: Result<Vec<u8>, RuntimeError>)
        ensures
            match dump_pack_text(data@) {
                Ok(text) => res matches Ok(out) && out@ == text,
                Err(e) => res matches Err(f) && f == e,
            },
    {
        dump_pack(data)
    }

    /// Lists the entries of a pack index, one line each.
    pub fn dump_pack_index_file(&self, data: &[u8]) -> (res: Result<Vec<u8>, RuntimeError>)
        ensures
            match dump_idx_text(data@) {
                Ok(text) => res matches Ok(out) && out@ == text,
                Err(e) => res matches Err(f) && f == e,
            },
    {
        dump_pack_index(data)
    }
}

} // verus!
