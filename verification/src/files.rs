use vstd::prelude::*;
use vstd::string::StrSliceExecFns;
use vstd::string::StringExecFns;
use vstd::utf8::encode_utf8;
use crate::order::{bytes_lt, lemma_lex_total, lex_lt};
use crate::repository::texts;
use crate::text::{chars_at, stands_at, to_chars};
use crate::tree::lemma_not_after;

verus! {

/// Whether the last names of the path `file` are the pattern: `file` ends
/// with `pattern`, and what stands before it, if anything, ends with `/`.
pub open spec fn ends_with_names(file: Seq<char>, pattern: Seq<char>) -> bool {
    stands_at(file, file.len() - pattern.len(), pattern) && (file.len() == pattern.len()
        || file[file.len() - pattern.len() - 1] == '/')
}

/// Whether a pattern tells to leave a file alone: the last names of its
/// path are the pattern, or its path below the root starts with the
/// pattern. An empty pattern matches every path.
pub open spec fn pattern_matches(file: Seq<char>, below: Seq<char>, pattern: Seq<char>) -> bool {
    ends_with_names(file, pattern) || stands_at(below, 0, pattern)
}

/// Whether one of the patterns tells to leave a file alone.
pub open spec fn is_ignored(file: Seq<char>, below: Seq<char>, patterns: Seq<Seq<char>>) -> bool {
    exists|i: int| 0 <= i < patterns.len() && pattern_matches(file, below, #[trigger] patterns[i])
}

/// The part of a path below the root: what follows the root where the path
/// starts with it, and the whole path otherwise.
pub open spec fn below_root(path: Seq<char>, root: Seq<char>) -> Seq<char> {
    if stands_at(path, 0, root) {
        path.skip(root.len() as int)
    } else {
        path
    }
}

/// Whether a repository at `root` with these patterns leaves a path alone.
pub open spec fn ignores(root: Seq<char>, patterns: Seq<Seq<char>>, path: Seq<char>) -> bool {
    is_ignored(path, below_root(path, root), patterns)
}

/// A path without the `/` at its start, if there is one.
pub open spec fn without_slash(path: Seq<char>) -> Seq<char> {
    if path.len() > 0 && path[0] == '/' {
        path.skip(1)
    } else {
        path
    }
}

/// Whether a path below the root lies in the directory `.git`, which holds
/// the repository itself.
pub open spec fn in_metadata(listed: Seq<char>) -> bool {
    listed == ".git"@ || stands_at(listed, 0, ".git/"@)
}

/// The path under which a file is listed: its path below `root`, without
/// the `/` at its start. `None` for a file that does not lie below `root`,
/// that a pattern tells to leave alone, or that lies in `.git`.
pub open spec fn listed_as(file: Seq<char>, root: Seq<char>, patterns: Seq<Seq<char>>) -> Option<
    Seq<char>,
> {
    if stands_at(file, 0, root) && !is_ignored(file, file.skip(root.len() as int), patterns)
        && !in_metadata(without_slash(file.skip(root.len() as int))) {
        Some(without_slash(file.skip(root.len() as int)))
    } else {
        None
    }
}

/// The paths under which `files` are listed, in their order.
pub open spec fn listed(files: Seq<Seq<char>>, root: Seq<char>, patterns: Seq<Seq<char>>) -> Seq<
    Seq<char>,
>
    decreases files.len(),
{
    if files.len() == 0 {
        Seq::empty()
    } else {
        match listed_as(files.last(), root, patterns) {
            Some(path) => listed(files.drop_last(), root, patterns).push(path),
            None => listed(files.drop_last(), root, patterns),
        }
    }
}

/// `sorted` with `path` put in behind the last path that does not come
/// after it.
pub open spec fn insert_path(sorted: Seq<Seq<char>>, path: Seq<char>) -> Seq<Seq<char>>
    decreases sorted.len(),
{
    if sorted.len() == 0 || !lex_lt(encode_utf8(path), encode_utf8(sorted.last())) {
        sorted.push(path)
    } else {
        insert_path(sorted.drop_last(), path).push(sorted.last())
    }
}

/// The paths in ascending order of their bytes.
pub open spec fn sort_paths(paths: Seq<Seq<char>>) -> Seq<Seq<char>>
    decreases paths.len(),
{
    if paths.len() == 0 {
        paths
    } else {
        insert_path(sort_paths(paths.drop_last()), paths.last())
    }
}

/// Putting `path` in lands at `j` where every path from `j` on comes after
/// it and the path before `j` does not.
pub proof fn lemma_insert_path_at(sorted: Seq<Seq<char>>, path: Seq<char>, j: int)
    requires
        0 <= j <= sorted.len(),
        forall|k: int|
            j <= k < sorted.len() ==> lex_lt(encode_utf8(path), encode_utf8(#[trigger] sorted[k])),
        j > 0 ==> !lex_lt(encode_utf8(path), encode_utf8(sorted[j - 1])),
    ensures
        insert_path(sorted, path) == sorted.insert(j, path),
    decreases sorted.len() - j,
{
    if j == sorted.len() {
        assert(sorted.insert(j, path) =~= sorted.push(path));
    } else {
        let front = sorted.drop_last();
        assert forall|k: int| j <= k < front.len() implies lex_lt(
            encode_utf8(path),
            encode_utf8(#[trigger] front[k]),
        ) by {
            assert(front[k] == sorted[k]);
        }
        lemma_insert_path_at(front, path, j);
        assert(front.insert(j, path).push(sorted.last()) =~= sorted.insert(j, path));
    }
}

/// Whether no path comes before one with smaller bytes.
pub open spec fn sorted_paths(paths: Seq<Seq<char>>) -> bool {
    forall|i: int, j: int|
        0 <= i < j < paths.len() ==> !lex_lt(
            encode_utf8(#[trigger] paths[j]),
            encode_utf8(#[trigger] paths[i]),
        )
}

/// Putting a path into sorted paths leaves them sorted, and adds that path
/// and nothing else.
pub proof fn lemma_insert_path(sorted: Seq<Seq<char>>, path: Seq<char>)
    requires
        sorted_paths(sorted),
    ensures
        sorted_paths(insert_path(sorted, path)),
        insert_path(sorted, path).to_multiset() == sorted.to_multiset().insert(path),
    decreases sorted.len(),
{
    sorted.to_multiset_ensures();
    let key = encode_utf8(path);
    if sorted.len() == 0 || !lex_lt(key, encode_utf8(sorted.last())) {
        let r = sorted.push(path);
        assert forall|i: int, j: int| 0 <= i < j < r.len() implies !lex_lt(
            encode_utf8(#[trigger] r[j]),
            encode_utf8(#[trigger] r[i]),
        ) by {
            if j == sorted.len() {
                let last = sorted.last();
                if i < sorted.len() - 1 {
                    assert(!lex_lt(encode_utf8(sorted[sorted.len() - 1]), encode_utf8(sorted[i])));
                } else {
                    lemma_lex_total(encode_utf8(last), encode_utf8(last), 0);
                }
                lemma_not_after(encode_utf8(sorted[i]), encode_utf8(last), key);
            } else {
                assert(r[j] == sorted[j] && r[i] == sorted[i]);
            }
        }
    } else {
        let front = sorted.drop_last();
        let last = sorted.last();
        assert forall|i: int, j: int| 0 <= i < j < front.len() implies !lex_lt(
            encode_utf8(#[trigger] front[j]),
            encode_utf8(#[trigger] front[i]),
        ) by {
            assert(front[j] == sorted[j] && front[i] == sorted[i]);
        }
        lemma_insert_path(front, path);
        let mid = insert_path(front, path);
        let r = mid.push(last);
        mid.to_multiset_ensures();
        front.to_multiset_ensures();
        assert(front.push(last) =~= sorted);
        assert(r.to_multiset() =~= sorted.to_multiset().insert(path));
        assert forall|i: int, j: int| 0 <= i < j < r.len() implies !lex_lt(
            encode_utf8(#[trigger] r[j]),
            encode_utf8(#[trigger] r[i]),
        ) by {
            if j == mid.len() {
                let x = mid[i];
                assert(mid.contains(x));
                assert(mid.to_multiset().count(x) > 0);
                if x == path {
                    lemma_lex_total(key, encode_utf8(last), 0);
                } else {
                    assert(front.to_multiset().count(x) > 0);
                    assert(front.contains(x));
                    let k = choose|k: int| 0 <= k < front.len() && front[k] == x;
                    assert(sorted[k] == x);
                    assert(!lex_lt(encode_utf8(sorted[sorted.len() - 1]), encode_utf8(sorted[k])));
                }
            } else {
                assert(r[j] == mid[j] && r[i] == mid[i]);
            }
        }
    }
}

/// Sorted paths are in ascending order of their bytes, and are the paths
/// that were given, each as often as it was given.
pub proof fn lemma_sort_paths(paths: Seq<Seq<char>>)
    ensures
        sorted_paths(sort_paths(paths)),
        sort_paths(paths).to_multiset() == paths.to_multiset(),
        sort_paths(paths).len() == paths.len(),
    decreases paths.len(),
{
    paths.to_multiset_ensures();
    sort_paths(paths).to_multiset_ensures();
    if paths.len() > 0 {
        let front = paths.drop_last();
        lemma_sort_paths(front);
        lemma_insert_path(sort_paths(front), paths.last());
        front.to_multiset_ensures();
        assert(front.push(paths.last()) =~= paths);
    }
}

/// Whether one of the patterns tells to leave a file alone.
pub fn matches_any(file: &Vec<char>, below: &Vec<char>, patterns: &Vec<Vec<char>>) -> (res: bool)
    ensures
        res == exists|i: int|
            0 <= i < patterns@.len() && pattern_matches(file@, below@, (#[trigger] patterns@[i])@),
{
    let mut i: usize = 0;
    while i < patterns.len()
        invariant
            i <= patterns@.len(),
            forall|k: int| 0 <= k < i ==> !pattern_matches(file@, below@, (#[trigger] patterns@[k])@),
        decreases patterns@.len() - i,
    {
        let pattern = &patterns[i];
        if chars_at(below, 0, pattern) {
            return true;
        }
        if pattern.len() <= file.len() && chars_at(file, file.len() - pattern.len(), pattern) {
            if file.len() == pattern.len() || file[file.len() - pattern.len() - 1] == '/' {
                return true;
            }
        }
        i += 1;
    }
    false
}

/// Whether a repository at `root` with the patterns `ignore_list` leaves a
/// path alone.
pub fn is_ignored_path(root: &str, ignore_list: &Vec<String>, path: &str) -> (res: bool)
    ensures
        res == ignores(root@, texts(ignore_list@), path@),
{
    let root_chars = to_chars(root);
    let chars = to_chars(path);
    let below = if chars_at(&chars, 0, &root_chars) {
        let rest = to_chars(path.substring_char(root_chars.len(), chars.len()));
        assert(rest@ =~= path@.skip(root@.len() as int));
        rest
    } else {
        to_chars(path)
    };
    let patterns = pattern_chars(ignore_list);
    let found = matches_any(&chars, &below, &patterns);
    proof {
        let wanted = texts(ignore_list@);
        if found {
            let k = choose|k: int|
                0 <= k < patterns@.len() && pattern_matches(
                    chars@,
                    below@,
                    (#[trigger] patterns@[k])@,
                );
            assert(wanted[k] == patterns@[k]@);
            assert(pattern_matches(path@, below@, wanted[k]));
        } else {
            assert forall|k: int| 0 <= k < wanted.len() implies !pattern_matches(
                path@,
                below@,
                #[trigger] wanted[k],
            ) by {
                assert(wanted[k] == patterns@[k]@);
            }
        }
    }
    found
}

/// Sorts paths in ascending order of their bytes, in place.
pub fn sort_strings(paths: &mut Vec<String>)
    ensures
        texts(final(paths)@) == sort_paths(texts(old(paths)@)),
        sorted_paths(texts(final(paths)@)),
        texts(final(paths)@).to_multiset() == texts(old(paths)@).to_multiset(),
{
    proof {
        lemma_sort_paths(texts(paths@));
    }
    let ghost orig = texts(paths@);
    let n = paths.len();
    let mut i: usize = 0;
    assert(orig.take(0) =~= Seq::<Seq<char>>::empty());
    assert(texts(paths@).take(0) =~= orig.take(0));
    assert(texts(paths@).skip(0) =~= orig.skip(0));
    while i < n
        invariant
            i <= n,
            n == paths@.len(),
            n == orig.len(),
            texts(paths@).take(i as int) == sort_paths(orig.take(i as int)),
            texts(paths@).skip(i as int) == orig.skip(i as int),
        decreases n - i,
    {
        let ghost before = texts(paths@);
        assert(before[i as int] == orig[i as int]) by {
            assert(before.skip(i as int)[0] == orig.skip(i as int)[0]);
        }
        proof {
            assert(orig.take(i + 1).drop_last() =~= orig.take(i as int));
            assert(orig.take(i + 1).last() == orig[i as int]);
        }
        let in_place = i == 0 || !bytes_lt(
            paths[i].as_str().as_bytes(),
            paths[i - 1].as_str().as_bytes(),
        );
        if in_place {
            // the path stays where it is
            proof {
                let prefix = before.take(i as int);
                if i > 0 {
                    assert(prefix.last() == before[i - 1]);
                }
                assert(before.take(i + 1) =~= prefix.push(before[i as int]));
                assert(before.skip(i + 1) =~= before.skip(i as int).skip(1));
                assert(orig.skip(i + 1) =~= orig.skip(i as int).skip(1));
            }
        } else {
            let path = paths.remove(i);
            let ghost without = texts(paths@);
            assert(without =~= before.remove(i as int));
            let mut j: usize = i;
            while j > 0 && bytes_lt(path.as_str().as_bytes(), paths[j - 1].as_str().as_bytes())
                invariant
                    j <= i,
                    i <= paths@.len(),
                    without == texts(paths@),
                    forall|k: int|
                        j <= k < i ==> lex_lt(
                            encode_utf8(path@),
                            encode_utf8(#[trigger] without[k]),
                        ),
                decreases j,
            {
                j -= 1;
            }
            paths.insert(j, path);
            proof {
                let prefix = before.take(i as int);
                let after = texts(paths@);
                assert(after =~= without.insert(j as int, path@));
                assert(after.take(i + 1) =~= prefix.insert(j as int, path@));
                assert forall|k: int| j <= k < prefix.len() implies lex_lt(
                    encode_utf8(path@),
                    encode_utf8(#[trigger] prefix[k]),
                ) by {
                    assert(prefix[k] == without[k]);
                }
                if j > 0 {
                    assert(prefix[j - 1] == without[j - 1]);
                }
                lemma_insert_path_at(prefix, path@, j as int);
                assert(after.skip(i + 1) =~= before.skip(i as int).skip(1));
                assert(orig.skip(i + 1) =~= orig.skip(i as int).skip(1));
            }
        }
        i += 1;
    }
    assert(texts(paths@).take(n as int) =~= texts(paths@));
    assert(orig.take(n as int) =~= orig);
}

/// The characters of each pattern.
pub fn pattern_chars(patterns: &Vec<String>) -> (res: Vec<Vec<char>>)
    ensures
        res@.len() == patterns@.len(),
        forall|i: int| 0 <= i < res@.len() ==> (#[trigger] res@[i])@ == patterns@[i]@,
{
    let mut out: Vec<Vec<char>> = Vec::new();
    let mut i: usize = 0;
    while i < patterns.len()
        invariant
            i <= patterns@.len(),
            out@.len() == i,
            forall|k: int| 0 <= k < i ==> (#[trigger] out@[k])@ == patterns@[k]@,
        decreases patterns@.len() - i,
    {
        out.push(to_chars(patterns[i].as_str()));
        i += 1;
    }
    out
}

/// Whether a path below the root lies in the directory `.git`.
pub fn is_in_metadata(listed: &Vec<char>) -> (res: bool)
    ensures
        res == in_metadata(listed@),
{
    let name = to_chars(".git");
    let dir = to_chars(".git/");
    if chars_at(listed, 0, &dir) {
        return true;
    }
    let same = listed.len() == name.len() && chars_at(listed, 0, &name);
    proof {
        if same {
            assert(listed@.subrange(0, listed@.len() as int) =~= listed@);
        }
        if listed@ == ".git"@ {
            assert(listed@.subrange(0, listed@.len() as int) =~= listed@);
        }
    }
    same
}

/// Lists the files of a working tree for the staging index: of the paths
/// `files`, those that lie below `path`, but not in `.git`, and that no
/// pattern of `ignore_list` tells to leave alone, each as its path below
/// `path`, in ascending order.
pub fn list_all_files(path: &str, files: &Vec<String>, ignore_list: &Vec<String>) -> (res: Vec<
    String,
>)
    ensures
        texts(res@) == sort_paths(listed(texts(files@), path@, texts(ignore_list@))),
        sorted_paths(texts(res@)),
        texts(res@).to_multiset() == listed(texts(files@), path@, texts(ignore_list@)).to_multiset(),
{
    let root = to_chars(path);
    let patterns = pattern_chars(ignore_list);
    let ghost all = texts(files@);
    let ghost wanted = texts(ignore_list@);
    let mut kept: Vec<String> = Vec::new();
    let mut i: usize = 0;
    assert(texts(kept@) =~= listed(all.take(0), path@, wanted));
    while i < files.len()
        invariant
            i <= files@.len(),
            root@ == path@,
            all == texts(files@),
            wanted == texts(ignore_list@),
            patterns@.len() == ignore_list@.len(),
            forall|k: int| 0 <= k < patterns@.len() ==> (#[trigger] patterns@[k])@ == ignore_list@[k]@,
            texts(kept@) == listed(all.take(i as int), path@, wanted),
        decreases files@.len() - i,
    {
        let file = files[i].as_str();
        let chars = to_chars(file);
        proof {
            assert(all.take(i + 1).drop_last() =~= all.take(i as int));
            assert(all.take(i + 1).last() == file@);
        }
        if chars_at(&chars, 0, &root) {
            let below_text = file.substring_char(root.len(), chars.len());
            let below = to_chars(below_text);
            assert(below@ =~= file@.skip(root@.len() as int));
            let ignored = matches_any(&chars, &below, &patterns);
            proof {
                if ignored {
                    let k = choose|k: int|
                        0 <= k < patterns@.len() && pattern_matches(
                            chars@,
                            below@,
                            (#[trigger] patterns@[k])@,
                        );
                    assert(wanted[k] == patterns@[k]@);
                    assert(pattern_matches(file@, below@, wanted[k]));
                } else {
                    assert forall|k: int| 0 <= k < wanted.len() implies !pattern_matches(
                        file@,
                        below@,
                        #[trigger] wanted[k],
                    ) by {
                        assert(wanted[k] == patterns@[k]@);
                    }
                }
            }
            if !ignored {
                let start: usize = if below.len() > 0 && below[0] == '/' { 1 } else { 0 };
                let listed_text = below_text.substring_char(start, below.len());
                assert(listed_text@ =~= without_slash(below@));
                if !is_in_metadata(&to_chars(listed_text)) {
                    let listed_path = String::from_str(listed_text);
                    proof {
                        assert(texts(kept@.push(listed_path)) =~= texts(kept@).push(listed_path@));
                    }
                    kept.push(listed_path);
                }
            }
        }
        i += 1;
    }
    assert(all.take(files@.len() as int) =~= all);
    sort_strings(&mut kept);
    kept
}

} // verus!
