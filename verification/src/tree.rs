use vstd::multiset::Multiset;
use vstd::prelude::*;
use vstd::string::StringExecFns;
use vstd::utf8::{decode_utf8, decode_utf8_encode_utf8, encode_utf8, valid_utf8};
use crate::bytes::lemma_index_of_is;
use crate::error::RuntimeError;
use crate::kind::{kind_of_mode, Kind};
use crate::object::{
    encode_object, encoded, entries_then, entry_views, object_id_of, parse_tree,
    parse_tree_entry, Encoded, LooseObject, TreeEntry, TreeObject,
};
use crate::order::{bytes_lt, lemma_lex_total, lemma_lex_transitive, lex_lt};
use crate::text::{lemma_ascii, str_eq};

verus! {

/// `sorted` with `e` put in behind the last entry whose name does not come
/// after the name of `e`.
pub open spec fn insert_sorted(sorted: Seq<TreeEntry>, e: TreeEntry) -> Seq<TreeEntry>
    decreases sorted.len(),
{
    if sorted.len() == 0 || !lex_lt(e.name, sorted.last().name) {
        sorted.push(e)
    } else {
        insert_sorted(sorted.drop_last(), e).push(sorted.last())
    }
}

/// The entries in ascending order of their names, as byte strings. Entries
/// of one name keep the order in which they came.
pub open spec fn sort_entries(entries: Seq<TreeEntry>) -> Seq<TreeEntry>
    decreases entries.len(),
{
    if entries.len() == 0 {
        entries
    } else {
        insert_sorted(sort_entries(entries.drop_last()), entries.last())
    }
}

/// Whether no entry comes before one with a smaller name.
pub open spec fn sorted_by_name(entries: Seq<TreeEntry>) -> bool {
    forall|i: int, j: int|
        0 <= i < j < entries.len() ==> !lex_lt(
            (#[trigger] entries[j]).name,
            (#[trigger] entries[i]).name,
        )
}

/// Putting `e` in lands at `j` where every entry from `j` on has a name
/// after that of `e` and the entry before `j` has not.
pub proof fn lemma_insert_at(sorted: Seq<TreeEntry>, e: TreeEntry, j: int)
    requires
        0 <= j <= sorted.len(),
        forall|k: int| j <= k < sorted.len() ==> lex_lt(e.name, (#[trigger] sorted[k]).name),
        j > 0 ==> !lex_lt(e.name, sorted[j - 1].name),
    ensures
        insert_sorted(sorted, e) == sorted.insert(j, e),
    decreases sorted.len() - j,
{
    if j == sorted.len() {
        assert(sorted.insert(j, e) =~= sorted.push(e));
    } else {
        let front = sorted.drop_last();
        assert forall|k: int| j <= k < front.len() implies lex_lt(
            e.name,
            (#[trigger] front[k]).name,
        ) by {
            assert(front[k] == sorted[k]);
        }
        lemma_insert_at(front, e, j);
        assert(front.insert(j, e).push(sorted.last()) =~= sorted.insert(j, e));
    }
}

/// Sorts the entries by name, in place.
pub fn sort_by_name(entries: &mut Vec<TreeObject>)
    ensures
        entry_views(final(entries)@) == sort_entries(entry_views(old(entries)@)),
        sorted_by_name(entry_views(final(entries)@)),
        entry_views(final(entries)@).to_multiset() == entry_views(old(entries)@).to_multiset(),
{
    proof {
        lemma_sort_entries(entry_views(entries@));
    }
    let ghost orig = entry_views(entries@);
    let n = entries.len();
    let mut i: usize = 0;
    assert(orig.take(0) =~= Seq::<TreeEntry>::empty());
    assert(entry_views(entries@).take(0) =~= orig.take(0));
    assert(entry_views(entries@).skip(0) =~= orig.skip(0));
    while i < n
        invariant
            i <= n,
            n == entries@.len(),
            n == orig.len(),
            entry_views(entries@).take(i as int) == sort_entries(orig.take(i as int)),
            entry_views(entries@).skip(i as int) == orig.skip(i as int),
        decreases n - i,
    {
        let ghost before = entry_views(entries@);
        assert(before[i as int] == orig[i as int]) by {
            assert(before.skip(i as int)[0] == orig.skip(i as int)[0]);
        }
        proof {
            assert(orig.take(i + 1).drop_last() =~= orig.take(i as int));
            assert(orig.take(i + 1).last() == orig[i as int]);
        }
        let in_place = i == 0 || !bytes_lt(
            entries[i].name.as_str().as_bytes(),
            entries[i - 1].name.as_str().as_bytes(),
        );
        if in_place {
            // the entry stays where it is
            proof {
                let prefix = before.take(i as int);
                if i > 0 {
                    assert(prefix.last() == before[i - 1]);
                }
                assert(before.take(i + 1) =~= prefix.push(before[i as int]));
                assert(before.skip(i + 1) =~= before.skip(i as int).skip(1));
                assert(orig.skip(i + 1) =~= orig.skip(i as int).skip(1));
            }
        } else {
            let e = entries.remove(i);
            let ghost without = entry_views(entries@);
            assert(without =~= before.remove(i as int));
            let mut j: usize = i;
            while j > 0 && bytes_lt(
                e.name.as_str().as_bytes(),
                entries[j - 1].name.as_str().as_bytes(),
            )
                invariant
                    j <= i,
                    i <= entries@.len(),
                    without == entry_views(entries@),
                    forall|k: int| j <= k < i ==> lex_lt(e@.name, (#[trigger] without[k]).name),
                decreases j,
            {
                j -= 1;
            }
            entries.insert(j, e);
            proof {
                let prefix = before.take(i as int);
                let after = entry_views(entries@);
                assert(after =~= without.insert(j as int, e@));
                assert(after.take(i + 1) =~= prefix.insert(j as int, e@));
                assert forall|k: int| j <= k < prefix.len() implies lex_lt(
                    e@.name,
                    (#[trigger] prefix[k]).name,
                ) by {
                    assert(prefix[k] == without[k]);
                }
                if j > 0 {
                    assert(prefix[j - 1] == without[j - 1]);
                }
                lemma_insert_at(prefix, e@, j as int);
                assert(after.skip(i + 1) =~= before.skip(i as int).skip(1));
                assert(orig.skip(i + 1) =~= orig.skip(i as int).skip(1));
            }
        }
        i += 1;
    }
    assert(entry_views(entries@).take(n as int) =~= entry_views(entries@));
    assert(orig.take(n as int) =~= orig);
}

/// The bytes of one entry in a tree payload: mode, a space, the name, a zero
/// byte, and the id.
pub open spec fn entry_bytes(e: TreeEntry) -> Seq<u8> {
    e.mode + seq![0x20u8] + e.name + seq![0u8] + e.hash
}

/// The payload of a tree that holds `entries` in this order.
pub open spec fn tree_bytes(entries: Seq<TreeEntry>) -> Seq<u8>
    decreases entries.len(),
{
    if entries.len() == 0 {
        Seq::empty()
    } else {
        tree_bytes(entries.drop_last()) + entry_bytes(entries.last())
    }
}

/// Writes out the payload of a tree that holds `entries` in this order.
pub fn serialize_tree(entries: &Vec<TreeObject>) -> (res: Vec<u8>)
    ensures
        res@ == tree_bytes(entry_views(entries@)),
{
    let ghost views = entry_views(entries@);
    let mut out: Vec<u8> = Vec::new();
    let mut i: usize = 0;
    while i < entries.len()
        invariant
            i <= entries@.len(),
            views == entry_views(entries@),
            out@ == tree_bytes(views.take(i as int)),
        decreases entries@.len() - i,
    {
        let entry = &entries[i];
        let ghost start = out@;
        out.extend_from_slice(entry.mode.as_str().as_bytes());
        out.push(0x20);
        out.extend_from_slice(entry.name.as_str().as_bytes());
        out.push(0);
        out.extend_from_slice(entry.hash.as_slice());
        proof {
            assert(views.take(i + 1).drop_last() =~= views.take(i as int));
            assert(views.take(i + 1).last() == entry@);
            assert(out@ =~= start + entry_bytes(entry@));
        }
        i += 1;
    }
    assert(views.take(entries@.len() as int) =~= views);
    out
}

/// A child of a directory, as the builder of a tree needs it: its name,
/// whether it is a directory, its permission bits, and the id under which
/// its content (a blob, or the tree of the subdirectory) is stored.
#[derive(Debug)]
pub struct TreeChild {
    pub name: String,
    pub is_dir: bool,
    pub mode: u32,
    pub hash: [u8; 20],
}

/// The kind of a child: a tree for a directory; a blob for a file, with the
/// flag set where any of the three execute bits is set.
pub open spec fn child_kind(is_dir: bool, mode: u32) -> Kind {
    if is_dir {
        Kind::Tree
    } else {
        Kind::Blob(mode & 0o111 != 0)
    }
}

/// The tree entry of a child.
pub open spec fn child_entry(child: TreeChild) -> TreeEntry {
    let kind = child_kind(child.is_dir, child.mode);
    TreeEntry {
        mode: encode_utf8(kind.mode_text()),
        kind,
        name: encode_utf8(child.name@),
        hash: child.hash@,
    }
}

/// The entries of the children of a directory, in their order, without the
/// child named `.git`.
pub open spec fn tree_entries(children: Seq<TreeChild>) -> Seq<TreeEntry>
    decreases children.len(),
{
    if children.len() == 0 {
        Seq::empty()
    } else if children.last().name@ == ".git"@ {
        tree_entries(children.drop_last())
    } else {
        tree_entries(children.drop_last()).push(child_entry(children.last()))
    }
}

/// The payload of the tree of a directory with these children: their
/// entries, sorted by name.
pub open spec fn tree_payload(children: Seq<TreeChild>) -> Seq<u8> {
    tree_bytes(sort_entries(tree_entries(children)))
}

/// Whether a child of this name is left out of a tree: the directory
/// `.git`, which holds the repository itself.
pub fn is_left_out(name: &str) -> (res: bool)
    ensures
        res == (name@ == ".git"@),
{
    str_eq(name, ".git")
}

/// Makes the entries of the children of a directory, leaving out `.git`.
pub fn entries_of_children(children: &Vec<TreeChild>) -> (res: Vec<TreeObject>)
    ensures
        entry_views(res@) == tree_entries(children@),
{
    let mut entries: Vec<TreeObject> = Vec::new();
    let mut i: usize = 0;
    assert(entry_views(entries@) =~= tree_entries(children@.take(0)));
    while i < children.len()
        invariant
            i <= children@.len(),
            entry_views(entries@) == tree_entries(children@.take(i as int)),
        decreases children@.len() - i,
    {
        let child = &children[i];
        proof {
            assert(children@.take(i + 1).drop_last() =~= children@.take(i as int));
            assert(children@.take(i + 1).last() == children@[i as int]);
        }
        if !is_left_out(child.name.as_str()) {
            let kind = if child.is_dir {
                Kind::Tree
            } else {
                Kind::Blob(child.mode & 0o111 != 0)
            };
            let entry = TreeObject {
                mode: String::from_str(kind.to_mode()),
                kind,
                name: child.name.clone(),
                hash: child.hash,
            };
            proof {
                assert(entry@ == child_entry(*child));
                assert(entry_views(entries@.push(entry)) =~= entry_views(entries@).push(entry@));
            }
            entries.push(entry);
        }
        i += 1;
    }
    assert(children@.take(children@.len() as int) =~= children@);
    entries
}

/// Whether a name can stand in a tree: it holds no `/` and no zero byte.
pub open spec fn plain_name(name: Seq<u8>) -> bool {
    forall|i: int| 0 <= i < name.len() ==> name[i] != 0 && name[i] != 0x2f
}

/// Whether each entry comes before all that follow it: the names ascend,
/// and no name occurs twice.
pub open spec fn strictly_sorted(entries: Seq<TreeEntry>) -> bool {
    forall|i: int, j: int|
        0 <= i < j < entries.len() ==> lex_lt(
            (#[trigger] entries[i]).name,
            (#[trigger] entries[j]).name,
        )
}

/// Whether entries in this order make a tree: the names ascend, no name
/// occurs twice, and no name holds `/` or a zero byte.
pub open spec fn valid_tree(entries: Seq<TreeEntry>) -> bool {
    strictly_sorted(entries) && forall|i: int|
        0 <= i < entries.len() ==> plain_name((#[trigger] entries[i]).name)
}

/// The tree object of a directory with these children: their entries,
/// without `.git`, sorted by name, encoded as a tree. Fails with
/// `CorruptEntry` where two entries have one name or a name holds `/` or a
/// zero byte, and otherwise as encoding the tree fails.
pub open spec fn built_tree(children: Seq<TreeChild>) -> Result<Encoded, RuntimeError> {
    if valid_tree(sort_entries(tree_entries(children))) {
        encoded(Kind::Tree, tree_payload(children))
    } else {
        Err(RuntimeError::CorruptEntry)
    }
}

/// Whether a name holds no `/` and no zero byte.
pub fn is_plain_name(name: &[u8]) -> (res: bool)
    ensures
        res == plain_name(name@),
{
    let mut i: usize = 0;
    while i < name.len()
        invariant
            i <= name@.len(),
            forall|k: int| 0 <= k < i ==> name@[k] != 0 && name@[k] != 0x2f,
        decreases name@.len() - i,
    {
        if name[i] == 0 || name[i] == 0x2f {
            return false;
        }
        i += 1;
    }
    true
}

/// Whether entries in this order make a tree.
pub fn is_valid_tree(entries: &Vec<TreeObject>) -> (res: bool)
    ensures
        res == valid_tree(entry_views(entries@)),
{
    let ghost views = entry_views(entries@);
    let mut i: usize = 0;
    while i < entries.len()
        invariant
            i <= entries@.len(),
            views == entry_views(entries@),
            forall|k: int| 0 <= k < i ==> plain_name((#[trigger] views[k]).name),
            forall|a: int, b: int|
                0 <= a < b < i ==> lex_lt((#[trigger] views[a]).name, (#[trigger] views[b]).name),
        decreases entries@.len() - i,
    {
        assert(views[i as int] == entries@[i as int]@);
        if !is_plain_name(entries[i].name.as_str().as_bytes()) {
            return false;
        }
        if i > 0 {
            assert(views[i - 1] == entries@[i - 1]@);
            if !bytes_lt(
                entries[i - 1].name.as_str().as_bytes(),
                entries[i].name.as_str().as_bytes(),
            ) {
                return false;
            }
            proof {
                assert forall|a: int| 0 <= a < i implies lex_lt(
                    (#[trigger] views[a]).name,
                    views[i as int].name,
                ) by {
                    if a < i - 1 {
                        assert(lex_lt(views[a].name, views[i - 1].name));
                        lemma_lex_transitive(
                            views[a].name,
                            views[i - 1].name,
                            views[i as int].name,
                            0,
                        );
                    }
                }
            }
        }
        i += 1;
    }
    true
}

/// Builds the tree object of one directory from its children, whose own
/// objects are stored already: leaves out `.git`, sorts the entries by
/// name, makes sure that they make a tree, writes the payload and encodes
/// it as a tree. Fails with `CorruptEntry` where two entries have one name
/// or a name holds `/` or a zero byte, and with `IoError` exactly where the
/// compressor fails on the frame of the tree.
pub fn build_tree(children: &Vec<TreeChild>) -> (res: Result<LooseObject, RuntimeError>)
    ensures
        match built_tree(children@) {
            Ok(made) => res matches Ok(object) && object@ == made,
            Err(e) => res matches Err(f) && f == e,
        },
{
    let mut entries = entries_of_children(children);
    sort_by_name(&mut entries);
    if !is_valid_tree(&entries) {
        return Err(RuntimeError::CorruptEntry);
    }
    let payload = serialize_tree(&entries);
    encode_object(Kind::Tree, payload.as_slice())
}

/// Where `a` does not come after `b` and `b` does not come after `c`, `a`
/// does not come after `c`.
pub proof fn lemma_not_after(a: Seq<u8>, b: Seq<u8>, c: Seq<u8>)
    requires
        !lex_lt(b, a),
        !lex_lt(c, b),
    ensures
        !lex_lt(c, a),
{
    if lex_lt(c, a) {
        lemma_lex_total(a, b, 0);
        if a != b {
            lemma_lex_transitive(c, a, b, 0);
        }
    }
}

/// Putting an entry into sorted entries leaves them sorted, and adds that
/// entry and nothing else.
pub proof fn lemma_insert_sorted(sorted: Seq<TreeEntry>, e: TreeEntry)
    requires
        sorted_by_name(sorted),
    ensures
        sorted_by_name(insert_sorted(sorted, e)),
        insert_sorted(sorted, e).to_multiset() == sorted.to_multiset().insert(e),
    decreases sorted.len(),
{
    sorted.to_multiset_ensures();
    if sorted.len() == 0 || !lex_lt(e.name, sorted.last().name) {
        let r = sorted.push(e);
        assert forall|i: int, j: int| 0 <= i < j < r.len() implies !lex_lt(
            (#[trigger] r[j]).name,
            (#[trigger] r[i]).name,
        ) by {
            if j == sorted.len() {
                let last = sorted.last();
                if i < sorted.len() - 1 {
                    assert(!lex_lt(sorted[sorted.len() - 1].name, sorted[i].name));
                } else {
                    lemma_lex_total(last.name, last.name, 0);
                }
                lemma_not_after(sorted[i].name, last.name, e.name);
            } else {
                assert(r[j] == sorted[j] && r[i] == sorted[i]);
            }
        }
    } else {
        let front = sorted.drop_last();
        let last = sorted.last();
        assert forall|i: int, j: int| 0 <= i < j < front.len() implies !lex_lt(
            (#[trigger] front[j]).name,
            (#[trigger] front[i]).name,
        ) by {
            assert(front[j] == sorted[j] && front[i] == sorted[i]);
        }
        lemma_insert_sorted(front, e);
        let mid = insert_sorted(front, e);
        let r = mid.push(last);
        mid.to_multiset_ensures();
        front.to_multiset_ensures();
        assert(front.push(last) =~= sorted);
        assert(r.to_multiset() =~= sorted.to_multiset().insert(e));
        assert forall|i: int, j: int| 0 <= i < j < r.len() implies !lex_lt(
            (#[trigger] r[j]).name,
            (#[trigger] r[i]).name,
        ) by {
            if j == mid.len() {
                let x = mid[i];
                assert(mid.contains(x));
                assert(mid.to_multiset().count(x) > 0);
                if x == e {
                    lemma_lex_total(e.name, last.name, 0);
                } else {
                    assert(front.to_multiset().count(x) > 0);
                    assert(front.contains(x));
                    let k = choose|k: int| 0 <= k < front.len() && front[k] == x;
                    assert(sorted[k] == x);
                    assert(!lex_lt(sorted[sorted.len() - 1].name, sorted[k].name));
                }
            } else {
                assert(r[j] == mid[j] && r[i] == mid[i]);
            }
        }
    }
}

/// Sorted entries are in ascending order of their names, and are the
/// entries that were given, each as often as it was given.
pub proof fn lemma_sort_entries(entries: Seq<TreeEntry>)
    ensures
        sorted_by_name(sort_entries(entries)),
        sort_entries(entries).to_multiset() == entries.to_multiset(),
        sort_entries(entries).len() == entries.len(),
    decreases entries.len(),
{
    entries.to_multiset_ensures();
    sort_entries(entries).to_multiset_ensures();
    if entries.len() > 0 {
        let front = entries.drop_last();
        lemma_sort_entries(front);
        lemma_insert_sorted(sort_entries(front), entries.last());
        front.to_multiset_ensures();
        assert(front.push(entries.last()) =~= entries);
    }
}

/// Whether entries of one name are one and the same entry.
pub open spec fn names_unique(entries: Multiset<TreeEntry>) -> bool {
    forall|a: TreeEntry, b: TreeEntry|
        #![trigger entries.count(a), entries.count(b)]
        entries.count(a) > 0 && entries.count(b) > 0 && a.name == b.name ==> a == b
}

/// Two sorted sequences of the same entries, where entries of one name are
/// one and the same, are the same sequence.
pub proof fn lemma_sorted_unique(x: Seq<TreeEntry>, y: Seq<TreeEntry>)
    requires
        sorted_by_name(x),
        sorted_by_name(y),
        x.to_multiset() == y.to_multiset(),
        names_unique(x.to_multiset()),
    ensures
        x == y,
    decreases x.len(),
{
    x.to_multiset_ensures();
    y.to_multiset_ensures();
    if x.len() == 0 {
        assert(x =~= y);
    } else {
        let n = x.len() as int;
        let lx = x.last();
        let ly = y.last();
        let m = x.to_multiset();
        assert(x.contains(lx));
        assert(y.contains(ly));
        assert(m.count(lx) > 0);
        assert(m.count(ly) > 0);
        assert(y.contains(lx));
        assert(x.contains(ly));
        let i = choose|i: int| 0 <= i < n && x[i] == ly;
        let j = choose|j: int| 0 <= j < n && y[j] == lx;
        // the last of each does not come before the other, so they have one name
        if i < n - 1 {
            assert(!lex_lt(x[n - 1].name, x[i].name));
        } else {
            lemma_lex_total(lx.name, lx.name, 0);
        }
        if j < n - 1 {
            assert(!lex_lt(y[n - 1].name, y[j].name));
        } else {
            lemma_lex_total(ly.name, ly.name, 0);
        }
        lemma_lex_total(lx.name, ly.name, 0);
        assert(lx.name == ly.name);
        assert(lx == ly);
        let xf = x.drop_last();
        let yf = y.drop_last();
        xf.to_multiset_ensures();
        yf.to_multiset_ensures();
        assert(xf.push(lx) =~= x);
        assert(yf.push(ly) =~= y);
        assert(xf.to_multiset().insert(lx) == m);
        assert(yf.to_multiset().insert(lx) == m);
        assert(xf.to_multiset() =~= yf.to_multiset()) by {
            assert forall|v: TreeEntry| xf.to_multiset().count(v) == yf.to_multiset().count(v) by {
                assert(xf.to_multiset().insert(lx).count(v) == yf.to_multiset().insert(lx).count(v));
            }
        }
        assert forall|a: TreeEntry, b: TreeEntry|
            #![trigger xf.to_multiset().count(a), xf.to_multiset().count(b)]
            xf.to_multiset().count(a) > 0 && xf.to_multiset().count(b) > 0 && a.name
                == b.name implies a == b by {
            assert(m.count(a) > 0);
            assert(m.count(b) > 0);
        }
        assert forall|p: int, q: int| 0 <= p < q < xf.len() implies !lex_lt(
            (#[trigger] xf[q]).name,
            (#[trigger] xf[p]).name,
        ) by {
            assert(xf[q] == x[q] && xf[p] == x[p]);
        }
        assert forall|p: int, q: int| 0 <= p < q < yf.len() implies !lex_lt(
            (#[trigger] yf[q]).name,
            (#[trigger] yf[p]).name,
        ) by {
            assert(yf[q] == y[q] && yf[p] == y[p]);
        }
        lemma_sorted_unique(xf, yf);
        assert(x =~= y);
    }
}

/// Tree canonicalization: the entries of a tree are written in ascending
/// order of their names, and the order in which they were given does not
/// matter. Two sequences of the same entries, where entries of one name are
/// one and the same, give the same payload, and so the same id.
pub proof fn lemma_tree_canonical(a: Seq<TreeEntry>, b: Seq<TreeEntry>)
    requires
        a.to_multiset() == b.to_multiset(),
        names_unique(a.to_multiset()),
    ensures
        sorted_by_name(sort_entries(a)),
        sort_entries(a) == sort_entries(b),
        tree_bytes(sort_entries(a)) == tree_bytes(sort_entries(b)),
        object_id_of(Kind::Tree, tree_bytes(sort_entries(a))) == object_id_of(
            Kind::Tree,
            tree_bytes(sort_entries(b)),
        ),
{
    lemma_sort_entries(a);
    lemma_sort_entries(b);
    lemma_sorted_unique(sort_entries(a), sort_entries(b));
}

/// The tree of a directory does not depend on the order in which its
/// children are listed: two listings that give the same entries, where
/// entries of one name are one and the same, give the same payload and the
/// same id.
pub proof fn lemma_listing_order(a: Seq<TreeChild>, b: Seq<TreeChild>)
    requires
        tree_entries(a).to_multiset() == tree_entries(b).to_multiset(),
        names_unique(tree_entries(a).to_multiset()),
    ensures
        tree_payload(a) == tree_payload(b),
        object_id_of(Kind::Tree, tree_payload(a)) == object_id_of(Kind::Tree, tree_payload(b)),
        built_tree(a) == built_tree(b),
        sorted_by_name(sort_entries(tree_entries(a))),
{
    lemma_tree_canonical(tree_entries(a), tree_entries(b));
}

/// Whether an entry can be written and read back: its mode is a known one
/// and stands for its kind, its name is UTF-8 without a zero byte, and its
/// id has 20 bytes.
pub open spec fn readable(e: TreeEntry) -> bool {
    &&& valid_utf8(e.mode)
    &&& kind_of_mode(decode_utf8(e.mode)) == Some(e.kind)
    &&& valid_utf8(e.name)
    &&& forall|i: int| 0 <= i < e.name.len() ==> e.name[i] != 0
    &&& e.hash.len() == 20
}

/// A known mode is made of the digits 0 to 7.
pub proof fn lemma_mode_digits(mode: Seq<u8>)
    requires
        valid_utf8(mode),
        kind_of_mode(decode_utf8(mode)) is Some,
    ensures
        forall|i: int| 0 <= i < mode.len() ==> 48 <= #[trigger] mode[i] <= 55,
{
    let text = decode_utf8(mode);
    decode_utf8_encode_utf8(mode);
    reveal_strlit("100644");
    reveal_strlit("100755");
    reveal_strlit("160000");
    reveal_strlit("120000");
    reveal_strlit("040000");
    reveal_strlit("40000");
    lemma_ascii(text);
}

/// An entry is read back from its bytes, whatever stands behind them.
pub proof fn lemma_entry_round_trip(e: TreeEntry, back: Seq<u8>)
    requires
        readable(e),
    ensures
        entry_bytes(e).len() > 0,
        parse_tree_entry(entry_bytes(e) + back) == Ok::<(TreeEntry, int), RuntimeError>(
            (e, entry_bytes(e).len() as int),
        ),
        (entry_bytes(e) + back).skip(entry_bytes(e).len() as int) == back,
{
    let data = entry_bytes(e) + back;
    let space: int = e.mode.len() as int;
    let nul: int = space + 1 + e.name.len();
    lemma_mode_digits(e.mode);
    assert forall|j: int| 0 <= j < nul implies data[j] != 0 by {
        if j < space {
            assert(data[j] == e.mode[j]);
        } else if j > space {
            assert(data[j] == e.name[j - space - 1]);
        }
    }
    assert(data[nul] == 0);
    lemma_index_of_is(data, 0, 0, nul);
    let head = data.subrange(0, nul);
    assert forall|j: int| 0 <= j < space implies head[j] != 0x20 by {
        assert(head[j] == e.mode[j]);
    }
    assert(head[space] == 0x20);
    lemma_index_of_is(head, 0x20, 0, space);
    assert(data.subrange(0, space) =~= e.mode);
    assert(data.subrange(space + 1, nul) =~= e.name);
    assert(data.subrange(nul + 1, nul + 21) =~= e.hash);
    assert(data.skip(entry_bytes(e).len() as int) =~= back);
}

/// The payload of a tree is its first entry, then the payload of the others.
pub proof fn lemma_tree_bytes_front(entries: Seq<TreeEntry>)
    requires
        entries.len() > 0,
    ensures
        tree_bytes(entries) == entry_bytes(entries[0]) + tree_bytes(entries.drop_first()),
    decreases entries.len(),
{
    if entries.len() == 1 {
        assert(entries.drop_last() =~= Seq::<TreeEntry>::empty());
        assert(entries.drop_first() =~= Seq::<TreeEntry>::empty());
        assert(tree_bytes(entries) =~= entry_bytes(entries[0]) + tree_bytes(entries.drop_first()));
    } else {
        let front = entries.drop_last();
        lemma_tree_bytes_front(front);
        assert(front.drop_first() =~= entries.drop_first().drop_last());
        assert(entries.drop_first().last() == entries.last());
        assert(front[0] == entries[0]);
        assert(tree_bytes(entries) =~= entry_bytes(entries[0]) + tree_bytes(entries.drop_first()));
    }
}

/// The payload of a tree is read back as the entries that it was written
/// from, in their order.
pub proof fn lemma_tree_round_trip(entries: Seq<TreeEntry>)
    requires
        forall|i: int| 0 <= i < entries.len() ==> readable(#[trigger] entries[i]),
    ensures
        parse_tree(tree_bytes(entries)) == Ok::<Seq<TreeEntry>, RuntimeError>(entries),
    decreases entries.len(),
{
    if entries.len() == 0 {
        assert(entries =~= Seq::<TreeEntry>::empty());
    } else {
        let first = entries[0];
        let others = entries.drop_first();
        let back = tree_bytes(others);
        let data = tree_bytes(entries);
        lemma_tree_bytes_front(entries);
        assert(readable(first));
        assert forall|i: int| 0 <= i < others.len() implies readable(#[trigger] others[i]) by {
            assert(others[i] == entries[i + 1]);
        }
        lemma_entry_round_trip(first, back);
        lemma_tree_round_trip(others);
        let used = entry_bytes(first).len() as int;
        assert(parse_tree_entry(data) == Ok::<(TreeEntry, int), RuntimeError>((first, used)));
        assert(data.skip(used) == back);
        assert(0 < used <= data.len());
        assert(seq![first] + others =~= entries);
        assert(parse_tree(data) == entries_then(seq![first], parse_tree(data.skip(used))));
    }
}

} // verus!
