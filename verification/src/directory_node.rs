//! The projected tree: directories that hold files and further directories.

use vstd::prelude::*;
use crate::path::{file_name_of, lex_less};
use crate::vfs_file::{FileView, VfsFile};

verus! {

/// A mapping from the full path of a directory to the directory, kept in the strict
/// order of the paths: no path stands in it twice. It is the list of subdirectories
/// of a `DirectoryNode`, and the tree as a whole: the mapping from the root's path
/// to the root.
pub struct DisplayTree {
    pub(crate) entries: Vec<(Vec<u8>, DirectoryNode)>,
}

/// A directory of the projected tree: the files that lie directly in it, and its
/// subdirectories.
pub struct DirectoryNode {
    /// The files directly in the directory.
    pub files: Vec<VfsFile>,
    /// The subdirectories, each under its full path.
    pub subdirs: DisplayTree,
}

/// What a directory holds.
pub struct NodeView {
    /// The files directly in the directory, in their order.
    pub files: Seq<FileView>,
    /// The subdirectories, each under its full path, in their order.
    pub subdirs: Seq<(Seq<u8>, NodeView)>,
}

/// A mapping from directory paths to directories, as a list in the mapping's order.
pub type TreeView = Seq<(Seq<u8>, NodeView)>;

impl NodeView {
    /// The directory that holds nothing.
    pub open spec fn empty() -> NodeView {
        NodeView { files: Seq::empty(), subdirs: Seq::empty() }
    }

    /// Whether the directory holds neither a file nor a subdirectory.
    pub open spec fn is_empty(self) -> bool {
        self.files.len() == 0 && self.subdirs.len() == 0
    }
}

/// What a list of files holds.
pub open spec fn file_views(files: Seq<VfsFile>) -> Seq<FileView> {
    Seq::new(files.len(), |i: int| files[i]@)
}

/// What a directory holds.
pub closed spec fn node_view(node: DirectoryNode) -> NodeView
    decreases node,
{
    NodeView { files: file_views(node.files@), subdirs: entries_view(node.subdirs.entries@) }
}

/// What a list of directories holds.
pub closed spec fn entries_view(entries: Seq<(Vec<u8>, DirectoryNode)>) -> TreeView
    decreases entries,
{
    if entries.len() == 0 {
        Seq::empty()
    } else {
        entries_view(entries.drop_last()).push((entries.last().0@, node_view(entries.last().1)))
    }
}

impl View for DirectoryNode {
    type V = NodeView;

    open spec fn view(&self) -> NodeView {
        node_view(*self)
    }
}

impl View for DisplayTree {
    type V = TreeView;

    closed spec fn view(&self) -> TreeView {
        entries_view(self.entries@)
    }
}

/// A directory holds the files of its list of files and the directories of its
/// mapping of subdirectories.
pub proof fn lemma_node_parts(node: DirectoryNode)
    ensures
        node@.files == file_views(node.files@),
        node@.subdirs == node.subdirs@,
{
}

/// The view of a directory and of a mapping in terms of what they are made of.
pub(crate) proof fn lemma_node_view(node: DirectoryNode)
    ensures
        node@.files == file_views(node.files@),
        node@.subdirs == entries_view(node.subdirs.entries@),
        node.subdirs@ == entries_view(node.subdirs.entries@),
{
}

/// The view of a mapping in terms of what it is made of.
pub(crate) proof fn lemma_tree_view(tree: DisplayTree)
    ensures
        tree@ == entries_view(tree.entries@),
{
}

/// The view of a list of directories, entry by entry.
pub(crate) proof fn lemma_entries_view(entries: Seq<(Vec<u8>, DirectoryNode)>)
    ensures
        entries_view(entries).len() == entries.len(),
        forall|i: int|
            0 <= i < entries.len() ==> #[trigger] entries_view(entries)[i] == (
                entries[i].0@,
                node_view(entries[i].1),
            ),
    decreases entries.len(),
{
    if entries.len() > 0 {
        lemma_entries_view(entries.drop_last());
        assert forall|i: int| 0 <= i < entries.len() implies #[trigger] entries_view(entries)[i]
            == (entries[i].0@, node_view(entries[i].1)) by {
            if i < entries.len() - 1 {
                assert(entries.drop_last()[i] == entries[i]);
            }
        }
    }
}

/// The paths of `dirs` rise strictly from each entry to the next.
pub open spec fn ordered(dirs: TreeView) -> bool {
    forall|i: int, j: int| 0 <= i < j < dirs.len() ==> lex_less(#[trigger] dirs[i].0, #[trigger] dirs[j].0)
}

/// The place of the path `key` in `dirs`: the index of the first entry whose path
/// does not stand before `key`.
pub open spec fn dir_slot(dirs: TreeView, key: Seq<u8>) -> int
    decreases dirs.len(),
{
    if dirs.len() == 0 || !lex_less(dirs[0].0, key) {
        0
    } else {
        1 + dir_slot(dirs.drop_first(), key)
    }
}

/// Whether `dirs` holds a directory under `key` at the place of `key`.
pub open spec fn has_dir(dirs: TreeView, key: Seq<u8>) -> bool {
    dir_slot(dirs, key) < dirs.len() && dirs[dir_slot(dirs, key)].0 == key
}

/// `dirs` with `node` under `key`: in place of the directory that `dirs` holds
/// there, or as a new entry at the place of `key`.
pub open spec fn with_dir(dirs: TreeView, key: Seq<u8>, node: NodeView) -> TreeView {
    if has_dir(dirs, key) {
        dirs.update(dir_slot(dirs, key), (key, node))
    } else {
        dirs.insert(dir_slot(dirs, key), (key, node))
    }
}

/// The directory that `dirs` holds under `key`, or an empty one.
pub open spec fn dir_or_empty(dirs: TreeView, key: Seq<u8>) -> NodeView {
    if has_dir(dirs, key) {
        dirs[dir_slot(dirs, key)].1
    } else {
        NodeView::empty()
    }
}

/// `node` with `file` added to the directory that the chain of directory paths
/// `chain` leads to, starting at `node`. Directories along the chain that `node`
/// lacks are made.
pub open spec fn placed(node: NodeView, chain: Seq<Seq<u8>>, file: FileView) -> NodeView
    decreases chain.len(),
{
    if chain.len() == 0 {
        NodeView { files: node.files.push(file), subdirs: node.subdirs }
    } else {
        let child = placed(dir_or_empty(node.subdirs, chain[0]), chain.drop_first(), file);
        NodeView { files: node.files, subdirs: with_dir(node.subdirs, chain[0], child) }
    }
}

/// The place of a path lies within the list; every entry before it stands before
/// the path and the entry at it does not.
pub proof fn lemma_dir_slot(dirs: TreeView, key: Seq<u8>)
    ensures
        0 <= dir_slot(dirs, key) <= dirs.len(),
        forall|i: int| 0 <= i < dir_slot(dirs, key) ==> lex_less((#[trigger] dirs[i]).0, key),
        dir_slot(dirs, key) < dirs.len() ==> !lex_less(dirs[dir_slot(dirs, key)].0, key),
    decreases dirs.len(),
{
    if dirs.len() > 0 && lex_less(dirs[0].0, key) {
        lemma_dir_slot(dirs.drop_first(), key);
        assert forall|i: int| 0 <= i < dir_slot(dirs, key) implies lex_less(
            (#[trigger] dirs[i]).0,
            key,
        ) by {
            if i > 0 {
                assert(dirs.drop_first()[i - 1] == dirs[i]);
            }
        }
    }
}

/// In an ordered list a path is held exactly when it is held at its place, and
/// putting a directory under a path keeps the list ordered.
pub proof fn lemma_ordered_dirs(dirs: TreeView, key: Seq<u8>, node: NodeView)
    requires
        ordered(dirs),
    ensures
        has_dir(dirs, key) <==> exists|i: int| 0 <= i < dirs.len() && (#[trigger] dirs[i]).0 == key,
        ordered(with_dir(dirs, key, node)),
{
    lemma_dir_slot(dirs, key);
    let slot = dir_slot(dirs, key);
    if exists|i: int| 0 <= i < dirs.len() && (#[trigger] dirs[i]).0 == key {
        let i = choose|i: int| 0 <= i < dirs.len() && (#[trigger] dirs[i]).0 == key;
        crate::path::lemma_lex_irreflexive(key);
        if i < slot {
            assert(lex_less(dirs[i].0, key));
        } else if i > slot {
            assert(lex_less(dirs[slot].0, dirs[i].0));
        }
    }
    let after = with_dir(dirs, key, node);
    assert forall|i: int, j: int| 0 <= i < j < after.len() implies lex_less(
        #[trigger] after[i].0,
        #[trigger] after[j].0,
    ) by {
        if has_dir(dirs, key) {
            assert(after[i].0 == dirs[i].0);
            assert(after[j].0 == dirs[j].0);
        } else {
            let oi = if i < slot {
                i
            } else {
                i - 1
            };
            let oj = if j < slot {
                j
            } else {
                j - 1
            };
            if i == slot {
                assert(after[j] == dirs[oj]);
                crate::path::lemma_lex_total(dirs[oj].0, key);
                if oj > slot {
                    assert(lex_less(dirs[slot].0, dirs[oj].0));
                    if lex_less(dirs[oj].0, key) {
                        crate::path::lemma_lex_transitive(dirs[slot].0, dirs[oj].0, key);
                    }
                }
            } else if j == slot {
                assert(after[i] == dirs[oi]);
            } else {
                assert(after[i] == dirs[oi]);
                assert(after[j] == dirs[oj]);
            }
        }
    }
}

/// The order of file names: no name before every name, and names among themselves
/// in the order of paths.
pub open spec fn name_less(a: Option<Seq<u8>>, b: Option<Seq<u8>>) -> bool {
    match (a, b) {
        (None, None) => false,
        (None, Some(_)) => true,
        (Some(_), None) => false,
        (Some(x), Some(y)) => lex_less(x, y),
    }
}

/// Whether the file name of `a` stands before that of `b`.
pub open spec fn sorts_before(a: FileView, b: FileView) -> bool {
    name_less(file_name_of(a.path()), file_name_of(b.path()))
}

/// The place of `file` among the sorted files `sorted`: behind every file whose
/// name does not stand after its own.
pub open spec fn name_slot(sorted: Seq<FileView>, file: FileView) -> int
    decreases sorted.len(),
{
    if sorted.len() == 0 || sorts_before(file, sorted[0]) {
        0
    } else {
        1 + name_slot(sorted.drop_first(), file)
    }
}

/// `files` sorted by file name. Files of one name keep their order.
pub open spec fn sorted_files(files: Seq<FileView>) -> Seq<FileView>
    decreases files.len(),
{
    if files.len() == 0 {
        Seq::empty()
    } else {
        let front = sorted_files(files.drop_last());
        front.insert(name_slot(front, files.last()), files.last())
    }
}

/// `node` with the files of every directory sorted by file name.
pub open spec fn sorted_node(node: NodeView) -> NodeView
    decreases node,
{
    NodeView { files: sorted_files(node.files), subdirs: sorted_dirs(node.subdirs) }
}

/// `dirs` with the files of every directory sorted by file name.
pub open spec fn sorted_dirs(dirs: TreeView) -> TreeView
    decreases dirs,
{
    if dirs.len() == 0 {
        Seq::empty()
    } else {
        sorted_dirs(dirs.drop_last()).push((dirs.last().0, sorted_node(dirs.last().1)))
    }
}

/// The files of `files` that `keep` keeps, in their order.
pub open spec fn kept_files(files: Seq<FileView>, keep: spec_fn(FileView) -> bool) -> Seq<
    FileView,
>
    decreases files.len(),
{
    if files.len() == 0 {
        Seq::empty()
    } else if keep(files.last()) {
        kept_files(files.drop_last(), keep).push(files.last())
    } else {
        kept_files(files.drop_last(), keep)
    }
}

/// `node` with only the files that `keep` keeps, in every directory, and without
/// the subdirectories that are left holding nothing.
pub open spec fn filtered(node: NodeView, keep: spec_fn(FileView) -> bool) -> NodeView
    decreases node,
{
    NodeView { files: kept_files(node.files, keep), subdirs: filtered_dirs(node.subdirs, keep) }
}

/// `dirs` with every directory filtered, and without those that are left holding
/// nothing.
pub open spec fn filtered_dirs(dirs: TreeView, keep: spec_fn(FileView) -> bool) -> TreeView
    decreases dirs,
{
    if dirs.len() == 0 {
        Seq::empty()
    } else {
        let front = filtered_dirs(dirs.drop_last(), keep);
        let child = filtered(dirs.last().1, keep);
        if child.is_empty() {
            front
        } else {
            front.push((dirs.last().0, child))
        }
    }
}

/// Whatever the predicate `file_filter` answers for a file is what `keep` says of
/// the file.
pub open spec fn decides<F: Fn(&VfsFile) -> bool>(file_filter: &F, keep: spec_fn(FileView) -> bool) -> bool {
    forall|file: &VfsFile, kept: bool| #[trigger]
        file_filter.ensures((file,), kept) ==> kept == keep(file@)
}

/// Every file of a directory and of the directories below it: its own files, then
/// those of each subdirectory.
pub open spec fn all_files(node: NodeView) -> Seq<FileView>
    decreases node,
{
    node.files + all_dir_files(node.subdirs)
}

/// Every file of the directories `dirs` and of the directories below them.
pub open spec fn all_dir_files(dirs: TreeView) -> Seq<FileView>
    decreases dirs,
{
    if dirs.len() == 0 {
        Seq::empty()
    } else {
        all_dir_files(dirs.drop_last()) + all_files(dirs.last().1)
    }
}

/// The file names of `files` rise from each file to the next: no file stands behind
/// a file whose name stands after its own.
pub open spec fn names_rise(files: Seq<FileView>) -> bool {
    forall|i: int, j: int| 0 <= i < j < files.len() ==> !sorts_before(#[trigger] files[j], #[trigger] files[i])
}

/// A predicate that keeps every file keeps every file of a list.
pub proof fn lemma_keep_all_files(files: Seq<FileView>, keep: spec_fn(FileView) -> bool)
    requires
        forall|file: FileView| #[trigger] keep(file),
    ensures
        kept_files(files, keep) == files,
    decreases files.len(),
{
    if files.len() > 0 {
        lemma_keep_all_files(files.drop_last(), keep);
        assert(files.drop_last().push(files.last()) =~= files);
    }
}

/// A predicate that keeps no file leaves nothing of a list.
pub proof fn lemma_keep_no_files(files: Seq<FileView>, keep: spec_fn(FileView) -> bool)
    requires
        forall|file: FileView| !#[trigger] keep(file),
    ensures
        kept_files(files, keep) == Seq::<FileView>::empty(),
    decreases files.len(),
{
    if files.len() > 0 {
        lemma_keep_no_files(files.drop_last(), keep);
    }
}

/// Filtering with a predicate that keeps every file keeps every file of the tree:
/// the directories that go are those that held no file at any depth.
pub proof fn lemma_filter_keeps_all(node: NodeView, keep: spec_fn(FileView) -> bool)
    requires
        forall|file: FileView| #[trigger] keep(file),
    ensures
        all_files(filtered(node, keep)) == all_files(node),
    decreases node,
{
    lemma_keep_all_files(node.files, keep);
    lemma_filter_dirs_keeps_all(node.subdirs, keep);
}

/// Filtering a list of directories with a predicate that keeps every file keeps
/// every file of the list.
pub proof fn lemma_filter_dirs_keeps_all(dirs: TreeView, keep: spec_fn(FileView) -> bool)
    requires
        forall|file: FileView| #[trigger] keep(file),
    ensures
        all_dir_files(filtered_dirs(dirs, keep)) == all_dir_files(dirs),
    decreases dirs,
{
    if dirs.len() > 0 {
        lemma_filter_dirs_keeps_all(dirs.drop_last(), keep);
        lemma_filter_keeps_all(dirs.last().1, keep);
        let front = filtered_dirs(dirs.drop_last(), keep);
        let child = filtered(dirs.last().1, keep);
        if child.is_empty() {
            assert(all_files(child) =~= Seq::<FileView>::empty());
            assert(all_dir_files(dirs) =~= all_dir_files(dirs.drop_last()));
        } else {
            assert(front.push((dirs.last().0, child)).drop_last() =~= front);
        }
    }
}

/// Filtering with a predicate that keeps no file leaves a directory that holds
/// nothing: no file, and no subdirectory, since each of them is left empty.
pub proof fn lemma_filter_keeps_none(node: NodeView, keep: spec_fn(FileView) -> bool)
    requires
        forall|file: FileView| !#[trigger] keep(file),
    ensures
        filtered(node, keep) == NodeView::empty(),
    decreases node,
{
    lemma_keep_no_files(node.files, keep);
    lemma_filter_dirs_keeps_none(node.subdirs, keep);
}

/// Filtering a list of directories with a predicate that keeps no file leaves no
/// directory.
pub proof fn lemma_filter_dirs_keeps_none(dirs: TreeView, keep: spec_fn(FileView) -> bool)
    requires
        forall|file: FileView| !#[trigger] keep(file),
    ensures
        filtered_dirs(dirs, keep) == TreeView::empty(),
    decreases dirs,
{
    if dirs.len() > 0 {
        lemma_filter_dirs_keeps_none(dirs.drop_last(), keep);
        lemma_filter_keeps_none(dirs.last().1, keep);
    }
}

/// The order of file names is transitive and total.
proof fn lemma_name_order(a: FileView, b: FileView, c: FileView)
    ensures
        sorts_before(a, b) && sorts_before(b, c) ==> sorts_before(a, c),
        !sorts_before(a, b) && !sorts_before(b, c) ==> !sorts_before(a, c),
        !sorts_before(a, a),
{
    if file_name_of(a.path()) is Some {
        crate::path::lemma_lex_irreflexive(file_name_of(a.path()).unwrap());
    }
    let x = file_name_of(a.path());
    let y = file_name_of(b.path());
    let z = file_name_of(c.path());
    if x is Some && y is Some && z is Some {
        let (p, q, r) = (x.unwrap(), y.unwrap(), z.unwrap());
        if lex_less(p, q) && lex_less(q, r) {
            crate::path::lemma_lex_transitive(p, q, r);
        }
        if !lex_less(p, q) && !lex_less(q, r) && lex_less(p, r) {
            crate::path::lemma_lex_total(p, q);
            crate::path::lemma_lex_total(q, r);
            crate::path::lemma_lex_irreflexive(p);
            if p != q && q != r {
                crate::path::lemma_lex_transitive(r, q, p);
                crate::path::lemma_lex_total(p, r);
            }
        }
    }
}

/// The place of a file among sorted files lies within the list; no file before it
/// has a name after the file's own, and the file at it has.
proof fn lemma_name_slot(sorted: Seq<FileView>, file: FileView)
    ensures
        0 <= name_slot(sorted, file) <= sorted.len(),
        forall|i: int| 0 <= i < name_slot(sorted, file) ==> !sorts_before(file, #[trigger] sorted[i]),
        name_slot(sorted, file) < sorted.len() ==> sorts_before(file, sorted[name_slot(sorted, file)]),
    decreases sorted.len(),
{
    if sorted.len() > 0 && !sorts_before(file, sorted[0]) {
        lemma_name_slot(sorted.drop_first(), file);
        assert forall|i: int| 0 <= i < name_slot(sorted, file) implies !sorts_before(
            file,
            #[trigger] sorted[i],
        ) by {
            if i > 0 {
                assert(sorted.drop_first()[i - 1] == sorted[i]);
            }
        }
    }
}

/// Sorting keeps every file, as often as it stood in the list, and leaves the file
/// names rising.
pub proof fn lemma_sorted_files(files: Seq<FileView>)
    ensures
        sorted_files(files).to_multiset() == files.to_multiset(),
        sorted_files(files).len() == files.len(),
        names_rise(sorted_files(files)),
    decreases files.len(),
{
    broadcast use vstd::seq_lib::group_to_multiset_ensures;

    if files.len() == 0 {
        assert(sorted_files(files) =~= files);
    } else {
        let front = sorted_files(files.drop_last());
        let file = files.last();
        let at = name_slot(front, file);
        lemma_sorted_files(files.drop_last());
        lemma_name_slot(front, file);
        let after = front.insert(at, file);
        assert(files.drop_last().push(file) =~= files);
        assert(after.to_multiset() =~= front.to_multiset().insert(file));
        assert(files.to_multiset() =~= files.drop_last().to_multiset().insert(file));
        assert forall|i: int, j: int| 0 <= i < j < after.len() implies !sorts_before(
            #[trigger] after[j],
            #[trigger] after[i],
        ) by {
            let oi = if i < at {
                i
            } else {
                i - 1
            };
            let oj = if j < at {
                j
            } else {
                j - 1
            };
            if i == at {
                // the file before a later file of the sorted list
                assert(after[j] == front[oj]);
                assert(sorts_before(file, front[at]));
                if oj > at {
                    assert(!sorts_before(front[oj], front[at]));
                }
                lemma_name_order(front[oj], file, front[at]);
                lemma_name_order(front[at], file, front[at]);
            } else if j == at {
                assert(after[i] == front[oi]);
            } else {
                assert(after[i] == front[oi]);
                assert(after[j] == front[oj]);
            }
        }
    }
}

/// Every list of subdirectories of the tree below `node`, and that of `node`, is in
/// order.
pub open spec fn well_ordered(node: NodeView) -> bool
    decreases node,
{
    &&& ordered(node.subdirs)
    &&& forall|i: int| 0 <= i < node.subdirs.len() ==> well_ordered((#[trigger] node.subdirs[i]).1)
}

/// In every directory of the tree below `node`, and in `node`, the file names rise.
pub open spec fn well_sorted(node: NodeView) -> bool
    decreases node,
{
    &&& names_rise(node.files)
    &&& forall|i: int| 0 <= i < node.subdirs.len() ==> well_sorted((#[trigger] node.subdirs[i]).1)
}

/// The files of a list of directories are those of a first part of the list and then
/// those of the rest.
pub proof fn lemma_dir_files_concat(first: TreeView, second: TreeView)
    ensures
        all_dir_files(first + second) == all_dir_files(first) + all_dir_files(second),
    decreases second.len(),
{
    if second.len() == 0 {
        assert(first + second =~= first);
        assert(all_dir_files(first) + all_dir_files(second) =~= all_dir_files(first));
    } else {
        assert((first + second).drop_last() =~= first + second.drop_last());
        assert((first + second).last() == second.last());
        lemma_dir_files_concat(first, second.drop_last());
        assert(all_dir_files(first + second) =~= all_dir_files(first) + all_dir_files(second));
    }
}

/// The files of a list of directories around the entry at `at`: those of the
/// directories before it, its own, and those of the directories after it.
pub proof fn lemma_dir_files_split(dirs: TreeView, at: int)
    requires
        0 <= at < dirs.len(),
    ensures
        all_dir_files(dirs) == all_dir_files(dirs.take(at)) + all_files(dirs[at].1) + all_dir_files(
            dirs.skip(at + 1),
        ),
{
    let one = seq![dirs[at]];
    assert(dirs =~= dirs.take(at) + one + dirs.skip(at + 1));
    lemma_dir_files_concat(dirs.take(at) + one, dirs.skip(at + 1));
    lemma_dir_files_concat(dirs.take(at), one);
    assert(one.drop_last() =~= TreeView::empty());
    assert(all_dir_files(one.drop_last()) =~= Seq::<FileView>::empty());
    assert(one.last() == dirs[at]);
    assert(all_dir_files(one) =~= all_files(dirs[at].1));
}

/// Placing a file adds that file to the files of the tree, and nothing else.
pub proof fn lemma_placed_files(node: NodeView, chain: Seq<Seq<u8>>, file: FileView)
    ensures
        all_files(placed(node, chain, file)).to_multiset() == all_files(node).to_multiset().insert(
            file,
        ),
    decreases chain.len(),
{
    broadcast use vstd::seq_lib::group_to_multiset_ensures;

    let after = placed(node, chain, file);
    if chain.len() == 0 {
        let below = all_dir_files(node.subdirs);
        vstd::seq_lib::lemma_multiset_commutative(node.files.push(file), below);
        vstd::seq_lib::lemma_multiset_commutative(node.files, below);
        assert(all_files(after).to_multiset() =~= all_files(node).to_multiset().insert(file));
    } else {
        let dirs = node.subdirs;
        let key = chain[0];
        let at = dir_slot(dirs, key);
        lemma_dir_slot(dirs, key);
        let child = dir_or_empty(dirs, key);
        let grown = placed(child, chain.drop_first(), file);
        lemma_placed_files(child, chain.drop_first(), file);
        let new_dirs = with_dir(dirs, key, grown);
        let head = all_dir_files(dirs.take(at));
        let (old_mid, tail) = if has_dir(dirs, key) {
            (all_files(child), all_dir_files(dirs.skip(at + 1)))
        } else {
            (Seq::<FileView>::empty(), all_dir_files(dirs.skip(at)))
        };
        if has_dir(dirs, key) {
            lemma_dir_files_split(dirs, at);
            lemma_dir_files_split(new_dirs, at);
            assert(new_dirs.take(at) =~= dirs.take(at));
            assert(new_dirs.skip(at + 1) =~= dirs.skip(at + 1));
        } else {
            lemma_dir_files_split(new_dirs, at);
            assert(new_dirs.take(at) =~= dirs.take(at));
            assert(new_dirs.skip(at + 1) =~= dirs.skip(at));
            assert(dirs =~= dirs.take(at) + dirs.skip(at));
            lemma_dir_files_concat(dirs.take(at), dirs.skip(at));
            assert(all_dir_files(TreeView::empty()) =~= Seq::<FileView>::empty());
            assert(all_files(child) =~= Seq::<FileView>::empty());
            assert(head + old_mid + tail =~= head + tail);
        }
        let new_mid = all_files(grown);
        assert(all_dir_files(dirs) == head + old_mid + tail);
        assert(all_dir_files(new_dirs) == head + new_mid + tail);
        vstd::seq_lib::lemma_multiset_commutative(head, old_mid);
        vstd::seq_lib::lemma_multiset_commutative(head + old_mid, tail);
        vstd::seq_lib::lemma_multiset_commutative(head, new_mid);
        vstd::seq_lib::lemma_multiset_commutative(head + new_mid, tail);
        vstd::seq_lib::lemma_multiset_commutative(node.files, all_dir_files(dirs));
        vstd::seq_lib::lemma_multiset_commutative(node.files, all_dir_files(new_dirs));
        assert(all_files(after).to_multiset() =~= all_files(node).to_multiset().insert(file));
    }
}

/// The sorted list of directories, entry by entry.
pub proof fn lemma_sorted_dirs(dirs: TreeView)
    ensures
        sorted_dirs(dirs).len() == dirs.len(),
        forall|i: int|
            0 <= i < dirs.len() ==> #[trigger] sorted_dirs(dirs)[i] == (
                dirs[i].0,
                sorted_node(dirs[i].1),
            ),
    decreases dirs.len(),
{
    if dirs.len() > 0 {
        lemma_sorted_dirs(dirs.drop_last());
        assert forall|i: int| 0 <= i < dirs.len() implies #[trigger] sorted_dirs(dirs)[i] == (
            dirs[i].0,
            sorted_node(dirs[i].1),
        ) by {
            if i < dirs.len() - 1 {
                assert(dirs.drop_last()[i] == dirs[i]);
            }
        }
    }
}

/// Sorting keeps the files of the tree, each as often as it stood in it.
pub proof fn lemma_sorted_node_files(node: NodeView)
    ensures
        all_files(sorted_node(node)).to_multiset() == all_files(node).to_multiset(),
    decreases node,
{
    lemma_sorted_files(node.files);
    lemma_sorted_dirs_files(node.subdirs);
    vstd::seq_lib::lemma_multiset_commutative(
        sorted_files(node.files),
        all_dir_files(sorted_dirs(node.subdirs)),
    );
    vstd::seq_lib::lemma_multiset_commutative(node.files, all_dir_files(node.subdirs));
}

/// Sorting keeps the files of a list of directories, each as often as it stood in
/// it.
pub proof fn lemma_sorted_dirs_files(dirs: TreeView)
    ensures
        all_dir_files(sorted_dirs(dirs)).to_multiset() == all_dir_files(dirs).to_multiset(),
    decreases dirs,
{
    if dirs.len() > 0 {
        lemma_sorted_dirs_files(dirs.drop_last());
        lemma_sorted_node_files(dirs.last().1);
        let front = sorted_dirs(dirs.drop_last());
        let last = (dirs.last().0, sorted_node(dirs.last().1));
        assert(front.push(last).drop_last() =~= front);
        vstd::seq_lib::lemma_multiset_commutative(
            all_dir_files(front),
            all_files(sorted_node(dirs.last().1)),
        );
        vstd::seq_lib::lemma_multiset_commutative(
            all_dir_files(dirs.drop_last()),
            all_files(dirs.last().1),
        );
    }
}

/// Placing a file keeps every list of subdirectories in order.
pub proof fn lemma_placed_ordered(node: NodeView, chain: Seq<Seq<u8>>, file: FileView)
    requires
        well_ordered(node),
    ensures
        well_ordered(placed(node, chain, file)),
    decreases chain.len(),
{
    if chain.len() > 0 {
        let dirs = node.subdirs;
        let key = chain[0];
        let at = dir_slot(dirs, key);
        lemma_dir_slot(dirs, key);
        let child = dir_or_empty(dirs, key);
        if has_dir(dirs, key) {
            assert(well_ordered(dirs[at].1));
        }
        let grown = placed(child, chain.drop_first(), file);
        lemma_placed_ordered(child, chain.drop_first(), file);
        lemma_ordered_dirs(dirs, key, grown);
        let new_dirs = with_dir(dirs, key, grown);
        assert forall|i: int| 0 <= i < new_dirs.len() implies well_ordered(
            (#[trigger] new_dirs[i]).1,
        ) by {
            if i != at {
                let old = if has_dir(dirs, key) || i < at {
                    i
                } else {
                    i - 1
                };
                assert(new_dirs[i] == dirs[old]);
            }
        }
    }
}

/// Sorting keeps every list of subdirectories in order and leaves the file names of
/// every directory rising.
pub proof fn lemma_sorted_node_ordered(node: NodeView)
    requires
        well_ordered(node),
    ensures
        well_ordered(sorted_node(node)),
        well_sorted(sorted_node(node)),
    decreases node,
{
    lemma_sorted_files(node.files);
    lemma_sorted_dirs(node.subdirs);
    let dirs = node.subdirs;
    let after = sorted_dirs(dirs);
    assert forall|i: int, j: int| 0 <= i < j < after.len() implies lex_less(
        #[trigger] after[i].0,
        #[trigger] after[j].0,
    ) by {
        assert(after[i].0 == dirs[i].0);
        assert(after[j].0 == dirs[j].0);
    }
    assert forall|i: int| 0 <= i < after.len() implies well_ordered((#[trigger] after[i]).1)
        && well_sorted(after[i].1) by {
        assert(well_ordered(dirs[i].1));
        lemma_sorted_node_ordered(dirs[i].1);
    }
}

/// No directory of the tree below `node` holds nothing.
pub open spec fn no_empty_dirs(node: NodeView) -> bool
    decreases node,
{
    forall|i: int|
        0 <= i < node.subdirs.len() ==> !(#[trigger] node.subdirs[i]).1.is_empty() && no_empty_dirs(
            node.subdirs[i].1,
        )
}

/// Placing a file leaves no directory empty where none was.
pub proof fn lemma_placed_no_empty(node: NodeView, chain: Seq<Seq<u8>>, file: FileView)
    requires
        no_empty_dirs(node),
    ensures
        no_empty_dirs(placed(node, chain, file)),
        !placed(node, chain, file).is_empty(),
    decreases chain.len(),
{
    if chain.len() > 0 {
        let dirs = node.subdirs;
        let key = chain[0];
        let at = dir_slot(dirs, key);
        lemma_dir_slot(dirs, key);
        let child = dir_or_empty(dirs, key);
        if has_dir(dirs, key) {
            assert(no_empty_dirs(dirs[at].1));
        }
        let grown = placed(child, chain.drop_first(), file);
        lemma_placed_no_empty(child, chain.drop_first(), file);
        let new_dirs = with_dir(dirs, key, grown);
        assert forall|i: int| 0 <= i < new_dirs.len() implies !(#[trigger] new_dirs[i]).1.is_empty()
            && no_empty_dirs(new_dirs[i].1) by {
            if i != at {
                let old = if has_dir(dirs, key) || i < at {
                    i
                } else {
                    i - 1
                };
                assert(new_dirs[i] == dirs[old]);
            }
        }
    }
}

/// Sorting leaves no directory empty where none was.
pub proof fn lemma_sorted_no_empty(node: NodeView)
    requires
        no_empty_dirs(node),
    ensures
        no_empty_dirs(sorted_node(node)),
        sorted_node(node).is_empty() == node.is_empty(),
    decreases node,
{
    lemma_sorted_files(node.files);
    lemma_sorted_dirs(node.subdirs);
    let dirs = node.subdirs;
    let after = sorted_dirs(dirs);
    assert forall|i: int| 0 <= i < after.len() implies !(#[trigger] after[i]).1.is_empty()
        && no_empty_dirs(after[i].1) by {
        assert(!dirs[i].1.is_empty() && no_empty_dirs(dirs[i].1));
        lemma_sorted_no_empty(dirs[i].1);
    }
}

/// Filtering a tree without empty directories with a predicate that keeps every
/// file leaves the tree as it is.
pub proof fn lemma_filter_keeps_tree(node: NodeView, keep: spec_fn(FileView) -> bool)
    requires
        forall|file: FileView| #[trigger] keep(file),
        no_empty_dirs(node),
    ensures
        filtered(node, keep) == node,
    decreases node,
{
    lemma_keep_all_files(node.files, keep);
    lemma_filter_dirs_keeps_tree(node.subdirs, keep);
}

/// Filtering a list of directories none of which holds an empty directory or is
/// one, with a predicate that keeps every file, leaves the list as it is.
pub proof fn lemma_filter_dirs_keeps_tree(dirs: TreeView, keep: spec_fn(FileView) -> bool)
    requires
        forall|file: FileView| #[trigger] keep(file),
        forall|i: int|
            0 <= i < dirs.len() ==> !(#[trigger] dirs[i]).1.is_empty() && no_empty_dirs(dirs[i].1),
    ensures
        filtered_dirs(dirs, keep) == dirs,
    decreases dirs,
{
    if dirs.len() > 0 {
        let front = dirs.drop_last();
        assert forall|i: int| 0 <= i < front.len() implies !(#[trigger] front[i]).1.is_empty()
            && no_empty_dirs(front[i].1) by {
            assert(front[i] == dirs[i]);
        }
        lemma_filter_dirs_keeps_tree(front, keep);
        assert(!dirs[dirs.len() - 1].1.is_empty() && no_empty_dirs(dirs[dirs.len() - 1].1));
        lemma_filter_keeps_tree(dirs.last().1, keep);
        assert(front.push(dirs.last()) =~= dirs);
    }
}

/// Filtering keeps every list of subdirectories in order.
pub proof fn lemma_filtered_ordered(node: NodeView, keep: spec_fn(FileView) -> bool)
    requires
        well_ordered(node),
    ensures
        well_ordered(filtered(node, keep)),
    decreases node,
{
    lemma_filtered_dirs_ordered(node.subdirs, keep);
}

/// Filtering a list of directories that is in order, as every list below it is,
/// leaves such a list: what stays are directories of the list, in their order.
pub proof fn lemma_filtered_dirs_ordered(dirs: TreeView, keep: spec_fn(FileView) -> bool)
    requires
        ordered(dirs),
        forall|i: int| 0 <= i < dirs.len() ==> well_ordered((#[trigger] dirs[i]).1),
    ensures
        ordered(filtered_dirs(dirs, keep)),
        forall|j: int|
            0 <= j < filtered_dirs(dirs, keep).len() ==> well_ordered(
                (#[trigger] filtered_dirs(dirs, keep)[j]).1,
            ),
        forall|j: int|
            0 <= j < filtered_dirs(dirs, keep).len() ==> exists|i: int|
                0 <= i < dirs.len() && (#[trigger] dirs[i]).0 == (#[trigger] filtered_dirs(
                    dirs,
                    keep,
                )[j]).0,
    decreases dirs,
{
    if dirs.len() > 0 {
        let front = dirs.drop_last();
        let last = dirs.last();
        assert forall|i: int, j: int| 0 <= i < j < front.len() implies lex_less(
            #[trigger] front[i].0,
            #[trigger] front[j].0,
        ) by {
            assert(front[i] == dirs[i] && front[j] == dirs[j]);
        }
        assert forall|i: int| 0 <= i < front.len() implies well_ordered((#[trigger] front[i]).1) by {
            assert(front[i] == dirs[i]);
        }
        lemma_filtered_dirs_ordered(front, keep);
        assert(well_ordered(dirs[dirs.len() - 1].1));
        lemma_filtered_ordered(last.1, keep);
        let kept = filtered_dirs(front, keep);
        let after = filtered_dirs(dirs, keep);
        assert forall|j: int| 0 <= j < after.len() implies exists|i: int|
            0 <= i < dirs.len() && (#[trigger] dirs[i]).0 == (#[trigger] after[j]).0 by {
            if j < kept.len() {
                assert(after[j] == kept[j]);
                let i = choose|i: int| 0 <= i < front.len() && (#[trigger] front[i]).0 == kept[j].0;
                assert(dirs[i] == front[i]);
            } else {
                assert(dirs[dirs.len() - 1].0 == after[j].0);
            }
        }
        assert forall|i: int, j: int| 0 <= i < j < after.len() implies lex_less(
            #[trigger] after[i].0,
            #[trigger] after[j].0,
        ) by {
            assert(after[i] == kept[i]);
            if j < kept.len() {
                assert(after[j] == kept[j]);
            } else {
                let k = choose|k: int| 0 <= k < front.len() && (#[trigger] front[k]).0 == kept[i].0;
                assert(dirs[k] == front[k]);
                assert(lex_less(dirs[k].0, dirs[dirs.len() - 1].0));
            }
        }
        assert forall|j: int| 0 <= j < after.len() implies well_ordered((#[trigger] after[j]).1) by {
            if j < kept.len() {
                assert(after[j] == kept[j]);
            }
        }
    }
}

/// Whether the file name of `a` stands before that of `b`.
fn name_before(a: &VfsFile, b: &VfsFile) -> (before: bool)
    ensures
        before == sorts_before(a@, b@),
{
    match (a.file_name(), b.file_name()) {
        (None, None) => false,
        (None, Some(_)) => true,
        (Some(_), None) => false,
        (Some(x), Some(y)) => crate::path::bytes_less(x, y),
    }
}

/// The place of `file` among the sorted files `sorted`.
fn find_name_slot(sorted: &Vec<VfsFile>, file: &VfsFile) -> (at: usize)
    ensures
        at == name_slot(file_views(sorted@), file@),
        at <= sorted@.len(),
{
    let ghost list = file_views(sorted@);
    let mut i: usize = 0;
    assert(list.skip(0) =~= list);
    while i < sorted.len() && !name_before(file, &sorted[i])
        invariant
            i <= sorted@.len(),
            list == file_views(sorted@),
            name_slot(list, file@) == i + name_slot(list.skip(i as int), file@),
        decreases sorted@.len() - i,
    {
        assert(list.skip(i as int)[0] == list[i as int]);
        assert(list.skip(i as int).drop_first() =~= list.skip(i + 1));
        i += 1;
    }
    proof {
        if i < sorted@.len() {
            assert(list.skip(i as int)[0] == list[i as int]);
        }
    }
    i
}

/// Takes the file at `index` out of `files` and leaves the default file there.
fn take_file(files: &mut Vec<VfsFile>, index: usize) -> (file: VfsFile)
    requires
        index < old(files)@.len(),
    ensures
        file == old(files)@[index as int],
        final(files)@.len() == old(files)@.len(),
        forall|i: int| 0 <= i < old(files)@.len() && i != index ==> final(files)@[i] == old(files)@[i],
{
    let mut file = VfsFile::default();
    std::mem::swap(&mut file, &mut files[index]);
    file
}

/// Takes the entry at `index` out of `entries` and leaves an empty one there.
fn take_entry(entries: &mut Vec<(Vec<u8>, DirectoryNode)>, index: usize) -> (entry: (
    Vec<u8>,
    DirectoryNode,
))
    requires
        index < old(entries)@.len(),
    ensures
        entry == old(entries)@[index as int],
        final(entries)@.len() == old(entries)@.len(),
        forall|i: int|
            0 <= i < old(entries)@.len() && i != index ==> final(entries)@[i] == old(entries)@[i],
{
    let mut entry = (Vec::new(), DirectoryNode::new());
    std::mem::swap(&mut entry, &mut entries[index]);
    entry
}

impl DisplayTree {
    /// The paths of the mapping rise strictly from each entry to the next, so none
    /// stands twice.
    #[verifier::type_invariant]
    pub closed spec fn wf(self) -> bool {
        ordered(entries_view(self.entries@))
    }

    /// The entries of a mapping stand in the strict order of their paths.
    pub proof fn lemma_ordered(&self)
        requires
            self.wf(),
        ensures
            ordered(self@),
    {
    }

    /// An empty mapping.
    pub fn new() -> (tree: Self)
        ensures
            tree@ == TreeView::empty(),
            tree.wf(),
    {
        DisplayTree { entries: Vec::new() }
    }

    /// The number of directories directly in the mapping.
    pub fn len(&self) -> (n: usize)
        ensures
            n == self@.len(),
    {
        proof {
            lemma_entries_view(self.entries@);
        }
        self.entries.len()
    }

    /// Whether the mapping holds no directory.
    pub fn is_empty(&self) -> (empty: bool)
        ensures
            empty == (self@.len() == 0),
    {
        proof {
            lemma_entries_view(self.entries@);
        }
        self.entries.len() == 0
    }

    /// The path and the directory of the entry at `index`, in the mapping's order.
    pub fn entry(&self, index: usize) -> (entry: (&[u8], &DirectoryNode))
        requires
            index < self@.len(),
        ensures
            (entry.0@, entry.1@) == self@[index as int],
            self.wf(),
    {
        proof {
            use_type_invariant(self);
            lemma_entries_view(self.entries@);
        }
        let pair = &self.entries[index];
        (pair.0.as_slice(), &pair.1)
    }

    /// The place of `key`: the index of the first entry whose path does not stand
    /// before it.
    fn slot(&self, key: &[u8]) -> (at: usize)
        ensures
            at == dir_slot(self@, key@),
            at <= self.entries@.len(),
            self@.len() == self.entries@.len(),
            ordered(self@),
    {
        proof {
            use_type_invariant(self);
            lemma_entries_view(self.entries@);
        }
        let mut i: usize = 0;
        assert(self@.skip(0) =~= self@);
        while i < self.entries.len() && crate::path::bytes_less(self.entries[i].0.as_slice(), key)
            invariant
                i <= self.entries@.len(),
                self@.len() == self.entries@.len(),
                forall|k: int|
                    0 <= k < self.entries@.len() ==> (#[trigger] self@[k]).0
                        == self.entries@[k].0@,
                dir_slot(self@, key@) == i + dir_slot(self@.skip(i as int), key@),
            decreases self.entries@.len() - i,
        {
            assert(self@.skip(i as int)[0] == self@[i as int]);
            assert(self@.skip(i as int).drop_first() =~= self@.skip(i + 1));
            i += 1;
        }
        proof {
            if i < self.entries@.len() {
                assert(self@.skip(i as int)[0] == self@[i as int]);
            }
        }
        i
    }

    /// Whether the mapping holds a directory under `key`.
    pub fn contains_key(&self, key: &[u8]) -> (held: bool)
        ensures
            held == has_dir(self@, key@),
            held == exists|i: int| 0 <= i < self@.len() && (#[trigger] self@[i]).0 == key@,
    {
        let at = self.slot(key);
        proof {
            lemma_entries_view(self.entries@);
            lemma_ordered_dirs(self@, key@, NodeView::empty());
        }
        at < self.entries.len() && crate::path::bytes_eq(self.entries[at].0.as_slice(), key)
    }

    /// The directory under `key`, where the mapping holds one.
    pub fn get(&self, key: &[u8]) -> (dir: Option<&DirectoryNode>)
        ensures
            match dir {
                Some(node) => has_dir(self@, key@) && node@ == dir_or_empty(self@, key@)
                    && exists|i: int| 0 <= i < self@.len() && #[trigger] self@[i] == (key@, node@),
                None => !has_dir(self@, key@) && forall|i: int|
                    0 <= i < self@.len() ==> (#[trigger] self@[i]).0 != key@,
            },
    {
        let at = self.slot(key);
        proof {
            lemma_entries_view(self.entries@);
            lemma_ordered_dirs(self@, key@, NodeView::empty());
        }
        if at < self.entries.len() && crate::path::bytes_eq(self.entries[at].0.as_slice(), key) {
            assert(self@[at as int] == (key@, node_view(self.entries@[at as int].1)));
            Some(&self.entries[at].1)
        } else {
            None
        }
    }

    /// Puts `node` under `key`, in place of the directory that the mapping held
    /// there, if any.
    pub fn insert(&mut self, key: &[u8], node: DirectoryNode)
        ensures
            final(self)@ == with_dir(old(self)@, key@, node@),
            final(self).wf(),
    {
        let at = self.slot(key);
        let ghost dirs = self@;
        let mut entries: Vec<(Vec<u8>, DirectoryNode)> = Vec::new();
        std::mem::swap(&mut entries, &mut self.entries);
        proof {
            lemma_entries_view(entries@);
        }
        let owned = crate::path::to_vec(key);
        if at < entries.len() && crate::path::bytes_eq(entries[at].0.as_slice(), key) {
            entries[at] = (owned, node);
        } else {
            entries.insert(at, (owned, node));
        }
        proof {
            lemma_entries_view(entries@);
            assert(entries_view(entries@) =~= with_dir(dirs, key@, node@));
            lemma_ordered_dirs(dirs, key@, node@);
        }
        self.entries = entries;
    }
}

impl DirectoryNode {
    /// A directory that holds nothing.
    pub fn new() -> (node: Self)
        ensures
            node@ == NodeView::empty(),
    {
        let node = DirectoryNode { files: Vec::new(), subdirs: DisplayTree::new() };
        assert(node@.files =~= Seq::<FileView>::empty());
        node
    }

    /// Whether the directory holds neither a file nor a subdirectory.
    pub fn is_empty(&self) -> (empty: bool)
        ensures
            empty == self@.is_empty(),
    {
        self.files.len() == 0 && self.subdirs.is_empty()
    }

    /// Adds `file` to the directory that the chain of directory paths `chain` leads
    /// to, starting here. Directories along the chain that are not there yet are
    /// made.
    pub fn place(&mut self, chain: &[Vec<u8>], file: VfsFile)
        ensures
            final(self)@ == placed(old(self)@, crate::path::views(chain@), file@),
        decreases chain@.len(),
    {
        let ghost all = crate::path::views(chain@);
        if chain.len() == 0 {
            let ghost before = file_views(self.files@);
            self.files.push(file);
            assert(file_views(self.files@) =~= before.push(file@));
        } else {
            let key: &[u8] = chain[0].as_slice();
            let rest = vstd::slice::slice_subrange(chain, 1, chain.len());
            assert(all[0] == key@);
            assert(crate::path::views(rest@) =~= all.drop_first());
            let at = self.subdirs.slot(key);
            let ghost dirs = self.subdirs@;
            let mut entries: Vec<(Vec<u8>, DirectoryNode)> = Vec::new();
            std::mem::swap(&mut entries, &mut self.subdirs.entries);
            proof {
                lemma_entries_view(entries@);
            }
            let found = at < entries.len() && crate::path::bytes_eq(entries[at].0.as_slice(), key);
            if !found {
                entries.insert(at, (crate::path::to_vec(key), DirectoryNode::new()));
            }
            let ghost middle = entries@;
            proof {
                lemma_entries_view(middle);
            }
            let child = &mut entries[at].1;
            child.place(rest, file);
            proof {
                let grown = placed(dir_or_empty(dirs, key@), all.drop_first(), file@);
                lemma_entries_view(entries@);
                assert(entries@ == middle.update(at as int, (middle[at as int].0, entries@[at as int].1)));
                assert(entries_view(entries@) =~= with_dir(dirs, key@, grown));
                lemma_ordered_dirs(dirs, key@, grown);
            }
            self.subdirs.entries = entries;
        }
    }

    /// Sorts the files of the directory, and of every directory below it, by file
    /// name. Files of one name keep their order.
    pub fn sort(&mut self)
        ensures
            final(self)@ == sorted_node(old(self)@),
        decreases *old(self),
    {
        let mut unsorted: Vec<VfsFile> = Vec::new();
        std::mem::swap(&mut unsorted, &mut self.files);
        let ghost all = file_views(unsorted@);
        let mut sorted: Vec<VfsFile> = Vec::new();
        let mut i: usize = 0;
        assert(all.take(0) =~= Seq::<FileView>::empty());
        assert(file_views(sorted@) =~= sorted_files(all.take(0)));
        while i < unsorted.len()
            invariant
                i <= unsorted@.len(),
                unsorted@.len() == all.len(),
                forall|k: int| i <= k < all.len() ==> (#[trigger] unsorted@[k])@ == all[k],
                file_views(sorted@) == sorted_files(all.take(i as int)),
            decreases unsorted@.len() - i,
        {
            let file = take_file(&mut unsorted, i);
            let at = find_name_slot(&sorted, &file);
            let ghost before = file_views(sorted@);
            sorted.insert(at, file);
            assert(file_views(sorted@) =~= before.insert(at as int, all[i as int]));
            assert(all.take(i + 1).drop_last() =~= all.take(i as int));
            i += 1;
        }
        assert(all.take(i as int) =~= all);
        self.files = sorted;
        proof {
            use_type_invariant(&self.subdirs);
        }
        let mut entries: Vec<(Vec<u8>, DirectoryNode)> = Vec::new();
        std::mem::swap(&mut entries, &mut self.subdirs.entries);
        let ghost dirs = entries@;
        proof {
            lemma_entries_view(dirs);
        }
        let mut j: usize = 0;
        assert(entries_view(dirs).take(0) =~= TreeView::empty());
        assert(entries_view(entries@).take(0) =~= TreeView::empty());
        while j < entries.len()
            invariant
                j <= dirs.len(),
                dirs == old(self).subdirs.entries@,
                entries@.len() == dirs.len(),
                forall|k: int| j <= k < dirs.len() ==> entries@[k] == dirs[k],
                forall|k: int| 0 <= k < dirs.len() ==> (#[trigger] entries@[k]).0 == dirs[k].0,
                entries_view(entries@).take(j as int) == sorted_dirs(
                    entries_view(dirs).take(j as int),
                ),
            decreases dirs.len() - j,
        {
            let ghost before = entries@;
            proof {
                lemma_entries_view(before);
                lemma_entries_view(dirs);
            }
            assert(decreases_to!(*old(self) => dirs[j as int].1));
            let child = &mut entries[j].1;
            child.sort();
            proof {
                let after = entries@;
                lemma_entries_view(after);
                assert(after == before.update(j as int, (before[j as int].0, after[j as int].1)));
                assert(entries_view(dirs).take(j + 1).drop_last() =~= entries_view(dirs).take(
                    j as int,
                ));
                assert(entries_view(after).take(j + 1) =~= entries_view(before).take(j as int).push(
                    (dirs[j as int].0@, sorted_node(node_view(dirs[j as int].1))),
                ));
            }
            j += 1;
        }
        proof {
            lemma_entries_view(entries@);
            lemma_entries_view(dirs);
            assert(entries_view(entries@).take(j as int) =~= entries_view(entries@));
            assert(entries_view(dirs).take(j as int) =~= entries_view(dirs));
            assert forall|a: int, b: int| 0 <= a < b < entries_view(entries@).len() implies lex_less(
                #[trigger] entries_view(entries@)[a].0,
                #[trigger] entries_view(entries@)[b].0,
            ) by {
                assert(entries_view(entries@)[a].0 == entries_view(dirs)[a].0);
                assert(entries_view(entries@)[b].0 == entries_view(dirs)[b].0);
            }
        }
        self.subdirs.entries = entries;
    }

    /// Keeps the files for which `file_filter` answers `true`, in this directory and
    /// in every directory below it, and drops the subdirectories that are left
    /// holding nothing.
    pub fn filter<F: Fn(&VfsFile) -> bool>(&mut self, file_filter: &F)
        requires
            forall|file: &VfsFile| #[trigger] file_filter.requires((file,)),
        ensures
            forall|keep: spec_fn(FileView) -> bool| #[trigger]
                decides(file_filter, keep) ==> final(self)@ == filtered(old(self)@, keep),
        decreases *old(self),
    {
        let mut files: Vec<VfsFile> = Vec::new();
        std::mem::swap(&mut files, &mut self.files);
        let ghost all = file_views(files@);
        let mut kept: Vec<VfsFile> = Vec::new();
        let mut i: usize = 0;
        assert(all.take(0) =~= Seq::<FileView>::empty());
        assert(file_views(kept@) =~= Seq::<FileView>::empty());
        while i < files.len()
            invariant
                i <= files@.len(),
                files@.len() == all.len(),
                forall|file: &VfsFile| #[trigger] file_filter.requires((file,)),
                forall|k: int| i <= k < all.len() ==> (#[trigger] files@[k])@ == all[k],
                forall|keep: spec_fn(FileView) -> bool| #[trigger]
                    decides(file_filter, keep) ==> file_views(kept@) == kept_files(
                        all.take(i as int),
                        keep,
                    ),
            decreases files@.len() - i,
        {
            let file = take_file(&mut files, i);
            let ghost before = file_views(kept@);
            let ghost view = file@;
            assert(all.take(i + 1).drop_last() =~= all.take(i as int));
            if file_filter(&file) {
                kept.push(file);
                assert(file_views(kept@) =~= before.push(view));
            }
            i += 1;
        }
        assert(all.take(i as int) =~= all);
        self.files = kept;
        proof {
            use_type_invariant(&self.subdirs);
        }
        let mut entries: Vec<(Vec<u8>, DirectoryNode)> = Vec::new();
        std::mem::swap(&mut entries, &mut self.subdirs.entries);
        let ghost dirs = entries@;
        let mut left: Vec<(Vec<u8>, DirectoryNode)> = Vec::new();
        let mut j: usize = 0;
        proof {
            lemma_entries_view(dirs);
        }
        assert(entries_view(dirs).take(0) =~= TreeView::empty());
        assert(entries_view(left@) =~= TreeView::empty());
        while j < entries.len()
            invariant
                j <= entries@.len(),
                entries@.len() == dirs.len(),
                dirs == old(self).subdirs.entries@,
                ordered(entries_view(dirs)),
                forall|file: &VfsFile| #[trigger] file_filter.requires((file,)),
                forall|k: int| j <= k < dirs.len() ==> entries@[k] == dirs[k],
                ordered(entries_view(left@)),
                forall|m: int, k: int|
                    0 <= m < entries_view(left@).len() && j <= k < dirs.len() ==> lex_less(
                        (#[trigger] entries_view(left@)[m]).0,
                        (#[trigger] entries_view(dirs)[k]).0,
                    ),
                forall|keep: spec_fn(FileView) -> bool| #[trigger]
                    decides(file_filter, keep) ==> entries_view(left@) == filtered_dirs(
                        entries_view(dirs).take(j as int),
                        keep,
                    ),
            decreases entries@.len() - j,
        {
            let (key, mut child) = take_entry(&mut entries, j);
            let ghost before = entries_view(left@);
            proof {
                lemma_entries_view(dirs);
                assert(entries_view(dirs).take(j + 1).drop_last() =~= entries_view(dirs).take(
                    j as int,
                ));
            }
            assert(decreases_to!(*old(self) => dirs[j as int].1));
            child.filter(file_filter);
            let ghost now = node_view(child);
            if !child.is_empty() {
                proof {
                    lemma_entries_view(left@);
                }
                left.push((key, child));
                proof {
                    lemma_entries_view(left@);
                    let after = entries_view(left@);
                    assert(after =~= before.push((dirs[j as int].0@, now)));
                    assert forall|m: int, k: int|
                        0 <= m < after.len() && j + 1 <= k < dirs.len() implies lex_less(
                        (#[trigger] after[m]).0,
                        (#[trigger] entries_view(dirs)[k]).0,
                    ) by {
                        if m < before.len() {
                            assert(after[m] == before[m]);
                        } else {
                            assert(after[m].0 == entries_view(dirs)[j as int].0);
                        }
                    }
                    assert forall|a: int, b: int| 0 <= a < b < after.len() implies lex_less(
                        #[trigger] after[a].0,
                        #[trigger] after[b].0,
                    ) by {
                        assert(after[a] == before[a]);
                        if b < before.len() {
                            assert(after[b] == before[b]);
                        } else {
                            assert(after[b].0 == entries_view(dirs)[j as int].0);
                        }
                    }
                }
            }
            j += 1;
        }
        assert(entries_view(dirs).take(j as int) =~= entries_view(dirs));
        self.subdirs.entries = left;
    }
}

} // verus!
