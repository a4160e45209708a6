//! The virtual file system: one flat namespace over data directories and archives.
//!
//! A file is found under its key, the normalized form of its path relative to the
//! data directory it comes from, or of its name inside the archive that holds it.
//! Where several layers hold a file under one key, a loose file goes before an
//! archived one, a later data directory before an earlier one, and a later archive
//! before an earlier one.

use vstd::prelude::*;
use crate::archives::{
    all_archive_bindings, archive_bindings, archive_views, resolved, source_views, ArchiveSource,
    ArchiveView, SourceView,
};
use crate::directory_node::{
    all_dir_files, all_files, decides, filtered, lemma_filter_keeps_none,
    lemma_filter_keeps_tree, lemma_placed_files, lemma_placed_no_empty, lemma_placed_ordered,
    lemma_sorted_no_empty, lemma_sorted_node_files, lemma_sorted_node_ordered, no_empty_dirs,
    placed, sorted_node, well_ordered, well_sorted, DirectoryNode, DisplayTree, NodeView, TreeView,
};
use crate::display_tree::tree_text;
use crate::files::{
    bindings, entries_view, lemma_bindings_concat, lemma_bindings_dom, lemma_bindings_last,
    lemma_bindings_rising, Binding, VFSFiles,
};
use crate::path::{
    ancestry, contains_bytes, ends_with, file_name_of, is_normalized, joined,
    lemma_normalize_idempotent, lemma_normalized_is_normalized, lemma_relative_is_tail, normalized,
    parent_of, relative_to, starts_with, views, SEPARATOR,
};
use crate::vfs_file::{FileView, VfsFile};

verus! {

/// A data directory and the files that were found in it, each by its path on disk.
pub struct DataRoot {
    /// The path of the data directory.
    pub dir: Vec<u8>,
    /// The paths of the files below it, in the order in which they were found.
    pub files: Vec<Vec<u8>>,
}

/// What a `DataRoot` holds.
pub struct RootView {
    /// The path of the data directory.
    pub dir: Seq<u8>,
    /// The paths of the files below it, in the order in which they were found.
    pub files: Seq<Seq<u8>>,
}

impl View for DataRoot {
    type V = RootView;

    open spec fn view(&self) -> RootView {
        RootView { dir: self.dir@, files: views(self.files@) }
    }
}

/// What a list of data directories holds.
pub open spec fn root_views(roots: Seq<DataRoot>) -> Seq<RootView> {
    Seq::new(roots.len(), |i: int| roots[i]@)
}

/// The key of a loose file: its path relative to its data directory, normalized.
pub open spec fn loose_key(dir: Seq<u8>, file: Seq<u8>) -> Seq<u8> {
    normalized(relative_to(file, dir))
}

/// The binding that a loose file of a data directory contributes.
pub open spec fn loose_binding(dir: Seq<u8>, file: Seq<u8>) -> Binding {
    (loose_key(dir, file), FileView::Loose { path: file })
}

/// The bindings that one data directory contributes: each of its files under its
/// key, in the order in which the files were found.
pub open spec fn root_bindings(root: RootView) -> Seq<Binding> {
    Seq::new(root.files.len(), |i: int| loose_binding(root.dir, root.files[i]))
}

/// The bindings that a list of data directories contributes: those of the first
/// directory, then those of the second, and so on.
pub open spec fn loose_bindings(roots: Seq<RootView>) -> Seq<Binding>
    decreases roots.len(),
{
    if roots.len() == 0 {
        Seq::empty()
    } else {
        loose_bindings(roots.drop_last()) + root_bindings(roots.last())
    }
}

/// The archives that take part in a file system over the data directories `roots`:
/// those that the sources give when their names are looked up among the loose files.
pub open spec fn archives_of(roots: Seq<RootView>, sources: Option<Seq<SourceView>>) -> Seq<
    ArchiveView,
> {
    match sources {
        Some(list) => resolved(bindings(loose_bindings(roots)), list),
        None => Seq::empty(),
    }
}

/// Every binding of the file system over `roots` and `archives`, lowest layer
/// first: the files of the archives in the order of the archives, then the loose
/// files in the order of the data directories.
pub open spec fn layers(roots: Seq<RootView>, archives: Seq<ArchiveView>) -> Seq<Binding> {
    all_archive_bindings(archives) + loose_bindings(roots)
}

/// A key and a file belong together: the key is normalized, and the normalized path
/// of the file ends with it.
pub open spec fn consistent(key: Seq<u8>, file: FileView) -> bool {
    is_normalized(key) && ends_with(normalized(file.path()), key)
}

/// Every binding of `files` is consistent.
pub open spec fn all_consistent(files: Map<Seq<u8>, FileView>) -> bool {
    forall|key: Seq<u8>| #[trigger] files.contains_key(key) ==> consistent(key, files[key])
}

/// The entries of `list` whose key meets `wanted`, in the order of the list.
pub open spec fn selected(list: Seq<Binding>, wanted: spec_fn(Seq<u8>) -> bool) -> Seq<Binding>
    decreases list.len(),
{
    if list.len() == 0 {
        Seq::empty()
    } else if wanted(list.last().0) {
        selected(list.drop_last(), wanted).push(list.last())
    } else {
        selected(list.drop_last(), wanted)
    }
}

/// What a list of borrowed entries holds.
pub open spec fn pairs_view(pairs: Seq<(&[u8], &VfsFile)>) -> Seq<Binding> {
    Seq::new(pairs.len(), |i: int| (pairs[i].0@, pairs[i].1@))
}

/// Some file of `files` lies at exactly the normalized form of `target`.
pub open spec fn holds_path(files: Map<Seq<u8>, FileView>, target: Seq<u8>) -> bool {
    exists|key: Seq<u8>| #[trigger] files.contains_key(key) && files[key].path() == normalized(target)
}

/// The normalized form of `target` ends with some key of `files`.
pub open spec fn holds_tail(files: Map<Seq<u8>, FileView>, target: Seq<u8>) -> bool {
    exists|key: Seq<u8>| #[trigger] files.contains_key(key) && ends_with(normalized(target), key)
}

/// The normalized form of `target` ends with the key of some file of `files` that
/// does not lie at `target` itself.
pub open spec fn holds_other(files: Map<Seq<u8>, FileView>, target: Seq<u8>) -> bool {
    exists|key: Seq<u8>| #[trigger]
        files.contains_key(key) && ends_with(normalized(target), key) && files[key].path()
            != target
}

/// The bindings of data directories are consistent.
pub proof fn lemma_loose_consistent(roots: Seq<RootView>)
    ensures
        forall|i: int|
            0 <= i < loose_bindings(roots).len() ==> consistent(
                (#[trigger] loose_bindings(roots)[i]).0,
                loose_bindings(roots)[i].1,
            ),
    decreases roots.len(),
{
    if roots.len() > 0 {
        lemma_loose_consistent(roots.drop_last());
        let front = loose_bindings(roots.drop_last());
        let own = root_bindings(roots.last());
        assert forall|i: int| 0 <= i < loose_bindings(roots).len() implies consistent(
            (#[trigger] loose_bindings(roots)[i]).0,
            loose_bindings(roots)[i].1,
        ) by {
            if i >= front.len() {
                let file = roots.last().files[i - front.len()];
                assert(loose_bindings(roots)[i] == loose_binding(roots.last().dir, file));
                lemma_relative_is_tail(file, roots.last().dir);
                lemma_normalized_is_normalized(relative_to(file, roots.last().dir));
            } else {
                assert(loose_bindings(roots)[i] == front[i]);
            }
        }
    }
}

/// The bindings of archives are consistent.
pub proof fn lemma_archives_consistent(archives: Seq<ArchiveView>)
    ensures
        forall|i: int|
            0 <= i < all_archive_bindings(archives).len() ==> consistent(
                (#[trigger] all_archive_bindings(archives)[i]).0,
                all_archive_bindings(archives)[i].1,
            ),
    decreases archives.len(),
{
    if archives.len() > 0 {
        lemma_archives_consistent(archives.drop_last());
        let front = all_archive_bindings(archives.drop_last());
        let own = archive_bindings(archives.last());
        assert forall|i: int| 0 <= i < all_archive_bindings(archives).len() implies consistent(
            (#[trigger] all_archive_bindings(archives)[i]).0,
            all_archive_bindings(archives)[i].1,
        ) by {
            if i >= front.len() {
                let entry = own[i - front.len()];
                assert(all_archive_bindings(archives)[i] == entry);
                lemma_normalized_is_normalized(entry.1.path());
                let key = normalized(entry.1.path());
                assert(key.subrange(0, key.len() as int) =~= key);
            } else {
                assert(all_archive_bindings(archives)[i] == front[i]);
            }
        }
    }
}

/// A list of consistent bindings makes a map whose bindings are all consistent.
pub proof fn lemma_consistent_map(list: Seq<Binding>)
    requires
        forall|i: int| 0 <= i < list.len() ==> consistent((#[trigger] list[i]).0, list[i].1),
    ensures
        all_consistent(bindings(list)),
    decreases list.len(),
{
    if list.len() > 0 {
        let front = list.drop_last();
        assert forall|i: int| 0 <= i < front.len() implies consistent(
            (#[trigger] front[i]).0,
            front[i].1,
        ) by {
            assert(front[i] == list[i]);
        }
        lemma_consistent_map(front);
        assert(consistent(list[list.len() - 1].0, list[list.len() - 1].1));
    }
}

/// The path of the root of the projected tree: `Data Files` for the tree of
/// relative paths, `/` for the tree of paths on disk.
pub open spec fn root_path(relative: bool) -> Seq<u8> {
    if relative {
        seq![0x44u8, 0x61u8, 0x74u8, 0x61u8, 0x20u8, 0x46u8, 0x69u8, 0x6Cu8, 0x65u8, 0x73u8]
    } else {
        seq![SEPARATOR]
    }
}

/// The path under which the tree shows an entry. In the tree of relative paths, the
/// key, behind the file name of the archive for an archived file. In the tree of
/// paths on disk, the path of a loose file, and for an archived file the key behind
/// the path of the archive.
pub open spec fn projection_path(entry: Binding, relative: bool) -> Seq<u8> {
    let parent = match entry.1.archive() {
        Some(archive) => if relative {
            file_name_of(archive.path)
        } else {
            Some(archive.path)
        },
        None => None,
    };
    match parent {
        Some(dir) => joined(dir, entry.0),
        None => if relative {
            entry.0
        } else {
            entry.1.path()
        },
    }
}

/// The directory in which the tree shows a path: its parent, or the root where it
/// has none or an empty one.
pub open spec fn directory_of(path: Seq<u8>, relative: bool) -> Seq<u8> {
    match parent_of(path) {
        Some(dir) => if dir.len() > 0 {
            dir
        } else {
            root_path(relative)
        },
        None => root_path(relative),
    }
}

/// `chain` without the paths that are `root`.
pub open spec fn without(chain: Seq<Seq<u8>>, root: Seq<u8>) -> Seq<Seq<u8>>
    decreases chain.len(),
{
    if chain.len() == 0 {
        Seq::empty()
    } else if chain.last() == root {
        without(chain.drop_last(), root)
    } else {
        without(chain.drop_last(), root).push(chain.last())
    }
}

/// The directories that lead from the root of the tree to the directory in which
/// the tree shows an entry.
pub open spec fn chain_of(entry: Binding, relative: bool) -> Seq<Seq<u8>> {
    without(
        ancestry(directory_of(projection_path(entry, relative), relative)),
        root_path(relative),
    )
}

/// The file that the tree shows for an entry: a loose file as it is, an archived
/// file under the path under which the tree shows it.
pub open spec fn projected_file(entry: Binding, relative: bool) -> FileView {
    match entry.1 {
        FileView::Loose { path } => FileView::Loose { path },
        FileView::Archived { path, archive } => FileView::Archived {
            path: projection_path(entry, relative),
            archive,
        },
    }
}

/// The root of the tree before sorting: every entry of `list`, in the order of the
/// list, placed in the directory in which the tree shows it.
pub open spec fn projected_root(list: Seq<Binding>, relative: bool) -> NodeView
    decreases list.len(),
{
    if list.len() == 0 {
        NodeView::empty()
    } else {
        placed(
            projected_root(list.drop_last(), relative),
            chain_of(list.last(), relative),
            projected_file(list.last(), relative),
        )
    }
}

/// The projected tree of the entries `list`: its one root, with the files of every
/// directory sorted by file name.
pub open spec fn projection(list: Seq<Binding>, relative: bool) -> TreeView {
    seq![(root_path(relative), sorted_node(projected_root(list, relative)))]
}

/// The projected tree of the entries `list` with only the files that `keep` keeps.
/// The root stays even where nothing is left in it.
pub open spec fn filtered_projection(
    list: Seq<Binding>,
    relative: bool,
    keep: spec_fn(FileView) -> bool,
) -> TreeView {
    seq![(root_path(relative), filtered(sorted_node(projected_root(list, relative)), keep))]
}

/// Every binding of a data directory is a loose file of that directory, bound to
/// its key.
pub proof fn lemma_root_binds_own(root: RootView, key: Seq<u8>)
    requires
        bindings(root_bindings(root)).contains_key(key),
    ensures
        exists|i: int|
            0 <= i < root.files.len() && loose_key(root.dir, #[trigger] root.files[i]) == key
                && bindings(root_bindings(root))[key] == (FileView::Loose { path: root.files[i] }),
{
    let list = root_bindings(root);
    lemma_bindings_dom(list, key);
    let some = choose|i: int| 0 <= i < list.len() && (#[trigger] list[i]).0 == key;
    let last = last_with_key(list, key, list.len() as int);
    lemma_last_with_key(list, key, list.len() as int);
    assert(list[some].0 == key);
    lemma_bindings_last(list, last);
    assert(list[last] == loose_binding(root.dir, root.files[last]));
}

/// The index of the last entry among the first `upto` of `list` that holds `key`;
/// -1 where none does.
pub open spec fn last_with_key(list: Seq<Binding>, key: Seq<u8>, upto: int) -> int
    decreases upto,
{
    if upto <= 0 {
        -1
    } else if list[upto - 1].0 == key {
        upto - 1
    } else {
        last_with_key(list, key, upto - 1)
    }
}

/// `last_with_key` finds an entry with the key wherever one is among the first
/// `upto`, and none with the key follows it there.
pub proof fn lemma_last_with_key(list: Seq<Binding>, key: Seq<u8>, upto: int)
    requires
        0 <= upto <= list.len(),
    ensures
        -1 <= last_with_key(list, key, upto) < upto,
        last_with_key(list, key, upto) >= 0 ==> list[last_with_key(list, key, upto)].0 == key,
        forall|j: int| last_with_key(list, key, upto) < j < upto ==> (#[trigger] list[j]).0 != key,
    decreases upto,
{
    if upto > 0 && list[upto - 1].0 != key {
        lemma_last_with_key(list, key, upto - 1);
    }
}

/// Loose over archived: a key that some data directory binds is bound, in the file
/// system, to the loose file that the data directories bind it to, whatever the
/// archives hold under it.
pub proof fn lemma_loose_before_archived(
    roots: Seq<RootView>,
    archives: Seq<ArchiveView>,
    key: Seq<u8>,
)
    requires
        bindings(loose_bindings(roots)).contains_key(key),
    ensures
        bindings(layers(roots, archives)).contains_key(key),
        bindings(layers(roots, archives))[key] == bindings(loose_bindings(roots))[key],
        bindings(layers(roots, archives))[key] is Loose,
{
    lemma_bindings_concat(all_archive_bindings(archives), loose_bindings(roots));
    lemma_loose_is_loose(roots, key);
}

/// What the data directories bind a key to is a loose file.
pub proof fn lemma_loose_is_loose(roots: Seq<RootView>, key: Seq<u8>)
    requires
        bindings(loose_bindings(roots)).contains_key(key),
    ensures
        bindings(loose_bindings(roots))[key] is Loose,
    decreases roots.len(),
{
    if roots.len() > 0 {
        let front = loose_bindings(roots.drop_last());
        let own = root_bindings(roots.last());
        lemma_bindings_concat(front, own);
        if bindings(own).contains_key(key) {
            lemma_root_binds_own(roots.last(), key);
        } else {
            lemma_loose_is_loose(roots.drop_last(), key);
        }
    }
}

/// Later data directory over earlier: where the data directory at `at` binds a key
/// and no later one does, the file system binds the key to the file that this
/// directory binds it to, a loose file among the directory's own. Of two data
/// directories that both hold a key, the second is this directory.
pub proof fn lemma_later_root_wins(
    roots: Seq<RootView>,
    archives: Seq<ArchiveView>,
    at: int,
    key: Seq<u8>,
)
    requires
        0 <= at < roots.len(),
        bindings(root_bindings(roots[at])).contains_key(key),
        forall|j: int| at < j < roots.len() ==> !bindings(root_bindings(#[trigger] roots[j])).contains_key(key),
    ensures
        bindings(layers(roots, archives)).contains_key(key),
        bindings(layers(roots, archives))[key] == bindings(root_bindings(roots[at]))[key],
        exists|i: int|
            0 <= i < roots[at].files.len() && loose_key(roots[at].dir, #[trigger] roots[at].files[i])
                == key && bindings(layers(roots, archives))[key] == (FileView::Loose {
                path: roots[at].files[i],
            }),
{
    lemma_bindings_concat(all_archive_bindings(archives), loose_bindings(roots));
    lemma_root_at(roots, at, key);
    lemma_root_binds_own(roots[at], key);
}

/// Among data directories alone, the last directory that binds a key decides what
/// the key is bound to.
proof fn lemma_root_at(roots: Seq<RootView>, at: int, key: Seq<u8>)
    requires
        0 <= at < roots.len(),
        bindings(root_bindings(roots[at])).contains_key(key),
        forall|j: int| at < j < roots.len() ==> !bindings(root_bindings(#[trigger] roots[j])).contains_key(key),
    ensures
        bindings(loose_bindings(roots)).contains_key(key),
        bindings(loose_bindings(roots))[key] == bindings(root_bindings(roots[at]))[key],
    decreases roots.len(),
{
    let front = loose_bindings(roots.drop_last());
    let own = root_bindings(roots.last());
    lemma_bindings_concat(front, own);
    if at < roots.len() - 1 {
        assert(!bindings(root_bindings(roots[roots.len() - 1])).contains_key(key));
        assert(roots.drop_last()[at] == roots[at]);
        assert forall|j: int| at < j < roots.drop_last().len() implies !bindings(
            root_bindings(#[trigger] roots.drop_last()[j]),
        ).contains_key(key) by {
            assert(roots.drop_last()[j] == roots[j]);
        }
        lemma_root_at(roots.drop_last(), at, key);
    }
}

/// Every binding of an archive is a file of that archive.
pub proof fn lemma_archive_binds_own(archive: ArchiveView, key: Seq<u8>)
    requires
        bindings(archive_bindings(archive)).contains_key(key),
    ensures
        bindings(archive_bindings(archive))[key].archive() == Some(archive),
        normalized(bindings(archive_bindings(archive))[key].path()) == key,
{
    let list = archive_bindings(archive);
    lemma_bindings_dom(list, key);
    let some = choose|i: int| 0 <= i < list.len() && (#[trigger] list[i]).0 == key;
    let last = last_with_key(list, key, list.len() as int);
    lemma_last_with_key(list, key, list.len() as int);
    assert(list[some].0 == key);
    lemma_bindings_last(list, last);
}

/// Among archives alone, the last archive that binds a key decides what the key is
/// bound to.
proof fn lemma_archive_at(archives: Seq<ArchiveView>, at: int, key: Seq<u8>)
    requires
        0 <= at < archives.len(),
        bindings(archive_bindings(archives[at])).contains_key(key),
        forall|j: int|
            at < j < archives.len() ==> !bindings(archive_bindings(#[trigger] archives[j])).contains_key(
                key,
            ),
    ensures
        bindings(all_archive_bindings(archives)).contains_key(key),
        bindings(all_archive_bindings(archives))[key] == bindings(archive_bindings(archives[at]))[key],
    decreases archives.len(),
{
    let front = all_archive_bindings(archives.drop_last());
    let own = archive_bindings(archives.last());
    lemma_bindings_concat(front, own);
    if at < archives.len() - 1 {
        assert(!bindings(archive_bindings(archives[archives.len() - 1])).contains_key(key));
        assert(archives.drop_last()[at] == archives[at]);
        assert forall|j: int| at < j < archives.drop_last().len() implies !bindings(
            archive_bindings(#[trigger] archives.drop_last()[j]),
        ).contains_key(key) by {
            assert(archives.drop_last()[j] == archives[j]);
        }
        lemma_archive_at(archives.drop_last(), at, key);
    }
}

/// Later archive over earlier: where no data directory binds a key, the archive at
/// `at` binds it and no later archive does, the file system binds the key to a file
/// of this archive. Of two archives that both hold a key, the second is this
/// archive.
pub proof fn lemma_later_archive_wins(
    roots: Seq<RootView>,
    archives: Seq<ArchiveView>,
    at: int,
    key: Seq<u8>,
)
    requires
        0 <= at < archives.len(),
        bindings(archive_bindings(archives[at])).contains_key(key),
        forall|j: int|
            at < j < archives.len() ==> !bindings(archive_bindings(#[trigger] archives[j])).contains_key(
                key,
            ),
        !bindings(loose_bindings(roots)).contains_key(key),
    ensures
        bindings(layers(roots, archives)).contains_key(key),
        bindings(layers(roots, archives))[key] == bindings(archive_bindings(archives[at]))[key],
        bindings(layers(roots, archives))[key].archive() == Some(archives[at]),
{
    lemma_bindings_concat(all_archive_bindings(archives), loose_bindings(roots));
    lemma_archive_at(archives, at, key);
    lemma_archive_binds_own(archives[at], key);
}

/// Where some file lies at the normalized form of a path, the normalized form of
/// that path ends with a key.
pub proof fn lemma_file_has_tail(files: Map<Seq<u8>, FileView>, target: Seq<u8>)
    requires
        all_consistent(files),
        holds_path(files, target),
    ensures
        holds_tail(files, target),
{
    let key = choose|key: Seq<u8>| #[trigger]
        files.contains_key(key) && files[key].path() == normalized(target);
    lemma_normalize_idempotent(target);
    assert(files.contains_key(key) && ends_with(normalized(target), key));
}

/// Where a key ends the normalized form of a path and is bound to a file that lies
/// elsewhere, the normalized form of that path ends with a key.
pub proof fn lemma_other_has_tail(files: Map<Seq<u8>, FileView>, target: Seq<u8>)
    requires
        holds_other(files, target),
    ensures
        holds_tail(files, target),
{
    let key = choose|key: Seq<u8>| #[trigger]
        files.contains_key(key) && ends_with(normalized(target), key) && files[key].path()
            != target;
    assert(files.contains_key(key) && ends_with(normalized(target), key));
}

/// A file that another layer replaces is not itself in the file system, unless a
/// file of the file system lies at the normalized form of its path while a key that
/// ends that form is bound to a file elsewhere.
pub proof fn lemma_other_excludes_file(files: Map<Seq<u8>, FileView>, target: Seq<u8>)
    requires
        holds_other(files, target),
        forall|at: Seq<u8>, tail: Seq<u8>|
            !(#[trigger] files.contains_key(at) && files[at].path() == normalized(target)
                && #[trigger] files.contains_key(tail) && ends_with(normalized(target), tail)
                && files[tail].path() != target),
    ensures
        holds_tail(files, target),
        !holds_path(files, target),
{
    lemma_other_has_tail(files, target);
    let tail = choose|key: Seq<u8>| #[trigger]
        files.contains_key(key) && ends_with(normalized(target), key) && files[key].path()
            != target;
    if holds_path(files, target) {
        let at = choose|key: Seq<u8>| #[trigger]
            files.contains_key(key) && files[key].path() == normalized(target);
        assert(files.contains_key(at) && files.contains_key(tail));
    }
}

/// The files that the tree shows for the entries `list`, in the order of the list.
pub open spec fn shown_files(list: Seq<Binding>, relative: bool) -> Seq<FileView> {
    Seq::new(list.len(), |i: int| projected_file(list[i], relative))
}

/// What holds of the root of the tree before sorting: it holds the file of every
/// entry once, its lists of subdirectories are in order, and none of its
/// directories is empty.
proof fn lemma_projected_root(list: Seq<Binding>, relative: bool)
    ensures
        all_files(projected_root(list, relative)).to_multiset() == shown_files(
            list,
            relative,
        ).to_multiset(),
        well_ordered(projected_root(list, relative)),
        no_empty_dirs(projected_root(list, relative)),
    decreases list.len(),
{
    broadcast use vstd::seq_lib::group_to_multiset_ensures;

    if list.len() == 0 {
        assert(all_dir_files(TreeView::empty()) =~= Seq::<FileView>::empty());
        assert(all_files(NodeView::empty()) =~= Seq::<FileView>::empty());
        assert(shown_files(list, relative) =~= Seq::<FileView>::empty());
    } else {
        let front = projected_root(list.drop_last(), relative);
        let chain = chain_of(list.last(), relative);
        let file = projected_file(list.last(), relative);
        lemma_projected_root(list.drop_last(), relative);
        lemma_placed_files(front, chain, file);
        lemma_placed_ordered(front, chain, file);
        lemma_placed_no_empty(front, chain, file);
        assert(shown_files(list, relative) =~= shown_files(list.drop_last(), relative).push(file));
    }
}

/// The tree shows every entry of the file system once: its files are the files
/// that it shows for the entries, each as often as an entry shows it.
pub proof fn lemma_projection_files(list: Seq<Binding>, relative: bool)
    ensures
        all_dir_files(projection(list, relative)).to_multiset() == shown_files(
            list,
            relative,
        ).to_multiset(),
{
    let root = projected_root(list, relative);
    lemma_projected_root(list, relative);
    lemma_sorted_node_files(root);
    let tree = projection(list, relative);
    assert(tree.drop_last() =~= TreeView::empty());
    assert(all_dir_files(tree.drop_last()) =~= Seq::<FileView>::empty());
    assert(all_dir_files(tree) =~= all_files(sorted_node(root)));
}

/// The tree is in order: every list of subdirectories by path, and the files of
/// every directory by file name. No directory below the root is empty.
pub proof fn lemma_projection_ordered(list: Seq<Binding>, relative: bool)
    ensures
        well_ordered(projection(list, relative)[0].1),
        well_sorted(projection(list, relative)[0].1),
        no_empty_dirs(projection(list, relative)[0].1),
{
    let root = projected_root(list, relative);
    lemma_projected_root(list, relative);
    lemma_sorted_node_ordered(root);
    lemma_sorted_no_empty(root);
}

/// The filtered tree of a predicate that keeps every file is the whole tree.
pub proof fn lemma_tree_filtered_whole(
    list: Seq<Binding>,
    relative: bool,
    keep: spec_fn(FileView) -> bool,
)
    requires
        forall|file: FileView| #[trigger] keep(file),
    ensures
        filtered_projection(list, relative, keep) == projection(list, relative),
{
    lemma_projection_ordered(list, relative);
    lemma_filter_keeps_tree(sorted_node(projected_root(list, relative)), keep);
}

/// The filtered tree of a predicate that keeps no file is the root alone, holding
/// nothing: no directory of it lists a file.
pub proof fn lemma_tree_filtered_none(
    list: Seq<Binding>,
    relative: bool,
    keep: spec_fn(FileView) -> bool,
)
    requires
        forall|file: FileView| !#[trigger] keep(file),
    ensures
        filtered_projection(list, relative, keep) == seq![(root_path(relative), NodeView::empty())],
{
    lemma_filter_keeps_none(sorted_node(projected_root(list, relative)), keep);
}

/// The layered virtual file system.
pub struct VFS {
    file_map: VFSFiles,
    sentinel: VfsFile,
}

impl View for VFS {
    type V = Seq<Binding>;

    /// The entries of the file system in the order of their keys.
    closed spec fn view(&self) -> Seq<Binding> {
        self.file_map@
    }
}

impl VFS {
    /// Every key is normalized and ends the normalized path of its file, and the
    /// sentinel is the default file.
    #[verifier::type_invariant]
    pub closed spec fn wf(self) -> bool {
        &&& self.file_map.wf()
        &&& all_consistent(bindings(self.file_map@))
        &&& self.sentinel@ == FileView::sentinel()
    }

    /// The file system as a map from keys to files.
    pub open spec fn map(&self) -> Map<Seq<u8>, FileView> {
        bindings(self@)
    }

    /// What holds of every file system: its entries stand in the strict order of
    /// their keys, every key is normalized, and the normalized path of every file
    /// ends with the key the file is bound to.
    pub proof fn lemma_valid(&self)
        requires
            self.wf(),
        ensures
            crate::files::rising(self@),
            all_consistent(self.map()),
            forall|key: Seq<u8>| #[trigger] self.map().contains_key(key) ==> normalized(key) == key,
    {
        self.file_map.lemma_rising();
        assert forall|key: Seq<u8>| #[trigger] self.map().contains_key(key) implies normalized(key)
            == key by {
            lemma_normalized_is_normalized(key);
        }
    }

    /// A file system without files.
    pub fn new() -> (vfs: Self)
        ensures
            vfs@ == Seq::<Binding>::empty(),
            vfs.wf(),
    {
        VFS { file_map: VFSFiles::new(), sentinel: VfsFile::default() }
    }

    /// The bindings of the data directory `root`, in the order of its files.
    fn root_entries(root: &DataRoot) -> (list: Vec<(Vec<u8>, VfsFile)>)
        ensures
            entries_view(list@) == root_bindings(root@),
    {
        let mut list: Vec<(Vec<u8>, VfsFile)> = Vec::new();
        let ghost own = root_bindings(root@);
        let mut f: usize = 0;
        assert(entries_view(list@) =~= own.take(0));
        while f < root.files.len()
            invariant
                f <= root.files@.len(),
                own == root_bindings(root@),
                entries_view(list@) == own.take(f as int),
            decreases root.files@.len() - f,
        {
            let path: &[u8] = root.files[f].as_slice();
            let relative = crate::path::strip_root(path, root.dir.as_slice());
            let key = crate::path::normalize_path(relative.as_slice());
            let file = VfsFile::from(path);
            assert((key@, file@) == own[f as int]);
            let ghost before = entries_view(list@);
            list.push((key, file));
            assert(entries_view(list@) =~= before.push(own[f as int]));
            assert(entries_view(list@) =~= own.take(f + 1));
            f += 1;
        }
        assert(own.take(f as int) =~= own);
        list
    }

    /// The bindings of the data directories `dirs` as a map of their own.
    fn loose_files(dirs: &Vec<DataRoot>) -> (files: VFSFiles)
        ensures
            files.map() == bindings(loose_bindings(root_views(dirs@))),
            files.wf(),
    {
        let mut list: Vec<(Vec<u8>, VfsFile)> = Vec::new();
        let mut d: usize = 0;
        assert(root_views(dirs@).take(0) =~= Seq::<RootView>::empty());
        assert(entries_view(list@) =~= Seq::<Binding>::empty());
        while d < dirs.len()
            invariant
                d <= dirs@.len(),
                entries_view(list@) == loose_bindings(root_views(dirs@).take(d as int)),
            decreases dirs@.len() - d,
        {
            let ghost done = entries_view(list@);
            let mut own = Self::root_entries(&dirs[d]);
            let ghost added = entries_view(own@);
            list.append(&mut own);
            assert(entries_view(list@) =~= done + added);
            assert(root_views(dirs@).take(d + 1).drop_last() =~= root_views(dirs@).take(d as int));
            d += 1;
        }
        assert(root_views(dirs@).take(d as int) =~= root_views(dirs@));
        VFSFiles::from_entries(list)
    }

    /// The file system over the data directories `search_dirs` and the archives that
    /// `archive_list` asks for.
    ///
    /// The loose files are gathered first. Each archive name is then looked up among
    /// them, and the archives that open are taken in the order of the list. The file
    /// system holds the files of the archives, a later archive before an earlier
    /// one, and over them the loose files, a later data directory before an earlier
    /// one.
    pub fn from_directories(search_dirs: &Vec<DataRoot>, archive_list: Option<&Vec<ArchiveSource>>) -> (vfs: Self)
        ensures
            vfs.map() == bindings(
                layers(
                    root_views(search_dirs@),
                    archives_of(
                        root_views(search_dirs@),
                        match archive_list {
                            Some(list) => Some(source_views(list@)),
                            None => None,
                        },
                    ),
                ),
            ),
            vfs.wf(),
    {
        let loose = Self::loose_files(search_dirs);
        let ghost roots = root_views(search_dirs@);
        let mut file_map = VFSFiles::new();
        let ghost archives = Seq::<ArchiveView>::empty();
        match archive_list {
            Some(list) => {
                let handles = crate::archives::from_set(&loose, list);
                proof {
                    archives = archive_views(handles@);
                }
                let archived = crate::archives::file_map(&handles);
                file_map.extend(archived);
                assert(file_map.map() =~= bindings(all_archive_bindings(archives)));
            },
            None => {},
        }
        file_map.extend(loose);
        proof {
            lemma_bindings_concat(all_archive_bindings(archives), loose_bindings(roots));
            lemma_loose_consistent(roots);
            lemma_archives_consistent(archives);
            lemma_consistent_map(layers(roots, archives));
        }
        VFS { file_map, sentinel: VfsFile::default() }
    }

    /// The file system over the one data directory `dir`.
    pub fn from_directory(dir: &DataRoot) -> (vfs: Self)
        ensures
            vfs.map() == bindings(root_bindings(dir@)),
            vfs.wf(),
    {
        let vfs = Self::new().add_directory(dir);
        assert(Map::<Seq<u8>, FileView>::empty().union_prefer_right(bindings(root_bindings(dir@)))
            =~= bindings(root_bindings(dir@)));
        vfs
    }

    /// The file system with the files of one more data directory laid over it. What
    /// the directory holds replaces whatever the file system bound to the same key,
    /// loose or archived: the layering is not computed anew.
    pub fn add_directory(self, dir: &DataRoot) -> (vfs: Self)
        ensures
            vfs.map() == self.map().union_prefer_right(bindings(root_bindings(dir@))),
            vfs.wf(),
    {
        proof {
            use_type_invariant(&self);
        }
        let over = VFSFiles::from_entries(Self::root_entries(dir));
        let file_map = self.file_map.merge(over);
        proof {
            let own = root_bindings(dir@);
            let roots = seq![dir@];
            assert(roots.drop_last() =~= Seq::<RootView>::empty());
            assert(roots.last() == dir@);
            assert(loose_bindings(roots.drop_last()) =~= Seq::<Binding>::empty());
            assert(loose_bindings(roots) =~= own);
            lemma_loose_consistent(roots);
            lemma_consistent_map(own);
        }
        VFS { file_map, sentinel: self.sentinel }
    }

    /// The file system with the files of more data directories laid over it, a later
    /// directory over an earlier one. As with `add_directory`, the layering is not
    /// computed anew.
    pub fn add_directories(self, search_dirs: &Vec<DataRoot>) -> (vfs: Self)
        ensures
            vfs.map() == self.map().union_prefer_right(
                bindings(loose_bindings(root_views(search_dirs@))),
            ),
            vfs.wf(),
    {
        proof {
            use_type_invariant(&self);
        }
        let ghost before = self.map();
        let ghost roots = root_views(search_dirs@);
        let mut vfs = self;
        let mut d: usize = 0;
        assert(roots.take(0) =~= Seq::<RootView>::empty());
        assert(before.union_prefer_right(bindings(loose_bindings(roots.take(0)))) =~= before);
        while d < search_dirs.len()
            invariant
                d <= search_dirs@.len(),
                roots == root_views(search_dirs@),
                vfs.map() == before.union_prefer_right(
                    bindings(loose_bindings(roots.take(d as int))),
                ),
                vfs.wf(),
            decreases search_dirs@.len() - d,
        {
            proof {
                let done = loose_bindings(roots.take(d as int));
                let own = root_bindings(search_dirs@[d as int]@);
                assert(roots.take(d + 1).drop_last() =~= roots.take(d as int));
                lemma_bindings_concat(done, own);
                assert(before.union_prefer_right(bindings(done)).union_prefer_right(bindings(own))
                    =~= before.union_prefer_right(bindings(done).union_prefer_right(bindings(own))));
            }
            vfs = vfs.add_directory(&search_dirs[d]);
            d += 1;
        }
        assert(roots.take(d as int) =~= roots);
        vfs
    }

    /// Lays the files of more data directories over the file system, as
    /// `add_directories` does.
    pub fn add_files_from_directories(&mut self, search_dirs: &Vec<DataRoot>)
        ensures
            final(self).map() == old(self).map().union_prefer_right(
                bindings(loose_bindings(root_views(search_dirs@))),
            ),
            final(self).wf(),
    {
        let mut vfs = Self::new();
        std::mem::swap(&mut vfs, self);
        let mut vfs = vfs.add_directories(search_dirs);
        std::mem::swap(&mut vfs, self);
    }

    /// The number of files.
    pub fn len(&self) -> (n: usize)
        ensures
            n == self@.len(),
    {
        self.file_map.len()
    }

    /// The file bound to the normalized form of `path`, where one is.
    pub fn get_file(&self, path: &[u8]) -> (file: Option<&VfsFile>)
        ensures
            match file {
                Some(f) => self.map().contains_key(normalized(path@)) && self.map()[normalized(
                    path@,
                )] == f@,
                None => !self.map().contains_key(normalized(path@)),
            },
    {
        let key = crate::path::normalize_path(path);
        self.file_map.get(key.as_slice())
    }

    /// Every entry, in the order of the keys.
    pub fn iter(&self) -> (entries: Vec<(&[u8], &VfsFile)>)
        ensures
            pairs_view(entries@) == self@,
    {
        let mut entries: Vec<(&[u8], &VfsFile)> = Vec::new();
        let mut i: usize = 0;
        while i < self.file_map.len()
            invariant
                i <= self@.len(),
                pairs_view(entries@) == self@.take(i as int),
            decreases self@.len() - i,
        {
            let entry = self.file_map.entry(i);
            let ghost before = pairs_view(entries@);
            entries.push(entry);
            assert(pairs_view(entries@) =~= before.push(self@[i as int]));
            assert(self@.take(i + 1) =~= self@.take(i as int).push(self@[i as int]));
            i += 1;
        }
        assert(self@.take(i as int) =~= self@);
        entries
    }

    /// The entries whose key starts with the whole segments of the normalized form
    /// of `prefix`, in the order of the keys.
    pub fn paths_with(&self, prefix: &[u8]) -> (entries: Vec<(&[u8], &VfsFile)>)
        ensures
            pairs_view(entries@) == selected(
                self@,
                |key: Seq<u8>| starts_with(key, normalized(prefix@)),
            ),
    {
        let wanted = crate::path::normalize_path(prefix);
        let ghost pred = |key: Seq<u8>| starts_with(key, normalized(prefix@));
        let mut entries: Vec<(&[u8], &VfsFile)> = Vec::new();
        let mut i: usize = 0;
        assert(pairs_view(entries@) =~= selected(self@.take(0), pred));
        while i < self.file_map.len()
            invariant
                i <= self@.len(),
                wanted@ == normalized(prefix@),
                pred == (|key: Seq<u8>| starts_with(key, normalized(prefix@))),
                pairs_view(entries@) == selected(self@.take(i as int), pred),
            decreases self@.len() - i,
        {
            let entry = self.file_map.entry(i);
            let ghost before = pairs_view(entries@);
            assert(self@.take(i + 1).drop_last() =~= self@.take(i as int));
            if crate::path::path_starts_with(entry.0, wanted.as_slice()) {
                entries.push(entry);
                assert(pairs_view(entries@) =~= before.push(self@[i as int]));
            }
            i += 1;
        }
        assert(self@.take(i as int) =~= self@);
        entries
    }

    /// The entries whose key holds the normalized form of `substring` somewhere, in
    /// the order of the keys.
    pub fn paths_matching(&self, substring: &[u8]) -> (entries: Vec<(&[u8], &VfsFile)>)
        ensures
            pairs_view(entries@) == selected(
                self@,
                |key: Seq<u8>| contains_bytes(key, normalized(substring@)),
            ),
    {
        let wanted = crate::path::normalize_path(substring);
        let ghost pred = |key: Seq<u8>| contains_bytes(key, normalized(substring@));
        let mut entries: Vec<(&[u8], &VfsFile)> = Vec::new();
        let mut i: usize = 0;
        assert(pairs_view(entries@) =~= selected(self@.take(0), pred));
        while i < self.file_map.len()
            invariant
                i <= self@.len(),
                wanted@ == normalized(substring@),
                pred == (|key: Seq<u8>| contains_bytes(key, normalized(substring@))),
                pairs_view(entries@) == selected(self@.take(i as int), pred),
            decreases self@.len() - i,
        {
            let entry = self.file_map.entry(i);
            let ghost before = pairs_view(entries@);
            assert(self@.take(i + 1).drop_last() =~= self@.take(i as int));
            if crate::path::path_contains(entry.0, wanted.as_slice()) {
                entries.push(entry);
                assert(pairs_view(entries@) =~= before.push(self@[i as int]));
            }
            i += 1;
        }
        assert(self@.take(i as int) =~= self@);
        entries
    }

    /// Whether some file lies at exactly the normalized form of `target`.
    pub fn has_file(&self, target: &[u8]) -> (found: bool)
        ensures
            found == holds_path(self.map(), target@),
    {
        let wanted = crate::path::normalize_path(target);
        proof {
            use_type_invariant(self);
            self.file_map.lemma_rising();
            lemma_bindings_rising(self@);
        }
        let mut i: usize = 0;
        while i < self.file_map.len()
            invariant
                i <= self@.len(),
                wanted@ == normalized(target@),
                crate::files::rising(self@),
                forall|j: int| 0 <= j < i ==> (#[trigger] self@[j]).1.path() != wanted@,
            decreases self@.len() - i,
        {
            let entry = self.file_map.entry(i);
            proof {
                lemma_bindings_rising(self@);
            }
            if crate::path::bytes_eq(entry.1.path(), wanted.as_slice()) {
                assert(self.map().contains_key(self@[i as int].0));
                return true;
            }
            i += 1;
        }
        proof {
            if holds_path(self.map(), target@) {
                let key = choose|key: Seq<u8>| #[trigger]
                    self.map().contains_key(key) && self.map()[key].path() == normalized(target@);
                let j = choose|j: int| 0 <= j < self@.len() && (#[trigger] self@[j]).0 == key;
                assert(self.map()[self@[j].0] == self@[j].1);
            }
        }
        false
    }

    /// Whether the normalized form of `target` ends with the whole segments of some
    /// key: whether a file with this relative tail exists somewhere.
    pub fn has_normalized_file(&self, target: &[u8]) -> (found: bool)
        ensures
            found == holds_tail(self.map(), target@),
    {
        let wanted = crate::path::normalize_path(target);
        proof {
            use_type_invariant(self);
            self.file_map.lemma_rising();
            lemma_bindings_rising(self@);
        }
        let mut i: usize = 0;
        while i < self.file_map.len()
            invariant
                i <= self@.len(),
                wanted@ == normalized(target@),
                crate::files::rising(self@),
                forall|j: int| 0 <= j < i ==> !ends_with(wanted@, (#[trigger] self@[j]).0),
            decreases self@.len() - i,
        {
            let entry = self.file_map.entry(i);
            proof {
                lemma_bindings_rising(self@);
            }
            if crate::path::path_ends_with(wanted.as_slice(), entry.0) {
                assert(self.map().contains_key(self@[i as int].0));
                return true;
            }
            i += 1;
        }
        proof {
            if holds_tail(self.map(), target@) {
                let key = choose|key: Seq<u8>| #[trigger]
                    self.map().contains_key(key) && ends_with(normalized(target@), key);
                let j = choose|j: int| 0 <= j < self@.len() && (#[trigger] self@[j]).0 == key;
            }
        }
        false
    }

    /// Whether the normalized form of `target` ends with the key of a file that
    /// does not lie at `target` itself: whether another layer replaces the file at
    /// `target`.
    pub fn has_normalized_not_exact(&self, target: &[u8]) -> (found: bool)
        ensures
            found == holds_other(self.map(), target@),
    {
        let wanted = crate::path::normalize_path(target);
        proof {
            use_type_invariant(self);
            self.file_map.lemma_rising();
            lemma_bindings_rising(self@);
        }
        let mut i: usize = 0;
        while i < self.file_map.len()
            invariant
                i <= self@.len(),
                wanted@ == normalized(target@),
                crate::files::rising(self@),
                forall|j: int|
                    0 <= j < i ==> !(ends_with(wanted@, (#[trigger] self@[j]).0) && self@[j].1.path()
                        != target@),
            decreases self@.len() - i,
        {
            let entry = self.file_map.entry(i);
            proof {
                lemma_bindings_rising(self@);
            }
            if !crate::path::bytes_eq(entry.1.path(), target) && crate::path::path_ends_with(
                wanted.as_slice(),
                entry.0,
            ) {
                assert(self.map().contains_key(self@[i as int].0));
                assert(self.map()[self@[i as int].0] == self@[i as int].1);
                return true;
            }
            i += 1;
        }
        proof {
            if holds_other(self.map(), target@) {
                let key = choose|key: Seq<u8>| #[trigger]
                    self.map().contains_key(key) && ends_with(normalized(target@), key)
                        && self.map()[key].path() != target@;
                let j = choose|j: int| 0 <= j < self@.len() && (#[trigger] self@[j]).0 == key;
                assert(self.map()[self@[j].0] == self@[j].1);
            }
        }
        false
    }
    /// The path of the root of the projected tree.
    fn root_name(relative: bool) -> (root: Vec<u8>)
        ensures
            root@ == root_path(relative),
    {
        let root: Vec<u8> = if relative {
            vec![0x44u8, 0x61u8, 0x74u8, 0x61u8, 0x20u8, 0x46u8, 0x69u8, 0x6Cu8, 0x65u8, 0x73u8]
        } else {
            vec![SEPARATOR]
        };
        assert(root@ =~= root_path(relative));
        root
    }

    /// `chain` without the paths that are `root`.
    fn drop_root(chain: &Vec<Vec<u8>>, root: &[u8]) -> (rest: Vec<Vec<u8>>)
        ensures
            views(rest@) == without(views(chain@), root@),
    {
        let mut rest: Vec<Vec<u8>> = Vec::new();
        let mut i: usize = 0;
        assert(views(chain@).take(0) =~= Seq::<Seq<u8>>::empty());
        assert(views(rest@) =~= Seq::<Seq<u8>>::empty());
        while i < chain.len()
            invariant
                i <= chain@.len(),
                views(rest@) == without(views(chain@).take(i as int), root@),
            decreases chain@.len() - i,
        {
            let dir: &[u8] = chain[i].as_slice();
            let ghost before = views(rest@);
            assert(views(chain@).take(i + 1).drop_last() =~= views(chain@).take(i as int));
            assert(views(chain@).take(i + 1).last() == dir@);
            if !crate::path::bytes_eq(dir, root) {
                let copy = crate::path::to_vec(dir);
                rest.push(copy);
                assert(views(rest@) =~= before.push(dir@));
            }
            i += 1;
        }
        assert(views(chain@).take(i as int) =~= views(chain@));
        rest
    }

    /// The root of the projected tree, sorted.
    fn project(&self, relative: bool) -> (root: DirectoryNode)
        ensures
            root@ == sorted_node(projected_root(self@, relative)),
    {
        let root_dir = Self::root_name(relative);
        let mut root = DirectoryNode::new();
        let mut i: usize = 0;
        while i < self.file_map.len()
            invariant
                i <= self@.len(),
                root_dir@ == root_path(relative),
                root@ == projected_root(self@.take(i as int), relative),
            decreases self@.len() - i,
        {
            let (key, entry) = self.file_map.entry(i);
            let ghost binding = self@[i as int];
            assert(self@.take(i + 1).drop_last() =~= self@.take(i as int));
            assert(self@.take(i + 1).last() == binding);
            let parent: Option<&[u8]> = if relative {
                entry.parent_archive_name()
            } else {
                entry.parent_archive_path()
            };
            let path: Vec<u8> = match parent {
                Some(dir) => crate::path::join(dir, key),
                None => {
                    let shown: &[u8] = if relative {
                        key
                    } else {
                        entry.path()
                    };
                    let copy = crate::path::to_vec(shown);
                    copy
                },
            };
            assert(path@ == projection_path(binding, relative));
            let dir: &[u8] = match crate::path::parent(path.as_slice()) {
                Some(dir) => if dir.len() > 0 {
                    dir
                } else {
                    root_dir.as_slice()
                },
                None => root_dir.as_slice(),
            };
            let all = crate::path::ancestors(dir);
            let chain = Self::drop_root(&all, root_dir.as_slice());
            let file = match entry.parent_archive_handle() {
                Ok(handle) => VfsFile::from_archive(path.as_slice(), handle),
                Err(_) => VfsFile::from(entry.path()),
            };
            assert(file@ == projected_file(binding, relative));
            root.place(chain.as_slice(), file);
            i += 1;
        }
        assert(self@.take(i as int) =~= self@);
        root.sort();
        root
    }

    /// The file system as a tree of directories under one root: `Data Files` for the
    /// tree of relative paths, `/` for the tree of paths on disk. Every file stands
    /// in the directory of the path under which the tree shows it, and the files of
    /// every directory are sorted by file name.
    pub fn tree(&self, relative: bool) -> (tree: DisplayTree)
        ensures
            tree@ == projection(self@, relative),
    {
        let root = self.project(relative);
        let root_dir = Self::root_name(relative);
        let mut tree = DisplayTree::new();
        tree.insert(root_dir.as_slice(), root);
        assert(tree@ =~= projection(self@, relative));
        tree
    }

    /// The tree of the file system with only the files for which `file_filter`
    /// answers `true`. Directories that are left holding nothing are dropped; the
    /// root stays.
    pub fn tree_filtered<F: Fn(&VfsFile) -> bool>(&self, relative: bool, file_filter: F) -> (tree:
        DisplayTree)
        requires
            forall|file: &VfsFile| #[trigger] file_filter.requires((file,)),
        ensures
            forall|keep: spec_fn(FileView) -> bool| #[trigger]
                decides(&file_filter, keep) ==> tree@ == filtered_projection(self@, relative, keep),
    {
        let mut root = self.project(relative);
        root.filter(&file_filter);
        let root_dir = Self::root_name(relative);
        let mut tree = DisplayTree::new();
        let ghost shown = root@;
        tree.insert(root_dir.as_slice(), root);
        assert(tree@ =~= seq![(root_path(relative), shown)]);
        tree
    }
    /// The text of the tree of the file system with only the files for which
    /// `file_filter` answers `true`: a line for each directory that lists a file,
    /// and after it a line for each of its files.
    pub fn display_filtered<F: Fn(&VfsFile) -> bool>(&self, relative: bool, file_filter: F) -> (text:
        String)
        requires
            forall|file: &VfsFile| #[trigger] file_filter.requires((file,)),
        ensures
            forall|keep: spec_fn(FileView) -> bool| #[trigger]
                decides(&file_filter, keep) ==> text@ == tree_text(
                    filtered_projection(self@, relative, keep),
                ),
    {
        let tree = self.tree_filtered(relative, file_filter);
        crate::display_tree::tree_string(&tree)
    }

    /// The text of the tree of relative paths of the file system.
    pub fn to_text(&self) -> (text: String)
        ensures
            text@ == tree_text(projection(self@, true)),
    {
        let tree = self.tree(true);
        crate::display_tree::tree_string(&tree)
    }
}

impl vstd::std_specs::core::IndexSpecImpl<&[u8]> for VFS {
    /// Every key can be asked for.
    open spec fn index_req(&self, key: &&[u8]) -> bool {
        true
    }
}

impl core::ops::Index<&[u8]> for VFS {
    type Output = VfsFile;

    /// The file bound to the normalized form of `key`; the sentinel, a loose file
    /// with an empty path, where none is.
    fn index(&self, key: &[u8]) -> (file: &VfsFile)
        ensures
            file@ == if self.map().contains_key(normalized(key@)) {
                self.map()[normalized(key@)]
            } else {
                FileView::sentinel()
            },
    {
        proof {
            use_type_invariant(self);
        }
        match self.get_file(key) {
            Some(file) => file,
            None => &self.sentinel,
        }
    }
}

} // verus!
