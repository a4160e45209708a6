//! The projected tree as text, and in the shape in which it is serialized.

use vstd::prelude::*;
use vstd::string::StringExecFns;
use crate::directory_node::{
    entries_view, lemma_entries_view, lemma_node_view, lemma_tree_view, node_view, DirectoryNode, DisplayTree, NodeView, TreeView,
};
use crate::path::{file_name_of, DOT};
use crate::vfs_file::FileView;

verus! {

/// The text formats in which a tree can be written.
#[derive(Clone, Copy, Debug, PartialEq, Eq, Structural)]
pub enum SerializeType {
    /// JSON.
    Json,
    /// YAML.
    Yaml,
    /// TOML.
    Toml,
}

/// Marks the types that can be written in one of the text formats. It is
/// implemented for `DisplayTree` and is not meant to be implemented elsewhere.
pub trait PrivateVFSSerialize {

}

impl PrivateVFSSerialize for DisplayTree {

}

/// What begins the line of a directory.
pub const DIR_PREFIX: &'static str = "├── ";

/// What begins the line of a file.
pub const FILE_PREFIX: &'static str = "│   ├── ";

/// The text that `String::from_utf8_lossy` makes of a byte string.
pub uninterp spec fn lossy_text(bytes: Seq<u8>) -> Seq<char>;

/// `String::from_utf8_lossy`, and the text it gives as an owned string. Trusted: the
/// text depends on the bytes alone.
#[verifier::external_body]
fn lossy(bytes: &[u8]) -> (text: String)
    ensures
        text@ == lossy_text(bytes@),
{
    String::from_utf8_lossy(bytes).into_owned()
}

/// The line of a directory: the directory prefix, the directory's path, a slash and
/// a line feed.
pub open spec fn dir_line(dir: Seq<char>) -> Seq<char> {
    DIR_PREFIX@ + dir + "/\n"@
}

/// The line of a file: the file prefix, the file's name and a line feed.
pub open spec fn file_line(file: Seq<char>) -> Seq<char> {
    FILE_PREFIX@ + file + "\n"@
}

/// The lines of the files `files`, one after the other. A file whose path has no
/// file name has no line.
pub open spec fn file_lines(files: Seq<FileView>) -> Seq<char>
    decreases files.len(),
{
    if files.len() == 0 {
        Seq::empty()
    } else {
        file_lines(files.drop_last()) + match file_name_of(files.last().path()) {
            Some(name) => file_line(lossy_text(name)),
            None => Seq::empty(),
        }
    }
}

/// The text of the files of one directory: the line of the directory and the lines
/// of its files; nothing where the directory holds no file.
pub open spec fn files_text(dir: Seq<u8>, files: Seq<FileView>) -> Seq<char> {
    if files.len() == 0 {
        Seq::empty()
    } else {
        dir_line(lossy_text(dir)) + file_lines(files)
    }
}

/// The text of a directory at the path `dir`: its own files, then its
/// subdirectories in their order, each with everything below it.
pub open spec fn node_text(dir: Seq<u8>, node: NodeView) -> Seq<char>
    decreases node,
{
    files_text(dir, node.files) + tree_text(node.subdirs)
}

/// The text of a list of directories: that of each, in the order of the list.
pub open spec fn tree_text(dirs: TreeView) -> Seq<char>
    decreases dirs,
{
    if dirs.len() == 0 {
        Seq::empty()
    } else {
        tree_text(dirs.drop_last()) + node_text(dirs.last().0, dirs.last().1)
    }
}

/// The line of a file in the text of a tree.
pub fn file_str(file: &str) -> (line: String)
    ensures
        line@ == file_line(file@),
{
    let mut line = String::from_str(FILE_PREFIX);
    line.append(file);
    line.append("\n");
    line
}

/// The line of a directory in the text of a tree.
pub fn dir_str(dir: &str) -> (line: String)
    ensures
        line@ == dir_line(dir@),
{
    let mut line = String::from_str(DIR_PREFIX);
    line.append(dir);
    line.append("/\n");
    line
}

/// Appends the text of the files of the directory `node`, which lies at `dir`.
pub fn write_files(out: &mut String, node: &DirectoryNode, dir: &[u8])
    ensures
        final(out)@ == old(out)@ + files_text(dir@, node@.files),
{
    let ghost files = node@.files;
    proof {
        lemma_node_view(*node);
    }
    if node.files.len() == 0 {
        assert(out@ =~= old(out)@ + files_text(dir@, files));
        return ;
    }
    let head = dir_str(lossy(dir).as_str());
    out.append(head.as_str());
    let ghost start = out@;
    let mut i: usize = 0;
    assert(files.take(0) =~= Seq::<FileView>::empty());
    assert(out@ =~= start + file_lines(files.take(0)));
    while i < node.files.len()
        invariant
            i <= node.files@.len(),
            files == node@.files,
            files.len() == node.files@.len(),
            forall|k: int| 0 <= k < files.len() ==> files[k] == (#[trigger] node.files@[k])@,
            out@ == start + file_lines(files.take(i as int)),
        decreases node.files@.len() - i,
    {
        assert(files.take(i + 1).drop_last() =~= files.take(i as int));
        assert(files.take(i + 1).last() == node.files@[i as int]@);
        let ghost before = out@;
        match node.files[i].file_name() {
            Some(name) => {
                let line = file_str(lossy(name).as_str());
                out.append(line.as_str());
                assert(out@ =~= start + file_lines(files.take(i + 1)));
            },
            None => {
                assert(out@ =~= start + file_lines(files.take(i + 1)));
            },
        }
        i += 1;
    }
    assert(files.take(i as int) =~= files);
    assert(out@ =~= old(out)@ + files_text(dir@, files));
}

/// Appends the text of the directory `node`, which lies at `dir`, with everything
/// below it.
pub fn write_node(out: &mut String, node: &DirectoryNode, dir: &[u8])
    ensures
        final(out)@ == old(out)@ + node_text(dir@, node@),
    decreases node,
{
    write_files(out, node, dir);
    let ghost start = out@;
    let ghost dirs = node@.subdirs;
    proof {
        lemma_node_view(*node);
        lemma_entries_view(node.subdirs.entries@);
    }
    let mut i: usize = 0;
    assert(dirs.take(0) =~= TreeView::empty());
    assert(out@ =~= start + tree_text(dirs.take(0)));
    while i < node.subdirs.entries.len()
        invariant
            i <= node.subdirs.entries@.len(),
            dirs == node@.subdirs,
            dirs == entries_view(node.subdirs.entries@),
            dirs.len() == node.subdirs.entries@.len(),
            out@ == start + tree_text(dirs.take(i as int)),
        decreases node.subdirs.entries@.len() - i,
    {
        proof {
            lemma_entries_view(node.subdirs.entries@);
        }
        assert(dirs.take(i + 1).drop_last() =~= dirs.take(i as int));
        let entry = &node.subdirs.entries[i];
        assert(decreases_to!(node => entry.1));
        let ghost before = out@;
        write_node(out, &entry.1, entry.0.as_slice());
        assert(out@ =~= start + tree_text(dirs.take(i + 1)));
        i += 1;
    }
    assert(dirs.take(i as int) =~= dirs);
    assert(out@ =~= old(out)@ + node_text(dir@, node@));
}

/// Appends the text of the tree: every root with everything below it.
pub fn write_tree(tree: &DisplayTree, out: &mut String)
    ensures
        final(out)@ == old(out)@ + tree_text(tree@),
{
    let ghost start = out@;
    let ghost dirs = tree@;
    proof {
        lemma_tree_view(*tree);
        lemma_entries_view(tree.entries@);
    }
    let mut i: usize = 0;
    assert(dirs.take(0) =~= TreeView::empty());
    assert(out@ =~= start + tree_text(dirs.take(0)));
    while i < tree.entries.len()
        invariant
            i <= tree.entries@.len(),
            dirs == tree@,
            dirs == entries_view(tree.entries@),
            dirs.len() == tree.entries@.len(),
            out@ == start + tree_text(dirs.take(i as int)),
        decreases tree.entries@.len() - i,
    {
        proof {
            lemma_entries_view(tree.entries@);
        }
        assert(dirs.take(i + 1).drop_last() =~= dirs.take(i as int));
        let entry = &tree.entries[i];
        write_node(out, &entry.1, entry.0.as_slice());
        assert(out@ =~= start + tree_text(dirs.take(i + 1)));
        i += 1;
    }
    assert(dirs.take(i as int) =~= dirs);
}

/// The text of the tree.
pub fn tree_string(tree: &DisplayTree) -> (text: String)
    ensures
        text@ == tree_text(tree@),
{
    let mut text = String::new();
    write_tree(tree, &mut text);
    assert(text@ =~= tree_text(tree@));
    text
}

/// A value of the serialized tree: the list of the names of a directory's files, or
/// the mapping that stands for a directory.
pub enum SerialValue {
    /// The names of the files of a directory, in their order.
    Names(Vec<Vec<u8>>),
    /// The mapping that stands for a directory, in its order.
    Dir(Vec<(Vec<u8>, SerialValue)>),
}

/// What a `SerialValue` holds.
pub enum ShapeView {
    /// The names of the files of a directory, in their order.
    Names(Seq<Seq<u8>>),
    /// The mapping that stands for a directory, in its order.
    Dir(Seq<(Seq<u8>, ShapeView)>),
}

/// What a serialized value holds.
pub open spec fn value_view(value: SerialValue) -> ShapeView
    decreases value,
{
    match value {
        SerialValue::Names(names) => ShapeView::Names(crate::path::views(names@)),
        SerialValue::Dir(entries) => ShapeView::Dir(map_view(entries@)),
    }
}

/// What the entries of a serialized mapping hold.
pub open spec fn map_view(entries: Seq<(Vec<u8>, SerialValue)>) -> Seq<(Seq<u8>, ShapeView)>
    decreases entries,
{
    if entries.len() == 0 {
        Seq::empty()
    } else {
        map_view(entries.drop_last()).push((entries.last().0@, value_view(entries.last().1)))
    }
}

impl View for SerialValue {
    type V = ShapeView;

    open spec fn view(&self) -> ShapeView {
        value_view(*self)
    }
}

/// The key under which a mapping lists the files of its directory.
pub open spec fn files_key() -> Seq<u8> {
    seq![DOT]
}

/// The file names of `files`, in their order. A file whose path has no file name is
/// passed over.
pub open spec fn names_of(files: Seq<FileView>) -> Seq<Seq<u8>>
    decreases files.len(),
{
    if files.len() == 0 {
        Seq::empty()
    } else {
        match file_name_of(files.last().path()) {
            Some(name) => names_of(files.drop_last()).push(name),
            None => names_of(files.drop_last()),
        }
    }
}

/// The key of a subdirectory in the mapping of its parent: the final segment of its
/// path, or nothing where the path has no file name.
pub open spec fn dir_key(path: Seq<u8>) -> Seq<u8> {
    match file_name_of(path) {
        Some(name) => name,
        None => Seq::empty(),
    }
}

/// The mapping that stands for a directory: under `.` the names of its files, where
/// it holds any, and then each subdirectory under the final segment of its path, in
/// the order of the subdirectories.
pub open spec fn shape(node: NodeView) -> Seq<(Seq<u8>, ShapeView)>
    decreases node,
{
    if node.files.len() > 0 {
        seq![(files_key(), ShapeView::Names(names_of(node.files)))] + dir_shapes(node.subdirs)
    } else {
        dir_shapes(node.subdirs)
    }
}

/// The entries that stand for a list of subdirectories.
pub open spec fn dir_shapes(dirs: TreeView) -> Seq<(Seq<u8>, ShapeView)>
    decreases dirs,
{
    if dirs.len() == 0 {
        Seq::empty()
    } else {
        dir_shapes(dirs.drop_last()).push(
            (dir_key(dirs.last().0), ShapeView::Dir(shape(dirs.last().1))),
        )
    }
}

/// The entries that stand for a tree: each root under its whole path, in the order
/// of the tree.
pub open spec fn tree_shape(tree: TreeView) -> Seq<(Seq<u8>, ShapeView)>
    decreases tree.len(),
{
    if tree.len() == 0 {
        Seq::empty()
    } else {
        tree_shape(tree.drop_last()).push((tree.last().0, ShapeView::Dir(shape(tree.last().1))))
    }
}

/// The view of the entries of a mapping, entry by entry.
proof fn lemma_map_view(entries: Seq<(Vec<u8>, SerialValue)>)
    ensures
        map_view(entries).len() == entries.len(),
        forall|i: int|
            0 <= i < entries.len() ==> #[trigger] map_view(entries)[i] == (
                entries[i].0@,
                value_view(entries[i].1),
            ),
    decreases entries.len(),
{
    if entries.len() > 0 {
        lemma_map_view(entries.drop_last());
        assert forall|i: int| 0 <= i < entries.len() implies #[trigger] map_view(entries)[i] == (
            entries[i].0@,
            value_view(entries[i].1),
        ) by {
            if i < entries.len() - 1 {
                assert(entries.drop_last()[i] == entries[i]);
            }
        }
    }
}

/// The mapping that stands for the directory `node` when a tree is serialized.
pub fn serial_shape(node: &DirectoryNode) -> (entries: Vec<(Vec<u8>, SerialValue)>)
    ensures
        map_view(entries@) == shape(node@),
    decreases node,
{
    let mut entries: Vec<(Vec<u8>, SerialValue)> = Vec::new();
    let ghost files = node@.files;
    proof {
        lemma_node_view(*node);
    }
    if node.files.len() > 0 {
        let mut names: Vec<Vec<u8>> = Vec::new();
        let mut i: usize = 0;
        assert(files.take(0) =~= Seq::<FileView>::empty());
        assert(crate::path::views(names@) =~= names_of(files.take(0)));
        while i < node.files.len()
            invariant
                i <= node.files@.len(),
                files == node@.files,
                files.len() == node.files@.len(),
                forall|k: int| 0 <= k < files.len() ==> files[k] == (#[trigger] node.files@[k])@,
                crate::path::views(names@) == names_of(files.take(i as int)),
            decreases node.files@.len() - i,
        {
            assert(files.take(i + 1).drop_last() =~= files.take(i as int));
            assert(files.take(i + 1).last() == node.files@[i as int]@);
            let ghost before = crate::path::views(names@);
            match node.files[i].file_name() {
                Some(name) => {
                    let copy = crate::path::to_vec(name);
                    names.push(copy);
                    assert(crate::path::views(names@) =~= before.push(name@));
                },
                None => {},
            }
            i += 1;
        }
        assert(files.take(i as int) =~= files);
        let key: Vec<u8> = vec![DOT];
        assert(key@ =~= files_key());
        entries.push((key, SerialValue::Names(names)));
    }
    let ghost head = map_view(entries@);
    let ghost dirs = node@.subdirs;
    proof {
        lemma_map_view(entries@);
        lemma_entries_view(node.subdirs.entries@);
        if node.files@.len() > 0 {
            assert(head =~= seq![(files_key(), ShapeView::Names(names_of(files)))]);
        } else {
            assert(head =~= Seq::<(Seq<u8>, ShapeView)>::empty());
        }
    }
    let mut j: usize = 0;
    assert(dirs.take(0) =~= TreeView::empty());
    assert(map_view(entries@) =~= head + dir_shapes(dirs.take(0)));
    while j < node.subdirs.entries.len()
        invariant
            j <= node.subdirs.entries@.len(),
            dirs == node@.subdirs,
            dirs == entries_view(node.subdirs.entries@),
            dirs.len() == node.subdirs.entries@.len(),
            map_view(entries@) == head + dir_shapes(dirs.take(j as int)),
        decreases node.subdirs.entries@.len() - j,
    {
        proof {
            lemma_entries_view(node.subdirs.entries@);
            lemma_map_view(entries@);
        }
        assert(dirs.take(j + 1).drop_last() =~= dirs.take(j as int));
        let entry = &node.subdirs.entries[j];
        assert(decreases_to!(node => entry.1));
        let key: Vec<u8> = match crate::path::file_name(entry.0.as_slice()) {
            Some(name) => {
                let copy = crate::path::to_vec(name);
                copy
            },
            None => Vec::new(),
        };
        assert(key@ =~= dir_key(entry.0@));
        let below = serial_shape(&entry.1);
        let ghost before = map_view(entries@);
        entries.push((key, SerialValue::Dir(below)));
        proof {
            lemma_map_view(entries@);
            assert(map_view(entries@) =~= before.push(
                (dir_key(entry.0@), ShapeView::Dir(shape(node_view(entry.1)))),
            ));
            assert(map_view(entries@) =~= head + dir_shapes(dirs.take(j + 1)));
        }
        j += 1;
    }
    assert(dirs.take(j as int) =~= dirs);
    entries
}

/// The mapping that stands for a tree when it is serialized: each root under its
/// whole path.
pub fn serial_tree(tree: &DisplayTree) -> (entries: Vec<(Vec<u8>, SerialValue)>)
    ensures
        map_view(entries@) == tree_shape(tree@),
{
    let mut entries: Vec<(Vec<u8>, SerialValue)> = Vec::new();
    let ghost dirs = tree@;
    proof {
        lemma_tree_view(*tree);
        lemma_entries_view(tree.entries@);
    }
    let mut j: usize = 0;
    assert(dirs.take(0) =~= TreeView::empty());
    assert(map_view(entries@) =~= tree_shape(dirs.take(0)));
    while j < tree.entries.len()
        invariant
            j <= tree.entries@.len(),
            dirs == tree@,
            dirs == entries_view(tree.entries@),
            dirs.len() == tree.entries@.len(),
            map_view(entries@) == tree_shape(dirs.take(j as int)),
        decreases tree.entries@.len() - j,
    {
        proof {
            lemma_entries_view(tree.entries@);
            lemma_map_view(entries@);
        }
        assert(dirs.take(j + 1).drop_last() =~= dirs.take(j as int));
        let entry = &tree.entries[j];
        let key = crate::path::to_vec(entry.0.as_slice());
        let below = serial_shape(&entry.1);
        let ghost before = map_view(entries@);
        entries.push((key, SerialValue::Dir(below)));
        proof {
            lemma_map_view(entries@);
            assert(map_view(entries@) =~= before.push(
                (entry.0@, ShapeView::Dir(shape(node_view(entry.1)))),
            ));
        }
        j += 1;
    }
    assert(dirs.take(j as int) =~= dirs);
    entries
}

} // verus!
