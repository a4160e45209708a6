//! Archive files: detecting their format, decoding their directory, and looking up
//! the files they hold.
//!
//! Decoding and lookup are the work of the `ba2` crate. Its archive types are kept as
//! they are; what this module assumes of them is stated on the functions marked
//! `external_body`, each of which makes one kind of call into `ba2`. The decoders
//! are given no file on which they would not come back: they take words of 64 bits
//! for granted, and the decoder of TES4 files also that the sizes in the file agree,
//! so both are tested first.

use std::sync::Arc;
use vstd::prelude::*;
use crate::error::VfsError;
use crate::files::{bindings, entries_view, Binding, VFSFiles};
use crate::path::{normalized, SEPARATOR};
use crate::vfs_file::{FileView, VfsFile};

verus! {

/// `ba2::tes3::Archive`, the decoded directory of a TES3 archive. Nothing is known
/// of what it holds but what the functions below state.
#[verifier::external_type_specification]
#[verifier::external_body]
pub struct ExTes3Archive<'bytes>(ba2::tes3::Archive<'bytes>);

/// `ba2::tes4::Archive`, the decoded directory of a TES4 archive. Nothing is known
/// of what it holds but what the functions below state.
#[verifier::external_type_specification]
#[verifier::external_body]
pub struct ExTes4Archive<'bytes>(ba2::tes4::Archive<'bytes>);

/// `ba2::fo4::Archive`, the decoded directory of a FO4 archive. Nothing is known of
/// what it holds but what the functions below state.
#[verifier::external_type_specification]
#[verifier::external_body]
pub struct ExFo4Archive<'bytes>(ba2::fo4::Archive<'bytes>);

/// The three families of archive.
#[derive(Clone, Copy, Debug, PartialEq, Eq, Structural)]
pub enum ArchiveFormat {
    /// Flat names, plain bodies.
    Tes3,
    /// A directory name and a file name; bodies may be compressed one by one.
    Tes4,
    /// Flat names; each body is a sequence of chunks.
    Fo4,
}

/// The body of a file of a TES4 archive as the archive stores it.
pub struct Tes4Body {
    /// The stored bytes: compressed where `decompressed_len` is `Some`.
    pub data: Seq<u8>,
    /// The length that the archive announces for the expanded body of a compressed
    /// file; `None` for a file that is stored as it is.
    pub decompressed_len: Option<usize>,
}

/// The body of a file of a TES4 archive, borrowed from the archive.
pub struct Tes4Stored<'a> {
    /// The stored bytes: compressed where `decompressed_len` is `Some`.
    pub data: &'a [u8],
    /// The length that the archive announces for the expanded body of a compressed
    /// file; `None` for a file that is stored as it is.
    pub decompressed_len: Option<usize>,
}

impl<'a> View for Tes4Stored<'a> {
    type V = Tes4Body;

    open spec fn view(&self) -> Tes4Body {
        Tes4Body { data: self.data@, decompressed_len: self.decompressed_len }
    }
}

/// The archive that `ba2` decodes from the bytes of a TES3 archive file, where it
/// accepts them.
pub uninterp spec fn tes3_decoded(bytes: Seq<u8>) -> Option<ba2::tes3::Archive<'static>>;

/// The names of the files of a TES3 archive, in the order in which `ba2` walks them.
pub uninterp spec fn tes3_names(archive: &ba2::tes3::Archive<'static>) -> Seq<Seq<u8>>;

/// The body that a TES3 archive gives for the key that `ba2` makes of a name.
pub uninterp spec fn tes3_file(archive: &ba2::tes3::Archive<'static>, name: Seq<u8>) -> Option<
    Seq<u8>,
>;

/// The archive that `ba2` decodes from the bytes of a TES4 archive file, where it
/// accepts them.
pub uninterp spec fn tes4_decoded(bytes: Seq<u8>) -> Option<ba2::tes4::Archive<'static>>;

/// The directories of a TES4 archive in the order in which `ba2` walks them: the name
/// of each, and the names of its files in the order in which `ba2` walks those.
pub uninterp spec fn tes4_names(archive: &ba2::tes4::Archive<'static>) -> Seq<
    (Seq<u8>, Seq<Seq<u8>>),
>;

/// The stored body that a TES4 archive gives for the keys that `ba2` makes of a
/// directory name and of a file name.
pub uninterp spec fn tes4_file(
    archive: &ba2::tes4::Archive<'static>,
    directory: Seq<u8>,
    file: Seq<u8>,
) -> Option<Tes4Body>;

/// What `ba2` expands a compressed TES4 body to with its default options, where it
/// can.
pub uninterp spec fn tes4_inflated(data: Seq<u8>, decompressed_len: usize) -> Option<Seq<u8>>;

/// The archive that `ba2` decodes from the bytes of a FO4 archive file, where it
/// accepts them.
pub uninterp spec fn fo4_decoded(bytes: Seq<u8>) -> Option<ba2::fo4::Archive<'static>>;

/// The names of the files of a FO4 archive, in the order in which `ba2` walks them.
pub uninterp spec fn fo4_names(archive: &ba2::fo4::Archive<'static>) -> Seq<Seq<u8>>;

/// The chunks, in order, that a FO4 archive gives for the key that `ba2` makes of a
/// name.
pub uninterp spec fn fo4_file(archive: &ba2::fo4::Archive<'static>, name: Seq<u8>) -> Option<
    Seq<Seq<u8>>,
>;

/// A word of the machine holds 64 bits. The decoder computes places in a file with
/// words, from numbers of 32 bits that the file holds: their sums and products fit
/// in 64 bits, and need not in fewer.
pub open spec fn wide_words() -> bool {
    usize::BITS == 64
}

/// The longest expanded body that is asked of the codec: what the length field of
/// an archive can announce, 32 bits, and no more than a vector can hold.
pub open spec fn max_inflated() -> int {
    if isize::MAX < 0xFFFF_FFFF {
        isize::MAX as int
    } else {
        0xFFFF_FFFF
    }
}

/// The format that the first four bytes of an archive file announce: the number
/// 0x100 in little-endian order for TES3, the letters `BSA` and a zero byte for TES4,
/// the letters `BTDX` for FO4.
pub open spec fn format_of(bytes: Seq<u8>) -> Option<ArchiveFormat> {
    if bytes.len() < 4 {
        None
    } else if bytes[0] == 0x00 && bytes[1] == 0x01 && bytes[2] == 0x00 && bytes[3] == 0x00 {
        Some(ArchiveFormat::Tes3)
    } else if bytes[0] == 0x42 && bytes[1] == 0x53 && bytes[2] == 0x41 && bytes[3] == 0x00 {
        Some(ArchiveFormat::Tes4)
    } else if bytes[0] == 0x42 && bytes[1] == 0x54 && bytes[2] == 0x44 && bytes[3] == 0x58 {
        Some(ArchiveFormat::Fo4)
    } else {
        None
    }
}

/// The byte strings that a list of borrowed byte strings holds.
pub open spec fn slices(parts: Seq<&[u8]>) -> Seq<Seq<u8>> {
    Seq::new(parts.len(), |i: int| parts[i]@)
}

/// The names that a list of directories with their file names holds.
pub open spec fn listing(dirs: Seq<(Vec<u8>, Vec<Vec<u8>>)>) -> Seq<(Seq<u8>, Seq<Seq<u8>>)> {
    Seq::new(dirs.len(), |i: int| (dirs[i].0@, crate::path::views(dirs[i].1@)))
}

/// `ba2::guess_format` on a reader over `bytes`. It reads four bytes and compares
/// them, as one little-endian number, with the three magic numbers; fewer than four
/// bytes give `None`. Trusted: the result is `format_of`.
#[verifier::external_body]
fn guess_format(bytes: &[u8]) -> (format: Option<ArchiveFormat>)
    ensures
        format == format_of(bytes@),
{
    let mut source: &[u8] = bytes;
    match ba2::guess_format(&mut source) {
        Some(ba2::FileFormat::TES3) => Some(ArchiveFormat::Tes3),
        Some(ba2::FileFormat::TES4) => Some(ArchiveFormat::Tes4),
        Some(ba2::FileFormat::FO4) => Some(ArchiveFormat::Fo4),
        None => None,
    }
}

/// `ba2::tes3::Archive::read` on a copy of `bytes`. Trusted: the result depends on
/// the bytes alone; `None` stands for every error of the decoder. The decoder adds
/// and multiplies the 32-bit numbers of the file as words, so words of 64 bits are
/// asked for.
#[verifier::external_body]
fn tes3_read(bytes: &[u8]) -> (archive: Option<ba2::tes3::Archive<'static>>)
    requires
        wide_words(),
    ensures
        archive == tes3_decoded(bytes@),
{
    <ba2::tes3::Archive<'static> as ba2::Reader<ba2::Copied<'_>>>::read(ba2::Copied(bytes)).ok()
}

/// `ba2::tes3::Archive::keys`, and `name` on each key. Trusted: the names come in
/// the archive's own order, which depends on the archive alone.
#[verifier::external_body]
fn tes3_list(archive: &ba2::tes3::Archive<'static>) -> (names: Vec<Vec<u8>>)
    ensures
        crate::path::views(names@) == tes3_names(archive),
{
    archive.keys().map(|key| key.name().to_vec()).collect()
}

/// `ba2::tes3::Archive::get` with the key that `ba2` makes of `name`, and `as_bytes`
/// on the file found. Trusted: the result depends on the archive and the name alone.
#[verifier::external_body]
pub(crate) fn tes3_get<'a>(archive: &'a ba2::tes3::Archive<'static>, name: &[u8]) -> (body: Option<&'a [u8]>)
    ensures
        match body {
            Some(data) => tes3_file(archive, name@) == Some(data@),
            None => tes3_file(archive, name@) is None,
        },
{
    archive.get(&ba2::tes3::ArchiveKey::from(name)).map(|file| file.as_bytes())
}

/// `ba2::tes4::Archive::read` on a copy of `bytes`; the options that come with the
/// archive are dropped. Trusted: the result depends on the bytes alone; `None` stands
/// for every error of the decoder. The decoder takes the length of an embedded name
/// and of the four bytes before a compressed body off the size of each file record
/// without a test, so a file whose sizes do not agree is kept from it; and it adds
/// and multiplies the 32-bit numbers of the file as words, so words of 64 bits are
/// asked for.
#[verifier::external_body]
fn tes4_read(bytes: &[u8]) -> (archive: Option<ba2::tes4::Archive<'static>>)
    requires
        wide_words(),
        crate::tes4::sizes_fit(bytes@),
    ensures
        archive == tes4_decoded(bytes@),
{
    <ba2::tes4::Archive<'static> as ba2::Reader<ba2::Copied<'_>>>::read(ba2::Copied(bytes))
        .ok()
        .map(|read| read.0)
}

/// `ba2::tes4::Archive::iter`, with `name` on each directory key, and
/// `ba2::tes4::Directory::keys` with `name` on each file key. Trusted: directories
/// and files come in the archive's own order, which depends on the archive alone.
#[verifier::external_body]
fn tes4_list(archive: &ba2::tes4::Archive<'static>) -> (dirs: Vec<(Vec<u8>, Vec<Vec<u8>>)>)
    ensures
        listing(dirs@) == tes4_names(archive),
{
    archive
        .iter()
        .map(|(key, dir)| (key.name().to_vec(), dir.keys().map(|k| k.name().to_vec()).collect()))
        .collect()
}

/// `ba2::tes4::Archive::get` with the key that `ba2` makes of `directory`, then
/// `ba2::tes4::Directory::get` with the key that it makes of `file`; `as_bytes` and
/// `decompressed_len` on the file found. Trusted: the result depends on the archive
/// and the two names alone.
#[verifier::external_body]
pub(crate) fn tes4_get<'a>(archive: &'a ba2::tes4::Archive<'static>, directory: &[u8], file: &[u8]) -> (body:
    Option<Tes4Stored<'a>>)
    ensures
        match body {
            Some(stored) => tes4_file(archive, directory@, file@) == Some(stored@),
            None => tes4_file(archive, directory@, file@) is None,
        },
{
    archive
        .get(&ba2::tes4::ArchiveKey::from(directory))
        .and_then(|dir| dir.get(&ba2::tes4::DirectoryKey::from(file)))
        .map(|f| Tes4Stored { data: f.as_bytes(), decompressed_len: f.decompressed_len() })
}

/// `ba2::tes4::File::decompress` with the default options, on the compressed file
/// that `ba2` makes of `data` and `decompressed_len`. Trusted: the result depends on
/// these two alone; `None` stands for every error of the codec, among them a body
/// that expands to another length than the one announced. `ba2` reserves a buffer
/// of the announced length before it expands anything: the bound keeps that within
/// what the length field of an archive can announce and a vector can hold.
#[verifier::external_body]
pub(crate) fn tes4_inflate(data: &[u8], decompressed_len: usize) -> (body: Option<Vec<u8>>)
    requires
        decompressed_len <= max_inflated(),
    ensures
        match body {
            Some(bytes) => tes4_inflated(data@, decompressed_len) == Some(bytes@),
            None => tes4_inflated(data@, decompressed_len) is None,
        },
{
    let file = <ba2::tes4::File<'_> as ba2::CompressableFrom<&[u8]>>::from_compressed(
        data,
        decompressed_len,
    );
    file.decompress(&ba2::tes4::FileCompressionOptions::default()).ok().map(|f| f.as_bytes().to_vec())
}

/// `ba2::fo4::Archive::read` on a copy of `bytes`; the options that come with the
/// archive are dropped. Trusted: the result depends on the bytes alone; `None` stands
/// for every error of the decoder. The decoder adds the 32-bit numbers of the file
/// as words, so words of 64 bits are asked for.
#[verifier::external_body]
fn fo4_read(bytes: &[u8]) -> (archive: Option<ba2::fo4::Archive<'static>>)
    requires
        wide_words(),
    ensures
        archive == fo4_decoded(bytes@),
{
    <ba2::fo4::Archive<'static> as ba2::Reader<ba2::Copied<'_>>>::read(ba2::Copied(bytes))
        .ok()
        .map(|read| read.0)
}

/// `ba2::fo4::Archive::keys`, and `name` on each key. Trusted: the names come in the
/// archive's own order, which depends on the archive alone.
#[verifier::external_body]
fn fo4_list(archive: &ba2::fo4::Archive<'static>) -> (names: Vec<Vec<u8>>)
    ensures
        crate::path::views(names@) == fo4_names(archive),
{
    archive.keys().map(|key| key.name().to_vec()).collect()
}

/// `ba2::fo4::Archive::get` with the key that `ba2` makes of `name`, then
/// `ba2::fo4::File::iter` and `as_bytes` on each chunk. Trusted: the result depends
/// on the archive and the name alone, and the chunks come in the file's order.
#[verifier::external_body]
pub(crate) fn fo4_get<'a>(archive: &'a ba2::fo4::Archive<'static>, name: &[u8]) -> (body: Option<
    Vec<&'a [u8]>,
>)
    ensures
        match body {
            Some(chunks) => fo4_file(archive, name@) == Some(slices(chunks@)),
            None => fo4_file(archive, name@) is None,
        },
{
    archive
        .get(&ba2::fo4::ArchiveKey::from(name))
        .map(|file| file.iter().map(|chunk| chunk.as_bytes()).collect())
}

/// `Arc::clone`. Trusted: the new handle shares the value of the old one.
#[verifier::external_body]
pub(crate) fn share(archive: &Arc<StoredArchive>) -> (shared: Arc<StoredArchive>)
    ensures
        shared == *archive,
{
    Arc::clone(archive)
}

/// The decoded directory of an archive, tagged with its format.
pub enum TypedArchive {
    /// Flat names, plain bodies.
    Tes3(ba2::tes3::Archive<'static>),
    /// Directories of files; bodies may be compressed one by one.
    Tes4(ba2::tes4::Archive<'static>),
    /// Flat names; each body is a sequence of chunks.
    Fo4(ba2::fo4::Archive<'static>),
}

/// One opened archive: where it lies on disk, and its decoded directory.
pub struct StoredArchive {
    archive: TypedArchive,
    path: Vec<u8>,
}

/// What an opened archive is: the path it was opened from, and its directory.
pub struct ArchiveView {
    /// The path on disk that the archive was opened from.
    pub path: Seq<u8>,
    /// The decoded directory.
    pub archive: TypedArchive,
}

/// The opened archives, in the order in which they were asked for.
pub type ArchiveList = Vec<Arc<StoredArchive>>;

impl View for StoredArchive {
    type V = ArchiveView;

    closed spec fn view(&self) -> ArchiveView {
        ArchiveView { path: self.path@, archive: self.archive }
    }
}

/// The directory that the bytes of an archive file decode to. The first four bytes
/// decide the format and with it the decoder: `UnsupportedFormat` where they announce
/// no known format; `Io` where the decoder of the announced format rejects the
/// bytes, where the sizes of a TES4 file do not agree, and on a machine whose words
/// are too narrow for the decoder.
pub open spec fn decoded(bytes: Seq<u8>) -> Result<TypedArchive, VfsError> {
    match format_of(bytes) {
        None => Err(VfsError::UnsupportedFormat),
        Some(format) => if !wide_words() {
            Err(VfsError::Io)
        } else {
            match format {
                ArchiveFormat::Tes3 => match tes3_decoded(bytes) {
                    Some(archive) => Ok(TypedArchive::Tes3(archive)),
                    None => Err(VfsError::Io),
                },
                ArchiveFormat::Tes4 => if !crate::tes4::sizes_fit(bytes) {
                    Err(VfsError::Io)
                } else {
                    match tes4_decoded(bytes) {
                        Some(archive) => Ok(TypedArchive::Tes4(archive)),
                        None => Err(VfsError::Io),
                    }
                },
                ArchiveFormat::Fo4 => match fo4_decoded(bytes) {
                    Some(archive) => Ok(TypedArchive::Fo4(archive)),
                    None => Err(VfsError::Io),
                },
            }
        },
    }
}

/// The archive that the bytes of a file found at `path` open as.
pub open spec fn opened(path: Seq<u8>, bytes: Seq<u8>) -> Result<ArchiveView, VfsError> {
    match decoded(bytes) {
        Ok(archive) => Ok(ArchiveView { path, archive }),
        Err(e) => Err(e),
    }
}

/// The name under which a TES4 archive holds a file: the directory's name, a
/// separator, and the file's name.
pub open spec fn tes4_joined(directory: Seq<u8>, file: Seq<u8>) -> Seq<u8> {
    directory.push(SEPARATOR) + file
}

/// The names of the files of one TES4 directory, each behind the directory's name.
pub open spec fn tes4_directory_entries(directory: Seq<u8>, files: Seq<Seq<u8>>) -> Seq<Seq<u8>> {
    Seq::new(files.len(), |i: int| tes4_joined(directory, files[i]))
}

/// The names of all files of the directories `dirs`, directory by directory.
pub open spec fn tes4_entries(dirs: Seq<(Seq<u8>, Seq<Seq<u8>>)>) -> Seq<Seq<u8>>
    decreases dirs.len(),
{
    if dirs.len() == 0 {
        Seq::empty()
    } else {
        tes4_entries(dirs.drop_last()) + tes4_directory_entries(dirs.last().0, dirs.last().1)
    }
}

/// The intra-archive names of the files that an archive holds, in the archive's
/// order.
pub open spec fn entry_names(archive: TypedArchive) -> Seq<Seq<u8>> {
    match archive {
        TypedArchive::Tes3(a) => tes3_names(&a),
        TypedArchive::Tes4(a) => tes4_entries(tes4_names(&a)),
        TypedArchive::Fo4(a) => fo4_names(&a),
    }
}

impl TypedArchive {
    /// Decodes the bytes of an archive file. The first four bytes decide the format
    /// and with it the decoder: `UnsupportedFormat` where they announce no known
    /// format; `Io` where the decoder of the announced format rejects the bytes,
    /// where the sizes of a TES4 file do not agree, and on a machine whose words are
    /// too narrow for the decoder.
    pub fn read(bytes: &[u8]) -> (archive: Result<TypedArchive, VfsError>)
        ensures
            archive == decoded(bytes@),
    {
        let format = match guess_format(bytes) {
            None => {
                return Err(VfsError::UnsupportedFormat);
            },
            Some(format) => format,
        };
        if usize::BITS != 64 {
            return Err(VfsError::Io);
        }
        match format {
            ArchiveFormat::Tes3 => match tes3_read(bytes) {
                Some(a) => Ok(TypedArchive::Tes3(a)),
                None => Err(VfsError::Io),
            },
            ArchiveFormat::Tes4 => {
                if !crate::tes4::check_sizes(bytes) {
                    return Err(VfsError::Io);
                }
                match tes4_read(bytes) {
                    Some(a) => Ok(TypedArchive::Tes4(a)),
                    None => Err(VfsError::Io),
                }
            },
            ArchiveFormat::Fo4 => match fo4_read(bytes) {
                Some(a) => Ok(TypedArchive::Fo4(a)),
                None => Err(VfsError::Io),
            },
        }
    }

    /// The intra-archive names of the files of the archive, in the archive's order.
    /// A file of a TES4 archive is named by its directory, a separator and its own
    /// name.
    pub fn names(&self) -> (names: Vec<Vec<u8>>)
        ensures
            crate::path::views(names@) == entry_names(*self),
    {
        match self {
            TypedArchive::Tes3(a) => tes3_list(a),
            TypedArchive::Fo4(a) => fo4_list(a),
            TypedArchive::Tes4(a) => {
                let dirs = tes4_list(a);
                let mut names: Vec<Vec<u8>> = Vec::new();
                let mut d: usize = 0;
                while d < dirs.len()
                    invariant
                        d <= dirs@.len(),
                        crate::path::views(names@) == tes4_entries(listing(dirs@).take(d as int)),
                    decreases dirs@.len() - d,
                {
                    let ghost before = crate::path::views(names@);
                    let mut f: usize = 0;
                    while f < dirs[d].1.len()
                        invariant
                            d < dirs@.len(),
                            f <= dirs@[d as int].1@.len(),
                            crate::path::views(names@) == before + tes4_directory_entries(
                                dirs@[d as int].0@,
                                crate::path::views(dirs@[d as int].1@).take(f as int),
                            ),
                        decreases dirs@[d as int].1@.len() - f,
                    {
                        let ghost sofar = crate::path::views(names@);
                        let mut name: Vec<u8> = crate::path::to_vec(dirs[d].0.as_slice());
                        name.push(SEPARATOR);
                        let file: &Vec<u8> = &dirs[d].1[f];
                        crate::path::append(&mut name, file.as_slice());
                        assert(name@ =~= tes4_joined(dirs@[d as int].0@, file@));
                        names.push(name);
                        assert(crate::path::views(names@) =~= sofar.push(
                            tes4_joined(dirs@[d as int].0@, file@),
                        ));
                        assert(crate::path::views(names@) =~= before + tes4_directory_entries(
                            dirs@[d as int].0@,
                            crate::path::views(dirs@[d as int].1@).take(f + 1),
                        ));
                        f += 1;
                    }
                    assert(crate::path::views(dirs@[d as int].1@).take(f as int)
                        =~= crate::path::views(dirs@[d as int].1@));
                    assert(listing(dirs@).take(d + 1).drop_last() =~= listing(dirs@).take(
                        d as int,
                    ));
                    d += 1;
                }
                assert(listing(dirs@).take(d as int) =~= listing(dirs@));
                names
            },
        }
    }
}

impl StoredArchive {
    /// An opened archive: its directory, and the path it was read from.
    pub fn new(path: &[u8], archive: TypedArchive) -> (stored: StoredArchive)
        ensures
            stored@ == (ArchiveView { path: path@, archive }),
    {
        let owned = crate::path::to_vec(path);
        StoredArchive { archive, path: owned }
    }

    /// The decoded directory.
    pub fn handle(&self) -> (archive: &TypedArchive)
        ensures
            *archive == self@.archive,
    {
        &self.archive
    }

    /// The path the archive was opened from, as it was given.
    pub fn path(&self) -> (path: &[u8])
        ensures
            path@ == self@.path,
    {
        self.path.as_slice()
    }
}

/// Opens the archive whose file lies at `path` and holds `bytes`: `UnsupportedFormat`
/// where the first bytes announce no known format, `Io` where the decoder of the
/// announced format rejects the bytes.
pub fn open_archive(path: &[u8], bytes: &[u8]) -> (stored: Result<StoredArchive, VfsError>)
    ensures
        match stored {
            Ok(a) => opened(path@, bytes@) == Ok::<ArchiveView, VfsError>(a@),
            Err(e) => opened(path@, bytes@) == Err::<ArchiveView, VfsError>(e),
        },
{
    match TypedArchive::read(bytes) {
        Ok(archive) => Ok(StoredArchive::new(path, archive)),
        Err(e) => Err(e),
    }
}

/// The name of an archive that the file system is asked to hold, and the bytes of
/// the archive's file where they could be read.
pub struct ArchiveSource {
    /// The name under which the archive is asked for.
    pub name: Vec<u8>,
    /// The bytes of the archive's file; `None` where it could not be read.
    pub contents: Option<Vec<u8>>,
}

/// What an `ArchiveSource` holds.
pub struct SourceView {
    /// The name under which the archive is asked for.
    pub name: Seq<u8>,
    /// The bytes of the archive's file; `None` where it could not be read.
    pub contents: Option<Seq<u8>>,
}

impl View for ArchiveSource {
    type V = SourceView;

    open spec fn view(&self) -> SourceView {
        SourceView {
            name: self.name@,
            contents: match self.contents {
                Some(bytes) => Some(bytes@),
                None => None,
            },
        }
    }
}

/// What a list of archive sources holds.
pub open spec fn source_views(sources: Seq<ArchiveSource>) -> Seq<SourceView> {
    Seq::new(sources.len(), |i: int| sources[i]@)
}

/// What a list of opened archives holds.
pub open spec fn archive_views(archives: Seq<Arc<StoredArchive>>) -> Seq<ArchiveView> {
    Seq::new(archives.len(), |i: int| archives[i]@)
}

/// The archive that one source gives: its name, normalized, must be a key of
/// `files`; its bytes must have been read; and they must open as an archive, which
/// then lies at the path of the file bound to that key.
pub open spec fn resolved_one(files: Map<Seq<u8>, FileView>, source: SourceView) -> Option<
    ArchiveView,
> {
    let key = normalized(source.name);
    if !files.contains_key(key) {
        None
    } else {
        match source.contents {
            None => None,
            Some(bytes) => match opened(files[key].path(), bytes) {
                Ok(archive) => Some(archive),
                Err(_) => None,
            },
        }
    }
}

/// The archives that a list of sources gives, in the order of the list; a source
/// that gives none is passed over.
pub open spec fn resolved(files: Map<Seq<u8>, FileView>, sources: Seq<SourceView>) -> Seq<
    ArchiveView,
>
    decreases sources.len(),
{
    if sources.len() == 0 {
        Seq::empty()
    } else {
        let front = resolved(files, sources.drop_last());
        match resolved_one(files, sources.last()) {
            Some(archive) => front.push(archive),
            None => front,
        }
    }
}

/// The bindings that one archive contributes: each of its files under the
/// normalized form of its intra-archive name, in the archive's order.
pub open spec fn archive_bindings(archive: ArchiveView) -> Seq<Binding> {
    let names = entry_names(archive.archive);
    Seq::new(
        names.len(),
        |i: int| (normalized(names[i]), FileView::Archived { path: names[i], archive }),
    )
}

/// The bindings that a list of archives contributes: those of the first archive,
/// then those of the second, and so on.
pub open spec fn all_archive_bindings(archives: Seq<ArchiveView>) -> Seq<Binding>
    decreases archives.len(),
{
    if archives.len() == 0 {
        Seq::empty()
    } else {
        all_archive_bindings(archives.drop_last()) + archive_bindings(archives.last())
    }
}

/// The path on disk of the archive file that `name` asks for: the path of the file
/// that `files` binds to the normalized name.
pub fn locate<'a>(files: &'a VFSFiles, name: &[u8]) -> (path: Option<&'a [u8]>)
    ensures
        match path {
            Some(p) => files.map().contains_key(normalized(name@)) && p@
                == files.map()[normalized(name@)].path(),
            None => !files.map().contains_key(normalized(name@)),
        },
{
    let key = crate::path::normalize_path(name);
    match files.get(key.as_slice()) {
        Some(file) => Some(file.path()),
        None => None,
    }
}

/// Opens the archives that `archive_list` asks for, in its order. A name that no
/// key of `file_map` matches, a file whose bytes could not be read, and bytes that do
/// not open as an archive are passed over without a word.
pub fn from_set(file_map: &VFSFiles, archive_list: &Vec<ArchiveSource>) -> (archives: ArchiveList)
    ensures
        archive_views(archives@) == resolved(file_map.map(), source_views(archive_list@)),
{
    let mut archives: ArchiveList = Vec::new();
    let mut i: usize = 0;
    assert(source_views(archive_list@).take(0) =~= Seq::<SourceView>::empty());
    assert(archive_views(archives@) =~= Seq::<ArchiveView>::empty());
    while i < archive_list.len()
        invariant
            i <= archive_list@.len(),
            archive_views(archives@) == resolved(
                file_map.map(),
                source_views(archive_list@).take(i as int),
            ),
        decreases archive_list@.len() - i,
    {
        let source = &archive_list[i];
        let ghost before = archive_views(archives@);
        let ghost sources = source_views(archive_list@);
        assert(sources.take(i + 1).drop_last() =~= sources.take(i as int));
        assert(sources.take(i + 1).last() == source@);
        match locate(file_map, source.name.as_slice()) {
            None => {},
            Some(path) => {
                match &source.contents {
                    None => {},
                    Some(bytes) => {
                        match open_archive(path, bytes.as_slice()) {
                            Ok(stored) => {
                                let ghost view = stored@;
                                archives.push(Arc::new(stored));
                                assert(archive_views(archives@) =~= before.push(view));
                            },
                            Err(_) => {},
                        }
                    },
                }
            },
        }
        i += 1;
    }
    assert(source_views(archive_list@).take(i as int) =~= source_views(archive_list@));
    archives
}

/// The files of the archives `archives`, each bound to the normalized form of its
/// intra-archive name. Where two archives hold a file under one key, the file of the
/// later archive stays.
pub fn file_map(archives: &ArchiveList) -> (files: VFSFiles)
    ensures
        files.map() == bindings(all_archive_bindings(archive_views(archives@))),
        files.wf(),
{
    let mut list: Vec<(Vec<u8>, VfsFile)> = Vec::new();
    let mut a: usize = 0;
    assert(archive_views(archives@).take(0) =~= Seq::<ArchiveView>::empty());
    assert(entries_view(list@) =~= Seq::<Binding>::empty());
    while a < archives.len()
        invariant
            a <= archives@.len(),
            entries_view(list@) == all_archive_bindings(archive_views(archives@).take(a as int)),
        decreases archives@.len() - a,
    {
        let stored: &Arc<StoredArchive> = &archives[a];
        let ghost view = stored@;
        let ghost done = entries_view(list@);
        let ghost own = archive_bindings(view);
        let names = stored.handle().names();
        let mut n: usize = 0;
        assert(done + own.take(0) =~= done);
        while n < names.len()
            invariant
                n <= names@.len(),
                crate::path::views(names@) == entry_names(view.archive),
                own == archive_bindings(view),
                view == stored@,
                entries_view(list@) == done + own.take(n as int),
            decreases names@.len() - n,
        {
            let name: &[u8] = names[n].as_slice();
            assert(crate::path::views(names@)[n as int] == name@);
            let key = crate::path::normalize_path(name);
            let file = VfsFile::from_archive(name, share(stored));
            assert((key@, file@) == own[n as int]);
            let ghost before = entries_view(list@);
            list.push((key, file));
            assert(entries_view(list@) =~= before.push(own[n as int]));
            assert(entries_view(list@) =~= done + own.take(n + 1));
            n += 1;
        }
        assert(own.take(n as int) =~= own);
        assert(archive_views(archives@).take(a + 1).drop_last() =~= archive_views(archives@).take(
            a as int,
        ));
        a += 1;
    }
    assert(archive_views(archives@).take(a as int) =~= archive_views(archives@));
    VFSFiles::from_entries(list)
}

/// The key under which a configuration names an archive.
pub open spec fn archive_setting() -> Seq<u8> {
    seq![
        0x66u8, 0x61u8, 0x6Cu8, 0x6Cu8, 0x62u8, 0x61u8, 0x63u8, 0x6Bu8, 0x2Du8, 0x61u8, 0x72u8,
        0x63u8, 0x68u8, 0x69u8, 0x76u8, 0x65u8,
    ]
}

/// The values of the settings `settings` whose key is `key`, in their order.
pub open spec fn values_of(settings: Seq<(Seq<u8>, Seq<u8>)>, key: Seq<u8>) -> Seq<Seq<u8>>
    decreases settings.len(),
{
    if settings.len() == 0 {
        Seq::empty()
    } else if settings.last().0 == key {
        values_of(settings.drop_last(), key).push(settings.last().1)
    } else {
        values_of(settings.drop_last(), key)
    }
}

/// What a list of settings holds.
pub open spec fn setting_views(settings: Seq<(Vec<u8>, Vec<u8>)>) -> Seq<(Seq<u8>, Seq<u8>)> {
    Seq::new(settings.len(), |i: int| (settings[i].0@, settings[i].1@))
}

/// The archives that a configuration asks for: the values of its settings named
/// `fallback-archive`, in the order of the settings.
pub fn in_config(config: &Vec<(Vec<u8>, Vec<u8>)>) -> (names: Vec<&[u8]>)
    ensures
        slices(names@) == values_of(setting_views(config@), archive_setting()),
{
    let wanted: Vec<u8> = vec![
        0x66u8, 0x61u8, 0x6Cu8, 0x6Cu8, 0x62u8, 0x61u8, 0x63u8, 0x6Bu8, 0x2Du8, 0x61u8, 0x72u8,
        0x63u8, 0x68u8, 0x69u8, 0x76u8, 0x65u8,
    ];
    assert(wanted@ =~= archive_setting());
    let mut names: Vec<&[u8]> = Vec::new();
    let ghost settings = setting_views(config@);
    let mut i: usize = 0;
    assert(settings.take(0) =~= Seq::<(Seq<u8>, Seq<u8>)>::empty());
    assert(slices(names@) =~= Seq::<Seq<u8>>::empty());
    while i < config.len()
        invariant
            i <= config@.len(),
            settings == setting_views(config@),
            wanted@ == archive_setting(),
            slices(names@) == values_of(settings.take(i as int), archive_setting()),
        decreases config@.len() - i,
    {
        let ghost before = slices(names@);
        assert(settings.take(i + 1).drop_last() =~= settings.take(i as int));
        assert(settings.take(i + 1).last() == settings[i as int]);
        if crate::path::bytes_eq(config[i].0.as_slice(), wanted.as_slice()) {
            names.push(config[i].1.as_slice());
            assert(slices(names@) =~= before.push(settings[i as int].1));
        }
        i += 1;
    }
    assert(settings.take(i as int) =~= settings);
    names
}

} // verus!
