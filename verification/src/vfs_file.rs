//! One file of the virtual file system: loose on disk, or held by an archive; and the
//! readers that stream the bytes of an archived file.

use std::sync::Arc;
use vstd::prelude::*;
use crate::archives::{
    fo4_file, max_inflated, share, slices, tes3_file, tes4_file, tes4_inflated, ArchiveView,
    StoredArchive, Tes4Body, Tes4Stored, TypedArchive,
};
use crate::error::VfsError;
use crate::path::{file_name_of, file_stem_of, name_start};

verus! {

/// The smaller of two lengths.
pub open spec fn min_len(a: int, b: int) -> int {
    if a <= b {
        a
    } else {
        b
    }
}

/// Copies `n` bytes of `src`, from `from` on, into `buf` at `at`.
fn copy_into(buf: &mut [u8], at: usize, src: &[u8], from: usize, n: usize)
    requires
        at + n <= old(buf)@.len(),
        from + n <= src@.len(),
    ensures
        final(buf)@ == old(buf)@.take(at as int) + src@.subrange(from as int, from + n) + old(
            buf,
        )@.skip(at + n),
{
    let size: usize = buf.len();
    let avail: usize = src.len();
    let mut k: usize = 0;
    while k < n
        invariant
            k <= n,
            at + n <= size,
            from + n <= avail,
            size == buf@.len(),
            avail == src@.len(),
            buf@.len() == old(buf)@.len(),
            buf@ == old(buf)@.take(at as int) + src@.subrange(from as int, from + k) + old(
                buf,
            )@.skip(at + k),
        decreases n - k,
    {
        let ghost before = buf@;
        buf[at + k] = src[from + k];
        assert(buf@ =~= old(buf)@.take(at as int) + src@.subrange(from as int, from + k + 1)
            + old(buf)@.skip(at + k + 1));
        k += 1;
    }
}

/// A reader over the body of a file of a TES3 archive: a cursor over the span of
/// bytes that the archive holds for it.
pub struct Tes3FileReader<'a> {
    data: &'a [u8],
    position: usize,
}

impl<'a> Tes3FileReader<'a> {
    #[verifier::type_invariant]
    spec fn valid(self) -> bool {
        self.position <= self.data@.len()
    }

    /// The bytes that are still to be read.
    pub closed spec fn remaining(&self) -> Seq<u8> {
        self.data@.skip(self.position as int)
    }

    /// A reader at the start of `data`.
    pub fn new(data: &'a [u8]) -> (reader: Self)
        ensures
            reader.remaining() == data@,
    {
        assert(data@.skip(0) =~= data@);
        Tes3FileReader { data, position: 0 }
    }

    /// Reads up to `buf.len()` bytes into the front of `buf` and returns how many;
    /// zero once everything has been read.
    pub fn read(&mut self, buf: &mut [u8]) -> (n: usize)
        ensures
            n == min_len(old(buf)@.len() as int, old(self).remaining().len() as int),
            final(buf)@ == old(self).remaining().take(n as int) + old(buf)@.skip(n as int),
            final(self).remaining() == old(self).remaining().skip(n as int),
    {
        proof {
            use_type_invariant(&*self);
        }
        let left: usize = self.data.len() - self.position;
        let n: usize = if buf.len() < left {
            buf.len()
        } else {
            left
        };
        copy_into(buf, 0, self.data, self.position, n);
        assert(buf@ =~= old(self).remaining().take(n as int) + old(buf)@.skip(n as int));
        assert(self.data@.skip(self.position + n) =~= self.data@.skip(self.position as int).skip(
            n as int,
        ));
        self.position = self.position + n;
        n
    }

    /// Reads everything that is left.
    pub fn read_to_end(&mut self) -> (bytes: Vec<u8>)
        ensures
            bytes@ == old(self).remaining(),
            final(self).remaining().len() == 0,
    {
        proof {
            use_type_invariant(&*self);
        }
        let bytes = crate::path::copy_range(self.data, self.position, self.data.len());
        assert(bytes@ =~= self.remaining());
        self.position = self.data.len();
        bytes
    }
}

/// A reader over the body of a file of a TES4 archive: a cursor over the file's
/// bytes, expanded first where the archive holds them compressed.
pub struct TES4FileReader {
    data: Vec<u8>,
    position: usize,
}

/// The body of a TES4 file as a reader yields it: the stored bytes, or what they
/// expand to; `None` where a compressed body cannot be expanded.
pub open spec fn tes4_contents(body: Tes4Body) -> Option<Seq<u8>> {
    match body.decompressed_len {
        None => Some(body.data),
        Some(len) => if len <= max_inflated() {
            tes4_inflated(body.data, len)
        } else {
            None
        },
    }
}

impl TES4FileReader {
    #[verifier::type_invariant]
    spec fn valid(self) -> bool {
        self.position <= self.data@.len()
    }

    /// The bytes that are still to be read.
    pub closed spec fn remaining(&self) -> Seq<u8> {
        self.data@.skip(self.position as int)
    }

    /// A reader over a file's body. A compressed body is expanded here, with the
    /// codec's default parameters; `DecompressionFailed` where that cannot be done.
    pub fn new(file: &Tes4Stored) -> (reader: Result<Self, VfsError>)
        ensures
            match reader {
                Ok(r) => tes4_contents(file@) == Some(r.remaining()),
                Err(e) => e == VfsError::DecompressionFailed && tes4_contents(file@) is None,
            },
    {
        let data: Vec<u8> = match file.decompressed_len {
            Some(len) => {
                if len as u64 > 0xFFFF_FFFF || len > isize::MAX as usize {
                    return Err(VfsError::DecompressionFailed);
                }
                match crate::archives::tes4_inflate(file.data, len) {
                    Some(bytes) => bytes,
                    None => {
                        return Err(VfsError::DecompressionFailed);
                    },
                }
            },
            None => {
                let copy = crate::path::to_vec(file.data);
                copy
            },
        };
        assert(data@.skip(0) =~= data@);
        Ok(TES4FileReader { data, position: 0 })
    }

    /// Reads up to `buf.len()` bytes into the front of `buf` and returns how many;
    /// zero once everything has been read.
    pub fn read(&mut self, buf: &mut [u8]) -> (n: usize)
        ensures
            n == min_len(old(buf)@.len() as int, old(self).remaining().len() as int),
            final(buf)@ == old(self).remaining().take(n as int) + old(buf)@.skip(n as int),
            final(self).remaining() == old(self).remaining().skip(n as int),
    {
        proof {
            use_type_invariant(&*self);
        }
        let left: usize = self.data.len() - self.position;
        let n: usize = if buf.len() < left {
            buf.len()
        } else {
            left
        };
        copy_into(buf, 0, self.data.as_slice(), self.position, n);
        assert(buf@ =~= old(self).remaining().take(n as int) + old(buf)@.skip(n as int));
        assert(self.data@.skip(self.position + n) =~= self.data@.skip(self.position as int).skip(
            n as int,
        ));
        self.position = self.position + n;
        n
    }

    /// Reads everything that is left.
    pub fn read_to_end(&mut self) -> (bytes: Vec<u8>)
        ensures
            bytes@ == old(self).remaining(),
            final(self).remaining().len() == 0,
    {
        proof {
            use_type_invariant(&*self);
        }
        let bytes = crate::path::copy_range(self.data.as_slice(), self.position, self.data.len());
        assert(bytes@ =~= self.remaining());
        self.position = self.data.len();
        bytes
    }
}

/// The bytes of the chunks `chunks` from chunk `current` on, one chunk after the
/// other.
pub open spec fn chunks_from(chunks: Seq<Seq<u8>>, current: int) -> Seq<u8>
    decreases chunks.len() - current,
{
    if current < 0 || current >= chunks.len() {
        Seq::empty()
    } else {
        chunks[current] + chunks_from(chunks, current + 1)
    }
}

/// The bytes of a chunked file: its chunks one after the other, without gaps.
pub open spec fn concatenated(chunks: Seq<Seq<u8>>) -> Seq<u8> {
    chunks_from(chunks, 0)
}

/// A reader over the body of a file of a FO4 archive, which the archive holds in
/// chunks. It presents the chunks as one stream of bytes.
pub struct Fo4FileReader<'a> {
    chunks: Vec<&'a [u8]>,
    current: usize,
    position: usize,
}

impl<'a> Fo4FileReader<'a> {
    #[verifier::type_invariant]
    spec fn valid(self) -> bool {
        &&& self.current <= self.chunks@.len()
        &&& self.current < self.chunks@.len() ==> self.position <= self.chunks@[self.current as int]@.len()
        &&& self.current == self.chunks@.len() ==> self.position == 0
    }

    /// The bytes that are still to be read.
    pub closed spec fn remaining(&self) -> Seq<u8> {
        chunks_from(slices(self.chunks@), self.current as int).skip(self.position as int)
    }

    /// A reader at the start of the first of `chunks`.
    pub fn new(chunks: Vec<&'a [u8]>) -> (reader: Self)
        ensures
            reader.remaining() == concatenated(slices(chunks@)),
    {
        assert(concatenated(slices(chunks@)).skip(0) =~= concatenated(slices(chunks@)));
        Fo4FileReader { chunks, current: 0, position: 0 }
    }

    /// Reads up to `buf.len()` bytes into the front of `buf` and returns how many. One
    /// call goes on through as many chunks as it takes to fill `buf`; it returns zero
    /// once every chunk has been read.
    pub fn read(&mut self, buf: &mut [u8]) -> (n: usize)
        ensures
            n == min_len(old(buf)@.len() as int, old(self).remaining().len() as int),
            final(buf)@ == old(self).remaining().take(n as int) + old(buf)@.skip(n as int),
            final(self).remaining() == old(self).remaining().skip(n as int),
    {
        proof {
            use_type_invariant(&*self);
        }
        let size: usize = buf.len();
        let mut total: usize = 0;
        assert(buf@ =~= old(self).remaining().take(0) + old(buf)@.skip(0));
        assert(self.remaining() =~= old(self).remaining().skip(0));
        while total < size && self.current < self.chunks.len()
            invariant
                self.chunks == old(self).chunks,
                self.current <= self.chunks@.len(),
                self.current < self.chunks@.len() ==> self.position <= self.chunks@[self.current as int]@.len(),
                self.current == self.chunks@.len() ==> self.position == 0,
                size == buf@.len(),
                buf@.len() == old(buf)@.len(),
                total <= size,
                total <= old(self).remaining().len(),
                buf@ == old(self).remaining().take(total as int) + old(buf)@.skip(total as int),
                self.remaining() == old(self).remaining().skip(total as int),
            decreases self.chunks@.len() - self.current, size - total,
        {
            let chunk: &[u8] = self.chunks[self.current];
            let ghost all = slices(self.chunks@);
            let ghost cur = self.current as int;
            let ghost pos = self.position as int;
            assert(all[cur] == chunk@);
            if self.position >= chunk.len() {
                assert(chunks_from(all, cur).skip(pos) =~= chunks_from(all, cur + 1).skip(0));
                self.position = 0;
                self.current = self.current + 1;
            } else {
                let left: usize = chunk.len() - self.position;
                let want: usize = size - total;
                let n: usize = if want < left {
                    want
                } else {
                    left
                };
                let ghost before = buf@;
                let ghost rest = self.remaining();
                assert(chunks_from(all, cur) == all[cur] + chunks_from(all, cur + 1));
                assert(rest.len() >= left);
                assert(rest.take(n as int) =~= chunk@.subrange(pos, pos + n));
                copy_into(buf, total, chunk, self.position, n);
                assert(buf@ =~= old(self).remaining().take(total + n) + old(buf)@.skip(
                    total + n,
                )) by {
                    assert(before.take(total as int) =~= old(self).remaining().take(total as int));
                    assert(before.skip(total + n) =~= old(buf)@.skip(total + n));
                    assert(old(self).remaining().take(total + n) =~= old(self).remaining().take(
                        total as int,
                    ) + rest.take(n as int));
                }
                assert(chunks_from(all, cur).skip(pos + n) =~= rest.skip(n as int));
                assert(rest.skip(n as int) =~= old(self).remaining().skip(total + n));
                self.position = self.position + n;
                total = total + n;
            }
        }
        proof {
            if self.current == self.chunks@.len() {
                assert(self.remaining().len() == 0);
            }
        }
        total
    }

    /// Reads everything that is left.
    pub fn read_to_end(&mut self) -> (bytes: Vec<u8>)
        ensures
            bytes@ == old(self).remaining(),
            final(self).remaining().len() == 0,
    {
        proof {
            use_type_invariant(&*self);
        }
        let mut bytes: Vec<u8> = Vec::new();
        assert(self.remaining() =~= old(self).remaining().skip(0));
        while self.current < self.chunks.len()
            invariant
                self.chunks == old(self).chunks,
                self.current <= self.chunks@.len(),
                self.current < self.chunks@.len() ==> self.position <= self.chunks@[self.current as int]@.len(),
                self.current == self.chunks@.len() ==> self.position == 0,
                bytes@.len() <= old(self).remaining().len(),
                bytes@ == old(self).remaining().take(bytes@.len() as int),
                self.remaining() == old(self).remaining().skip(bytes@.len() as int),
            decreases self.chunks@.len() - self.current,
        {
            let chunk: &[u8] = self.chunks[self.current];
            let ghost all = slices(self.chunks@);
            let ghost cur = self.current as int;
            let ghost start = self.position as int;
            let ghost done = bytes@;
            assert(all[cur] == chunk@);
            crate::path::append(
                &mut bytes,
                vstd::slice::slice_subrange(chunk, self.position, chunk.len()),
            );
            let ghost rest = chunks_from(all, cur).skip(start);
            let ghost tail = chunk@.subrange(start, chunk@.len() as int);
            assert(chunks_from(all, cur) == all[cur] + chunks_from(all, cur + 1));
            assert(rest =~= tail + chunks_from(all, cur + 1));
            assert(bytes@ =~= old(self).remaining().take(bytes@.len() as int)) by {
                assert(old(self).remaining().take((done.len() + tail.len()) as int) =~= old(
                    self,
                ).remaining().take(done.len() as int) + rest.take(tail.len() as int));
                assert(rest.take(tail.len() as int) =~= tail);
            }
            assert(chunks_from(all, cur + 1).skip(0) =~= old(self).remaining().skip(
                bytes@.len() as int,
            )) by {
                assert(rest.skip(tail.len() as int) =~= chunks_from(all, cur + 1));
                assert(old(self).remaining().skip(done.len() as int).skip(tail.len() as int)
                    =~= old(self).remaining().skip((done.len() + tail.len()) as int));
            }
            self.position = 0;
            self.current = self.current + 1;
        }
        assert(self.remaining().len() == 0);
        assert(bytes@ =~= old(self).remaining());
        bytes
    }
}

/// A reader over the body of an archived file, whatever the family of its archive.
pub enum ArchiveReader<'a> {
    /// Over the span of a file of a TES3 archive.
    Tes3(Tes3FileReader<'a>),
    /// Over the body, expanded where need be, of a file of a TES4 archive.
    Tes4(TES4FileReader),
    /// Over the chunks of a file of a FO4 archive.
    Fo4(Fo4FileReader<'a>),
}

impl<'a> ArchiveReader<'a> {
    /// The bytes that are still to be read.
    pub open spec fn remaining(&self) -> Seq<u8> {
        match self {
            ArchiveReader::Tes3(r) => r.remaining(),
            ArchiveReader::Tes4(r) => r.remaining(),
            ArchiveReader::Fo4(r) => r.remaining(),
        }
    }

    /// Reads up to `buf.len()` bytes into the front of `buf` and returns how many;
    /// zero once everything has been read.
    pub fn read(&mut self, buf: &mut [u8]) -> (n: usize)
        ensures
            n == min_len(old(buf)@.len() as int, old(self).remaining().len() as int),
            final(buf)@ == old(self).remaining().take(n as int) + old(buf)@.skip(n as int),
            final(self).remaining() == old(self).remaining().skip(n as int),
    {
        match self {
            ArchiveReader::Tes3(r) => r.read(buf),
            ArchiveReader::Tes4(r) => r.read(buf),
            ArchiveReader::Fo4(r) => r.read(buf),
        }
    }

    /// Reads everything that is left.
    pub fn read_to_end(&mut self) -> (bytes: Vec<u8>)
        ensures
            bytes@ == old(self).remaining(),
            final(self).remaining().len() == 0,
    {
        match self {
            ArchiveReader::Tes3(r) => r.read_to_end(),
            ArchiveReader::Tes4(r) => r.read_to_end(),
            ArchiveReader::Fo4(r) => r.read_to_end(),
        }
    }
}

/// Where the bytes of an opened file come from.
pub enum FileSource<'a> {
    /// The file is loose: its bytes are those of the file on disk at this path.
    Disk(&'a [u8]),
    /// The file is archived: the reader yields its bytes.
    Archive(ArchiveReader<'a>),
}

/// An archived file's place: its name inside the archive, and the archive.
pub struct ArchiveReference {
    path: Vec<u8>,
    parent_archive: Arc<StoredArchive>,
}

/// The two kinds of file.
pub enum FileType {
    /// A file inside an archive.
    Archive(ArchiveReference),
    /// A file on disk, by its path.
    Loose(Vec<u8>),
}

/// A file of the virtual file system. It keeps the path it was made with byte for
/// byte: the path on disk of a loose file, the intra-archive name of an archived one.
pub struct VfsFile {
    file: FileType,
}

/// What a file is.
pub enum FileView {
    /// A file on disk, at `path`.
    Loose { path: Seq<u8> },
    /// The file named `path` inside `archive`.
    Archived { path: Seq<u8>, archive: ArchiveView },
}

impl FileView {
    /// The path of the file: on disk, or inside its archive.
    pub open spec fn path(self) -> Seq<u8> {
        match self {
            FileView::Loose { path } => path,
            FileView::Archived { path, .. } => path,
        }
    }

    /// The archive that holds the file, for an archived file.
    pub open spec fn archive(self) -> Option<ArchiveView> {
        match self {
            FileView::Loose { .. } => None,
            FileView::Archived { archive, .. } => Some(archive),
        }
    }

    /// The sentinel: a loose file whose path is empty.
    pub open spec fn sentinel() -> FileView {
        FileView::Loose { path: Seq::empty() }
    }
}

impl View for VfsFile {
    type V = FileView;

    closed spec fn view(&self) -> FileView {
        match self.file {
            FileType::Loose(path) => FileView::Loose { path: path@ },
            FileType::Archive(reference) => FileView::Archived {
                path: reference.path@,
                archive: reference.parent_archive@,
            },
        }
    }
}

/// The two keys under which a TES4 archive holds the file named `path`: what stands
/// before the last separator names the directory, what stands after it the file.
/// `None` where nothing stands after it.
pub open spec fn tes4_split(path: Seq<u8>) -> Option<(Seq<u8>, Seq<u8>)> {
    let start = name_start(path);
    if start == path.len() {
        None
    } else if start == 0 {
        Some((Seq::empty(), path))
    } else {
        Some((path.take(start - 1), path.skip(start)))
    }
}

/// The bytes that the archive `archive` holds under the intra-archive name `path`,
/// as a reader yields them.
pub open spec fn stored_contents(archive: TypedArchive, path: Seq<u8>) -> Result<
    Seq<u8>,
    VfsError,
> {
    match archive {
        TypedArchive::Tes3(a) => match tes3_file(&a, path) {
            Some(bytes) => Ok(bytes),
            None => Err(VfsError::NotFound),
        },
        TypedArchive::Tes4(a) => match tes4_split(path) {
            None => Err(VfsError::NotFound),
            Some((directory, file)) => match tes4_file(&a, directory, file) {
                None => Err(VfsError::NotFound),
                Some(body) => match tes4_contents(body) {
                    Some(bytes) => Ok(bytes),
                    None => Err(VfsError::DecompressionFailed),
                },
            },
        },
        TypedArchive::Fo4(a) => match fo4_file(&a, path) {
            Some(chunks) => Ok(concatenated(chunks)),
            None => Err(VfsError::NotFound),
        },
    }
}

impl ArchiveReference {
    /// The directory key and the file key of a path inside a TES4 archive; `NotFound`
    /// where the path names no file.
    pub fn tes4_keys(path: &[u8]) -> (keys: Result<(&[u8], &[u8]), VfsError>)
        ensures
            match keys {
                Ok((directory, file)) => tes4_split(path@) == Some((directory@, file@)),
                Err(e) => e == VfsError::NotFound && tes4_split(path@) is None,
            },
    {
        let start: usize = crate::path::final_segment_start(path);
        if start == path.len() {
            return Err(VfsError::NotFound);
        }
        let file = vstd::slice::slice_subrange(path, start, path.len());
        assert(file@ =~= path@.skip(start as int));
        if start == 0 {
            let directory = vstd::slice::slice_subrange(path, 0, 0);
            assert(directory@ =~= Seq::<u8>::empty());
            assert(file@ =~= path@);
            Ok((directory, file))
        } else {
            let directory = vstd::slice::slice_subrange(path, 0, start - 1);
            Ok((directory, file))
        }
    }
}

impl Default for VfsFile {
    /// The sentinel: a loose file whose path is empty.
    fn default() -> (file: Self)
        ensures
            file@ == FileView::sentinel(),
    {
        VfsFile { file: FileType::Loose(Vec::new()) }
    }
}

impl VfsFile {
    /// A loose file at `path`. The path is kept as it is given, never normalized.
    pub fn from(path: &[u8]) -> (file: Self)
        ensures
            file@ == (FileView::Loose { path: path@ }),
    {
        let owned = crate::path::to_vec(path);
        VfsFile { file: FileType::Loose(owned) }
    }

    /// The file that `parent_archive` holds under the name `path`. The name is kept
    /// as it is given, never normalized.
    pub fn from_archive(path: &[u8], parent_archive: Arc<StoredArchive>) -> (file: Self)
        ensures
            file@ == (FileView::Archived { path: path@, archive: parent_archive@ }),
    {
        let owned = crate::path::to_vec(path);
        VfsFile { file: FileType::Archive(ArchiveReference { path: owned, parent_archive }) }
    }

    /// Whether the file lies on disk.
    pub fn is_loose(&self) -> (loose: bool)
        ensures
            loose == (self@ is Loose),
    {
        match self.file {
            FileType::Archive(_) => false,
            FileType::Loose(_) => true,
        }
    }

    /// Whether an archive holds the file.
    pub fn is_archive(&self) -> (archived: bool)
        ensures
            archived == (self@ is Archived),
    {
        match self.file {
            FileType::Archive(_) => true,
            FileType::Loose(_) => false,
        }
    }

    /// The path on disk of the archive that holds the file; `None` for a loose file.
    pub fn parent_archive_path(&self) -> (path: Option<&[u8]>)
        ensures
            match path {
                Some(p) => self@.archive() is Some && p@ == self@.archive().unwrap().path,
                None => self@ is Loose,
            },
    {
        match &self.file {
            FileType::Loose(_) => None,
            FileType::Archive(reference) => Some(reference.parent_archive.path()),
        }
    }

    /// The file name of the archive that holds the file; `None` for a loose file,
    /// and where the archive's path has no file name.
    pub fn parent_archive_name(&self) -> (name: Option<&[u8]>)
        ensures
            match name {
                Some(n) => self@.archive() is Some && file_name_of(self@.archive().unwrap().path)
                    == Some(n@),
                None => self@ is Loose || file_name_of(self@.archive().unwrap().path) is None,
            },
    {
        match &self.file {
            FileType::Loose(_) => None,
            FileType::Archive(reference) => crate::path::file_name(reference.parent_archive.path()),
        }
    }

    /// A handle that shares the archive that holds the file; `InvalidState` for a
    /// loose file.
    pub fn parent_archive_handle(&self) -> (handle: Result<Arc<StoredArchive>, VfsError>)
        ensures
            match handle {
                Ok(archive) => self@.archive() == Some(archive@),
                Err(e) => e == VfsError::InvalidState && self@ is Loose,
            },
    {
        match &self.file {
            FileType::Loose(_) => Err(VfsError::InvalidState),
            FileType::Archive(reference) => Ok(share(&reference.parent_archive)),
        }
    }

    /// Opens the file. A loose file gives the path at which its bytes lie on disk. An
    /// archived file gives a reader over the bytes that its archive holds for it:
    /// `NotFound` where the archive holds nothing under the file's name,
    /// `DecompressionFailed` where it holds a compressed body that cannot be expanded.
    pub fn open(&self) -> (source: Result<FileSource<'_>, VfsError>)
        ensures
            match self@ {
                FileView::Loose { path } => source matches Ok(FileSource::Disk(p)) && p@ == path,
                FileView::Archived { path, archive } => match stored_contents(
                    archive.archive,
                    path,
                ) {
                    Ok(bytes) => source matches Ok(FileSource::Archive(reader))
                        && reader.remaining() == bytes,
                    Err(e) => source matches Err(f) && f == e,
                },
            },
    {
        match &self.file {
            FileType::Loose(path) => Ok(FileSource::Disk(path.as_slice())),
            FileType::Archive(reference) => {
                let name: &[u8] = reference.path.as_slice();
                match reference.parent_archive.handle() {
                    TypedArchive::Tes3(archive) => match crate::archives::tes3_get(archive, name) {
                        Some(data) => Ok(
                            FileSource::Archive(ArchiveReader::Tes3(Tes3FileReader::new(data))),
                        ),
                        None => Err(VfsError::NotFound),
                    },
                    TypedArchive::Tes4(archive) => {
                        let (directory, file) = match ArchiveReference::tes4_keys(name) {
                            Ok(keys) => keys,
                            Err(e) => {
                                return Err(e);
                            },
                        };
                        match crate::archives::tes4_get(archive, directory, file) {
                            None => Err(VfsError::NotFound),
                            Some(stored) => match TES4FileReader::new(&stored) {
                                Ok(reader) => Ok(FileSource::Archive(ArchiveReader::Tes4(reader))),
                                Err(e) => Err(e),
                            },
                        }
                    },
                    TypedArchive::Fo4(archive) => match crate::archives::fo4_get(archive, name) {
                        Some(chunks) => Ok(
                            FileSource::Archive(ArchiveReader::Fo4(Fo4FileReader::new(chunks))),
                        ),
                        None => Err(VfsError::NotFound),
                    },
                }
            },
        }
    }

    /// The final segment of the file's path; `None` where the path has none.
    pub fn file_name(&self) -> (name: Option<&[u8]>)
        ensures
            match name {
                Some(n) => file_name_of(self@.path()) == Some(n@),
                None => file_name_of(self@.path()) is None,
            },
    {
        crate::path::file_name(self.path())
    }

    /// The file name without its extension; `None` where the path has no file name.
    pub fn file_stem(&self) -> (stem: Option<&[u8]>)
        ensures
            match stem {
                Some(s) => file_stem_of(self@.path()) == Some(s@),
                None => file_stem_of(self@.path()) is None,
            },
    {
        crate::path::file_stem(self.path())
    }

    /// The path the file was made with, byte for byte.
    pub fn path(&self) -> (path: &[u8])
        ensures
            path@ == self@.path(),
    {
        match &self.file {
            FileType::Loose(path) => path.as_slice(),
            FileType::Archive(reference) => reference.path.as_slice(),
        }
    }
}

} // verus!
