//! The layout of a TES4 archive file, as far as the sizes it holds must agree before
//! the file is handed to the decoder.
//!
//! A file record of a TES4 archive holds the size of the stored body. Where the
//! body is compressed, its first four bytes announce the expanded length, and where
//! the archive embeds file names, a name with its length byte stands before that.
//! Both are counted in the stored size, and the decoder takes them off it: a record
//! whose size is smaller than what stands before its body is malformed.

use vstd::prelude::*;

verus! {

/// The length of the header of a TES4 archive.
pub const HEADER_LEN: usize = 36;

/// The length of a file record: a hash of eight bytes, the size and the offset.
pub const RECORD_LEN: usize = 16;

/// The number that four bytes of `bytes` from `at` on hold, lowest byte first.
pub open spec fn le_u32(bytes: Seq<u8>, at: int) -> int {
    bytes[at] + bytes[at + 1] * 0x100 + bytes[at + 2] * 0x1_0000 + bytes[at + 3] * 0x100_0000
}

/// The version that the header announces.
pub open spec fn version(bytes: Seq<u8>) -> int {
    le_u32(bytes, 4)
}

/// The flags of the archive.
pub open spec fn flags(bytes: Seq<u8>) -> int {
    le_u32(bytes, 12)
}

/// The number of directories that the header announces.
pub open spec fn directory_count(bytes: Seq<u8>) -> int {
    le_u32(bytes, 16)
}

/// The header is whole, announces one of the three versions and its own length.
pub open spec fn header_fits(bytes: Seq<u8>) -> bool {
    &&& bytes.len() >= HEADER_LEN
    &&& (version(bytes) == 103 || version(bytes) == 104 || version(bytes) == 105)
    &&& le_u32(bytes, 8) == HEADER_LEN
}

/// The length of a directory record: 16 bytes, and 24 in version 105.
pub open spec fn entry_len(bytes: Seq<u8>) -> int {
    if version(bytes) == 105 {
        24
    } else {
        16
    }
}

/// Whether the name of each directory stands before its file records.
pub open spec fn directory_strings(bytes: Seq<u8>) -> bool {
    flags(bytes) % 2 == 1
}

/// Whether the bodies of the archive are compressed unless a record says otherwise.
pub open spec fn compressed(bytes: Seq<u8>) -> bool {
    (flags(bytes) / 4) % 2 == 1
}

/// Whether a name stands before each body: the flag counts from version 104 on.
pub open spec fn embedded_names(bytes: Seq<u8>) -> bool {
    version(bytes) != 103 && (flags(bytes) / 0x100) % 2 == 1
}

/// The size that the file record at `at` gives for the stored body, without the two
/// flag bits at its top.
pub open spec fn stored_size(bytes: Seq<u8>, at: int) -> int {
    le_u32(bytes, at + 8) % 0x4000_0000
}

/// Whether the file record at `at` turns the archive's compression round for its
/// file.
pub open spec fn flipped(bytes: Seq<u8>, at: int) -> bool {
    (le_u32(bytes, at + 8) / 0x4000_0000) % 2 == 1
}

/// Where the file record at `at` says its body begins, without the flag bit at the
/// top.
pub open spec fn body_offset(bytes: Seq<u8>, at: int) -> int {
    le_u32(bytes, at + 12) % 0x8000_0000
}

/// What stands before the body of the file record at `at` and counts in its size:
/// the embedded name with its length byte, and the four bytes of the expanded
/// length.
pub open spec fn before_body(bytes: Seq<u8>, at: int) -> int {
    let name = if embedded_names(bytes) {
        bytes[body_offset(bytes, at)] + 1
    } else {
        0
    };
    let length = if compressed(bytes) != flipped(bytes, at) {
        4int
    } else {
        0int
    };
    name + length
}

/// The file record at `at` is whole, the length byte of its embedded name lies in
/// the file, and its size covers what stands before its body.
pub open spec fn record_fits(bytes: Seq<u8>, at: int) -> bool {
    &&& at + RECORD_LEN <= bytes.len()
    &&& embedded_names(bytes) ==> body_offset(bytes, at) < bytes.len()
    &&& stored_size(bytes, at) >= before_body(bytes, at)
}

/// Each of the `count` file records from `at` on fits.
pub open spec fn records_fit(bytes: Seq<u8>, at: int, count: int) -> bool
    decreases count,
{
    count <= 0 || (record_fits(bytes, at) && records_fit(bytes, at + RECORD_LEN, count - 1))
}

/// The bytes that the name of a directory takes at `at`, before the directory's file
/// records: its length byte and as many bytes as that says, the last of them the
/// terminator; nothing where the archive holds no directory names.
pub open spec fn name_len(bytes: Seq<u8>, at: int) -> int {
    if directory_strings(bytes) {
        bytes[at] + 1
    } else {
        0
    }
}

/// The name of a directory at `at` is whole: its length byte says at least one, for
/// the terminator, and the terminator lies in the file and is zero.
pub open spec fn name_fits(bytes: Seq<u8>, at: int) -> bool {
    directory_strings(bytes) ==> at < bytes.len() && bytes[at] != 0 && at + bytes[at]
        < bytes.len() && bytes[at + bytes[at]] == 0
}

/// The `left` directories from the directory record at `record` on fit, where the
/// name and the file records of the first of them begin at `files`: each directory
/// record is whole, each name is, and each file record fits. The file records of one
/// directory follow those of the directory before it.
pub open spec fn directories_fit(bytes: Seq<u8>, record: int, files: int, left: int) -> bool
    decreases left,
{
    left <= 0 || {
        let count = le_u32(bytes, record + 8);
        let first = files + name_len(bytes, files);
        &&& record + entry_len(bytes) <= bytes.len()
        &&& files <= bytes.len()
        &&& name_fits(bytes, files)
        &&& records_fit(bytes, first, count)
        &&& directories_fit(
            bytes,
            record + entry_len(bytes),
            first + RECORD_LEN * count,
            left - 1,
        )
    }
}

/// The sizes of a TES4 archive file agree: the header is whole, and walking the
/// directory records from the end of the header, and their names and file records
/// from the end of the directory records, every one of them fits.
pub open spec fn sizes_fit(bytes: Seq<u8>) -> bool {
    &&& header_fits(bytes)
    &&& directories_fit(
        bytes,
        HEADER_LEN as int,
        HEADER_LEN + entry_len(bytes) * directory_count(bytes),
        directory_count(bytes),
    )
}

/// The number that four bytes of `bytes` from `at` on hold, lowest byte first.
pub fn read_u32(bytes: &[u8], at: usize) -> (n: u32)
    requires
        at + 4 <= bytes@.len(),
    ensures
        n == le_u32(bytes@, at as int),
{
    let b0: u32 = bytes[at] as u32;
    let b1: u32 = bytes[at + 1] as u32;
    let b2: u32 = bytes[at + 2] as u32;
    let b3: u32 = bytes[at + 3] as u32;
    b0 + b1 * 0x100 + b2 * 0x1_0000 + b3 * 0x100_0000
}

/// Whether the file record at `at` fits.
fn check_record(bytes: &[u8], at: usize, embedded: bool, packed: bool) -> (fits: bool)
    requires
        bytes@.len() >= HEADER_LEN,
        embedded == embedded_names(bytes@),
        packed == compressed(bytes@),
    ensures
        fits == record_fits(bytes@, at as int),
{
    let len: usize = bytes.len();
    if at > len || len - at < RECORD_LEN {
        return false;
    }
    let size: u32 = read_u32(bytes, at + 8);
    let stored: u32 = size % 0x4000_0000;
    let turned: bool = (size / 0x4000_0000) % 2 == 1;
    let mut before: u32 = 0;
    if embedded {
        let offset: u32 = read_u32(bytes, at + 12) % 0x8000_0000;
        if offset as u64 >= len as u64 {
            return false;
        }
        before = bytes[offset as usize] as u32 + 1;
    }
    if packed != turned {
        before = before + 4;
    }
    stored >= before
}

/// Whether each of the `count` file records from `at` on fits.
fn check_records(bytes: &[u8], at: usize, count: u32, embedded: bool, packed: bool) -> (fits:
    bool)
    requires
        bytes@.len() >= HEADER_LEN,
        at <= bytes@.len(),
        embedded == embedded_names(bytes@),
        packed == compressed(bytes@),
    ensures
        fits == records_fit(bytes@, at as int, count as int),
        fits ==> at + RECORD_LEN * count <= bytes@.len(),
{
    let len: usize = bytes.len();
    let mut cur: usize = at;
    let mut done: u32 = 0;
    while done < count
        invariant
            len == bytes@.len(),
            bytes@.len() >= HEADER_LEN,
            embedded == embedded_names(bytes@),
            packed == compressed(bytes@),
            done <= count,
            cur == at + RECORD_LEN * done,
            cur <= bytes@.len(),
            records_fit(bytes@, at as int, count as int) == records_fit(
                bytes@,
                cur as int,
                count - done,
            ),
        decreases count - done,
    {
        assert(records_fit(bytes@, cur as int, count - done) == (record_fits(bytes@, cur as int)
            && records_fit(bytes@, cur + RECORD_LEN, count - done - 1)));
        if !check_record(bytes, cur, embedded, packed) {
            return false;
        }
        assert(record_fits(bytes@, cur as int));
        cur = cur + RECORD_LEN;
        done = done + 1;
    }
    true
}

/// Whether the sizes of the TES4 archive file `bytes` agree. The walk is that of
/// `sizes_fit`; it ends at the first record that does not fit, or that reaches
/// beyond the end of the file.
pub fn check_sizes(bytes: &[u8]) -> (fits: bool)
    ensures
        fits == sizes_fit(bytes@),
{
    let len: usize = bytes.len();
    if len < HEADER_LEN {
        return false;
    }
    let version: u32 = read_u32(bytes, 4);
    if version != 103 && version != 104 && version != 105 {
        return false;
    }
    if read_u32(bytes, 8) != 36 {
        return false;
    }
    let flags: u32 = read_u32(bytes, 12);
    let directories: u32 = read_u32(bytes, 16);
    let entry: usize = if version == 105 {
        24
    } else {
        16
    };
    let names: bool = flags % 2 == 1;
    let packed: bool = (flags / 4) % 2 == 1;
    let embedded: bool = version != 103 && (flags / 0x100) % 2 == 1;
    let span: u64 = if version == 105 {
        24 * (directories as u64)
    } else {
        16 * (directories as u64)
    };
    let start: u64 = 36 + span;
    assert(header_fits(bytes@));
    assert(start == HEADER_LEN + entry_len(bytes@) * directory_count(bytes@)) by {
        if version == 105 {
            assert(entry_len(bytes@) * directory_count(bytes@) == 24 * directory_count(bytes@));
        } else {
            assert(entry_len(bytes@) * directory_count(bytes@) == 16 * directory_count(bytes@));
        }
    }
    if directories > 0 && start > len as u64 {
        // the first directory's file records would begin beyond the end of the file
        assert(!directories_fit(bytes@, HEADER_LEN as int, start as int, directories as int));
        return false;
    }
    let mut record: usize = HEADER_LEN;
    let mut files: usize = if directories > 0 {
        start as usize
    } else {
        0
    };
    let mut done: u32 = 0;
    while done < directories
        invariant
            len == bytes@.len(),
            len >= HEADER_LEN,
            entry == entry_len(bytes@),
            names == directory_strings(bytes@),
            packed == compressed(bytes@),
            embedded == embedded_names(bytes@),
            done <= directories,
            HEADER_LEN <= record <= len,
            files <= len,
            sizes_fit(bytes@) == directories_fit(
                bytes@,
                record as int,
                files as int,
                directories - done,
            ),
        decreases directories - done,
    {
        let ghost here = directories_fit(
            bytes@,
            record as int,
            files as int,
            directories - done,
        );
        assert(here == (record + entry_len(bytes@) <= bytes@.len() && files <= bytes@.len()
            && name_fits(bytes@, files as int) && records_fit(
            bytes@,
            files + name_len(bytes@, files as int),
            le_u32(bytes@, record + 8),
        ) && directories_fit(
            bytes@,
            record + entry_len(bytes@),
            files + name_len(bytes@, files as int) + RECORD_LEN * le_u32(bytes@, record + 8),
            directories - done - 1,
        )));
        if len - record < entry {
            return false;
        }
        let count: u32 = read_u32(bytes, record + 8);
        let mut first: usize = files;
        if names {
            if files >= len {
                return false;
            }
            let size: usize = bytes[files] as usize;
            if size == 0 || len - files <= size || bytes[files + size] != 0 {
                return false;
            }
            first = files + size + 1;
        }
        assert(first == files + name_len(bytes@, files as int));
        assert(name_fits(bytes@, files as int));
        if !check_records(bytes, first, count, embedded, packed) {
            return false;
        }
        record = record + entry;
        files = first + RECORD_LEN * (count as usize);
        done = done + 1;
    }
    true
}

} // verus!
