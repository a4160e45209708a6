use ba2::CompressableFrom;
use vfstool_lib::archives::{open_archive, TypedArchive};
use vfstool_lib::error::VfsError;
use vfstool_lib::tes4::{check_sizes, read_u32};

fn le(n: u32) -> [u8; 4] {
    n.to_le_bytes()
}

/// A header, one directory record and one file record, with nothing behind them.
fn one_record(version: u32, flags: u32, size: u32, offset: u32) -> Vec<u8> {
    let mut bytes = Vec::new();
    bytes.extend_from_slice(b"BSA\0");
    bytes.extend_from_slice(&le(version));
    bytes.extend_from_slice(&le(0x24));
    bytes.extend_from_slice(&le(flags));
    bytes.extend_from_slice(&le(1)); // directories
    bytes.extend_from_slice(&le(1)); // files
    bytes.extend_from_slice(&le(0)); // length of the directory names
    bytes.extend_from_slice(&le(0)); // length of the file names
    bytes.extend_from_slice(&le(0)); // types and padding
    // the directory record: hash, file count, offset
    bytes.extend_from_slice(&[0u8; 8]);
    bytes.extend_from_slice(&le(1));
    bytes.extend_from_slice(&vec![0u8; if version == 105 { 12 } else { 4 }]);
    // the file record: hash, size, offset
    bytes.extend_from_slice(&[0u8; 8]);
    bytes.extend_from_slice(&le(size));
    bytes.extend_from_slice(&le(offset));
    bytes
}

fn written(version: ba2::tes4::Version, flags: ba2::tes4::ArchiveFlags, pack: bool) -> Vec<u8> {
    let options = ba2::tes4::FileCompressionOptions::builder().version(version).build();
    let mut archive = ba2::tes4::Archive::new();
    for (d, dir_name) in ["meshes\\armor", "textures", "misc"].iter().enumerate() {
        let mut dir = ba2::tes4::Directory::new();
        for f in 0..(d + 1) {
            let body = format!("the body of file {} of directory {}", f, d).repeat(f + 1);
            let plain = ba2::tes4::File::from_decompressed(body.into_bytes().into_boxed_slice());
            let file = if pack && f % 2 == 0 { plain.compress(&options).unwrap() } else { plain };
            dir.insert(ba2::tes4::DirectoryKey::from(format!("file{}.txt", f)), file);
        }
        archive.insert(ba2::tes4::ArchiveKey::from(dir_name.to_string()), dir);
    }
    let options = ba2::tes4::ArchiveOptions::builder().version(version).flags(flags).build();
    let mut bytes = Vec::new();
    archive.write(&mut bytes, &options).unwrap();
    bytes
}

fn variants() -> Vec<Vec<u8>> {
    let names = ba2::tes4::ArchiveFlags::DIRECTORY_STRINGS | ba2::tes4::ArchiveFlags::FILE_STRINGS;
    let packed = names | ba2::tes4::ArchiveFlags::COMPRESSED;
    let embedded = names | ba2::tes4::ArchiveFlags::EMBEDDED_FILE_NAMES;
    let both = packed | ba2::tes4::ArchiveFlags::EMBEDDED_FILE_NAMES;
    let mut all = Vec::new();
    for version in [ba2::tes4::Version::v103, ba2::tes4::Version::v104, ba2::tes4::Version::v105] {
        for flags in [names, packed, embedded, both] {
            for pack in [false, true] {
                all.push(written(version, flags, pack));
            }
        }
    }
    all
}

#[test]
fn read_u32_reads_the_lowest_byte_first() {
    assert_eq!(read_u32(&[0x78, 0x56, 0x34, 0x12], 0), 0x1234_5678);
    assert_eq!(read_u32(&[9, 0x24, 0, 0, 0], 1), 0x24);
    assert_eq!(read_u32(&[0xFF, 0xFF, 0xFF, 0xFF], 0), u32::MAX);
}

#[test]
fn record_smaller_than_its_length_prefix_is_rejected() {
    // compression in effect and a stored size of nothing
    let bytes = one_record(103, 0x4, 0, 0);
    assert_eq!(bytes.len(), 68);
    assert!(!check_sizes(&bytes));
    assert!(matches!(TypedArchive::read(&bytes), Err(VfsError::Io)));
    assert!(matches!(open_archive(b"/A/bad.bsa", &bytes), Err(VfsError::Io)));
    // three bytes are one too few, four are enough
    assert!(!check_sizes(&one_record(103, 0x4, 3, 0)));
    assert!(check_sizes(&one_record(103, 0x4, 4, 0)));
    // the record itself turns compression on
    assert!(!check_sizes(&one_record(103, 0, 0x4000_0003, 0)));
    assert!(check_sizes(&one_record(103, 0, 0x4000_0004, 0)));
    // and off: nothing stands before the body
    assert!(check_sizes(&one_record(103, 0x4, 0x4000_0000, 0)));
    assert!(check_sizes(&one_record(103, 0, 0, 0)));
    assert!(check_sizes(&one_record(105, 0, 0, 0)));
    assert!(!check_sizes(&one_record(105, 0x4, 3, 0)));
}

#[test]
fn record_smaller_than_its_embedded_name_is_rejected() {
    // the byte at the offset is the length of the name: here the `B` of the header
    let name = u32::from(b'B') + 1;
    assert!(!check_sizes(&one_record(104, 0x100, 0, 0)));
    assert!(!check_sizes(&one_record(104, 0x100, name - 1, 0)));
    assert!(check_sizes(&one_record(104, 0x100, name, 0)));
    assert!(matches!(TypedArchive::read(&one_record(104, 0x100, 0, 0)), Err(VfsError::Io)));
    assert!(matches!(TypedArchive::read(&one_record(105, 0x100, 3, 0)), Err(VfsError::Io)));
    // with the four bytes of the expanded length on top
    assert!(!check_sizes(&one_record(104, 0x104, name + 3, 0)));
    assert!(check_sizes(&one_record(104, 0x104, name + 4, 0)));
    // version 103 embeds no names, whatever the flag says
    assert!(check_sizes(&one_record(103, 0x100, 0, 0)));
    // an offset beyond the end of the file
    assert!(!check_sizes(&one_record(104, 0x100, 100, 68)));
    // the byte at offset 4 is the version, 104: a name of 104 bytes
    assert!(!check_sizes(&one_record(104, 0x100, 104, 4)));
    assert!(check_sizes(&one_record(104, 0x100, 105, 4)));
}

#[test]
fn broken_headers_and_cut_files_are_rejected() {
    let whole = one_record(103, 0, 0, 0);
    assert!(check_sizes(&whole));
    for cut in 0..whole.len() {
        assert!(!check_sizes(&whole[..cut]), "cut at {}", cut);
        let _ = TypedArchive::read(&whole[..cut]);
    }
    assert!(!check_sizes(&one_record(102, 0, 0, 0)));
    assert!(!check_sizes(&one_record(106, 0, 0, 0)));
    let mut header = whole.clone();
    header[8] = 0x25;
    assert!(!check_sizes(&header));
    // directory names: a name of no bytes has no terminator
    let mut named = one_record(103, 0x1, 0, 0);
    assert!(!check_sizes(&named));
    named.splice(52..52, [2u8, b'a', 0u8]);
    assert!(check_sizes(&named));
    named[54] = b'b';
    assert!(!check_sizes(&named));
    // no directory at all
    let mut empty = one_record(103, 0x4, 0, 0);
    empty[16] = 0;
    assert!(check_sizes(&empty));
    assert!(check_sizes(&empty[..36]));
}

#[test]
fn what_the_decoder_writes_fits() {
    for bytes in variants() {
        assert!(check_sizes(&bytes));
        let stored = open_archive(b"/A/written.bsa", &bytes).ok().unwrap();
        let mut names = stored.handle().names();
        names.sort();
        assert_eq!(
            names,
            vec![
                b"meshes\\armor/file0.txt".to_vec(),
                b"misc/file0.txt".to_vec(),
                b"misc/file1.txt".to_vec(),
                b"misc/file2.txt".to_vec(),
                b"textures/file0.txt".to_vec(),
                b"textures/file1.txt".to_vec(),
            ]
        );
    }
}

#[test]
fn misshapen_files_are_turned_away_or_decoded() {
    // every archive with some of its bytes changed: whatever comes of it, it comes back
    let mut seed: u64 = 0x2545_F491_4F6C_DD1D;
    let mut next = move || {
        seed ^= seed << 13;
        seed ^= seed >> 7;
        seed ^= seed << 17;
        seed
    };
    let mut turned_away = 0;
    let mut decoded = 0;
    for bytes in variants() {
        for _ in 0..400 {
            let mut changed = bytes.clone();
            let changes = 1 + (next() % 3) as usize;
            for _ in 0..changes {
                // mostly among the records, where the sizes and offsets stand
                let span = if next() % 4 == 0 { changed.len() } else { changed.len().min(200) };
                let at = (next() % span as u64) as usize;
                changed[at] = match next() % 4 {
                    0 => 0,
                    1 => 0xFF,
                    2 => changed[at].wrapping_add(1),
                    _ => next() as u8,
                };
            }
            if next() % 8 == 0 {
                let keep = (next() % changed.len() as u64) as usize;
                changed.truncate(keep);
            }
            match TypedArchive::read(&changed) {
                Ok(archive) => {
                    decoded += 1;
                    let _ = archive.names();
                }
                Err(_) => turned_away += 1,
            }
        }
    }
    assert!(turned_away > 0);
    assert!(decoded > 0);
}

#[test]
fn every_small_change_is_turned_away_or_decoded() {
    // each byte in turn, and each run of four bytes, set to a few telling values
    let mut turned_away = 0;
    for bytes in variants() {
        for at in 0..bytes.len() {
            for value in [0x00u8, 0x01, 0x04, 0x40, 0x7F, 0x80, 0xFF] {
                let mut changed = bytes.clone();
                changed[at] = value;
                if TypedArchive::read(&changed).is_err() {
                    turned_away += 1;
                }
            }
            if at + 4 <= bytes.len() {
                for word in [0u32, 1, 3, 4, 5, 0x4000_0000, 0x4000_0003, 0x8000_0000, u32::MAX] {
                    let mut changed = bytes.clone();
                    changed[at..at + 4].copy_from_slice(&word.to_le_bytes());
                    if TypedArchive::read(&changed).is_err() {
                        turned_away += 1;
                    }
                }
            }
        }
    }
    assert!(turned_away > 0);
}
