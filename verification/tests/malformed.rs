use ba2::CompressableFrom;
use vfstool_lib::archives::TypedArchive;
use vfstool_lib::error::VfsError;

fn tes3_archive() -> Vec<u8> {
    let archive: ba2::tes3::Archive = [("meshes\\x.nif", "12345"), ("icons\\gold.dds", "gold"), ("a.txt", "")]
        .iter()
        .map(|(name, data)| {
            (ba2::tes3::ArchiveKey::from(name.to_string()), ba2::tes3::File::from(data.as_bytes()))
        })
        .collect();
    let mut bytes = Vec::new();
    archive.write(&mut bytes).unwrap();
    bytes
}

fn fo4_archive(strings: bool) -> Vec<u8> {
    let mut archive = ba2::fo4::Archive::new();
    for (name, chunks) in [("sound/a.wav", 3usize), ("misc/b.txt", 1), ("c.bin", 2)] {
        let file: ba2::fo4::File = (0..chunks)
            .map(|c| ba2::fo4::Chunk::from_decompressed(vec![c as u8 + 1; 10 * (c + 1)].into_boxed_slice()))
            .collect();
        archive.insert(ba2::fo4::ArchiveKey::from(name.to_string()), file);
    }
    let options = ba2::fo4::ArchiveOptions::builder().strings(strings).build();
    let mut bytes = Vec::new();
    archive.write(&mut bytes, &options).unwrap();
    bytes
}

/// Decodes `bytes` with each byte in turn, and each run of four bytes, set to a few
/// telling values, and counts what is turned away.
fn sweep(bytes: &[u8]) -> usize {
    let mut turned_away = 0;
    for at in 0..bytes.len() {
        for value in [0x00u8, 0x01, 0x04, 0x40, 0x7F, 0x80, 0xFF] {
            let mut changed = bytes.to_vec();
            changed[at] = value;
            match TypedArchive::read(&changed) {
                Ok(archive) => {
                    let _ = archive.names();
                }
                Err(_) => turned_away += 1,
            }
        }
        if at + 4 <= bytes.len() {
            for word in [0u32, 1, 3, 4, 5, 0x4000_0000, 0x7FFF_FFFF, 0x8000_0000, u32::MAX] {
                let mut changed = bytes.to_vec();
                changed[at..at + 4].copy_from_slice(&word.to_le_bytes());
                if TypedArchive::read(&changed).is_err() {
                    turned_away += 1;
                }
            }
        }
        if TypedArchive::read(&bytes[..at]).is_err() {
            turned_away += 1;
        }
    }
    turned_away
}

#[test]
fn misshapen_tes3_files_are_turned_away_or_decoded() {
    let bytes = tes3_archive();
    assert!(TypedArchive::read(&bytes).is_ok());
    assert!(sweep(&bytes) > 0);
}

#[test]
fn misshapen_fo4_files_are_turned_away_or_decoded() {
    for strings in [false, true] {
        let bytes = fo4_archive(strings);
        assert!(TypedArchive::read(&bytes).is_ok());
        assert!(sweep(&bytes) > 0);
    }
}

#[test]
fn cut_archives_are_io_errors() {
    let tes3 = tes3_archive();
    assert!(matches!(TypedArchive::read(&tes3[..tes3.len() - 1]), Err(VfsError::Io)));
    let fo4 = fo4_archive(true);
    assert!(matches!(TypedArchive::read(&fo4[..30]), Err(VfsError::Io)));
    let plain = ba2::tes4::File::from_decompressed(b"abc".to_vec().into_boxed_slice());
    let dir: ba2::tes4::Directory =
        [(ba2::tes4::DirectoryKey::from("a.txt".to_string()), plain)].into_iter().collect();
    let archive: ba2::tes4::Archive =
        [(ba2::tes4::ArchiveKey::from("misc".to_string()), dir)].into_iter().collect();
    let mut tes4 = Vec::new();
    archive.write(&mut tes4, &ba2::tes4::ArchiveOptions::default()).unwrap();
    assert!(TypedArchive::read(&tes4).is_ok());
    assert!(matches!(TypedArchive::read(&tes4[..tes4.len() - 1]), Err(VfsError::Io)));
}
