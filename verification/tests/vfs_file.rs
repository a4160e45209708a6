use vfstool_lib::error::VfsError;
use vfstool_lib::path::normalize_path;
use vfstool_lib::vfs_file::{FileSource, Fo4FileReader, Tes3FileReader, VfsFile};

#[test]
fn vfs_file_paths_must_match() {
    let path = "path/to/some/file";
    let path_buf = path.as_bytes().to_vec();
    let vfs_file = VfsFile::from(path.as_bytes());
    assert!(&path_buf.eq(vfs_file.path()));
}

#[test]
fn loose_path_is_kept_verbatim() {
    let test_path = b"SpOnGeBoBcAsEfIlE/wHoOpSyDoOpSy.EsM";
    let vfs_file = VfsFile::from(test_path);
    assert_eq!(vfs_file.path(), test_path);
    assert_ne!(normalize_path(test_path), vfs_file.path());
    let windows = b"C:\\Morrowind\\Data Files\\Morrowind.esm";
    assert_eq!(VfsFile::from(windows).path(), windows);
}

#[test]
fn loose_file_opens_as_its_disk_path() {
    let file = VfsFile::from(b"/B/Music/theme.mp3");
    match file.open() {
        Ok(FileSource::Disk(path)) => assert_eq!(path, b"/B/Music/theme.mp3"),
        _ => panic!("a loose file opens as its path on disk"),
    }
}

#[test]
fn loose_file_has_no_archive() {
    let file = VfsFile::from(b"a/b.txt");
    assert!(file.is_loose());
    assert!(!file.is_archive());
    assert_eq!(file.parent_archive_path(), None);
    assert_eq!(file.parent_archive_name(), None);
    assert_eq!(file.parent_archive_handle().err(), Some(VfsError::InvalidState));
}

#[test]
fn sentinel_is_a_loose_file_with_an_empty_path() {
    let file = VfsFile::default();
    assert!(file.is_loose());
    assert_eq!(file.path(), b"");
    assert_eq!(file.file_name(), None);
}

#[test]
fn file_name_and_stem_come_from_the_path() {
    let file = VfsFile::from(b"C:/Morrowind/Data Files/Morrowind.esm");
    assert_eq!(file.file_name(), Some(&b"Morrowind.esm"[..]));
    assert_eq!(file.file_stem(), Some(&b"Morrowind"[..]));
}

#[test]
fn fo4_reader_reads_across_chunks() {
    let a = vec![1u8; 100];
    let b = vec![2u8; 50];
    let c = vec![3u8; 25];
    let mut reader = Fo4FileReader::new(vec![&a[..], &b[..], &c[..]]);
    let mut buf = [0u8; 200];
    let n = reader.read(&mut buf);
    assert_eq!(n, 175);
    assert!(buf[..100].iter().all(|&x| x == 1));
    assert!(buf[100..150].iter().all(|&x| x == 2));
    assert!(buf[150..175].iter().all(|&x| x == 3));
    assert!(buf[175..].iter().all(|&x| x == 0));
    assert_eq!(reader.read(&mut buf), 0);
    assert_eq!(reader.read(&mut buf), 0);
}

#[test]
fn fo4_reader_fills_small_buffers_in_turn() {
    let a = b"abc".to_vec();
    let b = Vec::<u8>::new();
    let c = b"defgh".to_vec();
    let mut reader = Fo4FileReader::new(vec![&a[..], &b[..], &c[..]]);
    let mut buf = [0u8; 4];
    assert_eq!(reader.read(&mut buf), 4);
    assert_eq!(&buf, b"abcd");
    assert_eq!(reader.read(&mut buf), 4);
    assert_eq!(&buf, b"efgh");
    assert_eq!(reader.read(&mut buf), 0);
    let mut none: [u8; 0] = [];
    assert_eq!(reader.read(&mut none), 0);
}

#[test]
fn fo4_reader_reads_to_end() {
    let a = b"abc".to_vec();
    let c = b"defgh".to_vec();
    let mut reader = Fo4FileReader::new(vec![&a[..], &c[..]]);
    let mut buf = [0u8; 2];
    assert_eq!(reader.read(&mut buf), 2);
    assert_eq!(reader.read_to_end(), b"cdefgh".to_vec());
    assert_eq!(reader.read_to_end(), Vec::<u8>::new());
    let mut empty = Fo4FileReader::new(Vec::new());
    assert_eq!(empty.read(&mut buf), 0);
}

#[test]
fn tes3_reader_is_a_cursor_over_the_span() {
    let data = b"0123456789".to_vec();
    let mut reader = Tes3FileReader::new(&data);
    let mut buf = [0u8; 4];
    assert_eq!(reader.read(&mut buf), 4);
    assert_eq!(&buf, b"0123");
    assert_eq!(reader.read_to_end(), b"456789".to_vec());
    assert_eq!(reader.read(&mut buf), 0);
    assert_eq!(&buf, b"0123");
}

#[test]
fn every_error_has_its_message() {
    assert_eq!(VfsError::NotFound.message(), "entry not found");
    assert_eq!(VfsError::Io.message(), "archive could not be read");
    assert_eq!(VfsError::UnsupportedFormat.message(), "unsupported archive format");
    assert_eq!(VfsError::DecompressionFailed.message(), "archived file could not be decompressed");
    assert_eq!(VfsError::InvalidState.message(), "loose files have no parent archive");
}
