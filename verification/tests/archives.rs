use ba2::CompressableFrom;
use std::sync::Arc;
use vfstool_lib::archives::{
    file_map, from_set, in_config, locate, open_archive, ArchiveFormat, ArchiveSource,
    StoredArchive, TypedArchive,
};
use vfstool_lib::error::VfsError;
use vfstool_lib::files::VFSFiles;
use vfstool_lib::vfs::{DataRoot, VFS};
use vfstool_lib::vfs_file::{ArchiveReference, FileSource, TES4FileReader, VfsFile};

fn tes3_bytes(files: &[(&str, &[u8])]) -> Vec<u8> {
    let archive: ba2::tes3::Archive = files
        .iter()
        .map(|(name, data)| {
            let key: ba2::tes3::ArchiveKey = name.to_string().into();
            let file: ba2::tes3::File = ba2::tes3::File::from(*data);
            (key, file)
        })
        .collect();
    let mut bytes = Vec::new();
    archive.write(&mut bytes).unwrap();
    bytes
}

fn tes4_bytes(directory: &str, files: Vec<(&str, ba2::tes4::File<'static>)>) -> Vec<u8> {
    let dir: ba2::tes4::Directory = files
        .into_iter()
        .map(|(name, file)| (ba2::tes4::DirectoryKey::from(name.to_string()), file))
        .collect();
    let archive: ba2::tes4::Archive =
        [(ba2::tes4::ArchiveKey::from(directory.to_string()), dir)].into_iter().collect();
    let options = ba2::tes4::ArchiveOptions::builder().version(ba2::tes4::Version::v103).build();
    let mut bytes = Vec::new();
    archive.write(&mut bytes, &options).unwrap();
    bytes
}

fn fo4_bytes(name: &str, chunks: &[&[u8]]) -> Vec<u8> {
    let file: ba2::fo4::File = chunks
        .iter()
        .map(|data| ba2::fo4::Chunk::from_decompressed(data.to_vec().into_boxed_slice()))
        .collect();
    let archive: ba2::fo4::Archive =
        [(ba2::fo4::ArchiveKey::from(name.to_string()), file)].into_iter().collect();
    let mut bytes = Vec::new();
    let options = ba2::fo4::ArchiveOptions::builder().strings(true).build();
    archive.write(&mut bytes, &options).unwrap();
    bytes
}

fn read_all(file: &VfsFile) -> Vec<u8> {
    match file.open() {
        Ok(FileSource::Archive(mut reader)) => reader.read_to_end(),
        Ok(FileSource::Disk(_)) => panic!("expected an archived file"),
        Err(e) => panic!("open failed: {}", e.message()),
    }
}

fn source(name: &str, contents: Option<Vec<u8>>) -> ArchiveSource {
    ArchiveSource { name: name.as_bytes().to_vec(), contents }
}

fn root(dir: &str, files: &[&str]) -> DataRoot {
    DataRoot {
        dir: dir.as_bytes().to_vec(),
        files: files.iter().map(|f| format!("{}/{}", dir, f).into_bytes()).collect(),
    }
}

#[test]
fn format_is_read_from_the_first_four_bytes() {
    assert!(matches!(TypedArchive::read(&[0x00, 0x01, 0x00]), Err(VfsError::UnsupportedFormat)));
    assert!(matches!(TypedArchive::read(b""), Err(VfsError::UnsupportedFormat)));
    assert!(matches!(TypedArchive::read(b"PK\x03\x04 not an archive"), Err(VfsError::UnsupportedFormat)));
    assert!(matches!(TypedArchive::read(b"BSAX"), Err(VfsError::UnsupportedFormat)));
    // a known magic number and nothing behind it
    assert!(matches!(TypedArchive::read(&[0x00, 0x01, 0x00, 0x00]), Err(VfsError::Io)));
    assert!(matches!(TypedArchive::read(b"BSA\0"), Err(VfsError::Io)));
    assert!(matches!(TypedArchive::read(b"BTDX"), Err(VfsError::Io)));
}

#[test]
fn each_format_is_decoded_by_its_own_decoder() {
    let tes3 = TypedArchive::read(&tes3_bytes(&[("a.txt", b"a")])).ok().unwrap();
    assert!(matches!(tes3, TypedArchive::Tes3(_)));
    let plain = ba2::tes4::File::from_decompressed(b"a".to_vec().into_boxed_slice());
    let tes4 = TypedArchive::read(&tes4_bytes("misc", vec![("a.txt", plain)])).ok().unwrap();
    assert!(matches!(tes4, TypedArchive::Tes4(_)));
    let fo4 = TypedArchive::read(&fo4_bytes("a.txt", &[b"a"])).ok().unwrap();
    assert!(matches!(fo4, TypedArchive::Fo4(_)));
    assert_ne!(ArchiveFormat::Tes3, ArchiveFormat::Tes4);
}

#[test]
fn open_archive_keeps_the_path() {
    let bytes = tes3_bytes(&[("meshes\\x.nif", b"12345")]);
    let stored = open_archive(b"/A/Core.BSA", &bytes).ok().unwrap();
    assert_eq!(stored.path(), b"/A/Core.BSA");
    assert_eq!(stored.handle().names(), vec![b"meshes\\x.nif".to_vec()]);
    assert!(matches!(open_archive(b"/A/Core.BSA", b"nonsense"), Err(VfsError::UnsupportedFormat)));
}

#[test]
fn tes3_file_reads_its_raw_span() {
    let bytes = tes3_bytes(&[("meshes\\x.nif", b"12345"), ("icons\\gold.dds", b"gold")]);
    let stored = Arc::new(open_archive(b"/A/core.bsa", &bytes).ok().unwrap());
    let file = VfsFile::from_archive(b"meshes\\x.nif", Arc::clone(&stored));
    assert!(file.is_archive());
    assert_eq!(file.path(), b"meshes\\x.nif");
    assert_eq!(file.parent_archive_path(), Some(&b"/A/core.bsa"[..]));
    assert_eq!(file.parent_archive_name(), Some(&b"core.bsa"[..]));
    assert_eq!(file.parent_archive_handle().ok().unwrap().path(), b"/A/core.bsa");
    assert_eq!(read_all(&file), b"12345".to_vec());
    let gold = VfsFile::from_archive(b"icons\\gold.dds", Arc::clone(&stored));
    assert_eq!(read_all(&gold), b"gold".to_vec());
    let missing = VfsFile::from_archive(b"meshes\\y.nif", stored);
    assert!(matches!(missing.open(), Err(VfsError::NotFound)));
}

#[test]
fn tes4_compressed_file_reads_its_expanded_body() {
    let options = ba2::tes4::FileCompressionOptions::default();
    let plain = ba2::tes4::File::from_decompressed(b"hello world".to_vec().into_boxed_slice());
    let packed = plain.compress(&options).unwrap();
    assert!(packed.is_compressed());
    let bytes = tes4_bytes("misc", vec![("hello.txt", packed), ("plain.txt", plain)]);
    let stored = Arc::new(open_archive(b"/A/skyrim.bsa", &bytes).ok().unwrap());
    let mut names = stored.handle().names();
    names.sort();
    assert_eq!(names, vec![b"misc/hello.txt".to_vec(), b"misc/plain.txt".to_vec()]);
    let file = VfsFile::from_archive(b"misc/hello.txt", Arc::clone(&stored));
    let read = read_all(&file);
    assert_eq!(read.len(), 11);
    assert_eq!(read, b"hello world".to_vec());
    let plain_file = VfsFile::from_archive(b"misc/plain.txt", Arc::clone(&stored));
    assert_eq!(read_all(&plain_file), b"hello world".to_vec());
    let no_file = VfsFile::from_archive(b"misc/nothing.txt", Arc::clone(&stored));
    assert!(matches!(no_file.open(), Err(VfsError::NotFound)));
    let no_dir = VfsFile::from_archive(b"other/hello.txt", Arc::clone(&stored));
    assert!(matches!(no_dir.open(), Err(VfsError::NotFound)));
    let no_name = VfsFile::from_archive(b"misc/", stored);
    assert!(matches!(no_name.open(), Err(VfsError::NotFound)));
}

#[test]
fn tes4_body_that_does_not_expand_fails() {
    let broken = ba2::tes4::File::from_compressed(b"not zlib at all".to_vec().into_boxed_slice(), 64);
    let bytes = tes4_bytes("misc", vec![("broken.bin", broken)]);
    let stored = Arc::new(open_archive(b"/A/broken.bsa", &bytes).ok().unwrap());
    let file = VfsFile::from_archive(b"misc/broken.bin", stored);
    assert!(matches!(file.open(), Err(VfsError::DecompressionFailed)));
}

#[test]
fn tes4_reader_takes_a_stored_body_as_it_is() {
    let data = b"stored as it is".to_vec();
    let stored = vfstool_lib::archives::Tes4Stored { data: &data, decompressed_len: None };
    let mut reader = TES4FileReader::new(&stored).ok().unwrap();
    let mut buf = [0u8; 6];
    assert_eq!(reader.read(&mut buf), 6);
    assert_eq!(&buf, b"stored");
    assert_eq!(reader.read_to_end(), b" as it is".to_vec());
    let huge = vfstool_lib::archives::Tes4Stored { data: &data, decompressed_len: Some(usize::MAX) };
    assert!(matches!(TES4FileReader::new(&huge), Err(VfsError::DecompressionFailed)));
}

#[test]
fn tes4_keys_split_at_the_last_separator() {
    assert_eq!(
        ArchiveReference::tes4_keys(b"meshes\\armor/cuirass.nif").ok(),
        Some((&b"meshes\\armor"[..], &b"cuirass.nif"[..]))
    );
    assert_eq!(ArchiveReference::tes4_keys(b"a/b/c.nif").ok(), Some((&b"a/b"[..], &b"c.nif"[..])));
    assert_eq!(ArchiveReference::tes4_keys(b"c.nif").ok(), Some((&b""[..], &b"c.nif"[..])));
    assert_eq!(ArchiveReference::tes4_keys(b"a/").err(), Some(VfsError::NotFound));
    assert_eq!(ArchiveReference::tes4_keys(b"").err(), Some(VfsError::NotFound));
}

#[test]
fn fo4_file_reads_its_chunks_as_one_stream() {
    let a = vec![7u8; 100];
    let b = vec![8u8; 50];
    let c = vec![9u8; 25];
    let bytes = fo4_bytes("sound/fx/a.wav", &[&a, &b, &c]);
    let stored = Arc::new(open_archive(b"/A/main.ba2", &bytes).ok().unwrap());
    assert_eq!(stored.handle().names(), vec![b"sound\\fx\\a.wav".to_vec()]);
    let file = VfsFile::from_archive(b"sound/fx/a.wav", Arc::clone(&stored));
    match file.open() {
        Ok(FileSource::Archive(mut reader)) => {
            let mut buf = [0u8; 200];
            assert_eq!(reader.read(&mut buf), 175);
            assert!(buf[..100].iter().all(|&x| x == 7));
            assert!(buf[100..150].iter().all(|&x| x == 8));
            assert!(buf[150..175].iter().all(|&x| x == 9));
            assert_eq!(reader.read(&mut buf), 0);
            assert_eq!(reader.read(&mut buf), 0);
        }
        _ => panic!("expected a reader"),
    }
    let mut all = a.clone();
    all.extend_from_slice(&b);
    all.extend_from_slice(&c);
    assert_eq!(read_all(&file), all);
    let missing = VfsFile::from_archive(b"sound/fx/b.wav", stored);
    assert!(matches!(missing.open(), Err(VfsError::NotFound)));
}

#[test]
fn from_set_opens_what_the_loose_files_hold() {
    let loose = VFS::from_directories(
        &vec![root("/Data", &["Core.BSA", "Broken.bsa", "Unread.bsa", "readme.txt"])],
        None,
    );
    let mut files = VFSFiles::new();
    for (key, file) in loose.iter() {
        files.insert(key, VfsFile::from(file.path()));
    }
    assert_eq!(locate(&files, b"CORE.bsa"), Some(&b"/Data/Core.BSA"[..]));
    assert_eq!(locate(&files, b"missing.bsa"), None);
    let sources = vec![
        source("missing.bsa", Some(tes3_bytes(&[("a.txt", b"a")]))),
        source("broken.BSA", Some(b"this is no archive".to_vec())),
        source("unread.bsa", None),
        source("CORE.bsa", Some(tes3_bytes(&[("b.txt", b"b")]))),
    ];
    let archives = from_set(&files, &sources);
    assert_eq!(archives.len(), 1);
    assert_eq!(archives[0].path(), b"/Data/Core.BSA");
    assert_eq!(archives[0].handle().names(), vec![b"b.txt".to_vec()]);
}

#[test]
fn file_map_lets_the_later_archive_win() {
    let first = Arc::new(StoredArchive::new(
        b"/A/a.bsa",
        TypedArchive::read(&tes3_bytes(&[("Textures\\T.dds", b"first"), ("only\\a.txt", b"a")])).ok().unwrap(),
    ));
    let second = Arc::new(StoredArchive::new(
        b"/A/b.bsa",
        TypedArchive::read(&tes3_bytes(&[("textures\\t.DDS", b"second!")])).ok().unwrap(),
    ));
    let files = file_map(&vec![first, second]);
    assert_eq!(files.len(), 2);
    let t = files.get(b"textures/t.dds").unwrap();
    assert_eq!(t.parent_archive_path(), Some(&b"/A/b.bsa"[..]));
    assert_eq!(t.path(), b"textures\\t.dds");
    assert_eq!(read_all(t), b"second!".to_vec());
    let a = files.get(b"only/a.txt").unwrap();
    assert_eq!(a.parent_archive_path(), Some(&b"/A/a.bsa"[..]));
    assert!(files.get(b"Textures\\T.dds").is_none());
}

#[test]
fn in_config_lists_the_fallback_archives() {
    let config = vec![
        (b"data".to_vec(), b"/Games/Data Files".to_vec()),
        (b"fallback-archive".to_vec(), b"Morrowind.bsa".to_vec()),
        (b"content".to_vec(), b"Morrowind.esm".to_vec()),
        (b"fallback-archive".to_vec(), b"Tribunal.bsa".to_vec()),
        (b"Fallback-Archive".to_vec(), b"Other.bsa".to_vec()),
    ];
    assert_eq!(in_config(&config), vec![&b"Morrowind.bsa"[..], &b"Tribunal.bsa"[..]]);
    assert_eq!(in_config(&Vec::new()), Vec::<&[u8]>::new());
}

#[test]
fn test_vfs_from_directories() {
    const TEST_DATA: &[&str] =
        &["file1.txt", "file2.txt", "file3.txt", "file4.txt", "file5.txt", "file6.txt"];
    let archive_dir = "/work/archives";
    let bsa = |data: &[&str]| {
        let files: Vec<(&str, &[u8])> = data.iter().map(|s| (*s, s.as_bytes())).collect();
        tes3_bytes(&files)
    };
    let search_dirs = vec![
        root(archive_dir, &["archive1.bsa", "archive2.bsa", "archive3.bsa"]),
        root("/work/dir1", &TEST_DATA[0..3]),
        root("/work/dir2", &TEST_DATA[0..2]),
        root("/work/dir3", &TEST_DATA[0..1]),
    ];
    let archive_list = vec![
        source("archive1.bsa", Some(bsa(&TEST_DATA[0..6]))),
        source("archive2.bsa", Some(bsa(&TEST_DATA[0..5]))),
        source("archive3.bsa", Some(bsa(&TEST_DATA[0..4]))),
    ];

    let vfs = VFS::from_directories(&search_dirs, Some(&archive_list));

    assert_eq!(
        vfs.get_file(b"file6.txt").unwrap().parent_archive_path().unwrap(),
        b"/work/archives/archive1.bsa"
    );
    assert_eq!(
        vfs.get_file(b"file5.txt").unwrap().parent_archive_path().unwrap(),
        b"/work/archives/archive2.bsa"
    );
    assert_eq!(
        vfs.get_file(b"file4.txt").unwrap().parent_archive_path().unwrap(),
        b"/work/archives/archive3.bsa"
    );
    assert_eq!(vfs.get_file(b"file3.txt").unwrap().path(), b"/work/dir1/file3.txt");
    assert_eq!(vfs.get_file(b"file2.txt").unwrap().path(), b"/work/dir2/file2.txt");
    assert_eq!(vfs.get_file(b"file1.txt").unwrap().path(), b"/work/dir3/file1.txt");
    assert_eq!(read_all(vfs.get_file(b"file6.txt").unwrap()), b"file6.txt".to_vec());
}

#[test]
fn archive_then_loose() {
    let core = tes3_bytes(&[("meshes\\x.nif", b"12345")]);
    let roots = vec![DataRoot {
        dir: b"/A".to_vec(),
        files: vec![b"/A/meshes/X.nif".to_vec(), b"/A/core.bsa".to_vec()],
    }];
    let sources = vec![source("core.bsa", Some(core.clone()))];
    let vfs = VFS::from_directories(&roots, Some(&sources));
    let file = vfs.get_file(b"meshes/x.nif").unwrap();
    assert!(file.is_loose());
    assert_eq!(file.path(), b"/A/meshes/X.nif");
    assert!(!vfs.has_normalized_not_exact(b"/A/meshes/X.nif"));

    let more = vec![
        DataRoot {
            dir: b"/A".to_vec(),
            files: vec![b"/A/meshes/X.nif".to_vec(), b"/A/core.bsa".to_vec()],
        },
        DataRoot { dir: b"/B".to_vec(), files: vec![b"/B/meshes/X.nif".to_vec()] },
    ];
    let vfs = VFS::from_directories(&more, Some(&sources));
    assert_eq!(vfs.get_file(b"meshes/x.nif").unwrap().path(), b"/B/meshes/X.nif");
    assert!(vfs.has_normalized_not_exact(b"/A/meshes/X.nif"));

    // without the loose copy the archive's file shows
    let bare = vec![DataRoot { dir: b"/A".to_vec(), files: vec![b"/A/core.bsa".to_vec()] }];
    let vfs = VFS::from_directories(&bare, Some(&sources));
    let file = vfs.get_file(b"Meshes\\X.NIF").unwrap();
    assert!(file.is_archive());
    assert_eq!(read_all(file), b"12345".to_vec());
}

#[test]
fn archive_ordering() {
    let roots =
        vec![DataRoot { dir: b"/A".to_vec(), files: vec![b"/A/a.bsa".to_vec(), b"/A/b.bsa".to_vec()] }];
    let sources = vec![
        source("a.bsa", Some(tes3_bytes(&[("textures\\t.dds", b"from a")]))),
        source("b.bsa", Some(tes3_bytes(&[("textures\\t.dds", b"from b!")]))),
    ];
    let vfs = VFS::from_directories(&roots, Some(&sources));
    let file = vfs.get_file(b"textures/t.dds").unwrap();
    assert!(file.is_archive());
    assert_eq!(file.parent_archive_name(), Some(&b"b.bsa"[..]));
    assert_eq!(read_all(file), b"from b!".to_vec());
}
