use vfstool_lib::path::{
    ancestors, append, bytes_eq, bytes_less, copy_range, file_name, file_stem, filter_data_paths,
    final_segment_start, join, matches_at, normalize_path, parent, path_contains, path_ends_with,
    path_starts_with, strip_root, to_vec,
};

#[test]
fn normalize_lowercases_ascii_and_turns_backslashes() {
    assert_eq!(normalize_path(b"MUSIC\\Theme.MP3"), b"music/theme.mp3".to_vec());
    assert_eq!(normalize_path(b"Data Files/Morrowind.esm"), b"data files/morrowind.esm".to_vec());
    assert_eq!(normalize_path(b""), Vec::<u8>::new());
}

#[test]
fn normalize_touches_only_the_letters_a_to_z() {
    // the bytes next to 'A' and 'Z' stay
    assert_eq!(normalize_path(b"@AZ[`az{"), b"@az[`az{".to_vec());
}

#[test]
fn normalize_keeps_bytes_outside_ascii() {
    let raw: Vec<u8> = vec![0xC3, 0x84, b'/', 0xFF, b'B', 0x80];
    assert_eq!(normalize_path(&raw), vec![0xC3, 0x84, b'/', 0xFF, b'b', 0x80]);
}

#[test]
fn normalize_keeps_repeated_separators_and_dots() {
    assert_eq!(normalize_path(b"A//B/./..\\C"), b"a//b/./../c".to_vec());
}

#[test]
fn normalize_twice_is_normalize_once() {
    let once = normalize_path(b"Meshes\\X\\Ex_Stronghold.NIF");
    assert_eq!(normalize_path(&once), once);
}

#[test]
fn starts_with_matches_whole_segments() {
    assert!(path_starts_with(b"music/explore/a.mp3", b"music/explore"));
    assert!(path_starts_with(b"music/explore/a.mp3", b"music/explore/"));
    assert!(path_starts_with(b"music/explore", b"music/explore"));
    assert!(path_starts_with(b"music/explore", b""));
    assert!(!path_starts_with(b"music/explore2/a.mp3", b"music/explore"));
    assert!(!path_starts_with(b"music", b"music/explore"));
    assert!(!path_starts_with(b"xmusic/explore", b"music"));
}

#[test]
fn ends_with_matches_whole_segments() {
    assert!(path_ends_with(b"/a/meshes/x.nif", b"meshes/x.nif"));
    assert!(path_ends_with(b"meshes/x.nif", b"meshes/x.nif"));
    assert!(path_ends_with(b"/a/meshes/x.nif", b""));
    assert!(!path_ends_with(b"/a/xmeshes/x.nif", b"meshes/x.nif"));
    assert!(!path_ends_with(b"x.nif", b"meshes/x.nif"));
}

#[test]
fn contains_finds_a_run_of_bytes() {
    assert!(path_contains(b"music/explore/mx_explore_2.mp3", b"explore/"));
    assert!(path_contains(b"abc", b""));
    assert!(path_contains(b"abc", b"abc"));
    assert!(path_contains(b"abc", b"c"));
    assert!(!path_contains(b"abc", b"abcd"));
    assert!(!path_contains(b"music/a", b"explore"));
}

#[test]
fn file_name_is_the_final_segment() {
    assert_eq!(file_name(b"C:/Morrowind/Data Files/Morrowind.esm"), Some(&b"Morrowind.esm"[..]));
    assert_eq!(file_name(b"Morrowind.esm"), Some(&b"Morrowind.esm"[..]));
    assert_eq!(file_name(b"a/b/"), None);
    assert_eq!(file_name(b""), None);
    assert_eq!(file_name(b"a/.."), None);
    assert_eq!(file_name(b"a/..."), Some(&b"..."[..]));
    // a backslash separates nothing
    assert_eq!(file_name(b"C:\\Morrowind\\Morrowind.esm"), Some(&b"C:\\Morrowind\\Morrowind.esm"[..]));
}

#[test]
fn file_stem_drops_the_last_extension() {
    assert_eq!(file_stem(b"a/Morrowind.esm"), Some(&b"Morrowind"[..]));
    assert_eq!(file_stem(b"a/archive.tar.gz"), Some(&b"archive.tar"[..]));
    assert_eq!(file_stem(b"a/README"), Some(&b"README"[..]));
    assert_eq!(file_stem(b"a/.hidden"), Some(&b".hidden"[..]));
    assert_eq!(file_stem(b"a/"), None);
}

#[test]
fn parent_is_what_stands_before_the_final_segment() {
    assert_eq!(parent(b"a/b/c.txt"), Some(&b"a/b"[..]));
    assert_eq!(parent(b"c.txt"), Some(&b""[..]));
    assert_eq!(parent(b"/c.txt"), Some(&b"/"[..]));
    assert_eq!(parent(b"/"), None);
    assert_eq!(parent(b""), None);
}

#[test]
fn join_puts_one_separator_between() {
    assert_eq!(join(b"core.bsa", b"meshes/x.nif"), b"core.bsa/meshes/x.nif".to_vec());
    assert_eq!(join(b"dir/", b"x"), b"dir/x".to_vec());
    assert_eq!(join(b"", b"x"), b"x".to_vec());
    assert_eq!(join(b"dir", b"/abs"), b"/abs".to_vec());
    assert_eq!(join(b"dir", b""), b"dir/".to_vec());
}

#[test]
fn strip_root_gives_the_path_below_the_root() {
    assert_eq!(strip_root(b"/A/music/Theme.mp3", b"/A"), b"music/Theme.mp3".to_vec());
    assert_eq!(strip_root(b"/A/music/Theme.mp3", b"/A/"), b"music/Theme.mp3".to_vec());
    assert_eq!(strip_root(b"/A/music/Theme.mp3", b"/B"), b"/A/music/Theme.mp3".to_vec());
    assert_eq!(strip_root(b"/Ab/x", b"/A"), b"/Ab/x".to_vec());
    assert_eq!(strip_root(b"/A", b"/A"), Vec::<u8>::new());
    assert_eq!(strip_root(b"x", b""), b"x".to_vec());
}

#[test]
fn ancestors_lead_from_the_outermost_directory_down() {
    assert_eq!(ancestors(b"a/b/c"), vec![b"a".to_vec(), b"a/b".to_vec(), b"a/b/c".to_vec()]);
    assert_eq!(ancestors(b"/home/x"), vec![b"/".to_vec(), b"/home".to_vec(), b"/home/x".to_vec()]);
    assert_eq!(ancestors(b"/"), vec![b"/".to_vec()]);
    assert_eq!(ancestors(b""), Vec::<Vec<u8>>::new());
}

#[test]
fn bytes_order_is_lexicographic() {
    assert!(bytes_less(b"a", b"b"));
    assert!(bytes_less(b"a", b"ab"));
    assert!(bytes_less(b"", b"a"));
    assert!(!bytes_less(b"a", b"a"));
    assert!(!bytes_less(b"b", b"a"));
    assert!(!bytes_less(b"ab", b"a"));
    assert!(bytes_eq(b"ab", b"ab"));
    assert!(!bytes_eq(b"ab", b"abc"));
    assert!(!bytes_eq(b"ab", b"ac"));
}

#[test]
fn filter_data_paths_keeps_the_paths_with_the_same_key() {
    let mut paths = vec![
        b"/Games/Data Files".to_vec(),
        b"/games/data files".to_vec(),
        b"/Games/Mods".to_vec(),
        b"\\GAMES\\DATA FILES".to_vec(),
    ];
    filter_data_paths(b"/Games/Data Files", &mut paths);
    assert_eq!(
        paths,
        vec![
            b"/Games/Data Files".to_vec(),
            b"/games/data files".to_vec(),
            b"\\GAMES\\DATA FILES".to_vec(),
        ]
    );
}

#[test]
fn copies_and_appends() {
    assert_eq!(to_vec(b"abc"), b"abc".to_vec());
    assert_eq!(copy_range(b"abcdef", 2, 4), b"cd".to_vec());
    assert_eq!(copy_range(b"abcdef", 3, 3), Vec::<u8>::new());
    let mut path = b"dir".to_vec();
    append(&mut path, b"/x");
    append(&mut path, b"");
    assert_eq!(path, b"dir/x".to_vec());
}

#[test]
fn matches_at_compares_in_place() {
    assert!(matches_at(b"music/explore", 6, b"explore"));
    assert!(matches_at(b"music/explore", 6, b"exp"));
    assert!(matches_at(b"music", 5, b""));
    assert!(!matches_at(b"music/explore", 5, b"explore"));
}

#[test]
fn final_segment_starts_behind_the_last_separator() {
    assert_eq!(final_segment_start(b"a/b/c.txt"), 4);
    assert_eq!(final_segment_start(b"c.txt"), 0);
    assert_eq!(final_segment_start(b"a/b/"), 4);
    assert_eq!(final_segment_start(b""), 0);
}
