use vfstool_lib::directory_node::{DirectoryNode, DisplayTree};
use vfstool_lib::display_tree::{
    dir_str, file_str, serial_shape, serial_tree, tree_string, write_files, write_node, SerialValue,
    SerializeType,
};
use vfstool_lib::vfs::{DataRoot, VFS};
use vfstool_lib::vfs_file::VfsFile;

fn sample_directory_node() -> DirectoryNode {
    let mut root = DirectoryNode::new();

    for i in 1..=3 {
        let mut subdir = DirectoryNode::new();

        // Add three files to the subdir
        for j in 1..=3 {
            subdir.files.push(VfsFile::from(format!("file{}_{}.txt", i, j).as_bytes()));
        }

        // Create a child subdirectory inside this subdir
        let mut child_subdir = DirectoryNode::new();
        for k in 1..=3 {
            child_subdir.files.push(VfsFile::from(format!("nested_file{}_{}.txt", i, k).as_bytes()));
        }

        subdir.subdirs.insert(format!("child_subdir{}", i).as_bytes(), child_subdir);

        root.subdirs.insert(format!("subdir{}", i).as_bytes(), subdir);
    }

    root
}

fn text(bytes: &[u8]) -> String {
    String::from_utf8_lossy(bytes).into_owned()
}

fn json_value(entries: &[(Vec<u8>, SerialValue)]) -> serde_json::Value {
    let mut map = serde_json::Map::new();
    for (key, value) in entries {
        let value = match value {
            SerialValue::Names(names) => serde_json::Value::Array(
                names.iter().map(|n| serde_json::Value::String(text(n))).collect(),
            ),
            SerialValue::Dir(below) => json_value(below),
        };
        map.insert(text(key), value);
    }
    serde_json::Value::Object(map)
}

fn toml_value(entries: &[(Vec<u8>, SerialValue)]) -> toml::Value {
    let mut map = toml::map::Map::new();
    for (key, value) in entries {
        let value = match value {
            SerialValue::Names(names) => {
                toml::Value::Array(names.iter().map(|n| toml::Value::String(text(n))).collect())
            }
            SerialValue::Dir(below) => toml_value(below),
        };
        map.insert(text(key), value);
    }
    toml::Value::Table(map)
}

fn yaml_value(entries: &[(Vec<u8>, SerialValue)]) -> serde_yaml_with_quirks::Value {
    let mut map = serde_yaml_with_quirks::Mapping::new();
    for (key, value) in entries {
        let value = match value {
            SerialValue::Names(names) => serde_yaml_with_quirks::Value::Sequence(
                names.iter().map(|n| serde_yaml_with_quirks::Value::String(text(n))).collect(),
            ),
            SerialValue::Dir(below) => yaml_value(below),
        };
        map.insert(serde_yaml_with_quirks::Value::String(text(key)), value);
    }
    serde_yaml_with_quirks::Value::Mapping(map)
}

#[test]
fn serialize_to_json() {
    let node = sample_directory_node();
    let json_output = serde_json::to_string_pretty(&json_value(&serial_shape(&node)))
        .expect("JSON serialization failed");

    println!("{}", &json_output);

    let expected = r#"{
  "subdir1": {
    ".": [
      "file1_1.txt",
      "file1_2.txt",
      "file1_3.txt"
    ],
    "child_subdir1": {
      ".": [
        "nested_file1_1.txt",
        "nested_file1_2.txt",
        "nested_file1_3.txt"
      ]
    }
  },
  "subdir2": {
    ".": [
      "file2_1.txt",
      "file2_2.txt",
      "file2_3.txt"
    ],
    "child_subdir2": {
      ".": [
        "nested_file2_1.txt",
        "nested_file2_2.txt",
        "nested_file2_3.txt"
      ]
    }
  },
  "subdir3": {
    ".": [
      "file3_1.txt",
      "file3_2.txt",
      "file3_3.txt"
    ],
    "child_subdir3": {
      ".": [
        "nested_file3_1.txt",
        "nested_file3_2.txt",
        "nested_file3_3.txt"
      ]
    }
  }
}"#;

    assert_eq!(json_output, expected);
}

#[test]
fn serialize_to_toml() {
    let node = sample_directory_node();
    let toml_output =
        toml::to_string_pretty(&toml_value(&serial_shape(&node))).expect("TOML serialization failed");

    println!("{}", &toml_output);
    let expected = r#"[subdir1]
"." = [
    "file1_1.txt",
    "file1_2.txt",
    "file1_3.txt",
]

[subdir1.child_subdir1]
"." = [
    "nested_file1_1.txt",
    "nested_file1_2.txt",
    "nested_file1_3.txt",
]

[subdir2]
"." = [
    "file2_1.txt",
    "file2_2.txt",
    "file2_3.txt",
]

[subdir2.child_subdir2]
"." = [
    "nested_file2_1.txt",
    "nested_file2_2.txt",
    "nested_file2_3.txt",
]

[subdir3]
"." = [
    "file3_1.txt",
    "file3_2.txt",
    "file3_3.txt",
]

[subdir3.child_subdir3]
"." = [
    "nested_file3_1.txt",
    "nested_file3_2.txt",
    "nested_file3_3.txt",
]
"#;

    assert_eq!(toml_output, expected);
}

#[test]
fn serialize_to_yaml() {
    let node = sample_directory_node();
    let yaml_output = serde_yaml_with_quirks::to_string(&yaml_value(&serial_shape(&node)))
        .expect("YAML serialization failed");

    println!("{}", &yaml_output);

    let expected = r#"---
subdir1:
  ".":
    - file1_1.txt
    - file1_2.txt
    - file1_3.txt
  child_subdir1:
    ".":
      - nested_file1_1.txt
      - nested_file1_2.txt
      - nested_file1_3.txt
subdir2:
  ".":
    - file2_1.txt
    - file2_2.txt
    - file2_3.txt
  child_subdir2:
    ".":
      - nested_file2_1.txt
      - nested_file2_2.txt
      - nested_file2_3.txt
subdir3:
  ".":
    - file3_1.txt
    - file3_2.txt
    - file3_3.txt
  child_subdir3:
    ".":
      - nested_file3_1.txt
      - nested_file3_2.txt
      - nested_file3_3.txt
"#;

    assert_eq!(yaml_output, expected);
}

#[test]
fn test_directory_node_filter() {
    let mut root = sample_directory_node();

    root.filter(&|file: &VfsFile| file.file_name().map_or(false, |name| name.contains(&b'2')));

    assert_eq!(
        root.subdirs.len(),
        3,
        "Each subdirectory should have at least one file with the number 2 in its root"
    );

    let subdirs = ["subdir1", "subdir2", "subdir3"];
    for &subdir in &subdirs {
        assert!(root.subdirs.contains_key(subdir.as_bytes()), "{subdir} should still be present");
    }

    // Validate subdir1
    let subdir1 = root.subdirs.get(b"subdir1").expect("subdir1 should exist");
    assert_eq!(subdir1.files.len(), 1, "subdir1 should have exactly one file.");

    let child_subdir1 = subdir1.subdirs.get(b"child_subdir1").expect("child_subdir1 should still exist");
    assert_eq!(child_subdir1.files.len(), 1, "child_subdir1 should have exactly one file.");

    // Validate subdir2
    let subdir2 = root.subdirs.get(b"subdir2").expect("subdir2 should exist");
    assert_eq!(
        subdir2.files.len(),
        3,
        "subdir2 should have exactly three files with '2' in their names."
    );

    let child_subdir2 = subdir2.subdirs.get(b"child_subdir2").expect("child_subdir2 should still exist");
    assert_eq!(
        child_subdir2.files.len(),
        3,
        "child_subdir2 should have exactly three files with '2' in their names."
    );

    // Validate subdir3
    let subdir3 = root.subdirs.get(b"subdir3").expect("subdir3 should exist");
    assert_eq!(subdir3.files.len(), 1, "subdir3 should have exactly one file.");

    let child_subdir3 = subdir3.subdirs.get(b"child_subdir3").expect("child_subdir3 should still exist");
    assert_eq!(child_subdir3.files.len(), 1, "child_subdir3 should have exactly one file.");
}

#[test]
fn filter_drops_directories_that_are_left_empty() {
    let mut root = sample_directory_node();
    root.filter(&|file: &VfsFile| file.file_name() == Some(&b"nested_file2_3.txt"[..]));
    assert_eq!(root.subdirs.len(), 1);
    let subdir2 = root.subdirs.get(b"subdir2").unwrap();
    assert!(subdir2.files.is_empty());
    assert_eq!(subdir2.subdirs.len(), 1);
    assert_eq!(subdir2.subdirs.get(b"child_subdir2").unwrap().files.len(), 1);
    assert!(root.subdirs.get(b"subdir1").is_none());
}

#[test]
fn filter_with_true_keeps_and_with_false_empties() {
    let mut all = sample_directory_node();
    all.filter(&|_: &VfsFile| true);
    assert_eq!(all.subdirs.len(), 3);
    assert_eq!(all.subdirs.get(b"subdir3").unwrap().files.len(), 3);
    assert_eq!(
        all.subdirs.get(b"subdir3").unwrap().subdirs.get(b"child_subdir3").unwrap().files.len(),
        3
    );
    let mut none = sample_directory_node();
    none.filter(&|_: &VfsFile| false);
    assert!(none.is_empty());
    assert!(none.files.is_empty());
    assert_eq!(none.subdirs.len(), 0);
}

#[test]
fn sort_orders_files_by_name_and_keeps_ties_in_order() {
    let mut node = DirectoryNode::new();
    for path in ["z/b.txt", "b/c.txt", "a/b.txt", "q/a.txt", "dir/"] {
        node.files.push(VfsFile::from(path.as_bytes()));
    }
    let mut child = DirectoryNode::new();
    child.files.push(VfsFile::from(b"2"));
    child.files.push(VfsFile::from(b"1"));
    node.subdirs.insert(b"child", child);
    node.sort();
    let paths: Vec<&[u8]> = node.files.iter().map(|f| f.path()).collect();
    assert_eq!(paths, vec![&b"dir/"[..], b"q/a.txt", b"z/b.txt", b"a/b.txt", b"b/c.txt"]);
    let below: Vec<&[u8]> = node.subdirs.get(b"child").unwrap().files.iter().map(|f| f.path()).collect();
    assert_eq!(below, vec![&b"1"[..], b"2"]);
}

#[test]
fn display_tree_keeps_directories_in_order() {
    let mut tree = DisplayTree::new();
    assert!(tree.is_empty());
    for key in ["m", "c", "x", "a"] {
        let mut node = DirectoryNode::new();
        node.files.push(VfsFile::from(key.as_bytes()));
        tree.insert(key.as_bytes(), node);
    }
    assert_eq!(tree.len(), 4);
    let keys: Vec<&[u8]> = (0..tree.len()).map(|i| tree.entry(i).0).collect();
    assert_eq!(keys, vec![&b"a"[..], b"c", b"m", b"x"]);
    // putting a directory under a key that is held replaces the directory
    tree.insert(b"c", DirectoryNode::new());
    assert_eq!(tree.len(), 4);
    assert!(tree.get(b"c").unwrap().files.is_empty());
    assert!(tree.contains_key(b"m"));
    assert!(!tree.contains_key(b"b"));
    assert!(tree.get(b"b").is_none());
}

#[test]
fn place_makes_the_directories_along_the_chain() {
    let mut root = DirectoryNode::new();
    let chain = vec![b"a".to_vec(), b"a/b".to_vec()];
    root.place(&chain, VfsFile::from(b"a/b/2.txt"));
    root.place(&chain[1..], VfsFile::from(b"x.txt"));
    root.place(&chain[2..], VfsFile::from(b"top.txt"));
    assert_eq!(root.files.len(), 1);
    assert_eq!(root.files[0].path(), b"top.txt");
    let a = root.subdirs.get(b"a").unwrap();
    assert!(a.files.is_empty());
    assert_eq!(a.subdirs.get(b"a/b").unwrap().files[0].path(), b"a/b/2.txt");
    assert_eq!(root.subdirs.get(b"a/b").unwrap().files[0].path(), b"x.txt");
}

fn flat_vfs() -> VFS {
    VFS::from_directories(
        &vec![DataRoot {
            dir: b"/Data".to_vec(),
            files: vec![
                b"/Data/c/3.txt".to_vec(),
                b"/Data/A/B/2.txt".to_vec(),
                b"/Data/a/1.txt".to_vec(),
                b"/Data/a/0.TXT".to_vec(),
            ],
        }],
        None,
    )
}

#[test]
fn tree_projection() {
    let vfs = flat_vfs();
    let tree = vfs.tree(true);
    assert_eq!(tree.len(), 1);
    let (root_key, root) = tree.entry(0);
    assert_eq!(root_key, b"Data Files");
    assert!(root.files.is_empty());
    assert_eq!(root.subdirs.len(), 2);
    let a = root.subdirs.get(b"a").unwrap();
    let names: Vec<Option<&[u8]>> = a.files.iter().map(|f| f.file_name()).collect();
    assert_eq!(names, vec![Some(&b"0.TXT"[..]), Some(&b"1.txt"[..])]);
    assert_eq!(a.subdirs.len(), 1);
    let b = a.subdirs.get(b"a/b").unwrap();
    assert_eq!(b.files.len(), 1);
    assert_eq!(b.files[0].file_name(), Some(&b"2.txt"[..]));
    assert_eq!(b.files[0].path(), b"/Data/A/B/2.txt");
    let c = root.subdirs.get(b"c").unwrap();
    assert_eq!(c.files.len(), 1);
    assert_eq!(c.files[0].file_name(), Some(&b"3.txt"[..]));
    assert!(c.subdirs.is_empty());
}

#[test]
fn tree_of_disk_paths_hangs_from_the_root() {
    let vfs = flat_vfs();
    let tree = vfs.tree(false);
    let (root_key, root) = tree.entry(0);
    assert_eq!(root_key, b"/");
    assert!(root.files.is_empty());
    let data = root.subdirs.get(b"/Data").unwrap();
    let keys: Vec<&[u8]> = (0..data.subdirs.len()).map(|i| data.subdirs.entry(i).0).collect();
    assert_eq!(keys, vec![&b"/Data/A"[..], b"/Data/a", b"/Data/c"]);
    assert_eq!(data.subdirs.get(b"/Data/A").unwrap().subdirs.get(b"/Data/A/B").unwrap().files.len(), 1);
}

#[test]
fn tree_puts_files_without_a_directory_in_the_root() {
    let vfs = VFS::from_directories(
        &vec![DataRoot { dir: b"/Data".to_vec(), files: vec![b"/Data/Morrowind.esm".to_vec()] }],
        None,
    );
    let tree = vfs.tree(true);
    let root = tree.get(b"Data Files").unwrap();
    assert_eq!(root.files.len(), 1);
    assert_eq!(root.files[0].path(), b"/Data/Morrowind.esm");
    assert!(root.subdirs.is_empty());
}

#[test]
fn tree_filtered_keeps_the_root() {
    let vfs = flat_vfs();
    let all = vfs.tree_filtered(true, |_: &VfsFile| true);
    assert_eq!(tree_string(&all), tree_string(&vfs.tree(true)));
    let none = vfs.tree_filtered(true, |_: &VfsFile| false);
    assert_eq!(none.len(), 1);
    assert!(none.get(b"Data Files").unwrap().is_empty());
    let some = vfs.tree_filtered(true, |f: &VfsFile| f.file_name() == Some(&b"2.txt"[..]));
    let root = some.get(b"Data Files").unwrap();
    assert_eq!(root.subdirs.len(), 1);
    assert!(root.subdirs.get(b"a").unwrap().files.is_empty());
}

#[test]
fn lines_of_the_tree_text() {
    assert_eq!(dir_str("Data Files/meshes"), "├── Data Files/meshes/\n");
    assert_eq!(file_str("x.nif"), "│   ├── x.nif\n");
}

#[test]
fn tree_text_lists_directories_that_hold_files() {
    let vfs = flat_vfs();
    let expected = "├── a/\n│   ├── 0.TXT\n│   ├── 1.txt\n├── a/b/\n│   ├── 2.txt\n├── c/\n│   ├── 3.txt\n";
    assert_eq!(vfs.to_text(), expected);
    assert_eq!(tree_string(&vfs.tree(true)), expected);
    assert_eq!(
        vfs.display_filtered(true, |f: &VfsFile| f.file_stem() == Some(&b"1"[..])),
        "├── a/\n│   ├── 1.txt\n"
    );
    assert_eq!(vfs.display_filtered(false, |_: &VfsFile| false), "");
    assert_eq!(
        vfs.display_filtered(false, |f: &VfsFile| f.path().ends_with(b"3.txt")),
        "├── /Data/c/\n│   ├── 3.txt\n"
    );
}

#[test]
fn write_functions_append() {
    let mut node = DirectoryNode::new();
    node.files.push(VfsFile::from(b"x/one.txt"));
    node.files.push(VfsFile::from(b"x/"));
    let mut below = DirectoryNode::new();
    below.files.push(VfsFile::from(b"two.txt"));
    node.subdirs.insert(b"top/below", below);
    node.subdirs.insert(b"top/empty", DirectoryNode::new());
    let mut out = String::from(">");
    write_files(&mut out, &node, b"top");
    assert_eq!(out, ">├── top/\n│   ├── one.txt\n");
    let mut out = String::new();
    write_node(&mut out, &node, b"top");
    assert_eq!(out, "├── top/\n│   ├── one.txt\n├── top/below/\n│   ├── two.txt\n");
    let mut out = String::new();
    write_files(&mut out, &DirectoryNode::new(), b"top");
    assert_eq!(out, "");
}

#[test]
fn text_replaces_what_is_no_utf8() {
    let mut node = DirectoryNode::new();
    node.files.push(VfsFile::from(&[b'a', 0xFF, b'b'][..]));
    let mut out = String::new();
    write_files(&mut out, &node, &[0xC3, 0xA4]);
    assert_eq!(out, "├── ä/\n│   ├── a\u{FFFD}b\n");
}

#[test]
fn shape_lists_files_under_a_dot() {
    let mut node = DirectoryNode::new();
    node.files.push(VfsFile::from(b"x/one.txt"));
    node.files.push(VfsFile::from(b"x/"));
    node.subdirs.insert(b"top/below", DirectoryNode::new());
    let shape = serial_shape(&node);
    assert_eq!(shape.len(), 2);
    assert_eq!(shape[0].0, b".".to_vec());
    assert!(matches!(&shape[0].1, SerialValue::Names(names) if *names == vec![b"one.txt".to_vec()]));
    assert_eq!(shape[1].0, b"below".to_vec());
    assert!(matches!(&shape[1].1, SerialValue::Dir(below) if below.is_empty()));
    assert!(serial_shape(&DirectoryNode::new()).is_empty());
}

#[test]
fn shape_of_a_tree_names_roots_by_their_path() {
    let vfs = flat_vfs();
    let shape = serial_tree(&vfs.tree(true));
    assert_eq!(shape.len(), 1);
    assert_eq!(shape[0].0, b"Data Files".to_vec());
    let json = serde_json::to_string(&json_value(&shape)).unwrap();
    assert_eq!(
        json,
        r#"{"Data Files":{"a":{".":["0.TXT","1.txt"],"b":{".":["2.txt"]}},"c":{".":["3.txt"]}}}"#
    );
    assert_ne!(SerializeType::Json, SerializeType::Yaml);
    assert_ne!(SerializeType::Yaml, SerializeType::Toml);
}
