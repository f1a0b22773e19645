use tree_ftp::fs::directory::Directory;
use tree_ftp::fs::file::File;
use tree_ftp::fs::node::NodeEnum;

#[test]
fn test_node_enum_directory() {
    let dir: Directory = Directory::new("test_dir".to_string());
    let node: NodeEnum = NodeEnum::Directory(dir);

    assert!(matches!(node, NodeEnum::Directory(_)));
}

#[test]
fn test_node_enum_file() {
    let file: File = File::new("test_file".to_string());
    let node: NodeEnum = NodeEnum::File(file);

    assert!(matches!(node, NodeEnum::File(_)));
}

#[test]
fn test_node_enum_to_string_directory() {
    let mut dir: Directory = Directory::new(".".to_string());
    dir.add(File::new("notes".to_string()));
    let node: NodeEnum = NodeEnum::Directory(dir);

    assert_eq!(node.to_string(""), ".\n└── notes\n");
}

#[test]
fn test_node_enum_to_string_file() {
    let node: NodeEnum = NodeEnum::File(File::new("lone".to_string()));

    assert_eq!(node.to_string(""), ".\n└── lone");
}
