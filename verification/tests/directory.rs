use tree_ftp::fs::directory::Directory;
use tree_ftp::fs::file::File;
use tree_ftp::fs::node::Node;

#[test]
fn test_directory_new() {
    let dir: Directory = Directory::new("test_dir".to_string());

    assert_eq!(dir.name(), "test_dir");
}

#[test]
fn test_directory_add() {
    let mut dir: Directory = Directory::new("test_dir".to_string());
    let file: File = File::new("test_file".to_string());

    dir.add(file);

    assert_eq!(dir.nodes.len(), 1);
}

#[test]
fn test_directory_to_string_dfs() {
    let mut dir: Directory = Directory::new("test_dir".to_string());
    let file: File = File::new("test_file".to_string());

    dir.add(file);

    let dir_str: String = dir.to_string_bfs("");

    assert!(dir_str.contains("test_file"));
}

#[test]
fn test_directory_to_string_bfs() {
    let mut dir: Directory = Directory::new("test_dir".to_string());
    let file: File = File::new("test_file".to_string());

    dir.add(file);

    let dir_str: String = dir.to_string_dfs("");

    assert!(dir_str.contains("test_file"));
}

#[test]
fn test_directory_render_exact_dfs() {
    let mut root: Directory = Directory::new(".".to_string());
    let mut sub: Directory = Directory::new("docs".to_string());
    sub.add(File::new("a.txt".to_string()));
    root.add(sub);
    root.add(File::new("readme".to_string()));

    let rendered: String = root.to_string_dfs("");

    assert_eq!(rendered, "├── docs\n│    └── a.txt\n└── readme\n");
}

#[test]
fn test_directory_render_exact_bfs() {
    let mut root: Directory = Directory::new(".".to_string());
    let mut sub: Directory = Directory::new("docs".to_string());
    sub.add(File::new("a.txt".to_string()));
    root.add(sub);
    root.add(File::new("readme".to_string()));

    let rendered: String = root.to_string_bfs("");

    assert_eq!(rendered, "├── docs\n└── readme\n|   └── a.txt\n");
}

#[test]
fn test_directory_empty_renders_empty() {
    let dir: Directory = Directory::new("empty".to_string());

    assert_eq!(dir.to_string_dfs(""), "");
    assert_eq!(dir.to_string_bfs(""), "");
}
