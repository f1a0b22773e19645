use tree_ftp::fs::node::{Node, NodeEnum};
use tree_ftp::ftp::crawl::{CrawlAction, Crawler};

/// A simulated remote: hands out the `LIST` responses for the directory
/// reached by a path of names.
fn listing_of(path: &[String]) -> Vec<(u16, String)> {
    let joined: Vec<&str> = path.iter().map(|s| s.as_str()).collect();
    match joined.as_slice() {
        [] => vec![
            (0, "drwxr-xr-x 2 owner group 4096 Jan 1 00:00 pub".to_string()),
            (0, "-rw-r--r-- 1 owner group 17 Jan 1 00:00 readme".to_string()),
            (0, "drwxr-xr-x 2 owner group 4096 Jan 1 00:00 etc".to_string()),
        ],
        ["pub"] => vec![
            (0, "drwxr-xr-x 2 owner group 4096 Jan 1 00:00 deep".to_string()),
            (0, "-rw-r--r-- 1 owner group 17 Jan 1 00:00 data.bin".to_string()),
        ],
        ["pub", "deep"] => vec![
            (0, "-rw-r--r-- 1 owner group 17 Jan 1 00:00 bottom".to_string()),
        ],
        ["etc"] => vec![
            (0, "-rw-r--r-- 1 owner group 17 Jan 1 00:00 motd".to_string()),
        ],
        _ => Vec::new(),
    }
}

/// Runs a crawl to completion against the simulated remote.
fn run_crawl(depth: usize, bfs: bool) -> NodeEnum {
    let mut crawler = Crawler::new(depth, bfs);
    loop {
        match crawler.next_action() {
            CrawlAction::ListPath(path) => {
                let listing = listing_of(&path);
                crawler.on_listing(&listing);
            }
            CrawlAction::Finished => return crawler.tree(),
        }
    }
}

/// Collects every name in the tree, depth first.
fn names_of(node: &NodeEnum, out: &mut Vec<String>) {
    match node {
        NodeEnum::Directory(dir) => {
            out.push(dir.name.clone());
            for child in &dir.nodes {
                names_of(child, out);
            }
        }
        NodeEnum::File(file) => out.push(file.name.clone()),
    }
}

fn rendered(node: &NodeEnum) -> String {
    match node {
        NodeEnum::Directory(dir) => dir.to_string_dfs(""),
        NodeEnum::File(file) => file.name().to_string(),
    }
}

#[test]
fn test_crawl_depth_zero_keeps_directories_empty() {
    let tree = run_crawl(0, false);
    match &tree {
        NodeEnum::Directory(root) => {
            assert_eq!(root.name(), ".");
            assert_eq!(root.nodes.len(), 3);
            for child in &root.nodes {
                if let NodeEnum::Directory(sub) = child {
                    assert_eq!(sub.nodes.len(), 0);
                }
            }
        }
        NodeEnum::File(_) => panic!("the crawl root must be a directory"),
    }
}

#[test]
fn test_crawl_depth_one_populates_one_level() {
    let tree = run_crawl(1, false);
    let mut names = Vec::new();
    names_of(&tree, &mut names);

    assert!(names.contains(&"data.bin".to_string()));
    assert!(names.contains(&"motd".to_string()));
    // one level down, `deep` is present but not yet entered
    assert!(names.contains(&"deep".to_string()));
    assert!(!names.contains(&"bottom".to_string()));
}

#[test]
fn test_crawl_depth_two_reaches_bottom() {
    let tree = run_crawl(2, false);
    let mut names = Vec::new();
    names_of(&tree, &mut names);

    assert!(names.contains(&"bottom".to_string()));
}

#[test]
fn test_crawl_strategies_agree() {
    let dfs_tree = run_crawl(2, false);
    let bfs_tree = run_crawl(2, true);

    assert_eq!(rendered(&dfs_tree), rendered(&bfs_tree));
}

#[test]
fn test_crawl_is_idempotent() {
    let first = run_crawl(2, false);
    let second = run_crawl(2, false);

    assert_eq!(rendered(&first), rendered(&second));
}

#[test]
fn test_crawl_restarts_cleanly_after_reconnect() {
    let clean = run_crawl(2, false);

    let mut crawler = Crawler::new(2, false);
    // begin a pass and let some nodes arrive
    match crawler.next_action() {
        CrawlAction::ListPath(path) => {
            let listing = listing_of(&path);
            crawler.on_listing(&listing);
        }
        CrawlAction::Finished => panic!("the crawl cannot be finished before the root listing"),
    }
    // the transport was silently replaced: everything restarts
    crawler.on_reconnected();
    let tree = loop {
        match crawler.next_action() {
            CrawlAction::ListPath(path) => {
                let listing = listing_of(&path);
                crawler.on_listing(&listing);
            }
            CrawlAction::Finished => break crawler.tree(),
        }
    };

    // the result is a full clean pass, with nothing doubled and nothing
    // kept from the interrupted one
    assert_eq!(rendered(&tree), rendered(&clean));
}

#[test]
fn test_renderings_reference_the_same_names() {
    let tree = run_crawl(2, false);
    let mut names = Vec::new();
    names_of(&tree, &mut names);

    let (dfs, bfs) = match &tree {
        NodeEnum::Directory(dir) => (dir.to_string_dfs(""), dir.to_string_bfs("")),
        NodeEnum::File(_) => panic!("the crawl root must be a directory"),
    };
    for name in &names {
        if name != "." {
            assert!(dfs.contains(name.as_str()));
            assert!(bfs.contains(name.as_str()));
        }
    }
}
