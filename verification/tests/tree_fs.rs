use cdrepo::fs::{blocks_for, read_window_of, BlobCache, NodeKind, RepoFs};
use cdrepo::github::{RepoSpec, RepoTree, TreeEntry};

fn entry(path: &str, ty: &str, size: Option<u64>, mode: &str) -> TreeEntry {
    TreeEntry {
        path: path.to_string(),
        entry_type: ty.to_string(),
        sha: format!("sha-{path}"),
        size,
        mode: mode.to_string(),
    }
}

fn sample() -> Vec<TreeEntry> {
    vec![
        entry("README.md", "blob", Some(1000), "100644"),
        entry("src", "tree", None, "040000"),
        entry("src/main.rs", "blob", Some(0), "100644"),
        entry("src/lib", "tree", None, "040000"),
        entry("src/lib/a.rs", "blob", Some(512), "100644"),
        entry("run.sh", "blob", Some(5), "100755"),
        entry("link", "blob", Some(3), "120000"),
    ]
}

fn paths(v: Vec<&TreeEntry>) -> Vec<String> {
    v.into_iter().map(|e| e.path.clone()).collect()
}

#[test]
fn list_dir_gives_direct_children_in_order() {
    let tree = RepoTree::new(sample());
    assert_eq!(paths(tree.list_dir("")), vec!["README.md", "src", "run.sh", "link"]);
    assert_eq!(paths(tree.list_dir("src")), vec!["src/main.rs", "src/lib"]);
    assert_eq!(paths(tree.list_dir("src/lib")), vec!["src/lib/a.rs"]);
    assert!(tree.list_dir("nope").is_empty());
    assert!(tree.list_dir("README.md").is_empty());
}

#[test]
fn lookup_and_is_dir() {
    let tree = RepoTree::new(sample());
    assert_eq!(tree.lookup("src/lib/a.rs").map(|e| e.size), Some(Some(512)));
    assert!(tree.lookup("src/x").is_none());
    assert!(tree.is_dir(""));
    assert!(tree.is_dir("src/lib"));
    assert!(!tree.is_dir("README.md"));
    assert!(!tree.is_dir("missing"));
}

fn fs() -> RepoFs {
    let spec = RepoSpec::parse("owner/repo").unwrap();
    RepoFs::new(RepoTree::new(sample()), spec)
}

#[test]
fn inodes_number_entries_from_two() {
    let f = fs();
    assert_eq!(f.path_of(1), Some(String::new()));
    assert_eq!(f.path_of(2), Some("README.md".to_string()));
    assert_eq!(f.path_of(8), Some("link".to_string()));
    assert_eq!(f.path_of(9), None);
    assert_eq!(f.path_of(0), None);
    assert_eq!(f.inode_of(""), Some(1));
    assert_eq!(f.inode_of("src/lib"), Some(5));
    assert_eq!(f.inode_of("nothing"), None);
    assert!(f.has_inode(8));
    assert!(!f.has_inode(100));
    // an inode names its path back
    for ino in 1..9u64 {
        let p = f.path_of(ino).unwrap();
        assert_eq!(f.inode_of(&p), Some(ino));
    }
}

#[test]
fn attributes() {
    let f = fs();
    let root = f.make_attr(1, "");
    assert_eq!((root.kind, root.perm, root.nlink, root.size), (NodeKind::Directory, 0o755, 2, 0));
    let readme = f.make_attr(2, "README.md");
    assert_eq!((readme.kind, readme.perm, readme.size, readme.blocks), (NodeKind::RegularFile, 0o644, 1000, 2));
    let run = f.make_attr(7, "run.sh");
    assert_eq!((run.perm, run.blocks), (0o755, 1));
    let link = f.make_attr(8, "link");
    assert_eq!(link.kind, NodeKind::Symlink);
    let dir = f.make_attr(3, "src");
    assert_eq!(dir.kind, NodeKind::Directory);
    assert!(f.is_executable("run.sh"));
    assert!(f.is_symlink("link"));
    assert!(!f.is_symlink("run.sh"));
}

#[test]
fn lookup_child_by_name() {
    let f = fs();
    let a = f.lookup(3, "lib").unwrap();
    assert_eq!((a.ino, a.kind), (5, NodeKind::Directory));
    let b = f.lookup(1, "README.md").unwrap();
    assert_eq!(b.ino, 2);
    assert!(f.lookup(1, "lib").is_none());
    assert!(f.lookup(42, "x").is_none());
}

#[test]
fn readdir_lists_dots_then_children() {
    let f = fs();
    let all = f.readdir(3, 0).unwrap();
    let names: Vec<(u64, String, u64)> = all.iter().map(|d| (d.ino, d.name.clone(), d.next_offset)).collect();
    assert_eq!(
        names,
        vec![
            (3, ".".to_string(), 1),
            (3, "..".to_string(), 2),
            (4, "main.rs".to_string(), 3),
            (5, "lib".to_string(), 4)
        ]
    );
    assert_eq!(all[3].kind, NodeKind::Directory);
    let rest = f.readdir(3, 3).unwrap();
    assert_eq!(rest.len(), 1);
    assert_eq!(rest[0].name, "lib");
    assert!(f.readdir(3, 10).unwrap().is_empty());
    assert!(f.readdir(99, 0).is_none());
    let root = f.readdir(1, 0).unwrap();
    assert_eq!(root[5].kind, NodeKind::Symlink);
}

#[test]
fn getattr_uses_cached_size_for_empty_files() {
    let f = fs();
    let mut cache = BlobCache::new();
    assert_eq!(f.getattr(4, &cache).unwrap().size, 0);
    cache.insert("src/main.rs", vec![1u8; 600]);
    let a = f.getattr(4, &cache).unwrap();
    assert_eq!((a.size, a.blocks), (600, 2));
    cache.insert("README.md", vec![1u8; 3]);
    assert_eq!(f.getattr(2, &cache).unwrap().size, 1000);
    assert!(f.getattr(77, &cache).is_none());
}

#[test]
fn blob_cache_read_after_write() {
    let mut cache = BlobCache::new();
    assert!(cache.get("a").is_none());
    cache.insert("a", vec![1, 2]);
    cache.insert("b", vec![3]);
    cache.insert("a", vec![9]);
    assert_eq!(cache.get("a"), Some(&vec![9u8]));
    assert_eq!(cache.get("b"), Some(&vec![3u8]));
}

#[test]
fn blob_sha_of_path() {
    let f = fs();
    assert_eq!(f.blob_sha("run.sh"), Some("sha-run.sh".to_string()));
    assert_eq!(f.blob_sha("zzz"), None);
}

#[test]
fn read_windows() {
    assert_eq!(read_window_of(10, 0, 4), (0, 4));
    assert_eq!(read_window_of(10, 8, 4), (8, 10));
    assert_eq!(read_window_of(10, 10, 4), (10, 10));
    assert_eq!(read_window_of(10, 50, 4), (10, 10));
    assert_eq!(blocks_for(0), 0);
    assert_eq!(blocks_for(1), 1);
    assert_eq!(blocks_for(512), 1);
    assert_eq!(blocks_for(513), 2);
    assert_eq!(blocks_for(u64::MAX), u64::MAX / 512 + 1);
}

#[test]
fn duplicate_paths_take_the_last_inode() {
    let entries = vec![entry("a", "blob", Some(1), "100644"), entry("a", "blob", Some(2), "100644")];
    let f = RepoFs::new(RepoTree::new(entries), RepoSpec::parse("o/r").unwrap());
    assert_eq!(f.inode_of("a"), Some(3));
    // the attributes follow the first entry with that path
    assert_eq!(f.make_attr(3, "a").size, 1);
}

#[test]
fn listed_names_resolve_to_listed_inodes() {
    let f = fs();
    for dir in [1u64, 3, 5] {
        for line in f.readdir(dir, 2).unwrap() {
            let attr = f.lookup(dir, &line.name).unwrap();
            assert_eq!(attr.ino, line.ino);
            assert_eq!(attr.kind, line.kind);
        }
    }
}

#[test]
fn inodes_are_exactly_one_to_len_plus_one() {
    let f = fs();
    let n = sample().len() as u64;
    assert!(!f.has_inode(0));
    for ino in 1..=n + 1 {
        assert!(f.has_inode(ino));
    }
    assert!(!f.has_inode(n + 2));
    for (i, e) in sample().iter().enumerate() {
        assert_eq!(f.inode_of(&e.path), Some(i as u64 + 2));
    }
}
