use cdrepo::github::{
    blob_cache_path, blob_url, commit_url, ref_heads_url, ref_tags_url, repo_url, tree_cache_path,
    tree_url, RepoSpec,
};
use cdrepo::mount::{
    final_path, mount_path_for, mount_point_for, mounts_contain, plan_mount, repo_arg, wait_step,
    MountPlan, WaitStep, MOUNT_WAIT_CHECKS,
};
use cdrepo::paths::{join, path_components};

#[test]
fn joining_paths() {
    assert_eq!(join("/a", "b"), "/a/b");
    assert_eq!(join("/a/", "b"), "/a/b");
    assert_eq!(join("", "b"), "b");
    assert_eq!(join("/a", "/etc"), "/etc");
    assert_eq!(join("/a", ""), "/a/");
    assert_eq!(join("/a", "b"), std::path::Path::new("/a").join("b").to_string_lossy());
}

#[test]
fn components_of_paths() {
    assert_eq!(path_components("/a//b/./c/"), vec!["/", "a", "b", "c"]);
    assert_eq!(path_components("./x/../y"), vec![".", "x", "..", "y"]);
    assert_eq!(path_components("."), vec!["."]);
    assert_eq!(path_components("a/b"), vec!["a", "b"]);
    assert!(path_components("").is_empty());
    for p in ["/a//b/./c/", "./x/../y", "a/b", "/", "..//x"] {
        let std: Vec<String> = std::path::Path::new(p)
            .components()
            .map(|c| c.as_os_str().to_string_lossy().to_string())
            .collect();
        assert_eq!(path_components(p), std, "{p}");
    }
}

#[test]
fn mount_paths() {
    let spec = RepoSpec::parse("https://github.com/o/r/tree/main/src/x").unwrap();
    let mp = mount_path_for("/h/.cdrepo/mnt", &spec);
    assert_eq!(mp, "/h/.cdrepo/mnt/o/r");
    assert_eq!(final_path(&mp, &spec), "/h/.cdrepo/mnt/o/r/src/x");
    let plain = RepoSpec::parse("o/r").unwrap();
    assert_eq!(final_path(&mp, &plain), mp);
    assert_eq!(repo_arg(&spec), "o/r@main");
    assert_eq!(repo_arg(&plain), "o/r");
}

#[test]
fn unmount_targets() {
    let base = "/h/.cdrepo/mnt";
    assert_eq!(mount_point_for("/h/.cdrepo/mnt/o/r/src/deep", base), "/h/.cdrepo/mnt/o/r");
    assert_eq!(mount_point_for("/h/.cdrepo/mnt/o/r", base), "/h/.cdrepo/mnt/o/r");
    assert_eq!(mount_point_for("/h/.cdrepo/mnt/o", base), "/h/.cdrepo/mnt/o");
    assert_eq!(mount_point_for("/h/.cdrepo/mntx/o/r", base), "/h/.cdrepo/mntx/o/r");
    assert_eq!(mount_point_for("o/r", base), "/h/.cdrepo/mnt/o/r");
    assert_eq!(mount_point_for("cli/cli", base), "/h/.cdrepo/mnt/cli/cli");
    assert_eq!(mount_point_for("https://github.com/cli/cli", base), "/h/.cdrepo/mnt/cli/cli");
    assert_eq!(mount_point_for("nothing", base), "nothing");
    assert_eq!(mount_point_for("/elsewhere/o/r", base), "/elsewhere/o/r");
    assert_eq!(mount_point_for("/h//.cdrepo/mnt/./o/r/", base), "/h/.cdrepo/mnt/o/r");
}

#[test]
fn mount_table() {
    let mounts = "proc /proc proc rw 0 0\ncdrepo /h/.cdrepo/mnt/o/r fuse ro 0 0\n";
    assert!(mounts_contain(mounts, "/h/.cdrepo/mnt/o/r"));
    assert!(!mounts_contain(mounts, "/h/.cdrepo/mnt/o/x"));
    assert!(!mounts_contain("", "/x"));
    assert!(mounts_contain("a\r\nb /x c", "/x"));
}

#[test]
fn mount_decisions() {
    assert_eq!(plan_mount(true, true), MountPlan::ReuseLive);
    assert_eq!(plan_mount(true, false), MountPlan::CleanStaleThenMount);
    assert_eq!(plan_mount(false, false), MountPlan::Mount);
    assert_eq!(wait_step(0, true), WaitStep::Mounted);
    assert_eq!(wait_step(0, false), WaitStep::Retry);
    assert_eq!(wait_step(MOUNT_WAIT_CHECKS - 2, false), WaitStep::Retry);
    assert_eq!(wait_step(MOUNT_WAIT_CHECKS - 1, false), WaitStep::TimedOut);
}

#[test]
fn api_urls() {
    assert_eq!(repo_url("o", "r"), "https://api.github.com/repos/o/r");
    assert_eq!(ref_heads_url("o", "r", "main"), "https://api.github.com/repos/o/r/git/ref/heads/main");
    assert_eq!(ref_tags_url("o", "r", "v1"), "https://api.github.com/repos/o/r/git/ref/tags/v1");
    assert_eq!(commit_url("o", "r", "abc"), "https://api.github.com/repos/o/r/git/commits/abc");
    assert_eq!(tree_url("o", "r", "t1"), "https://api.github.com/repos/o/r/git/trees/t1?recursive=1");
    assert_eq!(blob_url("o", "r", "b1"), "https://api.github.com/repos/o/r/git/blobs/b1");
}

#[test]
fn cache_paths() {
    assert_eq!(tree_cache_path("/c/cdrepo", "o", "r", "main"), "/c/cdrepo/trees/o/r/main.json");
    assert_eq!(blob_cache_path("/c/cdrepo", "abcdef"), "/c/cdrepo/blobs/ab/cdef");
    assert_eq!(blob_cache_path("/c/cdrepo", "a"), "/c/cdrepo/blobs/a/");
    assert_eq!(blob_cache_path("/c/cdrepo", "é1"), "/c/cdrepo/blobs/é/1");
}

#[test]
fn daemon_argument_parses_back() {
    for input in ["https://github.com/rust-lang/rust/tree/master/src", "cli/cli", "git@github.com:a/b.git"] {
        let spec = RepoSpec::parse(input).unwrap();
        let again = RepoSpec::parse(&repo_arg(&spec)).unwrap();
        assert_eq!(
            (again.owner, again.repo, again.git_ref),
            (spec.owner.clone(), spec.repo.clone(), spec.git_ref.clone())
        );
    }
}

#[test]
fn daemon_argument_carries_the_branch() {
    let spec = RepoSpec::parse("https://github.com/owner/repo/tree/develop").unwrap();
    assert_eq!(repo_arg(&spec), "owner/repo@develop");
    let again = RepoSpec::parse(&repo_arg(&spec)).unwrap();
    assert_eq!(again.git_ref, Some("develop".to_string()));
    assert_eq!(again.subpath, None);
    let spec = RepoSpec::parse("owner/repo@feature/x").unwrap();
    assert_eq!(repo_arg(&spec), "owner/repo@feature/x");
}

#[test]
fn waiting_stops_at_first_sighting_or_after_all_checks() {
    let run = |seen: &dyn Fn(u32) -> bool| -> (WaitStep, u32) {
        let mut check: u32 = 0;
        loop {
            match wait_step(check, seen(check)) {
                WaitStep::Retry => check += 1,
                s => return (s, check + 1),
            }
        }
    };
    assert_eq!(run(&|c| c == 5), (WaitStep::Mounted, 6));
    assert_eq!(run(&|_| true), (WaitStep::Mounted, 1));
    assert_eq!(run(&|_| false), (WaitStep::TimedOut, MOUNT_WAIT_CHECKS));
    assert_eq!(run(&|c| c == MOUNT_WAIT_CHECKS), (WaitStep::TimedOut, MOUNT_WAIT_CHECKS));
}
