use cdrepo::github::RepoSpec;

fn parts(s: &RepoSpec) -> (String, String, Option<String>, Option<String>) {
    (s.owner.clone(), s.repo.clone(), s.git_ref.clone(), s.subpath.clone())
}

fn ok(input: &str) -> (String, String, Option<String>, Option<String>) {
    match RepoSpec::parse(input) {
        Ok(s) => parts(&s),
        Err(e) => panic!("{}", e.message()),
    }
}

fn t(o: &str, r: &str, g: Option<&str>, p: Option<&str>) -> (String, String, Option<String>, Option<String>) {
    (o.to_string(), r.to_string(), g.map(|x| x.to_string()), p.map(|x| x.to_string()))
}

#[test]
fn parse_owner_repo() {
    assert_eq!(ok("cli/cli"), t("cli", "cli", None, None));
}

#[test]
fn parse_https_url() {
    assert_eq!(ok("https://github.com/rust-lang/rust"), t("rust-lang", "rust", None, None));
    assert_eq!(ok("http://github.com/a/b/"), t("a", "b", None, None));
    assert_eq!(ok("  github.com/antonmedv/fx.git  "), t("antonmedv", "fx", None, None));
}

#[test]
fn parse_ssh_url() {
    assert_eq!(ok("git@github.com:user/private-repo.git"), t("user", "private-repo", None, None));
    assert_eq!(ok("git@github.com:a/b/c"), t("a", "b/c", None, None));
}

#[test]
fn parse_tree_and_blob_forms() {
    assert_eq!(
        ok("https://github.com/owner/repo/tree/develop"),
        t("owner", "repo", Some("develop"), None)
    );
    assert_eq!(
        ok("https://github.com/owner/repo/tree/main/src"),
        t("owner", "repo", Some("main"), Some("src"))
    );
    assert_eq!(
        ok("owner/repo/blob/main/src/lib/x.rs"),
        t("owner", "repo", Some("main"), Some("src/lib/x.rs"))
    );
}

#[test]
fn parse_at_ref() {
    assert_eq!(ok("owner/repo@v1.2"), t("owner", "repo", Some("v1.2"), None));
    assert_eq!(ok("owner/repo/x@feature/y"), t("owner", "repo/x", Some("feature/y"), None));
}

#[test]
fn parse_rejects_bad_forms() {
    for bad in ["justone", "a/b/c", "a/b/wrong/main", "", "///", "https://github.com/onlyowner"] {
        assert!(RepoSpec::parse(bad).is_err(), "{bad}");
    }
    let e = RepoSpec::parse(" https://github.com/x.git ").unwrap_err();
    assert_eq!(e.input, "x");
    assert_eq!(
        e.message(),
        "Invalid repo format: x\nExpected: owner/repo or https://github.com/owner/repo"
    );
}

#[test]
fn parse_ssh_without_slash_falls_through() {
    let e = RepoSpec::parse("git@github.com:foo").unwrap_err();
    assert_eq!(e.input, "git@github.com:foo");
}
