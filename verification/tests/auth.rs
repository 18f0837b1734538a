use cdrepo::auth::{
    parse_hosts_yml_token, token_from_env, token_from_gh_output, token_step, trimmed_output,
    TokenInput, TokenStep,
};

#[test]
fn test_parse_hosts_yml() {
    let yml = r#"
github.com:
    user: testuser
    oauth_token: ghp_test123
    git_protocol: https
"#;
    assert_eq!(parse_hosts_yml_token(yml), Some("ghp_test123".to_string()));
}

#[test]
fn test_parse_hosts_yml_no_token() {
    let yml = "gitlab.com:\n    oauth_token: xxx\n";
    assert_eq!(parse_hosts_yml_token(yml), None);
}

#[test]
fn hosts_yml_quoted_token_is_unquoted() {
    let yml = "github.com:\n    oauth_token: \"ghp_q\"\n";
    assert_eq!(parse_hosts_yml_token(yml), Some("ghp_q".to_string()));
    let yml = "github.com:\n\toauth_token: 'ghp_s'\r\n";
    assert_eq!(parse_hosts_yml_token(yml), Some("ghp_s".to_string()));
}

#[test]
fn hosts_yml_block_ends_at_unindented_line() {
    let yml = "github.com:\n    user: u\nother.com:\n    oauth_token: zzz\n";
    assert_eq!(parse_hosts_yml_token(yml), None);
}

#[test]
fn hosts_yml_blank_line_ends_block() {
    let yml = "github.com:\n\n    oauth_token: zzz\n";
    assert_eq!(parse_hosts_yml_token(yml), None);
}

#[test]
fn hosts_yml_empty_token_is_skipped() {
    let yml = "github.com:\n    oauth_token: \"\"\n    oauth_token: real\n";
    assert_eq!(parse_hosts_yml_token(yml), Some("real".to_string()));
}

#[test]
fn hosts_yml_second_github_block() {
    let yml = "gitlab.com:\n    oauth_token: no\ngithub.com:\n    oauth_token: yes\n";
    assert_eq!(parse_hosts_yml_token(yml), Some("yes".to_string()));
}

#[test]
fn hosts_yml_empty_input() {
    assert_eq!(parse_hosts_yml_token(""), None);
}

#[test]
fn env_token_needs_a_value() {
    assert_eq!(token_from_env(""), None);
    assert_eq!(token_from_env("abc"), Some("abc".to_string()));
}

#[test]
fn gh_output_is_trimmed() {
    assert_eq!(token_from_gh_output(true, "  gho_x \n"), Some("gho_x".to_string()));
    assert_eq!(token_from_gh_output(false, "gho_x"), None);
    assert_eq!(token_from_gh_output(true, " \n\t"), None);
    assert_eq!(trimmed_output("\u{3000}login\u{a0}\n"), "login".to_string());
}

#[test]
fn hosts_yml_token_occurs_after_github_line() {
    let yml = "x: 1\ngithub.com:\n    oauth_token:   \"'tok'\"  \n";
    let t = parse_hosts_yml_token(yml).unwrap();
    assert_eq!(t, "tok");
    assert!(!t.is_empty());
    assert!(yml.contains(t.as_str()));
    assert!(yml.lines().any(|l| l.trim().starts_with("github.com:")));
}

#[test]
fn token_sources_are_consulted_in_order() {
    let used = |s: TokenStep| match s {
        TokenStep::Use(t) => Some(t),
        _ => None,
    };
    assert_eq!(used(token_step(&TokenInput::GhTokenEnv(Some("a".into())))), Some("a".to_string()));
    assert!(matches!(token_step(&TokenInput::GhTokenEnv(Some(String::new()))), TokenStep::ReadGithubTokenEnv));
    assert!(matches!(token_step(&TokenInput::GhTokenEnv(None)), TokenStep::ReadGithubTokenEnv));
    assert_eq!(used(token_step(&TokenInput::GithubTokenEnv(Some("b".into())))), Some("b".to_string()));
    assert!(matches!(token_step(&TokenInput::GithubTokenEnv(None)), TokenStep::RunGhAuthToken));
    assert_eq!(used(token_step(&TokenInput::GhAuthToken(true, " c\n".into()))), Some("c".to_string()));
    assert!(matches!(token_step(&TokenInput::GhAuthToken(false, "c".into())), TokenStep::ReadHostsFile));
    assert_eq!(
        used(token_step(&TokenInput::HostsFile(Some("github.com:\n  oauth_token: d\n".into())))),
        Some("d".to_string())
    );
    assert!(matches!(token_step(&TokenInput::HostsFile(None)), TokenStep::NotFound));
}
