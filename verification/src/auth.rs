//! Token resolution: which value counts as a GitHub token, from the
//! environment, from the `gh` command line tool, or from its `hosts.yml`.

use vstd::prelude::*;
use crate::text::{
    after_first_line, chars_of, contains_sub, find_from_exec, first_line, lemma_find_from_bounds,
    lemma_line_at, lemma_lines_are_pieces, lemma_piece_contained, lemma_piece_trans, lemma_subrange_piece,
    lemma_trim_with_piece, lines, piece, starts_with, starts_with_in, strip_prefix, substring, trim,
    trim_bounds, trim_with, Strip,
};

verus! {

broadcast use vstd::string::group_string_axioms;

/// The value of an `oauth_token:` line after its key: trimmed, then
/// stripped of double quotes, then of single quotes.
pub open spec fn token_value(r: Seq<char>) -> Seq<char> {
    trim_with(trim_with(trim(r), Strip::Char('"')), Strip::Char('\''))
}

/// The token that the lines `ls` of a `hosts.yml` file give, reading them in
/// order; `in_github` says whether a `github.com:` block has begun.
///
/// A line whose trimmed text starts with `github.com:` opens the block. Inside
/// the block, a line that does not start with a space or a tab ends the
/// search with no token; a line whose trimmed text starts with
/// `oauth_token:` and has a non-empty value gives that value.
pub open spec fn hosts_token(ls: Seq<Seq<char>>, in_github: bool) -> Option<Seq<char>>
    decreases ls.len(),
{
    if ls.len() == 0 {
        None
    } else {
        let line = ls[0];
        let rest = ls.drop_first();
        let t = trim(line);
        if starts_with(t, "github.com:"@) {
            hosts_token(rest, true)
        } else if in_github {
            if !(line.len() > 0 && (line[0] == ' ' || line[0] == '\t')) {
                None
            } else {
                match strip_prefix(t, "oauth_token:"@) {
                    Some(r) => if token_value(r).len() > 0 {
                        Some(token_value(r))
                    } else {
                        hosts_token(rest, true)
                    },
                    None => hosts_token(rest, true),
                }
            }
        } else {
            hosts_token(rest, false)
        }
    }
}

/// The github.com `oauth_token` of a `gh` `hosts.yml` file.
pub open spec fn hosts_yml_token(content: Seq<char>) -> Option<Seq<char>> {
    hosts_token(lines(content), false)
}

/// A line that opens the `github.com:` block.
pub open spec fn opens_github(line: Seq<char>) -> bool {
    starts_with(trim(line), "github.com:"@)
}

proof fn lemma_hosts_token(ls: Seq<Seq<char>>, in_github: bool)
    ensures
        hosts_token(ls, in_github) matches Some(t) ==> {
            &&& t.len() > 0
            &&& exists|k: int| 0 <= k < ls.len() && piece(t, #[trigger] ls[k])
            &&& (in_github || exists|j: int| 0 <= j < ls.len() && opens_github(#[trigger] ls[j]))
        },
    decreases ls.len(),
{
    if ls.len() > 0 {
        let line = ls[0];
        let rest = ls.drop_first();
        let tl = trim(line);
        let next = if starts_with(tl, "github.com:"@) {
            true
        } else {
            in_github
        };
        lemma_hosts_token(rest, next);
        if let Some(t) = hosts_token(ls, in_github) {
            if hosts_token(ls, in_github) == hosts_token(rest, next) {
                let k = choose|k: int| 0 <= k < rest.len() && piece(t, #[trigger] rest[k]);
                assert(ls[k + 1] == rest[k]);
                if !in_github {
                    if starts_with(tl, "github.com:"@) {
                        assert(opens_github(ls[0]));
                    } else {
                        let j = choose|j: int| 0 <= j < rest.len() && opens_github(#[trigger] rest[j]);
                        assert(ls[j + 1] == rest[j]);
                    }
                }
            } else {
                // the token of this line
                let r = strip_prefix(tl, "oauth_token:"@).unwrap();
                assert(t == token_value(r));
                lemma_trim_with_piece(r, Strip::Space);
                lemma_trim_with_piece(trim(r), Strip::Char('"'));
                lemma_trim_with_piece(trim_with(trim(r), Strip::Char('"')), Strip::Char('\''));
                lemma_piece_trans(t, trim_with(trim(r), Strip::Char('"')), trim(r));
                lemma_piece_trans(t, trim(r), r);
                lemma_subrange_piece(tl, "oauth_token:"@.len() as int, tl.len() as int);
                assert(r == tl.subrange("oauth_token:"@.len() as int, tl.len() as int));
                lemma_piece_trans(t, r, tl);
                lemma_trim_with_piece(line, Strip::Space);
                lemma_piece_trans(t, tl, line);
                assert(piece(t, ls[0]));
            }
        }
    }
}

/// A token read from a `hosts.yml` file is not empty, occurs in the file,
/// and comes after a line that opens the `github.com:` block.
pub proof fn law_hosts_token_from_github_block(content: Seq<char>)
    ensures
        hosts_yml_token(content) matches Some(t) ==> {
            &&& t.len() > 0
            &&& contains_sub(content, t)
            &&& exists|j: int|
                0 <= j < lines(content).len() && opens_github(#[trigger] lines(content)[j])
        },
{
    lemma_hosts_token(lines(content), false);
    if let Some(t) = hosts_yml_token(content) {
        let ls = lines(content);
        let k = choose|k: int| 0 <= k < ls.len() && piece(t, #[trigger] ls[k]);
        lemma_lines_are_pieces(content, k);
        lemma_piece_trans(t, ls[k], content);
        lemma_piece_contained(t, content);
    }
}

/// Minimal parser for gh hosts.yml to extract github.com oauth_token.
pub fn parse_hosts_yml_token(content: &str) -> (r: Option<String>)
    ensures
        match (r, hosts_yml_token(content@)) {
            (Some(t), Some(u)) => t@ == u,
            (None, None) => true,
            _ => false,
        },
{
    let v = chars_of(content);
    let key_github = chars_of("github.com:");
    let key_token = chars_of("oauth_token:");
    let mut in_github = false;
    let mut pos: usize = 0;
    assert(v@.skip(0) == v@);
    while pos < v.len()
        invariant
            v@ == content@,
            key_github@ == "github.com:"@,
            key_token@ == "oauth_token:"@,
            pos <= v.len(),
            hosts_yml_token(content@) == hosts_token(lines(v@.skip(pos as int)), in_github),
        decreases v.len() - pos,
    {
        let ghost w = v@.skip(pos as int);
        proof {
            lemma_line_at(v@, pos as int);
        }
        let n = match find_from_exec(&v, '\n', pos) {
            Some(k) => k,
            None => v.len(),
        };
        proof {
            lemma_find_from_bounds(v@, '\n', pos as int);
        }
        let le = if n < v.len() && n > pos && v[n - 1] == '\r' {
            n - 1
        } else {
            n
        };
        let next = if n < v.len() {
            n + 1
        } else {
            v.len()
        };
        let ghost line = v@.subrange(pos as int, le as int);
        proof {
            if n >= v.len() {
                assert(v@.skip(next as int) == Seq::<char>::empty());
            }
            assert(first_line(w) == line);
            assert(after_first_line(w) == v@.skip(next as int));
            assert(lines(w) == seq![line].add(lines(v@.skip(next as int))));
            assert(lines(w)[0] == line);
            assert(lines(w).drop_first() == lines(v@.skip(next as int)));
        }
        let (a, b) = trim_bounds(&v, &Strip::Space, pos, le);
        if starts_with_in(&v, a, b, &key_github) {
            in_github = true;
        } else if in_github {
            if !(pos < le && (v[pos] == ' ' || v[pos] == '\t')) {
                return None;
            }
            if starts_with_in(&v, a, b, &key_token) {
                let ghost t = v@.subrange(a as int, b as int);
                assert(t.skip(key_token@.len() as int) == v@.subrange(
                    a + key_token.len(),
                    b as int,
                ));
                let (c1, d1) = trim_bounds(&v, &Strip::Space, a + key_token.len(), b);
                let (c2, d2) = trim_bounds(&v, &Strip::Char('"'), c1, d1);
                let (c3, d3) = trim_bounds(&v, &Strip::Char('\''), c2, d2);
                if c3 < d3 {
                    return Some(substring(content, c3, d3));
                }
            }
        }
        pos = next;
    }
    proof {
        assert(v@.skip(pos as int).len() == 0);
    }
    None
}

/// A token taken from an environment variable: any non-empty value.
pub fn token_from_env(value: &str) -> (r: Option<String>)
    ensures
        r matches Some(t) ==> t@ == value@,
        r is None <==> value@.len() == 0,
{
    if value.is_empty() {
        None
    } else {
        Some(String::from_str(value))
    }
}

/// The trimmed standard output of a command, as the library reads every
/// answer of the `gh` tool.
pub fn trimmed_output(stdout: &str) -> (r: String)
    ensures
        r@ == trim(stdout@),
{
    let v = chars_of(stdout);
    let (a, b) = trim_bounds(&v, &Strip::Space, 0, v.len());
    assert(v@.subrange(0, v@.len() as int) == v@);
    substring(stdout, a, b)
}

/// A token printed by `gh auth token`: its trimmed output when the command
/// succeeded and that text is not empty.
pub fn token_from_gh_output(success: bool, stdout: &str) -> (r: Option<String>)
    ensures
        r matches Some(t) ==> success && t@ == trim(stdout@) && t@.len() > 0,
        r is None <==> !success || trim(stdout@).len() == 0,
{
    if !success {
        return None;
    }
    let t = trimmed_output(stdout);
    if t.as_str().is_empty() {
        None
    } else {
        Some(t)
    }
}

/// What was read from the source that token resolution consulted last.
pub enum TokenInput {
    /// The value of `GH_TOKEN`, if set.
    GhTokenEnv(Option<String>),
    /// The value of `GITHUB_TOKEN`, if set.
    GithubTokenEnv(Option<String>),
    /// `gh auth token`: whether it ran and succeeded, and its standard output.
    GhAuthToken(bool, String),
    /// The text of `hosts.yml`, if the file exists.
    HostsFile(Option<String>),
}

/// What token resolution does next.
pub enum TokenStep {
    /// Use this token.
    Use(String),
    /// Read `GITHUB_TOKEN`.
    ReadGithubTokenEnv,
    /// Run `gh auth token`.
    RunGhAuthToken,
    /// Read the `gh` tool's `hosts.yml`.
    ReadHostsFile,
    /// Every source was consulted; there is no token.
    NotFound,
}

/// The token an environment value gives: the value, when it is not empty.
pub open spec fn env_token(v: Option<String>) -> Option<Seq<char>> {
    match v {
        Some(s) => if s@.len() > 0 {
            Some(s@)
        } else {
            None
        },
        None => None,
    }
}

/// The token that a source gives, from what reading it returned.
pub open spec fn source_token(input: TokenInput) -> Option<Seq<char>> {
    match input {
        TokenInput::GhTokenEnv(v) => env_token(v),
        TokenInput::GithubTokenEnv(v) => env_token(v),
        TokenInput::GhAuthToken(ok, out) => if ok && trim(out@).len() > 0 {
            Some(trim(out@))
        } else {
            None
        },
        TokenInput::HostsFile(c) => match c {
            Some(text) => hosts_yml_token(text@),
            None => None,
        },
    }
}

/// The next step of token resolution after consulting a source: its token
/// when it gives one; otherwise the next source, in the order `GH_TOKEN`,
/// `GITHUB_TOKEN`, `gh auth token`, `hosts.yml`; after the last, none.
pub fn token_step(input: &TokenInput) -> (r: TokenStep)
    ensures
        match source_token(*input) {
            Some(t) => r matches TokenStep::Use(s) && s@ == t,
            None => match *input {
                TokenInput::GhTokenEnv(_) => r is ReadGithubTokenEnv,
                TokenInput::GithubTokenEnv(_) => r is RunGhAuthToken,
                TokenInput::GhAuthToken(_, _) => r is ReadHostsFile,
                TokenInput::HostsFile(_) => r is NotFound,
            },
        },
{
    match input {
        TokenInput::GhTokenEnv(v) => match v {
            Some(s) => match token_from_env(s.as_str()) {
                Some(t) => TokenStep::Use(t),
                None => TokenStep::ReadGithubTokenEnv,
            },
            None => TokenStep::ReadGithubTokenEnv,
        },
        TokenInput::GithubTokenEnv(v) => match v {
            Some(s) => match token_from_env(s.as_str()) {
                Some(t) => TokenStep::Use(t),
                None => TokenStep::RunGhAuthToken,
            },
            None => TokenStep::RunGhAuthToken,
        },
        TokenInput::GhAuthToken(ok, out) => match token_from_gh_output(*ok, out.as_str()) {
            Some(t) => TokenStep::Use(t),
            None => TokenStep::ReadHostsFile,
        },
        TokenInput::HostsFile(c) => match c {
            Some(text) => match parse_hosts_yml_token(text.as_str()) {
                Some(t) => TokenStep::Use(t),
                None => TokenStep::NotFound,
            },
            None => TokenStep::NotFound,
        },
    }
}

} // verus!
