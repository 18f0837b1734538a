//! Repository identifiers, the flat tree listing that the GitHub API returns,
//! and the in-memory directory index built from it.

use vstd::prelude::*;
use vstd::string::StringSliceAdditionalSpecFns;
use vstd::utf8::{decode_utf8, is_char_boundary};
use crate::index::NameMap;
use crate::paths::{join, path_join};
use crate::text::{
    chars_of, ends_with, is_ws, rfind_before_exec, rfind_char, starts_with, str_eq, drop_prefix, drop_suffix, eq_in, split_once, split_once_in, strip_prefix,
    strip_prefix_in, strip_suffix_in, substring, trim, trim_bounds, trim_end_char,
    trim_end_char_in, Strip,
};

verus! {

broadcast use vstd::string::group_string_axioms;

// ---------------------------------------------------------------------------
// Repository identifiers
// ---------------------------------------------------------------------------

/// Parsed repo identifier.
#[derive(Debug, Clone)]
pub struct RepoSpec {
    pub owner: String,
    pub repo: String,
    pub git_ref: Option<String>,
    pub subpath: Option<String>,
}

/// The characters of a repo identifier.
pub struct RepoSpecModel {
    pub owner: Seq<char>,
    pub repo: Seq<char>,
    pub git_ref: Option<Seq<char>>,
    pub subpath: Option<Seq<char>>,
}

pub open spec fn opt_view(o: Option<String>) -> Option<Seq<char>> {
    match o {
        Some(s) => Some(s@),
        None => None,
    }
}

impl View for RepoSpec {
    type V = RepoSpecModel;

    open spec fn view(&self) -> RepoSpecModel {
        RepoSpecModel {
            owner: self.owner@,
            repo: self.repo@,
            git_ref: opt_view(self.git_ref),
            subpath: opt_view(self.subpath),
        }
    }
}

/// `git@github.com:owner/repo[.git]`.
pub open spec fn ssh_form(input: Seq<char>) -> Option<RepoSpecModel> {
    match strip_prefix(input, "git@github.com:"@) {
        Some(rest) => match split_once(drop_suffix(rest, ".git"@), '/') {
            Some((o, r)) => Some(RepoSpecModel { owner: o, repo: r, git_ref: None, subpath: None }),
            None => None,
        },
        None => None,
    }
}

/// The input without an `https://` (or else `http://`) scheme, without a
/// `github.com/` host and without a trailing `.git`.
pub open spec fn url_stripped(input: Seq<char>) -> Seq<char> {
    let a = match strip_prefix(input, "https://"@) {
        Some(x) => x,
        None => drop_prefix(input, "http://"@),
    };
    drop_suffix(drop_prefix(a, "github.com/"@), ".git"@)
}

/// `owner/repo@ref`: split at the first `@`, then the part before it at its
/// first `/`.
pub open spec fn ref_form(c: Seq<char>) -> Option<RepoSpecModel> {
    match split_once(c, '@') {
        Some((rp, gr)) => match split_once(rp, '/') {
            Some((o, r)) => Some(
                RepoSpecModel { owner: o, repo: r, git_ref: Some(gr), subpath: None },
            ),
            None => None,
        },
        None => None,
    }
}

/// `owner/repo`, `owner/repo/tree/ref` or `owner/repo/tree/ref/path`
/// (`blob` in place of `tree` too): `c` split at its first four `/`.
pub open spec fn path_form(c: Seq<char>) -> Option<RepoSpecModel> {
    match split_once(c, '/') {
        None => None,
        Some((p0, r0)) => match split_once(r0, '/') {
            None => Some(RepoSpecModel { owner: p0, repo: r0, git_ref: None, subpath: None }),
            Some((p1, r1)) => match split_once(r1, '/') {
                None => None,
                Some((p2, r2)) => if p2 == "tree"@ || p2 == "blob"@ {
                    match split_once(r2, '/') {
                        None => Some(
                            RepoSpecModel { owner: p0, repo: p1, git_ref: Some(r2), subpath: None },
                        ),
                        Some((p3, r3)) => Some(
                            RepoSpecModel {
                                owner: p0,
                                repo: p1,
                                git_ref: Some(p3),
                                subpath: Some(r3),
                            },
                        ),
                    }
                } else {
                    None
                },
            },
        },
    }
}

/// The input after trimming white space and then trailing `/`.
pub open spec fn normalized_input(raw: Seq<char>) -> Seq<char> {
    trim_end_char(trim(raw), '/')
}

/// What `RepoSpec::parse` gives for `raw`: the identifier, or the stripped
/// input that matched no accepted form.
pub open spec fn parse_repo_spec(raw: Seq<char>) -> Result<RepoSpecModel, Seq<char>> {
    let input = normalized_input(raw);
    match ssh_form(input) {
        Some(m) => Ok(m),
        None => {
            let c = url_stripped(input);
            match ref_form(c) {
                Some(m) => Ok(m),
                None => match path_form(c) {
                    Some(m) => Ok(m),
                    None => Err(c),
                },
            }
        },
    }
}

/// A name that the daemon argument carries unchanged: no `/`, no `@`, no
/// white space.
pub open spec fn plain_name(s: Seq<char>) -> bool {
    forall|i: int| 0 <= i < s.len() ==> s[i] != '/' && s[i] != '@' && !is_ws(#[trigger] s[i])
}

/// A ref that the daemon argument carries unchanged: no white space, and
/// not ending in `/` or `.git`.
pub open spec fn plain_ref(g: Seq<char>) -> bool {
    &&& forall|i: int| 0 <= i < g.len() ==> !is_ws(#[trigger] g[i])
    &&& !(g.len() > 0 && g.last() == '/')
    &&& !ends_with(g, ".git"@)
}

/// The argument that names a repository to the mount daemon: `owner/repo`,
/// followed by `@ref` when a ref is named.
pub open spec fn repo_arg_text(owner: Seq<char>, repo: Seq<char>, git_ref: Option<Seq<char>>) -> Seq<
    char,
> {
    match git_ref {
        Some(g) => owner + "/"@ + repo + "@"@ + g,
        None => owner + "/"@ + repo,
    }
}

/// The names for which the daemon argument parses back: plain owner and
/// repository names, a non-empty repository, an owner other than
/// `github.com`, and either a plain ref or a repository not ending in `.git`.
pub open spec fn arg_parses_back(owner: Seq<char>, repo: Seq<char>, git_ref: Option<Seq<char>>) -> bool {
    &&& plain_name(owner)
    &&& plain_name(repo)
    &&& repo.len() > 0
    &&& owner != "github.com"@
    &&& match git_ref {
        Some(g) => plain_ref(g),
        None => !ends_with(repo, ".git"@),
    }
}

/// The daemon argument of an owner, a repository and a ref parses back to
/// that owner, repository and ref, for the names of `arg_parses_back`.
pub proof fn law_repo_arg_parses_back(owner: Seq<char>, repo: Seq<char>, git_ref: Option<Seq<char>>)
    requires
        arg_parses_back(owner, repo, git_ref),
    ensures
        parse_repo_spec(repo_arg_text(owner, repo, git_ref)) == Ok::<RepoSpecModel, Seq<char>>(
            RepoSpecModel { owner, repo, git_ref, subpath: None },
        ),
{
    match git_ref {
        Some(g) => lemma_ref_arg_parses_back(owner, repo, g),
        None => lemma_plain_arg_parses_back(owner, repo),
    }
}

proof fn lemma_ref_arg_parses_back(owner: Seq<char>, repo: Seq<char>, g: Seq<char>)
    requires
        plain_name(owner),
        plain_name(repo),
        repo.len() > 0,
        owner != "github.com"@,
        plain_ref(g),
    ensures
        parse_repo_spec(owner + "/"@ + repo + "@"@ + g) == Ok::<RepoSpecModel, Seq<char>>(
            RepoSpecModel { owner, repo, git_ref: Some(g), subpath: None },
        ),
{
    reveal_strlit("/");
    reveal_strlit("@");
    reveal_strlit("git@github.com:");
    reveal_strlit("https://");
    reveal_strlit("http://");
    reveal_strlit("github.com/");
    reveal_strlit(".git");
    let s = owner + "/"@ + repo + "@"@ + g;
    let n = owner.len() as int;
    let m = n + 1 + repo.len();
    assert(s[n] == '/');
    assert(s[m] == '@');
    assert(s.len() == m + 1 + g.len());
    assert(forall|j: int| 0 <= j < m && j != n ==> s[j] != '/' && s[j] != '@' && !is_ws(s[j]))
        by {
        assert forall|j: int| 0 <= j < m && j != n implies s[j] != '/' && s[j] != '@' && !is_ws(
            s[j],
        ) by {
            if j < n {
                assert(s[j] == owner[j]);
            } else {
                assert(s[j] == repo[j - n - 1]);
            }
        }
    }
    assert(forall|j: int| m < j < s.len() ==> !is_ws(#[trigger] s[j])) by {
        assert forall|j: int| m < j < s.len() implies !is_ws(#[trigger] s[j]) by {
            assert(s[j] == g[j - m - 1]);
        }
    }
    // trimming changes nothing
    if g.len() > 0 {
        assert(s[s.len() - 1] == g.last());
    }
    assert(s.subrange(0, s.len() as int) == s);
    assert(s.take(s.len() as int) == s);
    assert(normalized_input(s) == s);
    // not the ssh form
    let ssh = "git@github.com:"@;
    if starts_with(s, ssh) {
        if n < 15 {
            assert(s.take(15)[n] == '/');
        } else {
            assert(s.take(15)[3] == '@');
        }
    }
    assert(ssh_form(s) is None);
    // no scheme, host or `.git` to strip
    if starts_with(s, "https://"@) {
        if m < 8 {
            assert(s.take(8)[m] == '@');
        }
        assert(s.take(8)[6] == '/' && s.take(8)[7] == '/');
    }
    if starts_with(s, "http://"@) {
        if m < 7 {
            assert(s.take(7)[m] == '@');
        }
        assert(s.take(7)[5] == '/' && s.take(7)[6] == '/');
    }
    if starts_with(s, "github.com/"@) {
        if m < 11 {
            assert(s.take(11)[m] == '@');
        }
        assert(s.take(11)[10] == '/');
        assert(n == 10) by {
            if n < 10 {
                assert(s.take(11)[n] == '/');
            }
        }
        assert(owner =~= s.take(10));
        reveal_strlit("github.com");
        assert forall|i: int| 0 <= i < 10 implies s.take(10)[i] == "github.com"@[i] by {
            assert(s.take(10)[i] == s.take(11)[i]);
        }
        assert(s.take(10) =~= "github.com"@);
    }
    if ends_with(s, ".git"@) {
        if g.len() >= 4 {
            assert(g.skip(g.len() - 4) =~= s.skip(s.len() - 4));
        } else {
            assert(s.skip(s.len() - 4)[m - (s.len() - 4)] == '@');
        }
    }
    assert(!starts_with(s, "https://"@));
    assert(!starts_with(s, "http://"@));
    assert(!starts_with(s, "github.com/"@));
    assert(!ends_with(s, ".git"@));
    assert(url_stripped(s) == s);
    // the first `@` ends the repository, the first `/` the owner
    crate::text::lemma_find_from_exact(s, '@', 0, m);
    let rp = s.take(m);
    assert(s.skip(m + 1) =~= g);
    crate::text::lemma_find_from_exact(rp, '/', 0, n);
    assert(rp.take(n) =~= owner);
    assert(rp.skip(n + 1) =~= repo);
}

/// The `owner/repo@ref` text of plain names: its `@` form, and the facts
/// that normalising and stripping it need.
proof fn lemma_ref_text(owner: Seq<char>, repo: Seq<char>, g: Seq<char>)
    requires
        plain_name(owner),
        plain_name(repo),
        plain_ref(g),
    ensures
        ({
            let t = owner + "/"@ + repo + "@"@ + g;
            &&& ref_form(t) == Some(RepoSpecModel { owner, repo, git_ref: Some(g), subpath: None })
            &&& !ends_with(t, ".git"@)
            &&& t.len() > 0
            &&& !is_ws(t.last())
            &&& t.last() != '/'
        }),
{
    reveal_strlit("/");
    reveal_strlit("@");
    reveal_strlit(".git");
    let s = owner + "/"@ + repo + "@"@ + g;
    let n = owner.len() as int;
    let m = n + 1 + repo.len();
    assert(s[n] == '/');
    assert(s[m] == '@');
    assert(forall|j: int| 0 <= j < m && j != n ==> s[j] != '/' && s[j] != '@') by {
        assert forall|j: int| 0 <= j < m && j != n implies s[j] != '/' && s[j] != '@' by {
            if j < n {
                assert(s[j] == owner[j]);
            } else {
                assert(s[j] == repo[j - n - 1]);
            }
        }
    }
    if g.len() > 0 {
        assert(s.last() == g.last());
    }
    if ends_with(s, ".git"@) {
        if g.len() >= 4 {
            assert(g.skip(g.len() - 4) =~= s.skip(s.len() - 4));
        } else {
            assert(s.skip(s.len() - 4)[m - (s.len() - 4)] == '@');
        }
    }
    crate::text::lemma_find_from_exact(s, '@', 0, m);
    let rp = s.take(m);
    assert(s.skip(m + 1) =~= g);
    crate::text::lemma_find_from_exact(rp, '/', 0, n);
    assert(rp.take(n) =~= owner);
    assert(rp.skip(n + 1) =~= repo);
}

/// A repository link with a ref names the same owner, repository and ref
/// as the bare `owner/repo@ref`: the scheme and the `github.com/` host are
/// stripped before the ref is split off. For plain names,
/// `https://github.com/owner/repo@ref` and `github.com/owner/repo@ref` both
/// parse to that owner, repository and ref, with no subpath.
pub proof fn law_link_with_ref_parses(owner: Seq<char>, repo: Seq<char>, g: Seq<char>)
    requires
        plain_name(owner),
        plain_name(repo),
        plain_ref(g),
    ensures
        parse_repo_spec("https://github.com/"@ + (owner + "/"@ + repo + "@"@ + g)) == Ok::<
            RepoSpecModel,
            Seq<char>,
        >(RepoSpecModel { owner, repo, git_ref: Some(g), subpath: None }),
        parse_repo_spec("github.com/"@ + (owner + "/"@ + repo + "@"@ + g)) == Ok::<
            RepoSpecModel,
            Seq<char>,
        >(RepoSpecModel { owner, repo, git_ref: Some(g), subpath: None }),
{
    reveal_strlit("https://github.com/");
    reveal_strlit("github.com/");
    reveal_strlit("git@github.com:");
    reveal_strlit("https://");
    reveal_strlit("http://");
    reveal_strlit(".git");
    lemma_ref_text(owner, repo, g);
    let t = owner + "/"@ + repo + "@"@ + g;
    // with the scheme
    let s = "https://github.com/"@ + t;
    assert(s[0] == 'h');
    assert(s.last() == t.last());
    assert(s.subrange(0, s.len() as int) == s);
    assert(s.take(s.len() as int) == s);
    assert(normalized_input(s) == s);
    if starts_with(s, "git@github.com:"@) {
        assert(s.take(15)[0] == 'h');
    }
    assert(ssh_form(s) is None);
    assert(s.take(8) =~= "https://"@);
    let a = s.skip(8);
    assert(a =~= "github.com/"@ + t);
    assert(a.take(11) =~= "github.com/"@);
    assert(a.skip(11) =~= t);
    assert(url_stripped(s) == t);
    // with the host only
    let h = "github.com/"@ + t;
    assert(h[0] == 'g');
    assert(h.last() == t.last());
    assert(h.subrange(0, h.len() as int) == h);
    assert(h.take(h.len() as int) == h);
    assert(normalized_input(h) == h);
    if starts_with(h, "git@github.com:"@) {
        assert(h.take(15)[3] == "github.com/"@[3]);
    }
    assert(ssh_form(h) is None);
    if starts_with(h, "https://"@) {
        assert(h.take(8)[0] == 'g');
    }
    if starts_with(h, "http://"@) {
        assert(h.take(7)[0] == 'g');
    }
    assert(h.take(11) =~= "github.com/"@);
    assert(h.skip(11) =~= t);
    assert(url_stripped(h) == t);
}

/// Splitting at the first `c` of `a + c + b`, when `a` holds no `c`.
proof fn lemma_split_first(a: Seq<char>, b: Seq<char>, c: char)
    requires
        forall|j: int| 0 <= j < a.len() ==> #[trigger] a[j] != c,
    ensures
        split_once(a + seq![c] + b, c) == Some((a, b)),
{
    let s = a + seq![c] + b;
    assert forall|j: int| 0 <= j < a.len() implies s[j] != c by {
        assert(s[j] == a[j]);
    }
    assert(s[a.len() as int] == c);
    crate::text::lemma_find_from_exact(s, c, 0, a.len() as int);
    assert(s.take(a.len() as int) =~= a);
    assert(s.skip((a.len() + 1) as int) =~= b);
}

/// A subpath that a link carries unchanged: not empty, without `@` or
/// white space, and not ending in `/` or `.git`.
pub open spec fn plain_subpath(p: Seq<char>) -> bool {
    &&& p.len() > 0
    &&& forall|i: int| 0 <= i < p.len() ==> p[i] != '@' && !is_ws(#[trigger] p[i])
    &&& p.last() != '/'
    &&& !ends_with(p, ".git"@)
}

/// The characters of `owner/repo/<kind>/ref/path` for the names of
/// `law_tree_link_parses`: none is `@` or white space, the last is the
/// path's, the text does not end in `.git`, and its path form is those names.
proof fn lemma_tree_text(owner: Seq<char>, repo: Seq<char>, kind: Seq<char>, g: Seq<char>, sub: Seq<char>)
    requires
        plain_name(owner),
        plain_name(repo),
        plain_name(g),
        kind == "tree"@ || kind == "blob"@,
        plain_subpath(sub),
    ensures
        ({
            let t = owner + "/"@ + repo + "/"@ + kind + "/"@ + g + "/"@ + sub;
            &&& forall|j: int| 0 <= j < t.len() ==> #[trigger] t[j] != '@' && !is_ws(t[j])
            &&& t.len() > 0
            &&& t.last() == sub.last()
            &&& !ends_with(t, ".git"@)
            &&& path_form(t) == Some(
                RepoSpecModel { owner, repo, git_ref: Some(g), subpath: Some(sub) },
            )
        }),
{
    reveal_strlit("/");
    reveal_strlit(".git");
    reveal_strlit("tree");
    reveal_strlit("blob");
    let sl = seq!['/'];
    assert("/"@ =~= sl);
    let t4 = g + sl + sub;
    let t3 = kind + sl + t4;
    let t2 = repo + sl + t3;
    let t = owner + sl + t2;
    assert(owner + "/"@ + repo + "/"@ + kind + "/"@ + g + "/"@ + sub =~= t);
    assert forall|j: int| 0 <= j < t.len() implies #[trigger] t[j] != '@' && !is_ws(t[j]) by {
        let n0 = owner.len() as int;
        let n1 = n0 + 1 + repo.len();
        let n2 = n1 + 1 + kind.len();
        let n3 = n2 + 1 + g.len();
        if j < n0 {
            assert(t[j] == owner[j]);
        } else if j == n0 {
        } else if j < n1 {
            assert(t[j] == repo[j - n0 - 1]);
        } else if j == n1 {
        } else if j < n2 {
            assert(t[j] == kind[j - n1 - 1]);
        } else if j == n2 {
        } else if j < n3 {
            assert(t[j] == g[j - n2 - 1]);
        } else if j == n3 {
        } else {
            assert(t[j] == sub[j - n3 - 1]);
        }
    }
    assert(t.last() == sub.last());
    if ends_with(t, ".git"@) {
        assert(sub.skip(sub.len() - 4) =~= t.skip(t.len() - 4)) by {
            if sub.len() < 4 {
                assert(t.skip(t.len() - 4)[3 - sub.len()] == '/');
                assert(".git"@[3 - sub.len()] != '/');
            }
        }
    }
    lemma_split_first(owner, t2, '/');
    lemma_split_first(repo, t3, '/');
    assert forall|j: int| 0 <= j < kind.len() implies #[trigger] kind[j] != '/' by {}
    lemma_split_first(kind, t4, '/');
    lemma_split_first(g, sub, '/');
}

/// A browser link to a directory of a branch,
/// `https://github.com/owner/repo/<tree or blob>/ref/path`, names that owner,
/// repository, ref and path, for plain names, a ref without `/`, and a plain
/// path (which may hold `/`).
pub proof fn law_tree_link_parses(
    owner: Seq<char>,
    repo: Seq<char>,
    kind: Seq<char>,
    g: Seq<char>,
    sub: Seq<char>,
)
    requires
        plain_name(owner),
        plain_name(repo),
        plain_name(g),
        kind == "tree"@ || kind == "blob"@,
        plain_subpath(sub),
    ensures
        parse_repo_spec(
            "https://github.com/"@ + (owner + "/"@ + repo + "/"@ + kind + "/"@ + g + "/"@ + sub),
        ) == Ok::<RepoSpecModel, Seq<char>>(
            RepoSpecModel { owner, repo, git_ref: Some(g), subpath: Some(sub) },
        ),
{
    reveal_strlit("https://github.com/");
    reveal_strlit("github.com/");
    reveal_strlit("git@github.com:");
    reveal_strlit("https://");
    lemma_tree_text(owner, repo, kind, g, sub);
    let t = owner + "/"@ + repo + "/"@ + kind + "/"@ + g + "/"@ + sub;
    let s = "https://github.com/"@ + t;
    assert(s.last() == t.last());
    assert(s[0] == 'h');
    assert(s.subrange(0, s.len() as int) == s);
    assert(s.take(s.len() as int) == s);
    assert(normalized_input(s) == s);
    if starts_with(s, "git@github.com:"@) {
        assert(s.take(15)[0] == 'h');
    }
    assert(ssh_form(s) is None);
    assert(s.take(8) =~= "https://"@);
    let a = s.skip(8);
    assert(a =~= "github.com/"@ + t);
    assert(a.take(11) =~= "github.com/"@);
    assert(a.skip(11) =~= t);
    assert(url_stripped(s) == t);
    crate::text::lemma_find_from_exact(t, '@', 0, t.len() as int);
    assert(ref_form(t) is None);
}

proof fn lemma_plain_arg_parses_back(owner: Seq<char>, repo: Seq<char>)
    requires
        plain_name(owner),
        plain_name(repo),
        repo.len() > 0,
        owner != "github.com"@,
        !ends_with(repo, ".git"@),
    ensures
        parse_repo_spec(owner + "/"@ + repo) == Ok::<RepoSpecModel, Seq<char>>(
            RepoSpecModel { owner, repo, git_ref: None, subpath: None },
        ),
{
    reveal_strlit("/");
    reveal_strlit("git@github.com:");
    reveal_strlit("https://");
    reveal_strlit("http://");
    reveal_strlit("github.com/");
    reveal_strlit(".git");
    let s = owner + "/"@ + repo;
    let n = owner.len() as int;
    assert(s[n] == '/');
    assert(forall|j: int| 0 <= j < s.len() && j != n ==> s[j] != '/' && s[j] != '@' && !is_ws(s[j]))
        by {
        assert forall|j: int| 0 <= j < s.len() && j != n implies s[j] != '/' && s[j] != '@' && !is_ws(
            s[j],
        ) by {
            if j < n {
                assert(s[j] == owner[j]);
            } else {
                assert(s[j] == repo[j - n - 1]);
            }
        }
    }
    // trimming changes nothing
    assert(s.subrange(0, s.len() as int) == s);
    assert(s.take(s.len() as int) == s);
    assert(normalized_input(s) == s);
    // not the ssh form
    let ssh = "git@github.com:"@;
    if starts_with(s, ssh) {
        if n < 15 {
            assert(s.take(15)[n] == '/');
        } else {
            assert(s.take(15)[3] == '@');
        }
    }
    assert(ssh_form(s) is None);
    // no scheme, host or `.git` to strip
    if starts_with(s, "https://"@) {
        assert(s.take(8)[6] == '/' && s.take(8)[7] == '/');
    }
    if starts_with(s, "http://"@) {
        assert(s.take(7)[5] == '/' && s.take(7)[6] == '/');
    }
    if starts_with(s, "github.com/"@) {
        assert(s.take(11)[10] == '/');
        assert(n == 10) by {
            if n < 10 {
                assert(s.take(11)[n] == '/');
            }
        }
        assert(owner =~= s.take(10));
        reveal_strlit("github.com");
        assert forall|i: int| 0 <= i < 10 implies s.take(10)[i] == "github.com"@[i] by {
            assert(s.take(10)[i] == s.take(11)[i]);
        }
        assert(s.take(10) =~= "github.com"@);
    }
    if ends_with(s, ".git"@) {
        if repo.len() >= 4 {
            assert(repo.skip(repo.len() - 4) =~= s.skip(s.len() - 4));
        } else {
            assert(s.skip(s.len() - 4)[n - (s.len() - 4)] == '/');
        }
    }
    assert(!starts_with(s, "https://"@));
    assert(!starts_with(s, "http://"@));
    assert(!starts_with(s, "github.com/"@));
    assert(!ends_with(s, ".git"@));
    assert(url_stripped(s) == s);
    // no `@`, one `/`
    crate::text::lemma_find_from_exact(s, '@', 0, s.len() as int);
    assert(ref_form(s) is None);
    crate::text::lemma_find_from_exact(s, '/', 0, n);
    assert(s.take(n) =~= owner);
    assert(s.skip(n + 1) =~= repo);
    crate::text::lemma_find_from_exact(repo, '/', 0, repo.len() as int);
}

/// A repo identifier that matches none of the accepted forms.
#[derive(Debug, Clone)]
pub struct InvalidRepoFormat {
    /// The input after stripping scheme, host and `.git`.
    pub input: String,
}

pub open spec fn invalid_repo_message(input: Seq<char>) -> Seq<char> {
    "Invalid repo format: "@ + input + "\nExpected: owner/repo or https://github.com/owner/repo"@
}

impl InvalidRepoFormat {
    /// The error's text.
    pub fn message(&self) -> (r: String)
        ensures
            r@ == invalid_repo_message(self.input@),
    {
        let mut m = String::from_str("Invalid repo format: ");
        m.append(self.input.as_str());
        m.append("\nExpected: owner/repo or https://github.com/owner/repo");
        m
    }
}

fn model_of(
    s: &str,
    v: &Vec<char>,
    o: (usize, usize),
    r: (usize, usize),
    g: Option<(usize, usize)>,
    p: Option<(usize, usize)>,
) -> (out: RepoSpec)
    requires
        v@ == s@,
        o.0 <= o.1 <= v.len(),
        r.0 <= r.1 <= v.len(),
        g matches Some(x) ==> x.0 <= x.1 <= v.len(),
        p matches Some(x) ==> x.0 <= x.1 <= v.len(),
    ensures
        out@ == (RepoSpecModel {
            owner: v@.subrange(o.0 as int, o.1 as int),
            repo: v@.subrange(r.0 as int, r.1 as int),
            git_ref: match g {
                Some(x) => Some(v@.subrange(x.0 as int, x.1 as int)),
                None => None,
            },
            subpath: match p {
                Some(x) => Some(v@.subrange(x.0 as int, x.1 as int)),
                None => None,
            },
        }),
{
    let owner = substring(s, o.0, o.1);
    let repo = substring(s, r.0, r.1);
    let git_ref = match g {
        Some(x) => Some(substring(s, x.0, x.1)),
        None => None,
    };
    let subpath = match p {
        Some(x) => Some(substring(s, x.0, x.1)),
        None => None,
    };
    RepoSpec { owner, repo, git_ref, subpath }
}

pub open spec fn same_spec(r: Option<RepoSpec>, m: Option<RepoSpecModel>) -> bool {
    match (r, m) {
        (Some(x), Some(y)) => x@ == y,
        (None, None) => true,
        _ => false,
    }
}

fn parse_ssh(s: &str, v: &Vec<char>, a: usize, b: usize) -> (r: Option<RepoSpec>)
    requires
        v@ == s@,
        a <= b <= v.len(),
    ensures
        same_spec(r, ssh_form(v@.subrange(a as int, b as int))),
{
    let ssh = chars_of("git@github.com:");
    let dot_git = chars_of(".git");
    match strip_prefix_in(v, a, b, &ssh) {
        Some(s0) => {
            let e = match strip_suffix_in(v, s0, b, &dot_git) {
                Some(k) => k,
                None => b,
            };
            match split_once_in(v, s0, e, '/') {
                Some(k) => Some(model_of(s, v, (s0, k), (k + 1, e), None, None)),
                None => None,
            }
        },
        None => None,
    }
}

fn url_bounds(v: &Vec<char>, a: usize, b: usize) -> (r: (usize, usize))
    requires
        a <= b <= v.len(),
    ensures
        a <= r.0 <= r.1 <= b,
        v@.subrange(r.0 as int, r.1 as int) == url_stripped(v@.subrange(a as int, b as int)),
{
    let https = chars_of("https://");
    let http = chars_of("http://");
    let host = chars_of("github.com/");
    let dot_git = chars_of(".git");
    let a1 = match strip_prefix_in(v, a, b, &https) {
        Some(k) => k,
        None => match strip_prefix_in(v, a, b, &http) {
            Some(k) => k,
            None => a,
        },
    };
    let a2 = match strip_prefix_in(v, a1, b, &host) {
        Some(k) => k,
        None => a1,
    };
    let b2 = match strip_suffix_in(v, a2, b, &dot_git) {
        Some(k) => k,
        None => b,
    };
    (a2, b2)
}

fn parse_ref(s: &str, v: &Vec<char>, a: usize, b: usize) -> (r: Option<RepoSpec>)
    requires
        v@ == s@,
        a <= b <= v.len(),
    ensures
        same_spec(r, ref_form(v@.subrange(a as int, b as int))),
{
    match split_once_in(v, a, b, '@') {
        Some(at) => match split_once_in(v, a, at, '/') {
            Some(k) => Some(model_of(s, v, (a, k), (k + 1, at), Some((at + 1, b)), None)),
            None => None,
        },
        None => None,
    }
}

fn parse_path(s: &str, v: &Vec<char>, a: usize, b: usize) -> (r: Option<RepoSpec>)
    requires
        v@ == s@,
        a <= b <= v.len(),
    ensures
        same_spec(r, path_form(v@.subrange(a as int, b as int))),
{
    let ghost c = v@.subrange(a as int, b as int);
    let k0 = match split_once_in(v, a, b, '/') {
        Some(k) => k,
        None => {
            return None;
        },
    };
    assert(v@.subrange(k0 + 1, b as int) == split_once(c, '/').unwrap().1);
    let k1 = match split_once_in(v, k0 + 1, b, '/') {
        Some(k) => k,
        None => {
            return Some(model_of(s, v, (a, k0), (k0 + 1, b), None, None));
        },
    };
    let k2 = match split_once_in(v, k1 + 1, b, '/') {
        Some(k) => k,
        None => {
            return None;
        },
    };
    let tree = chars_of("tree");
    let blob = chars_of("blob");
    if !(eq_in(v, k1 + 1, k2, &tree) || eq_in(v, k1 + 1, k2, &blob)) {
        return None;
    }
    match split_once_in(v, k2 + 1, b, '/') {
        Some(k3) => Some(
            model_of(s, v, (a, k0), (k0 + 1, k1), Some((k2 + 1, k3)), Some((k3 + 1, b))),
        ),
        None => Some(model_of(s, v, (a, k0), (k0 + 1, k1), Some((k2 + 1, b)), None)),
    }
}

impl RepoSpec {
    /// Parse various formats:
    /// - owner/repo
    /// - github.com/owner/repo
    /// - https://github.com/owner/repo
    /// - owner/repo/tree/branch/path
    /// - owner/repo@branch
    pub fn parse(input: &str) -> (r: Result<RepoSpec, InvalidRepoFormat>)
        ensures
            match (r, parse_repo_spec(input@)) {
                (Ok(spec), Ok(m)) => spec@ == m,
                (Err(e), Err(c)) => e.input@ == c,
                _ => false,
            },
    {
        let v = chars_of(input);
        let (a, b0) = trim_bounds(&v, &Strip::Space, 0, v.len());
        assert(v@.subrange(0, v@.len() as int) == v@);
        let b = trim_end_char_in(&v, a, b0, '/');
        if let Some(spec) = parse_ssh(input, &v, a, b) {
            return Ok(spec);
        }
        let (a2, b2) = url_bounds(&v, a, b);
        if let Some(spec) = parse_ref(input, &v, a2, b2) {
            return Ok(spec);
        }
        match parse_path(input, &v, a2, b2) {
            Some(spec) => Ok(spec),
            None => Err(InvalidRepoFormat { input: substring(input, a2, b2) }),
        }
    }
}

// ---------------------------------------------------------------------------
// The repository tree
// ---------------------------------------------------------------------------

/// One entry of a recursive git tree listing.
#[derive(Debug, Clone)]
pub struct TreeEntry {
    pub path: String,
    /// "blob" or "tree"
    pub entry_type: String,
    pub sha: String,
    pub size: Option<u64>,
    pub mode: String,
}

/// The directory that holds `path`: what precedes its last `/`, or the root
/// (the empty path).
pub open spec fn parent_dir(path: Seq<char>) -> Seq<char> {
    match rfind_char(path, '/') {
        Some(k) => path.take(k),
        None => Seq::empty(),
    }
}

/// Positions below `n`, in increasing order, of the entries whose parent
/// directory is `d`.
pub open spec fn child_positions(entries: Seq<TreeEntry>, d: Seq<char>, n: int) -> Seq<usize>
    decreases n,
{
    if n <= 0 {
        Seq::empty()
    } else if parent_dir(entries[n - 1].path@) == d {
        child_positions(entries, d, n - 1).push((n - 1) as usize)
    } else {
        child_positions(entries, d, n - 1)
    }
}

/// The entries directly inside directory `d`, in listing order.
pub open spec fn dir_listing(entries: Seq<TreeEntry>, d: Seq<char>) -> Seq<TreeEntry> {
    let idx = child_positions(entries, d, entries.len() as int);
    Seq::new(idx.len(), |j: int| entries[idx[j] as int])
}

/// Position of the first entry at or after `i` whose path is `p`.
pub open spec fn entry_position(entries: Seq<TreeEntry>, p: Seq<char>, i: int) -> Option<int>
    decreases entries.len() - i,
{
    if i < 0 || i >= entries.len() {
        None
    } else if entries[i].path@ == p {
        Some(i)
    } else {
        entry_position(entries, p, i + 1)
    }
}

/// `path` names a directory: the root, or a path with an entry of type "tree".
pub open spec fn tree_has_dir(entries: Seq<TreeEntry>, path: Seq<char>) -> bool {
    path.len() == 0 || exists|i: int|
        0 <= i < entries.len() && #[trigger] entries[i].path@ == path && entries[i].entry_type@
            == "tree"@
}

proof fn lemma_child_positions_members(entries: Seq<TreeEntry>, d: Seq<char>, n: int, i: int)
    requires
        0 <= i < n <= entries.len(),
        n <= usize::MAX,
    ensures
        parent_dir(entries[i].path@) == d <==> child_positions(entries, d, n).contains(i as usize),
    decreases n,
{
    lemma_child_positions_bounded(entries, d, n);
    let prev = child_positions(entries, d, n - 1);
    let cur = child_positions(entries, d, n);
    if i < n - 1 {
        lemma_child_positions_members(entries, d, n - 1, i);
        lemma_child_positions_bounded(entries, d, n - 1);
        if parent_dir(entries[n - 1].path@) == d {
            assert(cur == prev.push((n - 1) as usize));
            if prev.contains(i as usize) {
                let k = choose|k: int| 0 <= k < prev.len() && prev[k] == i as usize;
                assert(cur[k] == i as usize);
            }
            if cur.contains(i as usize) {
                let k = choose|k: int| 0 <= k < cur.len() && cur[k] == i as usize;
                if k < prev.len() {
                    assert(prev[k] == i as usize);
                }
            }
        }
    } else {
        if parent_dir(entries[n - 1].path@) == d {
            assert(cur[cur.len() - 1] == i as usize);
        } else {
            lemma_child_positions_bounded(entries, d, n - 1);
            assert(cur == prev);
            assert forall|k: int| 0 <= k < cur.len() implies cur[k] != i as usize by {
                assert(prev[k] < n - 1);
            }
        }
    }
}

/// Every entry of the tree is listed in the directory that holds it.
pub proof fn law_entry_listed_in_parent(entries: Seq<TreeEntry>, i: int)
    requires
        0 <= i < entries.len() <= usize::MAX,
    ensures
        dir_listing(entries, parent_dir(entries[i].path@)).contains(entries[i]),
{
    let d = parent_dir(entries[i].path@);
    let n = entries.len() as int;
    lemma_child_positions_members(entries, d, n, i);
    let idx = child_positions(entries, d, n);
    let k = choose|k: int| 0 <= k < idx.len() && idx[k] == i as usize;
    assert(dir_listing(entries, d)[k] == entries[i]);
}

/// A directory lists only entries that it holds.
pub proof fn law_listing_holds_only_children(entries: Seq<TreeEntry>, d: Seq<char>, j: int)
    requires
        entries.len() <= usize::MAX,
        0 <= j < dir_listing(entries, d).len(),
    ensures
        parent_dir(dir_listing(entries, d)[j].path@) == d,
{
    let n = entries.len() as int;
    let idx = child_positions(entries, d, n);
    lemma_child_positions_bounded(entries, d, n);
    let i = idx[j] as int;
    lemma_child_positions_members(entries, d, n, i);
    assert(idx.contains(i as usize));
}

struct DirChildren {
    dir: String,
    children: Vec<usize>,
}

/// Some record of `dirs` is for directory `d`.
spec fn dir_known(dirs: Seq<DirChildren>, d: Seq<char>) -> bool {
    exists|k: int| 0 <= k < dirs.len() && #[trigger] dirs[k].dir@ == d
}

/// `ix` maps each directory name of `dirs` to the position of its record.
spec fn index_agrees(ix: Map<Seq<char>, usize>, dirs: Seq<DirChildren>) -> bool {
    &&& forall|d: Seq<char>| #[trigger]
        ix.contains_key(d) ==> ix[d] < dirs.len() && dirs[ix[d] as int].dir@ == d
    &&& forall|k: int| 0 <= k < dirs.len() ==> ix.contains_key(#[trigger] dirs[k].dir@)
}

/// Build an in-memory directory tree from flat tree entries.
pub struct RepoTree {
    pub entries: Vec<TreeEntry>,
    /// dir_path -> indices into entries
    dir_children: Vec<DirChildren>,
    /// dir_path -> position in `dir_children`
    dir_index: NameMap,
}

pub proof fn lemma_parent_dir_shorter(path: Seq<char>)
    ensures
        parent_dir(path).len() < path.len() || path.len() == 0,
{
    crate::text::lemma_rfind_before_bounds(path, '/', path.len() as int);
}

pub proof fn lemma_no_children(entries: Seq<TreeEntry>, d: Seq<char>, n: int)
    requires
        n <= entries.len(),
        forall|i: int| 0 <= i < n ==> parent_dir(#[trigger] entries[i].path@) != d,
    ensures
        child_positions(entries, d, n).len() == 0,
    decreases n,
{
    if n > 0 {
        lemma_no_children(entries, d, n - 1);
    }
}

pub proof fn lemma_child_positions_len(entries: Seq<TreeEntry>, d: Seq<char>, n: int)
    requires
        0 <= n,
    ensures
        child_positions(entries, d, n).len() <= n,
    decreases n,
{
    if n > 0 {
        lemma_child_positions_len(entries, d, n - 1);
    }
}

pub proof fn lemma_child_positions_bounded(entries: Seq<TreeEntry>, d: Seq<char>, n: int)
    requires
        n <= entries.len(),
        n <= usize::MAX,
    ensures
        forall|j: int|
            0 <= j < child_positions(entries, d, n).len() ==> #[trigger] child_positions(
                entries,
                d,
                n,
            )[j] < n,
    decreases n,
{
    if n > 0 {
        lemma_child_positions_bounded(entries, d, n - 1);
        let prev = child_positions(entries, d, n - 1);
        let cur = child_positions(entries, d, n);
        if parent_dir(entries[n - 1].path@) == d {
            assert(cur == prev.push((n - 1) as usize));
            assert forall|j: int| 0 <= j < cur.len() implies #[trigger] cur[j] < n by {
                if j < prev.len() {
                    assert(cur[j] == prev[j]);
                }
            }
        }
    }
}

/// The parent directory of an entry's path, as a new string.
fn parent_of(path: &String) -> (r: String)
    ensures
        r@ == parent_dir(path@),
{
    let v = chars_of(path.as_str());
    match rfind_before_exec(&v, '/', v.len()) {
        Some(k) => {
            proof {
                crate::text::lemma_rfind_before_bounds(v@, '/', v.len() as int);
            }
            substring(path.as_str(), 0, k)
        },
        None => String::new(),
    }
}

impl View for RepoTree {
    type V = Seq<TreeEntry>;

    /// The entries, in listing order.
    closed spec fn view(&self) -> Seq<TreeEntry> {
        self.entries@
    }
}

impl RepoTree {
    /// The entries, in listing order.
    pub fn entries(&self) -> (r: &Vec<TreeEntry>)
        ensures
            r@ == self@,
    {
        &self.entries
    }

    /// The directory index agrees with `entries`.
    pub closed spec fn wf(&self) -> bool {
        &&& forall|k: int|
            0 <= k < self.dir_children.len() ==> #[trigger] self.dir_children[k].children@
                == child_positions(
                self.entries@,
                self.dir_children[k].dir@,
                self.entries.len() as int,
            )
        &&& forall|i: int|
            0 <= i < self.entries.len() ==> dir_known(
                self.dir_children@,
                parent_dir(#[trigger] self.entries@[i].path@),
            )
        &&& self.dir_index.wf()
        &&& index_agrees(self.dir_index@, self.dir_children@)
    }

    proof fn lemma_index_push(
        old_ix: Map<Seq<char>, usize>,
        old_dirs: Seq<DirChildren>,
        dirs: Seq<DirChildren>,
    )
        requires
            index_agrees(old_ix, old_dirs),
            dirs.len() == old_dirs.len() + 1,
            old_dirs.len() <= usize::MAX,
            forall|t: int| 0 <= t < old_dirs.len() ==> #[trigger] dirs[t] == old_dirs[t],
            forall|t: int| 0 <= t < old_dirs.len() ==> #[trigger] old_dirs[t].dir@ != dirs[old_dirs.len() as int].dir@,
        ensures
            index_agrees(old_ix.insert(dirs[old_dirs.len() as int].dir@, old_dirs.len() as usize), dirs),
    {
        let name = dirs[old_dirs.len() as int].dir@;
        let ix = old_ix.insert(name, old_dirs.len() as usize);
        assert forall|d: Seq<char>| #[trigger] ix.contains_key(d) implies ix[d] < dirs.len()
            && dirs[ix[d] as int].dir@ == d by {
            if d != name {
                assert(dirs[old_ix[d] as int] == old_dirs[old_ix[d] as int]);
            }
        }
        assert forall|t: int| 0 <= t < dirs.len() implies ix.contains_key(#[trigger] dirs[t].dir@) by {
            if t < old_dirs.len() {
                assert(dirs[t] == old_dirs[t]);
            }
        }
    }

    fn find_dir(dirs: &Vec<DirChildren>, index: &NameMap, d: &str) -> (r: Option<usize>)
        requires
            index.wf(),
            index_agrees(index@, dirs@),
        ensures
            r matches Some(k) ==> k < dirs.len() && dirs[k as int].dir@ == d@,
            r is None ==> forall|k: int| 0 <= k < dirs.len() ==> #[trigger] dirs[k].dir@ != d@,
    {
        let r = index.get(d);
        proof {
            if r is None {
                assert forall|k: int| 0 <= k < dirs.len() implies #[trigger] dirs[k].dir@ != d@ by {
                    assert(index@.contains_key(dirs[k].dir@));
                }
            }
        }
        r
    }

    pub fn new(entries: Vec<TreeEntry>) -> (r: Self)
        ensures
            r.wf(),
            r@ == entries@,
    {
        let mut dirs: Vec<DirChildren> = Vec::new();
        let mut index = NameMap::new();
        // Root children
        dirs.push(DirChildren { dir: String::new(), children: Vec::new() });
        index.set("", 0);
        proof {
            reveal_strlit("");
            assert(dirs[0].dir@ == ""@);
        }
        let n = entries.len();
        let mut i: usize = 0;
        while i < n
            invariant
                n == entries.len(),
                i <= n,
                forall|k: int|
                    0 <= k < dirs.len() ==> #[trigger] dirs[k].children@ == child_positions(
                        entries@,
                        dirs[k].dir@,
                        i as int,
                    ),
                forall|j: int|
                    0 <= j < i ==> dir_known(dirs@, parent_dir(#[trigger] entries@[j].path@)),
                forall|a: int, b: int|
                    0 <= a < b < dirs.len() ==> #[trigger] dirs[a].dir@ != #[trigger] dirs[b].dir@,
                index.wf(),
                index_agrees(index@, dirs@),
            decreases n - i,
        {
            let ghost old_dirs = dirs@;
            let parent = parent_of(&entries[i].path);
            proof {
                assert forall|k: int|
                    0 <= k < dirs.len() && dirs[k].dir@ != parent@ implies child_positions(
                    entries@,
                    #[trigger] dirs[k].dir@,
                    i + 1,
                ) == child_positions(entries@, dirs[k].dir@, i as int) by {}
            }
            match Self::find_dir(&dirs, &index, parent.as_str()) {
                Some(k) => {
                    let mut dc = dirs.remove(k);
                    dc.children.push(i);
                    dirs.insert(k, dc);
                    assert forall|t: int| 0 <= t < dirs.len() implies #[trigger] dirs[t].dir@
                        == old_dirs[t].dir@ by {}
                    assert(index_agrees(index@, dirs@)) by {
                        assert forall|d: Seq<char>| #[trigger] index@.contains_key(d) implies index@[d]
                            < dirs.len() && dirs[index@[d] as int].dir@ == d by {
                            assert(dirs[index@[d] as int].dir@ == old_dirs[index@[d] as int].dir@);
                        }
                        assert forall|t: int| 0 <= t < dirs.len() implies index@.contains_key(
                            #[trigger] dirs[t].dir@,
                        ) by {
                            assert(dirs[t].dir@ == old_dirs[t].dir@);
                        }
                    }
                    assert(dirs[k as int].children@ == child_positions(
                        entries@,
                        dirs[k as int].dir@,
                        i + 1,
                    ));
                    assert forall|t: int| 0 <= t < dirs.len() && t != k implies #[trigger] dirs[t]
                        == old_dirs[t] by {}
                    assert(dirs[k as int].dir@ == parent_dir(entries@[i as int].path@));
                },
                None => {
                    proof {
                        assert forall|j: int| 0 <= j < i implies parent_dir(
                            #[trigger] entries@[j].path@,
                        ) != parent@ by {
                            let k = choose|k: int|
                                0 <= k < dirs.len() && #[trigger] dirs[k].dir@ == parent_dir(
                                    entries@[j].path@,
                                );
                        }
                        lemma_no_children(entries@, parent@, i as int);
                    }
                    let mut ch: Vec<usize> = Vec::new();
                    ch.push(i);
                    assert(ch@ == child_positions(entries@, parent@, i + 1));
                    let ghost old_ix = index@;
                    index.set(parent.as_str(), dirs.len());
                    dirs.push(DirChildren { dir: parent, children: ch });
                    proof {
                        Self::lemma_index_push(old_ix, old_dirs, dirs@);
                    }
                    assert(dirs[dirs.len() - 1].dir@ == parent_dir(entries@[i as int].path@));
                },
            }
            let ghost mid_dirs = dirs@;
            assert(dir_known(dirs@, parent_dir(entries@[i as int].path@)));
            // Ensure directory entries exist for tree types
            if str_eq(entries[i].entry_type.as_str(), "tree") {
                let own = entries[i].path.clone();
                if Self::find_dir(&dirs, &index, own.as_str()).is_none() {
                    proof {
                        lemma_parent_dir_shorter(own@);
                        assert forall|j: int| 0 <= j <= i implies parent_dir(
                            #[trigger] entries@[j].path@,
                        ) != own@ by {
                            if j < i {
                                let k = choose|k: int|
                                    0 <= k < old_dirs.len() && #[trigger] old_dirs[k].dir@
                                        == parent_dir(entries@[j].path@);
                                if k < mid_dirs.len() {
                                    assert(mid_dirs[k].dir@ == old_dirs[k].dir@);
                                }
                            }
                        }
                        lemma_no_children(entries@, own@, i + 1);
                    }
                    let ghost old_ix = index@;
                    let ghost before = dirs@;
                    index.set(own.as_str(), dirs.len());
                    dirs.push(DirChildren { dir: own, children: Vec::new() });
                    proof {
                        Self::lemma_index_push(old_ix, before, dirs@);
                    }
                }
            }
            proof {
                assert forall|j: int| 0 <= j < i + 1 implies dir_known(
                    dirs@,
                    parent_dir(#[trigger] entries@[j].path@),
                ) by {
                    if j < i {
                        let k = choose|k: int|
                            0 <= k < old_dirs.len() && #[trigger] old_dirs[k].dir@ == parent_dir(
                                entries@[j].path@,
                            );
                        assert(dirs[k].dir@ == old_dirs[k].dir@);
                    } else {
                        let k = choose|k: int|
                            0 <= k < mid_dirs.len() && #[trigger] mid_dirs[k].dir@ == parent_dir(
                                entries@[j].path@,
                            );
                        assert(dirs[k].dir@ == mid_dirs[k].dir@);
                    }
                }
            }
            i = i + 1;
        }
        let r = RepoTree { entries, dir_children: dirs, dir_index: index };
        proof {
            assert forall|k: int| 0 <= k < r.dir_children.len() implies #[trigger] r.dir_children[k].children@
                == child_positions(r.entries@, r.dir_children[k].dir@, r.entries.len() as int) by {
                assert(r.dir_children[k] == dirs[k]);
            }
            assert(r.dir_children@ == dirs@);
        }
        r
    }

    /// List children of a directory path (empty string = root).
    pub fn list_dir(&self, dir_path: &str) -> (r: Vec<&TreeEntry>)
        requires
            self.wf(),
        ensures
            r@.len() == dir_listing(self@, dir_path@).len(),
            forall|j: int|
                0 <= j < r@.len() ==> *#[trigger] r@[j] == dir_listing(self@, dir_path@)[j],
    {
        let d = String::from_str(dir_path);
        let mut out: Vec<&TreeEntry> = Vec::new();
        match Self::find_dir(&self.dir_children, &self.dir_index, dir_path) {
            Some(k) => {
                let idx = &self.dir_children[k].children;
                proof {
                    lemma_child_positions_bounded(self.entries@, d@, self.entries.len() as int);
                }
                let mut j: usize = 0;
                while j < idx.len()
                    invariant
                        self.wf(),
                        k < self.dir_children.len(),
                        idx == self.dir_children[k as int].children,
                        idx@ == child_positions(self.entries@, d@, self.entries.len() as int),
                        forall|t: int| 0 <= t < idx@.len() ==> #[trigger] idx@[t] < self.entries.len(),
                        j <= idx.len(),
                        out@.len() == j,
                        forall|t: int|
                            0 <= t < j ==> *#[trigger] out@[t] == self.entries@[idx@[t] as int],
                    decreases idx.len() - j,
                {
                    out.push(&self.entries[idx[j]]);
                    j = j + 1;
                }
            },
            None => {
                proof {
                    assert forall|i: int| 0 <= i < self.entries.len() implies parent_dir(
                        #[trigger] self.entries@[i].path@,
                    ) != d@ by {
                        let k = choose|k: int|
                            0 <= k < self.dir_children.len() && #[trigger] self.dir_children[k].dir@
                                == parent_dir(self.entries@[i].path@);
                    }
                    lemma_no_children(self.entries@, d@, self.entries.len() as int);
                }
            },
        }
        out
    }

    /// Lookup a specific path.
    pub fn lookup(&self, path: &str) -> (r: Option<&TreeEntry>)
        ensures
            match (r, entry_position(self@, path@, 0)) {
                (Some(e), Some(k)) => *e == self@[k],
                (None, None) => true,
                _ => false,
            },
    {
        let p = String::from_str(path);
        let mut i: usize = 0;
        while i < self.entries.len()
            invariant
                p@ == path@,
                i <= self.entries.len(),
                entry_position(self.entries@, path@, 0) == entry_position(
                    self.entries@,
                    path@,
                    i as int,
                ),
            decreases self.entries.len() - i,
        {
            if self.entries[i].path == p {
                return Some(&self.entries[i]);
            }
            i = i + 1;
        }
        None
    }

    /// Check if a path is a directory.
    pub fn is_dir(&self, path: &str) -> (r: bool)
        ensures
            r == tree_has_dir(self@, path@),
    {
        if path.is_empty() {
            // root
            return true;
        }
        let p = String::from_str(path);
        let mut i: usize = 0;
        while i < self.entries.len()
            invariant
                p@ == path@,
                path@.len() > 0,
                i <= self.entries.len(),
                forall|j: int|
                    0 <= j < i ==> !(#[trigger] self.entries@[j].path@ == path@
                        && self.entries@[j].entry_type@ == "tree"@),
            decreases self.entries.len() - i,
        {
            if self.entries[i].path == p && str_eq(self.entries[i].entry_type.as_str(), "tree") {
                return true;
            }
            i = i + 1;
        }
        false
    }
}

// ---------------------------------------------------------------------------
// The GitHub API and the local cache
// ---------------------------------------------------------------------------

pub const API_BASE: &'static str = "https://api.github.com";

/// `<API_BASE>/repos/<owner>/<repo>`.
pub open spec fn repo_api(owner: Seq<char>, repo: Seq<char>) -> Seq<char> {
    API_BASE@ + "/repos/"@ + owner + "/"@ + repo
}

fn repo_api_url(owner: &str, repo: &str) -> (r: String)
    ensures
        r@ == repo_api(owner@, repo@),
{
    let mut u = String::from_str(API_BASE);
    u.append("/repos/");
    u.append(owner);
    u.append("/");
    u.append(repo);
    u
}

fn repo_api_url_with(owner: &str, repo: &str, mid: &str, last: &str) -> (r: String)
    ensures
        r@ == repo_api(owner@, repo@) + mid@ + last@,
{
    let mut u = repo_api_url(owner, repo);
    u.append(mid);
    u.append(last);
    u
}

/// The repository resource, which names its default branch.
pub fn repo_url(owner: &str, repo: &str) -> (r: String)
    ensures
        r@ == repo_api(owner@, repo@),
{
    repo_api_url(owner, repo)
}

/// The branch reference named `git_ref`.
pub fn ref_heads_url(owner: &str, repo: &str, git_ref: &str) -> (r: String)
    ensures
        r@ == repo_api(owner@, repo@) + "/git/ref/heads/"@ + git_ref@,
{
    repo_api_url_with(owner, repo, "/git/ref/heads/", git_ref)
}

/// The tag reference named `git_ref`.
pub fn ref_tags_url(owner: &str, repo: &str, git_ref: &str) -> (r: String)
    ensures
        r@ == repo_api(owner@, repo@) + "/git/ref/tags/"@ + git_ref@,
{
    repo_api_url_with(owner, repo, "/git/ref/tags/", git_ref)
}

/// The commit `sha`, which names its tree.
pub fn commit_url(owner: &str, repo: &str, sha: &str) -> (r: String)
    ensures
        r@ == repo_api(owner@, repo@) + "/git/commits/"@ + sha@,
{
    repo_api_url_with(owner, repo, "/git/commits/", sha)
}

/// The full recursive listing of tree `sha`.
pub fn tree_url(owner: &str, repo: &str, sha: &str) -> (r: String)
    ensures
        r@ == repo_api(owner@, repo@) + "/git/trees/"@ + sha@ + "?recursive=1"@,
{
    let mut u = repo_api_url_with(owner, repo, "/git/trees/", sha);
    u.append("?recursive=1");
    u
}

/// The blob `sha`.
pub fn blob_url(owner: &str, repo: &str, sha: &str) -> (r: String)
    ensures
        r@ == repo_api(owner@, repo@) + "/git/blobs/"@ + sha@,
{
    repo_api_url_with(owner, repo, "/git/blobs/", sha)
}

/// Where the listing of `owner/repo` at `git_ref` is cached:
/// `<cache>/trees/<owner>/<repo>/<git_ref>.json`.
pub open spec fn tree_cache_file(
    cache_dir: Seq<char>,
    owner: Seq<char>,
    repo: Seq<char>,
    git_ref: Seq<char>,
) -> Seq<char> {
    path_join(
        path_join(path_join(path_join(cache_dir, "trees"@), owner), repo),
        git_ref + ".json"@,
    )
}

pub fn tree_cache_path(cache_dir: &str, owner: &str, repo: &str, git_ref: &str) -> (r: String)
    ensures
        r@ == tree_cache_file(cache_dir@, owner@, repo@, git_ref@),
{
    let a = join(cache_dir, "trees");
    let b = join(a.as_str(), owner);
    let c = join(b.as_str(), repo);
    let mut name = String::from_str(git_ref);
    name.append(".json");
    join(c.as_str(), name.as_str())
}

/// Bytes of `sha` that name its cache subdirectory: the first two, or all
/// of a shorter `sha`.
pub open spec fn blob_split(sha: &str) -> int {
    if sha.spec_bytes().len() < 2 {
        sha.spec_bytes().len() as int
    } else {
        2
    }
}

/// Where the content of blob `sha` is cached:
/// `<cache>/blobs/<first two bytes of sha>/<rest of sha>`.
pub open spec fn blob_cache_file(cache_dir: Seq<char>, sha: &str) -> Seq<char> {
    let b = sha.spec_bytes();
    path_join(
        path_join(path_join(cache_dir, "blobs"@), decode_utf8(b.take(blob_split(sha)))),
        decode_utf8(b.skip(blob_split(sha))),
    )
}

pub fn blob_cache_path(cache_dir: &str, sha: &str) -> (r: String)
    requires
        sha.spec_bytes().len() <= usize::MAX,
        is_char_boundary(sha.spec_bytes(), blob_split(sha)),
    ensures
        r@ == blob_cache_file(cache_dir@, sha),
{
    let n = sha.len();
    let m: usize = if n < 2 {
        n
    } else {
        2
    };
    let (prefix, rest) = sha.split_at(m);
    proof {
        vstd::utf8::encode_utf8_decode_utf8(prefix@);
        vstd::utf8::encode_utf8_decode_utf8(rest@);
        assert(sha.spec_bytes().subrange(0, m as int) == sha.spec_bytes().take(m as int));
        assert(sha.spec_bytes().subrange(m as int, sha.spec_bytes().len() as int)
            == sha.spec_bytes().skip(m as int));
    }
    let a = join(cache_dir, "blobs");
    let b = join(a.as_str(), prefix);
    join(b.as_str(), rest)
}

} // verus!
