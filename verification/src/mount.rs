//! Where a repository is mounted, how the tool recognises a live mount, and
//! the decisions of mounting and unmounting.

use vstd::prelude::*;
use crate::github::{
    arg_parses_back, law_repo_arg_parses_back, opt_view, parse_repo_spec, repo_arg_text, RepoSpec,
    RepoSpecModel,
};
use crate::paths::{components, join, path_components, path_join};
use crate::text::{
    after_first_line, chars_of, contains_in, contains_sub, find_from_exec, first_line,
    lemma_find_from_bounds, lemma_line_at, lines,
};

verus! {

broadcast use vstd::string::group_string_axioms;

/// The directory a repository is mounted at: `<base>/<owner>/<repo>`.
pub open spec fn repo_mount_path(base: Seq<char>, spec: RepoSpecModel) -> Seq<char> {
    path_join(path_join(base, spec.owner), spec.repo)
}

pub fn mount_path_for(base: &str, spec: &RepoSpec) -> (r: String)
    ensures
        r@ == repo_mount_path(base@, spec@),
{
    let a = join(base, spec.owner.as_str());
    join(a.as_str(), spec.repo.as_str())
}

/// The directory the shell changes into: the mount point, or the path
/// within it that the identifier names.
pub open spec fn final_mount_path(mount_path: Seq<char>, spec: RepoSpecModel) -> Seq<char> {
    match spec.subpath {
        Some(sub) => path_join(mount_path, sub),
        None => mount_path,
    }
}

pub fn final_path(mount_path: &str, spec: &RepoSpec) -> (r: String)
    ensures
        r@ == final_mount_path(mount_path@, spec@),
{
    match &spec.subpath {
        Some(sub) => join(mount_path, sub.as_str()),
        None => String::from_str(mount_path),
    }
}

/// The argument that names the repository to the mount daemon:
/// `owner/repo`, with `@ref` when the identifier names a ref, so that the
/// daemon serves that ref. It parses back to the same owner, repository and
/// ref for the names of `arg_parses_back`.
pub fn repo_arg(spec: &RepoSpec) -> (r: String)
    ensures
        r@ == repo_arg_text(spec.owner@, spec.repo@, opt_view(spec.git_ref)),
        arg_parses_back(spec.owner@, spec.repo@, opt_view(spec.git_ref)) ==> parse_repo_spec(r@)
            == Ok::<RepoSpecModel, Seq<char>>(
            RepoSpecModel {
                owner: spec.owner@,
                repo: spec.repo@,
                git_ref: opt_view(spec.git_ref),
                subpath: None,
            },
        ),
{
    let mut a = spec.owner.clone();
    a.append("/");
    a.append(spec.repo.as_str());
    match &spec.git_ref {
        Some(g) => {
            a.append("@");
            a.append(g.as_str());
        },
        None => {},
    }
    proof {
        if arg_parses_back(spec.owner@, spec.repo@, opt_view(spec.git_ref)) {
            law_repo_arg_parses_back(spec.owner@, spec.repo@, opt_view(spec.git_ref));
        }
    }
    a
}

/// Some line of `ls` contains `p`.
pub open spec fn some_line_contains(ls: Seq<Seq<char>>, p: Seq<char>) -> bool
    decreases ls.len(),
{
    ls.len() > 0 && (contains_sub(ls[0], p) || some_line_contains(ls.drop_first(), p))
}

/// A mount table (the text of `/proc/mounts`) lists `path`: some line
/// contains it.
pub open spec fn mounts_list(mounts: Seq<char>, path: Seq<char>) -> bool {
    some_line_contains(lines(mounts), path)
}

proof fn lemma_some_line_contains(ls: Seq<Seq<char>>, p: Seq<char>)
    ensures
        some_line_contains(ls, p) <==> exists|k: int| 0 <= k < ls.len() && contains_sub(#[trigger] ls[k], p),
    decreases ls.len(),
{
    if ls.len() > 0 {
        lemma_some_line_contains(ls.drop_first(), p);
        if exists|k: int| 0 <= k < ls.len() && contains_sub(#[trigger] ls[k], p) {
            let k = choose|k: int| 0 <= k < ls.len() && contains_sub(#[trigger] ls[k], p);
            if k > 0 {
                assert(ls.drop_first()[k - 1] == ls[k]);
            }
        }
        if some_line_contains(ls.drop_first(), p) {
            let k = choose|k: int| 0 <= k < ls.drop_first().len() && contains_sub(#[trigger] ls.drop_first()[k], p);
            assert(ls[k + 1] == ls.drop_first()[k]);
        }
    }
}

/// A mount table lists a path exactly when one of its lines contains it,
/// whichever line that is.
pub proof fn law_mount_listed_on_any_line(mounts: Seq<char>, path: Seq<char>)
    ensures
        mounts_list(mounts, path) <==> exists|k: int|
            0 <= k < lines(mounts).len() && contains_sub(#[trigger] lines(mounts)[k], path),
{
    lemma_some_line_contains(lines(mounts), path);
}

pub fn mounts_contain(mounts: &str, path: &str) -> (r: bool)
    ensures
        r == mounts_list(mounts@, path@),
{
    let v = chars_of(mounts);
    let p = chars_of(path);
    let mut pos: usize = 0;
    assert(v@.skip(0) == v@);
    while pos < v.len()
        invariant
            v@ == mounts@,
            p@ == path@,
            pos <= v.len(),
            mounts_list(mounts@, path@) == some_line_contains(lines(v@.skip(pos as int)), path@),
        decreases v.len() - pos,
    {
        let ghost w = v@.skip(pos as int);
        proof {
            lemma_line_at(v@, pos as int);
        }
        let n = match find_from_exec(&v, '\n', pos) {
            Some(k) => k,
            None => v.len(),
        };
        proof {
            lemma_find_from_bounds(v@, '\n', pos as int);
        }
        let le = if n < v.len() && n > pos && v[n - 1] == '\r' {
            n - 1
        } else {
            n
        };
        let next = if n < v.len() {
            n + 1
        } else {
            v.len()
        };
        proof {
            if n >= v.len() {
                assert(v@.skip(next as int) == Seq::<char>::empty());
            }
            let line = v@.subrange(pos as int, le as int);
            assert(first_line(w) == line);
            assert(after_first_line(w) == v@.skip(next as int));
            assert(lines(w) == seq![line].add(lines(v@.skip(next as int))));
            assert(lines(w)[0] == line);
            assert(lines(w).drop_first() == lines(v@.skip(next as int)));
        }
        if contains_in(&v, pos, le, &p) {
            return true;
        }
        pos = next;
    }
    proof {
        assert(v@.skip(pos as int).len() == 0);
    }
    false
}

/// The mount point that an unmount request for `path` names: when `path`
/// lies at least two components below the mount base, the
/// `<base>/<owner>/<repo>` directory it lies in; otherwise, when `path` is
/// relative and names a repository (`owner/repo`, or any form that
/// `RepoSpec::parse` accepts), that repository's mount point; otherwise
/// `path` itself.
pub open spec fn unmount_target(path: Seq<char>, base: Seq<char>) -> Seq<char> {
    let pc = components(path);
    let bc = components(base);
    if bc.len() + 2 <= pc.len() && pc.take(bc.len() as int) == bc {
        path_join(path_join(base, pc[bc.len() as int]), pc[bc.len() + 1int])
    } else if !(path.len() > 0 && path[0] == '/') {
        match parse_repo_spec(path) {
            Ok(m) => repo_mount_path(base, m),
            Err(_) => path,
        }
    } else {
        path
    }
}

/// The target of an unmount request that does not lie below the mount base.
fn target_outside_base(path: &str, base: &str) -> (r: String)
    ensures
        r@ == if !(path@.len() > 0 && path@[0] == '/') {
            match parse_repo_spec(path@) {
                Ok(m) => repo_mount_path(base@, m),
                Err(_) => path@,
            }
        } else {
            path@
        },
{
    if !path.is_empty() && path.get_char(0) == '/' {
        return String::from_str(path);
    }
    match RepoSpec::parse(path) {
        Ok(spec) => mount_path_for(base, &spec),
        Err(_) => String::from_str(path),
    }
}

pub fn mount_point_for(path: &str, base: &str) -> (r: String)
    ensures
        r@ == unmount_target(path@, base@),
{
    let pc = path_components(path);
    let bc = path_components(base);
    if bc.len() > pc.len() || pc.len() - bc.len() < 2 {
        return target_outside_base(path, base);
    }
    let mut i: usize = 0;
    while i < bc.len()
        invariant
            i <= bc.len(),
            bc.len() + 2 <= pc.len(),
            pc@.len() == components(path@).len(),
            bc@.len() == components(base@).len(),
            forall|t: int| 0 <= t < pc@.len() ==> #[trigger] pc@[t]@ == components(path@)[t],
            forall|t: int| 0 <= t < bc@.len() ==> #[trigger] bc@[t]@ == components(base@)[t],
            forall|t: int| 0 <= t < i ==> components(path@)[t] == #[trigger] components(base@)[t],
        decreases bc.len() - i,
    {
        if !(pc[i] == bc[i]) {
            proof {
                let cp = components(path@);
                let cb = components(base@);
                assert(cp.take(cb.len() as int)[i as int] != cb[i as int]);
            }
            return target_outside_base(path, base);
        }
        i = i + 1;
    }
    proof {
        let cp = components(path@);
        let cb = components(base@);
        assert(cp.take(cb.len() as int) == cb);
    }
    let a = join(base, pc[bc.len()].as_str());
    join(a.as_str(), pc[bc.len() + 1].as_str())
}

/// A name that is one path component: not empty, not `.`, without `/`.
pub open spec fn component_name(s: Seq<char>) -> bool {
    s.len() > 0 && s != "."@ && forall|i: int| 0 <= i < s.len() ==> s[i] != '/'
}

/// Leaving a mounted repository from anywhere inside it unmounts that
/// repository: the unmount target of the directory the shell was sent to,
/// or of any path under the mount point, is the mount point, for owner and
/// repository names that are single path components and a relative
/// subpath.
pub proof fn law_unmount_inside_mount(base: Seq<char>, spec: RepoSpecModel, below: Seq<char>)
    requires
        component_name(spec.owner),
        component_name(spec.repo),
        spec.subpath matches Some(sub) ==> !(sub.len() > 0 && sub[0] == '/'),
        !(below.len() > 0 && below[0] == '/'),
    ensures
        unmount_target(final_mount_path(repo_mount_path(base, spec), spec), base)
            == repo_mount_path(base, spec),
        unmount_target(path_join(repo_mount_path(base, spec), below), base) == repo_mount_path(
            base,
            spec,
        ),
{
    let m1 = path_join(base, spec.owner);
    let m2 = path_join(m1, spec.repo);
    reveal_strlit(".");
    if spec.owner.len() >= 2 {
        assert(spec.owner[1] != '/');
    }
    crate::paths::lemma_components_join(base, spec.owner);
    crate::paths::lemma_segments_name(spec.owner);
    assert(m1.len() > 0);
    crate::paths::lemma_components_join(m1, spec.repo);
    crate::paths::lemma_segments_name(spec.repo);
    assert(m2.len() > 0);
    let bc = components(base);
    assert(components(m2) == bc + seq![spec.owner] + seq![spec.repo]);
    assert(components(m2).take(bc.len() as int) == bc);
    let f = final_mount_path(m2, spec);
    match spec.subpath {
        Some(sub) => {
            crate::paths::lemma_components_join(m2, sub);
            assert(components(f).take(bc.len() as int) == bc);
            assert(components(f)[bc.len() as int] == spec.owner);
            assert(components(f)[bc.len() + 1int] == spec.repo);
        },
        None => {},
    }
    let g = path_join(m2, below);
    crate::paths::lemma_components_join(m2, below);
    assert(components(g).take(bc.len() as int) == bc);
    assert(components(g)[bc.len() as int] == spec.owner);
    assert(components(g)[bc.len() + 1int] == spec.repo);
}

/// What mounting does about an existing mount at the mount point.
#[derive(Debug, Clone, Copy, PartialEq, Eq, Structural)]
pub enum MountPlan {
    /// A live mount is there: use it.
    ReuseLive,
    /// A dead mount is there: detach it, remove the mount point, then mount.
    CleanStaleThenMount,
    /// Nothing is mounted there: mount.
    Mount,
}

pub fn plan_mount(mounted: bool, alive: bool) -> (r: MountPlan)
    ensures
        r == if !mounted {
            MountPlan::Mount
        } else if alive {
            MountPlan::ReuseLive
        } else {
            MountPlan::CleanStaleThenMount
        },
{
    if mounted {
        if alive {
            MountPlan::ReuseLive
        } else {
            MountPlan::CleanStaleThenMount
        }
    } else {
        MountPlan::Mount
    }
}

/// How many times the mount table is checked for a new mount.
pub const MOUNT_WAIT_CHECKS: u32 = 200;

/// Milliseconds between two checks.
pub const MOUNT_WAIT_INTERVAL_MS: u64 = 10;

/// The next step of waiting for a new mount.
#[derive(Debug, Clone, Copy, PartialEq, Eq, Structural)]
pub enum WaitStep {
    /// The mount is there.
    Mounted,
    /// Sleep, then check again.
    Retry,
    /// Sleep, then give up.
    TimedOut,
}

/// The step after check number `check` (counting from 0) saw `mounted`.
pub open spec fn next_wait(check: int, mounted: bool) -> WaitStep {
    if mounted {
        WaitStep::Mounted
    } else if check + 1 < MOUNT_WAIT_CHECKS {
        WaitStep::Retry
    } else {
        WaitStep::TimedOut
    }
}

/// Where polling that starts at check `c` ends, when check `i` sees
/// `seen[i]`: the final step and the number of checks made by then.
pub open spec fn poll_outcome(seen: Seq<bool>, c: int) -> (WaitStep, int)
    decreases MOUNT_WAIT_CHECKS - c,
{
    if c < 0 || c >= seen.len() || c >= MOUNT_WAIT_CHECKS {
        (WaitStep::TimedOut, c)
    } else {
        match next_wait(c, seen[c]) {
            WaitStep::Retry => poll_outcome(seen, c + 1),
            s => (s, c + 1),
        }
    }
}

proof fn lemma_poll_outcome(seen: Seq<bool>, c: int)
    requires
        0 <= c <= MOUNT_WAIT_CHECKS,
        seen.len() >= MOUNT_WAIT_CHECKS,
    ensures
        forall|k: int|
            c <= k < MOUNT_WAIT_CHECKS && #[trigger] seen[k] && (forall|j: int|
                c <= j < k ==> !seen[j]) ==> poll_outcome(seen, c) == (WaitStep::Mounted, k + 1),
        (forall|j: int| c <= j < MOUNT_WAIT_CHECKS ==> !#[trigger] seen[j]) ==> poll_outcome(seen, c)
            == (WaitStep::TimedOut, MOUNT_WAIT_CHECKS as int),
    decreases MOUNT_WAIT_CHECKS - c,
{
    if c < MOUNT_WAIT_CHECKS {
        lemma_poll_outcome(seen, c + 1);
        assert forall|k: int|
            c <= k < MOUNT_WAIT_CHECKS && #[trigger] seen[k] && (forall|j: int|
                c <= j < k ==> !seen[j]) implies poll_outcome(seen, c) == (WaitStep::Mounted, k + 1) by {
            if k > c {
                assert(!seen[c]);
                assert(forall|j: int| c + 1 <= j < k ==> !seen[j]);
            }
        }
        if forall|j: int| c <= j < MOUNT_WAIT_CHECKS ==> !#[trigger] seen[j] {
            assert(!seen[c]);
        }
    }
}

/// Waiting for a new mount stops at the first check that sees it, after
/// that many checks; when none of `MOUNT_WAIT_CHECKS` checks sees it, it
/// gives up after exactly that many.
pub proof fn law_wait_stops_at_first_sighting(seen: Seq<bool>)
    requires
        seen.len() >= MOUNT_WAIT_CHECKS,
    ensures
        forall|k: int|
            0 <= k < MOUNT_WAIT_CHECKS && #[trigger] seen[k] && (forall|j: int|
                0 <= j < k ==> !seen[j]) ==> poll_outcome(seen, 0) == (WaitStep::Mounted, k + 1),
        (forall|j: int| 0 <= j < MOUNT_WAIT_CHECKS ==> !#[trigger] seen[j]) ==> poll_outcome(seen, 0)
            == (WaitStep::TimedOut, MOUNT_WAIT_CHECKS as int),
{
    lemma_poll_outcome(seen, 0);
}

/// The step after check number `check` (counting from 0) saw `mounted`.
pub fn wait_step(check: u32, mounted: bool) -> (r: WaitStep)
    ensures
        r == next_wait(check as int, mounted),
{
    if mounted {
        WaitStep::Mounted
    } else if check < MOUNT_WAIT_CHECKS - 1 {
        WaitStep::Retry
    } else {
        WaitStep::TimedOut
    }
}

} // verus!
