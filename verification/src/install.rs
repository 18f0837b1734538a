//! Installing and removing the hook block in shell startup files, and the
//! directories the tool keeps its mounts and cache in.

use vstd::prelude::*;
use crate::paths::{join, path_join};
use crate::shell::{
    is_supported_shell, shell_block, shell_block_text, SHELL_MARKER_BEGIN, SHELL_MARKER_END,
};
use crate::text::{
    chars_of, contains_sub, find_sub, find_sub_from_exec, lemma_find_sub_absent_first,
    lemma_find_sub_at_start, lemma_find_sub_concat, lemma_find_sub_from_bounds,
    lemma_no_straddle_newline, occurs_at, substring,
};

verus! {

broadcast use vstd::string::group_string_axioms;

/// The fish `cd` function that supports repository links.
pub const FISH_CD_FUNCTION: &'static str = r#"# cdrepo: Override cd to support GitHub repo URLs
function cd --description 'Change directory (with cdrepo GitHub support)'
    if test (count $argv) -eq 0
        builtin cd
        return $status
    end

    set -l target $argv[1]

    # If inside a cdrepo mount and going up, return to origin instead of mount parent
    if string match -q "$HOME/.cdrepo/mnt/*" "$PWD"
        if test "$target" = ".." -o "$target" = "../"
            set -l mnt_base "$HOME/.cdrepo/mnt"
            set -l rel (string replace "$mnt_base/" "" "$PWD")
            set -l parts (string split "/" "$rel")
            if test (count $parts) -le 2
                if set -q __cdrepo_origin; and test -d "$__cdrepo_origin"
                    builtin cd "$__cdrepo_origin"
                else
                    builtin cd "$HOME"
                end
                return $status
            end
        end

        if test "$target" = "-"
            if set -q __cdrepo_origin; and test -d "$__cdrepo_origin"
                builtin cd "$__cdrepo_origin"
                return $status
            end
        end
    end

    set -l is_repo 0

    if test -e "$target"; or test "$target" = "-"; or string match -q '~*' "$target"; or string match -q '/*' "$target"; or string match -q '.*' "$target"
        set is_repo 0
    else if string match -rq '^https?://github\.com/[a-zA-Z0-9._-]+/[a-zA-Z0-9._-]+' "$target"
        set is_repo 1
    else if string match -rq '^github\.com/[a-zA-Z0-9._-]+/[a-zA-Z0-9._-]+' "$target"
        set is_repo 1
    else if string match -rq '^git@github\.com:[a-zA-Z0-9._-]+/[a-zA-Z0-9._-]+' "$target"
        set is_repo 1
    else if string match -rq '^[a-zA-Z0-9._-]+/[a-zA-Z0-9._-]+$' "$target"
        set is_repo 1
    end

    if test $is_repo -eq 1
        set -g __cdrepo_origin "$PWD"
        set -l mount_path (command cdrepo mount "$target" 2>/dev/null)
        set -l rc $status
        if test $rc -eq 0; and test -d "$mount_path"
            builtin cd "$mount_path"
            return $status
        else
            echo "cdrepo: failed to mount $target" >&2
            set -e __cdrepo_origin
            return $rc
        end
    else
        builtin cd $argv
        return $status
    end
end
"#;

// ---------------------------------------------------------------------------
// Directories
// ---------------------------------------------------------------------------

/// Where repositories are mounted: `<home>/.cdrepo/mnt`, with `/tmp` for a
/// missing home directory.
pub open spec fn mount_base(home: Option<Seq<char>>) -> Seq<char> {
    let h = match home {
        Some(h) => h,
        None => "/tmp"@,
    };
    path_join(path_join(h, ".cdrepo"@), "mnt"@)
}

pub fn mount_base_dir_in(home: Option<&str>) -> (r: String)
    ensures
        r@ == mount_base(
            match home {
                Some(h) => Some(h@),
                None => None,
            },
        ),
{
    let h = match home {
        Some(h) => h,
        None => "/tmp",
    };
    let a = join(h, ".cdrepo");
    join(a.as_str(), "mnt")
}

/// Where fetched trees and blobs are kept: `<cache>/cdrepo`, with `/tmp`
/// for a missing cache directory.
pub open spec fn cache_root(cache: Option<Seq<char>>) -> Seq<char> {
    let c = match cache {
        Some(c) => c,
        None => "/tmp"@,
    };
    path_join(c, "cdrepo"@)
}

pub fn cache_dir_in(cache: Option<&str>) -> (r: String)
    ensures
        r@ == cache_root(
            match cache {
                Some(c) => Some(c@),
                None => None,
            },
        ),
{
    let c = match cache {
        Some(c) => c,
        None => "/tmp",
    };
    join(c, "cdrepo")
}

/// `dirs::home_dir`, as text. Its value comes from the environment (`$HOME`,
/// else the password database); all that is stated of it is that the crate
/// drops an empty value, so a directory it gives is not empty.
#[verifier::external_body]
fn home_dir_text() -> (r: Option<String>)
    ensures
        r matches Some(h) ==> h@.len() > 0,
{
    match dirs::home_dir() {
        Some(p) => Some(p.to_string_lossy().into_owned()),
        None => None,
    }
}

/// `dirs::cache_dir`, as text. Its value comes from the environment
/// (`$XDG_CACHE_HOME` when it is absolute, else `.cache` in the home
/// directory); all that is stated of it is that it is not empty.
#[verifier::external_body]
fn cache_dir_text() -> (r: Option<String>)
    ensures
        r matches Some(c) ==> c@.len() > 0,
{
    match dirs::cache_dir() {
        Some(p) => Some(p.to_string_lossy().into_owned()),
        None => None,
    }
}

/// Where repositories are mounted, for the user's home directory.
pub fn mount_base_dir() -> (r: String)
    ensures
        exists|home: Option<Seq<char>>|
            (home is None || home->0.len() > 0) && r@ == #[trigger] mount_base(home),
{
    let home = home_dir_text();
    let r = match &home {
        Some(h) => mount_base_dir_in(Some(h.as_str())),
        None => mount_base_dir_in(None),
    };
    assert(r@ == mount_base(match home {
        Some(h) => Some(h@),
        None => None,
    }));
    r
}

/// Where fetched trees and blobs are kept, for the user's cache directory.
pub fn cache_dir() -> (r: String)
    ensures
        exists|cache: Option<Seq<char>>|
            (cache is None || cache->0.len() > 0) && r@ == #[trigger] cache_root(cache),
{
    let cache = cache_dir_text();
    let r = match &cache {
        Some(c) => cache_dir_in(Some(c.as_str())),
        None => cache_dir_in(None),
    };
    assert(r@ == cache_root(match cache {
        Some(c) => Some(c@),
        None => None,
    }));
    r
}

// ---------------------------------------------------------------------------
// Startup files
// ---------------------------------------------------------------------------

/// The fish configuration that puts the tool on the `PATH`.
pub open spec fn fish_conf_text() -> Seq<char> {
    SHELL_MARKER_BEGIN@ + "\nif test -d \"$HOME/.cdrepo/bin\"\n    fish_add_path \"$HOME/.cdrepo/bin\"\nend\n"@
        + SHELL_MARKER_END@ + "\n"@
}

pub fn fish_conf_content() -> (r: String)
    ensures
        r@ == fish_conf_text(),
{
    let mut c = String::from_str(SHELL_MARKER_BEGIN);
    c.append("\nif test -d \"$HOME/.cdrepo/bin\"\n    fish_add_path \"$HOME/.cdrepo/bin\"\nend\n");
    c.append(SHELL_MARKER_END);
    c.append("\n");
    c
}

/// What goes between existing text without a hook block and an appended
/// block: a line break when the text does not end with one, then a blank
/// line.
pub open spec fn rc_appended(existing: Seq<char>) -> Seq<char> {
    if existing.len() > 0 && existing.last() == '\n' {
        existing + "\n"@
    } else {
        existing + "\n"@ + "\n"@
    }
}

/// A startup file's text after installing the hook of `shell`: the text
/// from the first begin marker to the end of the first end marker is
/// replaced by the block (all that follows the begin marker when there is no
/// end marker); without a begin marker, the block is appended after a blank
/// line.
pub open spec fn updated_rc(existing: Seq<char>, shell: Seq<char>) -> Seq<char> {
    let b = shell_block_text(shell);
    match find_sub(existing, SHELL_MARKER_BEGIN@) {
        Some(start) => {
            let re_end = match find_sub(existing, SHELL_MARKER_END@) {
                Some(i) => i + SHELL_MARKER_END@.len(),
                None => existing.len() as int,
            };
            existing.take(start) + b + if re_end < existing.len() {
                existing.skip(re_end)
            } else {
                Seq::empty()
            }
        },
        None => rc_appended(existing) + b,
    }
}

/// A startup file's text after removing the hook: none when it has no begin
/// marker; otherwise the text before the first begin marker followed by what
/// comes after the first end marker and the character after it.
pub open spec fn rc_without_hook(content: Seq<char>) -> Option<Seq<char>> {
    match find_sub(content, SHELL_MARKER_BEGIN@) {
        Some(start) => {
            let end = match find_sub(content, SHELL_MARKER_END@) {
                Some(i) => i + SHELL_MARKER_END@.len() + 1,
                None => content.len() as int,
            };
            Some(
                content.take(start) + if end < content.len() {
                    content.skip(end)
                } else {
                    Seq::empty()
                },
            )
        },
        None => None,
    }
}

/// Removing the hook cuts the text at a character boundary: a character
/// that follows the first end marker is a single byte.
pub open spec fn removal_cuts_cleanly(content: Seq<char>) -> bool {
    match find_sub(content, SHELL_MARKER_END@) {
        Some(i) => i + SHELL_MARKER_END@.len() < content.len() ==> (content[i
            + SHELL_MARKER_END@.len()] as u32) < 128,
        None => true,
    }
}

/// A startup file's new text, and whether a hook block was replaced.
pub struct RcUpdate {
    pub content: String,
    pub replaced: bool,
}

pub fn updated_rc_content(existing: &str, shell: &str) -> (r: RcUpdate)
    ensures
        r.content@ == updated_rc(existing@, shell@),
        r.replaced == contains_sub(existing@, SHELL_MARKER_BEGIN@),
{
    let v = chars_of(existing);
    let begin = chars_of(SHELL_MARKER_BEGIN);
    let end = chars_of(SHELL_MARKER_END);
    let block = shell_block(shell);
    match find_sub_from_exec(&v, &begin, 0) {
        Some(start) => {
            proof {
                lemma_find_sub_from_bounds(v@, begin@, 0);
                crate::text::lemma_find_sub_from_bounds(v@, end@, 0);
            }
            let re_end = match find_sub_from_exec(&v, &end, 0) {
                Some(i) => {
                    assert(occurs_at(v@, end@, i as int));
                    assert(i + end@.len() <= v@.len());
                    assert(i + end.len() <= v.len());
                    i + end.len()
                },
                None => v.len(),
            };
            let mut out = substring(existing, 0, start);
            out.append(block.as_str());
            if re_end < v.len() {
                let rest = substring(existing, re_end, v.len());
                out.append(rest.as_str());
            }
            proof {
                assert(v@.subrange(0, start as int) == v@.take(start as int));
                assert(v@.subrange(re_end as int, v.len() as int) == v@.skip(re_end as int));
                if re_end >= v.len() {
                    assert(out@ == v@.take(start as int) + block@ + Seq::<char>::empty());
                }
            }
            RcUpdate { content: out, replaced: true }
        },
        None => {
            let mut out = String::from_str(existing);
            if !(v.len() > 0 && v[v.len() - 1] == '\n') {
                out.append("\n");
            }
            out.append("\n");
            out.append(block.as_str());
            RcUpdate { content: out, replaced: false }
        },
    }
}

/// Whether removing the hook from `content` cuts at a character boundary.
pub fn removal_is_clean(content: &str) -> (r: bool)
    ensures
        r == removal_cuts_cleanly(content@),
{
    let v = chars_of(content);
    let end = chars_of(SHELL_MARKER_END);
    match find_sub_from_exec(&v, &end, 0) {
        Some(i) => {
            proof {
                lemma_find_sub_from_bounds(v@, end@, 0);
            }
            assert(occurs_at(v@, end@, i as int));
            assert(i + end@.len() <= v@.len());
            assert(i + end.len() <= v.len());
            let k = i + end.len();
            !(k < v.len()) || (v[k] as u32) < 128
        },
        None => true,
    }
}

pub fn rc_content_without_hook(content: &str) -> (r: Option<String>)
    requires
        contains_sub(content@, SHELL_MARKER_BEGIN@) ==> removal_cuts_cleanly(content@),
    ensures
        match (r, rc_without_hook(content@)) {
            (Some(s), Some(t)) => s@ == t,
            (None, None) => true,
            _ => false,
        },
{
    let v = chars_of(content);
    let begin = chars_of(SHELL_MARKER_BEGIN);
    let end = chars_of(SHELL_MARKER_END);
    match find_sub_from_exec(&v, &begin, 0) {
        Some(start) => {
            proof {
                lemma_find_sub_from_bounds(v@, begin@, 0);
                lemma_find_sub_from_bounds(v@, end@, 0);
            }
            // `stop` is one past the character after the end marker.
            let (stop, has_rest) = match find_sub_from_exec(&v, &end, 0) {
                Some(i) => {
                    assert(occurs_at(v@, end@, i as int));
                    assert(i + end@.len() <= v@.len());
                    assert(i + end.len() <= v.len());
                    let k = i + end.len();
                    if k < v.len() {
                        (k + 1, k + 1 < v.len())
                    } else {
                        (v.len(), false)
                    }
                },
                None => (v.len(), false),
            };
            let mut out = substring(content, 0, start);
            if has_rest {
                let rest = substring(content, stop, v.len());
                out.append(rest.as_str());
            }
            proof {
                assert(v@.subrange(0, start as int) == v@.take(start as int));
                if has_rest {
                    assert(v@.subrange(stop as int, v.len() as int) == v@.skip(stop as int));
                } else {
                    assert(out@ == v@.take(start as int) + Seq::<char>::empty());
                }
            }
            Some(out)
        },
        None => None,
    }
}

// ---------------------------------------------------------------------------
// Laws
// ---------------------------------------------------------------------------

proof fn lemma_marker_facts()
    ensures
        SHELL_MARKER_BEGIN@.len() == 16,
        SHELL_MARKER_END@.len() == 16,
        SHELL_MARKER_BEGIN@[0] == '#',
        SHELL_MARKER_END@[0] == '#',
        forall|j: int| 0 <= j < 16 ==> SHELL_MARKER_BEGIN@[j] != '\n',
        forall|j: int| 0 <= j < 16 ==> SHELL_MARKER_END@[j] != '\n',
        SHELL_MARKER_BEGIN@ != SHELL_MARKER_END@,
        "\n"@ == seq!['\n'],
{
    reveal_strlit("# >>> cdrepo >>>");
    reveal_strlit("# <<< cdrepo <<<");
    reveal_strlit("\n");
    assert(SHELL_MARKER_BEGIN@[2] != SHELL_MARKER_END@[2]);
}

/// The line between the markers of a hook block.
spec fn block_middle(shell: Seq<char>) -> Seq<char> {
    "\neval \"$(cdrepo init "@ + shell + ")\"\n"@
}

proof fn lemma_block_middle(shell: Seq<char>)
    requires
        is_supported_shell(shell),
    ensures
        block_middle(shell).len() > 0,
        block_middle(shell)[0] == '\n',
        block_middle(shell).last() == '\n',
        forall|j: int| 0 <= j < block_middle(shell).len() ==> block_middle(shell)[j] != '#',
{
    reveal_strlit("\neval \"$(cdrepo init ");
    reveal_strlit(")\"\n");
    reveal_strlit("bash");
    reveal_strlit("zsh");
    reveal_strlit("fish");
    let m1 = "\neval \"$(cdrepo init "@;
    let m2 = ")\"\n"@;
    assert(forall|j: int| 0 <= j < m1.len() ==> m1[j] != '#');
    assert(forall|j: int| 0 <= j < m2.len() ==> m2[j] != '#');
    assert(forall|j: int| 0 <= j < shell.len() ==> shell[j] != '#');
}

/// Where the markers of a hook block are.
proof fn lemma_block_search(shell: Seq<char>)
    requires
        is_supported_shell(shell),
    ensures
        shell_block_text(shell).len() >= 17,
        shell_block_text(shell).last() == '\n',
        find_sub(shell_block_text(shell), SHELL_MARKER_BEGIN@) == Some(0int),
        find_sub(shell_block_text(shell), SHELL_MARKER_END@) == Some(
            shell_block_text(shell).len() - 17,
        ),
{
    lemma_marker_facts();
    lemma_block_middle(shell);
    let b = SHELL_MARKER_BEGIN@;
    let e = SHELL_MARKER_END@;
    let mid = block_middle(shell);
    let tail = e + "\n"@;
    let blk = shell_block_text(shell);
    assert(blk == b + (mid + tail));
    lemma_find_sub_at_start(b, mid + tail);
    // the end marker: not in the begin marker, not in the middle line
    lemma_no_straddle_newline(b, mid + tail, e);
    lemma_find_sub_concat(b, mid + tail, e);
    assert(!occurs_at(b, e, 0)) by {
        assert(b.subrange(0, 16) == b);
    }
    assert(crate::text::find_sub_from(b, e, 1) is None);
    assert(find_sub(b, e) is None);
    lemma_no_straddle_newline(mid, tail, e);
    lemma_find_sub_concat(mid, tail, e);
    lemma_find_sub_absent_first(mid, e, 0);
    lemma_find_sub_at_start(e, "\n"@);
}

/// Text without hook markers, with what installing puts after it.
proof fn lemma_appended_search(existing: Seq<char>, shell: Seq<char>, p: Seq<char>)
    requires
        is_supported_shell(shell),
        p == SHELL_MARKER_BEGIN@ || p == SHELL_MARKER_END@,
        !contains_sub(existing, p),
    ensures
        find_sub(rc_appended(existing) + shell_block_text(shell), p) == (match find_sub(
            shell_block_text(shell),
            p,
        ) {
            Some(k) => Some(k + rc_appended(existing).len()),
            None => None,
        }),
        rc_appended(existing).len() > 0,
        rc_appended(existing).last() == '\n',
{
    lemma_marker_facts();
    let nl = "\n"@;
    let tail = if existing.len() > 0 && existing.last() == '\n' {
        nl
    } else {
        nl + nl
    };
    let a = rc_appended(existing);
    assert(a == existing + tail);
    assert(tail[0] == '\n');
    assert(forall|j: int| 0 <= j < tail.len() ==> tail[j] == '\n');
    lemma_no_straddle_newline(existing, tail, p);
    lemma_find_sub_concat(existing, tail, p);
    lemma_find_sub_absent_first(tail, p, 0);
    assert(a.last() == '\n');
    lemma_no_straddle_newline(a, shell_block_text(shell), p);
    lemma_find_sub_concat(a, shell_block_text(shell), p);
}

/// Removing the hook keeps all the text around the block: for a text
/// `pre` without hook markers, whatever follows the block, the hook block
/// of a supported shell is cut out with its line break and nothing else,
/// and the cut is clean.
pub proof fn law_uninstall_keeps_surrounding_text(pre: Seq<char>, shell: Seq<char>, post: Seq<char>)
    requires
        is_supported_shell(shell),
        !contains_sub(pre, SHELL_MARKER_BEGIN@),
        !contains_sub(pre, SHELL_MARKER_END@),
    ensures
        rc_without_hook(pre + shell_block_text(shell) + post) == Some(pre + post),
        removal_cuts_cleanly(pre + shell_block_text(shell) + post),
{
    lemma_marker_facts();
    lemma_block_search(shell);
    let blk = shell_block_text(shell);
    let c = pre + blk + post;
    let b = SHELL_MARKER_BEGIN@;
    let e = SHELL_MARKER_END@;
    assert(blk.len() > 0 && blk[0] == '#') by {
        lemma_find_sub_from_bounds(blk, b, 0);
        assert(blk.subrange(0, 16)[0] == b[0]);
    }
    assert forall|j: int| 0 < j < b.len() implies #[trigger] b[j] != b[0] by {
        reveal_strlit("# >>> cdrepo >>>");
    }
    assert forall|j: int| 0 < j < e.len() implies #[trigger] e[j] != e[0] by {
        reveal_strlit("# <<< cdrepo <<<");
    }
    crate::text::lemma_no_straddle_lead(pre, blk, b);
    crate::text::lemma_no_straddle_lead(pre, blk, e);
    lemma_find_sub_concat(pre, blk, b);
    lemma_find_sub_concat(pre, blk, e);
    lemma_no_straddle_newline(pre + blk, post, b);
    lemma_no_straddle_newline(pre + blk, post, e);
    lemma_find_sub_concat(pre + blk, post, b);
    lemma_find_sub_concat(pre + blk, post, e);
    assert(find_sub(c, b) == Some(pre.len() as int));
    assert(find_sub(c, e) == Some(pre.len() + blk.len() - 17));
    assert(c[pre.len() + blk.len() - 1] == '\n');
    assert(c.take(pre.len() as int) == pre);
    if pre.len() + blk.len() < c.len() {
        assert(c.skip((pre.len() + blk.len()) as int) == post);
    } else {
        assert(post.len() == 0);
        assert(pre + Seq::<char>::empty() == pre + post);
    }
}

/// Removing the hook from a startup file into which it was installed, when
/// the file held no hook markers before, gives back the file's text followed
/// by the line breaks that installing added before the block; the removal
/// cuts cleanly.
pub proof fn law_uninstall_after_install(existing: Seq<char>, shell: Seq<char>)
    requires
        is_supported_shell(shell),
        !contains_sub(existing, SHELL_MARKER_BEGIN@),
        !contains_sub(existing, SHELL_MARKER_END@),
    ensures
        removal_cuts_cleanly(updated_rc(existing, shell)),
        rc_without_hook(updated_rc(existing, shell)) == Some(rc_appended(existing)),
{
    lemma_marker_facts();
    lemma_block_search(shell);
    lemma_appended_search(existing, shell, SHELL_MARKER_BEGIN@);
    lemma_appended_search(existing, shell, SHELL_MARKER_END@);
    let a = rc_appended(existing);
    let blk = shell_block_text(shell);
    let c = a + blk;
    assert(updated_rc(existing, shell) == c);
    assert(c.take(a.len() as int) == a);
    assert(c[c.len() - 1] == '\n');
    assert(a + Seq::<char>::empty() == a);
}

/// Installing the hook again replaces the block in place; the line break
/// that followed the old block's end marker stays after the new block, so
/// the text grows by one line break.
pub proof fn law_reinstall_replaces_block(existing: Seq<char>, shell: Seq<char>)
    requires
        is_supported_shell(shell),
        !contains_sub(existing, SHELL_MARKER_BEGIN@),
        !contains_sub(existing, SHELL_MARKER_END@),
    ensures
        updated_rc(updated_rc(existing, shell), shell) == updated_rc(existing, shell) + "\n"@,
{
    lemma_marker_facts();
    lemma_block_search(shell);
    lemma_appended_search(existing, shell, SHELL_MARKER_BEGIN@);
    lemma_appended_search(existing, shell, SHELL_MARKER_END@);
    let a = rc_appended(existing);
    let blk = shell_block_text(shell);
    let c = a + blk;
    assert(updated_rc(existing, shell) == c);
    assert(c.take(a.len() as int) == a);
    assert(c.skip(c.len() - 1) == "\n"@);
}

} // verus!
