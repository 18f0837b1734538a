//! Shell integration: the hook code for bash, zsh and fish, which shells a
//! user has, where their startup files are, and the block that loads the
//! hook from them.

use vstd::prelude::*;
use crate::paths::{join, path_join};
use crate::text::{
    after_last, chars_of, contains_sub, lemma_lines_cons, lemma_piece_contained, lines, lemma_subrange_piece,
    rfind_before_exec, str_eq, substring, trim, trim_bounds, Strip,
};

verus! {

broadcast use vstd::string::group_string_axioms;

/// Hook code for bash.
pub const BASH_HOOK: &'static str = r#"
# cdrepo shell integration (bash)
# Intercepts cd to detect GitHub repo links and mount them via FUSE.

__cdrepo_cd() {
    if [ $# -eq 0 ]; then
        builtin cd
        return
    fi

    local target="$1"
    local mnt_base="$HOME/.cdrepo/mnt"

    # Inside a cdrepo mount: `cd ..` at the repo root returns to the
    # directory the repo was entered from.
    if [[ "$PWD" == "$mnt_base/"* ]]; then
        if [ "$target" = ".." ] || [ "$target" = "../" ]; then
            local rel="${PWD#$mnt_base/}"
            if [[ "$rel" != */*/* ]]; then
                if [ -n "$__cdrepo_origin" ] && [ -d "$__cdrepo_origin" ]; then
                    builtin cd "$__cdrepo_origin"
                else
                    builtin cd "$HOME"
                fi
                return
            fi
        fi
    fi

    shift

    if __cdrepo_is_repo "$target"; then
        __cdrepo_origin="$PWD"
        local mount_path
        mount_path="$(cdrepo mount "$target" 2>/dev/null)"
        local rc=$?
        if [ $rc -eq 0 ] && [ -d "$mount_path" ]; then
            builtin cd "$mount_path" "$@"
        else
            echo "cdrepo: $mount_path" >&2
            unset __cdrepo_origin
            return $rc
        fi
    else
        builtin cd "$target" "$@"
    fi
}

__cdrepo_is_repo() {
    local target="$1"

    # Skip if it's an existing local path, or standard cd targets
    if [ -e "$target" ] || [ "$target" = "-" ] || [ "$target" = "~" ] || [[ "$target" == ~* ]] || [[ "$target" == /* ]] || [[ "$target" == .* ]]; then
        return 1
    fi

    # Match GitHub URLs, SSH format and bare owner/repo
    # https://github.com/owner/repo
    # http://github.com/owner/repo
    # github.com/owner/repo
    # git@github.com:owner/repo.git
    # owner/repo
    if [[ "$target" =~ ^https?://github\.com/[a-zA-Z0-9._-]+/[a-zA-Z0-9._-]+ ]] ||
       [[ "$target" =~ ^github\.com/[a-zA-Z0-9._-]+/[a-zA-Z0-9._-]+ ]] ||
       [[ "$target" =~ ^git@github\.com:[a-zA-Z0-9._-]+/[a-zA-Z0-9._-]+ ]] ||
       [[ "$target" =~ ^[a-zA-Z0-9._-]+/[a-zA-Z0-9._-]+$ ]]; then
        return 0
    fi

    return 1
}

# Exit hook: unmount when leaving a cdrepo mount
__cdrepo_exit_hook() {
    local prev="$OLDPWD"
    if [[ "$prev" == "$HOME/.cdrepo/mnt/"* ]] && [[ "$PWD" != "$HOME/.cdrepo/mnt/"* ]]; then
        cdrepo unmount "$prev" 2>/dev/null &
    fi
}

alias cd='__cdrepo_cd'
PROMPT_COMMAND="__cdrepo_exit_hook${PROMPT_COMMAND:+;$PROMPT_COMMAND}"
"#;

/// Hook code for zsh.
pub const ZSH_HOOK: &'static str = r#"
# cdrepo shell integration (zsh)
# Intercepts cd to detect GitHub repo links and mount them via FUSE.

__cdrepo_cd() {
    if [ $# -eq 0 ]; then
        builtin cd
        return
    fi

    local target="$1"
    local mnt_base="$HOME/.cdrepo/mnt"

    # Inside a cdrepo mount: `cd ..` at the repo root returns to the
    # directory the repo was entered from.
    if [[ "$PWD" == "$mnt_base/"* ]]; then
        if [ "$target" = ".." ] || [ "$target" = "../" ]; then
            local rel="${PWD#$mnt_base/}"
            if [[ "$rel" != */*/* ]]; then
                if [ -n "$__cdrepo_origin" ] && [ -d "$__cdrepo_origin" ]; then
                    builtin cd "$__cdrepo_origin"
                else
                    builtin cd "$HOME"
                fi
                return
            fi
        fi
    fi

    shift

    if __cdrepo_is_repo "$target"; then
        __cdrepo_origin="$PWD"
        local mount_path
        mount_path="$(cdrepo mount "$target" 2>/dev/null)"
        local rc=$?
        if [ $rc -eq 0 ] && [ -d "$mount_path" ]; then
            builtin cd "$mount_path" "$@"
        else
            echo "cdrepo: $mount_path" >&2
            unset __cdrepo_origin
            return $rc
        fi
    else
        builtin cd "$target" "$@"
    fi
}

__cdrepo_is_repo() {
    local target="$1"

    # Skip if it's an existing local path, or standard cd targets
    if [ -e "$target" ] || [ "$target" = "-" ] || [ "$target" = "~" ] || [[ "$target" == ~* ]] || [[ "$target" == /* ]] || [[ "$target" == .* ]]; then
        return 1
    fi

    # Match GitHub URLs, SSH format and bare owner/repo
    # https://github.com/owner/repo
    # http://github.com/owner/repo
    # github.com/owner/repo
    # git@github.com:owner/repo.git
    # owner/repo
    if [[ "$target" =~ ^https?://github\.com/[a-zA-Z0-9._-]+/[a-zA-Z0-9._-]+ ]] ||
       [[ "$target" =~ ^github\.com/[a-zA-Z0-9._-]+/[a-zA-Z0-9._-]+ ]] ||
       [[ "$target" =~ ^git@github\.com:[a-zA-Z0-9._-]+/[a-zA-Z0-9._-]+ ]] ||
       [[ "$target" =~ ^[a-zA-Z0-9._-]+/[a-zA-Z0-9._-]+$ ]]; then
        return 0
    fi

    return 1
}

__cdrepo_chpwd() {
    if [[ "$OLDPWD" == "$HOME/.cdrepo/mnt/"* ]] && [[ "$PWD" != "$HOME/.cdrepo/mnt/"* ]]; then
        cdrepo unmount "$OLDPWD" 2>/dev/null &
    fi
}

alias cd='__cdrepo_cd'
autoload -U add-zsh-hook
add-zsh-hook chpwd __cdrepo_chpwd
"#;

/// Hook code for fish.
pub const FISH_HOOK: &'static str = r#"
# cdrepo shell integration (fish)
# Intercepts cd to detect GitHub repo links and mount them via FUSE.

function __cdrepo_is_repo
    set -l target $argv[1]

    if test -e "$target"; or test "$target" = "-"; or string match -q '~*' "$target"; or string match -q '/*' "$target"; or string match -q '.*' "$target"
        return 1
    end

    if string match -rq '^https?://github\.com/[a-zA-Z0-9._-]+/[a-zA-Z0-9._-]+' "$target"
        return 0
    else if string match -rq '^github\.com/[a-zA-Z0-9._-]+/[a-zA-Z0-9._-]+' "$target"
        return 0
    else if string match -rq '^git@github\.com:[a-zA-Z0-9._-]+/[a-zA-Z0-9._-]+' "$target"
        return 0
    else if string match -rq '^[a-zA-Z0-9._-]+/[a-zA-Z0-9._-]+$' "$target"
        return 0
    end

    return 1
end

# Override fish's built-in cd function
functions -e cd 2>/dev/null
function cd --description 'Change directory (with cdrepo GitHub support)'
    if test (count $argv) -eq 0
        builtin cd
        return $status
    end

    set -l target $argv[1]

    # Inside a cdrepo mount: `cd ..` at the repo root returns to the
    # directory the repo was entered from.
    if string match -q "$HOME/.cdrepo/mnt/*" "$PWD"
        if test "$target" = ".." -o "$target" = "../"
            set -l rel (string replace "$HOME/.cdrepo/mnt/" "" "$PWD")
            if test (count (string split "/" "$rel")) -le 2
                if set -q __cdrepo_origin; and test -d "$__cdrepo_origin"
                    builtin cd "$__cdrepo_origin"
                else
                    builtin cd "$HOME"
                end
                return $status
            end
        end
    end

    if __cdrepo_is_repo $target
        set -g __cdrepo_origin "$PWD"
        set -l mount_path (command cdrepo mount $target 2>/dev/null)
        set -l rc $status
        if test $rc -eq 0; and test -d "$mount_path"
            builtin cd "$mount_path"
            return $status
        else
            echo "cdrepo: $mount_path" >&2
            set -e __cdrepo_origin
            return $rc
        end
    else
        builtin cd $argv
        return $status
    end
end

function __cdrepo_on_pwd_change --on-variable PWD
    if string match -q "$HOME/.cdrepo/mnt/*" "$__cdrepo_prev_pwd"; and not string match -q "$HOME/.cdrepo/mnt/*" "$PWD"
        command cdrepo unmount "$__cdrepo_prev_pwd" 2>/dev/null &
    end
    set -g __cdrepo_prev_pwd "$PWD"
end
"#;

pub fn generate_bash() -> (r: String)
    ensures
        r@ == BASH_HOOK@,
{
    String::from_str(BASH_HOOK)
}

pub fn generate_zsh() -> (r: String)
    ensures
        r@ == ZSH_HOOK@,
{
    String::from_str(ZSH_HOOK)
}

pub fn generate_fish() -> (r: String)
    ensures
        r@ == FISH_HOOK@,
{
    String::from_str(FISH_HOOK)
}

/// The hook code for a supported shell.
pub open spec fn hook_for(shell: Seq<char>) -> Option<Seq<char>> {
    if shell == "bash"@ {
        Some(BASH_HOOK@)
    } else if shell == "zsh"@ {
        Some(ZSH_HOOK@)
    } else if shell == "fish"@ {
        Some(FISH_HOOK@)
    } else {
        None
    }
}

/// The hook code for `shell`, if it is one of bash, zsh and fish.
pub fn generate_for(shell: &str) -> (r: Option<String>)
    ensures
        match (r, hook_for(shell@)) {
            (Some(c), Some(h)) => c@ == h,
            (None, None) => true,
            _ => false,
        },
{
    if str_eq(shell, "bash") {
        Some(generate_bash())
    } else if str_eq(shell, "zsh") {
        Some(generate_zsh())
    } else if str_eq(shell, "fish") {
        Some(generate_fish())
    } else {
        None
    }
}

/// The shells that get hooks.
pub open spec fn is_supported_shell(s: Seq<char>) -> bool {
    s == "bash"@ || s == "zsh"@ || s == "fish"@
}

/// `s` is one of bash, zsh and fish.
pub fn is_supported(s: &str) -> (r: bool)
    ensures
        r == is_supported_shell(s@),
{
    str_eq(s, "bash") || str_eq(s, "zsh") || str_eq(s, "fish")
}

pub const SHELL_MARKER_BEGIN: &'static str = "# >>> cdrepo >>>";

pub const SHELL_MARKER_END: &'static str = "# <<< cdrepo <<<";

/// The block that a startup file holds to load the hook of `shell`.
pub open spec fn shell_block_text(shell: Seq<char>) -> Seq<char> {
    if is_supported_shell(shell) {
        SHELL_MARKER_BEGIN@ + "\neval \"$(cdrepo init "@ + shell + ")\"\n"@ + SHELL_MARKER_END@
            + "\n"@
    } else {
        Seq::empty()
    }
}

/// The block written for a supported shell loads that shell's own hook:
/// it holds `cdrepo init <shell>)`.
pub proof fn law_block_loads_own_hook(shell: Seq<char>)
    requires
        is_supported_shell(shell),
    ensures
        contains_sub(shell_block_text(shell), "cdrepo init "@ + shell + ")"@),
{
    reveal_strlit("# >>> cdrepo >>>");
    reveal_strlit("# <<< cdrepo <<<");
    reveal_strlit("\neval \"$(cdrepo init ");
    reveal_strlit(")\"\n");
    reveal_strlit("\n");
    reveal_strlit("cdrepo init ");
    reveal_strlit(")");
    reveal_strlit("bash");
    reveal_strlit("zsh");
    reveal_strlit("fish");
    let blk = shell_block_text(shell);
    let pat = "cdrepo init "@ + shell + ")"@;
    let pn = pat.len() as int;
    assert(blk.subrange(25, 25 + pn) =~= pat);
    lemma_subrange_piece(blk, 25, 25 + pn);
    lemma_piece_contained(pat, blk);
}

/// The block written for a supported shell is three lines: the begin
/// marker, the line that evaluates `cdrepo init <shell>` for that very
/// shell, and the end marker.
pub proof fn law_block_lines(shell: Seq<char>)
    requires
        is_supported_shell(shell),
    ensures
        lines(shell_block_text(shell)) == seq![
            SHELL_MARKER_BEGIN@,
            "eval \"$(cdrepo init "@ + shell + ")\""@,
            SHELL_MARKER_END@,
        ],
{
    reveal_strlit("# >>> cdrepo >>>");
    reveal_strlit("# <<< cdrepo <<<");
    reveal_strlit("\neval \"$(cdrepo init ");
    reveal_strlit("eval \"$(cdrepo init ");
    reveal_strlit(")\"\n");
    reveal_strlit(")\"");
    reveal_strlit("\n");
    reveal_strlit("bash");
    reveal_strlit("zsh");
    reveal_strlit("fish");
    let b = SHELL_MARKER_BEGIN@;
    let e = SHELL_MARKER_END@;
    let l2 = "eval \"$(cdrepo init "@ + shell + ")\""@;
    let nl = "\n"@;
    let empty = Seq::<char>::empty();
    assert(shell_block_text(shell) =~= b + nl + (l2 + nl + (e + nl + empty)));
    assert forall|j: int| 0 <= j < shell.len() implies #[trigger] shell[j] != '\n' by {}
    assert forall|j: int| 0 <= j < l2.len() implies #[trigger] l2[j] != '\n' by {
        if 20 <= j < 20 + shell.len() {
            assert(l2[j] == shell[j - 20]);
        }
    }
    lemma_lines_cons(e, empty);
    lemma_lines_cons(l2, e + nl + empty);
    lemma_lines_cons(b, l2 + nl + (e + nl + empty));
    assert(lines(empty) == Seq::<Seq<char>>::empty());
    assert(seq![b] + (seq![l2] + (seq![e] + Seq::<Seq<char>>::empty())) =~= seq![b, l2, e]);
}

pub fn shell_block(shell: &str) -> (r: String)
    ensures
        r@ == shell_block_text(shell@),
{
    if !is_supported(shell) {
        return String::new();
    }
    let mut b = String::from_str(SHELL_MARKER_BEGIN);
    b.append("\neval \"$(cdrepo init ");
    b.append(shell);
    b.append(")\"\n");
    b.append(SHELL_MARKER_END);
    b.append("\n");
    b
}

/// What the environment tells about the user's shells.
#[derive(Debug, Clone)]
pub struct ShellProbe {
    /// The value of `$SHELL`, if set.
    pub login_shell: Option<String>,
    /// A fish configuration file exists.
    pub fish_config_exists: bool,
    /// A `~/.zshrc` exists.
    pub zshrc_exists: bool,
    /// The command name of the parent process, if readable.
    pub parent_comm: Option<String>,
}

/// `ss` with `name` added at the end when `cond` holds and it is not there.
pub open spec fn add_shell(ss: Seq<Seq<char>>, cond: bool, name: Seq<char>) -> Seq<Seq<char>> {
    if cond && !ss.contains(name) {
        ss.push(name)
    } else {
        ss
    }
}

/// The shells that get hooks: the login shell when it is bash, zsh or fish;
/// fish when its configuration exists; zsh when `~/.zshrc` exists; and, when
/// that finds none, the parent process when it is one of the three.
pub open spec fn detected_shells(
    login_shell: Option<Seq<char>>,
    fish_config_exists: bool,
    zshrc_exists: bool,
    parent_comm: Option<Seq<char>>,
) -> Seq<Seq<char>> {
    let s1: Seq<Seq<char>> = match login_shell {
        Some(s) => if is_supported_shell(after_last(s, '/')) {
            seq![after_last(s, '/')]
        } else {
            Seq::empty()
        },
        None => Seq::empty(),
    };
    let s3 = add_shell(add_shell(s1, fish_config_exists, "fish"@), zshrc_exists, "zsh"@);
    if s3.len() == 0 {
        match parent_comm {
            Some(c) => if is_supported_shell(trim(c)) {
                seq![trim(c)]
            } else {
                Seq::empty()
            },
            None => Seq::empty(),
        }
    } else {
        s3
    }
}

proof fn lemma_add_shell(ss: Seq<Seq<char>>, cond: bool, name: Seq<char>)
    requires
        is_supported_shell(name),
        forall|i: int| 0 <= i < ss.len() ==> is_supported_shell(#[trigger] ss[i]),
        ss.no_duplicates(),
    ensures
        forall|i: int|
            0 <= i < add_shell(ss, cond, name).len() ==> is_supported_shell(
                #[trigger] add_shell(ss, cond, name)[i],
            ),
        add_shell(ss, cond, name).no_duplicates(),
{
    if cond && !ss.contains(name) {
        let r = ss.push(name);
        assert forall|i: int, j: int| 0 <= i < r.len() && 0 <= j < r.len() && i != j implies r[i]
            != r[j] by {
            if i == ss.len() as int {
                assert(ss[j] == r[j]);
            } else if j == ss.len() as int {
                assert(ss[i] == r[i]);
            }
        }
    }
}

/// Every detected shell is bash, zsh or fish, and none is detected twice.
pub proof fn law_detected_shells_supported_and_distinct(
    login_shell: Option<Seq<char>>,
    fish_config_exists: bool,
    zshrc_exists: bool,
    parent_comm: Option<Seq<char>>,
)
    ensures
        forall|i: int|
            0 <= i < detected_shells(login_shell, fish_config_exists, zshrc_exists, parent_comm).len()
                ==> is_supported_shell(
                #[trigger] detected_shells(login_shell, fish_config_exists, zshrc_exists, parent_comm)[i],
            ),
        detected_shells(login_shell, fish_config_exists, zshrc_exists, parent_comm).no_duplicates(),
{
    let s1: Seq<Seq<char>> = match login_shell {
        Some(s) => if is_supported_shell(after_last(s, '/')) {
            seq![after_last(s, '/')]
        } else {
            Seq::empty()
        },
        None => Seq::empty(),
    };
    lemma_add_shell(s1, fish_config_exists, "fish"@);
    lemma_add_shell(add_shell(s1, fish_config_exists, "fish"@), zshrc_exists, "zsh"@);
}

pub open spec fn opt_seq(o: Option<String>) -> Option<Seq<char>> {
    match o {
        Some(s) => Some(s@),
        None => None,
    }
}

pub open spec fn probe_shells(p: ShellProbe) -> Seq<Seq<char>> {
    detected_shells(opt_seq(p.login_shell), p.fish_config_exists, p.zshrc_exists, opt_seq(p.parent_comm))
}

pub open spec fn views(v: Seq<String>) -> Seq<Seq<char>> {
    v.map_values(|s: String| s@)
}

fn holds_name(v: &Vec<String>, name: &str) -> (r: bool)
    ensures
        r == views(v@).contains(name@),
{
    let n = String::from_str(name);
    let mut i: usize = 0;
    while i < v.len()
        invariant
            n@ == name@,
            i <= v.len(),
            forall|j: int| 0 <= j < i ==> #[trigger] v@[j]@ != name@,
        decreases v.len() - i,
    {
        if v[i] == n {
            assert(views(v@)[i as int] == name@);
            return true;
        }
        i = i + 1;
    }
    assert forall|j: int| 0 <= j < views(v@).len() implies #[trigger] views(v@)[j] != name@ by {
        assert(views(v@)[j] == v@[j]@);
    }
    false
}

fn push_name(v: &mut Vec<String>, name: &str)
    ensures
        views(final(v)@) == views(old(v)@).push(name@),
{
    v.push(String::from_str(name));
    assert(views(v@) == views(old(v)@).push(name@));
}

/// Detect all shells the user has configured.
/// Returns all shells that should get hooks installed.
pub fn detect_shells(probe: &ShellProbe) -> (r: Vec<String>)
    ensures
        views(r@) == probe_shells(*probe),
{
    let ghost s1: Seq<Seq<char>> = match opt_seq(probe.login_shell) {
        Some(s) => if is_supported_shell(after_last(s, '/')) {
            seq![after_last(s, '/')]
        } else {
            Seq::empty()
        },
        None => Seq::empty(),
    };
    let mut shells: Vec<String> = Vec::new();
    assert(views(shells@) == Seq::<Seq<char>>::empty());
    // Check $SHELL (login shell)
    match &probe.login_shell {
        Some(shell) => {
            let v = chars_of(shell.as_str());
            let name = match rfind_before_exec(&v, '/', v.len()) {
                Some(k) => {
                    proof {
                        crate::text::lemma_rfind_before_bounds(v@, '/', v.len() as int);
                    }
                    substring(shell.as_str(), k + 1, v.len())
                },
                None => shell.clone(),
            };
            assert(name@ == after_last(shell@, '/'));
            if is_supported(name.as_str()) {
                push_name(&mut shells, name.as_str());
                assert(views(shells@) == seq![name@]);
            }
        },
        None => {},
    }
    assert(views(shells@) == s1);
    // fish often runs inside bash
    if probe.fish_config_exists && !holds_name(&shells, "fish") {
        push_name(&mut shells, "fish");
    }
    assert(views(shells@) == add_shell(s1, probe.fish_config_exists, "fish"@));
    if probe.zshrc_exists && !holds_name(&shells, "zsh") {
        push_name(&mut shells, "zsh");
    }
    let ghost s3 = add_shell(
        add_shell(s1, probe.fish_config_exists, "fish"@),
        probe.zshrc_exists,
        "zsh"@,
    );
    assert(views(shells@) == s3);
    // Fallback: the parent process
    if shells.len() == 0 {
        assert(s3.len() == 0);
        match &probe.parent_comm {
            Some(comm) => {
                let v = chars_of(comm.as_str());
                let (a, b) = trim_bounds(&v, &Strip::Space, 0, v.len());
                assert(v@.subrange(0, v@.len() as int) == v@);
                let name = substring(comm.as_str(), a, b);
                if is_supported(name.as_str()) {
                    push_name(&mut shells, name.as_str());
                    assert(views(shells@) == seq![name@]);
                }
            },
            None => {},
        }
    }
    shells
}

/// Detect the current user's shell: the first that `detect_shells` finds.
pub fn detect_shell(probe: &ShellProbe) -> (r: Option<String>)
    ensures
        match r {
            Some(s) => probe_shells(*probe).len() > 0 && s@ == probe_shells(*probe)[0],
            None => probe_shells(*probe).len() == 0,
        },
{
    let mut shells = detect_shells(probe);
    if shells.len() == 0 {
        None
    } else {
        assert(views(shells@)[0] == shells@[0]@);
        Some(shells.remove(0))
    }
}

/// The startup file that gets the hook of `shell`, given the home and
/// configuration directories and whether `~/.bashrc` exists.
pub open spec fn rc_path(
    shell: Seq<char>,
    home: Seq<char>,
    config_dir: Option<Seq<char>>,
    bashrc_exists: bool,
) -> Option<Seq<char>> {
    if shell == "bash"@ {
        if bashrc_exists {
            Some(path_join(home, ".bashrc"@))
        } else {
            Some(path_join(home, ".bash_profile"@))
        }
    } else if shell == "zsh"@ {
        Some(path_join(home, ".zshrc"@))
    } else if shell == "fish"@ {
        let cfg = match config_dir {
            Some(c) => c,
            None => path_join(home, ".config"@),
        };
        Some(path_join(path_join(path_join(cfg, "fish"@), "conf.d"@), "cdrepo.fish"@))
    } else {
        None
    }
}

/// Get the shell RC file path for a given shell.
pub fn shell_rc_path(shell: &str, home: &str, config_dir: Option<&str>, bashrc_exists: bool) -> (r:
    Option<String>)
    ensures
        opt_seq(r) == rc_path(
            shell@,
            home@,
            match config_dir {
                Some(c) => Some(c@),
                None => None,
            },
            bashrc_exists,
        ),
{
    if str_eq(shell, "bash") {
        if bashrc_exists {
            Some(join(home, ".bashrc"))
        } else {
            Some(join(home, ".bash_profile"))
        }
    } else if str_eq(shell, "zsh") {
        Some(join(home, ".zshrc"))
    } else if str_eq(shell, "fish") {
        let cfg = match config_dir {
            Some(c) => String::from_str(c),
            None => join(home, ".config"),
        };
        let a = join(cfg.as_str(), "fish");
        let b = join(a.as_str(), "conf.d");
        Some(join(b.as_str(), "cdrepo.fish"))
    } else {
        None
    }
}

} // verus!
