use cdrepo::install::{
    cache_dir_in, fish_conf_content, mount_base_dir_in, rc_content_without_hook, removal_is_clean,
    updated_rc_content,
};
use cdrepo::shell::{
    detect_shell, detect_shells, generate_bash, generate_for, generate_fish, generate_zsh,
    shell_block, shell_rc_path, ShellProbe, SHELL_MARKER_BEGIN, SHELL_MARKER_END,
};

#[test]
fn hooks_are_the_shell_scripts() {
    assert!(generate_bash().contains("PROMPT_COMMAND=\"__cdrepo_exit_hook"));
    assert!(generate_zsh().contains("add-zsh-hook chpwd __cdrepo_chpwd"));
    assert!(generate_fish().contains("function __cdrepo_on_pwd_change --on-variable PWD"));
    assert_eq!(generate_for("zsh"), Some(generate_zsh()));
    assert_eq!(generate_for("tcsh"), None);
}

#[test]
fn hooks_accept_bare_owner_repo_and_return_to_origin() {
    for hook in [generate_bash(), generate_zsh()] {
        assert!(hook.contains("[[ \"$target\" =~ ^[a-zA-Z0-9._-]+/[a-zA-Z0-9._-]+$ ]]"));
        assert!(hook.contains("__cdrepo_origin=\"$PWD\""));
        assert!(hook.contains("builtin cd \"$__cdrepo_origin\""));
        assert!(hook.contains("echo \"cdrepo: $mount_path\" >&2"));
        assert!(!hook.contains("[ \"$target\" = \"-\" ] && [ -n"));
    }
    let fish = generate_fish();
    assert!(fish.contains("string match -rq '^[a-zA-Z0-9._-]+/[a-zA-Z0-9._-]+$' \"$target\""));
    assert!(fish.contains("set -g __cdrepo_origin \"$PWD\""));
}

#[test]
fn shell_block_text() {
    assert_eq!(
        shell_block("bash"),
        "# >>> cdrepo >>>\neval \"$(cdrepo init bash)\"\n# <<< cdrepo <<<\n"
    );
    assert_eq!(shell_block("sh"), "");
}

fn probe(login: Option<&str>, fish: bool, zsh: bool, parent: Option<&str>) -> ShellProbe {
    ShellProbe {
        login_shell: login.map(|s| s.to_string()),
        fish_config_exists: fish,
        zshrc_exists: zsh,
        parent_comm: parent.map(|s| s.to_string()),
    }
}

#[test]
fn shells_are_detected_in_order() {
    assert_eq!(detect_shells(&probe(Some("/bin/bash"), true, true, None)), vec!["bash", "fish", "zsh"]);
    assert_eq!(detect_shells(&probe(Some("/usr/bin/fish"), true, false, None)), vec!["fish"]);
    assert_eq!(detect_shells(&probe(Some("/bin/sh"), false, false, Some("zsh\n"))), vec!["zsh"]);
    assert_eq!(detect_shells(&probe(Some("zsh"), false, false, Some("bash"))), vec!["zsh"]);
    assert!(detect_shells(&probe(None, false, false, Some("python"))).is_empty());
    assert_eq!(detect_shell(&probe(None, false, true, None)), Some("zsh".to_string()));
    assert_eq!(detect_shell(&probe(None, false, false, None)), None);
}

#[test]
fn rc_paths() {
    assert_eq!(shell_rc_path("bash", "/home/u", None, true), Some("/home/u/.bashrc".to_string()));
    assert_eq!(shell_rc_path("bash", "/home/u/", None, false), Some("/home/u/.bash_profile".to_string()));
    assert_eq!(shell_rc_path("zsh", "/home/u", None, false), Some("/home/u/.zshrc".to_string()));
    assert_eq!(
        shell_rc_path("fish", "/home/u", Some("/cfg"), false),
        Some("/cfg/fish/conf.d/cdrepo.fish".to_string())
    );
    assert_eq!(
        shell_rc_path("fish", "/home/u", None, false),
        Some("/home/u/.config/fish/conf.d/cdrepo.fish".to_string())
    );
    assert_eq!(shell_rc_path("csh", "/home/u", None, false), None);
}

#[test]
fn directories() {
    assert_eq!(mount_base_dir_in(Some("/home/u")), "/home/u/.cdrepo/mnt");
    assert_eq!(mount_base_dir_in(None), "/tmp/.cdrepo/mnt");
    assert_eq!(cache_dir_in(Some("/home/u/.cache")), "/home/u/.cache/cdrepo");
    assert_eq!(cache_dir_in(None), "/tmp/cdrepo");
    assert!(cdrepo::install::mount_base_dir().ends_with("/.cdrepo/mnt"));
    assert!(cdrepo::install::cache_dir().ends_with("/cdrepo"));
}

#[test]
fn install_appends_block() {
    let up = updated_rc_content("export A=1", "bash");
    assert!(!up.replaced);
    assert_eq!(up.content, format!("export A=1\n\n{}", shell_block("bash")));
    let up = updated_rc_content("x\n", "zsh");
    assert_eq!(up.content, format!("x\n\n{}", shell_block("zsh")));
    let up = updated_rc_content("", "bash");
    assert_eq!(up.content, format!("\n\n{}", shell_block("bash")));
}

#[test]
fn install_replaces_existing_block() {
    let existing = format!("a\n{}\nold\n{}\nb\n", SHELL_MARKER_BEGIN, SHELL_MARKER_END);
    let up = updated_rc_content(&existing, "zsh");
    assert!(up.replaced);
    assert_eq!(up.content, format!("a\n{}\nb\n", shell_block("zsh")));
    let at_end = format!("a\n{}\nold\n{}", SHELL_MARKER_BEGIN, SHELL_MARKER_END);
    assert_eq!(updated_rc_content(&at_end, "zsh").content, format!("a\n{}", shell_block("zsh")));
    let no_end = format!("a\n{}\nold", SHELL_MARKER_BEGIN);
    assert_eq!(updated_rc_content(&no_end, "bash").content, format!("a\n{}", shell_block("bash")));
}

#[test]
fn reinstall_adds_one_line_break() {
    for existing in ["x", "x\n", "", "export A=1\nexport B=2\n"] {
        let once = updated_rc_content(existing, "bash").content;
        let twice = updated_rc_content(&once, "bash");
        assert!(twice.replaced);
        assert_eq!(twice.content, format!("{once}\n"));
    }
}

#[test]
fn uninstall_after_install() {
    let once = updated_rc_content("x", "bash").content;
    assert!(removal_is_clean(&once));
    assert_eq!(rc_content_without_hook(&once), Some("x\n\n".to_string()));
    assert_eq!(rc_content_without_hook("nothing here"), None);
    let mid = format!("a\n{}\nq\n{}\nz", SHELL_MARKER_BEGIN, SHELL_MARKER_END);
    assert_eq!(rc_content_without_hook(&mid), Some("a\nz".to_string()));
    let tail = format!("a\n{}\n{}", SHELL_MARKER_BEGIN, SHELL_MARKER_END);
    assert_eq!(rc_content_without_hook(&tail), Some("a\n".to_string()));
    assert!(!removal_is_clean(&format!("{}é", SHELL_MARKER_END)));
    assert_eq!(rc_content_without_hook(&format!("{}é", SHELL_MARKER_END)), None);
}

#[test]
fn fish_conf() {
    assert_eq!(
        fish_conf_content(),
        format!(
            "{}\nif test -d \"$HOME/.cdrepo/bin\"\n    fish_add_path \"$HOME/.cdrepo/bin\"\nend\n{}\n",
            SHELL_MARKER_BEGIN, SHELL_MARKER_END
        )
    );
}
