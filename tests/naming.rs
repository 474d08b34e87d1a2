use rommy::outpath::{auto_file_name, command_token, root_dir_source, RootDir};
use rommy::scratch::{editor_wait_args, has_real_content, wait_args_for_lowered};
use rommy::shell::{shell_escape, shell_join};
use rommy::writer::{lock_file_name, temp_file_name};

#[test]
fn token_from_command_line() {
    assert_eq!(command_token("$ cargo clippy -q"), "cargo_clippy");
    assert_eq!(command_token("  $ $ Make   ALL  now"), "make_all");
    assert_eq!(command_token("ls"), "ls");
}

#[test]
fn token_falls_back_to_cmd() {
    assert_eq!(command_token(""), "cmd");
    assert_eq!(command_token("  ..  "), "cmd");
}

#[test]
fn token_is_cut_to_32() {
    let long = "a".repeat(40);
    assert_eq!(command_token(&long), "a".repeat(32));
}

#[test]
fn token_for_script_shebang() {
    assert_eq!(command_token("#!/usr/bin/env"), "bash_script");
    assert_eq!(command_token("/bin/bash"), "bash_script");
    assert_eq!(command_token("#!/usr/bin/env bash\n<script>"), "bash_script");
    assert_eq!(command_token("$ /bin/bash -c true"), "bash_script");
    assert_eq!(command_token("/usr/local/bin/env x"), "usr_local_bin_env_x");
}

#[test]
fn shell_words_are_quoted() {
    assert_eq!(shell_escape("plain"), "'plain'");
    assert_eq!(shell_escape("it's"), "'it'\\''s'");
    assert_eq!(shell_escape(""), "''");
    let parts = vec!["echo".to_string(), "a b".to_string()];
    assert_eq!(shell_join(&parts), "'echo' 'a b'");
    assert_eq!(shell_join(&Vec::new()), "");
}

#[test]
fn editors_get_wait_flags() {
    assert_eq!(editor_wait_args("/usr/bin/CODE"), vec!["--wait".to_string()]);
    assert_eq!(editor_wait_args("Sublime_Text"), vec!["-w".to_string()]);
    assert_eq!(editor_wait_args("gedit"), vec!["--wait".to_string()]);
    assert_eq!(editor_wait_args("nano"), Vec::<String>::new());
    assert_eq!(wait_args_for_lowered("codium"), vec!["--wait".to_string()]);
}

#[test]
fn scratch_content_needs_a_command() {
    assert!(!has_real_content("#!/usr/bin/env bash\n# only comments\n\n   \n"));
    assert!(has_real_content("#!/usr/bin/env bash\n  echo hi\n"));
    assert!(has_real_content("echo no newline"));
    assert!(!has_real_content(""));
}

#[test]
fn sidecar_names() {
    assert_eq!(lock_file_name("runs.rommy"), ".runs.rommy.lock");
    assert_eq!(temp_file_name("runs.rommy", 42, 1_000_000_007), ".runs.rommy.tmp.42.1000000007");
}

#[test]
fn automatic_file_name() {
    assert_eq!(auto_file_name("173048", "$ cargo clippy -q"), "173048.cargo_clippy.rommy");
    assert_eq!(auto_file_name("000000", ""), "000000.cmd.rommy");
}

#[test]
fn root_dir_sources_in_order() {
    let s = |v: &str| Some(v.to_string());
    assert!(matches!(root_dir_source(s("/r"), s("/x"), true, false, None, None), RootDir::Explicit(r) if r == "/r"));
    assert!(matches!(root_dir_source(None, s("/x"), true, false, None, None), RootDir::StateHome(x) if x == "/x"));
    assert!(matches!(root_dir_source(None, None, true, false, None, None), RootDir::MacHome));
    assert!(matches!(root_dir_source(None, None, false, true, s("C:/a"), s("C:/u")), RootDir::LocalAppData(a) if a == "C:/a"));
    assert!(matches!(root_dir_source(None, None, false, true, None, s("C:/u")), RootDir::UserProfile(u) if u == "C:/u"));
    assert!(matches!(root_dir_source(None, None, false, false, s("C:/a"), None), RootDir::Home));
}
