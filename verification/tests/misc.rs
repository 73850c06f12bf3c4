use wt::commands::{
    branch_ref, check_removable, nonempty_trimmed, removal_target, worktree_add_args,
    worktree_to_remember,
};
use wt::error::WtError;
use wt::fzf::{interpret_fzf_output, picker_line, FzfResult};
use wt::git::Worktree;
use wt::path::{components_of, file_name, path_ends_with, path_eq, path_join, path_starts_with};
use wt::shell::{alias_for_shell, shell_name, FISH_ALIAS, POSIX_ALIAS};
use wt::text::split_lines;

fn worktree(path: &str, branch: &str, is_main: bool) -> Worktree {
    Worktree {
        path: path.to_string(),
        branch: branch.to_string(),
        is_main,
        hint: None,
    }
}

#[test]
fn splits_lines_like_str_lines() {
    for s in ["", "a", "a\n", "a\nb", "a\r\nb\r\n", "\n\n", "a\r", "x\ry\n", "\r\n"] {
        let expected: Vec<String> = s.lines().map(|l| l.to_string()).collect();
        assert_eq!(split_lines(s), expected, "input {:?}", s);
    }
}

#[test]
fn path_components_follow_std() {
    for p in ["", "/", "//", "a", "a/b", "a//b/", "./a", ".", "./", "/./a/.", "a/./b", "../a", "/..", ".a/b", "a/.."] {
        let expected: Vec<String> = std::path::Path::new(p)
            .components()
            .map(|c| c.as_os_str().to_string_lossy().into_owned())
            .collect();
        assert_eq!(components_of(p), expected, "path {:?}", p);
    }
}

#[test]
fn path_predicates_follow_std() {
    let cases = [("/a/b", "b"), ("/a/b", "a/b"), ("/a/b", "/a/b"), ("/a/b", "/b"), ("/a/b/", "b"), ("a/b", ""), ("/a/b", "a"), ("./a", "a"), ("/a/bc", "c")];
    for (p, q) in cases {
        let pp = std::path::Path::new(p);
        assert_eq!(path_ends_with(p, q), pp.ends_with(q), "{:?} ends_with {:?}", p, q);
        assert_eq!(path_starts_with(p, q), pp.starts_with(q), "{:?} starts_with {:?}", p, q);
        assert_eq!(path_eq(p, q), pp == std::path::Path::new(q), "{:?} == {:?}", p, q);
    }
    assert_eq!(file_name("/a/b.txt"), Some("b.txt".to_string()));
    assert_eq!(file_name("/a/.."), None);
    assert_eq!(file_name("."), None);
    assert_eq!(path_join("/a", "b"), "/a/b");
    assert_eq!(path_join("", "b"), "b");
    assert_eq!(path_join("/a", "/b"), "/b");
}

#[test]
fn interprets_picker_answers() {
    assert!(matches!(interpret_fzf_output(Some(0), "q\nfeat\t/w/feat\n"), FzfResult::Selected(s) if s == "feat"));
    assert!(matches!(interpret_fzf_output(Some(0), "  new-branch  \n"), FzfResult::New(s) if s == "new-branch"));
    assert!(matches!(interpret_fzf_output(Some(0), "   \n"), FzfResult::Cancelled));
    assert!(matches!(interpret_fzf_output(Some(0), ""), FzfResult::Cancelled));
    assert!(matches!(interpret_fzf_output(Some(1), "typed\n"), FzfResult::New(s) if s == "typed"));
    assert!(matches!(interpret_fzf_output(Some(1), "q\nignored\n"), FzfResult::New(s) if s == "q"));
    assert!(matches!(interpret_fzf_output(Some(1), ""), FzfResult::Cancelled));
    assert!(matches!(interpret_fzf_output(Some(130), "q\nx\n"), FzfResult::Cancelled));
    assert!(matches!(interpret_fzf_output(Some(2), "q\n"), FzfResult::Cancelled));
    assert!(matches!(interpret_fzf_output(None, "q\n"), FzfResult::Cancelled));
}

#[test]
fn picker_line_round_trips_to_the_branch() {
    let w = worktree("/w/feat", "feat", false);
    let line = picker_line(&w);
    assert_eq!(line, "feat\t/w/feat\n");
    let out = format!("query\n{}", line);
    assert!(matches!(interpret_fzf_output(Some(0), &out), FzfResult::Selected(s) if s == "feat"));
}

#[test]
fn chooses_shell_alias() {
    assert_eq!(shell_name("/usr/bin/fish"), "fish");
    assert_eq!(shell_name("zsh"), "zsh");
    assert_eq!(shell_name("/bin/"), "");
    assert_eq!(alias_for_shell(Some("/usr/local/bin/fish")).ok(), Some(FISH_ALIAS));
    assert_eq!(alias_for_shell(Some("/bin/bash")).ok(), Some(POSIX_ALIAS));
    assert_eq!(alias_for_shell(Some("")).ok(), Some(POSIX_ALIAS));
    match alias_for_shell(None) {
        Err(WtError::GitCommand(m)) => assert_eq!(m, "could not detect shell from $SHELL"),
        _ => panic!("expected an error"),
    }
    assert!(POSIX_ALIAS.starts_with("wt() {"));
    assert!(FISH_ALIAS.starts_with("function wt"));
}

#[test]
fn command_decisions() {
    assert_eq!(nonempty_trimmed("  feature/ \n"), Some("feature/".to_string()));
    assert_eq!(nonempty_trimmed(" \n"), None);
    assert_eq!(worktree_to_remember(&Some(worktree("/w/a", "a", false))), Some("a".to_string()));
    assert_eq!(worktree_to_remember(&Some(worktree("/r", "main", true))), None);
    assert_eq!(worktree_to_remember(&None), None);
    assert_eq!(removal_target(Some("x".to_string()), Some("y".to_string())).ok(), Some("x".to_string()));
    assert_eq!(removal_target(None, Some("y".to_string())).ok(), Some("y".to_string()));
    match removal_target(None, None) {
        Err(WtError::GitCommand(m)) => assert_eq!(m, "no previous worktree to remove"),
        _ => panic!("expected an error"),
    }
    assert!(check_removable(&Some(worktree("/w/a", "a", false)), "b").is_ok());
    assert!(check_removable(&Some(worktree("/r", "main", true)), "main").is_ok());
    match check_removable(&Some(worktree("/w/a", "a", false)), "a") {
        Err(WtError::GitCommand(m)) => assert_eq!(m, "cannot remove the current worktree, run `wt exit` first"),
        _ => panic!("expected an error"),
    }
    assert_eq!(branch_ref("x/y"), "refs/heads/x/y");
    assert_eq!(worktree_add_args("/w/x", "x", true), vec!["worktree", "add", "/w/x", "x"]);
    assert_eq!(worktree_add_args("/w/x", "x", false), vec!["worktree", "add", "-b", "x", "/w/x"]);
}
