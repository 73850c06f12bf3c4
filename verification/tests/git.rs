use wt::git::{
    codex_worktree_name, existing_worktree, final_branch_name, get_current_worktree,
    find_worktree_by_name, get_repo_name, last_worktree_file, get_main_worktree,
    parse_worktrees, plan_removal, removal_names, worktree_base_path, worktree_dir_name,
    worktree_path, Worktree,
};
use wt::error::WtError;

fn worktree(path: &str, branch: &str, is_main: bool) -> Worktree {
    Worktree {
        path: path.to_string(),
        branch: branch.to_string(),
        is_main,
        hint: None,
    }
}

#[test]
fn names_codex_detached_worktrees_by_session_id() {
    let worktrees = parse_worktrees(
        "worktree /Users/bruce/Development/ollama.com\n\
         HEAD 1111111\n\
         branch refs/heads/main\n\
         \n\
         worktree /Users/bruce/.codex/worktrees/3096/ollama.com\n\
         HEAD 2222222\n\
         detached\n",
    );

    assert_eq!(worktrees.len(), 2);
    assert_eq!(worktrees[1].display_name(), "codex/3096");
    assert!(worktrees[1].matches_name("codex/3096"));
}

#[test]
fn keeps_the_existing_label_for_other_detached_worktrees() {
    let worktree = Worktree {
        path: "/tmp/repo".to_string(),
        branch: "(detached)".to_string(),
        is_main: false,
        hint: None,
    };

    assert_eq!(worktree.display_name(), "(detached)");
}

#[test]
fn includes_a_hint_in_the_display_label_but_not_the_lookup_name() {
    let mut worktree = Worktree {
        path: "/Users/bruce/.codex/worktrees/3096/ollama.com".to_string(),
        branch: "(detached)".to_string(),
        is_main: false,
        hint: None,
    };
    worktree.set_hint("Update Mixpanel team user tracking".to_string());

    assert_eq!(
        worktree.display_label(),
        "codex/3096\tUpdate Mixpanel team user tracking"
    );
    assert!(worktree.matches_name(&worktree.display_label()));
    assert!(worktree.matches_name("codex/3096"));
}

#[test]
fn parses_porcelain_listing() {
    let out = "worktree /r\nHEAD 1\nbranch refs/heads/main\n\nworktree /w/feat\nHEAD 2\nbranch feature/x\n\nworktree /w/bare\nbare\n\nworktree /w/last\r\ndetached";
    let ws = parse_worktrees(out);
    assert_eq!(ws.len(), 3);
    assert_eq!(ws[0].path, "/r");
    assert_eq!(ws[0].branch, "main");
    assert!(ws[0].is_main);
    assert_eq!(ws[1].branch, "feature/x");
    assert!(!ws[1].is_main);
    // the record without a branch is dropped; a `\r\n` line ending is stripped
    assert_eq!(ws[2].path, "/w/last");
    assert_eq!(ws[2].branch, "(detached)");
    assert!(!ws[2].is_main);
    assert!(parse_worktrees("").is_empty());
    // a `branch` line before any `worktree` line sets nothing
    let ws = parse_worktrees("branch refs/heads/x\nworktree /a\ndetached\n");
    assert_eq!(ws.len(), 1);
    assert_eq!(ws[0].branch, "(detached)");
}

#[test]
fn main_is_first_complete_record() {
    // a first record without a branch is not kept, so the next one is main
    let ws = parse_worktrees("worktree /bare\nbare\nworktree /a\nbranch refs/heads/a\n");
    assert_eq!(ws.len(), 1);
    assert!(ws[0].is_main);
}

#[test]
fn finds_main_worktree_path() {
    assert_eq!(
        get_main_worktree("HEAD 1\nworktree /main\nworktree /other\n").ok(),
        Some("/main".to_string())
    );
    assert!(matches!(get_main_worktree("HEAD 1\n"), Err(WtError::NotAGitRepo)));
}

#[test]
fn codex_names_need_the_whole_pattern() {
    assert_eq!(codex_worktree_name("/x/.codex/worktrees/42/repo"), Some("codex/42".to_string()));
    assert_eq!(codex_worktree_name("/x/.codex/worktrees/42"), Some("codex/42".to_string()));
    assert_eq!(codex_worktree_name("/x/.codex//worktrees/./42/"), Some("codex/42".to_string()));
    assert_eq!(codex_worktree_name("/x/.codex/worktrees"), None);
    assert_eq!(codex_worktree_name("/x/.codex/other/42"), None);
    assert_eq!(codex_worktree_name("/x/.codex/worktrees/../42"), Some("codex/42".to_string()));
}

#[test]
fn matches_by_branch_name_or_path_suffix() {
    let w = worktree("/home/u/.wt/repo/feature-x", "feature/x", false);
    assert!(w.matches_name("feature/x"));
    assert!(w.matches_name("feature-x"));
    assert!(w.matches_name("repo/feature-x"));
    assert!(w.matches_name("feature/x\tsome hint"));
    assert!(!w.matches_name("x"));
    assert!(!w.matches_name("ature-x"));
    // an empty name is a suffix of every path
    assert!(w.matches_name(""));
}

#[test]
fn finds_worktrees_by_name_and_directory() {
    let ws = vec![
        worktree("/r", "main", true),
        worktree("/w/a", "a", false),
        worktree("/w/a2", "a", false),
    ];
    let found = find_worktree_by_name(ws, "a").unwrap();
    assert_eq!(found.path, "/w/a");
    let ws = vec![worktree("/r", "main", true), worktree("/w/a", "a", false)];
    assert!(find_worktree_by_name(ws, "b").is_none());

    let ws = vec![worktree("/w/a", "a", false), worktree("/w", "main", true)];
    assert_eq!(get_current_worktree(ws, "/w/a/src").unwrap().branch, "a");
    let ws = vec![worktree("/w/a", "a", false), worktree("/w", "main", true)];
    assert_eq!(get_current_worktree(ws, "/w/ab").unwrap().branch, "main");
    let ws = vec![worktree("/w/a", "a", false)];
    assert!(get_current_worktree(ws, "/v").is_none());
}

#[test]
fn repo_names_and_paths() {
    assert_eq!(get_repo_name("/home/u/src/ollama.com"), "ollama.com");
    assert_eq!(get_repo_name("/home/u/src/ollama.com/"), "ollama.com");
    assert_eq!(get_repo_name("/"), "repo");
    assert_eq!(get_repo_name("/a/.."), "repo");
    assert_eq!(worktree_base_path("/home/u", "repo"), "/home/u/.wt/repo");
    assert_eq!(worktree_base_path("/home/u/", "repo"), "/home/u/.wt/repo");
    assert_eq!(last_worktree_file("/home/u", "repo"), "/home/u/.wt/repo/.last");
    assert_eq!(worktree_dir_name("feature/auth/x"), "feature-auth-x");
    assert_eq!(worktree_path("/home/u/.wt/repo", "feature/auth"), "/home/u/.wt/repo/feature-auth");
}

#[test]
fn branch_names_get_the_prefix_only_when_new() {
    assert_eq!(final_branch_name("x", true, Some("bruce/")), "x");
    assert_eq!(final_branch_name("x", false, Some("bruce/")), "bruce/x");
    assert_eq!(final_branch_name("x", false, None), "x");
}

#[test]
fn existing_directories_must_be_worktrees() {
    let ws = vec![worktree("/w/a", "a", false)];
    assert_eq!(existing_worktree(&ws, "/w/a/").ok(), Some("/w/a/".to_string()));
    match existing_worktree(&ws, "/w/b") {
        Err(WtError::WorktreeExists(p)) => assert_eq!(p, "/w/b"),
        _ => panic!("expected WorktreeExists"),
    }
}

#[test]
fn removal_names_include_the_prefixed_name() {
    assert_eq!(removal_names("x", None), vec!["x".to_string()]);
    assert_eq!(removal_names("x", Some("p/")), vec!["x".to_string(), "p/x".to_string()]);
    assert_eq!(removal_names("x", Some("")), vec!["x".to_string()]);
}

#[test]
fn plans_removals() {
    let ws = vec![
        worktree("/r", "main", true),
        worktree("/w/p-x", "p/x", false),
        worktree("/w/x", "x", false),
    ];
    let plan = plan_removal(&ws, "x", Some("p/")).ok().unwrap();
    assert!(!plan.refuse_main);
    let removed: Vec<String> = plan.remove.iter().map(|w| w.branch.clone()).collect();
    assert_eq!(removed, vec!["p/x".to_string(), "x".to_string()]);

    match plan_removal(&ws, "nope", None) {
        Err(WtError::WorktreeNotFound(n)) => assert_eq!(n, "nope"),
        _ => panic!("expected WorktreeNotFound"),
    }

    // the main worktree is never removed: the removal stops there
    let ws = vec![
        worktree("/w/main-copy", "main", false),
        worktree("/r", "main", true),
        worktree("/w/late", "main", false),
    ];
    let plan = plan_removal(&ws, "main", None).ok().unwrap();
    assert!(plan.refuse_main);
    assert_eq!(plan.remove.len(), 1);
    assert_eq!(plan.remove[0].path, "/w/main-copy");
}

#[test]
fn plans_worktree_creation() {
    let plan = wt::git::plan_worktree_creation("/h/.wt/repo", "auth", false, Some("bruce/"));
    assert_eq!(plan.branch, "bruce/auth");
    assert_eq!(plan.path, "/h/.wt/repo/bruce-auth");
    assert_eq!(plan.add_args, vec!["worktree", "add", "-b", "bruce/auth", "/h/.wt/repo/bruce-auth"]);
    let plan = wt::git::plan_worktree_creation("/h/.wt/repo", "fix/x", true, Some("bruce/"));
    assert_eq!(plan.branch, "fix/x");
    assert_eq!(plan.path, "/h/.wt/repo/fix-x");
    assert_eq!(plan.add_args, vec!["worktree", "add", "/h/.wt/repo/fix-x", "fix/x"]);
}

#[test]
fn refuses_the_main_worktree_with_a_git_error() {
    match wt::git::main_worktree_refusal() {
        WtError::GitCommand(m) => assert_eq!(m, "cannot remove main worktree"),
        _ => panic!("expected GitCommand"),
    }
}

#[test]
fn base_path_lives_under_the_home_directory() {
    match wt::git::get_worktree_base_path("myrepo") {
        Ok(p) => assert!(p.ends_with(".wt/myrepo"), "{}", p),
        Err(WtError::Io(e)) => assert_eq!(e.kind(), std::io::ErrorKind::NotFound),
        Err(_) => panic!("unexpected error"),
    }
    match wt::git::get_last_worktree_file("myrepo") {
        Ok(p) => assert!(p.ends_with(".wt/myrepo/.last"), "{}", p),
        Err(WtError::Io(e)) => assert_eq!(e.kind(), std::io::ErrorKind::NotFound),
        Err(_) => panic!("unexpected error"),
    }
}
