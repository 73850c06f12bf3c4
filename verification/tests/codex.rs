use wt::codex::{
    attach_worktree_hints, codex_hint_paths, decode_hex, hint_query, latest_state_database,
    normalize_title, parse_hint_rows, quote_sql_string, state_database_version, HintMap,
};
use wt::git::Worktree;

#[test]
fn parses_and_normalizes_newest_hint_for_each_path() {
    let output = "\
2F55736572732F62727563652F2E636F6465782F776F726B74726565732F333039362F6F6C6C616D612E636F6D\t557064617465204D697870616E656C20207465616D0A7573657220747261636B696E67\n\
2F55736572732F62727563652F2E636F6465782F776F726B74726565732F333039362F6F6C6C616D612E636F6D\t4F6C64207469746C65\n";

    let hints = parse_hint_rows(output);

    assert_eq!(
        hints.get("/Users/bruce/.codex/worktrees/3096/ollama.com"),
        Some("Update Mixpanel team user tracking".to_string())
    );
}

#[test]
fn ignores_malformed_rows_for_graceful_fallback() {
    let hints = parse_hint_rows("not-hex\talso-not-hex\nmissing-separator\n");

    assert!(hints.is_empty());
}

#[test]
fn recognizes_versioned_state_databases() {
    assert_eq!(state_database_version("state_5.sqlite"), Some(5));
    assert_eq!(state_database_version("state.sqlite"), None);
}

#[test]
fn state_database_version_edge_cases() {
    assert_eq!(state_database_version("state_+7.sqlite"), Some(7));
    assert_eq!(state_database_version("state_007.sqlite"), Some(7));
    assert_eq!(state_database_version("state_.sqlite"), None);
    assert_eq!(state_database_version("state_+.sqlite"), None);
    assert_eq!(state_database_version("state_5.sqlite-wal"), None);
    assert_eq!(state_database_version("state_x5.sqlite"), None);
    assert_eq!(
        state_database_version("state_18446744073709551615.sqlite"),
        Some(u64::MAX)
    );
    assert_eq!(state_database_version("state_18446744073709551616.sqlite"), None);
}

#[test]
fn latest_state_database_prefers_highest_then_last() {
    let names: Vec<String> = ["logs", "state_3.sqlite", "state_10.sqlite", "state_2.sqlite", "state_010.sqlite"]
        .iter()
        .map(|s| s.to_string())
        .collect();
    assert_eq!(latest_state_database(&names), Some(4));
    let none: Vec<String> = vec!["state.sqlite".to_string(), "notes.txt".to_string()];
    assert_eq!(latest_state_database(&none), None);
    assert_eq!(latest_state_database(&Vec::new()), None);
}

#[test]
fn decodes_hex_values() {
    assert_eq!(decode_hex("48656C6C6F"), Some("Hello".to_string()));
    assert_eq!(decode_hex("48656c6c6f"), Some("Hello".to_string()));
    assert_eq!(decode_hex(""), Some(String::new()));
    // two-byte UTF-8 sequence
    assert_eq!(decode_hex("C3A9"), Some("é".to_string()));
    // `u8::from_str_radix` accepts a leading `+` on a pair
    assert_eq!(decode_hex("+A"), Some("\n".to_string()));
    // odd length, bad digit, invalid UTF-8, non-ASCII input
    assert_eq!(decode_hex("ABC"), None);
    assert_eq!(decode_hex("ZZ"), None);
    assert_eq!(decode_hex("C3"), None);
    assert_eq!(decode_hex("FF"), None);
    assert_eq!(decode_hex("é1"), None);
}

#[test]
fn normalizes_titles() {
    assert_eq!(normalize_title("  a \t b\n\nc  "), "a b c");
    assert_eq!(normalize_title(""), "");
    assert_eq!(normalize_title(" \u{3000} "), "");
    let long = "word ".repeat(30);
    let shown = normalize_title(&long);
    // 80 characters cut after a space, which is trimmed, then the ellipsis
    assert_eq!(shown, format!("{}…", "word ".repeat(16).trim_end()));
    assert_eq!(shown.chars().count(), 80);
    // normalizing again changes nothing
    assert_eq!(normalize_title(&shown), shown);
    let exact = "x".repeat(80);
    assert_eq!(normalize_title(&exact), exact);
    let over = "x".repeat(81);
    assert_eq!(normalize_title(&over), format!("{}…", "x".repeat(80)));
    assert_eq!(normalize_title(&normalize_title(&over)), normalize_title(&over));
}

#[test]
fn keeps_only_first_row_per_path() {
    // "/a" -> 2F61, "/a/" -> 2F612F, "new" -> 6E6577, "old" -> 6F6C64
    let rows = "2F61\t6E6577\n2F612F\t6F6C64\n";
    let hints = parse_hint_rows(rows);
    assert_eq!(hints.len(), 1);
    assert_eq!(hints.get("/a"), Some("new".to_string()));
    assert_eq!(hints.get("/a/"), Some("new".to_string()));
    assert_eq!(hints.get("/b"), None);
}

#[test]
fn skips_rows_with_empty_titles() {
    // title of only whitespace: "  " -> 2020
    let hints = parse_hint_rows("2F61\t2020\n2F61\t6F6B\n");
    assert_eq!(hints.get("/a"), Some("ok".to_string()));
}

#[test]
fn quotes_sql_strings() {
    assert_eq!(quote_sql_string("/tmp/x"), "'/tmp/x'");
    assert_eq!(quote_sql_string("it's"), "'it''s'");
    assert_eq!(quote_sql_string(""), "''");
    assert_eq!(quote_sql_string("''"), "''''''");
}

#[test]
fn builds_hint_query() {
    assert_eq!(hint_query(&Vec::new()), None);
    let paths = vec!["/a".to_string(), "/b'c".to_string()];
    assert_eq!(
        hint_query(&paths),
        Some(
            "SELECT hex(cwd), hex(title) FROM threads WHERE cwd IN ('/a', '/b''c') AND title != '' AND substr(source, 1, 1) != '{' ORDER BY updated_at DESC;"
                .to_string()
        )
    );
}

#[test]
fn attaches_hints_to_codex_worktrees() {
    let mut worktrees = vec![
        Worktree {
            path: "/repo".to_string(),
            branch: "main".to_string(),
            is_main: true,
            hint: None,
        },
        Worktree {
            path: "/home/u/.codex/worktrees/7/repo".to_string(),
            branch: "(detached)".to_string(),
            is_main: false,
            hint: None,
        },
    ];
    let paths = codex_hint_paths(&worktrees);
    assert_eq!(paths, vec!["/home/u/.codex/worktrees/7/repo".to_string()]);
    let mut hints = HintMap::new();
    hints.insert_if_absent("/home/u/.codex/worktrees/7/repo/".to_string(), "Fix it".to_string());
    hints.insert_if_absent("/home/u/.codex/worktrees/7/repo".to_string(), "Other".to_string());
    assert_eq!(hints.len(), 1);
    attach_worktree_hints(&mut worktrees, &hints);
    assert_eq!(worktrees[0].hint, None);
    assert_eq!(worktrees[1].hint, Some("Fix it".to_string()));
    assert_eq!(worktrees[1].display_label(), "codex/7\tFix it");
}

fn sql_hex(s: &str) -> String {
    s.as_bytes().iter().map(|b| format!("{:02X}", b)).collect()
}

#[test]
fn hex_encoding_survives_tabs_and_newlines() {
    for s in ["plain", "tab\there", "line\nbreak\r\n", "émoji 🎉", ""] {
        assert_eq!(decode_hex(&sql_hex(s)), Some(s.to_string()));
    }
    let rows = format!(
        "{}\t{}\n{}\t{}\n",
        sql_hex("/w/a\tb"),
        sql_hex("Title\twith\nbreaks"),
        sql_hex("/w/c"),
        sql_hex("  \n "),
    );
    let hints = parse_hint_rows(&rows);
    assert_eq!(hints.len(), 1);
    assert_eq!(hints.get("/w/a\tb"), Some("Title with breaks".to_string()));
    assert_eq!(hints.get("/w/c"), None);
}

/// Reads an SQL string literal back, the way the database does.
fn read_sql_literal(lit: &str) -> Option<String> {
    let mut chars = lit.chars().peekable();
    if chars.next() != Some('\'') {
        return None;
    }
    let mut out = String::new();
    while let Some(c) = chars.next() {
        if c == '\'' {
            if chars.peek() == Some(&'\'') {
                chars.next();
                out.push('\'');
            } else {
                return if chars.next().is_none() { Some(out) } else { None };
            }
        } else {
            out.push(c);
        }
    }
    None
}

#[test]
fn quoted_strings_read_back_unchanged() {
    for s in ["", "'", "''", "a'b", "/it's/a/path'", "no quotes"] {
        assert_eq!(read_sql_literal(&quote_sql_string(s)), Some(s.to_string()));
    }
}

#[test]
fn codex_home_prefers_the_variable() {
    assert_eq!(wt::codex::codex_home(Some("/srv/codex")), Some("/srv/codex".to_string()));
    match wt::codex::codex_home(None) {
        Some(h) => assert!(h.ends_with(".codex"), "{}", h),
        None => {}
    }
}
