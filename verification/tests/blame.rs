use prompt_bom::paths::{candidate_path, repo_relative};
use prompt_bom::repos::git_repo::{blame_lines_from_hunks, BlameHunk, BlameLine};
use prompt_bom::schemas::attribution::{AttributionRecord, ClaudeTool, EditOperation, ToolPayload};
use prompt_bom::services::blame::{
    attribute_ranges, enrich_with_blame, extract_needles, find_substring_lines, ranges_for_record,
    ResolvedFile,
};

#[test]
fn find_substring_lines_single_line() {
    let h = "alpha\nbeta\ngamma\n";
    assert_eq!(find_substring_lines(h, "beta"), Some((2, 2)));
}

#[test]
fn find_substring_lines_multi_line_no_trailing_newline() {
    let h = "a\nb\nc\nd\n";
    assert_eq!(find_substring_lines(h, "b\nc"), Some((2, 3)));
}

#[test]
fn find_substring_lines_multi_line_with_trailing_newline() {
    let h = "a\nb\nc\nd\n";
    assert_eq!(find_substring_lines(h, "b\nc\n"), Some((2, 3)));
}

#[test]
fn find_substring_lines_empty_needle_returns_none() {
    assert_eq!(find_substring_lines("anything", ""), None);
}

#[test]
fn find_substring_lines_absent_needle_returns_none() {
    assert_eq!(find_substring_lines("hello", "world"), None);
}

#[test]
fn find_substring_lines_takes_the_first_occurrence() {
    assert_eq!(find_substring_lines("x\nab\nab\n", "ab"), Some((2, 2)));
    assert_eq!(find_substring_lines("\n", "\n"), Some((1, 1)));
    assert_eq!(find_substring_lines("é\nü", "ü"), Some((2, 2)));
    assert_eq!(find_substring_lines("ab", "abc"), None);
}

fn line(n: usize, oid: &str, time: i64, email: Option<&str>) -> BlameLine {
    BlameLine {
        line_number: n,
        commit_oid: oid.into(),
        commit_time_unix: time,
        author_email: email.map(String::from),
    }
}

#[test]
fn enrich_with_blame_picks_earliest_and_latest_by_time() {
    let blame = vec![
        line(5, "old", 1_000, Some("a@x")),
        line(6, "new", 2_000, Some("b@x")),
        line(99, "out-of-range", 3_000, Some("c@x")),
    ];
    let info = enrich_with_blame(&blame, 5, 6).unwrap();
    assert_eq!(info.first_commit_oid, "old");
    assert_eq!(info.last_commit_oid, "new");
    assert_eq!(info.author_emails, vec!["a@x".to_string(), "b@x".to_string()]);
}

#[test]
fn enrich_with_blame_returns_none_when_no_lines_in_range() {
    let blame = vec![line(1, "x", 0, None)];
    assert!(enrich_with_blame(&blame, 50, 60).is_none());
}

#[test]
fn enrich_with_blame_ties_sorting_and_duplicates() {
    let blame = vec![
        line(1, "first-min", 10, Some("z@x")),
        line(2, "second-min", 10, None),
        line(3, "first-max", 20, Some("a@x")),
        line(4, "second-max", 20, Some("z@x")),
        line(5, "middle", 15, Some("m@x")),
    ];
    let info = enrich_with_blame(&blame, 1, 5).unwrap();
    assert_eq!(info.first_commit_oid, "first-min");
    assert_eq!(info.last_commit_oid, "second-max");
    assert_eq!(
        info.author_emails,
        vec!["a@x".to_string(), "m@x".to_string(), "z@x".to_string()]
    );
    let none = enrich_with_blame(&blame, 2, 2).unwrap();
    assert!(none.author_emails.is_empty());
    assert_eq!(none.first_commit_oid, "second-min");
}

#[test]
fn blame_hunks_expand_to_one_line_each() {
    let hunks = vec![
        BlameHunk {
            final_start_line: 1,
            lines_in_hunk: 2,
            commit_oid: "a".into(),
            commit_time_unix: 5,
            author_email: Some("a@x".into()),
        },
        BlameHunk {
            final_start_line: 3,
            lines_in_hunk: 0,
            commit_oid: "empty".into(),
            commit_time_unix: 6,
            author_email: None,
        },
        BlameHunk {
            final_start_line: 3,
            lines_in_hunk: 1,
            commit_oid: "b".into(),
            commit_time_unix: 7,
            author_email: None,
        },
    ];
    let lines = blame_lines_from_hunks(&hunks);
    assert_eq!(
        lines,
        vec![
            line(1, "a", 5, Some("a@x")),
            line(2, "a", 5, Some("a@x")),
            line(3, "b", 7, None)
        ]
    );
}

fn write_record(file_path: &str, content: &str) -> AttributionRecord {
    AttributionRecord {
        session_id: "sess-1".into(),
        uuid: "u-write-1".into(),
        parent_uuid: None,
        timestamp: "2026-04-28T10:00:00Z".into(),
        model: "sonnet-4-6".into(),
        tool_use_id: "toolu_w1".into(),
        tool: ClaudeTool::Write,
        file_path: file_path.into(),
        payload: ToolPayload::Write {
            content: content.into(),
        },
        git_branch: Some("main".into()),
        cwd: None,
    }
}

fn resolved(relative: &str, content: &str, blame_lines: Vec<BlameLine>) -> ResolvedFile {
    ResolvedFile {
        relative_path: relative.into(),
        content: content.into(),
        blame_lines,
    }
}

#[test]
fn write_inside_committed_file_yields_one_range_with_blame() {
    let body = "fn hello() {\n    println!(\"hi\");\n}\n";
    let record = write_record("/repo/src/lib.rs", body);
    let blame_lines = blame_lines_from_hunks(&[BlameHunk {
        final_start_line: 1,
        lines_in_hunk: 3,
        commit_oid: "c0ffee".into(),
        commit_time_unix: 1_700_000_000,
        author_email: Some("test@example.com".into()),
    }]);
    let rel = repo_relative("/repo/src/lib.rs", "/repo").unwrap();
    let ranges = attribute_ranges(&[record], &[Some(resolved(&rel, body, blame_lines))]);
    assert_eq!(ranges.len(), 1);
    let r = &ranges[0];
    assert_eq!(r.file_path, "src/lib.rs");
    assert_eq!(r.start_line, 1);
    assert_eq!(r.end_line, 3);
    let blame = r.blame.as_ref().expect("committed file should have blame");
    assert!(!blame.first_commit_oid.is_empty());
    assert_eq!(blame.author_emails, vec!["test@example.com".to_string()]);
}

#[test]
fn edit_needle_present_in_current_content_matches() {
    let body = "alpha\nbeta\ngamma\n";
    let record = AttributionRecord {
        session_id: "s".into(),
        uuid: "u-edit".into(),
        parent_uuid: None,
        timestamp: "2026-04-28T10:00:00Z".into(),
        model: "sonnet-4-6".into(),
        tool_use_id: "t".into(),
        tool: ClaudeTool::Edit,
        file_path: "/repo/notes.txt".into(),
        payload: ToolPayload::Edit {
            old_string: "beta".into(),
            new_string: "beta".into(),
            replace_all: false,
        },
        git_branch: None,
        cwd: None,
    };
    let ranges = attribute_ranges(&[record], &[Some(resolved("notes.txt", body, vec![]))]);
    assert_eq!(ranges.len(), 1);
    assert_eq!(ranges[0].start_line, 2);
    assert_eq!(ranges[0].end_line, 2);
    assert_eq!(ranges[0].content_hash, blake3::hash(b"beta").to_hex().to_string());
}

#[test]
fn multiedit_yields_one_range_per_edit() {
    let body = "alpha\nbeta\ngamma\ndelta\n";
    let record = AttributionRecord {
        session_id: "s".into(),
        uuid: "u-multi".into(),
        parent_uuid: None,
        timestamp: "2026-04-28T10:00:00Z".into(),
        model: "sonnet-4-6".into(),
        tool_use_id: "t".into(),
        tool: ClaudeTool::MultiEdit,
        file_path: "/repo/lines.txt".into(),
        payload: ToolPayload::MultiEdit {
            edits: vec![
                EditOperation {
                    old_string: "alpha".into(),
                    new_string: "alpha".into(),
                    replace_all: false,
                },
                EditOperation {
                    old_string: "delta".into(),
                    new_string: "delta".into(),
                    replace_all: false,
                },
            ],
        },
        git_branch: None,
        cwd: None,
    };
    let ranges = attribute_ranges(&[record], &[Some(resolved("lines.txt", body, vec![]))]);
    assert_eq!(ranges.len(), 2);
    assert_eq!(ranges[0].start_line, 1);
    assert_eq!(ranges[1].start_line, 4);
}

#[test]
fn record_pointing_outside_repo_is_skipped() {
    let record = write_record("/elsewhere/elsewhere.rs", "fn x() {}\n");
    assert_eq!(repo_relative("/elsewhere/elsewhere.rs", "/repo"), None);
    let ranges = attribute_ranges(&[record], &[None]);
    assert!(ranges.is_empty());
}

#[test]
fn record_for_deleted_file_is_skipped() {
    let record = write_record("/repo/ghost.rs", "fn ghost() {}\n");
    let ranges = attribute_ranges(&[record], &[None]);
    assert!(ranges.is_empty());
}

#[test]
fn untracked_file_yields_range_without_blame() {
    let body = "let x = 42;\n";
    let record = write_record("/repo/scratch.rs", body);
    let ranges = attribute_ranges(&[record], &[Some(resolved("scratch.rs", body, vec![]))]);
    assert_eq!(ranges.len(), 1);
    assert!(ranges[0].blame.is_none());
}

#[test]
fn hand_edited_needle_is_dropped_and_records_keep_order() {
    let a = write_record("/repo/a.rs", "fn a() {}\n");
    let b = write_record("/repo/b.rs", "fn b() {}\n");
    let c = write_record("/repo/c.rs", "fn c() {}\n");
    let ranges = attribute_ranges(
        &[a.clone(), b, c],
        &[
            Some(resolved("a.rs", "fn a() { changed }\n", vec![])),
            Some(resolved("b.rs", "// x\nfn b() {}\n", vec![])),
            Some(resolved("c.rs", "fn c() {}\n", vec![])),
        ],
    );
    let files: Vec<&str> = ranges.iter().map(|r| r.file_path.as_str()).collect();
    assert_eq!(files, vec!["b.rs", "c.rs"]);
    assert_eq!((ranges[0].start_line, ranges[0].end_line), (2, 2));
    assert!(ranges_for_record(&a, &resolved("a.rs", "", vec![])).is_empty());
}

#[test]
fn needles_follow_the_payload() {
    let multi = ToolPayload::MultiEdit {
        edits: vec![
            EditOperation { old_string: "a".into(), new_string: "".into(), replace_all: false },
            EditOperation { old_string: "b".into(), new_string: "B".into(), replace_all: true },
        ],
    };
    assert_eq!(extract_needles(&multi), vec!["B".to_string()]);
    let nb = ToolPayload::NotebookEdit { new_source: "src".into(), cell_id: None, edit_mode: None };
    assert_eq!(extract_needles(&nb), vec!["src".to_string()]);
    let edit = ToolPayload::Edit { old_string: "o".into(), new_string: "".into(), replace_all: false };
    assert_eq!(extract_needles(&edit), vec!["".to_string()]);
}

#[test]
fn candidate_paths_follow_path_join() {
    assert_eq!(candidate_path("/abs/x.rs", "/repo", Some("/cwd")), "/abs/x.rs");
    assert_eq!(candidate_path("x.rs", "/repo", Some("/cwd")), "/cwd/x.rs");
    assert_eq!(candidate_path("x.rs", "/repo/", None), "/repo/x.rs");
    assert_eq!(candidate_path("src/x.rs", "/repo", None), "/repo/src/x.rs");
}

#[test]
fn repo_relative_goes_by_whole_components() {
    assert_eq!(repo_relative("/repo/src/lib.rs", "/repo").as_deref(), Some("src/lib.rs"));
    assert_eq!(repo_relative("/repository/x", "/repo"), None);
    assert_eq!(repo_relative("/repo", "/repo").as_deref(), Some(""));
    assert_eq!(repo_relative("/repo//a/./b", "/repo/").as_deref(), Some("a/b"));
    assert_eq!(repo_relative("/a", "/a/b"), None);
}
