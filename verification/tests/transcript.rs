use prompt_bom::schemas::attribution::{ClaudeTool, ToolPayload};
use prompt_bom::services::transcript::parse_from_reader;

fn assistant_line_with_write() -> &'static str {
    r#"{"type":"assistant","sessionId":"sess-1","uuid":"u-1","timestamp":"2026-04-28T10:00:00Z","gitBranch":"main","cwd":"C:/repo","message":{"model":"sonnet-4-6","content":[{"type":"tool_use","id":"toolu_1","name":"Write","input":{"file_path":"src/lib.rs","content":"pub fn hello() {}\n"}}]}}"#
}

#[test]
fn parses_assistant_write_tool_use() {
    let records = parse_from_reader(assistant_line_with_write().as_bytes()).unwrap();
    assert_eq!(records.len(), 1);
    let r = &records[0];
    assert_eq!(r.session_id, "sess-1");
    assert_eq!(r.uuid, "u-1");
    assert_eq!(r.model, "sonnet-4-6");
    assert_eq!(r.tool, ClaudeTool::Write);
    assert_eq!(r.file_path, "src/lib.rs");
    assert_eq!(r.git_branch.as_deref(), Some("main"));
    match &r.payload {
        ToolPayload::Write { content } => assert!(content.contains("hello")),
        other => panic!("expected Write payload, got {other:?}"),
    }
}

#[test]
fn user_and_system_lines_are_filtered_out() {
    let input = r#"{"type":"user","sessionId":"s","uuid":"u","message":{"content":[]}}
{"type":"system","sessionId":"s","uuid":"u2"}
"#;
    let records = parse_from_reader(input.as_bytes()).unwrap();
    assert!(records.is_empty());
}

#[test]
fn assistant_without_tool_use_yields_no_records() {
    let input = r#"{"type":"assistant","sessionId":"s","uuid":"u","timestamp":"t","message":{"model":"m","content":[{"type":"text","text":"hi"}]}}"#;
    let records = parse_from_reader(input.as_bytes()).unwrap();
    assert!(records.is_empty());
}

#[test]
fn unknown_tool_name_is_skipped_silently() {
    let input = r#"{"type":"assistant","sessionId":"s","uuid":"u","timestamp":"t","message":{"model":"m","content":[{"type":"tool_use","id":"t1","name":"BashFutureTool","input":{"file_path":"x","cmd":"y"}}]}}"#;
    let records = parse_from_reader(input.as_bytes()).unwrap();
    assert!(records.is_empty());
}

#[test]
fn missing_session_id_skips_line() {
    let input = r#"{"type":"assistant","uuid":"u","message":{"model":"m","content":[]}}"#;
    let records = parse_from_reader(input.as_bytes()).unwrap();
    assert!(records.is_empty());
}

#[test]
fn parses_edit_payload() {
    let input = r#"{"type":"assistant","sessionId":"s","uuid":"u","timestamp":"t","message":{"model":"m","content":[{"type":"tool_use","id":"t1","name":"Edit","input":{"file_path":"a.rs","old_string":"foo","new_string":"bar","replace_all":true}}]}}"#;
    let records = parse_from_reader(input.as_bytes()).unwrap();
    assert_eq!(records.len(), 1);
    match &records[0].payload {
        ToolPayload::Edit {
            old_string,
            new_string,
            replace_all,
        } => {
            assert_eq!(old_string, "foo");
            assert_eq!(new_string, "bar");
            assert!(*replace_all);
        }
        other => panic!("expected Edit payload, got {other:?}"),
    }
}

#[test]
fn parses_multiedit_with_default_replace_all() {
    let input = r#"{"type":"assistant","sessionId":"s","uuid":"u","timestamp":"t","message":{"model":"m","content":[{"type":"tool_use","id":"t1","name":"MultiEdit","input":{"file_path":"a.rs","edits":[{"old_string":"a","new_string":"b"},{"old_string":"c","new_string":"d","replace_all":true}]}}]}}"#;
    let records = parse_from_reader(input.as_bytes()).unwrap();
    assert_eq!(records.len(), 1);
    match &records[0].payload {
        ToolPayload::MultiEdit { edits } => {
            assert_eq!(edits.len(), 2);
            assert!(!edits[0].replace_all);
            assert!(edits[1].replace_all);
        }
        other => panic!("expected MultiEdit, got {other:?}"),
    }
}

#[test]
fn notebook_edit_keeps_cell_and_mode() {
    let input = r#"{"type":"assistant","sessionId":"s","uuid":"u","parentUuid":"p","timestamp":"t","message":{"model":"m","content":[{"type":"tool_use","id":"t9","name":"NotebookEdit","input":{"file_path":"notebook.ipynb","new_source":"import math","cell_id":"cell-1","edit_mode":"replace"}}]}}"#;
    let records = parse_from_reader(input.as_bytes()).unwrap();
    assert_eq!(records.len(), 1);
    let r = &records[0];
    assert_eq!(r.tool, ClaudeTool::NotebookEdit);
    assert_eq!(r.parent_uuid.as_deref(), Some("p"));
    assert_eq!(r.tool_use_id, "t9");
    assert_eq!(r.file_path, "notebook.ipynb");
    match &r.payload {
        ToolPayload::NotebookEdit { new_source, cell_id, edit_mode } => {
            assert_eq!(new_source, "import math");
            assert_eq!(cell_id.as_deref(), Some("cell-1"));
            assert_eq!(edit_mode.as_deref(), Some("replace"));
        }
        other => panic!("expected NotebookEdit, got {other:?}"),
    }
}

#[test]
fn malformed_and_blank_lines_do_not_stop_the_parse() {
    let input = format!("\n   \nnot-json\n{}\n\u{ff}\u{fe}\n", assistant_line_with_write());
    let mut bytes = input.into_bytes();
    bytes.extend_from_slice(&[0xff, 0xfe, b'\n']);
    bytes.extend_from_slice(assistant_line_with_write().as_bytes());
    let records = parse_from_reader(&bytes).unwrap();
    assert_eq!(records.len(), 2);
    assert!(records.iter().all(|r| r.uuid == "u-1"));
}

#[test]
fn tool_use_items_keep_their_order_and_drop_incomplete_ones() {
    let input = r#"{"type":"assistant","sessionId":"s","uuid":"u","message":{"content":[
{"type":"tool_use","id":"a","name":"Write","input":{"file_path":"a","content":"x"}},
{"type":"tool_use","id":"b","name":"Write","input":{"content":"no path"}},
{"type":"tool_use","id":"c","name":"Edit","input":{"file_path":"c","old_string":"o"}},
{"type":"tool_use","name":"Write","input":{"file_path":"d","content":"no id"}},
{"type":"tool_use","id":"e","name":"Edit","input":{"file_path":"e","old_string":"o","new_string":"n"}}]}}"#
        .replace('\n', "");
    let records = parse_from_reader(input.as_bytes()).unwrap();
    let ids: Vec<&str> = records.iter().map(|r| r.tool_use_id.as_str()).collect();
    assert_eq!(ids, vec!["a", "e"]);
    assert_eq!(records[0].timestamp, "");
    assert_eq!(records[0].model, "");
    assert_eq!(records[0].cwd, None);
}

#[test]
fn multiedit_drops_edits_without_strings() {
    let input = r#"{"type":"assistant","sessionId":"s","uuid":"u","message":{"content":[{"type":"tool_use","id":"t","name":"MultiEdit","input":{"file_path":"f","edits":[{"old_string":"a"},{"old_string":"b","new_string":"c"},3]}}]}}"#;
    let records = parse_from_reader(input.as_bytes()).unwrap();
    match &records[0].payload {
        ToolPayload::MultiEdit { edits } => {
            assert_eq!(edits.len(), 1);
            assert_eq!(edits[0].new_string, "c");
        }
        other => panic!("expected MultiEdit, got {other:?}"),
    }
}
