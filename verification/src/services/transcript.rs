//! Coding-assistant JSONL session transcripts into [`AttributionRecord`]s.
//!
//! Each line is read; only `type == "assistant"` messages that carry a
//! `sessionId` and a `uuid` count. Each `tool_use` item of their
//! `message.content` that names one of the four file-mutating tools, with
//! the inputs that tool needs, yields one record. Malformed lines and items
//! are skipped: partial transcripts are common around session boundaries.

use crate::error::AppError;
use crate::json::{
    items_tree, lemma_items_tree, opt_array, opt_bool, opt_get, opt_str, tree_get, JsonTree,
    JsonValue,
};
use crate::repos::jsonl_reader::{
    first_newline, lemma_outcomes_append, line_count, line_outcome, outcomes_from, outcomes_view,
    read_records, read_records_spec, LineOutcome,
};
use crate::schemas::attribution::{
    edits_view, opt_text, records_view, AttributionRecord, ClaudeTool, EditOperation, EditView,
    PayloadView, RecordView, ToolPayload,
};
use crate::text::str_is;
use vstd::prelude::*;

verus! {

/// A flag that defaults to `false` when absent.
pub open spec fn flag_or_false(o: Option<bool>) -> bool {
    match o {
        Some(b) => b,
        None => false,
    }
}

/// A text that defaults to empty when absent.
pub open spec fn text_or_empty(o: Option<Seq<char>>) -> Seq<char> {
    match o {
        Some(s) => s,
        None => Seq::empty(),
    }
}

/// One `MultiEdit` edit: needs `old_string` and `new_string`.
pub open spec fn spec_edit_op(t: JsonTree) -> Option<EditView> {
    match opt_str(tree_get(t, "old_string"@)) {
        None => None,
        Some(o) => match opt_str(tree_get(t, "new_string"@)) {
            None => None,
            Some(n) => Some(
                EditView {
                    old_string: o,
                    new_string: n,
                    replace_all: flag_or_false(opt_bool(tree_get(t, "replace_all"@))),
                },
            ),
        },
    }
}

/// The well-formed edits among `items`, in order.
pub open spec fn spec_edit_ops(items: Seq<JsonTree>) -> Seq<EditView>
    decreases items.len(),
{
    if items.len() == 0 {
        Seq::empty()
    } else {
        spec_edit_ops(items.drop_last()) + match spec_edit_op(items.last()) {
            Some(e) => seq![e],
            None => Seq::empty(),
        }
    }
}

/// The tool and payload that a tool named `name` with this `input` gives.
pub open spec fn spec_tool_payload(name: Seq<char>, input: JsonTree) -> Option<(ClaudeTool, PayloadView)> {
    if name == "Write"@ {
        match opt_str(tree_get(input, "content"@)) {
            Some(c) => Some((ClaudeTool::Write, PayloadView::Write { content: c })),
            None => None,
        }
    } else if name == "Edit"@ {
        match opt_str(tree_get(input, "old_string"@)) {
            None => None,
            Some(o) => match opt_str(tree_get(input, "new_string"@)) {
                None => None,
                Some(n) => Some(
                    (
                        ClaudeTool::Edit,
                        PayloadView::Edit {
                            old_string: o,
                            new_string: n,
                            replace_all: flag_or_false(opt_bool(tree_get(input, "replace_all"@))),
                        },
                    ),
                ),
            },
        }
    } else if name == "MultiEdit"@ {
        match opt_array(tree_get(input, "edits"@)) {
            Some(es) => Some((ClaudeTool::MultiEdit, PayloadView::MultiEdit { edits: spec_edit_ops(es) })),
            None => None,
        }
    } else if name == "NotebookEdit"@ {
        match opt_str(tree_get(input, "new_source"@)) {
            Some(src) => Some(
                (
                    ClaudeTool::NotebookEdit,
                    PayloadView::NotebookEdit {
                        new_source: src,
                        cell_id: opt_str(tree_get(input, "cell_id"@)),
                        edit_mode: opt_str(tree_get(input, "edit_mode"@)),
                    },
                ),
            ),
            None => None,
        }
    } else {
        None
    }
}

/// What a recognised `tool_use` item carries.
pub struct ToolUseView {
    pub tool: ClaudeTool,
    pub payload: PayloadView,
    pub file_path: Seq<char>,
    pub tool_use_id: Seq<char>,
}

/// A `tool_use` item with a `name`, an `id`, an `input` holding a
/// `file_path`, and the inputs its tool needs.
pub open spec fn spec_tool_use(item: JsonTree) -> Option<ToolUseView> {
    if opt_str(tree_get(item, "type"@)) != Some("tool_use"@) {
        None
    } else {
        match opt_str(tree_get(item, "name"@)) {
            None => None,
            Some(name) => match opt_str(tree_get(item, "id"@)) {
                None => None,
                Some(id) => match tree_get(item, "input"@) {
                    None => None,
                    Some(input) => match opt_str(tree_get(input, "file_path"@)) {
                        None => None,
                        Some(fp) => match spec_tool_payload(name, input) {
                            None => None,
                            Some((tool, payload)) => Some(
                                ToolUseView { tool, payload, file_path: fp, tool_use_id: id },
                            ),
                        },
                    },
                },
            },
        }
    }
}

/// The message-level fields every record of an assistant line shares.
pub struct LineHeader {
    pub session_id: Seq<char>,
    pub uuid: Seq<char>,
    pub parent_uuid: Option<Seq<char>>,
    pub timestamp: Seq<char>,
    pub model: Seq<char>,
    pub git_branch: Option<Seq<char>>,
    pub cwd: Option<Seq<char>>,
}

/// The header of an assistant line that has a `sessionId` and a `uuid`.
pub open spec fn spec_line_header(line: JsonTree) -> Option<LineHeader> {
    if opt_str(tree_get(line, "type"@)) != Some("assistant"@) {
        None
    } else {
        match opt_str(tree_get(line, "sessionId"@)) {
            None => None,
            Some(s) => match opt_str(tree_get(line, "uuid"@)) {
                None => None,
                Some(u) => Some(
                    LineHeader {
                        session_id: s,
                        uuid: u,
                        parent_uuid: opt_str(tree_get(line, "parentUuid"@)),
                        timestamp: text_or_empty(opt_str(tree_get(line, "timestamp"@))),
                        model: text_or_empty(opt_str(opt_get(tree_get(line, "message"@), "model"@))),
                        git_branch: opt_str(tree_get(line, "gitBranch"@)),
                        cwd: opt_str(tree_get(line, "cwd"@)),
                    },
                ),
            },
        }
    }
}

/// The record of one tool use under a line header.
pub open spec fn make_record(h: LineHeader, u: ToolUseView) -> RecordView {
    RecordView {
        session_id: h.session_id,
        uuid: h.uuid,
        parent_uuid: h.parent_uuid,
        timestamp: h.timestamp,
        model: h.model,
        tool_use_id: u.tool_use_id,
        tool: u.tool,
        file_path: u.file_path,
        payload: u.payload,
        git_branch: h.git_branch,
        cwd: h.cwd,
    }
}

/// One record per recognised tool use among `items`, in order.
pub open spec fn spec_records_for_items(h: LineHeader, items: Seq<JsonTree>) -> Seq<RecordView>
    decreases items.len(),
{
    if items.len() == 0 {
        Seq::empty()
    } else {
        spec_records_for_items(h, items.drop_last()) + match spec_tool_use(items.last()) {
            Some(u) => seq![make_record(h, u)],
            None => Seq::empty(),
        }
    }
}

/// The records that one transcript line yields.
pub open spec fn spec_extract_records(line: JsonTree) -> Seq<RecordView> {
    match spec_line_header(line) {
        None => Seq::empty(),
        Some(h) => match opt_array(opt_get(tree_get(line, "message"@), "content"@)) {
            None => Seq::empty(),
            Some(items) => spec_records_for_items(h, items),
        },
    }
}

/// Every record of a line header carries that header.
proof fn lemma_records_for_items_header(h: LineHeader, items: Seq<JsonTree>)
    ensures
        forall|k: int| 0 <= k < spec_records_for_items(h, items).len() ==> {
            let r = #[trigger] spec_records_for_items(h, items)[k];
            &&& r.session_id == h.session_id
            &&& r.uuid == h.uuid
            &&& r.timestamp == h.timestamp
            &&& r.model == h.model
        },
    decreases items.len(),
{
    if items.len() > 0 {
        lemma_records_for_items_header(h, items.drop_last());
        let p = spec_records_for_items(h, items.drop_last());
        let q = spec_records_for_items(h, items);
        assert forall|k: int| 0 <= k < q.len() implies {
            let r = #[trigger] q[k];
            &&& r.session_id == h.session_id
            &&& r.uuid == h.uuid
            &&& r.timestamp == h.timestamp
            &&& r.model == h.model
        } by {
            if k < p.len() {
                assert(q[k] == p[k]);
            }
        }
    }
}

/// The records of a line come only from an assistant line, and each carries
/// the line's own `sessionId` and `uuid`, its top-level `timestamp` (empty
/// when it has none) and the model named in its `message`.
pub proof fn lemma_records_carry_line(line: JsonTree)
    ensures
        forall|k: int| 0 <= k < spec_extract_records(line).len() ==> {
            let r = #[trigger] spec_extract_records(line)[k];
            &&& opt_str(tree_get(line, "type"@)) == Some("assistant"@)
            &&& opt_str(tree_get(line, "sessionId"@)) == Some(r.session_id)
            &&& opt_str(tree_get(line, "uuid"@)) == Some(r.uuid)
            &&& opt_str(tree_get(line, "timestamp"@)) matches Some(t) ==> r.timestamp == t
            &&& opt_str(tree_get(line, "timestamp"@)) is None ==> r.timestamp == Seq::<char>::empty()
            &&& opt_str(opt_get(tree_get(line, "message"@), "model"@)) matches Some(m) ==> r.model == m
        },
{
    match spec_line_header(line) {
        None => {},
        Some(h) => match opt_array(opt_get(tree_get(line, "message"@), "content"@)) {
            None => {},
            Some(items) => {
                lemma_records_for_items_header(h, items);
            },
        },
    }
}

/// The records of a whole transcript: those of each line that parsed, in
/// line order; lines that failed to read or parse yield none.
pub open spec fn spec_transcript(outs: Seq<LineOutcome>) -> Seq<RecordView>
    decreases outs.len(),
{
    if outs.len() == 0 {
        Seq::empty()
    } else {
        spec_transcript(outs.drop_last()) + match outs.last() {
            Ok(t) => spec_extract_records(t),
            Err(_) => Seq::empty(),
        }
    }
}

/// The records of a transcript's bytes.
pub open spec fn transcript_records(b: Seq<u8>) -> Seq<RecordView> {
    spec_transcript(read_records_spec(b))
}

/// Records of concatenated outcomes are the concatenated records.
pub proof fn lemma_transcript_concat(x: Seq<LineOutcome>, y: Seq<LineOutcome>)
    ensures
        spec_transcript(x + y) == spec_transcript(x) + spec_transcript(y),
    decreases y.len(),
{
    if y.len() == 0 {
        assert(x + y =~= x);
        assert(spec_transcript(x) + Seq::<RecordView>::empty() =~= spec_transcript(x));
    } else {
        lemma_transcript_concat(x, y.drop_last());
        assert((x + y).drop_last() =~= x + y.drop_last());
        assert((x + y).last() == y.last());
    }
}

/// Line numbers only show in errors, so the records of a run of lines do
/// not depend on where the numbering starts.
pub proof fn lemma_records_ignore_numbering(b: Seq<u8>, i: nat, j: nat)
    ensures
        spec_transcript(outcomes_from(b, i)) == spec_transcript(outcomes_from(b, j)),
    decreases b.len(),
{
    if b.len() > 0 {
        let n = first_newline(b);
        let line = b.take(n as int);
        let hi = match line_outcome(i, line) {
            Some(o) => seq![o],
            None => Seq::<LineOutcome>::empty(),
        };
        let hj = match line_outcome(j, line) {
            Some(o) => seq![o],
            None => Seq::<LineOutcome>::empty(),
        };
        assert(spec_transcript(hi) == spec_transcript(hj)) by {
            if hi.len() > 0 {
                assert(spec_transcript(hi) == spec_transcript(hi.drop_last()) + match hi.last() {
                    Ok(t) => spec_extract_records(t),
                    Err(_) => Seq::<RecordView>::empty(),
                });
                assert(hi.drop_last() =~= Seq::<LineOutcome>::empty());
                assert(hj.drop_last() =~= Seq::<LineOutcome>::empty());
            }
        }
        if n < b.len() {
            let rest = b.skip(n + 1int);
            lemma_records_ignore_numbering(rest, (i + 1) as nat, (j + 1) as nat);
            lemma_transcript_concat(hi, outcomes_from(rest, (i + 1) as nat));
            lemma_transcript_concat(hj, outcomes_from(rest, (j + 1) as nat));
        }
    }
}

/// A transcript is read line by line: the records of two transcripts put
/// one after the other, the first ending at a line break, are the records
/// of the first followed by those of the second.
pub proof fn lemma_transcript_append(a: Seq<u8>, b: Seq<u8>)
    requires
        a.len() == 0 || a.last() == 10u8,
    ensures
        transcript_records(a + b) == transcript_records(a) + transcript_records(b),
{
    lemma_outcomes_append(a, b, 0);
    lemma_transcript_concat(outcomes_from(a, 0), outcomes_from(b, line_count(a)));
    lemma_records_ignore_numbering(b, line_count(a), 0);
}

/// Copies an optional string.
fn copy_opt(o: Option<&String>) -> (r: Option<String>)
    ensures
        opt_text(r) == crate::json::opt_string_view(o),
{
    match o {
        Some(s) => Some(s.clone()),
        None => None,
    }
}

/// Parses one `MultiEdit` edit.
pub fn parse_edit_op(value: &JsonValue) -> (res: Option<EditOperation>)
    ensures
        match res {
            Some(e) => spec_edit_op(value.tree()) == Some(e@),
            None => spec_edit_op(value.tree()) is None,
        },
{
    let old_string = match value.get_str("old_string") {
        Some(s) => s.clone(),
        None => return None,
    };
    let new_string = match value.get_str("new_string") {
        Some(s) => s.clone(),
        None => return None,
    };
    let replace_all = match value.get_bool("replace_all") {
        Some(b) => b,
        None => false,
    };
    Some(EditOperation { old_string, new_string, replace_all })
}

fn parse_edit_ops(items: &Vec<JsonValue>) -> (res: Vec<EditOperation>)
    ensures
        edits_view(res@) == spec_edit_ops(items_tree(items@)),
{
    let ghost t = items_tree(items@);
    proof {
        lemma_items_tree(items@);
    }
    let mut out: Vec<EditOperation> = Vec::new();
    let mut i: usize = 0;
    while i < items.len()
        invariant
            i <= items.len(),
            t == items_tree(items@),
            t.len() == items@.len(),
            forall|j: int| 0 <= j < items@.len() ==> #[trigger] t[j] == items@[j].tree(),
            edits_view(out@) == spec_edit_ops(t.take(i as int)),
        decreases items.len() - i,
    {
        assert(t.take(i + 1).drop_last() =~= t.take(i as int));
        assert(t.take(i + 1).last() == items@[i as int].tree());
        let ghost before = out@;
        match parse_edit_op(&items[i]) {
            Some(e) => {
                out.push(e);
            },
            None => {},
        }
        assert(edits_view(out@) =~= edits_view(before) + match spec_edit_op(items@[i as int].tree()) {
            Some(e) => seq![e],
            None => Seq::<EditView>::empty(),
        });
        i += 1;
    }
    assert(t.take(i as int) =~= t);
    out
}

fn tool_payload(name: &String, input: &JsonValue) -> (res: Option<(ClaudeTool, ToolPayload)>)
    ensures
        match res {
            Some((tool, payload)) => spec_tool_payload(name@, input.tree()) == Some((tool, payload@)),
            None => spec_tool_payload(name@, input.tree()) is None,
        },
{
    if str_is(name, "Write") {
        let content = match input.get_str("content") {
            Some(s) => s.clone(),
            None => return None,
        };
        Some((ClaudeTool::Write, ToolPayload::Write { content }))
    } else if str_is(name, "Edit") {
        let old_string = match input.get_str("old_string") {
            Some(s) => s.clone(),
            None => return None,
        };
        let new_string = match input.get_str("new_string") {
            Some(s) => s.clone(),
            None => return None,
        };
        let replace_all = match input.get_bool("replace_all") {
            Some(b) => b,
            None => false,
        };
        Some((ClaudeTool::Edit, ToolPayload::Edit { old_string, new_string, replace_all }))
    } else if str_is(name, "MultiEdit") {
        let edits = match input.get_array("edits") {
            Some(a) => parse_edit_ops(a),
            None => return None,
        };
        Some((ClaudeTool::MultiEdit, ToolPayload::MultiEdit { edits }))
    } else if str_is(name, "NotebookEdit") {
        let new_source = match input.get_str("new_source") {
            Some(s) => s.clone(),
            None => return None,
        };
        let cell_id = copy_opt(input.get_str("cell_id"));
        let edit_mode = copy_opt(input.get_str("edit_mode"));
        Some((ClaudeTool::NotebookEdit, ToolPayload::NotebookEdit { new_source, cell_id, edit_mode }))
    } else {
        None
    }
}

/// Recognises one `tool_use` content item.
pub fn parse_tool_use(item: &JsonValue) -> (res: Option<(ClaudeTool, ToolPayload, String, String)>)
    ensures
        match res {
            Some((tool, payload, file_path, id)) => spec_tool_use(item.tree()) == Some(
                ToolUseView { tool, payload: payload@, file_path: file_path@, tool_use_id: id@ },
            ),
            None => spec_tool_use(item.tree()) is None,
        },
{
    match item.get_str("type") {
        Some(t) => {
            if !str_is(t, "tool_use") {
                return None;
            }
        },
        None => return None,
    }
    let name = match item.get_str("name") {
        Some(s) => s,
        None => return None,
    };
    let id = match item.get_str("id") {
        Some(s) => s.clone(),
        None => return None,
    };
    let input = match item.get("input") {
        Some(v) => v,
        None => return None,
    };
    let file_path = match input.get_str("file_path") {
        Some(s) => s.clone(),
        None => return None,
    };
    match tool_payload(name, input) {
        Some((tool, payload)) => Some((tool, payload, file_path, id)),
        None => None,
    }
}

/// The records that one transcript line yields, one per recognised tool use
/// in `message.content`, in order.
pub fn extract_records(line: &JsonValue) -> (res: Vec<AttributionRecord>)
    ensures
        records_view(res@) == spec_extract_records(line.tree()),
{
    let mut out: Vec<AttributionRecord> = Vec::new();
    match line.get_str("type") {
        Some(t) => {
            if !str_is(t, "assistant") {
                return out;
            }
        },
        None => return out,
    }
    let session_id = match line.get_str("sessionId") {
        Some(s) => s,
        None => return out,
    };
    let uuid = match line.get_str("uuid") {
        Some(s) => s,
        None => return out,
    };
    let timestamp = match line.get_str("timestamp") {
        Some(s) => s.clone(),
        None => String::new(),
    };
    let parent_uuid = copy_opt(line.get_str("parentUuid"));
    let git_branch = copy_opt(line.get_str("gitBranch"));
    let cwd = copy_opt(line.get_str("cwd"));
    let message = line.get("message");
    let model = match message {
        Some(m) => match m.get_str("model") {
            Some(s) => s.clone(),
            None => String::new(),
        },
        None => String::new(),
    };
    let content = match message {
        Some(m) => m.get_array("content"),
        None => None,
    };
    let items = match content {
        Some(a) => a,
        None => return out,
    };
    let ghost h = spec_line_header(line.tree())->Some_0;
    assert(h.timestamp == timestamp@);
    assert(h.model == model@);
    let ghost t = items_tree(items@);
    proof {
        lemma_items_tree(items@);
    }
    let mut i: usize = 0;
    while i < items.len()
        invariant
            i <= items.len(),
            t == items_tree(items@),
            t.len() == items@.len(),
            forall|j: int| 0 <= j < items@.len() ==> #[trigger] t[j] == items@[j].tree(),
            h.session_id == session_id@,
            h.uuid == uuid@,
            h.parent_uuid == opt_text(parent_uuid),
            h.timestamp == timestamp@,
            h.model == model@,
            h.git_branch == opt_text(git_branch),
            h.cwd == opt_text(cwd),
            records_view(out@) == spec_records_for_items(h, t.take(i as int)),
        decreases items.len() - i,
    {
        assert(t.take(i + 1).drop_last() =~= t.take(i as int));
        assert(t.take(i + 1).last() == items@[i as int].tree());
        let ghost before = out@;
        match parse_tool_use(&items[i]) {
            Some((tool, payload, file_path, tool_use_id)) => {
                out.push(
                    AttributionRecord {
                        session_id: session_id.clone(),
                        uuid: uuid.clone(),
                        parent_uuid: parent_uuid.clone(),
                        timestamp: timestamp.clone(),
                        model: model.clone(),
                        tool_use_id,
                        tool,
                        file_path,
                        payload,
                        git_branch: git_branch.clone(),
                        cwd: cwd.clone(),
                    },
                );
            },
            None => {},
        }
        assert(records_view(out@) =~= records_view(before) + match spec_tool_use(items@[i as int].tree()) {
            Some(u) => seq![make_record(h, u)],
            None => Seq::<RecordView>::empty(),
        });
        i += 1;
    }
    assert(t.take(i as int) =~= t);
    out
}

/// Parses a whole JSONL transcript. Lines that fail to read or parse are
/// skipped, so this always succeeds.
pub fn parse_from_reader(input: &[u8]) -> (res: Result<Vec<AttributionRecord>, AppError>)
    ensures
        res matches Ok(v) && records_view(v@) == spec_transcript(read_records_spec(input@)),
{
    let values = read_records(input);
    let ghost outs = outcomes_view(values@);
    let mut out: Vec<AttributionRecord> = Vec::new();
    let mut i: usize = 0;
    while i < values.len()
        invariant
            i <= values.len(),
            outs == outcomes_view(values@),
            outs.len() == values@.len(),
            records_view(out@) == spec_transcript(outs.take(i as int)),
        decreases values.len() - i,
    {
        assert(outs.take(i + 1).drop_last() =~= outs.take(i as int));
        let ghost before = out@;
        match &values[i] {
            Ok(v) => {
                let mut recs = extract_records(v);
                out.append(&mut recs);
            },
            Err(_) => {},
        }
        assert(records_view(out@) =~= records_view(before) + match outs[i as int] {
            Ok(t) => spec_extract_records(t),
            Err(_) => Seq::<RecordView>::empty(),
        });
        i += 1;
    }
    assert(outs.take(i as int) =~= outs);
    Ok(out)
}

} // verus!
