//! Attribution records derived from a coding-assistant session transcript.

use vstd::prelude::*;

verus! {

/// The assistant tool that produced the attribution.
#[derive(Debug, Clone, Copy, PartialEq, Eq, Structural)]
pub enum ClaudeTool {
    Write,
    Edit,
    MultiEdit,
    NotebookEdit,
}

/// One edit inside a `MultiEdit` invocation.
#[derive(Debug, Clone, PartialEq)]
pub struct EditOperation {
    pub old_string: String,
    pub new_string: String,
    pub replace_all: bool,
}

/// Tool-specific payload carried alongside an attribution record. Raw
/// strings are kept; they are hashed later, when ranges are annotated.
#[derive(Debug, Clone, PartialEq)]
pub enum ToolPayload {
    Write { content: String },
    Edit { old_string: String, new_string: String, replace_all: bool },
    MultiEdit { edits: Vec<EditOperation> },
    NotebookEdit { new_source: String, cell_id: Option<String>, edit_mode: Option<String> },
}

/// One AI-attributed file modification observed in an assistant session:
/// a single `tool_use` of `Write`, `Edit`, `MultiEdit` or `NotebookEdit`.
/// Paths are kept as the text the transcript gave.
#[derive(Debug, Clone, PartialEq)]
pub struct AttributionRecord {
    pub session_id: String,
    pub uuid: String,
    pub parent_uuid: Option<String>,
    pub timestamp: String,
    pub model: String,
    pub tool_use_id: String,
    pub tool: ClaudeTool,
    pub file_path: String,
    pub payload: ToolPayload,
    pub git_branch: Option<String>,
    pub cwd: Option<String>,
}

/// Git-blame summary for the lines covered by an [`AnnotatedRange`].
#[derive(Debug, Clone, PartialEq, Eq)]
pub struct BlameInfo {
    pub first_commit_oid: String,
    pub last_commit_oid: String,
    pub author_emails: Vec<String>,
}

/// A line range in a repository file that an [`AttributionRecord`]
/// resolved to. Lines are 1-based and inclusive; `file_path` is relative to
/// the repository root.
#[derive(Debug, Clone, PartialEq)]
pub struct AnnotatedRange {
    pub file_path: String,
    pub start_line: usize,
    pub end_line: usize,
    pub content_hash: String,
    pub attribution_uuid: String,
    pub model: String,
    pub session_id: String,
    pub timestamp: String,
    pub blame: Option<BlameInfo>,
}

/// The text of an optional string.
pub open spec fn opt_text(o: Option<String>) -> Option<Seq<char>> {
    match o {
        Some(s) => Some(s@),
        None => None,
    }
}

/// The mathematical shape of an [`EditOperation`].
pub struct EditView {
    pub old_string: Seq<char>,
    pub new_string: Seq<char>,
    pub replace_all: bool,
}

impl View for EditOperation {
    type V = EditView;

    open spec fn view(&self) -> EditView {
        EditView {
            old_string: self.old_string@,
            new_string: self.new_string@,
            replace_all: self.replace_all,
        }
    }
}

/// The mathematical shape of a [`ToolPayload`].
pub enum PayloadView {
    Write { content: Seq<char> },
    Edit { old_string: Seq<char>, new_string: Seq<char>, replace_all: bool },
    MultiEdit { edits: Seq<EditView> },
    NotebookEdit {
        new_source: Seq<char>,
        cell_id: Option<Seq<char>>,
        edit_mode: Option<Seq<char>>,
    },
}

/// Views of a sequence of edits.
pub open spec fn edits_view(s: Seq<EditOperation>) -> Seq<EditView> {
    s.map_values(|e: EditOperation| e@)
}

impl View for ToolPayload {
    type V = PayloadView;

    open spec fn view(&self) -> PayloadView {
        match self {
            ToolPayload::Write { content } => PayloadView::Write { content: content@ },
            ToolPayload::Edit { old_string, new_string, replace_all } => PayloadView::Edit {
                old_string: old_string@,
                new_string: new_string@,
                replace_all: *replace_all,
            },
            ToolPayload::MultiEdit { edits } => PayloadView::MultiEdit { edits: edits_view(edits@) },
            ToolPayload::NotebookEdit { new_source, cell_id, edit_mode } => PayloadView::NotebookEdit {
                new_source: new_source@,
                cell_id: opt_text(*cell_id),
                edit_mode: opt_text(*edit_mode),
            },
        }
    }
}

/// The mathematical shape of an [`AttributionRecord`].
pub struct RecordView {
    pub session_id: Seq<char>,
    pub uuid: Seq<char>,
    pub parent_uuid: Option<Seq<char>>,
    pub timestamp: Seq<char>,
    pub model: Seq<char>,
    pub tool_use_id: Seq<char>,
    pub tool: ClaudeTool,
    pub file_path: Seq<char>,
    pub payload: PayloadView,
    pub git_branch: Option<Seq<char>>,
    pub cwd: Option<Seq<char>>,
}

impl View for AttributionRecord {
    type V = RecordView;

    open spec fn view(&self) -> RecordView {
        RecordView {
            session_id: self.session_id@,
            uuid: self.uuid@,
            parent_uuid: opt_text(self.parent_uuid),
            timestamp: self.timestamp@,
            model: self.model@,
            tool_use_id: self.tool_use_id@,
            tool: self.tool,
            file_path: self.file_path@,
            payload: self.payload@,
            git_branch: opt_text(self.git_branch),
            cwd: opt_text(self.cwd),
        }
    }
}

/// Views of a sequence of records.
pub open spec fn records_view(s: Seq<AttributionRecord>) -> Seq<RecordView> {
    s.map_values(|r: AttributionRecord| r@)
}

/// The mathematical shape of a [`BlameInfo`].
pub struct BlameView {
    pub first_commit_oid: Seq<char>,
    pub last_commit_oid: Seq<char>,
    pub author_emails: Seq<Seq<char>>,
}

/// Texts of a sequence of strings.
pub open spec fn texts(s: Seq<String>) -> Seq<Seq<char>> {
    s.map_values(|x: String| x@)
}

impl View for BlameInfo {
    type V = BlameView;

    open spec fn view(&self) -> BlameView {
        BlameView {
            first_commit_oid: self.first_commit_oid@,
            last_commit_oid: self.last_commit_oid@,
            author_emails: texts(self.author_emails@),
        }
    }
}

/// The view of an optional blame summary.
pub open spec fn opt_blame(o: Option<BlameInfo>) -> Option<BlameView> {
    match o {
        Some(b) => Some(b@),
        None => None,
    }
}

/// The mathematical shape of an [`AnnotatedRange`].
pub struct RangeView {
    pub file_path: Seq<char>,
    pub start_line: nat,
    pub end_line: nat,
    pub content_hash: Seq<char>,
    pub attribution_uuid: Seq<char>,
    pub model: Seq<char>,
    pub session_id: Seq<char>,
    pub timestamp: Seq<char>,
    pub blame: Option<BlameView>,
}

impl View for AnnotatedRange {
    type V = RangeView;

    open spec fn view(&self) -> RangeView {
        RangeView {
            file_path: self.file_path@,
            start_line: self.start_line as nat,
            end_line: self.end_line as nat,
            content_hash: self.content_hash@,
            attribution_uuid: self.attribution_uuid@,
            model: self.model@,
            session_id: self.session_id@,
            timestamp: self.timestamp@,
            blame: opt_blame(self.blame),
        }
    }
}

/// Views of a sequence of ranges.
pub open spec fn ranges_view(s: Seq<AnnotatedRange>) -> Seq<RangeView> {
    s.map_values(|r: AnnotatedRange| r@)
}

} // verus!
