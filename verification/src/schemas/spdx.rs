//! SPDX 2.3 document shape: the subset that is emitted, nothing more.
//!
//! AI provenance rides in a snippet annotation: `annotationType = "OTHER"`,
//! `annotator = "Tool: prompt-bom-<v>"`, `comment = <JSON AiProvenance>`.
//! Field names follow SPDX's camelCase when written out.

use vstd::prelude::*;

verus! {

#[derive(Debug, Clone, PartialEq, Eq)]
pub struct SpdxDocument {
    pub spdx_version: String,
    pub data_license: String,
    pub spdxid: String,
    pub name: String,
    pub document_namespace: String,
    pub creation_info: CreationInfo,
    pub packages: Vec<SpdxPackage>,
    pub files: Vec<SpdxFile>,
    pub snippets: Vec<SpdxSnippet>,
    pub relationships: Vec<Relationship>,
}

#[derive(Debug, Clone, PartialEq, Eq)]
pub struct CreationInfo {
    pub creators: Vec<String>,
    pub created: String,
}

#[derive(Debug, Clone, PartialEq, Eq)]
pub struct SpdxPackage {
    pub spdxid: String,
    pub name: String,
    pub download_location: String,
    pub files_analyzed: bool,
    pub primary_package_purpose: String,
    pub license_concluded: String,
    pub copyright_text: String,
}

#[derive(Debug, Clone, PartialEq, Eq)]
pub struct SpdxFile {
    pub spdxid: String,
    pub file_name: String,
    pub checksums: Vec<Checksum>,
    pub license_concluded: String,
    pub copyright_text: String,
}

#[derive(Debug, Clone, PartialEq, Eq)]
pub struct Checksum {
    pub algorithm: String,
    pub checksum_value: String,
}

#[derive(Debug, Clone, PartialEq, Eq)]
pub struct SpdxSnippet {
    pub spdxid: String,
    pub snippet_from_file: String,
    pub ranges: Vec<SnippetRange>,
    pub license_concluded: String,
    pub copyright_text: String,
    pub annotations: Vec<Annotation>,
}

#[derive(Debug, Clone, PartialEq, Eq)]
pub struct SnippetRange {
    pub start_pointer: SnippetPointer,
    pub end_pointer: SnippetPointer,
}

#[derive(Debug, Clone, PartialEq, Eq)]
pub struct SnippetPointer {
    pub reference: String,
    pub line_number: usize,
}

#[derive(Debug, Clone, PartialEq, Eq)]
pub struct Annotation {
    pub annotation_type: String,
    pub annotator: String,
    pub annotation_date: String,
    pub comment: String,
}

#[derive(Debug, Clone, PartialEq, Eq)]
pub struct Relationship {
    pub spdx_element_id: String,
    pub relationship_type: String,
    pub related_spdx_element: String,
}

/// The payload encoded as JSON inside a snippet annotation's `comment`.
#[derive(Debug, Clone, PartialEq, Eq)]
pub struct AiProvenance {
    pub model: String,
    pub session_id: String,
    pub attribution_uuid: String,
    pub timestamp: String,
    pub blame: Option<BlameSummary>,
}

#[derive(Debug, Clone, PartialEq, Eq)]
pub struct BlameSummary {
    pub first_commit_oid: String,
    pub last_commit_oid: String,
    pub author_emails: Vec<String>,
}

} // verus!
