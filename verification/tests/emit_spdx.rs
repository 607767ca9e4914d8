use prompt_bom::schemas::attribution::{AnnotatedRange, BlameInfo};
use prompt_bom::schemas::spdx::{AiProvenance, BlameSummary, SpdxDocument};
use prompt_bom::services::spdx_emit::{emit_spdx, provenance_to_json, EmitOptions, FileContents};

fn sample_ranges() -> Vec<AnnotatedRange> {
    vec![
        AnnotatedRange {
            file_path: "src/lib.rs".into(),
            start_line: 1,
            end_line: 1,
            content_hash: "abc".into(),
            attribution_uuid: "u-1".into(),
            model: "sonnet-4-6".into(),
            session_id: "sess-1".into(),
            timestamp: "2026-04-28T09:00:01Z".into(),
            blame: None,
        },
        AnnotatedRange {
            file_path: "src/lib.rs".into(),
            start_line: 5,
            end_line: 7,
            content_hash: "def".into(),
            attribution_uuid: "u-2".into(),
            model: "sonnet-4-6".into(),
            session_id: "sess-1".into(),
            timestamp: "2026-04-28T09:00:02Z".into(),
            blame: Some(BlameInfo {
                first_commit_oid: "0000000000000000000000000000000000000001".into(),
                last_commit_oid: "0000000000000000000000000000000000000002".into(),
                author_emails: vec!["dev@example.com".into()],
            }),
        },
        AnnotatedRange {
            file_path: "src/main.rs".into(),
            start_line: 1,
            end_line: 1,
            content_hash: "ghi".into(),
            attribution_uuid: "u-3".into(),
            model: "sonnet-4-6".into(),
            session_id: "sess-1".into(),
            timestamp: "2026-04-28T09:00:03Z".into(),
            blame: None,
        },
    ]
}

fn sample_file_contents() -> FileContents {
    let mut m = FileContents::new();
    m.insert(
        "src/lib.rs".to_string(),
        b"pub fn one() {}\n\n\n\nfn two() {\n    1\n}\n".to_vec(),
    );
    m.insert("src/main.rs".to_string(), b"fn main() {}\n".to_vec());
    m
}

fn sample_opts() -> EmitOptions {
    EmitOptions {
        project_name: "demo".into(),
        document_namespace: "https://verepdev.github.io/demo/0123456789abcdef".into(),
        created_iso: "2026-04-28T09:00:00Z".into(),
        tool_id: "Tool: prompt-bom-test".into(),
    }
}

fn build_doc() -> SpdxDocument {
    emit_spdx(&sample_ranges(), &sample_file_contents(), &sample_opts()).expect("emit_spdx")
}

#[test]
fn document_top_level_fields() {
    let doc = build_doc();
    assert_eq!(doc.spdx_version, "SPDX-2.3");
    assert_eq!(doc.data_license, "CC0-1.0");
    assert_eq!(doc.spdxid, "SPDXRef-DOCUMENT");
    assert_eq!(doc.name, "demo");
    assert_eq!(doc.creation_info.created, "2026-04-28T09:00:00Z");
    assert_eq!(doc.creation_info.creators, vec!["Tool: prompt-bom-test"]);
}

#[test]
fn one_file_per_unique_path_sorted() {
    let doc = build_doc();
    assert_eq!(doc.files.len(), 2);
    assert_eq!(doc.files[0].file_name, "./src/lib.rs");
    assert_eq!(doc.files[0].spdxid, "SPDXRef-File-1");
    assert_eq!(doc.files[1].file_name, "./src/main.rs");
    assert_eq!(doc.files[1].spdxid, "SPDXRef-File-2");
}

#[test]
fn checksums_use_blake3() {
    let doc = build_doc();
    for file in &doc.files {
        assert_eq!(file.checksums.len(), 1);
        assert_eq!(file.checksums[0].algorithm, "BLAKE3");
        assert_eq!(file.checksums[0].checksum_value.len(), 64);
    }
    assert_eq!(
        doc.files[1].checksums[0].checksum_value,
        blake3::hash(b"fn main() {}\n").to_hex().to_string()
    );
}

#[test]
fn one_snippet_per_range_in_input_order() {
    let doc = build_doc();
    assert_eq!(doc.snippets.len(), 3);
    assert_eq!(doc.snippets[0].spdxid, "SPDXRef-Snippet-1");
    assert_eq!(doc.snippets[0].snippet_from_file, "SPDXRef-File-1");
    assert_eq!(doc.snippets[1].snippet_from_file, "SPDXRef-File-1");
    assert_eq!(doc.snippets[2].snippet_from_file, "SPDXRef-File-2");
}

#[test]
fn snippet_range_carries_line_numbers() {
    let doc = build_doc();
    let r = &doc.snippets[1].ranges[0];
    assert_eq!(r.start_pointer.line_number, 5);
    assert_eq!(r.end_pointer.line_number, 7);
    assert_eq!(r.start_pointer.reference, "SPDXRef-File-1");
}

#[test]
fn annotation_comment_round_trips_to_ai_provenance() {
    let doc = build_doc();
    let comment = &doc.snippets[0].annotations[0].comment;
    let prov: serde_json::Value = serde_json::from_str(comment).expect("parse AiProvenance");
    assert_eq!(prov["attributionUuid"], "u-1");
    assert_eq!(prov["model"], "sonnet-4-6");
    assert_eq!(prov["sessionId"], "sess-1");
    assert_eq!(prov["timestamp"], "2026-04-28T09:00:01Z");
    assert!(prov.get("blame").is_none());

    let with_blame: serde_json::Value =
        serde_json::from_str(&doc.snippets[1].annotations[0].comment).unwrap();
    assert_eq!(with_blame["attributionUuid"], "u-2");
    assert_eq!(with_blame["sessionId"], "sess-1");
    assert_eq!(with_blame["timestamp"], "2026-04-28T09:00:02Z");
    let blame = with_blame.get("blame").expect("expected blame on snippet 2");
    assert_eq!(blame["firstCommitOid"], "0000000000000000000000000000000000000001");
    assert_eq!(blame["lastCommitOid"], "0000000000000000000000000000000000000002");
    let emails = blame["authorEmails"].as_array().expect("authorEmails array");
    assert_eq!(emails.len(), 1);
    assert_eq!(emails[0], "dev@example.com");
}

#[test]
fn relationships_describe_package_and_contain_files() {
    let doc = build_doc();
    assert_eq!(doc.relationships.len(), 3);
    assert_eq!(doc.relationships[0].relationship_type, "DESCRIBES");
    assert_eq!(
        doc.relationships[0].related_spdx_element,
        "SPDXRef-Package-Project"
    );
    assert!(doc.relationships.iter().skip(1).all(
        |r| r.relationship_type == "CONTAINS" && r.spdx_element_id == "SPDXRef-Package-Project"
    ));
}

#[test]
fn missing_file_content_is_an_error() {
    let ranges = sample_ranges();
    let mut contents = sample_file_contents();
    contents.remove("src/lib.rs");
    let err = emit_spdx(&ranges, &contents, &sample_opts()).unwrap_err();
    assert!(err.message().contains("src/lib.rs"));
}

#[test]
fn document_is_deterministic() {
    assert_eq!(build_doc(), build_doc());
}

#[test]
fn missing_content_names_the_first_missing_path_in_order() {
    let ranges = sample_ranges();
    let contents = FileContents::new();
    let err = emit_spdx(&ranges, &contents, &sample_opts()).unwrap_err();
    assert_eq!(err.message(), "config: spdx_emit: missing file content for src/lib.rs");
}

#[test]
fn files_are_ordered_by_path_components_and_deduplicated() {
    let mut ranges = sample_ranges();
    ranges[0].file_path = "a-b".into();
    ranges[1].file_path = "a/b".into();
    ranges[2].file_path = "a//b".into();
    let mut contents = FileContents::new();
    contents.insert("a-b".into(), b"1".to_vec());
    contents.insert("a/b".into(), b"2".to_vec());
    let doc = emit_spdx(&ranges, &contents, &sample_opts()).unwrap();
    assert_eq!(doc.files.len(), 2);
    // Components order: "a" < "a-b", so a/b comes first; the last spelling wins.
    assert_eq!(doc.files[0].file_name, "./a//b");
    assert_eq!(doc.files[1].file_name, "./a-b");
    assert_eq!(doc.snippets[0].snippet_from_file, "SPDXRef-File-2");
    assert_eq!(doc.snippets[1].snippet_from_file, "SPDXRef-File-1");
    assert_eq!(doc.snippets[2].snippet_from_file, "SPDXRef-File-1");
    assert_eq!(doc.relationships[2].related_spdx_element, "SPDXRef-File-2");
}

#[test]
fn empty_range_list_gives_an_empty_document() {
    let doc = emit_spdx(&[], &FileContents::new(), &sample_opts()).unwrap();
    assert!(doc.files.is_empty());
    assert!(doc.snippets.is_empty());
    assert_eq!(doc.relationships.len(), 1);
    assert_eq!(doc.packages[0].name, "demo");
    assert_eq!(doc.packages[0].primary_package_purpose, "SOURCE");
    assert!(!doc.packages[0].files_analyzed);
}

#[test]
fn provenance_json_matches_the_serde_layout_and_escapes() {
    let p = AiProvenance {
        model: "m\"q".into(),
        session_id: "s".into(),
        attribution_uuid: "u".into(),
        timestamp: "t\n".into(),
        blame: Some(BlameSummary {
            first_commit_oid: "f".into(),
            last_commit_oid: "l".into(),
            author_emails: vec!["a@x".into(), "b@x".into()],
        }),
    };
    assert_eq!(
        provenance_to_json(&p),
        "{\"model\":\"m\\\"q\",\"sessionId\":\"s\",\"attributionUuid\":\"u\",\"timestamp\":\"t\\n\",\"blame\":{\"firstCommitOid\":\"f\",\"lastCommitOid\":\"l\",\"authorEmails\":[\"a@x\",\"b@x\"]}}"
    );
    let q = AiProvenance { blame: None, ..p };
    assert_eq!(
        provenance_to_json(&q),
        "{\"model\":\"m\\\"q\",\"sessionId\":\"s\",\"attributionUuid\":\"u\",\"timestamp\":\"t\\n\"}"
    );
}

#[test]
fn file_contents_treat_equal_paths_as_one() {
    let mut c = FileContents::new();
    c.insert("src/lib.rs".into(), b"old".to_vec());
    c.insert("src//lib.rs".into(), b"new".to_vec());
    assert_eq!(c.get("./src/lib.rs"), None);
    assert_eq!(c.get("src/lib.rs/"), Some(&b"new".to_vec()));
    assert!(c.contains_key("src/./lib.rs"));
    c.remove("src/lib.rs");
    assert!(!c.contains_key("src/lib.rs"));
}

#[test]
fn file_contents_read_back_what_was_stored() {
    let mut c = FileContents::new();
    c.insert("a.rs".into(), b"one".to_vec());
    c.insert("b.rs".into(), b"two".to_vec());
    assert_eq!(c.get("a.rs"), Some(&b"one".to_vec()));
    c.insert("a.rs".into(), b"three".to_vec());
    assert_eq!(c.get("a.rs"), Some(&b"three".to_vec()));
    assert_eq!(c.get("b.rs"), Some(&b"two".to_vec()));
    c.remove("a.rs");
    assert_eq!(c.get("a.rs"), None);
    assert_eq!(c.get("b.rs"), Some(&b"two".to_vec()));
}

#[test]
fn reordering_ranges_reorders_only_the_snippets() {
    let ranges = sample_ranges();
    let perm = [2usize, 0, 1];
    let shuffled: Vec<AnnotatedRange> = perm.iter().map(|&i| ranges[i].clone()).collect();
    let mut extra = sample_file_contents();
    extra.insert("unused.rs".into(), b"x".to_vec());
    let d1 = emit_spdx(&ranges, &sample_file_contents(), &sample_opts()).unwrap();
    let d2 = emit_spdx(&shuffled, &extra, &sample_opts()).unwrap();
    assert_eq!(d2.files, d1.files);
    assert_eq!(d2.relationships, d1.relationships);
    assert_eq!(d2.packages, d1.packages);
    assert_eq!(d2.creation_info, d1.creation_info);
    for (j, &i) in perm.iter().enumerate() {
        let mut expected = d1.snippets[i].clone();
        expected.spdxid = format!("SPDXRef-Snippet-{}", j + 1);
        assert_eq!(d2.snippets[j], expected);
    }
}

#[test]
fn provenance_json_escapes_backslashes_and_control_characters() {
    let p = AiProvenance {
        model: "a\\b\u{1}\u{1f}\u{8}\u{c}\r\t\u{7f}é".into(),
        session_id: "/".into(),
        attribution_uuid: "u".into(),
        timestamp: "t".into(),
        blame: None,
    };
    assert_eq!(
        provenance_to_json(&p),
        "{\"model\":\"a\\\\b\\u0001\\u001f\\b\\f\\r\\t\u{7f}é\",\"sessionId\":\"/\",\"attributionUuid\":\"u\",\"timestamp\":\"t\"}"
    );
}
