//! A deterministic SPDX 2.3 document from a list of [`AnnotatedRange`]s.
//!
//! The emission is a pure function of the ranges, the contents of the files
//! they point into, and the [`EmitOptions`]: no clock, no file system.
//! Files come in path order (by `std::path` component order) and are
//! numbered in that order; snippets come in range order.

use crate::error::{AppError, ErrorKind};
use crate::hash::{blake3_digest, blake3_hex};
use crate::json::{json_quote, json_string_literal};
use crate::order::{lemma_sorted_same_keys, has_key, insert_keyed, lex_lt, same_key, strictly_sorted, lemma_lex_irreflexive, lemma_lex_asymmetric};
use crate::paths::{display_path, path_key, path_key_of, spdx_file_name, spec_spdx_file_name};
use crate::schemas::attribution::{AnnotatedRange, BlameInfo};
use crate::schemas::spdx::{
    AiProvenance, Annotation, BlameSummary, Checksum, CreationInfo, Relationship, SnippetPointer,
    SnippetRange, SpdxDocument, SpdxFile, SpdxPackage, SpdxSnippet,
};
use crate::text::{decimal, lower_hex, push_decimal, push_str};
use vstd::prelude::*;

verus! {

/// What the caller fixes about a document: nothing here is read from the
/// clock or the environment.
#[derive(Debug, Clone)]
pub struct EmitOptions {
    pub project_name: String,
    pub document_namespace: String,
    pub created_iso: String,
    pub tool_id: String,
}

/// JSON string literals of a sequence of texts, joined by `,`.
pub open spec fn json_string_list(items: Seq<Seq<char>>) -> Seq<char>
    decreases items.len(),
{
    if items.len() == 0 {
        Seq::empty()
    } else if items.len() == 1 {
        json_string_literal(items[0])
    } else {
        json_string_list(items.drop_last()) + ","@ + json_string_literal(items.last())
    }
}

/// The compact JSON object that `serde_json::to_string` writes for an
/// [`AiProvenance`]: camelCase keys in field order, `blame` left out when
/// absent.
pub open spec fn provenance_json(p: AiProvenance) -> Seq<char> {
    "{\"model\":"@ + json_string_literal(p.model@) + ",\"sessionId\":"@ + json_string_literal(
        p.session_id@,
    ) + ",\"attributionUuid\":"@ + json_string_literal(p.attribution_uuid@) + ",\"timestamp\":"@
        + json_string_literal(p.timestamp@) + match p.blame {
        None => Seq::empty(),
        Some(b) => ",\"blame\":{\"firstCommitOid\":"@ + json_string_literal(b.first_commit_oid@)
            + ",\"lastCommitOid\":"@ + json_string_literal(b.last_commit_oid@)
            + ",\"authorEmails\":["@ + json_string_list(
            b.author_emails@.map_values(|e: String| e@),
        ) + "]}"@,
    } + "}"@
}

/// The JSON text of an [`AiProvenance`].
pub fn provenance_to_json(p: &AiProvenance) -> (s: String)
    ensures
        s@ == provenance_json(*p),
{
    let mut s = "{\"model\":".to_owned();
    push_str(&mut s, json_quote(p.model.as_str()).as_str());
    push_str(&mut s, ",\"sessionId\":");
    push_str(&mut s, json_quote(p.session_id.as_str()).as_str());
    push_str(&mut s, ",\"attributionUuid\":");
    push_str(&mut s, json_quote(p.attribution_uuid.as_str()).as_str());
    push_str(&mut s, ",\"timestamp\":");
    push_str(&mut s, json_quote(p.timestamp.as_str()).as_str());
    let ghost head = s@;
    match &p.blame {
        None => {},
        Some(b) => {
            push_str(&mut s, ",\"blame\":{\"firstCommitOid\":");
            push_str(&mut s, json_quote(b.first_commit_oid.as_str()).as_str());
            push_str(&mut s, ",\"lastCommitOid\":");
            push_str(&mut s, json_quote(b.last_commit_oid.as_str()).as_str());
            push_str(&mut s, ",\"authorEmails\":[");
            let ghost items = b.author_emails@.map_values(|e: String| e@);
            let ghost before = s@;
            let mut i: usize = 0;
            while i < b.author_emails.len()
                invariant
                    i <= b.author_emails@.len(),
                    items == b.author_emails@.map_values(|e: String| e@),
                    s@ == before + json_string_list(items.take(i as int)),
                decreases b.author_emails@.len() - i,
            {
                assert(items.take(i + 1).drop_last() =~= items.take(i as int));
                if i > 0 {
                    push_str(&mut s, ",");
                }
                push_str(&mut s, json_quote(b.author_emails[i].as_str()).as_str());
                i += 1;
                assert(s@ =~= before + json_string_list(items.take(i as int)));
            }
            assert(items.take(i as int) =~= items);
            push_str(&mut s, "]}");
        },
    }
    push_str(&mut s, "}");
    assert(s@ =~= provenance_json(*p));
    s
}


/// Index of the entry with key `k` in a sequence of keyed entries.
pub open spec fn key_index<T>(s: Seq<(Vec<u32>, T)>, k: Seq<u32>) -> int {
    choose|i: int| 0 <= i < s.len() && #[trigger] s[i].0@ == k
}

/// In a strictly sorted sequence, a key sits at one index only.
pub proof fn lemma_key_unique<T>(s: Seq<(Vec<u32>, T)>, i: int, j: int)
    requires
        strictly_sorted(s),
        0 <= i < s.len(),
        0 <= j < s.len(),
        s[i].0@ == s[j].0@,
    ensures
        i == j,
{
    if i < j {
        assert(lex_lt(s[i].0@, s[j].0@));
        lemma_lex_irreflexive(s[i].0@);
    } else if j < i {
        assert(lex_lt(s[j].0@, s[i].0@));
        lemma_lex_irreflexive(s[i].0@);
    }
}

/// File contents by path. Paths are the same key when `std::path` holds
/// them equal, as in a `BTreeMap<PathBuf, Vec<u8>>`.
pub struct FileContents {
    entries: Vec<(Vec<u32>, (String, Vec<u8>))>,
}

impl FileContents {
    #[verifier::type_invariant]
    spec fn well_formed(self) -> bool {
        &&& strictly_sorted(self.entries@)
        &&& forall|i: int|
            0 <= i < self.entries@.len() ==> #[trigger] self.entries@[i].0@ == path_key(self.entries@[i].1.0@)
    }

    /// The contents, keyed by path order key.
    pub closed spec fn view(&self) -> Map<Seq<u32>, Seq<u8>> {
        Map::new(
            |k: Seq<u32>| has_key(self.entries@, k),
            |k: Seq<u32>| self.entries@[key_index(self.entries@, k)].1.1@,
        )
    }

    /// No files.
    pub fn new() -> (fc: Self)
        ensures
            fc.view() == Map::<Seq<u32>, Seq<u8>>::empty(),
    {
        let fc = FileContents { entries: Vec::new() };
        assert(fc.view() =~= Map::<Seq<u32>, Seq<u8>>::empty());
        fc
    }

    fn find(&self, key: &Vec<u32>) -> (res: Option<usize>)
        ensures
            match res {
                Some(i) => i < self.entries@.len() && self.entries@[i as int].0@ == key@,
                None => !has_key(self.entries@, key@),
            },
    {
        let mut i: usize = 0;
        while i < self.entries.len()
            invariant
                i <= self.entries@.len(),
                forall|j: int| 0 <= j < i ==> self.entries@[j].0@ != key@,
            decreases self.entries@.len() - i,
        {
            if same_key(self.entries[i].0.as_slice(), key.as_slice()) {
                return Some(i);
            }
            i += 1;
        }
        None
    }

    /// The content stored for `path`.
    pub fn get(&self, path: &str) -> (res: Option<&Vec<u8>>)
        ensures
            match res {
                Some(b) => self.view().contains_key(path_key(path@)) && self.view()[path_key(path@)] == b@,
                None => !self.view().contains_key(path_key(path@)),
            },
    {
        proof {
            use_type_invariant(self);
        }
        let key = path_key_of(path);
        match self.find(&key) {
            Some(i) => {
                proof {
                    let j = key_index(self.entries@, key@);
                    lemma_key_unique(self.entries@, i as int, j);
                }
                Some(&self.entries[i].1.1)
            },
            None => None,
        }
    }

    /// Whether some content is stored for `path`.
    pub fn contains_key(&self, path: &str) -> (res: bool)
        ensures
            res == self.view().contains_key(path_key(path@)),
    {
        self.get(path).is_some()
    }

    /// Stores `bytes` for `path`, replacing what was stored for it.
    pub fn insert(&mut self, path: String, bytes: Vec<u8>)
        ensures
            final(self).view() == old(self).view().insert(path_key(path@), bytes@),
    {
        proof {
            use_type_invariant(&*self);
        }
        let key = path_key_of(path.as_str());
        let ghost k = key@;
        let ghost p = path@;
        let ghost b = bytes@;
        let ghost old_entries = self.entries@;
        let ghost old_view = self.view();
        let mut entries = Vec::new();
        std::mem::swap(&mut entries, &mut self.entries);
        insert_keyed(&mut entries, key, (path, bytes));
        proof {
            assert forall|i: int| 0 <= i < entries@.len() implies #[trigger] entries@[i].0@ == path_key(entries@[i].1.0@) by {
                if entries@[i].0@ != k {
                    let j = choose|j: int| 0 <= j < old_entries.len() && old_entries[j] == entries@[i];
                    assert(old_entries[j].0@ == path_key(old_entries[j].1.0@));
                }
            }
        }
        self.entries = entries;
        proof {
            let nv = self.view();
            assert forall|kk: Seq<u32>| nv.contains_key(kk) implies nv[kk] == old_view.insert(k, b)[kk] by {
                let i = key_index(self.entries@, kk);
                if kk != k {
                    let j = choose|j: int| 0 <= j < old_entries.len() && old_entries[j] == self.entries@[i];
                    let jj = key_index(old_entries, kk);
                    lemma_key_unique(old_entries, j, jj);
                }
            }
            assert(nv =~= old_view.insert(k, b));
        }
    }

    /// Drops what was stored for `path`.
    pub fn remove(&mut self, path: &str)
        ensures
            final(self).view() == old(self).view().remove(path_key(path@)),
    {
        proof {
            use_type_invariant(&*self);
        }
        let key = path_key_of(path);
        let ghost old_entries = self.entries@;
        let ghost old_view = self.view();
        match self.find(&key) {
            Some(i) => {
                let mut entries = Vec::new();
                std::mem::swap(&mut entries, &mut self.entries);
                entries.remove(i);
                proof {
                    assert forall|a: int, c: int| 0 <= a < c < entries@.len() implies lex_lt(
                        #[trigger] entries@[a].0@,
                        #[trigger] entries@[c].0@,
                    ) by {
                        let oa = if a < i { a } else { a + 1 };
                        let oc = if c < i { c } else { c + 1 };
                        assert(entries@[a] == old_entries[oa]);
                        assert(entries@[c] == old_entries[oc]);
                        assert(lex_lt(old_entries[oa].0@, old_entries[oc].0@));
                    }
                    assert forall|a: int| 0 <= a < entries@.len() implies #[trigger] entries@[a].0@ == path_key(entries@[a].1.0@) by {
                        let oa = if a < i { a } else { a + 1 };
                        assert(entries@[a] == old_entries[oa]);
                        assert(old_entries[oa].0@ == path_key(old_entries[oa].1.0@));
                    }
                }
                self.entries = entries;
                proof {
                    let nv = self.view();
                    let k = key@;
                    assert forall|kk: Seq<u32>| nv.contains_key(kk) <==> old_view.remove(k).contains_key(kk) by {
                        if has_key(old_entries, kk) && kk != k {
                            let j = choose|j: int| 0 <= j < old_entries.len() && #[trigger] old_entries[j].0@ == kk;
                            assert(j != i);
                            let a = if j < i { j } else { j - 1 };
                            assert(self.entries@[a] == old_entries[j]);
                            assert(has_key(self.entries@, kk));
                        }
                        if has_key(self.entries@, kk) {
                            let a = choose|a: int| 0 <= a < self.entries@.len() && #[trigger] self.entries@[a].0@ == kk;
                            let j = if a < i { a } else { a + 1 };
                            assert(self.entries@[a] == old_entries[j]);
                            assert(has_key(old_entries, kk));
                            if kk == k {
                                lemma_key_unique(old_entries, j, i as int);
                            }
                        }
                    }
                    assert forall|kk: Seq<u32>| nv.contains_key(kk) implies nv[kk] == old_view.remove(k)[kk] by {
                        let a = key_index(self.entries@, kk);
                        let j = if a < i { a } else { a + 1 };
                        assert(self.entries@[a] == old_entries[j]);
                        let jj = key_index(old_entries, kk);
                        lemma_key_unique(old_entries, j, jj);
                    }
                    assert(nv =~= old_view.remove(k));
                }
            },
            None => {
                assert(old_view.remove(key@) =~= old_view);
            },
        }
    }
}


/// Reading a path back after storing bytes for it gives those bytes, and
/// after dropping it gives nothing; a path with another key reads as before.
pub proof fn lemma_contents_read_after_write(
    before: FileContents,
    stored: FileContents,
    dropped: FileContents,
    path: Seq<char>,
    bytes: Seq<u8>,
    other: Seq<char>,
)
    requires
        stored.view() == before.view().insert(path_key(path), bytes),
        dropped.view() == before.view().remove(path_key(path)),
    ensures
        stored.view().contains_key(path_key(path)),
        stored.view()[path_key(path)] == bytes,
        !dropped.view().contains_key(path_key(path)),
        path_key(other) != path_key(path) ==> {
            &&& stored.view().contains_key(path_key(other)) == before.view().contains_key(path_key(other))
            &&& dropped.view().contains_key(path_key(other)) == before.view().contains_key(path_key(other))
            &&& before.view().contains_key(path_key(other)) ==> stored.view()[path_key(other)]
                == before.view()[path_key(other)] && dropped.view()[path_key(other)]
                == before.view()[path_key(other)]
        },
{
}

/// The file paths of a sequence of ranges.
pub open spec fn range_paths(ranges: Seq<AnnotatedRange>) -> Seq<Seq<char>> {
    ranges.map_values(|r: AnnotatedRange| r.file_path@)
}

/// The last path in `ps` with order key `k`.
pub open spec fn last_with_key(ps: Seq<Seq<char>>, k: Seq<u32>) -> Seq<char>
    decreases ps.len(),
{
    if ps.len() == 0 {
        Seq::empty()
    } else if path_key(ps.last()) == k {
        ps.last()
    } else {
        last_with_key(ps.drop_last(), k)
    }
}

/// Whether some path of `ps` has order key `k`.
pub open spec fn path_listed(ps: Seq<Seq<char>>, k: Seq<u32>) -> bool {
    exists|j: int| 0 <= j < ps.len() && path_key(#[trigger] ps[j]) == k
}

/// `files` lists the distinct paths of `ps` in path order, each spelled as
/// the last of `ps` that is the same path.
pub open spec fn sorted_file_paths(files: Seq<Seq<char>>, ps: Seq<Seq<char>>) -> bool {
    &&& forall|i: int, j: int| 0 <= i < j < files.len() ==> lex_lt(path_key(#[trigger] files[i]), path_key(#[trigger] files[j]))
    &&& forall|k: Seq<u32>| #[trigger] path_listed(files, k) <==> path_listed(ps, k)
    &&& forall|i: int| 0 <= i < files.len() ==> #[trigger] files[i] == last_with_key(ps, path_key(files[i]))
}

/// The SPDX id of the file numbered `i` from zero.
pub open spec fn file_spdxid(i: int) -> Seq<char> {
    "SPDXRef-File-"@ + decimal((i + 1) as nat)
}

/// The SPDX id of the snippet numbered `i` from zero.
pub open spec fn snippet_spdxid(i: int) -> Seq<char> {
    "SPDXRef-Snippet-"@ + decimal((i + 1) as nat)
}

/// The file entry for `path`, numbered `i`, with content `bytes`.
pub open spec fn file_entry(f: SpdxFile, i: int, path: Seq<char>, bytes: Seq<u8>) -> bool {
    &&& f.spdxid@ == file_spdxid(i)
    &&& f.file_name@ == spec_spdx_file_name(path)
    &&& f.checksums@.len() == 1
    &&& f.checksums@[0].algorithm@ == "BLAKE3"@
    &&& f.checksums@[0].checksum_value@ == lower_hex(blake3_digest(bytes))
    &&& f.license_concluded@ == "NOASSERTION"@
    &&& f.copyright_text@ == "NOASSERTION"@
}

/// The provenance that a range carries.
pub open spec fn range_provenance(r: AnnotatedRange, p: AiProvenance) -> bool {
    &&& p.model@ == r.model@
    &&& p.session_id@ == r.session_id@
    &&& p.attribution_uuid@ == r.attribution_uuid@
    &&& p.timestamp@ == r.timestamp@
    &&& match (r.blame, p.blame) {
        (None, None) => true,
        (Some(b), Some(s)) => s.first_commit_oid@ == b.first_commit_oid@ && s.last_commit_oid@ == b.last_commit_oid@
            && s.author_emails@.map_values(|e: String| e@) == b.author_emails@.map_values(|e: String| e@),
        _ => false,
    }
}

/// The snippet entry for range `r`, numbered `i`, in the file with SPDX id
/// `file_id`.
pub open spec fn snippet_entry(s: SpdxSnippet, i: int, r: AnnotatedRange, file_id: Seq<char>, tool_id: Seq<char>) -> bool {
    &&& s.spdxid@ == snippet_spdxid(i)
    &&& s.snippet_from_file@ == file_id
    &&& s.ranges@.len() == 1
    &&& s.ranges@[0].start_pointer.reference@ == file_id
    &&& s.ranges@[0].start_pointer.line_number == r.start_line
    &&& s.ranges@[0].end_pointer.reference@ == file_id
    &&& s.ranges@[0].end_pointer.line_number == r.end_line
    &&& s.license_concluded@ == "NOASSERTION"@
    &&& s.copyright_text@ == "NOASSERTION"@
    &&& s.annotations@.len() == 1
    &&& s.annotations@[0].annotation_type@ == "OTHER"@
    &&& s.annotations@[0].annotator@ == tool_id
    &&& s.annotations@[0].annotation_date@ == r.timestamp@
    &&& exists|p: AiProvenance| range_provenance(r, p) && s.annotations@[0].comment@ == provenance_json(p)
}

/// The index in `files` of the path `p`.
pub open spec fn file_index(files: Seq<Seq<char>>, p: Seq<char>) -> int {
    choose|i: int| 0 <= i < files.len() && path_key(#[trigger] files[i]) == path_key(p)
}

/// The one package: the project itself.
pub open spec fn package_entry(p: SpdxPackage, opts: EmitOptions) -> bool {
    &&& p.spdxid@ == "SPDXRef-Package-Project"@
    &&& p.name@ == opts.project_name@
    &&& p.download_location@ == "NOASSERTION"@
    &&& !p.files_analyzed
    &&& p.primary_package_purpose@ == "SOURCE"@
    &&& p.license_concluded@ == "NOASSERTION"@
    &&& p.copyright_text@ == "NOASSERTION"@
}

/// The document describes the package, and the package contains each file,
/// in file order.
pub open spec fn relationship_entries(rels: Seq<Relationship>, nfiles: nat) -> bool {
    &&& rels.len() == nfiles + 1
    &&& rels[0].spdx_element_id@ == "SPDXRef-DOCUMENT"@
    &&& rels[0].relationship_type@ == "DESCRIBES"@
    &&& rels[0].related_spdx_element@ == "SPDXRef-Package-Project"@
    &&& forall|i: int| 1 <= i < rels.len() ==> {
        &&& (#[trigger] rels[i]).spdx_element_id@ == "SPDXRef-Package-Project"@
        &&& rels[i].relationship_type@ == "CONTAINS"@
        &&& rels[i].related_spdx_element@ == file_spdxid(i - 1)
    }
}

/// The whole document for these ranges, contents and options, with files
/// `files` in order.
pub open spec fn document_entries(
    doc: SpdxDocument,
    ranges: Seq<AnnotatedRange>,
    contents: Map<Seq<u32>, Seq<u8>>,
    opts: EmitOptions,
    files: Seq<Seq<char>>,
) -> bool {
    &&& doc.spdx_version@ == "SPDX-2.3"@
    &&& doc.data_license@ == "CC0-1.0"@
    &&& doc.spdxid@ == "SPDXRef-DOCUMENT"@
    &&& doc.name@ == opts.project_name@
    &&& doc.document_namespace@ == opts.document_namespace@
    &&& doc.creation_info.creators@.len() == 1
    &&& doc.creation_info.creators@[0]@ == opts.tool_id@
    &&& doc.creation_info.created@ == opts.created_iso@
    &&& doc.packages@.len() == 1
    &&& package_entry(doc.packages@[0], opts)
    &&& doc.files@.len() == files.len()
    &&& forall|i: int| 0 <= i < files.len() ==> file_entry(#[trigger] doc.files@[i], i, files[i], contents[path_key(files[i])])
    &&& doc.snippets@.len() == ranges.len()
    &&& forall|i: int| 0 <= i < ranges.len() ==> snippet_entry(
        #[trigger] doc.snippets@[i],
        i,
        ranges[i],
        file_spdxid(file_index(files, ranges[i].file_path@)),
        opts.tool_id@,
    )
    &&& relationship_entries(doc.relationships@, files.len())
}

/// The message for a path that has no content.
pub open spec fn missing_content_message(p: Seq<char>) -> Seq<char> {
    "spdx_emit: missing file content for "@ + p
}


fn copy_strings(v: &Vec<String>) -> (res: Vec<String>)
    ensures
        res@.map_values(|e: String| e@) == v@.map_values(|e: String| e@),
{
    let mut res: Vec<String> = Vec::new();
    let mut i: usize = 0;
    while i < v.len()
        invariant
            i <= v@.len(),
            res@.len() == i,
            forall|a: int| 0 <= a < i ==> #[trigger] res@[a]@ == v@[a]@,
        decreases v@.len() - i,
    {
        let c = v[i].clone();
        res.push(c);
        i += 1;
    }
    assert(res@.map_values(|e: String| e@) =~= v@.map_values(|e: String| e@));
    res
}

fn numbered_id(prefix: &str, i: usize) -> (s: String)
    requires
        i < usize::MAX,
    ensures
        s@ == prefix@ + decimal((i + 1) as nat),
{
    let mut s = prefix.to_owned();
    push_decimal(&mut s, (i + 1) as u64);
    s
}

fn noassertion() -> (s: String)
    ensures
        s@ == "NOASSERTION"@,
{
    "NOASSERTION".to_owned()
}

fn provenance_of(r: &AnnotatedRange) -> (p: AiProvenance)
    ensures
        range_provenance(*r, p),
{
    let blame = match &r.blame {
        None => None,
        Some(b) => Some(
            BlameSummary {
                first_commit_oid: b.first_commit_oid.clone(),
                last_commit_oid: b.last_commit_oid.clone(),
                author_emails: copy_strings(&b.author_emails),
            },
        ),
    };
    AiProvenance {
        model: r.model.clone(),
        session_id: r.session_id.clone(),
        attribution_uuid: r.attribution_uuid.clone(),
        timestamp: r.timestamp.clone(),
        blame,
    }
}

fn make_snippet(i: usize, r: &AnnotatedRange, file_id: &String, tool_id: &String) -> (s: SpdxSnippet)
    requires
        i < usize::MAX,
    ensures
        snippet_entry(s, i as int, *r, file_id@, tool_id@),
{
    let prov = provenance_of(r);
    let comment = provenance_to_json(&prov);
    let mut ranges = Vec::new();
    ranges.push(
        SnippetRange {
            start_pointer: SnippetPointer { reference: file_id.clone(), line_number: r.start_line },
            end_pointer: SnippetPointer { reference: file_id.clone(), line_number: r.end_line },
        },
    );
    let mut annotations = Vec::new();
    annotations.push(
        Annotation {
            annotation_type: "OTHER".to_owned(),
            annotator: tool_id.clone(),
            annotation_date: r.timestamp.clone(),
            comment,
        },
    );
    let s = SpdxSnippet {
        spdxid: numbered_id("SPDXRef-Snippet-", i),
        snippet_from_file: file_id.clone(),
        ranges,
        license_concluded: noassertion(),
        copyright_text: noassertion(),
        annotations,
    };
    assert(range_provenance(*r, prov) && s.annotations@[0].comment@ == provenance_json(prov));
    s
}

fn make_file(i: usize, path: &String, bytes: &Vec<u8>) -> (f: SpdxFile)
    requires
        i < usize::MAX,
    ensures
        file_entry(f, i as int, path@, bytes@),
{
    let mut checksums = Vec::new();
    checksums.push(Checksum { algorithm: "BLAKE3".to_owned(), checksum_value: blake3_hex(bytes.as_slice()) });
    SpdxFile {
        spdxid: numbered_id("SPDXRef-File-", i),
        file_name: spdx_file_name(path.as_str()),
        checksums,
        license_concluded: noassertion(),
        copyright_text: noassertion(),
    }
}

/// The distinct paths of the ranges in path order, each spelled as the last
/// range that names it, keyed by order key.
fn sorted_paths(ranges: &[AnnotatedRange]) -> (entries: Vec<(Vec<u32>, String)>)
    ensures
        strictly_sorted(entries@),
        forall|i: int| 0 <= i < entries@.len() ==> #[trigger] entries@[i].0@ == path_key(entries@[i].1@),
        forall|k: Seq<u32>| has_key(entries@, k) <==> path_listed(range_paths(ranges@), k),
        forall|i: int| 0 <= i < entries@.len() ==> #[trigger] entries@[i].1@ == last_with_key(range_paths(ranges@), entries@[i].0@),
{
    let ghost rp = range_paths(ranges@);
    let mut entries: Vec<(Vec<u32>, String)> = Vec::new();
    let mut t: usize = 0;
    while t < ranges.len()
        invariant
            t <= ranges@.len(),
            rp == range_paths(ranges@),
            rp.len() == ranges@.len(),
            strictly_sorted(entries@),
            forall|i: int| 0 <= i < entries@.len() ==> #[trigger] entries@[i].0@ == path_key(entries@[i].1@),
            forall|k: Seq<u32>| has_key(entries@, k) <==> path_listed(rp.take(t as int), k),
            forall|i: int| 0 <= i < entries@.len() ==> #[trigger] entries@[i].1@ == last_with_key(rp.take(t as int), entries@[i].0@),
        decreases ranges@.len() - t,
    {
        let ghost p0 = rp.take(t as int);
        let ghost p1 = rp.take(t + 1);
        assert(p1.drop_last() =~= p0);
        assert(p1.last() == ranges@[t as int].file_path@);
        let ghost old_entries = entries@;
        let key = path_key_of(ranges[t].file_path.as_str());
        let ghost k = key@;
        insert_keyed(&mut entries, key, ranges[t].file_path.clone());
        assert forall|i: int| 0 <= i < entries@.len() implies #[trigger] entries@[i].0@ == path_key(entries@[i].1@)
            && entries@[i].1@ == last_with_key(p1, entries@[i].0@) by {
            if entries@[i].0@ != k {
                let j = choose|j: int| 0 <= j < old_entries.len() && old_entries[j] == entries@[i];
                assert(old_entries[j].0@ == path_key(old_entries[j].1@));
                assert(old_entries[j].1@ == last_with_key(p0, old_entries[j].0@));
            }
        }
        assert forall|kk: Seq<u32>| has_key(entries@, kk) <==> path_listed(p1, kk) by {
            if path_listed(p1, kk) {
                let j = choose|j: int| 0 <= j < p1.len() && path_key(#[trigger] p1[j]) == kk;
                if j < t {
                    assert(p0[j] == p1[j]);
                    assert(path_listed(p0, kk));
                }
            }
            if path_listed(p0, kk) {
                let j = choose|j: int| 0 <= j < p0.len() && path_key(#[trigger] p0[j]) == kk;
                assert(p1[j] == p0[j]);
                assert(path_listed(p1, kk));
            }
            if kk == k {
                assert(path_key(p1[t as int]) == kk);
                assert(path_listed(p1, kk));
            }
        }
        t += 1;
    }
    assert(rp.take(t as int) =~= rp);
    entries
}

fn find_key(entries: &Vec<(Vec<u32>, String)>, key: &Vec<u32>) -> (res: usize)
    requires
        has_key(entries@, key@),
    ensures
        res < entries@.len(),
        entries@[res as int].0@ == key@,
{
    let mut i: usize = 0;
    while i < entries.len()
        invariant
            i <= entries@.len(),
            has_key(entries@, key@),
            forall|j: int| 0 <= j < i ==> entries@[j].0@ != key@,
        decreases entries@.len() - i,
    {
        if same_key(entries[i].0.as_slice(), key.as_slice()) {
            return i;
        }
        i += 1;
    }
    proof {
        let j = choose|j: int| 0 <= j < entries@.len() && #[trigger] entries@[j].0@ == key@;
        assert(entries@[j].0@ != key@);
    }
    0
}

/// The SPDX 2.3 document for `ranges`. Fails with a `Config` error naming
/// the first path, in path order, whose content is missing: a placeholder
/// checksum would be worse than no document.
pub fn emit_spdx(ranges: &[AnnotatedRange], file_contents: &FileContents, opts: &EmitOptions) -> (res: Result<SpdxDocument, AppError>)
    ensures
        res is Ok <==> forall|j: int| 0 <= j < ranges@.len() ==> file_contents.view().contains_key(path_key(#[trigger] ranges@[j].file_path@)),
        match res {
            Ok(doc) => exists|files: Seq<Seq<char>>|
                sorted_file_paths(files, range_paths(ranges@)) && document_entries(doc, ranges@, file_contents.view(), *opts, files),
            Err(e) => exists|files: Seq<Seq<char>>, i: int|
                sorted_file_paths(files, range_paths(ranges@)) && 0 <= i < files.len()
                    && !file_contents.view().contains_key(path_key(files[i]))
                    && (forall|j: int| 0 <= j < i ==> file_contents.view().contains_key(path_key(#[trigger] files[j])))
                    && e@ == (ErrorKind::Config, missing_content_message(files[i])),
        },
{
    let ghost rp = range_paths(ranges@);
    let ghost cm = file_contents.view();
    let entries = sorted_paths(ranges);
    let ghost files = entries@.map_values(|e: (Vec<u32>, String)| e.1@);
    assert(files.len() == entries@.len());
    assert forall|i: int| 0 <= i < files.len() implies #[trigger] files[i] == entries@[i].1@ && path_key(files[i]) == entries@[i].0@ by {}
    assert(sorted_file_paths(files, rp)) by {
        assert forall|i: int, j: int| 0 <= i < j < files.len() implies lex_lt(path_key(#[trigger] files[i]), path_key(#[trigger] files[j])) by {
            assert(files[i] == entries@[i].1@ && path_key(files[i]) == entries@[i].0@);
            assert(files[j] == entries@[j].1@ && path_key(files[j]) == entries@[j].0@);
        }
        assert forall|k: Seq<u32>| #[trigger] path_listed(files, k) <==> path_listed(rp, k) by {
            if path_listed(files, k) {
                let i = choose|i: int| 0 <= i < files.len() && path_key(#[trigger] files[i]) == k;
                assert(files[i] == entries@[i].1@ && path_key(files[i]) == entries@[i].0@);
                assert(has_key(entries@, k));
            }
            if path_listed(rp, k) {
                assert(has_key(entries@, k));
                let i = choose|i: int| 0 <= i < entries@.len() && #[trigger] entries@[i].0@ == k;
                assert(files[i] == entries@[i].1@ && path_key(files[i]) == entries@[i].0@);
            }
        }
        assert forall|i: int| 0 <= i < files.len() implies #[trigger] files[i] == last_with_key(rp, path_key(files[i])) by {
            assert(files[i] == entries@[i].1@ && path_key(files[i]) == entries@[i].0@);
        }
    }
    let mut spdx_files: Vec<SpdxFile> = Vec::new();
    let mut idx: usize = 0;
    while idx < entries.len()
        invariant
            idx <= entries@.len(),
            files.len() == entries@.len(),
            cm == file_contents.view(),
            forall|i: int| 0 <= i < files.len() ==> #[trigger] files[i] == entries@[i].1@ && path_key(files[i]) == entries@[i].0@,
            spdx_files@.len() == idx,
            rp == range_paths(ranges@),
            sorted_file_paths(files, rp),
            forall|j: int| 0 <= j < idx ==> cm.contains_key(path_key(#[trigger] files[j])),
            forall|j: int| 0 <= j < idx ==> file_entry(#[trigger] spdx_files@[j], j, files[j], cm[path_key(files[j])]),
        decreases entries@.len() - idx,
    {
        let path = &entries[idx].1;
        assert(files[idx as int] == entries@[idx as int].1@ && path_key(files[idx as int]) == entries@[idx as int].0@);
        match file_contents.get(path.as_str()) {
            None => {
                let mut msg = "spdx_emit: missing file content for ".to_owned();
                push_str(&mut msg, display_path(path.as_str()).as_str());
                let e = AppError::Config(msg);
                proof {
                    assert(sorted_file_paths(files, rp));
                    assert(!cm.contains_key(path_key(files[idx as int])));
                    assert(e@ == (ErrorKind::Config, missing_content_message(files[idx as int])));
                    let i = idx as int;
                    assert(exists|j: int| 0 <= j < ranges@.len() && !cm.contains_key(path_key(#[trigger] ranges@[j].file_path@))) by {
                        assert(path_listed(files, path_key(files[i])));
                        let j = choose|j: int| 0 <= j < rp.len() && path_key(#[trigger] rp[j]) == path_key(files[i]);
                        assert(rp[j] == ranges@[j].file_path@);
                    }
                }
                return Err(e);
            },
            Some(bytes) => {
                spdx_files.push(make_file(idx, path, bytes));
            },
        }
        idx += 1;
    }
    proof {
        assert forall|j: int| 0 <= j < ranges@.len() implies cm.contains_key(path_key(#[trigger] ranges@[j].file_path@)) by {
            assert(rp[j] == ranges@[j].file_path@);
            assert(path_listed(rp, path_key(rp[j])));
            assert(path_listed(files, path_key(rp[j])));
            let i = choose|i: int| 0 <= i < files.len() && path_key(#[trigger] files[i]) == path_key(rp[j]);
        }
    }
    let mut snippets: Vec<SpdxSnippet> = Vec::new();
    let mut r: usize = 0;
    while r < ranges.len()
        invariant
            r <= ranges@.len(),
            rp == range_paths(ranges@),
            files.len() == entries@.len(),
            strictly_sorted(entries@),
            forall|i: int| 0 <= i < files.len() ==> #[trigger] files[i] == entries@[i].1@ && path_key(files[i]) == entries@[i].0@,
            forall|k: Seq<u32>| has_key(entries@, k) <==> path_listed(rp, k),
            snippets@.len() == r,
            forall|j: int| 0 <= j < r ==> snippet_entry(
                #[trigger] snippets@[j],
                j,
                ranges@[j],
                file_spdxid(file_index(files, ranges@[j].file_path@)),
                opts.tool_id@,
            ),
        decreases ranges@.len() - r,
    {
        let key = path_key_of(ranges[r].file_path.as_str());
        assert(rp[r as int] == ranges@[r as int].file_path@);
        assert(path_listed(rp, key@));
        let fi = find_key(&entries, &key);
        proof {
            let p = ranges@[r as int].file_path@;
            let c = file_index(files, p);
            assert(files[fi as int] == entries@[fi as int].1@ && path_key(files[fi as int]) == entries@[fi as int].0@);
            assert(0 <= c < files.len() && path_key(files[c]) == path_key(p));
            assert(files[c] == entries@[c].1@ && path_key(files[c]) == entries@[c].0@);
            lemma_key_unique(entries@, c, fi as int);
            assert(fi < entries.len());
        }
        let file_id = numbered_id("SPDXRef-File-", fi);
        snippets.push(make_snippet(r, &ranges[r], &file_id, &opts.tool_id));
        r += 1;
    }
    let package = SpdxPackage {
        spdxid: "SPDXRef-Package-Project".to_owned(),
        name: opts.project_name.clone(),
        download_location: noassertion(),
        files_analyzed: false,
        primary_package_purpose: "SOURCE".to_owned(),
        license_concluded: noassertion(),
        copyright_text: noassertion(),
    };
    let mut relationships: Vec<Relationship> = Vec::new();
    relationships.push(
        Relationship {
            spdx_element_id: "SPDXRef-DOCUMENT".to_owned(),
            relationship_type: "DESCRIBES".to_owned(),
            related_spdx_element: package.spdxid.clone(),
        },
    );
    let mut f: usize = 0;
    while f < spdx_files.len()
        invariant
            f <= spdx_files@.len(),
            spdx_files@.len() == files.len(),
            forall|j: int| 0 <= j < files.len() ==> #[trigger] spdx_files@[j].spdxid@ == file_spdxid(j),
            package.spdxid@ == "SPDXRef-Package-Project"@,
            relationships@.len() == f + 1,
            relationships@[0].spdx_element_id@ == "SPDXRef-DOCUMENT"@,
            relationships@[0].relationship_type@ == "DESCRIBES"@,
            relationships@[0].related_spdx_element@ == "SPDXRef-Package-Project"@,
            forall|i: int| 1 <= i < relationships@.len() ==> {
                &&& (#[trigger] relationships@[i]).spdx_element_id@ == "SPDXRef-Package-Project"@
                &&& relationships@[i].relationship_type@ == "CONTAINS"@
                &&& relationships@[i].related_spdx_element@ == file_spdxid(i - 1)
            },
        decreases spdx_files@.len() - f,
    {
        relationships.push(
            Relationship {
                spdx_element_id: package.spdxid.clone(),
                relationship_type: "CONTAINS".to_owned(),
                related_spdx_element: spdx_files[f].spdxid.clone(),
            },
        );
        f += 1;
    }
    let mut packages = Vec::new();
    packages.push(package);
    let mut creators = Vec::new();
    creators.push(opts.tool_id.clone());
    let doc = SpdxDocument {
        spdx_version: "SPDX-2.3".to_owned(),
        data_license: "CC0-1.0".to_owned(),
        spdxid: "SPDXRef-DOCUMENT".to_owned(),
        name: opts.project_name.clone(),
        document_namespace: opts.document_namespace.clone(),
        creation_info: CreationInfo { creators, created: opts.created_iso.clone() },
        packages,
        files: spdx_files,
        snippets,
        relationships,
    };
    assert(document_entries(doc, ranges@, cm, *opts, files));
    Ok(doc)
}


/// The file list of a document is determined by the ranges: one list only
/// meets [`sorted_file_paths`].
pub proof fn lemma_file_order_unique(ps: Seq<Seq<char>>, f1: Seq<Seq<char>>, f2: Seq<Seq<char>>)
    requires
        sorted_file_paths(f1, ps),
        sorted_file_paths(f2, ps),
    ensures
        f1 == f2,
{
    let k1 = f1.map_values(|p: Seq<char>| path_key(p));
    let k2 = f2.map_values(|p: Seq<char>| path_key(p));
    assert forall|i: int, j: int| 0 <= i < j < k1.len() implies lex_lt(#[trigger] k1[i], #[trigger] k1[j]) by {
        assert(lex_lt(path_key(f1[i]), path_key(f1[j])));
    }
    assert forall|i: int, j: int| 0 <= i < j < k2.len() implies lex_lt(#[trigger] k2[i], #[trigger] k2[j]) by {
        assert(lex_lt(path_key(f2[i]), path_key(f2[j])));
    }
    assert forall|k: Seq<u32>| k1.contains(k) <==> k2.contains(k) by {
        if k1.contains(k) {
            let i = choose|i: int| 0 <= i < k1.len() && k1[i] == k;
            assert(path_listed(f1, k));
            assert(path_listed(ps, k));
            assert(path_listed(f2, k));
            let j = choose|j: int| 0 <= j < f2.len() && path_key(#[trigger] f2[j]) == k;
            assert(k2[j] == k);
        }
        if k2.contains(k) {
            let i = choose|i: int| 0 <= i < k2.len() && k2[i] == k;
            assert(path_listed(f2, k));
            assert(path_listed(ps, k));
            assert(path_listed(f1, k));
            let j = choose|j: int| 0 <= j < f1.len() && path_key(#[trigger] f1[j]) == k;
            assert(k1[j] == k);
        }
    }
    lemma_sorted_same_keys(k1, k2);
    assert forall|i: int| 0 <= i < f1.len() implies f1[i] == f2[i] by {
        assert(k1[i] == k2[i]);
        assert(f1[i] == last_with_key(ps, path_key(f1[i])));
        assert(f2[i] == last_with_key(ps, path_key(f2[i])));
    }
    assert(f1 =~= f2);
}

/// Emission is deterministic: two documents that meet the contract of
/// [`emit_spdx`] for the same ranges, contents and options agree in every
/// file entry and every snippet, text for text.
pub proof fn lemma_emit_deterministic(
    d1: SpdxDocument,
    d2: SpdxDocument,
    ranges: Seq<AnnotatedRange>,
    contents: Map<Seq<u32>, Seq<u8>>,
    opts: EmitOptions,
    f1: Seq<Seq<char>>,
    f2: Seq<Seq<char>>,
)
    requires
        sorted_file_paths(f1, range_paths(ranges)),
        sorted_file_paths(f2, range_paths(ranges)),
        document_entries(d1, ranges, contents, opts, f1),
        document_entries(d2, ranges, contents, opts, f2),
    ensures
        d1.files@.len() == d2.files@.len(),
        forall|i: int| 0 <= i < d1.files@.len() ==> {
            &&& (#[trigger] d1.files@[i]).spdxid@ == d2.files@[i].spdxid@
            &&& d1.files@[i].file_name@ == d2.files@[i].file_name@
            &&& d1.files@[i].checksums@[0].checksum_value@ == d2.files@[i].checksums@[0].checksum_value@
        },
        d1.snippets@.len() == d2.snippets@.len(),
        forall|i: int| 0 <= i < d1.snippets@.len() ==> {
            &&& (#[trigger] d1.snippets@[i]).spdxid@ == d2.snippets@[i].spdxid@
            &&& d1.snippets@[i].snippet_from_file@ == d2.snippets@[i].snippet_from_file@
            &&& d1.snippets@[i].annotations@[0].comment@ == d2.snippets@[i].annotations@[0].comment@
        },
        d1.relationships@.len() == d2.relationships@.len(),
{
    lemma_file_order_unique(range_paths(ranges), f1, f2);
    assert forall|i: int| 0 <= i < d1.files@.len() implies {
        &&& (#[trigger] d1.files@[i]).spdxid@ == d2.files@[i].spdxid@
        &&& d1.files@[i].file_name@ == d2.files@[i].file_name@
        &&& d1.files@[i].checksums@[0].checksum_value@ == d2.files@[i].checksums@[0].checksum_value@
    } by {
        assert(file_entry(d1.files@[i], i, f1[i], contents[path_key(f1[i])]));
        assert(file_entry(d2.files@[i], i, f2[i], contents[path_key(f2[i])]));
    }
    assert forall|i: int| 0 <= i < d1.snippets@.len() implies {
        &&& (#[trigger] d1.snippets@[i]).spdxid@ == d2.snippets@[i].spdxid@
        &&& d1.snippets@[i].snippet_from_file@ == d2.snippets@[i].snippet_from_file@
        &&& d1.snippets@[i].annotations@[0].comment@ == d2.snippets@[i].annotations@[0].comment@
    } by {
        let r = ranges[i];
        let id = file_spdxid(file_index(f1, r.file_path@));
        assert(snippet_entry(d1.snippets@[i], i, r, id, opts.tool_id@));
        assert(snippet_entry(d2.snippets@[i], i, r, id, opts.tool_id@));
        let p1 = choose|p: AiProvenance| range_provenance(r, p) && d1.snippets@[i].annotations@[0].comment@ == provenance_json(p);
        let p2 = choose|p: AiProvenance| range_provenance(r, p) && d2.snippets@[i].annotations@[0].comment@ == provenance_json(p);
        lemma_provenance_text(r, p1, p2);
    }
}

/// Ranges that name the same path spell it alike.
pub open spec fn paths_spelled_alike(ranges: Seq<AnnotatedRange>) -> bool {
    forall|i: int, j: int|
        0 <= i < ranges.len() && 0 <= j < ranges.len() && path_key(#[trigger] ranges[i].file_path@) == path_key(
            #[trigger] ranges[j].file_path@,
        ) ==> ranges[i].file_path@ == ranges[j].file_path@
}

/// When every path of `ps` with key `k` is spelled `p`, the last of them
/// is `p`.
proof fn lemma_last_with_key_spelling(ps: Seq<Seq<char>>, k: Seq<u32>, p: Seq<char>)
    requires
        path_listed(ps, k),
        forall|j: int| 0 <= j < ps.len() && path_key(#[trigger] ps[j]) == k ==> ps[j] == p,
    ensures
        last_with_key(ps, k) == p,
    decreases ps.len(),
{
    if path_key(ps.last()) != k {
        let j = choose|j: int| 0 <= j < ps.len() && path_key(#[trigger] ps[j]) == k;
        let q = ps.drop_last();
        assert(q[j] == ps[j]);
        assert(path_listed(q, k));
        assert forall|i: int| 0 <= i < q.len() && path_key(#[trigger] q[i]) == k implies q[i] == p by {
            assert(q[i] == ps[i]);
        }
        lemma_last_with_key_spelling(q, k, p);
    }
}

/// Reordering the ranges reorders the snippets and changes nothing else:
/// the files, their numbering and checksums, the relationships and every
/// field of each snippet but its number stay as they were, as long as
/// ranges that name the same path spell it alike and the contents agree on
/// the paths used.
pub proof fn lemma_emit_permutation(
    ranges: Seq<AnnotatedRange>,
    ranges2: Seq<AnnotatedRange>,
    perm: Seq<int>,
    inv: Seq<int>,
    c1: Map<Seq<u32>, Seq<u8>>,
    c2: Map<Seq<u32>, Seq<u8>>,
    opts: EmitOptions,
    d1: SpdxDocument,
    d2: SpdxDocument,
    f1: Seq<Seq<char>>,
    f2: Seq<Seq<char>>,
)
    requires
        ranges2.len() == ranges.len(),
        perm.len() == ranges.len(),
        inv.len() == ranges.len(),
        forall|j: int| 0 <= j < ranges.len() ==> 0 <= #[trigger] perm[j] < ranges.len() && inv[perm[j]] == j,
        forall|i: int| 0 <= i < ranges.len() ==> 0 <= #[trigger] inv[i] < ranges.len() && perm[inv[i]] == i,
        forall|j: int| 0 <= j < ranges.len() ==> #[trigger] ranges2[j] == ranges[perm[j]],
        paths_spelled_alike(ranges),
        forall|j: int| 0 <= j < ranges.len() ==> {
            let k = path_key(#[trigger] ranges[j].file_path@);
            c1.contains_key(k) && c2.contains_key(k) && c2[k] == c1[k]
        },
        sorted_file_paths(f1, range_paths(ranges)),
        document_entries(d1, ranges, c1, opts, f1),
        sorted_file_paths(f2, range_paths(ranges2)),
        document_entries(d2, ranges2, c2, opts, f2),
    ensures
        f1 == f2,
        d2.files@.len() == d1.files@.len(),
        forall|i: int| 0 <= i < d1.files@.len() ==> {
            &&& (#[trigger] d2.files@[i]).spdxid@ == d1.files@[i].spdxid@
            &&& d2.files@[i].file_name@ == d1.files@[i].file_name@
            &&& d2.files@[i].checksums@[0].checksum_value@ == d1.files@[i].checksums@[0].checksum_value@
        },
        d2.snippets@.len() == d1.snippets@.len(),
        forall|j: int| 0 <= j < d2.snippets@.len() ==> {
            let s2 = #[trigger] d2.snippets@[j];
            let s1 = d1.snippets@[perm[j]];
            &&& s2.spdxid@ == snippet_spdxid(j)
            &&& s2.snippet_from_file@ == s1.snippet_from_file@
            &&& s2.ranges@.len() == 1 && s1.ranges@.len() == 1
            &&& s2.ranges@[0].start_pointer.line_number == s1.ranges@[0].start_pointer.line_number
            &&& s2.ranges@[0].end_pointer.line_number == s1.ranges@[0].end_pointer.line_number
            &&& s2.ranges@[0].start_pointer.reference@ == s1.ranges@[0].start_pointer.reference@
            &&& s2.annotations@.len() == 1 && s1.annotations@.len() == 1
            &&& s2.annotations@[0].annotation_type@ == s1.annotations@[0].annotation_type@
            &&& s2.annotations@[0].annotator@ == s1.annotations@[0].annotator@
            &&& s2.annotations@[0].annotation_date@ == s1.annotations@[0].annotation_date@
            &&& s2.annotations@[0].comment@ == s1.annotations@[0].comment@
        },
        d2.relationships@.len() == d1.relationships@.len(),
        forall|i: int| 0 <= i < d1.relationships@.len() ==> {
            &&& (#[trigger] d2.relationships@[i]).spdx_element_id@ == d1.relationships@[i].spdx_element_id@
            &&& d2.relationships@[i].relationship_type@ == d1.relationships@[i].relationship_type@
            &&& d2.relationships@[i].related_spdx_element@ == d1.relationships@[i].related_spdx_element@
        },
        d2.name@ == d1.name@,
        d2.document_namespace@ == d1.document_namespace@,
        d2.creation_info.created@ == d1.creation_info.created@,
{
    let n = ranges.len();
    let ps1 = range_paths(ranges);
    let ps2 = range_paths(ranges2);
    assert forall|k: Seq<u32>| #[trigger] path_listed(ps1, k) <==> path_listed(ps2, k) by {
        if path_listed(ps1, k) {
            let i = choose|i: int| 0 <= i < ps1.len() && path_key(#[trigger] ps1[i]) == k;
            let j = inv[i];
            assert(ranges2[j] == ranges[i]);
            assert(ps2[j] == ps1[i]);
        }
        if path_listed(ps2, k) {
            let j = choose|j: int| 0 <= j < ps2.len() && path_key(#[trigger] ps2[j]) == k;
            assert(ranges2[j] == ranges[perm[j]]);
            assert(ps1[perm[j]] == ps2[j]);
        }
    }
    assert forall|i: int| 0 <= i < f2.len() implies #[trigger] f2[i] == last_with_key(ps1, path_key(f2[i])) by {
        let k = path_key(f2[i]);
        assert(path_listed(f2, k));
        assert(path_listed(ps2, k));
        let j0 = choose|j: int| 0 <= j < ps2.len() && path_key(#[trigger] ps2[j]) == k;
        let p = ps2[j0];
        assert(ps2[j0] == ps1[perm[j0]]);
        assert forall|j: int| 0 <= j < ps1.len() && path_key(#[trigger] ps1[j]) == k implies ps1[j] == p by {
            assert(ps1[j] == ranges[j].file_path@);
            assert(ps1[perm[j0]] == ranges[perm[j0]].file_path@);
        }
        assert forall|j: int| 0 <= j < ps2.len() && path_key(#[trigger] ps2[j]) == k implies ps2[j] == p by {
            assert(ps2[j] == ps1[perm[j]]);
        }
        lemma_last_with_key_spelling(ps1, k, p);
        lemma_last_with_key_spelling(ps2, k, p);
    }
    assert(sorted_file_paths(f2, ps1));
    lemma_file_order_unique(ps1, f1, f2);
    assert forall|i: int| 0 <= i < d1.files@.len() implies {
        &&& (#[trigger] d2.files@[i]).spdxid@ == d1.files@[i].spdxid@
        &&& d2.files@[i].file_name@ == d1.files@[i].file_name@
        &&& d2.files@[i].checksums@[0].checksum_value@ == d1.files@[i].checksums@[0].checksum_value@
    } by {
        let k = path_key(f1[i]);
        assert(path_listed(f1, k));
        assert(path_listed(ps1, k));
        let j = choose|j: int| 0 <= j < ps1.len() && path_key(#[trigger] ps1[j]) == k;
        assert(ps1[j] == ranges[j].file_path@);
        assert(c2[k] == c1[k]);
        assert(file_entry(d1.files@[i], i, f1[i], c1[k]));
        assert(file_entry(d2.files@[i], i, f2[i], c2[k]));
    }
    assert forall|j: int| 0 <= j < d2.snippets@.len() implies {
        let s2 = #[trigger] d2.snippets@[j];
        let s1 = d1.snippets@[perm[j]];
        &&& s2.spdxid@ == snippet_spdxid(j)
        &&& s2.snippet_from_file@ == s1.snippet_from_file@
        &&& s2.ranges@.len() == 1 && s1.ranges@.len() == 1
        &&& s2.ranges@[0].start_pointer.line_number == s1.ranges@[0].start_pointer.line_number
        &&& s2.ranges@[0].end_pointer.line_number == s1.ranges@[0].end_pointer.line_number
        &&& s2.ranges@[0].start_pointer.reference@ == s1.ranges@[0].start_pointer.reference@
        &&& s2.annotations@.len() == 1 && s1.annotations@.len() == 1
        &&& s2.annotations@[0].annotation_type@ == s1.annotations@[0].annotation_type@
        &&& s2.annotations@[0].annotator@ == s1.annotations@[0].annotator@
        &&& s2.annotations@[0].annotation_date@ == s1.annotations@[0].annotation_date@
        &&& s2.annotations@[0].comment@ == s1.annotations@[0].comment@
    } by {
        let i = perm[j];
        let r = ranges[i];
        assert(ranges2[j] == r);
        let id = file_spdxid(file_index(f1, r.file_path@));
        assert(snippet_entry(d2.snippets@[j], j, r, id, opts.tool_id@));
        assert(snippet_entry(d1.snippets@[i], i, r, id, opts.tool_id@));
        let p1 = choose|p: AiProvenance|
            range_provenance(r, p) && d1.snippets@[i].annotations@[0].comment@ == provenance_json(p);
        let p2 = choose|p: AiProvenance|
            range_provenance(r, p) && d2.snippets@[j].annotations@[0].comment@ == provenance_json(p);
        lemma_provenance_text(r, p1, p2);
    }
    assert forall|i: int| 0 <= i < d1.relationships@.len() implies {
        &&& (#[trigger] d2.relationships@[i]).spdx_element_id@ == d1.relationships@[i].spdx_element_id@
        &&& d2.relationships@[i].relationship_type@ == d1.relationships@[i].relationship_type@
        &&& d2.relationships@[i].related_spdx_element@ == d1.relationships@[i].related_spdx_element@
    } by {
        if i >= 1 {
            assert(d1.relationships@[i].related_spdx_element@ == file_spdxid(i - 1));
            assert(d2.relationships@[i].related_spdx_element@ == file_spdxid(i - 1));
        }
    }
}

/// The provenance text of a range does not depend on which copy of its
/// fields it is built from.
pub proof fn lemma_provenance_text(r: AnnotatedRange, p1: AiProvenance, p2: AiProvenance)
    requires
        range_provenance(r, p1),
        range_provenance(r, p2),
    ensures
        provenance_json(p1) == provenance_json(p2),
{
}

} // verus!
