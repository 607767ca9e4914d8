//! Blame data as plain values: one [`BlameLine`] per line of a file, from
//! the hunks that git reports.

use crate::schemas::attribution::opt_text;
use vstd::prelude::*;

verus! {

/// Who last touched one line of a file, and when.
#[derive(Debug, Clone, PartialEq, Eq)]
pub struct BlameLine {
    pub line_number: usize,
    pub commit_oid: String,
    pub commit_time_unix: i64,
    pub author_email: Option<String>,
}

/// One blame hunk as git reports it: a run of consecutive lines, starting
/// at `final_start_line`, that the same commit last touched.
#[derive(Debug, Clone, PartialEq, Eq)]
pub struct BlameHunk {
    pub final_start_line: usize,
    pub lines_in_hunk: usize,
    pub commit_oid: String,
    pub commit_time_unix: i64,
    pub author_email: Option<String>,
}

/// The mathematical shape of a [`BlameLine`].
pub struct BlameLineView {
    pub line_number: nat,
    pub commit_oid: Seq<char>,
    pub commit_time_unix: int,
    pub author_email: Option<Seq<char>>,
}

impl View for BlameLine {
    type V = BlameLineView;

    open spec fn view(&self) -> BlameLineView {
        BlameLineView {
            line_number: self.line_number as nat,
            commit_oid: self.commit_oid@,
            commit_time_unix: self.commit_time_unix as int,
            author_email: opt_text(self.author_email),
        }
    }
}

/// Views of a sequence of blame lines.
pub open spec fn blame_view(s: Seq<BlameLine>) -> Seq<BlameLineView> {
    s.map_values(|b: BlameLine| b@)
}

/// The lines that one hunk covers, in order.
pub open spec fn hunk_lines(h: BlameHunk) -> Seq<BlameLineView> {
    Seq::new(
        h.lines_in_hunk as nat,
        |k: int|
            BlameLineView {
                line_number: (h.final_start_line + k) as nat,
                commit_oid: h.commit_oid@,
                commit_time_unix: h.commit_time_unix as int,
                author_email: opt_text(h.author_email),
            },
    )
}

/// The lines that a sequence of hunks covers, hunk after hunk.
pub open spec fn hunks_lines(hs: Seq<BlameHunk>) -> Seq<BlameLineView>
    decreases hs.len(),
{
    if hs.len() == 0 {
        Seq::empty()
    } else {
        hunks_lines(hs.drop_last()) + hunk_lines(hs.last())
    }
}

/// Whether every line number of a hunk fits in a `usize`.
pub open spec fn hunk_fits(h: BlameHunk) -> bool {
    h.lines_in_hunk == 0 || h.final_start_line + h.lines_in_hunk - 1 <= usize::MAX
}

fn copy_email(o: &Option<String>) -> (r: Option<String>)
    ensures
        opt_text(r) == opt_text(*o),
{
    match o {
        Some(s) => Some(s.clone()),
        None => None,
    }
}

/// One [`BlameLine`] per line of each hunk, in hunk order.
pub fn blame_lines_from_hunks(hunks: &[BlameHunk]) -> (lines: Vec<BlameLine>)
    requires
        forall|i: int| 0 <= i < hunks@.len() ==> hunk_fits(#[trigger] hunks@[i]),
    ensures
        blame_view(lines@) == hunks_lines(hunks@),
{
    let mut lines: Vec<BlameLine> = Vec::new();
    let mut i: usize = 0;
    while i < hunks.len()
        invariant
            i <= hunks@.len(),
            forall|j: int| 0 <= j < hunks@.len() ==> hunk_fits(#[trigger] hunks@[j]),
            blame_view(lines@) == hunks_lines(hunks@.take(i as int)),
        decreases hunks@.len() - i,
    {
        assert(hunks@.take(i + 1).drop_last() =~= hunks@.take(i as int));
        let h = &hunks[i];
        assert(hunk_fits(*h));
        let ghost before = blame_view(lines@);
        let mut k: usize = 0;
        while k < h.lines_in_hunk
            invariant
                k <= h.lines_in_hunk,
                hunk_fits(*h),
                blame_view(lines@) == before + hunk_lines(*h).take(k as int),
            decreases h.lines_in_hunk - k,
        {
            let ghost prev = lines@;
            let b = BlameLine {
                line_number: h.final_start_line + k,
                commit_oid: h.commit_oid.clone(),
                commit_time_unix: h.commit_time_unix,
                author_email: copy_email(&h.author_email),
            };
            assert(b@ == hunk_lines(*h)[k as int]);
            lines.push(b);
            assert(blame_view(lines@) =~= blame_view(prev).push(b@));
            k += 1;
            assert(blame_view(lines@) =~= before + hunk_lines(*h).take(k as int));
        }
        assert(hunk_lines(*h).take(k as int) =~= hunk_lines(*h));
        i += 1;
    }
    assert(hunks@.take(i as int) =~= hunks@);
    lines
}

} // verus!
