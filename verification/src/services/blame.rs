//! The join of attribution records with the current content of files and
//! with git blame.
//!
//! For each record, the AI-written needles (a `Write` content, an `Edit`
//! `new_string`, the non-empty `new_string` of each `MultiEdit` op, a
//! `NotebookEdit` `new_source`) are looked up in the file's current content
//! by exact substring match. Each needle found becomes an
//! [`AnnotatedRange`] over the lines it occupies, with blame data for those
//! lines when there is any. Needles that hand edits have changed are
//! dropped: a missing claim is safer than a wrong one.

use crate::schemas::attribution::{
    edits_view, AnnotatedRange, AttributionRecord, EditOperation, EditView, PayloadView,
    ToolPayload,
};
use crate::order::{
    char_key, char_key_of, has_key, insert_keyed, lemma_char_key_injective, lex_lt,
    strictly_sorted,
};
use crate::repos::git_repo::{blame_view, BlameLine, BlameLineView};
use crate::schemas::attribution::{opt_blame, texts, BlameInfo, BlameView};
use crate::hash::{blake3_digest, blake3_hex_of_str};
use crate::schemas::attribution::{ranges_view, RangeView, RecordView};
use crate::text::{chars_of, count_char, count_char_upto, lower_hex};
use vstd::prelude::*;

verus! {

/// The non-empty `new_string`s of a sequence of edits, in order.
pub open spec fn edit_needles(edits: Seq<EditView>) -> Seq<Seq<char>>
    decreases edits.len(),
{
    if edits.len() == 0 {
        Seq::empty()
    } else {
        edit_needles(edits.drop_last()) + if edits.last().new_string.len() > 0 {
            seq![edits.last().new_string]
        } else {
            Seq::empty()
        }
    }
}

/// The AI-written texts that a payload claims to have put in the file.
pub open spec fn spec_needles(p: PayloadView) -> Seq<Seq<char>> {
    match p {
        PayloadView::Write { content } => seq![content],
        PayloadView::Edit { new_string, .. } => seq![new_string],
        PayloadView::MultiEdit { edits } => edit_needles(edits),
        PayloadView::NotebookEdit { new_source, .. } => seq![new_source],
    }
}

/// Texts of a sequence of strings.
pub open spec fn texts_of(s: Seq<String>) -> Seq<Seq<char>> {
    s.map_values(|x: String| x@)
}

/// The needles of a payload, in order.
pub fn extract_needles(payload: &ToolPayload) -> (res: Vec<String>)
    ensures
        texts_of(res@) == spec_needles(payload@),
{
    match payload {
        ToolPayload::Write { content } => {
            let mut v = Vec::new();
            v.push(content.clone());
            assert(texts_of(v@) =~= spec_needles(payload@));
            v
        },
        ToolPayload::Edit { new_string, .. } => {
            let mut v = Vec::new();
            v.push(new_string.clone());
            assert(texts_of(v@) =~= spec_needles(payload@));
            v
        },
        ToolPayload::MultiEdit { edits } => {
            let ghost ev = edits_view(edits@);
            let mut v: Vec<String> = Vec::new();
            let mut i: usize = 0;
            while i < edits.len()
                invariant
                    i <= edits@.len(),
                    ev == edits_view(edits@),
                    texts_of(v@) == edit_needles(ev.take(i as int)),
                decreases edits@.len() - i,
            {
                assert(ev.take(i + 1).drop_last() =~= ev.take(i as int));
                assert(ev.take(i + 1).last() == edits@[i as int]@);
                let ghost before = v@;
                let e: &EditOperation = &edits[i];
                if !e.new_string.as_str().is_empty() {
                    v.push(e.new_string.clone());
                }
                assert(texts_of(v@) =~= texts_of(before) + if e.new_string@.len() > 0 {
                    seq![e.new_string@]
                } else {
                    Seq::<Seq<char>>::empty()
                });
                i += 1;
            }
            assert(ev.take(i as int) =~= ev);
            v
        },
        ToolPayload::NotebookEdit { new_source, .. } => {
            let mut v = Vec::new();
            v.push(new_source.clone());
            assert(texts_of(v@) =~= spec_needles(payload@));
            v
        },
    }
}

/// Whether `n` occurs in `h` starting at index `i`.
pub open spec fn occurs_at(h: Seq<char>, n: Seq<char>, i: int) -> bool {
    0 <= i && i + n.len() <= h.len() && h.subrange(i, i + n.len()) == n
}

/// The first index at or after `i` where `n` occurs in `h`.
pub open spec fn first_occurrence_from(h: Seq<char>, n: Seq<char>, i: int) -> Option<int>
    decreases h.len() - i,
{
    if i < 0 || i + n.len() > h.len() {
        None
    } else if occurs_at(h, n, i) {
        Some(i)
    } else if i >= h.len() {
        None
    } else {
        first_occurrence_from(h, n, i + 1)
    }
}

/// The 1-based inclusive line range that `n` occupies when it occurs in `h`
/// at index `i`: it starts on the line after the `\n`s before `i`, and
/// spans the `\n`s inside `n`, a final `\n` closing its last line.
pub open spec fn span_lines(h: Seq<char>, n: Seq<char>, i: int) -> (nat, nat) {
    let start = count_char(h.take(i), '\n') + 1;
    let inner = count_char(n, '\n');
    let end = if n.len() > 0 && n.last() == '\n' {
        if inner >= 1 { start + inner - 1 } else { start as int }
    } else {
        (start + inner) as int
    };
    (start as nat, end as nat)
}

/// The line range of the first occurrence of a non-empty needle.
pub open spec fn spec_find_lines(h: Seq<char>, n: Seq<char>) -> Option<(nat, nat)> {
    if n.len() == 0 {
        None
    } else {
        match first_occurrence_from(h, n, 0) {
            Some(i) => Some(span_lines(h, n, i)),
            None => None,
        }
    }
}

pub proof fn lemma_count_char_bound(s: Seq<char>, c: char)
    ensures
        count_char(s, c) <= s.len(),
        s.len() > 0 && s.last() != c ==> count_char(s, c) <= s.len() - 1,
        s.len() > 0 && s.last() == c ==> count_char(s, c) >= 1,
    decreases s.len(),
{
    if s.len() > 0 {
        lemma_count_char_bound(s.drop_last(), c);
    }
}

/// The first occurrence found from `i` on is an occurrence, and nothing
/// between `i` and it is one; when there is none, `n` does not occur at or
/// after `i`.
pub proof fn lemma_first_occurrence(h: Seq<char>, n: Seq<char>, i: int)
    requires
        0 <= i,
    ensures
        match first_occurrence_from(h, n, i) {
            Some(k) => i <= k && occurs_at(h, n, k) && forall|j: int| i <= j < k ==> !occurs_at(h, n, j),
            None => forall|j: int| i <= j ==> !occurs_at(h, n, j),
        },
    decreases h.len() - i,
{
    if i + n.len() <= h.len() && !occurs_at(h, n, i) && i < h.len() {
        lemma_first_occurrence(h, n, i + 1);
    }
}

fn matches_at(h: &[char], n: &[char], i: usize) -> (r: bool)
    requires
        i + n@.len() <= h@.len(),
    ensures
        r == occurs_at(h@, n@, i as int),
{
    let hl = h.len();
    let mut k: usize = 0;
    while k < n.len()
        invariant
            k <= n@.len(),
            hl == h@.len(),
            i + n@.len() <= h@.len(),
            forall|j: int| 0 <= j < k ==> h@[i + j] == n@[j],
        decreases n@.len() - k,
    {
        if h[i + k] != n[k] {
            assert(h@.subrange(i as int, i + n@.len())[k as int] != n@[k as int]);
            return false;
        }
        k += 1;
    }
    assert(h@.subrange(i as int, i + n@.len()) =~= n@);
    true
}

/// The inclusive 1-based line range of the first occurrence of `needle` in
/// `haystack`; `None` when the needle is empty or absent.
pub fn find_substring_lines(haystack: &str, needle: &str) -> (res: Option<(usize, usize)>)
    ensures
        match res {
            Some((s, e)) => spec_find_lines(haystack@, needle@) == Some((s as nat, e as nat)),
            None => spec_find_lines(haystack@, needle@) is None,
        },
{
    let h = chars_of(haystack);
    let n = chars_of(needle);
    if n.len() == 0 {
        return None;
    }
    if n.len() > h.len() {
        return None;
    }
    let hl = h.len();
    let last = hl - n.len();
    let mut i: usize = 0;
    while i <= last
        invariant
            hl == h@.len(),
            h@ == haystack@,
            n@ == needle@,
            n@.len() > 0,
            last + n@.len() == h@.len(),
            i <= last + 1,
            first_occurrence_from(h@, n@, 0) == first_occurrence_from(h@, n@, i as int),
        decreases last + 1 - i,
    {
        if matches_at(h.as_slice(), n.as_slice(), i) {
            let before = count_char_upto(h.as_slice(), '\n', i);
            let inner = count_char_upto(n.as_slice(), '\n', n.len());
            proof {
                assert(n@.take(n@.len() as int) =~= n@);
                lemma_count_char_bound(h@.take(i as int), '\n');
                lemma_count_char_bound(n@, '\n');
            }
            let start = before + 1;
            let end = if n[n.len() - 1] == '\n' {
                before + inner
            } else {
                start + inner
            };
            return Some((start, end));
        }
        i += 1;
    }
    None
}


/// The blame lines whose line number lies in `start..=end`, in order.
pub open spec fn lines_in_range(bl: Seq<BlameLineView>, start: nat, end: nat) -> Seq<BlameLineView>
    decreases bl.len(),
{
    if bl.len() == 0 {
        Seq::empty()
    } else {
        lines_in_range(bl.drop_last(), start, end) + if start <= bl.last().line_number <= end {
            seq![bl.last()]
        } else {
            Seq::empty()
        }
    }
}

/// Index of the earliest commit time in `r`; the first such line on ties.
pub open spec fn first_min_time(r: Seq<BlameLineView>) -> int
    decreases r.len(),
{
    if r.len() <= 1 {
        0
    } else {
        let m = first_min_time(r.drop_last());
        if r.last().commit_time_unix < r[m].commit_time_unix {
            r.len() - 1
        } else {
            m
        }
    }
}

/// Index of the latest commit time in `r`; the last such line on ties.
pub open spec fn last_max_time(r: Seq<BlameLineView>) -> int
    decreases r.len(),
{
    if r.len() <= 1 {
        0
    } else {
        let m = last_max_time(r.drop_last());
        if r.last().commit_time_unix >= r[m].commit_time_unix {
            r.len() - 1
        } else {
            m
        }
    }
}

/// Whether some line of `r` names `e` as its author's email.
pub open spec fn email_listed(r: Seq<BlameLineView>, e: Seq<char>) -> bool {
    exists|i: int| 0 <= i < r.len() && #[trigger] r[i].author_email == Some(e)
}

/// Emails in strictly increasing order, without repeats.
pub open spec fn sorted_emails(em: Seq<Seq<char>>) -> bool {
    forall|i: int, j: int| 0 <= i < j < em.len() ==> lex_lt(char_key(#[trigger] em[i]), char_key(#[trigger] em[j]))
}

/// `b` summarises the non-empty run of blame lines `r`: the commit with the
/// earliest time (first on ties), the one with the latest time (last on
/// ties), and the distinct author emails in sorted order.
pub open spec fn blame_summary(r: Seq<BlameLineView>, b: BlameView) -> bool {
    &&& b.first_commit_oid == r[first_min_time(r)].commit_oid
    &&& b.last_commit_oid == r[last_max_time(r)].commit_oid
    &&& sorted_emails(b.author_emails)
    &&& forall|e: Seq<char>| b.author_emails.contains(e) <==> email_listed(r, e)
}

/// What [`enrich_with_blame`] returns for these lines: nothing when no
/// blame line falls in `start..=end`, else their summary.
pub open spec fn spec_blame_for(bl: Seq<BlameLineView>, start: nat, end: nat, res: Option<BlameView>) -> bool {
    let r = lines_in_range(bl, start, end);
    if r.len() == 0 {
        res is None
    } else {
        res matches Some(b) && blame_summary(r, b)
    }
}

/// `first_min_time` is a first minimum and `last_max_time` a last maximum.
pub proof fn lemma_extreme_times(r: Seq<BlameLineView>)
    requires
        r.len() > 0,
    ensures
        0 <= first_min_time(r) < r.len(),
        0 <= last_max_time(r) < r.len(),
        forall|j: int| 0 <= j < r.len() ==> r[first_min_time(r)].commit_time_unix <= #[trigger] r[j].commit_time_unix,
        forall|j: int| 0 <= j < first_min_time(r) ==> r[first_min_time(r)].commit_time_unix < #[trigger] r[j].commit_time_unix,
        forall|j: int| 0 <= j < r.len() ==> #[trigger] r[j].commit_time_unix <= r[last_max_time(r)].commit_time_unix,
        forall|j: int| last_max_time(r) < j < r.len() ==> #[trigger] r[j].commit_time_unix < r[last_max_time(r)].commit_time_unix,
    decreases r.len(),
{
    if r.len() > 1 {
        let p = r.drop_last();
        lemma_extreme_times(p);
        let fm = first_min_time(r);
        let lm = last_max_time(r);
        let pm = first_min_time(p);
        let px = last_max_time(p);
        assert(p[pm] == r[pm]);
        assert(p[px] == r[px]);
        assert forall|j: int| 0 <= j < r.len() implies r[fm].commit_time_unix <= #[trigger] r[j].commit_time_unix by {
            if j < p.len() {
                assert(p[j] == r[j]);
            }
        }
        assert forall|j: int| 0 <= j < fm implies r[fm].commit_time_unix < #[trigger] r[j].commit_time_unix by {
            if j < p.len() {
                assert(p[j] == r[j]);
            }
        }
        assert forall|j: int| 0 <= j < r.len() implies #[trigger] r[j].commit_time_unix <= r[lm].commit_time_unix by {
            if j < p.len() {
                assert(p[j] == r[j]);
            }
        }
        assert forall|j: int| lm < j < r.len() implies #[trigger] r[j].commit_time_unix < r[lm].commit_time_unix by {
            if j < p.len() {
                assert(p[j] == r[j]);
            }
        }
    }
}

/// The lines in `start..=end` are exactly the blame lines whose line number
/// lies there.
pub proof fn lemma_lines_in_range_members(bl: Seq<BlameLineView>, start: nat, end: nat)
    ensures
        forall|t: int| 0 <= t < lines_in_range(bl, start, end).len() ==> {
            &&& start <= (#[trigger] lines_in_range(bl, start, end)[t]).line_number <= end
            &&& exists|j: int| 0 <= j < bl.len() && bl[j] == lines_in_range(bl, start, end)[t]
        },
        forall|j: int| 0 <= j < bl.len() && start <= (#[trigger] bl[j]).line_number <= end ==> exists|t: int|
            0 <= t < lines_in_range(bl, start, end).len() && lines_in_range(bl, start, end)[t] == bl[j],
    decreases bl.len(),
{
    if bl.len() > 0 {
        let p = bl.drop_last();
        lemma_lines_in_range_members(p, start, end);
        let rp = lines_in_range(p, start, end);
        let r = lines_in_range(bl, start, end);
        assert forall|t: int| 0 <= t < r.len() implies {
            &&& start <= (#[trigger] r[t]).line_number <= end
            &&& exists|j: int| 0 <= j < bl.len() && bl[j] == r[t]
        } by {
            if t < rp.len() {
                assert(r[t] == rp[t]);
                let j = choose|j: int| 0 <= j < p.len() && p[j] == rp[t];
                assert(bl[j] == p[j]);
            } else {
                assert(r[t] == bl.last());
                assert(bl[bl.len() - 1] == bl.last());
            }
        }
        assert forall|j: int| 0 <= j < bl.len() && start <= (#[trigger] bl[j]).line_number <= end implies exists|t: int|
            0 <= t < r.len() && r[t] == bl[j] by {
            if j < p.len() {
                assert(p[j] == bl[j]);
                assert(start <= p[j].line_number <= end);
                let t = choose|t: int| 0 <= t < rp.len() && rp[t] == p[j];
                assert(r[t] == rp[t]);
            } else {
                assert(r[rp.len() as int] == bl.last());
            }
        }
    }
}

/// What a blame summary says of the blame lines of `start..=end`: there is
/// none exactly when no line falls there; otherwise the first commit is that
/// of a line there with the earliest time, the last commit that of a line
/// there with the latest time, and the emails are, sorted and without
/// repeats, exactly the authors' emails of the lines there.
pub open spec fn blame_describes(bl: Seq<BlameLineView>, start: nat, end: nat, res: Option<BlameView>) -> bool {
    &&& res is None <==> forall|j: int| 0 <= j < bl.len() ==> !(start <= (#[trigger] bl[j]).line_number <= end)
    &&& res matches Some(b) ==> {
        &&& exists|j: int| 0 <= j < bl.len() && start <= bl[j].line_number <= end
            && bl[j].commit_oid == b.first_commit_oid
            && forall|i: int| 0 <= i < bl.len() && start <= (#[trigger] bl[i]).line_number <= end
                ==> bl[j].commit_time_unix <= bl[i].commit_time_unix
        &&& exists|j: int| 0 <= j < bl.len() && start <= bl[j].line_number <= end
            && bl[j].commit_oid == b.last_commit_oid
            && forall|i: int| 0 <= i < bl.len() && start <= (#[trigger] bl[i]).line_number <= end
                ==> bl[i].commit_time_unix <= bl[j].commit_time_unix
        &&& forall|i: int| 0 <= i < bl.len() && start <= (#[trigger] bl[i]).line_number <= end
            && bl[i].author_email is Some ==> b.author_emails.contains(bl[i].author_email->0)
        &&& forall|e: Seq<char>| #[trigger] b.author_emails.contains(e) ==> exists|i: int|
            0 <= i < bl.len() && start <= bl[i].line_number <= end && bl[i].author_email == Some(e)
        &&& forall|i: int, k: int| 0 <= i < k < b.author_emails.len() ==> lex_lt(
            char_key(#[trigger] b.author_emails[i]),
            char_key(#[trigger] b.author_emails[k]),
        )
    }
}

/// [`enrich_with_blame`]'s result describes the blame lines of the range.
pub proof fn lemma_blame_summary_lines(bl: Seq<BlameLineView>, start: nat, end: nat, res: Option<BlameView>)
    requires
        spec_blame_for(bl, start, end, res),
    ensures
        blame_describes(bl, start, end, res),
{
    lemma_blame_facts(bl, start, end, res);
}

proof fn lemma_blame_facts(bl: Seq<BlameLineView>, start: nat, end: nat, res: Option<BlameView>)
    requires
        spec_blame_for(bl, start, end, res),
    ensures
        res is None <==> forall|j: int| 0 <= j < bl.len() ==> !(start <= (#[trigger] bl[j]).line_number <= end),
        res matches Some(b) ==> {
            &&& exists|j: int| 0 <= j < bl.len() && start <= bl[j].line_number <= end
                && bl[j].commit_oid == b.first_commit_oid
                && forall|i: int| 0 <= i < bl.len() && start <= (#[trigger] bl[i]).line_number <= end
                    ==> bl[j].commit_time_unix <= bl[i].commit_time_unix
            &&& exists|j: int| 0 <= j < bl.len() && start <= bl[j].line_number <= end
                && bl[j].commit_oid == b.last_commit_oid
                && forall|i: int| 0 <= i < bl.len() && start <= (#[trigger] bl[i]).line_number <= end
                    ==> bl[i].commit_time_unix <= bl[j].commit_time_unix
            &&& forall|i: int| 0 <= i < bl.len() && start <= (#[trigger] bl[i]).line_number <= end
                && bl[i].author_email is Some ==> b.author_emails.contains(bl[i].author_email->0)
            &&& forall|e: Seq<char>| #[trigger] b.author_emails.contains(e) ==> exists|i: int|
                0 <= i < bl.len() && start <= bl[i].line_number <= end && bl[i].author_email == Some(e)
            &&& forall|i: int, k: int| 0 <= i < k < b.author_emails.len() ==> lex_lt(
                char_key(#[trigger] b.author_emails[i]),
                char_key(#[trigger] b.author_emails[k]),
            )
        },
{
    lemma_lines_in_range_members(bl, start, end);
    let r = lines_in_range(bl, start, end);
    if r.len() == 0 {
        assert forall|j: int| 0 <= j < bl.len() implies !(start <= (#[trigger] bl[j]).line_number <= end) by {
            if start <= bl[j].line_number <= end {
                let t = choose|t: int| 0 <= t < r.len() && r[t] == bl[j];
            }
        }
    } else {
        let b = res->0;
        assert(start <= r[0].line_number <= end);
        let j0 = choose|j: int| 0 <= j < bl.len() && bl[j] == r[0];
        assert(start <= bl[j0].line_number <= end);
        lemma_extreme_times(r);
        let fm = first_min_time(r);
        let lm = last_max_time(r);
        assert(start <= r[fm].line_number <= end);
        assert(start <= r[lm].line_number <= end);
        let jf = choose|j: int| 0 <= j < bl.len() && bl[j] == r[fm];
        let jl = choose|j: int| 0 <= j < bl.len() && bl[j] == r[lm];
        assert forall|i: int| 0 <= i < bl.len() && start <= (#[trigger] bl[i]).line_number <= end
            implies bl[jf].commit_time_unix <= bl[i].commit_time_unix && bl[i].commit_time_unix <= bl[jl].commit_time_unix by {
            let t = choose|t: int| 0 <= t < r.len() && r[t] == bl[i];
            assert(r[fm].commit_time_unix <= r[t].commit_time_unix);
            assert(r[t].commit_time_unix <= r[lm].commit_time_unix);
        }
        assert forall|i: int| 0 <= i < bl.len() && start <= (#[trigger] bl[i]).line_number <= end
            && bl[i].author_email is Some implies b.author_emails.contains(bl[i].author_email->0) by {
            let e = bl[i].author_email->0;
            let t = choose|t: int| 0 <= t < r.len() && r[t] == bl[i];
            assert(r[t].author_email == Some(e));
            assert(email_listed(r, e));
        }
        assert forall|e: Seq<char>| #[trigger] b.author_emails.contains(e) implies exists|i: int|
            0 <= i < bl.len() && start <= bl[i].line_number <= end && bl[i].author_email == Some(e) by {
            assert(email_listed(r, e));
            let t = choose|t: int| 0 <= t < r.len() && #[trigger] r[t].author_email == Some(e);
            assert(start <= r[t].line_number <= end);
            let j = choose|j: int| 0 <= j < bl.len() && bl[j] == r[t];
            assert(bl[j].author_email == Some(e));
        }
    }
}

fn copy_str(s: &String) -> (t: String)
    ensures
        t@ == s@,
{
    s.clone()
}

/// Blame summary of the lines `start..=end`; `None` when no blame line
/// falls there.
pub fn enrich_with_blame(blame_lines: &[BlameLine], start: usize, end: usize) -> (res: Option<BlameInfo>)
    ensures
        spec_blame_for(blame_view(blame_lines@), start as nat, end as nat, opt_blame(res)),
{
    let ghost bl = blame_view(blame_lines@);
    let mut sel: Vec<usize> = Vec::new();
    let mut i: usize = 0;
    while i < blame_lines.len()
        invariant
            i <= blame_lines@.len(),
            bl == blame_view(blame_lines@),
            bl.len() == blame_lines@.len(),
            sel@.len() == lines_in_range(bl.take(i as int), start as nat, end as nat).len(),
            forall|t: int| 0 <= t < sel@.len() ==> #[trigger] sel@[t] < blame_lines@.len()
                && lines_in_range(bl.take(i as int), start as nat, end as nat)[t] == bl[sel@[t] as int],
        decreases blame_lines@.len() - i,
    {
        assert(bl.take(i + 1).drop_last() =~= bl.take(i as int));
        assert(bl.take(i + 1).last() == blame_lines@[i as int]@);
        let b = &blame_lines[i];
        if b.line_number >= start && b.line_number <= end {
            sel.push(i);
        }
        i += 1;
    }
    assert(bl.take(i as int) =~= bl);
    let ghost r = lines_in_range(bl, start as nat, end as nat);
    if sel.len() == 0 {
        return None;
    }
    let mut mi: usize = 0;
    let mut mx: usize = 0;
    let mut entries: Vec<(Vec<u32>, String)> = Vec::new();
    let mut t: usize = 0;
    while t < sel.len()
        invariant
            t <= sel@.len(),
            sel@.len() == r.len(),
            r.len() > 0,
            forall|u: int| 0 <= u < sel@.len() ==> #[trigger] sel@[u] < blame_lines@.len() && r[u] == blame_lines@[sel@[u] as int]@,
            t > 0 ==> mi == first_min_time(r.take(t as int)) && mx == last_max_time(r.take(t as int)),
            t > 0 ==> mi < t && mx < t,
            t == 0 ==> mi == 0 && mx == 0,
            strictly_sorted(entries@),
            forall|u: int| 0 <= u < entries@.len() ==> #[trigger] entries@[u].0@ == char_key(entries@[u].1@),
            forall|k: Seq<u32>| has_key(entries@, k) <==> exists|e: Seq<char>| email_listed(r.take(t as int), e) && k == char_key(e),
        decreases sel@.len() - t,
    {
        let ghost rt = r.take(t as int);
        let ghost rt1 = r.take(t + 1);
        assert(rt1.drop_last() =~= rt);
        let b = &blame_lines[sel[t]];
        assert(rt1.last() == b@);
        if t == 0 {
            mi = 0;
            mx = 0;
        } else {
            proof {
                assert(rt1[mi as int] == rt[mi as int]);
                assert(rt1[mx as int] == rt[mx as int]);
                lemma_extreme_times(rt);
            }
            if b.commit_time_unix < blame_lines[sel[mi]].commit_time_unix {
                mi = t;
            }
            if b.commit_time_unix >= blame_lines[sel[mx]].commit_time_unix {
                mx = t;
            }
        }
        let ghost old_entries = entries@;
        match &b.author_email {
            Some(em) => {
                let key = char_key_of(em.as_str());
                insert_keyed(&mut entries, key, copy_str(em));
                assert forall|u: int| 0 <= u < entries@.len() implies #[trigger] entries@[u].0@ == char_key(entries@[u].1@) by {
                    if entries@[u].0@ != char_key(em@) {
                        let j = choose|j: int| 0 <= j < old_entries.len() && old_entries[j] == entries@[u];
                        assert(old_entries[j].0@ == char_key(old_entries[j].1@));
                    }
                }
                assert forall|k: Seq<u32>| has_key(entries@, k) <==> exists|e: Seq<char>| email_listed(rt1, e) && k == char_key(e) by {
                    if has_key(entries@, k) {
                        if k == char_key(em@) {
                            assert(rt1[t as int].author_email == Some(em@));
                            assert(email_listed(rt1, em@));
                        } else {
                            assert(has_key(old_entries, k));
                            let e = choose|e: Seq<char>| email_listed(rt, e) && k == char_key(e);
                            let w = choose|w: int| 0 <= w < rt.len() && #[trigger] rt[w].author_email == Some(e);
                            assert(rt1[w].author_email == Some(e));
                            assert(email_listed(rt1, e));
                        }
                    }
                    if exists|e: Seq<char>| email_listed(rt1, e) && k == char_key(e) {
                        let e = choose|e: Seq<char>| email_listed(rt1, e) && k == char_key(e);
                        let w = choose|w: int| 0 <= w < rt1.len() && #[trigger] rt1[w].author_email == Some(e);
                        if w < t {
                            assert(rt[w].author_email == Some(e));
                            assert(email_listed(rt, e));
                            assert(has_key(old_entries, k));
                        } else {
                            assert(e == em@);
                        }
                    }
                }
            },
            None => {
                assert forall|k: Seq<u32>| has_key(entries@, k) <==> exists|e: Seq<char>| email_listed(rt1, e) && k == char_key(e) by {
                    if exists|e: Seq<char>| email_listed(rt1, e) && k == char_key(e) {
                        let e = choose|e: Seq<char>| email_listed(rt1, e) && k == char_key(e);
                        let w = choose|w: int| 0 <= w < rt1.len() && #[trigger] rt1[w].author_email == Some(e);
                        assert(w < t);
                        assert(rt[w].author_email == Some(e));
                        assert(email_listed(rt, e));
                    }
                    if has_key(entries@, k) {
                        let e = choose|e: Seq<char>| email_listed(rt, e) && k == char_key(e);
                        let w = choose|w: int| 0 <= w < rt.len() && #[trigger] rt[w].author_email == Some(e);
                        assert(rt1[w].author_email == Some(e));
                        assert(email_listed(rt1, e));
                    }
                }
            },
        }
        proof {
            lemma_extreme_times(rt1);
        }
        t += 1;
    }
    assert(r.take(t as int) =~= r);
    let mut emails: Vec<String> = Vec::new();
    let mut u: usize = 0;
    while u < entries.len()
        invariant
            u <= entries@.len(),
            emails@.len() == u,
            forall|a: int| 0 <= a < u ==> #[trigger] emails@[a]@ == entries@[a].1@,
        decreases entries@.len() - u,
    {
        emails.push(copy_str(&entries[u].1));
        u += 1;
    }
    let ghost em = texts(emails@);
    assert(em.len() == entries@.len());
    assert forall|a: int| 0 <= a < em.len() implies #[trigger] em[a] == entries@[a].1@ && char_key(em[a]) == entries@[a].0@ by {
        assert(emails@[a]@ == entries@[a].1@);
    }
    assert forall|a: int, c: int| 0 <= a < c < em.len() implies lex_lt(char_key(#[trigger] em[a]), char_key(#[trigger] em[c])) by {
        assert(em[a] == entries@[a].1@ && char_key(em[a]) == entries@[a].0@);
        assert(em[c] == entries@[c].1@ && char_key(em[c]) == entries@[c].0@);
    }
    assert forall|e: Seq<char>| em.contains(e) <==> email_listed(r, e) by {
        if em.contains(e) {
            let a = choose|a: int| 0 <= a < em.len() && em[a] == e;
            assert(em[a] == entries@[a].1@ && char_key(em[a]) == entries@[a].0@);
            assert(has_key(entries@, char_key(e)));
            let e2 = choose|e2: Seq<char>| email_listed(r, e2) && char_key(e) == char_key(e2);
            lemma_char_key_injective(e, e2);
        }
        if email_listed(r, e) {
            assert(has_key(entries@, char_key(e)));
            let a = choose|a: int| 0 <= a < entries@.len() && #[trigger] entries@[a].0@ == char_key(e);
            assert(entries@[a].0@ == char_key(entries@[a].1@));
            lemma_char_key_injective(entries@[a].1@, e);
            assert(em[a] == entries@[a].1@ && char_key(em[a]) == entries@[a].0@);
            assert(em[a] == e);
        }
    }
    let first = copy_str(&blame_lines[sel[mi]].commit_oid);
    let last = copy_str(&blame_lines[sel[mx]].commit_oid);
    Some(BlameInfo { first_commit_oid: first, last_commit_oid: last, author_emails: emails })
}


/// A record's file as the join needs it: its path relative to the
/// repository, its current content, and its blame lines (none when the
/// file is not committed).
#[derive(Debug, Clone, PartialEq)]
pub struct ResolvedFile {
    pub relative_path: String,
    pub content: String,
    pub blame_lines: Vec<BlameLine>,
}

/// The mathematical shape of a [`ResolvedFile`].
pub struct FileView {
    pub relative_path: Seq<char>,
    pub content: Seq<char>,
    pub blame: Seq<BlameLineView>,
}

impl View for ResolvedFile {
    type V = FileView;

    open spec fn view(&self) -> FileView {
        FileView {
            relative_path: self.relative_path@,
            content: self.content@,
            blame: blame_view(self.blame_lines@),
        }
    }
}

/// The needles that occur in `content`, in order.
pub open spec fn found_needles(needles: Seq<Seq<char>>, content: Seq<char>) -> Seq<Seq<char>>
    decreases needles.len(),
{
    if needles.len() == 0 {
        Seq::empty()
    } else {
        found_needles(needles.drop_last(), content) + if spec_find_lines(content, needles.last()) is Some {
            seq![needles.last()]
        } else {
            Seq::empty()
        }
    }
}

/// `rv` is the range that `needle`, found in the file, gives for `rec`:
/// the lines of its first occurrence, the BLAKE3 hex of its UTF-8 bytes,
/// the record's identity, and the blame summary of those lines.
pub open spec fn range_for(rv: RangeView, rec: RecordView, f: FileView, needle: Seq<char>) -> bool {
    &&& spec_find_lines(f.content, needle) == Some((rv.start_line, rv.end_line))
    &&& rv.file_path == f.relative_path
    &&& rv.content_hash == lower_hex(blake3_digest(vstd::utf8::encode_utf8(needle)))
    &&& rv.attribution_uuid == rec.uuid
    &&& rv.model == rec.model
    &&& rv.session_id == rec.session_id
    &&& rv.timestamp == rec.timestamp
    &&& spec_blame_for(f.blame, rv.start_line, rv.end_line, rv.blame)
}

/// `rs` holds one range per needle of `rec` found in the file, in order.
pub open spec fn record_ranges(rs: Seq<RangeView>, rec: RecordView, f: FileView) -> bool {
    let ns = found_needles(spec_needles(rec.payload), f.content);
    &&& rs.len() == ns.len()
    &&& forall|k: int| 0 <= k < rs.len() ==> range_for(#[trigger] rs[k], rec, f, ns[k])
}

/// The ranges of one record against its resolved file.
pub fn ranges_for_record(record: &AttributionRecord, file: &ResolvedFile) -> (res: Vec<AnnotatedRange>)
    ensures
        record_ranges(ranges_view(res@), record@, file@),
{
    let needles = extract_needles(&record.payload);
    let ghost ns = texts_of(needles@);
    let mut out: Vec<AnnotatedRange> = Vec::new();
    let mut i: usize = 0;
    while i < needles.len()
        invariant
            i <= needles@.len(),
            ns == texts_of(needles@),
            ns == spec_needles(record@.payload),
            ns.len() == needles@.len(),
            record_ranges_for(ranges_view(out@), record@, file@, ns.take(i as int)),
        decreases needles@.len() - i,
    {
        assert(ns.take(i + 1).drop_last() =~= ns.take(i as int));
        assert(ns.take(i + 1).last() == needles@[i as int]@);
        let needle = &needles[i];
        let ghost before = ranges_view(out@);
        if !needle.as_str().is_empty() {
            match find_substring_lines(file.content.as_str(), needle.as_str()) {
                Some((start_line, end_line)) => {
                    let blame = enrich_with_blame(file.blame_lines.as_slice(), start_line, end_line);
                    let r = AnnotatedRange {
                        file_path: file.relative_path.clone(),
                        start_line,
                        end_line,
                        content_hash: blake3_hex_of_str(needle.as_str()),
                        attribution_uuid: record.uuid.clone(),
                        model: record.model.clone(),
                        session_id: record.session_id.clone(),
                        timestamp: record.timestamp.clone(),
                        blame,
                    };
                    assert(range_for(r@, record@, file@, needle@));
                    out.push(r);
                    assert(ranges_view(out@) =~= before.push(r@));
                },
                None => {},
            }
        }
        proof {
            let nn = ns.take(i + 1);
            assert(found_needles(nn, file@.content) == found_needles(ns.take(i as int), file@.content) + if spec_find_lines(file@.content, needle@) is Some {
                seq![needle@]
            } else {
                Seq::<Seq<char>>::empty()
            });
        }
        i += 1;
    }
    assert(ns.take(i as int) =~= ns);
    out
}

/// `record_ranges` against a given sequence of needles.
pub open spec fn record_ranges_for(rs: Seq<RangeView>, rec: RecordView, f: FileView, needles: Seq<Seq<char>>) -> bool {
    let ns = found_needles(needles, f.content);
    &&& rs.len() == ns.len()
    &&& forall|k: int| 0 <= k < rs.len() ==> range_for(#[trigger] rs[k], rec, f, ns[k])
}


/// The view of an optional resolved file.
pub open spec fn opt_file(o: Option<ResolvedFile>) -> Option<FileView> {
    match o {
        Some(f) => Some(f@),
        None => None,
    }
}

/// How many ranges a record yields: none when its file could not be
/// resolved or read, else one per needle found.
pub open spec fn range_count(rec: RecordView, f: Option<FileView>) -> nat {
    match f {
        None => 0,
        Some(fv) => found_needles(spec_needles(rec.payload), fv.content).len(),
    }
}

/// `out` is the ranges of `recs`, record after record, each record with the
/// file at the same index.
pub open spec fn joined_ranges(recs: Seq<RecordView>, files: Seq<Option<FileView>>, out: Seq<RangeView>) -> bool
    decreases recs.len(),
{
    if recs.len() == 0 {
        out.len() == 0
    } else {
        let c = range_count(recs.last(), files.last());
        let head = out.take(out.len() - c);
        let block = out.skip(out.len() - c);
        &&& c <= out.len()
        &&& joined_ranges(recs.drop_last(), files.drop_last(), head)
        &&& match files.last() {
            None => block.len() == 0,
            Some(fv) => record_ranges(block, recs.last(), fv),
        }
    }
}

/// The ranges of all records, in record order. `files[i]` is the file that
/// `records[i]` resolved to inside the repository, or `None` when it points
/// outside it or cannot be read.
pub fn attribute_ranges(records: &[AttributionRecord], files: &[Option<ResolvedFile>]) -> (res: Vec<AnnotatedRange>)
    requires
        records@.len() == files@.len(),
    ensures
        joined_ranges(
            crate::schemas::attribution::records_view(records@),
            files@.map_values(|f: Option<ResolvedFile>| opt_file(f)),
            ranges_view(res@),
        ),
{
    let ghost rv = crate::schemas::attribution::records_view(records@);
    let ghost fv = files@.map_values(|f: Option<ResolvedFile>| opt_file(f));
    let mut out: Vec<AnnotatedRange> = Vec::new();
    let mut i: usize = 0;
    while i < records.len()
        invariant
            i <= records@.len() == files@.len(),
            rv == crate::schemas::attribution::records_view(records@),
            fv == files@.map_values(|f: Option<ResolvedFile>| opt_file(f)),
            joined_ranges(rv.take(i as int), fv.take(i as int), ranges_view(out@)),
        decreases records@.len() - i,
    {
        let ghost before = ranges_view(out@);
        let ghost r1 = rv.take(i + 1);
        let ghost f1 = fv.take(i + 1);
        assert(r1.drop_last() =~= rv.take(i as int));
        assert(f1.drop_last() =~= fv.take(i as int));
        assert(r1.last() == records@[i as int]@);
        assert(f1.last() == opt_file(files@[i as int]));
        match &files[i] {
            Some(f) => {
                let mut block = ranges_for_record(&records[i], f);
                let ghost bv = ranges_view(block@);
                out.append(&mut block);
                assert(ranges_view(out@) =~= before + bv);
                assert(ranges_view(out@).take(before.len() as int) =~= before);
                assert(ranges_view(out@).skip(before.len() as int) =~= bv);
            },
            None => {
                assert(ranges_view(out@).take(before.len() as int) =~= before);
            },
        }
        i += 1;
    }
    assert(rv.take(i as int) =~= rv);
    assert(fv.take(i as int) =~= fv);
    out
}


/// Every needle found is a needle of the payload and occurs in the content.
proof fn lemma_found_needles_members(needles: Seq<Seq<char>>, content: Seq<char>)
    ensures
        forall|k: int| 0 <= k < found_needles(needles, content).len() ==> {
            &&& needles.contains(#[trigger] found_needles(needles, content)[k])
            &&& spec_find_lines(content, found_needles(needles, content)[k]) is Some
        },
    decreases needles.len(),
{
    if needles.len() > 0 {
        let p = needles.drop_last();
        lemma_found_needles_members(p, content);
        let fp = found_needles(p, content);
        let f = found_needles(needles, content);
        assert forall|k: int| 0 <= k < f.len() implies {
            &&& needles.contains(#[trigger] f[k])
            &&& spec_find_lines(content, f[k]) is Some
        } by {
            if k < fp.len() {
                assert(f[k] == fp[k]);
                let j = choose|j: int| 0 <= j < p.len() && p[j] == fp[k];
                assert(needles[j] == p[j]);
            } else {
                assert(f[k] == needles.last());
                assert(needles[needles.len() - 1] == needles.last());
            }
        }
    }
}

/// Each range of a record names the record's message (its `uuid`), model,
/// session and timestamp and the file's path in the repository; its lines
/// are where one of the record's needles first occurs in the file; and its
/// blame describes exactly the blame lines from its start line to its end
/// line.
pub proof fn lemma_record_ranges_facts(rs: Seq<RangeView>, rec: RecordView, f: FileView)
    requires
        record_ranges(rs, rec, f),
    ensures
        forall|k: int| 0 <= k < rs.len() ==> {
            &&& (#[trigger] rs[k]).attribution_uuid == rec.uuid
            &&& rs[k].model == rec.model
            &&& rs[k].session_id == rec.session_id
            &&& rs[k].timestamp == rec.timestamp
            &&& rs[k].file_path == f.relative_path
            &&& exists|n: Seq<char>| spec_needles(rec.payload).contains(n)
                && spec_find_lines(f.content, n) == Some((rs[k].start_line, rs[k].end_line))
            &&& blame_describes(f.blame, rs[k].start_line, rs[k].end_line, rs[k].blame)
        },
{
    let ns = found_needles(spec_needles(rec.payload), f.content);
    lemma_found_needles_members(spec_needles(rec.payload), f.content);
    assert forall|k: int| 0 <= k < rs.len() implies {
        &&& (#[trigger] rs[k]).attribution_uuid == rec.uuid
        &&& rs[k].model == rec.model
        &&& rs[k].session_id == rec.session_id
        &&& rs[k].timestamp == rec.timestamp
        &&& rs[k].file_path == f.relative_path
        &&& exists|n: Seq<char>| spec_needles(rec.payload).contains(n)
            && spec_find_lines(f.content, n) == Some((rs[k].start_line, rs[k].end_line))
        &&& blame_describes(f.blame, rs[k].start_line, rs[k].end_line, rs[k].blame)
    } by {
        assert(range_for(rs[k], rec, f, ns[k]));
        assert(spec_needles(rec.payload).contains(ns[k]));
        lemma_blame_summary_lines(f.blame, rs[k].start_line, rs[k].end_line, rs[k].blame);
    }
}

/// Every range of a join comes from one record whose file was resolved: it
/// names that record's message (its `uuid`), model, session and timestamp
/// and that file's path, and its blame describes exactly that file's blame
/// lines from its start line to its end line.
pub proof fn lemma_joined_ranges_facts(recs: Seq<RecordView>, files: Seq<Option<FileView>>, out: Seq<RangeView>)
    requires
        recs.len() == files.len(),
        joined_ranges(recs, files, out),
    ensures
        forall|k: int| 0 <= k < out.len() ==> exists|i: int| {
            &&& 0 <= i < recs.len()
            &&& files[i] is Some
            &&& (#[trigger] out[k]).attribution_uuid == recs[i].uuid
            &&& out[k].model == recs[i].model
            &&& out[k].session_id == recs[i].session_id
            &&& out[k].timestamp == recs[i].timestamp
            &&& out[k].file_path == files[i]->0.relative_path
            &&& blame_describes(files[i]->0.blame, out[k].start_line, out[k].end_line, out[k].blame)
        },
    decreases recs.len(),
{
    if recs.len() > 0 {
        let c = range_count(recs.last(), files.last());
        let head = out.take(out.len() - c);
        let block = out.skip(out.len() - c);
        let last = recs.len() - 1;
        lemma_joined_ranges_facts(recs.drop_last(), files.drop_last(), head);
        if let Some(fv) = files.last() {
            lemma_record_ranges_facts(block, recs.last(), fv);
        }
        assert forall|k: int| 0 <= k < out.len() implies exists|i: int| {
            &&& 0 <= i < recs.len()
            &&& files[i] is Some
            &&& (#[trigger] out[k]).attribution_uuid == recs[i].uuid
            &&& out[k].model == recs[i].model
            &&& out[k].session_id == recs[i].session_id
            &&& out[k].timestamp == recs[i].timestamp
            &&& out[k].file_path == files[i]->0.relative_path
            &&& blame_describes(files[i]->0.blame, out[k].start_line, out[k].end_line, out[k].blame)
        } by {
            if k < head.len() {
                assert(out[k] == head[k]);
                let i = choose|i: int| {
                    &&& 0 <= i < recs.drop_last().len()
                    &&& files.drop_last()[i] is Some
                    &&& (#[trigger] head[k]).attribution_uuid == recs.drop_last()[i].uuid
                    &&& head[k].model == recs.drop_last()[i].model
                    &&& head[k].session_id == recs.drop_last()[i].session_id
                    &&& head[k].timestamp == recs.drop_last()[i].timestamp
                    &&& head[k].file_path == files.drop_last()[i]->0.relative_path
                    &&& blame_describes(files.drop_last()[i]->0.blame, head[k].start_line, head[k].end_line, head[k].blame)
                };
                assert(recs[i] == recs.drop_last()[i]);
                assert(files[i] == files.drop_last()[i]);
            } else {
                let t = k - head.len();
                assert(out[k] == block[t]);
                assert(files[last] == files.last());
                assert(recs[last] == recs.last());
                assert(files.last() is Some);
            }
        }
    }
}


/// A non-empty needle is found exactly when some stretch of the text equals
/// it; the lines found are those of the leftmost such stretch: the start line
/// is one more than the line breaks before it, and the end line adds the
/// line breaks inside the needle, less one when the needle ends with one.
pub proof fn lemma_find_lines_leftmost(h: Seq<char>, n: Seq<char>)
    ensures
        spec_find_lines(h, n) is Some <==> (n.len() > 0 && exists|i: int|
            0 <= i && i + n.len() <= h.len() && #[trigger] h.subrange(i, i + n.len()) == n),
        spec_find_lines(h, n) matches Some((s, e)) ==> exists|i: int| {
            &&& 0 <= i && i + n.len() <= h.len()
            &&& #[trigger] h.subrange(i, i + n.len()) == n
            &&& forall|j: int| 0 <= j < i ==> #[trigger] h.subrange(j, j + n.len()) != n
            &&& s == count_char(h.take(i), '\n') + 1
            &&& e == s + count_char(n, '\n') - if n.last() == '\n' { 1int } else { 0int }
        },
{
    lemma_first_occurrence(h, n, 0);
    if n.len() > 0 {
        if exists|i: int| 0 <= i && i + n.len() <= h.len() && #[trigger] h.subrange(i, i + n.len()) == n {
            let i = choose|i: int| 0 <= i && i + n.len() <= h.len() && #[trigger] h.subrange(i, i + n.len()) == n;
            assert(occurs_at(h, n, i));
        }
        match first_occurrence_from(h, n, 0) {
            Some(i) => {
                assert(occurs_at(h, n, i));
                assert forall|j: int| 0 <= j < i implies #[trigger] h.subrange(j, j + n.len()) != n by {
                    assert(!occurs_at(h, n, j));
                }
                if n.last() == '\n' {
                    lemma_count_char_bound(n, '\n');
                }
            },
            None => {},
        }
    }
}

} // verus!
