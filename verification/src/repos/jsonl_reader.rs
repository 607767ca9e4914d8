//! JSONL reading: one JSON value per non-blank line.
//!
//! Lines are split at `\n` as `BufRead::lines` splits them. Blank and
//! white-space-only lines are skipped. A line that is not valid UTF-8 is an
//! `Io` error; a line that does not parse is a `Parse` error naming its
//! 1-based line number, so callers can keep reading and report partial data.

use crate::error::{AppError, ErrorKind};
use crate::json::{json_text_parse, parse_json, JsonTree, JsonValue};
use crate::text::{chars_of, decimal, push_decimal, push_str, string_of, trim, trimmed, utf8_decode};
use vstd::prelude::*;
use vstd::utf8::{decode_utf8, valid_utf8};

verus! {

/// What one line yields: a value, an error, or nothing for a blank line.
pub type LineOutcome = Result<JsonTree, (ErrorKind, Seq<char>)>;

/// Index of the first `\n` in `b`, or its length when there is none.
pub open spec fn first_newline(b: Seq<u8>) -> nat
    decreases b.len(),
{
    if b.len() == 0 {
        0
    } else if b[0] == 10u8 {
        0
    } else {
        1 + first_newline(b.drop_first())
    }
}

/// `first_newline(b) == j` when `b[j]` is the first `\n` (or there is none
/// and `j` is the length).
pub proof fn lemma_first_newline_at(b: Seq<u8>, j: int)
    requires
        0 <= j <= b.len(),
        forall|k: int| 0 <= k < j ==> b[k] != 10u8,
        j == b.len() || b[j] == 10u8,
    ensures
        first_newline(b) == j,
    decreases j,
{
    if j > 0 {
        lemma_first_newline_at(b.drop_first(), j - 1);
    }
}

/// `first_newline` points at the first `\n`, or past the end when there is
/// none.
pub proof fn lemma_first_newline_props(b: Seq<u8>)
    ensures
        first_newline(b) <= b.len(),
        forall|k: int| 0 <= k < first_newline(b) ==> b[k] != 10u8,
        first_newline(b) < b.len() ==> b[first_newline(b) as int] == 10u8,
    decreases b.len(),
{
    if b.len() > 0 && b[0] != 10u8 {
        let t = b.drop_first();
        lemma_first_newline_props(t);
        assert forall|k: int| 0 <= k < first_newline(b) implies b[k] != 10u8 by {
            if k > 0 {
                assert(b[k] == t[k - 1]);
            }
        }
    }
}

/// How many lines `b` splits into.
pub open spec fn line_count(b: Seq<u8>) -> nat
    decreases b.len(),
{
    if b.len() == 0 {
        0
    } else {
        let i = first_newline(b);
        if i >= b.len() {
            1
        } else {
            1 + line_count(b.skip(i + 1int))
        }
    }
}

/// The lines of `a + b`, when `a` ends at a line break, are those of `a`
/// followed by those of `b`, numbered on from where `a` stopped.
pub proof fn lemma_outcomes_append(a: Seq<u8>, b: Seq<u8>, idx: nat)
    requires
        a.len() == 0 || a.last() == 10u8,
    ensures
        outcomes_from(a + b, idx) == outcomes_from(a, idx) + outcomes_from(b, idx + line_count(a)),
    decreases a.len(),
{
    if a.len() == 0 {
        assert(a + b =~= b);
        assert(outcomes_from(a, idx) =~= Seq::<LineOutcome>::empty());
        assert(Seq::<LineOutcome>::empty() + outcomes_from(b, idx) =~= outcomes_from(b, idx));
    } else {
        lemma_first_newline_props(a);
        let i = first_newline(a);
        if i >= a.len() {
            assert(a[a.len() - 1] != 10u8);
        }
        assert(i < a.len());
        let ab = a + b;
        lemma_first_newline_at(ab, i as int);
        assert(ab.take(i as int) =~= a.take(i as int));
        let rest = a.skip(i + 1int);
        assert(ab.skip(i + 1int) =~= rest + b);
        if rest.len() > 0 {
            assert(rest.last() == a.last());
        }
        lemma_outcomes_append(rest, b, idx + 1);
        let here = match line_outcome(idx, a.take(i as int)) {
            Some(o) => seq![o],
            None => Seq::<LineOutcome>::empty(),
        };
        assert(outcomes_from(ab, idx) == here + outcomes_from(rest + b, (idx + 1) as nat));
        assert(outcomes_from(a, idx) == here + outcomes_from(rest, (idx + 1) as nat));
        assert(line_count(a) == 1 + line_count(rest));
        assert(here + (outcomes_from(rest, (idx + 1) as nat) + outcomes_from(b, idx + 1 + line_count(rest)))
            =~= here + outcomes_from(rest, (idx + 1) as nat) + outcomes_from(b, idx + 1 + line_count(rest)));
    }
}

/// What the line numbered `idx + 1` yields.
pub open spec fn line_outcome(idx: nat, line: Seq<u8>) -> Option<LineOutcome> {
    if !valid_utf8(line) {
        Some(Err((ErrorKind::Io, "stream did not contain valid UTF-8"@)))
    } else {
        let t = trim(decode_utf8(line));
        if t.len() == 0 {
            None
        } else {
            match json_text_parse(t) {
                Ok(v) => Some(Ok(v)),
                Err(m) => Some(Err((ErrorKind::Parse, "line "@ + decimal(idx + 1) + ": "@ + m))),
            }
        }
    }
}

/// The outcomes of the lines of `b`, numbering the first one `idx + 1`.
pub open spec fn outcomes_from(b: Seq<u8>, idx: nat) -> Seq<LineOutcome>
    decreases b.len(),
{
    if b.len() == 0 {
        Seq::empty()
    } else {
        let i = first_newline(b);
        let here = match line_outcome(idx, b.take(i as int)) {
            Some(o) => seq![o],
            None => Seq::empty(),
        };
        if i >= b.len() {
            here
        } else {
            here + outcomes_from(b.skip(i + 1int), (idx + 1) as nat)
        }
    }
}

/// The outcomes of all lines of `b`, in order.
pub open spec fn read_records_spec(b: Seq<u8>) -> Seq<LineOutcome> {
    outcomes_from(b, 0)
}

/// The mathematical shape of one reader result.
pub open spec fn outcome_view(r: Result<JsonValue, AppError>) -> LineOutcome {
    match r {
        Ok(v) => Ok(v.tree()),
        Err(e) => Err(e@),
    }
}

/// Shapes of a sequence of reader results.
pub open spec fn outcomes_view(s: Seq<Result<JsonValue, AppError>>) -> Seq<LineOutcome> {
    s.map_values(|r: Result<JsonValue, AppError>| outcome_view(r))
}

fn read_line(idx: usize, line: &[u8]) -> (res: Option<Result<JsonValue, AppError>>)
    requires
        idx < usize::MAX,
    ensures
        match res {
            Some(r) => line_outcome(idx as nat, line@) == Some(outcome_view(r)),
            None => line_outcome(idx as nat, line@) is None,
        },
{
    match utf8_decode(line) {
        None => Some(Err(AppError::Io("stream did not contain valid UTF-8".to_owned()))),
        Some(text) => {
            let cs = chars_of(text);
            let t = trimmed(cs.as_slice());
            if t.len() == 0 {
                None
            } else {
                let s = string_of(t.as_slice());
                match parse_json(s.as_str()) {
                    Ok(v) => Some(Ok(v)),
                    Err(m) => {
                        let mut msg = "line ".to_owned();
                        push_decimal(&mut msg, (idx + 1) as u64);
                        push_str(&mut msg, ": ");
                        push_str(&mut msg, m.as_str());
                        Some(Err(AppError::Parse(msg)))
                    },
                }
            }
        },
    }
}

/// One result per non-blank line of `input`, in order.
pub fn read_records(input: &[u8]) -> (out: Vec<Result<JsonValue, AppError>>)
    ensures
        outcomes_view(out@) == read_records_spec(input@),
{
    let n = input.len();
    let ghost b = input@;
    let mut out: Vec<Result<JsonValue, AppError>> = Vec::new();
    let mut start: usize = 0;
    let mut idx: usize = 0;
    assert(b.skip(0) =~= b);
    while start < n
        invariant
            n == b.len(),
            b == input@,
            start <= n,
            idx <= start,
            read_records_spec(b) == outcomes_view(out@) + outcomes_from(b.skip(start as int), idx as nat),
        decreases n - start,
    {
        let mut j: usize = start;
        while j < n && input[j] != 10u8
            invariant
                start <= j <= n == input@.len(),
                forall|k: int| start <= k < j ==> input@[k] != 10u8,
            decreases n - j,
        {
            j += 1;
        }
        let ghost rest = b.skip(start as int);
        proof {
            lemma_first_newline_at(rest, j - start);
            assert(rest.take(j - start) =~= b.subrange(start as int, j as int));
        }
        let line = &input[start..j];
        let r = read_line(idx, line);
        let ghost before = out@;
        match r {
            Some(o) => {
                out.push(o);
            },
            None => {},
        }
        assert(outcomes_view(out@) =~= outcomes_view(before) + match line_outcome(idx as nat, line@) {
            Some(o) => seq![o],
            None => Seq::<LineOutcome>::empty(),
        });
        if j == n {
            start = n;
        } else {
            assert(rest.skip(j - start + 1) =~= b.skip(j + 1));
            start = j + 1;
        }
        idx += 1;
    }
    assert(b.skip(n as int) =~= Seq::<u8>::empty());
    assert(outcomes_view(out@) + Seq::<LineOutcome>::empty() =~= outcomes_view(out@));
    out
}

} // verus!
