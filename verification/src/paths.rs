//! Paths as text, with the component semantics of `std::path` on Unix:
//! joining, comparing, and stripping a prefix.

use crate::text::{chars_of, push_char, push_str, string_of};
use vstd::prelude::*;

verus! {

/// One component of a path, as `std::path::Component` has it on Unix.
pub enum PathComponent {
    RootDir,
    CurDir,
    ParentDir,
    Normal(Seq<char>),
}

/// Index of the first `/` in `p`, or its length when there is none.
pub open spec fn first_slash(p: Seq<char>) -> nat
    decreases p.len(),
{
    if p.len() == 0 {
        0
    } else if p[0] == '/' {
        0
    } else {
        1 + first_slash(p.drop_first())
    }
}

pub proof fn lemma_first_slash_at(p: Seq<char>, j: int)
    requires
        0 <= j <= p.len(),
        forall|k: int| 0 <= k < j ==> p[k] != '/',
        j == p.len() || p[j] == '/',
    ensures
        first_slash(p) == j,
    decreases j,
{
    if j > 0 {
        lemma_first_slash_at(p.drop_first(), j - 1);
    }
}

/// The component that one `/`-separated segment contributes: none for an
/// empty segment or `.`.
pub open spec fn segment_components(seg: Seq<char>) -> Seq<PathComponent> {
    if seg.len() == 0 || seg == seq!['.'] {
        Seq::empty()
    } else if seg == seq!['.', '.'] {
        seq![PathComponent::ParentDir]
    } else {
        seq![PathComponent::Normal(seg)]
    }
}

/// The components of the segments of `p`, segment after segment.
pub open spec fn segments_components(p: Seq<char>) -> Seq<PathComponent>
    decreases p.len(),
{
    let i = first_slash(p);
    if i >= p.len() {
        segment_components(p)
    } else {
        segment_components(p.take(i as int)) + segments_components(p.skip(i + 1int))
    }
}

/// The components of a path: a root for a leading `/`, a `.` only when the
/// path starts with it, then one component per other segment.
pub open spec fn components(p: Seq<char>) -> Seq<PathComponent> {
    if p.len() > 0 && p[0] == '/' {
        seq![PathComponent::RootDir] + segments_components(p.drop_first())
    } else {
        let i = first_slash(p);
        if p.take(i as int) == seq!['.'] {
            seq![PathComponent::CurDir] + if i >= p.len() {
                Seq::<PathComponent>::empty()
            } else {
                segments_components(p.skip(i + 1int))
            }
        } else {
            segments_components(p)
        }
    }
}

/// A component as a sequence of units: a tag, then for a normal component
/// each character shifted up by one, then a terminating zero. The
/// lexicographic order of these keys is the order of `std::path::Component`
/// (`RootDir < CurDir < ParentDir < Normal`, names by their characters).
pub open spec fn component_key(c: PathComponent) -> Seq<u32> {
    match c {
        PathComponent::RootDir => seq![1u32, 0u32],
        PathComponent::CurDir => seq![2u32, 0u32],
        PathComponent::ParentDir => seq![3u32, 0u32],
        PathComponent::Normal(s) => seq![4u32] + s.map_values(|ch: char| (ch as u32 + 1) as u32) + seq![0u32],
    }
}

/// The keys of a sequence of components, one after another.
pub open spec fn components_key(cs: Seq<PathComponent>) -> Seq<u32>
    decreases cs.len(),
{
    if cs.len() == 0 {
        Seq::empty()
    } else {
        components_key(cs.drop_last()) + component_key(cs.last())
    }
}

/// The order key of a path: two paths are equal as `std::path::Path`s
/// exactly when their keys are, and ordered as their keys are.
pub open spec fn path_key(p: Seq<char>) -> Seq<u32> {
    components_key(components(p))
}

/// A path component as an exec value.
pub enum Component {
    RootDir,
    CurDir,
    ParentDir,
    Normal(Vec<char>),
}

impl View for Component {
    type V = PathComponent;

    open spec fn view(&self) -> PathComponent {
        match self {
            Component::RootDir => PathComponent::RootDir,
            Component::CurDir => PathComponent::CurDir,
            Component::ParentDir => PathComponent::ParentDir,
            Component::Normal(s) => PathComponent::Normal(s@),
        }
    }
}

/// Views of a sequence of components.
pub open spec fn components_view(s: Seq<Component>) -> Seq<PathComponent> {
    s.map_values(|c: Component| c@)
}

fn segment_component(seg: Vec<char>) -> (res: Option<Component>)
    ensures
        match res {
            Some(c) => segment_components(seg@) == seq![c@],
            None => segment_components(seg@) == Seq::<PathComponent>::empty(),
        },
{
    if seg.len() == 0 {
        None
    } else if seg.len() == 1 && seg[0] == '.' {
        assert(seg@ =~= seq!['.']);
        None
    } else if seg.len() == 2 && seg[0] == '.' && seg[1] == '.' {
        assert(seg@ =~= seq!['.', '.']);
        Some(Component::ParentDir)
    } else {
        assert(seg@ != seq!['.']);
        assert(seg@ != seq!['.', '.']);
        Some(Component::Normal(seg))
    }
}

fn slice_chars(p: &[char], start: usize, end: usize) -> (v: Vec<char>)
    requires
        start <= end <= p@.len(),
    ensures
        v@ == p@.subrange(start as int, end as int),
{
    let mut v: Vec<char> = Vec::new();
    let mut k: usize = start;
    while k < end
        invariant
            start <= k <= end <= p@.len(),
            v@ == p@.subrange(start as int, k as int),
        decreases end - k,
    {
        v.push(p[k]);
        k += 1;
        assert(v@ =~= p@.subrange(start as int, k as int));
    }
    v
}

/// Appends the components of the segments of `p[from..]`.
fn push_segments(p: &[char], from: usize, out: &mut Vec<Component>)
    requires
        from <= p@.len(),
    ensures
        components_view(final(out)@) == components_view(old(out)@) + segments_components(p@.skip(from as int)),
{
    let n = p.len();
    let mut start: usize = from;
    let ghost base = components_view(out@);
    loop
        invariant
            n == p@.len(),
            base == components_view(old(out)@),
            from <= start <= n,
            components_view(out@) + segments_components(p@.skip(start as int)) == base + segments_components(p@.skip(from as int)),
        decreases n - start,
    {
        let mut j: usize = start;
        while j < n && p[j] != '/'
            invariant
                start <= j <= n == p@.len(),
                forall|k: int| start <= k < j ==> p@[k] != '/',
            decreases n - j,
        {
            j += 1;
        }
        let ghost rest = p@.skip(start as int);
        proof {
            lemma_first_slash_at(rest, j - start);
            assert(rest.take(j - start) =~= p@.subrange(start as int, j as int));
        }
        let seg = slice_chars(p, start, j);
        let ghost prev = components_view(out@);
        match segment_component(seg) {
            Some(c) => {
                out.push(c);
            },
            None => {},
        }
        assert(components_view(out@) =~= prev + segment_components(p@.subrange(start as int, j as int)));
        if j == n {
            assert(rest.take(j - start) =~= rest);
            assert(segments_components(rest) == segment_components(rest));
            assert(components_view(out@) + segments_components(p@.skip(n as int)) =~= components_view(out@));
            return;
        }
        assert(rest.skip(j - start + 1) =~= p@.skip(j + 1));
        start = j + 1;
    }
}

/// The components of a path.
pub fn components_of(path: &str) -> (res: Vec<Component>)
    ensures
        components_view(res@) == components(path@),
{
    let p = chars_of(path);
    let n = p.len();
    let mut out: Vec<Component> = Vec::new();
    if n > 0 && p[0] == '/' {
        out.push(Component::RootDir);
        assert(p@.skip(1) =~= p@.drop_first());
        push_segments(p.as_slice(), 1, &mut out);
        assert(components_view(out@) =~= components(path@));
        return out;
    }
    let mut j: usize = 0;
    while j < n && p[j] != '/'
        invariant
            j <= n == p@.len(),
            forall|k: int| 0 <= k < j ==> p@[k] != '/',
        decreases n - j,
    {
        j += 1;
    }
    proof {
        lemma_first_slash_at(p@, j as int);
    }
    if j == 1 && p[0] == '.' {
        assert(p@.take(1) =~= seq!['.']);
        out.push(Component::CurDir);
        if j < n {
            push_segments(p.as_slice(), 2, &mut out);
        }
        assert(components_view(out@) =~= components(path@));
        return out;
    }
    assert(p@.take(j as int) != seq!['.']) by {
        if p@.take(j as int) == seq!['.'] {
            assert(p@.take(j as int).len() == 1);
            assert(p@.take(j as int)[0] == p@[0]);
        }
    }
    assert(p@.skip(0) =~= p@);
    push_segments(p.as_slice(), 0, &mut out);
    assert(components_view(out@) =~= components(path@));
    out
}


fn push_component_key(c: &Component, key: &mut Vec<u32>)
    ensures
        final(key)@ == old(key)@ + component_key(c@),
{
    match c {
        Component::RootDir => {
            key.push(1);
            key.push(0);
            assert(final(key)@ =~= old(key)@ + component_key(c@));
        },
        Component::CurDir => {
            key.push(2);
            key.push(0);
            assert(final(key)@ =~= old(key)@ + component_key(c@));
        },
        Component::ParentDir => {
            key.push(3);
            key.push(0);
            assert(final(key)@ =~= old(key)@ + component_key(c@));
        },
        Component::Normal(s) => {
            let ghost start = key@;
            key.push(4);
            let mut i: usize = 0;
            while i < s.len()
                invariant
                    i <= s@.len(),
                    key@ == start + seq![4u32] + s@.take(i as int).map_values(|ch: char| (ch as u32 + 1) as u32),
                decreases s@.len() - i,
            {
                let ch = s[i];
                proof {
                    vstd::utf8::char_is_scalar(ch);
                }
                key.push(ch as u32 + 1);
                i += 1;
                assert(key@ =~= start + seq![4u32] + s@.take(i as int).map_values(|ch: char| (ch as u32 + 1) as u32));
            }
            key.push(0);
            assert(s@.take(i as int) =~= s@);
            assert(key@ =~= start + component_key(c@));
        },
    }
}

/// The order key of a path.
pub fn path_key_of(path: &str) -> (key: Vec<u32>)
    ensures
        key@ == path_key(path@),
{
    let cs = components_of(path);
    let ghost cv = components_view(cs@);
    let mut key: Vec<u32> = Vec::new();
    let mut i: usize = 0;
    while i < cs.len()
        invariant
            i <= cs@.len(),
            cv == components_view(cs@),
            cv.len() == cs@.len(),
            key@ == components_key(cv.take(i as int)),
        decreases cs@.len() - i,
    {
        assert(cv.take(i + 1).drop_last() =~= cv.take(i as int));
        assert(cv.take(i + 1).last() == cs@[i as int]@);
        push_component_key(&cs[i], &mut key);
        i += 1;
    }
    assert(cv.take(i as int) =~= cv);
    key
}

/// The text of one component.
pub open spec fn component_text(c: PathComponent) -> Seq<char> {
    match c {
        PathComponent::RootDir => seq!['/'],
        PathComponent::CurDir => seq!['.'],
        PathComponent::ParentDir => seq!['.', '.'],
        PathComponent::Normal(s) => s,
    }
}

/// Component texts joined by `/`.
pub open spec fn join_texts(cs: Seq<PathComponent>) -> Seq<char>
    decreases cs.len(),
{
    if cs.len() == 0 {
        Seq::empty()
    } else if cs.len() == 1 {
        component_text(cs[0])
    } else {
        join_texts(cs.drop_last()) + seq!['/'] + component_text(cs.last())
    }
}

/// A path spelled from its components: a leading root stands alone, the
/// rest are joined by `/`. For a path without empty or `.` segments and
/// without a trailing `/`, this is the path's own text.
pub open spec fn components_path(cs: Seq<PathComponent>) -> Seq<char> {
    if cs.len() > 0 && cs[0] is RootDir {
        seq!['/'] + join_texts(cs.drop_first())
    } else {
        join_texts(cs)
    }
}

/// Whether `a` is a prefix of `b`.
pub open spec fn components_prefix(a: Seq<PathComponent>, b: Seq<PathComponent>) -> bool {
    a.len() <= b.len() && b.take(a.len() as int) == a
}

/// `Path::strip_prefix`: the rest of `path` after the components of `base`,
/// when those are a prefix of the path's components.
pub open spec fn spec_repo_relative(path: Seq<char>, base: Seq<char>) -> Option<Seq<char>> {
    let cp = components(path);
    let cb = components(base);
    if components_prefix(cb, cp) {
        Some(components_path(cp.skip(cb.len() as int)))
    } else {
        None
    }
}

fn chars_equal(a: &Vec<char>, b: &Vec<char>) -> (r: bool)
    ensures
        r == (a@ == b@),
{
    if a.len() != b.len() {
        return false;
    }
    let mut i: usize = 0;
    while i < a.len()
        invariant
            i <= a@.len() == b@.len(),
            forall|k: int| 0 <= k < i ==> a@[k] == b@[k],
        decreases a@.len() - i,
    {
        if a[i] != b[i] {
            return false;
        }
        i += 1;
    }
    assert(a@ =~= b@);
    true
}

fn component_eq(a: &Component, b: &Component) -> (r: bool)
    ensures
        r == (a@ == b@),
{
    match (a, b) {
        (Component::RootDir, Component::RootDir) => true,
        (Component::CurDir, Component::CurDir) => true,
        (Component::ParentDir, Component::ParentDir) => true,
        (Component::Normal(x), Component::Normal(y)) => chars_equal(x, y),
        _ => false,
    }
}

fn push_component_text(c: &Component, s: &mut String)
    ensures
        final(s)@ == old(s)@ + component_text(c@),
{
    match c {
        Component::RootDir => push_char(s, '/'),
        Component::CurDir => push_char(s, '.'),
        Component::ParentDir => {
            push_char(s, '.');
            push_char(s, '.');
            assert(final(s)@ =~= old(s)@ + component_text(c@));
        },
        Component::Normal(t) => {
            let u = string_of(t.as_slice());
            push_str(s, u.as_str());
        },
    }
}

/// The part of `path` below `base`, by whole components; `None` when `path`
/// is not inside `base`.
pub fn repo_relative(path: &str, base: &str) -> (res: Option<String>)
    ensures
        match res {
            Some(r) => spec_repo_relative(path@, base@) == Some(r@),
            None => spec_repo_relative(path@, base@) is None,
        },
{
    let cp = components_of(path);
    let cb = components_of(base);
    let ghost vp = components_view(cp@);
    let ghost vb = components_view(cb@);
    if cb.len() > cp.len() {
        return None;
    }
    let mut i: usize = 0;
    while i < cb.len()
        invariant
            i <= cb@.len() <= cp@.len(),
            vp == components_view(cp@),
            vb == components_view(cb@),
            vp == components(path@),
            vb == components(base@),
            forall|k: int| 0 <= k < i ==> vp[k] == vb[k],
        decreases cb@.len() - i,
    {
        if !component_eq(&cb[i], &cp[i]) {
            assert(vp.take(vb.len() as int)[i as int] != vb[i as int]);
            assert(vp.take(vb.len() as int) != vb);
            assert(!components_prefix(vb, vp));
            return None;
        }
        i += 1;
    }
    assert(vp.take(vb.len() as int) =~= vb);
    let ghost rest = vp.skip(vb.len() as int);
    let mut out = String::new();
    let mut k: usize = cb.len();
    if k < cp.len() {
        if let Component::RootDir = &cp[k] {
            push_char(&mut out, '/');
            k += 1;
        }
    }
    let ghost lead = if rest.len() > 0 && rest[0] is RootDir { 1int } else { 0int };
    assert(k == vb.len() + lead);
    let ghost tail = rest.skip(lead);
    assert(out@ == if lead == 1 { seq!['/'] } else { Seq::<char>::empty() });
    let ghost prefix = out@;
    let start = k;
    while k < cp.len()
        invariant
            start <= k <= cp@.len(),
            vp == components_view(cp@),
            start == vb.len() + lead,
            tail == vp.skip(start as int),
            out@ == prefix + join_texts(tail.take(k - start)),
        decreases cp@.len() - k,
    {
        let ghost t1 = tail.take(k + 1 - start);
        assert(t1.drop_last() =~= tail.take(k - start));
        assert(t1.last() == cp@[k as int]@);
        if k > start {
            push_char(&mut out, '/');
        }
        push_component_text(&cp[k], &mut out);
        k += 1;
        assert(out@ =~= prefix + join_texts(t1));
    }
    assert(tail.take(k - start) =~= tail);
    assert(out@ =~= components_path(rest)) by {
        if lead == 1 {
            assert(rest.drop_first() =~= tail);
        } else {
            assert(rest.skip(0) =~= rest);
        }
    }
    Some(out)
}

/// `PathBuf::push` on Unix: an absolute `rel` replaces `base`; otherwise
/// `rel` is appended after a `/` unless `base` is empty or already ends in
/// one.
pub open spec fn path_join(base: Seq<char>, rel: Seq<char>) -> Seq<char> {
    if rel.len() > 0 && rel[0] == '/' {
        rel
    } else if base.len() == 0 {
        rel
    } else if base.last() == '/' {
        base + rel
    } else {
        base + seq!['/'] + rel
    }
}

/// Where a transcript path points: itself when absolute, otherwise joined
/// onto the session's working directory, or onto the repository when the
/// session recorded none.
pub open spec fn spec_candidate_path(file_path: Seq<char>, repo: Seq<char>, cwd: Option<Seq<char>>) -> Seq<char> {
    if file_path.len() > 0 && file_path[0] == '/' {
        file_path
    } else {
        match cwd {
            Some(c) => path_join(c, file_path),
            None => path_join(repo, file_path),
        }
    }
}

/// `base.join(rel)`.
pub fn join_path(base: &str, rel: &str) -> (res: String)
    ensures
        res@ == path_join(base@, rel@),
{
    let r = chars_of(rel);
    let b = chars_of(base);
    if r.len() > 0 && r[0] == '/' {
        return rel.to_owned();
    }
    if b.len() == 0 {
        return rel.to_owned();
    }
    let mut out = base.to_owned();
    if b[b.len() - 1] != '/' {
        push_char(&mut out, '/');
    }
    push_str(&mut out, rel);
    out
}

/// The path a record's `file_path` names, before it is made canonical.
pub fn candidate_path(file_path: &str, repo: &str, cwd: Option<&str>) -> (res: String)
    ensures
        res@ == spec_candidate_path(file_path@, repo@, match cwd {
            Some(c) => Some(c@),
            None => None,
        }),
{
    let f = chars_of(file_path);
    if f.len() > 0 && f[0] == '/' {
        return file_path.to_owned();
    }
    match cwd {
        Some(c) => join_path(c, file_path),
        None => join_path(repo, file_path),
    }
}

/// A path with every `\` turned into `/`.
pub open spec fn forward_slashes(p: Seq<char>) -> Seq<char> {
    p.map_values(|c: char| if c == '\\' { '/' } else { c })
}

/// The SPDX `fileName` of a path: forward slashes, and a leading `./`
/// unless the path already starts with `./` or `/`.
pub open spec fn spec_spdx_file_name(p: Seq<char>) -> Seq<char> {
    let s = forward_slashes(p);
    if (s.len() >= 2 && s[0] == '.' && s[1] == '/') || (s.len() >= 1 && s[0] == '/') {
        s
    } else {
        seq!['.', '/'] + s
    }
}

/// The SPDX `fileName` keeps every character of the path, with each `\`
/// turned into `/`; it gains a leading `./` exactly when the path, so
/// turned, starts neither with `./` nor with `/`.
pub proof fn lemma_spdx_file_name_shape(p: Seq<char>)
    ensures
        ({
            let keep = (p.len() >= 2 && p[0] == '.' && (p[1] == '/' || p[1] == '\\'))
                || (p.len() >= 1 && (p[0] == '/' || p[0] == '\\'));
            let off: int = if keep { 0 } else { 2 };
            let name = spec_spdx_file_name(p);
            &&& name.len() == p.len() + off
            &&& !keep ==> name[0] == '.' && name[1] == '/'
            &&& forall|i: int| 0 <= i < p.len() ==> #[trigger] name[i + off] == if p[i] == '\\' { '/' } else { p[i] }
        }),
{
    let s = forward_slashes(p);
    assert(s.len() == p.len());
    if p.len() >= 1 {
        assert(s[0] == if p[0] == '\\' { '/' } else { p[0] });
    }
    if p.len() >= 2 {
        assert(s[1] == if p[1] == '\\' { '/' } else { p[1] });
    }
}

/// The SPDX `fileName` of a path.
pub fn spdx_file_name(p: &str) -> (res: String)
    ensures
        res@ == spec_spdx_file_name(p@),
{
    let cs = chars_of(p);
    let mut s: Vec<char> = Vec::new();
    let mut i: usize = 0;
    while i < cs.len()
        invariant
            i <= cs@.len(),
            s@ == forward_slashes(cs@.take(i as int)),
        decreases cs@.len() - i,
    {
        if cs[i] == '\\' {
            s.push('/');
        } else {
            s.push(cs[i]);
        }
        i += 1;
        assert(s@ =~= forward_slashes(cs@.take(i as int)));
    }
    assert(cs@.take(i as int) =~= cs@);
    let keep = (s.len() >= 2 && s[0] == '.' && s[1] == '/') || (s.len() >= 1 && s[0] == '/');
    let body = string_of(s.as_slice());
    if keep {
        body
    } else {
        let mut out = String::new();
        push_char(&mut out, '.');
        push_char(&mut out, '/');
        push_str(&mut out, body.as_str());
        out
    }
}

/// A path for messages: its own text.
pub fn display_path(p: &str) -> (res: String)
    ensures
        res@ == p@,
{
    p.to_owned()
}

} // verus!
