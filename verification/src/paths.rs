//! The path containment engine. A caller-supplied path string is rendered
//! into a path provably inside the sandbox root, or rejected; the inverse
//! maps a contained path back to sandbox-relative form.
//!
//! Paths are modelled as sequences of segments below an implicit
//! filesystem root, written with `/` separators. No symlink resolution is
//! performed: containment is decided on the path text alone, a deliberate
//! determinism trade-off.

use vstd::prelude::*;
use vstd::string::StrSliceExecFns;
use vstd::string::StringExecFns;

use crate::errors::GatewayError;

verus! {

/// A chunk produced by splitting on `/`: non-empty, separator-free, and
/// not the current-directory name.
pub open spec fn chunk_wf(c: Seq<char>) -> bool {
    &&& c.len() > 0
    &&& c != seq!['.']
    &&& forall|i: int| 0 <= i < c.len() ==> c[i] != '/'
}

/// A segment that may stand in a resolved path: a chunk that is not the
/// parent-directory name.
pub open spec fn seg_wf(c: Seq<char>) -> bool {
    chunk_wf(c) && c != seq!['.', '.']
}

/// Closing one accumulated chunk: empty and current-directory chunks are
/// dropped, every other chunk is kept.
pub open spec fn close_chunk(cur: Seq<char>) -> Seq<Seq<char>> {
    if cur.len() == 0 || cur == seq!['.'] {
        Seq::empty()
    } else {
        seq![cur]
    }
}

/// Splits the remaining characters on `/`, with `cur` the chunk read so
/// far.
pub open spec fn parts_acc(s: Seq<char>, cur: Seq<char>) -> Seq<Seq<char>>
    decreases s.len(),
{
    if s.len() == 0 {
        close_chunk(cur)
    } else if s[0] == '/' {
        close_chunk(cur) + parts_acc(s.skip(1), Seq::empty())
    } else {
        parts_acc(s.skip(1), cur.push(s[0]))
    }
}

/// The components of a path string: the chunks between separators, with
/// empty and current-directory chunks dropped.
pub open spec fn parts_spec(s: Seq<char>) -> Seq<Seq<char>> {
    parts_acc(s, Seq::empty())
}

/// Whether a path string is absolute: it starts with a separator.
pub open spec fn is_absolute(s: Seq<char>) -> bool {
    s.len() > 0 && s[0] == '/'
}

/// Extracts the chunk `s[start..end]` and appends it to `out` unless it
/// is empty or the current-directory name.
fn push_chunk(out: &mut Vec<String>, s: &str, start: usize, end: usize)
    requires
        start <= end <= s@.len(),
    ensures
        final(out).deep_view() == old(out).deep_view() + close_chunk(
            s@.subrange(start as int, end as int),
        ),
{
    let ghost cur = s@.subrange(start as int, end as int);
    if end > start {
        let chunk = s.substring_char(start, end);
        if chunk.unicode_len() == 1 && chunk.get_char(0) == '.' {
            proof {
                assert(cur =~= seq!['.']);
                assert(out.deep_view() =~= out.deep_view() + close_chunk(cur));
            }
        } else {
            let owned = String::from_str(chunk);
            let ghost before = out.deep_view();
            out.push(owned);
            proof {
                assert(cur != seq!['.']) by {
                    if cur == seq!['.'] {
                        assert(chunk@.len() == 1 && chunk@[0] == '.');
                    }
                }
                assert(close_chunk(cur) == seq![cur]);
                assert(out.deep_view() =~= before + seq![cur]);
            }
        }
    } else {
        proof {
            assert(cur.len() == 0);
            assert(out.deep_view() =~= out.deep_view() + close_chunk(cur));
        }
    }
}

/// Splits a path string into its components.
pub fn clean_parts(s: &str) -> (r: Vec<String>)
    ensures
        r.deep_view() == parts_spec(s@),
{
    let len = s.unicode_len();
    let mut out: Vec<String> = Vec::new();
    let mut start: usize = 0;
    let mut i: usize = 0;
    proof {
        assert(s@.skip(0) =~= s@);
        assert(s@.subrange(0, 0) =~= Seq::<char>::empty());
        assert(out.deep_view() + parts_acc(s@, Seq::empty()) =~= parts_acc(s@, Seq::empty()));
    }
    while i < len
        invariant
            len == s@.len(),
            start <= i <= len,
            out.deep_view() + parts_acc(s@.skip(i as int), s@.subrange(start as int, i as int))
                == parts_spec(s@),
        decreases len - i,
    {
        let ghost cur = s@.subrange(start as int, i as int);
        proof {
            assert(s@.skip(i as int)[0] == s@[i as int]);
            assert(s@.skip(i as int).skip(1) =~= s@.skip(i + 1));
        }
        let c = s.get_char(i);
        if c == '/' {
            let ghost before = out.deep_view();
            push_chunk(&mut out, s, start, i);
            proof {
                assert(parts_acc(s@.skip(i as int), cur) == close_chunk(cur) + parts_acc(
                    s@.skip(i + 1),
                    Seq::empty(),
                ));
                assert(s@.subrange(i + 1, i + 1) =~= Seq::<char>::empty());
                assert(out.deep_view() + parts_acc(s@.skip(i + 1), Seq::empty()) =~= before
                    + (close_chunk(cur) + parts_acc(s@.skip(i + 1), Seq::empty())));
            }
            start = i + 1;
        } else {
            proof {
                assert(cur.push(c) =~= s@.subrange(start as int, i + 1));
            }
        }
        i = i + 1;
    }
    let ghost cur = s@.subrange(start as int, len as int);
    proof {
        assert(s@.skip(len as int) =~= Seq::<char>::empty());
        assert(parts_acc(s@.skip(len as int), cur) == close_chunk(cur));
    }
    let ghost before = out.deep_view();
    push_chunk(&mut out, s, start, len);
    proof {
        assert(out.deep_view() =~= before + close_chunk(cur));
    }
    out
}

/// The parent-directory component.
pub open spec fn parent_chunk() -> Seq<char> {
    seq!['.', '.']
}

/// The containment walk over components, with `acc` the segments appended
/// below the sandbox root so far. Named components are appended;
/// parent-directory components pop the last appended segment, and are
/// rejected (`None`) when nothing of the caller's path is left to pop —
/// the invariant that prevents escape above the root.
pub open spec fn norm_rel(parts: Seq<Seq<char>>, acc: Seq<Seq<char>>) -> Option<Seq<Seq<char>>>
    decreases parts.len(),
{
    if parts.len() == 0 {
        Some(acc)
    } else if parts[0] == parent_chunk() {
        if acc.len() == 0 {
            None
        } else {
            norm_rel(parts.skip(1), acc.drop_last())
        }
    } else {
        norm_rel(parts.skip(1), acc.push(parts[0]))
    }
}

/// The contained form of a caller path under a root, or `None` when the
/// path escapes the root. An absolute path must carry the root as a
/// literal component prefix; the remainder is then walked as a relative
/// path.
pub open spec fn contain_spec(root: Seq<Seq<char>>, s: Seq<char>) -> Option<Seq<Seq<char>>> {
    let ps = parts_spec(s);
    if is_absolute(s) {
        if root.len() <= ps.len() && ps.take(root.len() as int) == root {
            match norm_rel(ps.skip(root.len() as int), Seq::empty()) {
                Some(rel) => Some(root + rel),
                None => None,
            }
        } else {
            None
        }
    } else {
        match norm_rel(ps, Seq::empty()) {
            Some(rel) => Some(root + rel),
            None => None,
        }
    }
}

/// Every segment of a resolved path is well formed.
pub open spec fn path_wf(segs: Seq<Seq<char>>) -> bool {
    forall|i: int| 0 <= i < segs.len() ==> seg_wf(#[trigger] segs[i])
}

/// The sandbox-relative rendering of appended segments, joined with `/`;
/// an empty remainder renders as the current directory.
pub open spec fn join_segs(segs: Seq<Seq<char>>) -> Seq<char>
    decreases segs.len(),
{
    if segs.len() == 0 {
        Seq::empty()
    } else if segs.len() == 1 {
        segs[0]
    } else {
        join_segs(segs.drop_last()) + seq!['/'] + segs.last()
    }
}

/// The sandbox-relative form of a remainder: `.` when empty.
pub open spec fn rel_render(segs: Seq<Seq<char>>) -> Seq<char> {
    if segs.len() == 0 {
        seq!['.']
    } else {
        join_segs(segs)
    }
}

/// The absolute rendering of a path: a leading separator, then the
/// segments joined with `/`.
pub open spec fn abs_render(segs: Seq<Seq<char>>) -> Seq<char> {
    seq!['/'] + join_segs(segs)
}

/// An absolute path below the filesystem root, held as its segments.
pub struct AbsPath {
    segments: Vec<String>,
}

impl View for AbsPath {
    type V = Seq<Seq<char>>;

    closed spec fn view(&self) -> Seq<Seq<char>> {
        self.segments.deep_view()
    }
}

/// Copies a segment vector, preserving its contents.
fn clone_segments(v: &Vec<String>) -> (r: Vec<String>)
    ensures
        r.deep_view() == v.deep_view(),
{
    let mut out: Vec<String> = Vec::new();
    let n = v.len();
    let mut i: usize = 0;
    while i < n
        invariant
            n == v@.len(),
            i <= n,
            out.deep_view() =~= v.deep_view().take(i as int),
        decreases n - i,
    {
        let ghost before = out.deep_view();
        out.push(v[i].clone());
        proof {
            assert(out.deep_view() =~= before.push(v.deep_view()[i as int]));
            assert(out.deep_view() =~= v.deep_view().take(i + 1));
        }
        i = i + 1;
    }
    proof {
        assert(v.deep_view().take(n as int) =~= v.deep_view());
    }
    out
}

impl Clone for AbsPath {
    /// Copies the path, preserving its segments.
    fn clone(&self) -> (r: Self)
        ensures
            r@ == self@,
    {
        AbsPath { segments: clone_segments(&self.segments) }
    }
}

/// Whether a segment is the parent-directory component.
fn is_parent(seg: &String) -> (r: bool)
    ensures
        r == (seg@ == parent_chunk()),
{
    if seg.as_str().unicode_len() == 2 {
        let c0 = seg.as_str().get_char(0);
        let c1 = seg.as_str().get_char(1);
        if c0 == '.' && c1 == '.' {
            proof {
                assert(seg@ =~= parent_chunk());
            }
            true
        } else {
            false
        }
    } else {
        false
    }
}

impl AbsPath {
    /// All segments of the path are well formed.
    pub open spec fn wf(&self) -> bool {
        path_wf(self.view())
    }

    /// Renders the path in absolute form with `/` separators.
    pub fn render(&self) -> (r: String)
        ensures
            r@ == abs_render(self@),
    {
        let n = self.segments.len();
        let mut out = String::from_str("/");
        proof {
            reveal_strlit("/");
            assert(out@ =~= seq!['/']);
        }
        let mut k: usize = 0;
        while k < n
            invariant
                n == self@.len(),
                k <= n,
                k == 0 ==> out@ == seq!['/'],
                k > 0 ==> out@ == seq!['/'] + join_segs(self@.take(k as int)),
            decreases n - k,
        {
            if k > 0 {
                out.append("/");
                proof {
                    reveal_strlit("/");
                }
            }
            out.append(self.segments[k].as_str());
            proof {
                assert(self.segments[k as int]@ == self@[k as int]);
                assert(self@.take(k + 1).drop_last() =~= self@.take(k as int));
                assert(self@.take(k + 1).last() == self@[k as int]);
                if k == 0 {
                    assert(self@.take(1) =~= seq![self@[0]]);
                    assert(join_segs(self@.take(1)) == self@[0]);
                }
            }
            k = k + 1;
        }
        proof {
            assert(self@.take(n as int) =~= self@);
            if n == 0 {
                assert(join_segs(self@) == Seq::<char>::empty());
                assert(seq!['/'] + join_segs(self@) =~= seq!['/']);
            }
        }
        out
    }
}

/// Walks the components of `parts` from index `from`, appending below
/// `root`, and rejects any walk that would pop above the root.
fn walk_parts(root: &AbsPath, parts: &Vec<String>, from: usize) -> (r: Result<
    AbsPath,
    GatewayError,
>)
    requires
        root.wf(),
        from <= parts@.len(),
        forall|k: int| from <= k < parts@.len() ==> chunk_wf(#[trigger] parts.deep_view()[k]),
    ensures
        match r {
            Ok(p) => {
                &&& norm_rel(parts.deep_view().skip(from as int), Seq::empty()) is Some
                &&& p@ == root@ + norm_rel(
                    parts.deep_view().skip(from as int),
                    Seq::empty(),
                )->Some_0
                &&& p.wf()
            },
            Err(e) => norm_rel(parts.deep_view().skip(from as int), Seq::empty()) is None
                && e is OutOfOrbit,
        },
{
    let ghost whole = parts.deep_view();
    let root_len = root.segments.len();
    let mut acc = clone_segments(&root.segments);
    let n = parts.len();
    let mut j: usize = from;
    proof {
        assert(acc.deep_view().skip(root_len as int) =~= Seq::<Seq<char>>::empty());
        assert(acc.deep_view().take(root_len as int) =~= root@);
    }
    while j < n
        invariant
            root.wf(),
            n == whole.len(),
            whole == parts.deep_view(),
            from <= j <= n,
            root_len == root@.len(),
            acc.deep_view().len() >= root_len,
            acc.deep_view().take(root_len as int) == root@,
            forall|k: int| from <= k < n ==> chunk_wf(#[trigger] whole[k]),
            forall|k: int|
                root_len <= k < acc.deep_view().len() ==> seg_wf(#[trigger] acc.deep_view()[k]),
            norm_rel(whole.skip(from as int), Seq::empty()) == norm_rel(
                whole.skip(j as int),
                acc.deep_view().skip(root_len as int),
            ),
        decreases n - j,
    {
        let ghost pre = acc.deep_view();
        let ghost rel = pre.skip(root_len as int);
        proof {
            assert(whole.skip(j as int)[0] == whole[j as int]);
            assert(whole.skip(j as int).skip(1) =~= whole.skip(j + 1));
        }
        if is_parent(&parts[j]) {
            if acc.len() == root_len {
                proof {
                    assert(rel.len() == 0);
                    assert(norm_rel(whole.skip(j as int), rel) is None);
                }
                return Err(GatewayError::OutOfOrbit);
            }
            acc.pop();
            proof {
                assert(rel.len() > 0);
                assert(acc.deep_view() =~= pre.drop_last());
                assert(acc.deep_view().len() >= root_len);
                assert(acc.deep_view().skip(root_len as int) =~= rel.drop_last());
                assert(acc.deep_view().take(root_len as int) =~= root@);
                assert forall|k: int| root_len <= k < acc.deep_view().len() implies seg_wf(
                    #[trigger] acc.deep_view()[k],
                ) by {
                    assert(acc.deep_view()[k] == pre[k]);
                }
                assert(norm_rel(whole.skip(j + 1), acc.deep_view().skip(root_len as int))
                    == norm_rel(whole.skip(j as int), rel));
            }
        } else {
            let seg = parts[j].clone();
            proof {
                assert(seg@ == whole[j as int]);
            }
            acc.push(seg);
            proof {
                assert(acc.deep_view() =~= pre.push(whole[j as int]));
                assert(acc.deep_view().skip(root_len as int) =~= rel.push(whole[j as int]));
                assert(acc.deep_view().take(root_len as int) =~= root@);
                assert(chunk_wf(whole[j as int]) && whole[j as int] != parent_chunk());
                assert forall|k: int| root_len <= k < acc.deep_view().len() implies seg_wf(
                    #[trigger] acc.deep_view()[k],
                ) by {
                    if k < pre.len() {
                        assert(acc.deep_view()[k] == pre[k]);
                    } else {
                        assert(acc.deep_view()[k] == whole[j as int]);
                    }
                }
                assert(norm_rel(whole.skip(j + 1), acc.deep_view().skip(root_len as int))
                    == norm_rel(whole.skip(j as int), rel));
            }
        }
        j = j + 1;
    }
    proof {
        assert(whole.skip(n as int) =~= Seq::<Seq<char>>::empty());
        let rel = acc.deep_view().skip(root_len as int);
        assert(norm_rel(whole.skip(n as int), rel) == Some(rel));
        assert(acc.deep_view() =~= root@ + rel);
    }
    Ok(AbsPath { segments: acc })
}

/// Every component a path string splits into is a well-formed chunk.
proof fn lemma_parts_acc_wf(s: Seq<char>, cur: Seq<char>)
    requires
        forall|i: int| 0 <= i < cur.len() ==> cur[i] != '/',
    ensures
        forall|k: int|
            0 <= k < parts_acc(s, cur).len() ==> chunk_wf(#[trigger] parts_acc(s, cur)[k]),
    decreases s.len(),
{
    if s.len() == 0 {
        assert forall|k: int| 0 <= k < parts_acc(s, cur).len() implies chunk_wf(
            #[trigger] parts_acc(s, cur)[k],
        ) by {
            assert(parts_acc(s, cur)[k] == cur);
        }
    } else if s[0] == '/' {
        lemma_parts_acc_wf(s.skip(1), Seq::empty());
        assert forall|k: int| 0 <= k < parts_acc(s, cur).len() implies chunk_wf(
            #[trigger] parts_acc(s, cur)[k],
        ) by {
            let head = close_chunk(cur);
            if k < head.len() {
                assert(parts_acc(s, cur)[k] == cur);
            } else {
                assert(parts_acc(s, cur)[k] == parts_acc(s.skip(1), Seq::empty())[k - head.len()]);
            }
        }
    } else {
        assert forall|i: int| 0 <= i < cur.push(s[0]).len() implies cur.push(s[0])[i] != '/' by {
            if i < cur.len() {
                assert(cur.push(s[0])[i] == cur[i]);
            } else {
                assert(cur.push(s[0])[i] == s[0]);
            }
        }
        lemma_parts_acc_wf(s.skip(1), cur.push(s[0]));
        assert(parts_acc(s, cur) == parts_acc(s.skip(1), cur.push(s[0])));
    }
}

/// Converts a caller-supplied path into a path inside the sandbox root,
/// or rejects it with `OutOfOrbit`.
///
/// An absolute path must carry the root as a literal prefix; the
/// remainder is walked as a relative path. Current-directory components
/// are no-ops; parent-directory components pop the last appended segment
/// and are rejected when the accumulator stands at the root itself.
pub fn sanitize_relative_path(root: &AbsPath, path: &str) -> (r: Result<AbsPath, GatewayError>)
    requires
        root.wf(),
    ensures
        match r {
            Ok(p) => contain_spec(root@, path@) == Some(p@) && p.wf() && root@.is_prefix_of(p@),
            Err(e) => contain_spec(root@, path@) is None && e is OutOfOrbit,
        },
{
    let parts = clean_parts(path);
    proof {
        lemma_parts_acc_wf(path@, Seq::empty());
    }
    let absolute = path.unicode_len() > 0 && path.get_char(0) == '/';
    let from: usize = if absolute {
        let rl = root.segments.len();
        proof {
            assert(parts.deep_view().len() == parts@.len());
        }
        if parts.len() < rl {
            return Err(GatewayError::OutOfOrbit);
        }
        let mut k: usize = 0;
        while k < rl
            invariant
                rl == root@.len(),
                rl <= parts@.len(),
                k <= rl,
                is_absolute(path@),
                parts.deep_view() == parts_spec(path@),
                parts.deep_view().len() == parts@.len(),
                forall|t: int| 0 <= t < k ==> parts.deep_view()[t] == root@[t],
            decreases rl - k,
        {
            if !(parts[k] == root.segments[k]) {
                proof {
                    assert(parts.deep_view()[k as int] != root@[k as int]);
                    assert(parts_spec(path@).take(rl as int)[k as int] != root@[k as int]);
                }
                return Err(GatewayError::OutOfOrbit);
            }
            proof {
                assert(parts.deep_view()[k as int] == root@[k as int]);
            }
            k = k + 1;
        }
        proof {
            assert(parts_spec(path@).take(rl as int) =~= root@);
        }
        rl
    } else {
        proof {
            assert(parts.deep_view().skip(0) =~= parts.deep_view());
        }
        0
    };
    walk_parts(root, &parts, from)
}

/// Resolves an optional caller path: an absent path maps to the root
/// itself.
pub fn build_path(root: &AbsPath, input: Option<&str>) -> (r: Result<AbsPath, GatewayError>)
    requires
        root.wf(),
    ensures
        match input {
            Some(s) => match r {
                Ok(p) => contain_spec(root@, s@) == Some(p@) && p.wf() && root@.is_prefix_of(
                    p@,
                ),
                Err(e) => contain_spec(root@, s@) is None && e is OutOfOrbit,
            },
            None => r is Ok && r->Ok_0@ == root@ && r->Ok_0.wf(),
        },
{
    match input {
        Some(s) => sanitize_relative_path(root, s),
        None => Ok(root.clone()),
    }
}

/// Maps a contained path back to sandbox-relative form: the root prefix
/// is stripped and the remainder joined with `/`; an empty remainder maps
/// to `.`.
pub fn relative_from_root(root: &AbsPath, target: &AbsPath) -> (r: Result<String, GatewayError>)
    ensures
        match r {
            Ok(s) => root@.is_prefix_of(target@) && s@ == rel_render(
                target@.skip(root@.len() as int),
            ),
            Err(e) => !root@.is_prefix_of(target@) && e is OutOfOrbit,
        },
{
    let rl = root.segments.len();
    let tl = target.segments.len();
    if tl < rl {
        return Err(GatewayError::OutOfOrbit);
    }
    let mut k: usize = 0;
    while k < rl
        invariant
            rl == root@.len(),
            tl == target@.len(),
            rl <= tl,
            k <= rl,
            forall|t: int| 0 <= t < k ==> root@[t] == target@[t],
        decreases rl - k,
    {
        if !(root.segments[k] == target.segments[k]) {
            proof {
                assert(root@[k as int] != target@[k as int]);
                assert(!root@.is_prefix_of(target@));
            }
            return Err(GatewayError::OutOfOrbit);
        }
        proof {
            assert(root@[k as int] == target@[k as int]);
        }
        k = k + 1;
    }
    proof {
        assert(root@.is_prefix_of(target@)) by {
            assert(root@ =~= target@.subrange(0, rl as int));
        }
    }
    let ghost rest = target@.skip(rl as int);
    if tl == rl {
        let dot = String::from_str(".");
        proof {
            reveal_strlit(".");
            assert(rest.len() == 0);
            assert(dot@ =~= seq!['.']);
        }
        return Ok(dot);
    }
    let mut out = String::new();
    let mut k: usize = rl;
    while k < tl
        invariant
            rl == root@.len(),
            tl == target@.len(),
            rl < tl,
            rl <= k <= tl,
            rest == target@.skip(rl as int),
            k == rl ==> out@ == Seq::<char>::empty(),
            k > rl ==> out@ == join_segs(rest.take(k - rl)),
        decreases tl - k,
    {
        if k > rl {
            out.append("/");
            proof {
                reveal_strlit("/");
            }
        }
        out.append(target.segments[k].as_str());
        proof {
            assert(target.segments@[k as int]@ == target@[k as int]);
            assert(rest[k - rl] == target@[k as int]);
            assert(rest.take(k + 1 - rl).drop_last() =~= rest.take(k - rl));
            assert(rest.take(k + 1 - rl).last() == rest[k - rl]);
            if k == rl {
                assert(rest.take(1) =~= seq![rest[0]]);
                assert(join_segs(rest.take(1)) == rest[0]);
                assert(out@ =~= Seq::<char>::empty() + rest[0]);
            }
        }
        k = k + 1;
    }
    proof {
        assert(rest.take(tl - rl) =~= rest);
    }
    Ok(out)
}

/// The fixed path of the sandbox root below the user's home directory.
pub open spec fn safe_orbit_relative() -> Seq<char> {
    "Documentos/CerebroProjects"@
}

/// The sandbox root for a given home directory: the normalized home path
/// extended by the fixed relative path.
pub open spec fn safe_root_spec(home: Seq<char>) -> Option<Seq<Seq<char>>> {
    match norm_rel(parts_spec(home), Seq::empty()) {
        Some(h) => match norm_rel(parts_spec(safe_orbit_relative()), Seq::empty()) {
            Some(o) => Some(h + o),
            None => None,
        },
        None => None,
    }
}

/// Builds the sandbox root from the home directory path.
pub fn safe_root_from_home(home: &str) -> (r: Result<AbsPath, GatewayError>)
    ensures
        match r {
            Ok(p) => safe_root_spec(home@) == Some(p@) && p.wf(),
            Err(e) => safe_root_spec(home@) is None && e is HomeUnresolvable,
        },
{
    let fs_root = AbsPath { segments: Vec::new() };
    proof {
        assert(fs_root@ =~= Seq::<Seq<char>>::empty());
    }
    let parts = clean_parts(home);
    proof {
        lemma_parts_acc_wf(home@, Seq::empty());
        assert(parts.deep_view().skip(0) =~= parts.deep_view());
    }
    let base = match walk_parts(&fs_root, &parts, 0) {
        Ok(p) => p,
        Err(_) => {
            return Err(GatewayError::HomeUnresolvable);
        },
    };
    proof {
        assert(Seq::<Seq<char>>::empty() + norm_rel(parts_spec(home@), Seq::empty())->Some_0
            =~= norm_rel(parts_spec(home@), Seq::empty())->Some_0);
    }
    let orbit = clean_parts("Documentos/CerebroProjects");
    proof {
        lemma_parts_acc_wf(safe_orbit_relative(), Seq::empty());
        assert(orbit.deep_view().skip(0) =~= orbit.deep_view());
    }
    match walk_parts(&base, &orbit, 0) {
        Ok(p) => Ok(p),
        Err(_) => Err(GatewayError::HomeUnresolvable),
    }
}

/// The fixed path of the metrics log directory below the home directory.
pub open spec fn metrics_dir_relative() -> Seq<char> {
    ".cerebro/logs"@
}

/// The metrics log file name.
pub open spec fn metrics_file_name() -> Seq<char> {
    "metrics.jsonl"@
}

/// The metrics log file path for a given home directory.
pub open spec fn metrics_path_spec(home: Seq<char>) -> Option<Seq<Seq<char>>> {
    match norm_rel(parts_spec(home), Seq::empty()) {
        Some(h) => match norm_rel(
            parts_spec(metrics_dir_relative()) + parts_spec(metrics_file_name()),
            Seq::empty(),
        ) {
            Some(o) => Some(h + o),
            None => None,
        },
        None => None,
    }
}

/// Builds the metrics log file path from the home directory path.
pub fn metrics_path_from_home(home: &str) -> (r: Result<AbsPath, GatewayError>)
    ensures
        match r {
            Ok(p) => metrics_path_spec(home@) == Some(p@) && p.wf(),
            Err(e) => metrics_path_spec(home@) is None && e is HomeUnresolvable,
        },
{
    let fs_root = AbsPath { segments: Vec::new() };
    proof {
        assert(fs_root@ =~= Seq::<Seq<char>>::empty());
    }
    let parts = clean_parts(home);
    proof {
        lemma_parts_acc_wf(home@, Seq::empty());
        assert(parts.deep_view().skip(0) =~= parts.deep_view());
    }
    let base = match walk_parts(&fs_root, &parts, 0) {
        Ok(p) => p,
        Err(_) => {
            return Err(GatewayError::HomeUnresolvable);
        },
    };
    proof {
        assert(Seq::<Seq<char>>::empty() + norm_rel(parts_spec(home@), Seq::empty())->Some_0
            =~= norm_rel(parts_spec(home@), Seq::empty())->Some_0);
    }
    let mut rel = clean_parts(".cerebro/logs");
    let mut file_part = clean_parts("metrics.jsonl");
    let ghost dir_parts = rel.deep_view();
    let ghost file_parts = file_part.deep_view();
    rel.append(&mut file_part);
    proof {
        lemma_parts_acc_wf(metrics_dir_relative(), Seq::empty());
        lemma_parts_acc_wf(metrics_file_name(), Seq::empty());
        assert(rel.deep_view() =~= dir_parts + file_parts);
        assert(rel.deep_view().skip(0) =~= rel.deep_view());
        assert forall|k: int| 0 <= k < rel.deep_view().len() implies chunk_wf(
            #[trigger] rel.deep_view()[k],
        ) by {
            if k < dir_parts.len() {
                assert(rel.deep_view()[k] == dir_parts[k]);
            } else {
                assert(rel.deep_view()[k] == file_parts[k - dir_parts.len()]);
            }
        }
    }
    match walk_parts(&base, &rel, 0) {
        Ok(p) => Ok(p),
        Err(_) => Err(GatewayError::HomeUnresolvable),
    }
}

/// A walk without parent-directory components only appends.
proof fn lemma_norm_rel_no_parents(parts: Seq<Seq<char>>, acc: Seq<Seq<char>>)
    requires
        forall|k: int| 0 <= k < parts.len() ==> #[trigger] parts[k] != parent_chunk(),
    ensures
        norm_rel(parts, acc) == Some(acc + parts),
    decreases parts.len(),
{
    if parts.len() == 0 {
        assert(acc + parts =~= acc);
    } else {
        assert(parts.skip(1) =~= parts.subrange(1, parts.len() as int));
        assert forall|k: int| 0 <= k < parts.skip(1).len() implies #[trigger] parts.skip(1)[k]
            != parent_chunk() by {
            assert(parts.skip(1)[k] == parts[k + 1]);
        }
        lemma_norm_rel_no_parents(parts.skip(1), acc.push(parts[0]));
        assert(acc.push(parts[0]) + parts.skip(1) =~= acc + parts);
    }
}

/// Law: a relative path built only from named segments is always
/// contained, and resolves to the root extended by exactly those
/// segments — in particular, to a path under the root.
pub proof fn lemma_normal_relative_contained(root: Seq<Seq<char>>, s: Seq<char>)
    requires
        !is_absolute(s),
        forall|k: int|
            0 <= k < parts_spec(s).len() ==> #[trigger] parts_spec(s)[k] != parent_chunk(),
    ensures
        contain_spec(root, s) == Some(root + parts_spec(s)),
        root.is_prefix_of(contain_spec(root, s)->Some_0),
{
    lemma_norm_rel_no_parents(parts_spec(s), Seq::empty());
    assert(Seq::<Seq<char>>::empty() + parts_spec(s) =~= parts_spec(s));
    assert((root + parts_spec(s)).subrange(0, root.len() as int) =~= root);
}

/// Whether a component walk, started at a given appended depth, would at
/// some point pop past depth zero.
pub open spec fn escapes(parts: Seq<Seq<char>>, depth: int) -> bool
    decreases parts.len(),
{
    if parts.len() == 0 {
        false
    } else if parts[0] == parent_chunk() {
        depth <= 0 || escapes(parts.skip(1), depth - 1)
    } else {
        escapes(parts.skip(1), depth + 1)
    }
}

/// A walk fails exactly when it would cross above its starting depth.
proof fn lemma_norm_rel_escapes(parts: Seq<Seq<char>>, acc: Seq<Seq<char>>)
    ensures
        (norm_rel(parts, acc) is None) == escapes(parts, acc.len() as int),
    decreases parts.len(),
{
    if parts.len() == 0 {
    } else if parts[0] == parent_chunk() {
        if acc.len() > 0 {
            lemma_norm_rel_escapes(parts.skip(1), acc.drop_last());
        }
    } else {
        lemma_norm_rel_escapes(parts.skip(1), acc.push(parts[0]));
    }
}

/// Law: a relative path whose parent references would cross above the
/// root fails with `OutOfOrbit`, and only such a path fails — escape is
/// rejected, never silently clamped.
pub proof fn lemma_escape_rejected(root: Seq<Seq<char>>, s: Seq<char>)
    requires
        !is_absolute(s),
    ensures
        (contain_spec(root, s) is None) == escapes(parts_spec(s), 0),
{
    lemma_norm_rel_escapes(parts_spec(s), Seq::empty());
}

/// The front-recursive reading of `join_segs`.
proof fn lemma_join_front(segs: Seq<Seq<char>>)
    requires
        segs.len() >= 2,
    ensures
        join_segs(segs) == segs[0] + seq!['/'] + join_segs(segs.skip(1)),
    decreases segs.len(),
{
    if segs.len() == 2 {
        assert(segs.drop_last() =~= seq![segs[0]]);
        assert(segs.skip(1) =~= seq![segs[1]]);
        assert(join_segs(segs.drop_last()) == segs[0]);
        assert(join_segs(segs.skip(1)) == segs[1]);
        assert(segs.last() == segs[1]);
        assert(join_segs(segs) == segs[0] + seq!['/'] + join_segs(segs.skip(1)));
    } else {
        lemma_join_front(segs.drop_last());
        assert(segs.drop_last()[0] == segs[0]);
        assert(segs.drop_last().skip(1) =~= segs.skip(1).drop_last());
        assert(segs.skip(1).last() == segs.last());
        assert(segs.skip(1).len() >= 2);
        assert((segs[0] + seq!['/'] + join_segs(segs.skip(1).drop_last())) + seq!['/']
            + segs.last() =~= segs[0] + seq!['/'] + (join_segs(segs.skip(1).drop_last())
            + seq!['/'] + segs.skip(1).last()));
    }
}

/// Reading a separator-free chunk moves it into the accumulator.
proof fn lemma_parts_acc_chunk(chunk: Seq<char>, rest: Seq<char>, cur: Seq<char>)
    requires
        forall|i: int| 0 <= i < chunk.len() ==> chunk[i] != '/',
    ensures
        parts_acc(chunk + rest, cur) == parts_acc(rest, cur + chunk),
    decreases chunk.len(),
{
    if chunk.len() == 0 {
        assert(chunk + rest =~= rest);
        assert(cur + chunk =~= cur);
    } else {
        assert((chunk + rest)[0] == chunk[0]);
        assert((chunk + rest).skip(1) =~= chunk.skip(1) + rest);
        assert forall|i: int| 0 <= i < chunk.skip(1).len() implies chunk.skip(1)[i] != '/' by {
            assert(chunk.skip(1)[i] == chunk[i + 1]);
        }
        lemma_parts_acc_chunk(chunk.skip(1), rest, cur.push(chunk[0]));
        assert(cur.push(chunk[0]) + chunk.skip(1) =~= cur + chunk);
    }
}

/// Parsing the joined form of well-formed segments recovers the
/// segments.
proof fn lemma_parse_join(segs: Seq<Seq<char>>)
    requires
        forall|k: int| 0 <= k < segs.len() ==> seg_wf(#[trigger] segs[k]),
    ensures
        parts_spec(join_segs(segs)) == segs,
    decreases segs.len(),
{
    if segs.len() == 0 {
        assert(parts_spec(join_segs(segs)) =~= segs);
    } else if segs.len() == 1 {
        let seg = segs[0];
        assert(join_segs(segs) == seg);
        lemma_parts_acc_chunk(seg, Seq::empty(), Seq::empty());
        assert(seg + Seq::<char>::empty() =~= seg);
        assert(Seq::<char>::empty() + seg =~= seg);
        assert(parts_acc(Seq::<char>::empty(), seg) == close_chunk(seg));
        assert(close_chunk(seg) =~= segs);
    } else {
        lemma_join_front(segs);
        let head = segs[0];
        let rest = seq!['/'] + join_segs(segs.skip(1));
        assert(join_segs(segs) =~= head + rest);
        lemma_parts_acc_chunk(head, rest, Seq::empty());
        assert(Seq::<char>::empty() + head =~= head);
        assert(rest[0] == '/');
        assert(rest.skip(1) =~= join_segs(segs.skip(1)));
        assert(parts_acc(rest, head) == close_chunk(head) + parts_acc(
            join_segs(segs.skip(1)),
            Seq::empty(),
        ));
        assert forall|k: int| 0 <= k < segs.skip(1).len() implies seg_wf(
            #[trigger] segs.skip(1)[k],
        ) by {
            assert(segs.skip(1)[k] == segs[k + 1]);
        }
        lemma_parse_join(segs.skip(1));
        assert(close_chunk(head) == seq![head]);
        assert(seq![head] + segs.skip(1) =~= segs);
    }
}

/// Segments appended by a walk over well-formed chunks are well formed.
proof fn lemma_norm_rel_wf(parts: Seq<Seq<char>>, acc: Seq<Seq<char>>)
    requires
        forall|k: int| 0 <= k < parts.len() ==> chunk_wf(#[trigger] parts[k]),
        forall|k: int| 0 <= k < acc.len() ==> seg_wf(#[trigger] acc[k]),
        norm_rel(parts, acc) is Some,
    ensures
        forall|k: int|
            0 <= k < norm_rel(parts, acc)->Some_0.len() ==> seg_wf(
                #[trigger] norm_rel(parts, acc)->Some_0[k],
            ),
    decreases parts.len(),
{
    if parts.len() == 0 {
    } else {
        assert forall|k: int| 0 <= k < parts.skip(1).len() implies chunk_wf(
            #[trigger] parts.skip(1)[k],
        ) by {
            assert(parts.skip(1)[k] == parts[k + 1]);
        }
        if parts[0] == parent_chunk() {
            assert forall|k: int| 0 <= k < acc.drop_last().len() implies seg_wf(
                #[trigger] acc.drop_last()[k],
            ) by {
                assert(acc.drop_last()[k] == acc[k]);
            }
            lemma_norm_rel_wf(parts.skip(1), acc.drop_last());
        } else {
            assert forall|k: int| 0 <= k < acc.push(parts[0]).len() implies seg_wf(
                #[trigger] acc.push(parts[0])[k],
            ) by {
                if k < acc.len() {
                    assert(acc.push(parts[0])[k] == acc[k]);
                } else {
                    assert(acc.push(parts[0])[k] == parts[0]);
                }
            }
            lemma_norm_rel_wf(parts.skip(1), acc.push(parts[0]));
        }
    }
}

/// Law: mapping a contained path back to sandbox-relative form and
/// containing that form again yields the same contained path — the
/// round trip is stable for every path the engine accepts.
pub proof fn lemma_relative_round_trip(root: Seq<Seq<char>>, s: Seq<char>)
    requires
        contain_spec(root, s) is Some,
    ensures
        contain_spec(root, rel_render(contain_spec(root, s)->Some_0.skip(root.len() as int)))
            == contain_spec(root, s),
{
    let c = contain_spec(root, s)->Some_0;
    let ps = parts_spec(s);
    lemma_parts_acc_wf(s, Seq::empty());
    let walked = if is_absolute(s) {
        ps.skip(root.len() as int)
    } else {
        ps
    };
    assert forall|k: int| 0 <= k < walked.len() implies chunk_wf(#[trigger] walked[k]) by {
        if is_absolute(s) {
            assert(walked[k] == ps[k + root.len()]);
        }
    }
    let rel0 = norm_rel(walked, Seq::empty())->Some_0;
    lemma_norm_rel_wf(walked, Seq::empty());
    assert(c == root + rel0);
    let rel = c.skip(root.len() as int);
    assert(rel =~= rel0);
    if rel.len() == 0 {
        let dot = seq!['.'];
        assert(!is_absolute(dot));
        assert(parts_acc(dot, Seq::empty()) == parts_acc(dot.skip(1), seq!['.'])) by {
            assert(dot[0] == '.' && dot[0] != '/');
            assert(Seq::<char>::empty().push('.') =~= seq!['.']);
        }
        assert(dot.skip(1) =~= Seq::<char>::empty());
        assert(parts_spec(dot) =~= Seq::<Seq<char>>::empty());
        assert(norm_rel(parts_spec(dot), Seq::empty()) == Some(Seq::<Seq<char>>::empty()));
        assert(root + Seq::<Seq<char>>::empty() =~= root);
        assert(c =~= root);
        assert(rel_render(rel) == dot);
    } else {
        assert(rel_render(rel) == join_segs(rel));
        lemma_parse_join(rel);
        assert(join_segs(rel)[0] == rel[0][0]) by {
            if rel.len() >= 2 {
                lemma_join_front(rel);
            }
        }
        assert(rel[0][0] != '/') by {
            assert(seg_wf(rel0[0]));
        }
        assert(!is_absolute(join_segs(rel)));
        assert forall|k: int| 0 <= k < rel.len() implies #[trigger] rel[k] != parent_chunk() by {
            assert(seg_wf(rel0[k]));
        }
        lemma_norm_rel_no_parents(rel, Seq::<Seq<char>>::empty());
        assert(Seq::<Seq<char>>::empty() + rel =~= rel);
        assert(contain_spec(root, join_segs(rel)) == Some(root + rel));
        assert(root + rel =~= c);
    }
}

} // verus!
