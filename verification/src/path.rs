//! Path normalisation: any path, absolute or relative and with either
//! separator, becomes a `/`-separated path relative to a root.

use crate::error::{StatusError, StatusErrorView};
use crate::text::{chars_equal, chars_of, clone_chars, push_chars};
use vstd::prelude::*;

verus! {

/// Both `/` and `\` separate segments.
pub open spec fn is_separator(c: char) -> bool {
    c == '/' || c == '\\'
}

/// The pieces of `s` between separators, empty pieces included. A string
/// without separators is its own single piece.
pub open spec fn split_segments(s: Seq<char>) -> Seq<Seq<char>>
    decreases s.len(),
{
    if s.len() == 0 {
        seq![Seq::<char>::empty()]
    } else {
        let before = split_segments(s.drop_last());
        if is_separator(s.last()) {
            before.push(Seq::<char>::empty())
        } else {
            before.drop_last().push(before.last().push(s.last()))
        }
    }
}

/// An empty segment or `.`: it names the directory it stands in.
pub open spec fn is_current_dir(seg: Seq<char>) -> bool {
    seg.len() == 0 || (seg.len() == 1 && seg[0] == '.')
}

/// The segment `..`.
pub open spec fn is_parent_dir(seg: Seq<char>) -> bool {
    seg.len() == 2 && seg[0] == '.' && seg[1] == '.'
}

/// One step of resolution: `.` and empty segments vanish, `..` removes the
/// segment before it, and fails where there is none.
pub open spec fn resolve_step(stack: Option<Seq<Seq<char>>>, seg: Seq<char>) -> Option<
    Seq<Seq<char>>,
> {
    match stack {
        None => None,
        Some(st) => if is_current_dir(seg) {
            Some(st)
        } else if is_parent_dir(seg) {
            if st.len() == 0 {
                None
            } else {
                Some(st.drop_last())
            }
        } else {
            Some(st.push(seg))
        },
    }
}

/// The segments reached by walking `segs` from `base`, or `None` where a `..`
/// climbs above the start.
pub open spec fn resolve(base: Seq<Seq<char>>, segs: Seq<Seq<char>>) -> Option<Seq<Seq<char>>>
    decreases segs.len(),
{
    if segs.len() == 0 {
        Some(base)
    } else {
        resolve_step(resolve(base, segs.drop_last()), segs.last())
    }
}

/// The segments written with one `/` between neighbours.
pub open spec fn join_segments(segs: Seq<Seq<char>>) -> Seq<char>
    decreases segs.len(),
{
    if segs.len() == 0 {
        Seq::<char>::empty()
    } else if segs.len() == 1 {
        segs[0]
    } else {
        join_segments(segs.drop_last()) + seq!['/'] + segs.last()
    }
}

/// A path that begins with a separator is absolute.
pub open spec fn is_rooted(s: Seq<char>) -> bool {
    s.len() > 0 && is_separator(s[0])
}

/// The segments of `path` below `root`. A relative `path` is taken to start
/// at `root`. `None` where `path` does not lie under `root`: it climbs out of
/// it, it is absolute while `root` is not, or `root` itself cannot be
/// resolved.
pub open spec fn relative_segments(path: Seq<char>, root: Seq<char>) -> Option<Seq<Seq<char>>> {
    match resolve(Seq::empty(), split_segments(root)) {
        None => None,
        Some(rs) => if is_rooted(path) && !is_rooted(root) {
            None
        } else {
            let base = if is_rooted(path) {
                Seq::empty()
            } else {
                rs
            };
            match resolve(base, split_segments(path)) {
                None => None,
                Some(ps) => if rs.is_prefix_of(ps) {
                    Some(ps.skip(rs.len() as int))
                } else {
                    None
                },
            }
        },
    }
}

/// The normal form of `path` relative to `root`, where it has one.
pub open spec fn normalized(path: Seq<char>, root: Seq<char>) -> Option<Seq<char>> {
    match relative_segments(path, root) {
        None => None,
        Some(rel) => Some(join_segments(rel)),
    }
}

/// No character of `seg` is a separator.
pub open spec fn separator_free(seg: Seq<char>) -> bool {
    forall|j: int| 0 <= j < seg.len() ==> !is_separator(#[trigger] seg[j])
}

/// A segment that names an entry: not empty, not `.`, not `..`, and without
/// separators.
pub open spec fn is_plain(seg: Seq<char>) -> bool {
    separator_free(seg) && !is_current_dir(seg) && !is_parent_dir(seg)
}

/// Every segment is plain.
pub open spec fn all_plain(segs: Seq<Seq<char>>) -> bool {
    forall|i: int| 0 <= i < segs.len() ==> is_plain(#[trigger] segs[i])
}

/// Every segment is free of separators.
pub open spec fn all_separator_free(segs: Seq<Seq<char>>) -> bool {
    forall|i: int| 0 <= i < segs.len() ==> separator_free(#[trigger] segs[i])
}

/// Splitting yields at least one piece, and no piece holds a separator.
pub proof fn lemma_split_separator_free(s: Seq<char>)
    ensures
        split_segments(s).len() >= 1,
        all_separator_free(split_segments(s)),
    decreases s.len(),
{
    if s.len() > 0 {
        lemma_split_separator_free(s.drop_last());
    }
}

/// A string without separators is its own single piece.
pub proof fn lemma_split_single(t: Seq<char>)
    requires
        separator_free(t),
    ensures
        split_segments(t) == seq![t],
    decreases t.len(),
{
    if t.len() == 0 {
        assert(t =~= Seq::<char>::empty());
    } else {
        lemma_split_single(t.drop_last());
        assert(!is_separator(t[t.len() - 1]));
        assert(t.drop_last().push(t.last()) =~= t);
        assert(seq![t.drop_last()].drop_last().push(t.drop_last().push(t.last())) =~= seq![t]);
    }
}

/// A separator followed by a separator-free string adds that string as one
/// more piece.
pub proof fn lemma_split_append(a: Seq<char>, t: Seq<char>)
    requires
        separator_free(t),
    ensures
        split_segments(a + seq!['/'] + t) == split_segments(a).push(t),
    decreases t.len(),
{
    let whole = a + seq!['/'] + t;
    if t.len() == 0 {
        assert(whole.drop_last() =~= a);
        assert(whole.last() == '/');
        assert(t =~= Seq::<char>::empty());
    } else {
        let shorter = t.drop_last();
        lemma_split_append(a, shorter);
        assert(whole.drop_last() =~= a + seq!['/'] + shorter);
        assert(whole.last() == t.last());
        assert(!is_separator(t[t.len() - 1]));
        assert(shorter.push(t.last()) =~= t);
        assert(split_segments(a).push(shorter).drop_last() =~= split_segments(a));
    }
}

/// Splitting the joined form of plain segments gives the segments back.
pub proof fn lemma_split_join(rel: Seq<Seq<char>>)
    requires
        all_plain(rel),
        rel.len() > 0,
    ensures
        split_segments(join_segments(rel)) == rel,
    decreases rel.len(),
{
    if rel.len() == 1 {
        assert(is_plain(rel[0]));
        lemma_split_single(rel[0]);
        assert(rel =~= seq![rel[0]]);
    } else {
        let init = rel.drop_last();
        assert forall|i: int| 0 <= i < init.len() implies is_plain(#[trigger] init[i]) by {
            assert(init[i] == rel[i]);
        }
        lemma_split_join(init);
        assert(is_plain(rel[rel.len() - 1]));
        lemma_split_append(join_segments(init), rel.last());
        assert(init.push(rel.last()) =~= rel);
    }
}

/// The joined form of segments that begin with a non-empty one starts with
/// that segment's first character.
pub proof fn lemma_join_first(rel: Seq<Seq<char>>)
    requires
        rel.len() > 0,
        rel[0].len() > 0,
    ensures
        join_segments(rel).len() > 0,
        join_segments(rel)[0] == rel[0][0],
    decreases rel.len(),
{
    if rel.len() > 1 {
        assert(rel.drop_last()[0] == rel[0]);
        lemma_join_first(rel.drop_last());
    }
}

/// Walking plain segments only appends them.
pub proof fn lemma_resolve_plain(base: Seq<Seq<char>>, segs: Seq<Seq<char>>)
    requires
        all_plain(segs),
    ensures
        resolve(base, segs) == Some(base + segs),
    decreases segs.len(),
{
    if segs.len() == 0 {
        assert(base + segs =~= base);
    } else {
        let init = segs.drop_last();
        assert forall|i: int| 0 <= i < init.len() implies is_plain(#[trigger] init[i]) by {
            assert(init[i] == segs[i]);
        }
        lemma_resolve_plain(base, init);
        assert(is_plain(segs[segs.len() - 1]));
        assert((base + init).push(segs.last()) =~= base + segs);
    }
}

/// Walking separator-free segments from plain ones ends on plain ones.
pub proof fn lemma_resolve_keeps_plain(base: Seq<Seq<char>>, segs: Seq<Seq<char>>)
    requires
        all_plain(base),
        all_separator_free(segs),
    ensures
        resolve(base, segs) matches Some(out) ==> all_plain(out),
    decreases segs.len(),
{
    if segs.len() > 0 {
        let init = segs.drop_last();
        assert forall|i: int| 0 <= i < init.len() implies separator_free(#[trigger] init[i]) by {
            assert(init[i] == segs[i]);
        }
        lemma_resolve_keeps_plain(base, init);
        assert(separator_free(segs[segs.len() - 1]));
    }
}

/// A normal form holds only plain segments: none is empty, `.` or `..`, and
/// none holds a separator.
pub proof fn lemma_relative_segments_plain(path: Seq<char>, root: Seq<char>)
    requires
        relative_segments(path, root) is Some,
    ensures
        all_plain(relative_segments(path, root)->0),
{
    let rs = resolve(Seq::empty(), split_segments(root))->0;
    lemma_split_separator_free(root);
    lemma_resolve_keeps_plain(Seq::empty(), split_segments(root));
    let base = if is_rooted(path) {
        Seq::empty()
    } else {
        rs
    };
    lemma_split_separator_free(path);
    lemma_resolve_keeps_plain(base, split_segments(path));
    let ps = resolve(base, split_segments(path))->0;
    let rel = ps.skip(rs.len() as int);
    assert forall|i: int| 0 <= i < rel.len() implies is_plain(#[trigger] rel[i]) by {
        assert(rel[i] == ps[i + rs.len()]);
    }
}

/// Normalising is idempotent: the normal form of a path under `root` is its
/// own normal form.
pub proof fn lemma_normalize_idempotent(path: Seq<char>, root: Seq<char>)
    requires
        normalized(path, root) is Some,
    ensures
        normalized(normalized(path, root)->0, root) == normalized(path, root),
{
    let rs = resolve(Seq::empty(), split_segments(root))->0;
    let rel = relative_segments(path, root)->0;
    let q = join_segments(rel);
    lemma_relative_segments_plain(path, root);
    if rel.len() == 0 {
        let one = split_segments(q);
        assert(one =~= seq![Seq::<char>::empty()]);
        assert(one.drop_last() =~= Seq::<Seq<char>>::empty());
        assert(resolve(rs, one.drop_last()) == Some(rs));
        assert(is_current_dir(one.last()));
        assert(resolve(rs, one) == Some(rs));
        assert(rs.skip(rs.len() as int) =~= rel);
    } else {
        assert(is_plain(rel[0]));
        lemma_join_first(rel);
        lemma_split_join(rel);
        lemma_resolve_plain(rs, rel);
        assert((rs + rel).subrange(0, rs.len() as int) =~= rs);
        assert((rs + rel).skip(rs.len() as int) =~= rel);
    }
}

/// Two paths are alike where they differ at most in which separator stands
/// in a place.
pub open spec fn same_but_separators(p: Seq<char>, q: Seq<char>) -> bool {
    p.len() == q.len() && forall|i: int|
        0 <= i < p.len() ==> #[trigger] p[i] == q[i] || (is_separator(p[i]) && is_separator(q[i]))
}

/// Paths that differ only in their separators split into the same pieces.
pub proof fn lemma_split_ignores_separator_kind(p: Seq<char>, q: Seq<char>)
    requires
        same_but_separators(p, q),
    ensures
        split_segments(p) == split_segments(q),
    decreases p.len(),
{
    if p.len() > 0 {
        assert(p[p.len() - 1] == q[q.len() - 1] || (is_separator(p[p.len() - 1]) && is_separator(
            q[q.len() - 1],
        )));
        assert forall|i: int| 0 <= i < p.drop_last().len() implies #[trigger] p.drop_last()[i]
            == q.drop_last()[i] || (is_separator(p.drop_last()[i]) && is_separator(
            q.drop_last()[i],
        )) by {
            assert(p[i] == q[i] || (is_separator(p[i]) && is_separator(q[i])));
        }
        lemma_split_ignores_separator_kind(p.drop_last(), q.drop_last());
    }
}

/// Which separator a path is written with never matters: paths that differ
/// only in their separators have the same normal form, and so have roots.
pub proof fn lemma_separator_kind_is_immaterial(
    p: Seq<char>,
    q: Seq<char>,
    root: Seq<char>,
    other_root: Seq<char>,
)
    requires
        same_but_separators(p, q),
        same_but_separators(root, other_root),
    ensures
        normalized(p, root) == normalized(q, other_root),
{
    lemma_split_ignores_separator_kind(p, q);
    lemma_split_ignores_separator_kind(root, other_root);
    if p.len() > 0 {
        assert(p[0] == q[0] || (is_separator(p[0]) && is_separator(q[0])));
    }
    if root.len() > 0 {
        assert(root[0] == other_root[0] || (is_separator(root[0]) && is_separator(other_root[0])));
    }
}

/// The views of a vector of segments.
pub open spec fn seg_views(v: Seq<Vec<char>>) -> Seq<Seq<char>> {
    Seq::new(v.len(), |i: int| v[i]@)
}

/// Splits `s` at its separators.
pub fn split_path(s: &str) -> (segs: Vec<Vec<char>>)
    ensures
        seg_views(segs@) == split_segments(s@),
{
    let mut done: Vec<Vec<char>> = Vec::new();
    let mut cur: Vec<char> = Vec::new();
    let it = s.chars();
    for c in iter: it
        invariant
            iter.seq() == s@,
            split_segments(s@.take(iter.index() as int)) == seg_views(done@).push(cur@),
    {
        proof {
            let i = iter.index() as int;
            assert(s@.take(i + 1).drop_last() =~= s@.take(i));
            assert(s@.take(i + 1).last() == c);
        }
        let ghost before = seg_views(done@).push(cur@);
        if c == '/' || c == '\\' {
            done.push(cur);
            cur = Vec::new();
            assert(seg_views(done@).push(cur@) =~= before.push(Seq::<char>::empty()));
        } else {
            cur.push(c);
            assert(seg_views(done@).push(cur@) =~= before.drop_last().push(before.last().push(c)));
        }
    }
    proof {
        assert(s@.take(s@.len() as int) =~= s@);
    }
    let ghost before = seg_views(done@);
    done.push(cur);
    assert(seg_views(done@) =~= before.push(cur@));
    done
}

/// Once a prefix of the segments fails to resolve, the whole fails.
pub proof fn lemma_resolve_failure_lasts(base: Seq<Seq<char>>, segs: Seq<Seq<char>>, k: int)
    requires
        0 <= k <= segs.len(),
        resolve(base, segs.take(k)) is None,
    ensures
        resolve(base, segs) is None,
    decreases segs.len() - k,
{
    if k == segs.len() {
        assert(segs.take(k) =~= segs);
    } else {
        assert(segs.take(k + 1).drop_last() =~= segs.take(k));
        lemma_resolve_failure_lasts(base, segs, k + 1);
    }
}

/// Walks `segs` from `base`.
pub fn resolve_segments(base: Vec<Vec<char>>, segs: &Vec<Vec<char>>) -> (r: Option<Vec<Vec<char>>>)
    ensures
        match r {
            Some(out) => resolve(seg_views(base@), seg_views(segs@)) == Some(seg_views(out@)),
            None => resolve(seg_views(base@), seg_views(segs@)) is None,
        },
{
    let ghost start = seg_views(base@);
    let ghost all = seg_views(segs@);
    let mut stack = base;
    let mut i: usize = 0;
    assert(all.take(0) =~= Seq::<Seq<char>>::empty());
    while i < segs.len()
        invariant
            i <= segs.len(),
            start == seg_views(base@),
            all == seg_views(segs@),
            resolve(start, all.take(i as int)) == Some(seg_views(stack@)),
        decreases segs.len() - i,
    {
        let seg = &segs[i];
        let ghost before = seg_views(stack@);
        proof {
            assert(all.take(i + 1).drop_last() =~= all.take(i as int));
            assert(all.take(i + 1).last() == seg@);
        }
        if seg.len() == 0 || (seg.len() == 1 && seg[0] == '.') {
        } else if seg.len() == 2 && seg[0] == '.' && seg[1] == '.' {
            if stack.len() == 0 {
                proof {
                    assert(before.len() == 0);
                    assert(is_parent_dir(seg@));
                    assert(resolve(start, all.take(i + 1)) == resolve_step(
                        resolve(start, all.take(i + 1).drop_last()),
                        all.take(i + 1).last(),
                    ));
                    lemma_resolve_failure_lasts(start, all, i + 1);
                }
                return None;
            }
            stack.pop();
            assert(seg_views(stack@) =~= before.drop_last());
        } else {
            let copy = clone_chars(seg);
            stack.push(copy);
            assert(seg_views(stack@) =~= before.push(seg@));
        }
        i += 1;
    }
    proof {
        assert(all.take(i as int) =~= all);
    }
    Some(stack)
}

fn is_prefix(rs: &Vec<Vec<char>>, ps: &Vec<Vec<char>>) -> (r: bool)
    ensures
        r == seg_views(rs@).is_prefix_of(seg_views(ps@)),
{
    if rs.len() > ps.len() {
        return false;
    }
    let ghost a = seg_views(rs@);
    let ghost b = seg_views(ps@);
    let mut i: usize = 0;
    while i < rs.len()
        invariant
            i <= rs.len() <= ps.len(),
            a == seg_views(rs@),
            b == seg_views(ps@),
            forall|k: int| 0 <= k < i ==> a[k] == b[k],
        decreases rs.len() - i,
    {
        if !chars_equal(&rs[i], &ps[i]) {
            assert(a[i as int] != b.subrange(0, a.len() as int)[i as int]);
            return false;
        }
        i += 1;
    }
    assert(a =~= b.subrange(0, a.len() as int));
    true
}

/// Joining after one more segment.
pub proof fn lemma_join_push(segs: Seq<Seq<char>>, last: Seq<char>)
    ensures
        join_segments(segs.push(last)) == if segs.len() == 0 {
            last
        } else {
            join_segments(segs) + seq!['/'] + last
        },
{
    assert(segs.push(last).drop_last() =~= segs);
}

fn join_from(ps: &Vec<Vec<char>>, start: usize) -> (out: String)
    requires
        start <= ps.len(),
    ensures
        out@ == join_segments(seg_views(ps@).skip(start as int)),
{
    let ghost rel = seg_views(ps@).skip(start as int);
    let mut out = String::new();
    let mut k: usize = start;
    assert(rel.take(0) =~= Seq::<Seq<char>>::empty());
    while k < ps.len()
        invariant
            start <= k <= ps.len(),
            rel == seg_views(ps@).skip(start as int),
            out@ == join_segments(rel.take(k - start)),
        decreases ps.len() - k,
    {
        proof {
            assert(rel.take(k - start + 1) =~= rel.take(k - start).push(ps@[k as int]@));
            lemma_join_push(rel.take(k - start), ps@[k as int]@);
        }
        if k > start {
            out.push('/');
        }
        push_chars(&mut out, &ps[k]);
        assert(out@ =~= join_segments(rel.take(k - start + 1)));
        k += 1;
    }
    assert(rel.take(k - start) =~= rel);
    out
}

/// The segments of `path` below `root`: each names an entry, none is `.`,
/// `..` or empty. A relative `path` is taken to start at `root`. Fails with
/// `PathOutsideRoot` exactly when `path` does not lie under `root`.
pub fn relative_parts(path: &str, root: &str) -> (r: Result<Vec<Vec<char>>, StatusError>)
    ensures
        match r {
            Ok(parts) => relative_segments(path@, root@) == Some(seg_views(parts@)),
            Err(e) => relative_segments(path@, root@) is None && e@ == (
            StatusErrorView::PathOutsideRoot { path: path@, root: root@ }),
        },
{
    let root_chars = chars_of(root);
    let path_chars = chars_of(path);
    let path_rooted = path_chars.len() > 0 && (path_chars[0] == '/' || path_chars[0] == '\\');
    let root_rooted = root_chars.len() > 0 && (root_chars[0] == '/' || root_chars[0] == '\\');
    let root_parts = split_path(root);
    let path_parts = split_path(path);
    let empty: Vec<Vec<char>> = Vec::new();
    assert(seg_views(empty@) =~= Seq::<Seq<char>>::empty());
    let resolved = match resolve_segments(empty, &root_parts) {
        None => None,
        Some(rs) => {
            if path_rooted && !root_rooted {
                None
            } else {
                let base = if path_rooted {
                    let fresh: Vec<Vec<char>> = Vec::new();
                    assert(seg_views(fresh@) =~= Seq::<Seq<char>>::empty());
                    fresh
                } else {
                    clone_segments(&rs)
                };
                match resolve_segments(base, &path_parts) {
                    None => None,
                    Some(ps) => {
                        if is_prefix(&rs, &ps) {
                            Some(segments_from(&ps, rs.len()))
                        } else {
                            None
                        }
                    },
                }
            }
        },
    };
    match resolved {
        Some(parts) => Ok(parts),
        None => Err(
            StatusError::PathOutsideRoot { path: path.to_owned(), root: root.to_owned() },
        ),
    }
}

/// The path `path` relative to `root`, with `/` between segments and without
/// `.`, `..` or empty segments. A relative `path` is taken to start at
/// `root`. Fails with `PathOutsideRoot` exactly when `path` does not lie
/// under `root`.
pub fn normalize(path: &str, root: &str) -> (r: Result<String, StatusError>)
    ensures
        match r {
            Ok(s) => normalized(path@, root@) == Some(s@),
            Err(e) => normalized(path@, root@) is None && e@ == (StatusErrorView::PathOutsideRoot {
                path: path@,
                root: root@,
            }),
        },
{
    match relative_parts(path, root) {
        Ok(parts) => Ok(join_path(&parts)),
        Err(e) => Err(e),
    }
}

/// The segments written with one `/` between neighbours.
pub fn join_path(parts: &Vec<Vec<char>>) -> (out: String)
    ensures
        out@ == join_segments(seg_views(parts@)),
{
    assert(seg_views(parts@).skip(0) =~= seg_views(parts@));
    join_from(parts, 0)
}

fn segments_from(v: &Vec<Vec<char>>, start: usize) -> (out: Vec<Vec<char>>)
    requires
        start <= v.len(),
    ensures
        seg_views(out@) == seg_views(v@).skip(start as int),
{
    let mut out: Vec<Vec<char>> = Vec::new();
    let mut i: usize = start;
    while i < v.len()
        invariant
            start <= i <= v.len(),
            out.len() == i - start,
            forall|k: int| 0 <= k < i - start ==> out@[k]@ == v@[k + start]@,
        decreases v.len() - i,
    {
        out.push(clone_chars(&v[i]));
        i += 1;
    }
    assert(seg_views(out@) =~= seg_views(v@).skip(start as int));
    out
}

fn clone_segments(v: &Vec<Vec<char>>) -> (out: Vec<Vec<char>>)
    ensures
        seg_views(out@) == seg_views(v@),
{
    let mut out: Vec<Vec<char>> = Vec::new();
    let mut i: usize = 0;
    while i < v.len()
        invariant
            i <= v.len(),
            out.len() == i,
            forall|k: int| 0 <= k < i ==> out@[k]@ == v@[k]@,
        decreases v.len() - i,
    {
        out.push(clone_chars(&v[i]));
        i += 1;
    }
    assert(seg_views(out@) =~= seg_views(v@));
    out
}

} // verus!
