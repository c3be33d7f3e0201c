//! Character-level helpers shared by the path and status modules.

use vstd::prelude::*;
use vstd::std_specs::iter::IteratorSpec;

verus! {

/// `String::push` of the standard library: appending one character extends
/// the string's view by that character.
pub assume_specification[ String::push ](s: &mut String, c: char)
    ensures
        final(s)@ == old(s)@.push(c),
;

/// The characters of `s`, in order.
pub fn chars_of(s: &str) -> (out: Vec<char>)
    ensures
        out@ == s@,
{
    let mut out: Vec<char> = Vec::new();
    let mut it = s.chars();
    for c in iter: it
        invariant
            out@ == iter.seq().take(iter.index() as int),
            iter.seq() == s@,
    {
        out.push(c);
    }
    out
}

/// The string spelled by `v`.
pub fn string_of(v: &Vec<char>) -> (out: String)
    ensures
        out@ == v@,
{
    let mut out = String::new();
    let mut i: usize = 0;
    while i < v.len()
        invariant
            i <= v.len(),
            out@ == v@.take(i as int),
        decreases v.len() - i,
    {
        out.push(v[i]);
        i += 1;
    }
    out
}

/// Appends the characters of `v` to `out`.
pub fn push_chars(out: &mut String, v: &Vec<char>)
    ensures
        final(out)@ == old(out)@ + v@,
{
    let mut i: usize = 0;
    while i < v.len()
        invariant
            i <= v.len(),
            out@ == old(out)@ + v@.take(i as int),
        decreases v.len() - i,
    {
        out.push(v[i]);
        assert(v@.take(i + 1) =~= v@.take(i as int).push(v@[i as int]));
        i += 1;
    }
    assert(v@.take(v.len() as int) =~= v@);
}

/// A copy of `v`.
pub fn clone_chars(v: &Vec<char>) -> (out: Vec<char>)
    ensures
        out@ == v@,
{
    let mut out: Vec<char> = Vec::new();
    let mut i: usize = 0;
    while i < v.len()
        invariant
            i <= v.len(),
            out@ == v@.take(i as int),
        decreases v.len() - i,
    {
        out.push(v[i]);
        i += 1;
    }
    out
}

/// Whether two vectors hold the same characters.
pub fn chars_equal(a: &Vec<char>, b: &Vec<char>) -> (r: bool)
    ensures
        r == (a@ == b@),
{
    if a.len() != b.len() {
        return false;
    }
    let mut i: usize = 0;
    while i < a.len()
        invariant
            i <= a.len(),
            a.len() == b.len(),
            a@.take(i as int) == b@.take(i as int),
        decreases a.len() - i,
    {
        if a[i] != b[i] {
            return false;
        }
        assert(a@.take(i + 1) =~= a@.take(i as int).push(a@[i as int]));
        assert(b@.take(i + 1) =~= b@.take(i as int).push(b@[i as int]));
        i += 1;
    }
    assert(a@ =~= a@.take(a.len() as int));
    assert(b@ =~= b@.take(b.len() as int));
    true
}

/// Strict lexicographic order on character sequences, by code point. A proper
/// prefix precedes every one of its extensions.
pub open spec fn lex_lt(a: Seq<char>, b: Seq<char>) -> bool
    decreases a.len(),
{
    if b.len() == 0 {
        false
    } else if a.len() == 0 {
        true
    } else if a[0] != b[0] {
        a[0] < b[0]
    } else {
        lex_lt(a.drop_first(), b.drop_first())
    }
}

/// Of two sequences exactly one holds: the first precedes, they are equal, or
/// the second precedes.
pub proof fn lemma_lex_trichotomy(a: Seq<char>, b: Seq<char>)
    ensures
        lex_lt(a, b) || a == b || lex_lt(b, a),
        !(lex_lt(a, b) && a == b),
        !(lex_lt(b, a) && a == b),
        !(lex_lt(a, b) && lex_lt(b, a)),
    decreases a.len(),
{
    if a.len() == 0 || b.len() == 0 {
        if a.len() == 0 && b.len() == 0 {
            assert(a =~= b);
        }
    } else if a[0] != b[0] {
    } else {
        lemma_lex_trichotomy(a.drop_first(), b.drop_first());
        if a.drop_first() == b.drop_first() {
            assert(a =~= seq![a[0]] + a.drop_first());
            assert(b =~= seq![b[0]] + b.drop_first());
        }
    }
}

/// The strict order is transitive.
pub proof fn lemma_lex_transitive(a: Seq<char>, b: Seq<char>, c: Seq<char>)
    requires
        lex_lt(a, b),
        lex_lt(b, c),
    ensures
        lex_lt(a, c),
    decreases a.len(),
{
    if a.len() == 0 {
    } else if a[0] != b[0] {
    } else if b[0] != c[0] {
    } else {
        lemma_lex_transitive(a.drop_first(), b.drop_first(), c.drop_first());
    }
}

/// How one string stands to another in lexicographic order.
#[derive(Clone, Copy, Debug, PartialEq, Eq, Structural)]
pub enum Order {
    Before,
    Same,
    After,
}

/// Where `a` stands relative to `b` in lexicographic order.
pub fn lex_order(a: &str, b: &str) -> (r: Order)
    ensures
        r == Order::Before <==> lex_lt(a@, b@),
        r == Order::Same <==> a@ == b@,
        r == Order::After <==> lex_lt(b@, a@),
{
    proof {
        lemma_lex_trichotomy(a@, b@);
    }
    let mut ia = a.chars();
    let mut ib = b.chars();
    loop
        invariant
            lex_lt(a@, b@) == lex_lt(ia.remaining(), ib.remaining()),
            lex_lt(b@, a@) == lex_lt(ib.remaining(), ia.remaining()),
            ia.obeys_prophetic_iter_laws(),
            ib.obeys_prophetic_iter_laws(),
            ia.decrease() is Some,
            lex_lt(a@, b@) || a@ == b@ || lex_lt(b@, a@),
            !(lex_lt(a@, b@) && a@ == b@),
            !(lex_lt(b@, a@) && a@ == b@),
            !(lex_lt(a@, b@) && lex_lt(b@, a@)),
        decreases ia.decrease()->0,
    {
        let x = ia.next();
        let y = ib.next();
        match (x, y) {
            (None, None) => {
                return Order::Same;
            },
            (Some(_), None) => {
                return Order::After;
            },
            (None, Some(_)) => {
                return Order::Before;
            },
            (Some(p), Some(q)) => {
                if p != q {
                    if p < q {
                        return Order::Before;
                    } else {
                        return Order::After;
                    }
                }
            },
        }
    }
}

/// Whether two strings hold the same characters.
pub fn str_eq(a: &str, b: &str) -> (r: bool)
    ensures
        r == (a@ == b@),
{
    lex_order(a, b) == Order::Same
}

/// The characters of `s` from the first that `strip` does not hold of.
pub open spec fn drop_leading(s: Seq<char>, strip: spec_fn(char) -> bool) -> Seq<char>
    decreases s.len(),
{
    if s.len() > 0 && strip(s[0]) {
        drop_leading(s.drop_first(), strip)
    } else {
        s
    }
}

/// The characters of `s` up to the last that `strip` does not hold of.
pub open spec fn drop_trailing(s: Seq<char>, strip: spec_fn(char) -> bool) -> Seq<char>
    decreases s.len(),
{
    if s.len() > 0 && strip(s.last()) {
        drop_trailing(s.drop_last(), strip)
    } else {
        s
    }
}

/// `s` without the characters at either end that `strip` holds of.
pub open spec fn trimmed(s: Seq<char>, strip: spec_fn(char) -> bool) -> Seq<char> {
    drop_trailing(drop_leading(s, strip), strip)
}

/// White space, as Unicode's property `White_Space` has it.
pub open spec fn is_space(c: char) -> bool {
    ('\u{9}' <= c && c <= '\u{d}') || c == ' ' || c == '\u{85}' || c == '\u{a0}' || c == '\u{1680}'
        || ('\u{2000}' <= c && c <= '\u{200a}') || c == '\u{2028}' || c == '\u{2029}' || c
        == '\u{202f}' || c == '\u{205f}' || c == '\u{3000}'
}

/// A double quote.
pub open spec fn is_quote(c: char) -> bool {
    c == '"'
}

/// Which characters a trim removes.
#[derive(Clone, Copy, Debug, PartialEq, Eq, Structural)]
pub enum Strip {
    Space,
    Quote,
}

/// The characters that `kind` removes.
pub open spec fn strips(kind: Strip) -> spec_fn(char) -> bool {
    match kind {
        Strip::Space => |c: char| is_space(c),
        Strip::Quote => |c: char| is_quote(c),
    }
}

fn is_stripped(c: char, kind: Strip) -> (r: bool)
    ensures
        r == strips(kind)(c),
{
    match kind {
        Strip::Space => ('\u{9}' <= c && c <= '\u{d}') || c == ' ' || c == '\u{85}' || c
            == '\u{a0}' || c == '\u{1680}' || ('\u{2000}' <= c && c <= '\u{200a}') || c
            == '\u{2028}' || c == '\u{2029}' || c == '\u{202f}' || c == '\u{205f}' || c
            == '\u{3000}',
        Strip::Quote => c == '"',
    }
}

/// Dropping leading characters of a suffix that begins where they all are
/// to be dropped gives the same.
proof fn lemma_drop_leading_skip(s: Seq<char>, strip: spec_fn(char) -> bool, k: int)
    requires
        0 <= k <= s.len(),
        forall|i: int| 0 <= i < k ==> strip(#[trigger] s[i]),
    ensures
        drop_leading(s, strip) == drop_leading(s.skip(k), strip),
    decreases k,
{
    if k == 0 {
        assert(s.skip(0) =~= s);
    } else {
        assert(s.drop_first().skip(k - 1) =~= s.skip(k));
        assert forall|i: int| 0 <= i < k - 1 implies strip(#[trigger] s.drop_first()[i]) by {
            assert(s.drop_first()[i] == s[i + 1]);
        }
        lemma_drop_leading_skip(s.drop_first(), strip, k - 1);
    }
}

proof fn lemma_drop_trailing_take(s: Seq<char>, strip: spec_fn(char) -> bool, k: int)
    requires
        0 <= k <= s.len(),
        forall|i: int| k <= i < s.len() ==> strip(#[trigger] s[i]),
    ensures
        drop_trailing(s, strip) == drop_trailing(s.take(k), strip),
    decreases s.len() - k,
{
    if k == s.len() {
        assert(s.take(k) =~= s);
    } else {
        assert(s.drop_last().take(k) =~= s.take(k));
        assert forall|i: int| k <= i < s.len() - 1 implies strip(#[trigger] s.drop_last()[i]) by {
            assert(s.drop_last()[i] == s[i]);
        }
        lemma_drop_trailing_take(s.drop_last(), strip, k);
    }
}

/// `v` without the characters at either end that `kind` removes.
pub fn trim_chars(v: &Vec<char>, kind: Strip) -> (out: Vec<char>)
    ensures
        out@ == trimmed(v@, strips(kind)),
{
    let ghost strip = strips(kind);
    let mut start: usize = 0;
    while start < v.len() && is_stripped(v[start], kind)
        invariant
            start <= v.len(),
            strip == strips(kind),
            forall|i: int| 0 <= i < start ==> strip(#[trigger] v@[i]),
        decreases v.len() - start,
    {
        start += 1;
    }
    let mut end: usize = v.len();
    while end > start && is_stripped(v[end - 1], kind)
        invariant
            start <= end <= v.len(),
            strip == strips(kind),
            forall|i: int| end <= i < v.len() ==> strip(#[trigger] v@[i]),
        decreases end,
    {
        end -= 1;
    }
    let mut out: Vec<char> = Vec::new();
    let mut i: usize = start;
    while i < end
        invariant
            start <= i <= end <= v.len(),
            out@ == v@.subrange(start as int, i as int),
        decreases end - i,
    {
        out.push(v[i]);
        assert(v@.subrange(start as int, i + 1) =~= v@.subrange(start as int, i as int).push(
            v@[i as int],
        ));
        i += 1;
    }
    proof {
        let rest = v@.skip(start as int);
        lemma_drop_leading_skip(v@, strip, start as int);
        assert(drop_leading(rest, strip) == rest) by {
            if rest.len() > 0 {
                assert(rest[0] == v@[start as int]);
            }
        }
        assert forall|i: int| end - start <= i < rest.len() implies strip(#[trigger] rest[i]) by {
            assert(rest[i] == v@[i + start]);
        }
        lemma_drop_trailing_take(rest, strip, end - start);
        let kept = rest.take(end - start);
        assert(kept =~= v@.subrange(start as int, end as int));
        assert(drop_trailing(kept, strip) == kept) by {
            if kept.len() > 0 {
                assert(kept.last() == v@[end - 1]);
            }
        }
    }
    out
}

/// Whether `s` ends with `suffix`.
pub open spec fn ends_with(s: Seq<char>, suffix: Seq<char>) -> bool {
    suffix.len() <= s.len() && s.skip(s.len() - suffix.len()) == suffix
}

/// Whether `s` begins with `prefix` at index `at`.
pub open spec fn occurs_at(s: Seq<char>, prefix: Seq<char>, at: int) -> bool {
    0 <= at && at + prefix.len() <= s.len() && s.subrange(at, at + prefix.len()) == prefix
}

/// `s` with every occurrence of the non-empty `from` replaced by `to`,
/// taken from the left and without overlap.
pub open spec fn replace_all(s: Seq<char>, from: Seq<char>, to: Seq<char>) -> Seq<char>
    decreases s.len(),
{
    if from.len() == 0 || s.len() == 0 {
        s
    } else if occurs_at(s, from, 0) {
        to + replace_all(s.skip(from.len() as int), from, to)
    } else {
        seq![s[0]] + replace_all(s.skip(1), from, to)
    }
}

/// Whether `v` holds `pattern` at index `at`.
pub fn holds_at(v: &Vec<char>, pattern: &Vec<char>, at: usize) -> (r: bool)
    requires
        at <= v.len(),
    ensures
        r == occurs_at(v@, pattern@, at as int),
{
    if pattern.len() > v.len() - at {
        return false;
    }
    let mut k: usize = 0;
    while k < pattern.len()
        invariant
            k <= pattern.len(),
            at + pattern.len() <= v.len(),
            forall|j: int| 0 <= j < k ==> v@[at + j] == pattern@[j],
        decreases pattern.len() - k,
    {
        if v[at + k] != pattern[k] {
            assert(v@.subrange(at as int, at + pattern.len())[k as int] != pattern@[k as int]);
            return false;
        }
        k += 1;
    }
    assert(v@.subrange(at as int, at + pattern.len()) =~= pattern@);
    true
}

/// Whether `v` ends with `suffix`.
pub fn has_suffix(v: &Vec<char>, suffix: &Vec<char>) -> (r: bool)
    ensures
        r == ends_with(v@, suffix@),
{
    if suffix.len() > v.len() {
        return false;
    }
    let at = v.len() - suffix.len();
    let r = holds_at(v, suffix, at);
    assert(v@.skip(at as int) =~= v@.subrange(at as int, at + suffix.len()));
    r
}

/// `v` with every occurrence of `from` replaced by `to`.
pub fn replace_chars(v: &Vec<char>, from: &Vec<char>, to: &Vec<char>) -> (out: Vec<char>)
    requires
        from.len() > 0,
    ensures
        out@ == replace_all(v@, from@, to@),
{
    let mut out: Vec<char> = Vec::new();
    let mut i: usize = 0;
    assert(v@.skip(0) =~= v@);
    while i < v.len()
        invariant
            i <= v.len(),
            from.len() > 0,
            out@ + replace_all(v@.skip(i as int), from@, to@) == replace_all(v@, from@, to@),
        decreases v.len() - i,
    {
        let ghost rest = v@.skip(i as int);
        let ghost before = out@;
        if holds_at(v, from, i) {
            proof {
                assert(rest.subrange(0, from.len() as int) =~= v@.subrange(
                    i as int,
                    i + from.len(),
                ));
                assert(rest.skip(from.len() as int) =~= v@.skip(i + from.len()));
            }
            let mut k: usize = 0;
            while k < to.len()
                invariant
                    k <= to.len(),
                    out@ == before + to@.take(k as int),
                decreases to.len() - k,
            {
                out.push(to[k]);
                assert(to@.take(k + 1) =~= to@.take(k as int).push(to@[k as int]));
                k += 1;
            }
            assert(to@.take(to.len() as int) =~= to@);
            assert(out@ + replace_all(v@.skip(i + from.len()), from@, to@) =~= before + (to@
                + replace_all(rest.skip(from.len() as int), from@, to@)));
            i += from.len();
        } else {
            proof {
                if i + from.len() <= v.len() {
                    assert(rest.subrange(0, from.len() as int) =~= v@.subrange(
                        i as int,
                        i + from.len(),
                    ));
                }
                assert(rest.skip(1) =~= v@.skip(i + 1));
                assert(rest[0] == v@[i as int]);
            }
            out.push(v[i]);
            assert(out@ + replace_all(v@.skip(i + 1), from@, to@) =~= before + (seq![rest[0]]
                + replace_all(rest.skip(1), from@, to@)));
            i += 1;
        }
    }
    proof {
        assert(v@.skip(v.len() as int) =~= Seq::<char>::empty());
        assert(out@ + Seq::<char>::empty() =~= out@);
    }
    out
}

/// The pieces of `s` between line feeds, empty pieces included.
pub open spec fn split_lines(s: Seq<char>) -> Seq<Seq<char>>
    decreases s.len(),
{
    if s.len() == 0 {
        seq![Seq::<char>::empty()]
    } else {
        let before = split_lines(s.drop_last());
        if s.last() == '\n' {
            before.push(Seq::<char>::empty())
        } else {
            before.drop_last().push(before.last().push(s.last()))
        }
    }
}

/// `line` without a carriage return at its end.
pub open spec fn without_return(line: Seq<char>) -> Seq<char> {
    if line.len() > 0 && line.last() == '\r' {
        line.drop_last()
    } else {
        line
    }
}

/// The lines of `s`. A line ends at a line feed, and a carriage return
/// before the line feed belongs to the line ending. What follows the last
/// line feed is a line of its own unless it is empty.
pub open spec fn text_lines(s: Seq<char>) -> Seq<Seq<char>> {
    let raw = split_lines(s);
    let ended = Seq::new((raw.len() - 1) as nat, |i: int| without_return(raw[i]));
    if raw.last().len() > 0 {
        ended.push(raw.last())
    } else {
        ended
    }
}

/// The views of a vector of character vectors.
pub open spec fn line_views(v: Seq<Vec<char>>) -> Seq<Seq<char>> {
    Seq::new(v.len(), |i: int| v[i]@)
}

/// The lines of `s`.
pub fn lines_of(s: &str) -> (lines: Vec<Vec<char>>)
    ensures
        line_views(lines@) == text_lines(s@),
{
    let mut done: Vec<Vec<char>> = Vec::new();
    let mut cur: Vec<char> = Vec::new();
    let ghost mut raw_done: Seq<Seq<char>> = Seq::empty();
    let it = s.chars();
    for c in iter: it
        invariant
            iter.seq() == s@,
            split_lines(s@.take(iter.index() as int)) == raw_done.push(cur@),
            done@.len() == raw_done.len(),
            forall|k: int| 0 <= k < done@.len() ==> (#[trigger] done@[k])@ == without_return(raw_done[k]),
    {
        proof {
            let i = iter.index() as int;
            assert(s@.take(i + 1).drop_last() =~= s@.take(i));
            assert(s@.take(i + 1).last() == c);
        }
        let ghost before = raw_done.push(cur@);
        if c == '\n' {
            let n = cur.len();
            if n > 0 && cur[n - 1] == '\r' {
                cur.pop();
            }
            proof {
                raw_done = before;
            }
            done.push(cur);
            cur = Vec::new();
            assert(raw_done.push(cur@) =~= before.push(Seq::<char>::empty()));
        } else {
            cur.push(c);
            assert(raw_done.push(cur@) =~= before.drop_last().push(before.last().push(c)));
        }
    }
    proof {
        assert(s@.take(s@.len() as int) =~= s@);
    }
    let ghost ended = line_views(done@);
    if cur.len() > 0 {
        done.push(cur);
        assert(line_views(done@) =~= text_lines(s@));
    } else {
        assert(line_views(done@) =~= text_lines(s@));
    }
    done
}

} // verus!
