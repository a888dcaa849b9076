//! What paths come to as they are spelled: how their parts grow as they get longer, what a joined
//! path reads, and when one path lies below another, character by character and byte by byte.

use crate::join::{join, lemma_go_on_by_a_name, rendered};
use crate::path::{
    body_segments, body_start, dots, file_name, here, lead, lemma_prefix_fits,
    lemma_segments_extend, lemma_segments_not_empty, named_parts, part, parts, piece_end, plain_name,
    prefix, prefix_len, rooted, segments, separators, silent, up, verbatim, within, Dots, Part, PathStyle,
    PathUnit, Prefix, Separators,
};
use vstd::prelude::*;

verus! {

/// Segments of two texts with a separator between them are the segments of the one and then those
/// of the other.
proof fn lemma_segments_apart<A: PathUnit>(seps: Separators, a: Seq<A>, c: A, b: Seq<A>)
    requires
        seps.hold(c),
    ensures
        segments(seps, a.push(c) + b) == segments(seps, a) + segments(seps, b),
    decreases b.len(),
{
    let all = a.push(c) + b;
    lemma_segments_not_empty(seps, a);
    lemma_segments_not_empty(seps, b);
    if b.len() == 0 {
        assert(all.drop_last() == a);
        assert(segments(seps, a).push(Seq::empty()) == segments(seps, a) + segments(seps, b));
    } else {
        let front = b.drop_last();
        lemma_segments_apart(seps, a, c, front);
        lemma_segments_not_empty(seps, front);
        assert(all.drop_last() == a.push(c) + front);
        assert(all.last() == b.last());
        let (x, y) = (segments(seps, a), segments(seps, front));
        if seps.hold(b.last()) {
            assert((x + y).push(Seq::empty()) == x + y.push(Seq::empty()));
        } else {
            let grown = y.last().push(b.last());
            assert((x + y).last() == y.last());
            assert((x + y).drop_last().push(grown) == x + y.drop_last().push(grown));
        }
    }
}

/// Segments with `c` between them.
spec fn glued<A>(c: A, segs: Seq<Seq<A>>) -> Seq<A>
    decreases segs.len(),
{
    if segs.len() == 0 {
        Seq::empty()
    } else if segs.len() == 1 {
        segs[0]
    } else {
        glued(c, segs.drop_last()).push(c) + segs.last()
    }
}

/// Whether `c` is the one separator.
spec fn only<A: PathUnit>(seps: Separators, c: A) -> bool {
    forall|a: A| seps.hold(a) <==> a == c
}

proof fn lemma_glued_segments<A: PathUnit>(seps: Separators, c: A, s: Seq<A>)
    requires
        only(seps, c),
    ensures
        glued(c, segments(seps, s)) == s,
    decreases s.len(),
{
    if s.len() > 0 {
        let front = s.drop_last();
        let before = segments(seps, front);
        lemma_glued_segments(seps, c, front);
        lemma_segments_not_empty(seps, front);
        let all = segments(seps, s);
        if seps.hold(s.last()) {
            assert(all.drop_last() == before);
            assert(glued(c, all) == front.push(c) + Seq::<A>::empty());
            assert(front.push(c) + Seq::<A>::empty() == s);
        } else {
            assert(all.drop_last() == before.drop_last());
            if before.len() == 1 {
                assert(before.drop_last() == Seq::<Seq<A>>::empty());
                assert(all[0] == before[0].push(s.last()));
                assert(all[0] == s);
            } else {
                let head = glued(c, before.drop_last()).push(c);
                assert(head + before.last().push(s.last()) == (head + before.last()).push(
                    s.last(),
                ));
                assert(front.push(s.last()) == s);
            }
        }
    }
}

/// What is glued from more segments starts with what is glued from the first of them.
proof fn lemma_glued_more<A>(c: A, segs: Seq<Seq<A>>, more: Seq<Seq<A>>)
    requires
        segs.len() > 0,
        more.len() > 0,
    ensures
        glued(c, segs + more) == glued(c, segs).push(c) + glued(c, more),
    decreases more.len(),
{
    let all = segs + more;
    assert(all.last() == more.last());
    if more.len() == 1 {
        assert(all.drop_last() == segs);
    } else {
        lemma_glued_more(c, segs, more.drop_last());
        assert(all.drop_last() == segs + more.drop_last());
        let head = glued(c, segs).push(c);
        assert((head + glued(c, more.drop_last())).push(c) + more.last() == head + (glued(
            c,
            more.drop_last(),
        ).push(c) + more.last()));
    }
}

/// Whether no stretch of `s` between separators is empty, `.` or `..`.
pub open spec fn tidy<A: PathUnit>(separator: A, s: Seq<A>) -> bool {
    forall|i: int, j: int|
        0 <= i <= j <= s.len() && (i == 0 || s[i - 1] == separator) && (j == s.len() || s[j]
            == separator) ==> {
            let stretch = #[trigger] s.subrange(i, j);
            stretch.len() > 0 && stretch != seq![A::of('.')] && stretch != seq![
                A::of('.'),
                A::of('.'),
            ]
        }
}

/// Where a segment stands.
proof fn lemma_segment_is_a_stretch<A: PathUnit>(seps: Separators, s: Seq<A>, k: int) -> (r: (
    int,
    int,
))
    requires
        0 <= k < segments(seps, s).len(),
    ensures
        0 <= r.0 <= r.1 <= s.len(),
        r.0 == 0 || seps.hold(s[r.0 - 1]),
        k == segments(seps, s).len() - 1 ==> r.1 == s.len(),
        k < segments(seps, s).len() - 1 ==> r.1 < s.len() && seps.hold(s[r.1]),
        segments(seps, s)[k] == s.subrange(r.0, r.1),
    decreases s.len(),
{
    if s.len() == 0 {
        assert(s.subrange(0, 0) == Seq::<A>::empty());
        (0, 0)
    } else {
        let front = s.drop_last();
        let before = segments(seps, front);
        let all = segments(seps, s);
        let last = s.len() - 1;
        lemma_segments_not_empty(seps, front);
        if seps.hold(s.last()) {
            if k == all.len() - 1 {
                assert(s.subrange(last + 1, last + 1) == Seq::<A>::empty());
                (last + 1, last + 1)
            } else {
                let (i, j) = lemma_segment_is_a_stretch(seps, front, k);
                assert(front.subrange(i, j) == s.subrange(i, j));
                assert(all[k] == before[k]);
                (i, j)
            }
        } else {
            let (i, j) = lemma_segment_is_a_stretch(seps, front, k);
            if k == all.len() - 1 {
                assert(all[k] == before.last().push(s.last()));
                assert(front.subrange(i, j).push(s.last()) == s.subrange(i, j + 1));
                (i, j + 1)
            } else {
                assert(front.subrange(i, j) == s.subrange(i, j));
                assert(all[k] == before[k]);
                (i, j)
            }
        }
    }
}

/// The parts that segments of a tidy text stand for are their names.
proof fn lemma_tidy_names<A: PathUnit>(seps: Separators, c: A, s: Seq<A>, kept: Dots)
    requires
        only(seps, c),
        tidy(c, s),
    ensures
        named_parts(kept, segments(seps, s)) == segments(seps, s).map_values(
            |name: Seq<A>| Part::Name(name),
        ),
{
    let segs = segments(seps, s);
    assert forall|k: int| 0 <= k < segs.len() implies (#[trigger] segs[k]).len() > 0 && segs[k]
        != here::<A>() && segs[k] != up::<A>() by {
        let (i, j) = lemma_segment_is_a_stretch(seps, s, k);
        assert(segs[k] == s.subrange(i, j));
    }
    lemma_loud_names(kept, segs);
}

proof fn lemma_loud_names<A: PathUnit>(kept: Dots, segs: Seq<Seq<A>>)
    requires
        forall|k: int|
            0 <= k < segs.len() ==> (#[trigger] segs[k]).len() > 0 && segs[k] != here::<A>()
                && segs[k] != up::<A>(),
    ensures
        named_parts(kept, segs) == segs.map_values(|name: Seq<A>| Part::Name(name)),
    decreases segs.len(),
{
    let names = segs.map_values(|name: Seq<A>| Part::Name(name));
    if segs.len() > 0 {
        let front = segs.drop_last();
        assert forall|k: int| 0 <= k < front.len() implies (#[trigger] front[k]).len() > 0
            && front[k] != here::<A>() && front[k] != up::<A>() by {
            assert(front[k] == segs[k]);
        }
        lemma_loud_names(kept, front);
        assert(segs.last() == segs[segs.len() - 1]);
        assert(names == front.map_values(|name: Seq<A>| Part::Name(name)).push(
            Part::Name(segs.last()),
        ));
    } else {
        assert(names == Seq::<Part<A>>::empty());
    }
}

/// The names of one tidy text are the first names of another if and only if it is the other, or
/// the other goes on from it with a separator.
proof fn lemma_tidy_prefix<A: PathUnit>(seps: Separators, c: A, a: Seq<A>, b: Seq<A>, kept: Dots)
    requires
        only(seps, c),
        tidy(c, a),
        tidy(c, b),
    ensures
        named_parts(kept, segments(seps, a)).is_prefix_of(named_parts(kept, segments(seps, b)))
            <==> a == b || (a.len() < b.len() && b.take(a.len() as int) == a && b[a.len() as int]
            == c),
{
    let (x, y) = (segments(seps, a), segments(seps, b));
    let named = |name: Seq<A>| Part::Name(name);
    let (p, q) = (named_parts(kept, x), named_parts(kept, y));
    lemma_tidy_names(seps, c, a, kept);
    lemma_tidy_names(seps, c, b, kept);
    assert(p == x.map_values(named) && q == y.map_values(named));
    lemma_segments_not_empty(seps, a);
    lemma_glued_segments(seps, c, a);
    lemma_glued_segments(seps, c, b);
    if p.is_prefix_of(q) {
        let more = y.skip(x.len() as int);
        assert forall|k: int| 0 <= k < x.len() implies x[k] == y[k] by {
            assert(p[k] == q.subrange(0, p.len() as int)[k]);
            assert(p[k] == Part::Name(x[k]) && q[k] == Part::Name(y[k]));
        }
        assert(y == x + more);
        if more.len() == 0 {
            assert(y == x);
        } else {
            lemma_glued_more(c, x, more);
            assert(b == a.push(c) + glued(c, more));
            assert(b.take(a.len() as int) == a);
        }
    }
    if a.len() < b.len() && b.take(a.len() as int) == a && b[a.len() as int] == c {
        let rest = b.skip((a.len() + 1) as int);
        assert(b == a.push(c) + rest);
        lemma_segments_apart(seps, a, c, rest);
        assert(p == q.subrange(0, p.len() as int));
    }
    if a == b {
        assert(p == q.subrange(0, p.len() as int));
    }
}

/// An absolute POSIX path without empty parts, `.` and `..` lies at or below another one if and
/// only if it reads the same, or starts with the other and a `/`. Below the root lies all that
/// starts with a `/`.
pub proof fn law_posix_path_lies_below(dir: Seq<u8>, path: Seq<u8>)
    requires
        dir.len() > 0,
        dir[0] == '/' as u8,
        path.len() > 0,
        path[0] == '/' as u8,
        dir.len() > 1 ==> tidy('/' as u8, dir.skip(1)) && (path.len() == 1 || tidy(
            '/' as u8,
            path.skip(1),
        )),
    ensures
        within(PathStyle::Posix, dir, path) <==> dir.len() == 1 || path == dir || (dir.len()
            < path.len() && path.take(dir.len() as int) == dir && path[dir.len() as int]
            == '/' as u8),
{
    let style = PathStyle::Posix;
    let slash = '/' as u8;
    let seps = Separators::Slash;
    let (a, b) = (dir.skip(1), path.skip(1));
    assert(only(seps, slash));
    assert(lead(style, dir) == seq![Part::<u8>::Root]);
    assert(lead(style, path) == seq![Part::<u8>::Root]);
    assert(body_segments(style, dir) == segments(seps, a));
    assert(body_segments(style, path) == segments(seps, b));
    let (p, q) = (
        named_parts(Dots::Never, segments(seps, a)),
        named_parts(Dots::Never, segments(seps, b)),
    );
    assert(parts(style, dir) == seq![Part::<u8>::Root] + p);
    assert(parts(style, path) == seq![Part::<u8>::Root] + q);
    lemma_same_lead(seq![Part::<u8>::Root], p, seq![Part::<u8>::Root], q);
    if dir.len() == 1 {
        lemma_nothing_named(seps, a, Dots::Never);
    } else if path.len() == 1 {
        lemma_nothing_named(seps, b, Dots::Never);
        lemma_tidy_names(seps, slash, a, Dots::Never);
        lemma_segments_not_empty(seps, a);
        assert(p.len() > 0);
    } else {
        lemma_tidy_prefix(seps, slash, a, b, Dots::Never);
        assert(dir == seq![slash] + a && path == seq![slash] + b);
        if a.len() < b.len() {
            assert(path.take(dir.len() as int) == seq![slash] + b.take(a.len() as int));
            assert(path[dir.len() as int] == b[a.len() as int]);
            assert((seq![slash] + b.take(a.len() as int)).skip(1) == b.take(a.len() as int));
        }
    }
}

proof fn lemma_nothing_named<A: PathUnit>(seps: Separators, s: Seq<A>, kept: Dots)
    requires
        s.len() == 0,
    ensures
        named_parts(kept, segments(seps, s)) == Seq::<Part<A>>::empty(),
{
    reveal_with_fuel(named_parts, 2);
    assert(segments(seps, s).drop_last() == Seq::<Seq<A>>::empty());
}

/// Behind leads of one length, a run of parts starts with another if and only if the leads are the
/// same and what follows the one starts with what follows the other.
proof fn lemma_same_lead<A>(l: Seq<Part<A>>, p: Seq<Part<A>>, m: Seq<Part<A>>, q: Seq<Part<A>>)
    requires
        l.len() == m.len(),
    ensures
        (l + p).is_prefix_of(m + q) <==> l == m && p.is_prefix_of(q),
{
    let (x, y) = (l + p, m + q);
    if x.is_prefix_of(y) {
        assert forall|i: int| 0 <= i < x.len() implies x[i] == y[i] by {
            assert(x[i] == y.subrange(0, x.len() as int)[i]);
        }
        assert forall|i: int| 0 <= i < l.len() implies l[i] == m[i] by {
            assert(x[i] == y[i]);
        }
        assert(l == m);
        assert forall|i: int| 0 <= i < p.len() implies p[i] == q[i] by {
            assert(x[l.len() + i] == y[l.len() + i]);
        }
        assert(p == q.subrange(0, p.len() as int));
    }
    if l == m && p.is_prefix_of(q) {
        assert forall|i: int| 0 <= i < p.len() implies p[i] == q[i] by {
            assert(p[i] == q.subrange(0, p.len() as int)[i]);
        }
        assert(x == y.subrange(0, x.len() as int));
    }
}


/// What a stretch between separators adds to the parts of a path, not as its first.
spec fn added<A: PathUnit>(verbatim: bool, name: Seq<A>) -> Seq<Part<A>> {
    if silent(name, verbatim) {
        Seq::empty()
    } else {
        seq![part(name)]
    }
}

/// A path that goes on with a separator and a stretch has the parts that it had, and what the
/// stretch adds.
proof fn lemma_parts_grow<A: PathUnit>(style: PathStyle, s: Seq<A>, c: A, name: Seq<A>)
    requires
        prefix(style, s.push(c) + name) == prefix(style, s),
        prefix_len(style, s) < s.len(),
        separators(style, s).hold(c),
        forall|i: int| 0 <= i < name.len() ==> !separators(style, s).hold(#[trigger] name[i]),
    ensures
        parts(style, s.push(c) + name) == parts(style, s) + added(verbatim(style, s), name),
{
    let path = s.push(c) + name;
    let seps = separators(style, s);
    let kept = dots(style, s);
    lemma_prefix_fits(style, s);
    let n = prefix_len(style, s);
    assert(path[n] == s[n]);
    assert(rooted(style, path) == rooted(style, s));
    assert(lead(style, path) == lead(style, s));
    assert(dots(style, path) == kept);
    let from = body_start(style, s);
    let body = s.skip(from);
    assert(path.skip(from) == body.push(c) + name);
    lemma_segments_apart(seps, body, c, name);
    lemma_one_segment(seps, name);
    let segs = segments(seps, body);
    lemma_segments_not_empty(seps, body);
    assert(segs + seq![name] == segs.push(name));
    assert(segs.push(name).drop_last() == segs);
    let grown = named_parts(kept, segs.push(name));
    assert(grown == named_parts(kept, segs) + added(verbatim(style, s), name));
    assert(parts(style, path) == lead(style, s) + grown);
    assert(lead(style, s) + (named_parts(kept, segs) + added(verbatim(style, s), name)) == (lead(
        style,
        s,
    ) + named_parts(kept, segs)) + added(verbatim(style, s), name));
}

proof fn lemma_one_segment<A: PathUnit>(seps: Separators, name: Seq<A>)
    requires
        forall|i: int| 0 <= i < name.len() ==> !seps.hold(#[trigger] name[i]),
    ensures
        segments(seps, name) == seq![name],
{
    lemma_segments_extend(seps, Seq::empty(), name);
    assert(Seq::<A>::empty() + name == name);
    assert(seq![Seq::<A>::empty()].drop_last() == Seq::<Seq<A>>::empty());
}

/// The parts of what is one stretch behind its lead.
proof fn lemma_parts_start<A: PathUnit>(style: PathStyle, s: Seq<A>, name: Seq<A>)
    requires
        s.skip(body_start(style, s)) == name,
        forall|i: int| 0 <= i < name.len() ==> !separators(style, s).hold(#[trigger] name[i]),
    ensures
        parts(style, s) == lead(style, s) + if silent(name, dots(style, s) != Dots::Never) {
            Seq::empty()
        } else {
            seq![part(name)]
        },
{
    lemma_one_segment(separators(style, s), name);
    reveal_with_fuel(named_parts, 2);
    assert(seq![name].drop_last() == Seq::<Seq<A>>::empty());
    assert(Seq::<Part<A>>::empty().push(part(name)) == seq![part(name)]);
}

/// How the parts of a POSIX path grow: a path that goes on with a `/` and a stretch without one
/// has one part more, which is the stretch; but none more where the stretch is empty or `.`, and
/// `..` is a part of its own kind.
pub proof fn law_posix_parts_grow(s: Seq<u8>, name: Seq<u8>)
    requires
        s.len() > 0,
        forall|i: int| 0 <= i < name.len() ==> #[trigger] name[i] != '/' as u8,
    ensures
        ({
            let path = s.push('/' as u8) + name;
            let before = parts(PathStyle::Posix, s);
            if name.len() == 0 || name == seq!['.' as u8] {
                parts(PathStyle::Posix, path) == before
            } else if name == seq!['.' as u8, '.' as u8] {
                parts(PathStyle::Posix, path) == before.push(Part::Up)
            } else {
                parts(PathStyle::Posix, path) == before.push(Part::Name(name))
            }
        }),
{
    lemma_parts_grow(PathStyle::Posix, s, '/' as u8, name);
    let before = parts(PathStyle::Posix, s);
    assert(here::<u8>() == seq!['.' as u8]);
    assert(up::<u8>() == seq!['.' as u8, '.' as u8]);
    assert(here::<u8>().len() == 1 && up::<u8>().len() == 2);
    assert(before + Seq::<Part<u8>>::empty() == before);
    assert(before + seq![part(name)] == before.push(part(name)));
}

/// How the parts of a POSIX path start: a stretch without a `/` is one part, or none where it is
/// empty, and a `/` before it is the root. At the start a `.` counts, behind the root it does not.
pub proof fn law_posix_parts_start(name: Seq<u8>)
    requires
        forall|i: int| 0 <= i < name.len() ==> #[trigger] name[i] != '/' as u8,
    ensures
        parts(PathStyle::Posix, name) == if name.len() == 0 {
            Seq::<Part<u8>>::empty()
        } else if name == seq!['.' as u8] {
            seq![Part::Here]
        } else if name == seq!['.' as u8, '.' as u8] {
            seq![Part::Up]
        } else {
            seq![Part::Name(name)]
        },
        parts(PathStyle::Posix, seq!['/' as u8] + name) == if name.len() == 0 || name == seq![
            '.' as u8,
        ] {
            seq![Part::Root]
        } else if name == seq!['.' as u8, '.' as u8] {
            seq![Part::Root, Part::Up]
        } else {
            seq![Part::Root, Part::Name(name)]
        },
{
    let style = PathStyle::Posix;
    let slash = seq!['/' as u8];
    assert(here::<u8>() == seq!['.' as u8]);
    assert(up::<u8>() == seq!['.' as u8, '.' as u8]);
    assert(here::<u8>().len() == 1 && up::<u8>().len() == 2);
    assert(name.skip(0) == name);
    assert(name.len() > 0 ==> name[0] != '/' as u8);
    lemma_parts_start(style, name, name);
    assert((slash + name).skip(1) == name);
    assert((slash + name)[0] == '/' as u8);
    lemma_parts_start(style, slash + name, name);
    assert(Seq::<Part<u8>>::empty() + Seq::<Part<u8>>::empty() == Seq::<Part<u8>>::empty());
    assert(Seq::<Part<u8>>::empty() + seq![part(name)] == seq![part(name)]);
    assert(seq![Part::<u8>::Root] + Seq::<Part<u8>>::empty() == seq![Part::<u8>::Root]);
    assert(seq![Part::<u8>::Root] + seq![part(name)] == seq![Part::<u8>::Root, part(name)]);
}

/// The file name of a POSIX path: what follows the last `/`, if it is a name. An empty stretch and
/// a `.` behind a `/` do not count, and `..` is no name.
pub proof fn law_posix_file_name(s: Seq<char>, name: Seq<char>)
    requires
        forall|i: int| 0 <= i < name.len() ==> #[trigger] name[i] != '/',
    ensures
        file_name(PathStyle::Posix, s.push('/') + name) == if name.len() == 0 || name == seq!['.'] {
            file_name(PathStyle::Posix, s)
        } else if name == seq!['.', '.'] {
            None
        } else {
            Some(name)
        },
        file_name(PathStyle::Posix, name) == if name.len() == 0 || name == seq!['.'] || name
            == seq!['.', '.'] {
            None
        } else {
            Some(name)
        },
{
    let style = PathStyle::Posix;
    let path = s.push('/') + name;
    assert(here::<char>() == seq!['.']);
    assert(up::<char>() == seq!['.', '.']);
    assert(here::<char>().len() == 1 && up::<char>().len() == 2);
    assert(name.skip(0) == name);
    assert(name.len() > 0 ==> name[0] != '/');
    lemma_parts_start(style, name, name);
    let before = parts(style, s);
    assert(before + Seq::<Part<char>>::empty() == before);
    assert((before + seq![part(name)]).last() == part(name));
    assert((lead(style, name) + seq![part(name)]).last() == part(name));
    if s.len() > 0 {
        lemma_parts_grow(style, s, '/', name);
    } else {
        assert(path.skip(1) == name);
        assert(path[0] == '/');
        lemma_parts_start(style, path, name);
        assert((lead(style, path) + seq![part(name)]).last() == part(name));
        assert(lead(style, path) + Seq::<Part<char>>::empty() == seq![Part::<char>::Root]);
        lemma_nothing_named(Separators::Slash, s, dots(style, s));
        assert(s.skip(0) == s);
        assert(parts(style, s) == Seq::<Part<char>>::empty());
    }
}

/// Whether a text starts with a drive, such as `C:`.
pub open spec fn on_a_drive(s: Seq<char>) -> bool {
    s.len() >= 2 && ('A' <= s[0] <= 'Z' || 'a' <= s[0] <= 'z') && s[1] == ':'
}

/// The file name of a Windows path on a drive: what follows the drive and the last `\` or `/`, if
/// it is a name. An empty stretch and a `.` do not count, and `..` is no name.
pub proof fn law_drive_file_name(s: Seq<char>, separator: char, name: Seq<char>)
    requires
        on_a_drive(s),
        separator == '\\' || separator == '/',
        forall|i: int| 0 <= i < name.len() ==> #[trigger] name[i] != '/' && name[i] != '\\',
    ensures
        file_name(PathStyle::Windows, s.push(separator) + name) == if name.len() == 0 || name
            == seq!['.'] {
            file_name(PathStyle::Windows, s)
        } else if name == seq!['.', '.'] {
            None
        } else {
            Some(name)
        },
        file_name(PathStyle::Windows, s.take(2) + name) == if name.len() == 0 || name == seq!['.']
            || name == seq!['.', '.'] {
            None
        } else {
            Some(name)
        },
{
    let style = PathStyle::Windows;
    let path = s.push(separator) + name;
    let bare = s.take(2) + name;
    assert(here::<char>() == seq!['.']);
    assert(up::<char>() == seq!['.', '.']);
    assert(here::<char>().len() == 1 && up::<char>().len() == 2);
    assert(bare[0] == s[0] && bare[1] == s[1] && path[0] == s[0] && path[1] == s[1]);
    let p = Prefix::Disk(s[0].upper());
    assert(prefix(style, s) == Some(p));
    assert(prefix(style, path) == Some(p));
    assert(prefix(style, bare) == Some(p));
    if name.len() > 0 {
        assert(bare[2] == name[0]);
    }
    assert(!rooted(style, bare));
    assert(bare.skip(2) == name);
    lemma_parts_start(style, bare, name);
    assert((lead(style, bare) + seq![part(name)]).last() == part(name));
    assert(lead(style, bare) + Seq::<Part<char>>::empty() == lead(style, bare));
    let before = parts(style, s);
    assert(before + Seq::<Part<char>>::empty() == before);
    assert((before + seq![part(name)]).last() == part(name));
    if s.len() > 2 {
        lemma_parts_grow(style, s, separator, name);
    } else {
        assert(path[2] == separator);
        assert(path.skip(3) == name);
        lemma_parts_start(style, path, name);
        assert((lead(style, path) + seq![part(name)]).last() == part(name));
        assert((lead(style, path) + Seq::<Part<char>>::empty()).last() is Root);
        lemma_nothing_named(Separators::Both, s.skip(2), dots(style, s));
        assert(parts(style, s) == lead(style, s));
    }
}

/// Whether a text starts with a drive in verbatim form and its root, such as `\\?\C:\`.
pub open spec fn on_a_verbatim_drive(s: Seq<u8>) -> bool {
    &&& s.len() >= 7
    &&& s[0] == '\\' as u8 && s[1] == '\\' as u8 && s[2] == '?' as u8 && s[3] == '\\' as u8
    &&& ('A' as u8 <= s[4] <= 'Z' as u8) || ('a' as u8 <= s[4] <= 'z' as u8)
    &&& s[5] == ':' as u8 && s[6] == '\\' as u8
}

/// A canonical Windows path on a drive lies at or below another one if and only if the drive is the
/// same, in whichever case its letter is written, and what follows the drive reads the same, or
/// starts with what follows the other drive and a `\`. Below the root of a drive lies all on it.
pub proof fn law_windows_path_lies_below(dir: Seq<u8>, path: Seq<u8>)
    requires
        on_a_verbatim_drive(dir),
        on_a_verbatim_drive(path),
        dir.len() > 7 ==> tidy('\\' as u8, dir.skip(7)) && (path.len() == 7 || tidy(
            '\\' as u8,
            path.skip(7),
        )),
    ensures
        within(PathStyle::Windows, dir, path) <==> (dir[4] == path[4] || dir[4] == path[4] + 32
            || path[4] == dir[4] + 32) && (dir.len() == 7 || path.skip(7) == dir.skip(7) || (
        dir.len() < path.len() && path.skip(7).take(dir.len() - 7) == dir.skip(7)
            && path[dir.len() as int] == '\\' as u8)),
{
    let style = PathStyle::Windows;
    let c = '\\' as u8;
    let seps = Separators::Backslash;
    let (a, b) = (dir.skip(7), path.skip(7));
    assert(only(seps, c));
    let l = seq![Part::<u8>::Prefix(Prefix::VerbatimDisk(dir[4].upper())), Part::Root];
    let m = seq![Part::<u8>::Prefix(Prefix::VerbatimDisk(path[4].upper())), Part::Root];
    assert(prefix(style, dir) == Some(Prefix::VerbatimDisk(dir[4].upper())));
    assert(prefix(style, path) == Some(Prefix::VerbatimDisk(path[4].upper())));
    assert(lead(style, dir) == l && lead(style, path) == m);
    assert(l == m <==> dir[4].upper() == path[4].upper()) by {
        assert(l[0] == m[0] <==> dir[4].upper() == path[4].upper());
    }
    let (p, q) = (
        named_parts(Dots::All, segments(seps, a)),
        named_parts(Dots::All, segments(seps, b)),
    );
    assert(parts(style, dir) == l + p);
    assert(parts(style, path) == m + q);
    lemma_same_lead(l, p, m, q);
    if dir.len() == 7 {
        lemma_nothing_named(seps, a, Dots::All);
    } else if path.len() == 7 {
        lemma_nothing_named(seps, b, Dots::All);
        lemma_tidy_names(seps, c, a, Dots::All);
        lemma_segments_not_empty(seps, a);
        assert(p.len() > 0);
    } else {
        lemma_tidy_prefix(seps, c, a, b, Dots::All);
        if a.len() < b.len() {
            assert(path[dir.len() as int] == b[a.len() as int]);
        }
    }
}

/// One path lies at or below another if and only if it starts with all the parts of the other. So
/// a path that lies below two others has one of them below the other.
pub proof fn law_below_is_by_all_parts(style: PathStyle, one: Seq<u8>, other: Seq<u8>, path: Seq<u8>)
    ensures
        within(style, one, path) <==> parts(style, one).len() <= parts(style, path).len() && parts(
            style,
            path,
        ).take(parts(style, one).len() as int) == parts(style, one),
        within(style, one, path) && within(style, other, path) ==> within(style, one, other)
            || within(style, other, one),
{
    let (x, y, z) = (parts(style, one), parts(style, other), parts(style, path));
    if within(style, one, path) && within(style, other, path) {
        assert(x == z.take(x.len() as int) && y == z.take(y.len() as int));
        if x.len() <= y.len() {
            assert(x == y.subrange(0, x.len() as int));
        } else {
            assert(y == x.subrange(0, y.len() as int));
        }
    }
}

/// What a POSIX path joined to a directory reads: an absolute path as it is, another one behind the
/// directory, with one `/` put between them unless the directory is empty or ends with one.
pub proof fn law_posix_join_reads(base: Seq<char>, rel: Seq<char>)
    ensures
        ({
            let path = join(PathStyle::Posix, base, rel);
            &&& rel.len() > 0 && rel[0] == '/' ==> path == rel
            &&& !(rel.len() > 0 && rel[0] == '/') ==> {
                &&& base.len() == 0 || base.last() == '/' ==> path == base + rel
                &&& base.len() > 0 && base.last() != '/' ==> path == base + seq!['/'] + rel
            }
        }),
{
    assert(base.push('/') + rel == base + seq!['/'] + rel);
    assert(base.len() == 0 ==> base + rel == rel);
}

/// What a name joined to a Windows path reads, unless the path is verbatim: the name stands behind
/// the path, with a `\` put between them unless the path is empty, ends with a separator, or is a
/// bare drive. A path that starts at a root keeps the drive, and only that.
pub proof fn law_windows_join_reads(base: Seq<char>, rel: Seq<char>)
    requires
        !(base.len() >= 4 && base[0] == '\\' && base[1] == '\\' && base[2] == '?' && base[3]
            == '\\'),
        !on_a_drive(rel),
        rel.len() < 2 || !(rel[0] == '/' || rel[0] == '\\') || !(rel[1] == '/' || rel[1] == '\\'),
    ensures
        ({
            let path = join(PathStyle::Windows, base, rel);
            let ends = base.len() == 0 || base.last() == '/' || base.last() == '\\' || (base.len()
                == 2 && on_a_drive(base));
            if rel.len() > 0 && (rel[0] == '/' || rel[0] == '\\') {
                on_a_drive(base) ==> path == base.take(2) + rel
            } else if ends {
                path == base + rel
            } else {
                path == base + seq!['\\'] + rel
            }
        }),
{
    assert(prefix(PathStyle::Windows, rel) is None);
    assert(!verbatim(PathStyle::Windows, base));
    assert(base.push('\\') + rel == base + seq!['\\'] + rel);
}

/// A verbatim path rendered from names reads as those names with a `\` between them.
proof fn lemma_rendered_names_read(raw: Seq<char>, p: Prefix<char>, segs: Seq<Seq<char>>)
    ensures
        rendered(
            raw,
            seq![Part::Prefix(p), Part::Root] + segs.map_values(
                |name: Seq<char>| Part::Name(name),
            ),
        ) == raw.push('\\') + glued('\\', segs),
    decreases segs.len(),
{
    let named = |name: Seq<char>| Part::<char>::Name(name);
    let start = seq![Part::Prefix(p), Part::Root];
    let ps = start + segs.map_values(named);
    if segs.len() == 0 {
        assert(ps == start);
        assert(start.drop_last() == seq![Part::<char>::Prefix(p)]);
        assert(rendered(raw, start.drop_last()) == raw);
        assert(start.last() is Root);
        assert(raw + seq!['\\'] == raw.push('\\') + Seq::<char>::empty());
    } else {
        let front = segs.drop_last();
        lemma_rendered_names_read(raw, p, front);
        assert(ps.drop_last() == start + front.map_values(named));
        assert(ps.last() == Part::Name(segs.last()));
        let before = rendered(raw, ps.drop_last());
        if segs.len() == 1 {
            assert(ps[ps.len() - 2] is Root);
            assert(front == Seq::<Seq<char>>::empty());
            assert(before + segs.last() == raw.push('\\') + glued('\\', segs));
        } else {
            assert(ps[ps.len() - 2] == named(segs[segs.len() - 2]));
            assert(before + seq!['\\'] + segs.last() == raw.push('\\') + (glued('\\', front).push(
                '\\',
            ) + segs.last()));
        }
    }
}

/// What a name joined to a verbatim path on a drive reads, where that path has no empty parts, `.`
/// and `..`: the path, a `\` and the name; and right behind the root of the drive, no second `\`.
pub proof fn law_verbatim_join_reads(base: Seq<char>, name: Seq<char>)
    requires
        base.len() >= 7,
        base[0] == '\\' && base[1] == '\\' && base[2] == '?' && base[3] == '\\',
        on_a_drive(base.skip(4)),
        base[6] == '\\',
        base.len() > 7 ==> tidy('\\', base.skip(7)),
        !on_a_drive(name),
        name.len() > 0,
        forall|i: int| 0 <= i < name.len() ==> #[trigger] name[i] != '/' && name[i] != '\\',
        name != seq!['.'],
        name != seq!['.', '.'],
    ensures
        join(PathStyle::Windows, base, name) == if base.len() == 7 {
            base + name
        } else {
            base + seq!['\\'] + name
        },
{
    let style = PathStyle::Windows;
    let seps = Separators::Backslash;
    let p = Prefix::VerbatimDisk(base[4].upper());
    let raw = base.take(6);
    let body = base.skip(7);
    assert(base.skip(4)[0] == base[4] && base.skip(4)[1] == base[5]);
    assert(prefix(style, base) == Some(p));
    assert(lead(style, base) == seq![Part::Prefix(p), Part::Root]);
    assert(here::<char>() == seq!['.']);
    assert(up::<char>() == seq!['.', '.']);
    assert(!Separators::Both.hold(name[0]));
    assert(plain_name(style, name));
    lemma_go_on_by_a_name(base, name);
    let named = |name: Seq<char>| Part::<char>::Name(name);
    let start = seq![Part::Prefix(p), Part::Root];
    let ps = parts(style, base);
    assert(join(style, base, name) == rendered(raw, ps.push(Part::Name(name))));
    assert(base == raw.push('\\') + body);
    if base.len() == 7 {
        lemma_nothing_named(seps, body, Dots::All);
        let segs = seq![name];
        assert(ps.push(Part::Name(name)) == start + segs.map_values(named));
        lemma_rendered_names_read(raw, p, segs);
        assert(base + name == raw.push('\\') + name);
    } else {
        lemma_tidy_names(seps, '\\', body, Dots::All);
        let before = segments(seps, body);
        let segs = before.push(name);
        lemma_segments_not_empty(seps, body);
        assert(ps == start + before.map_values(named));
        assert(ps.push(Part::Name(name)) == start + segs.map_values(named));
        lemma_rendered_names_read(raw, p, segs);
        assert(segs.drop_last() == before);
        lemma_glued_segments(seps, '\\', body);
        assert(raw.push('\\') + (body.push('\\') + name) == base + seq!['\\'] + name);
    }
}

/// A path that goes on with a separator and a name has that name.
proof fn lemma_name_follows(style: PathStyle, s: Seq<char>, c: char, name: Seq<char>)
    requires
        prefix(style, s.push(c) + name) == prefix(style, s),
        prefix_len(style, s) < s.len(),
        separators(style, s).hold(c),
        forall|i: int| 0 <= i < name.len() ==> !separators(style, s).hold(#[trigger] name[i]),
        name.len() > 0,
        name != seq!['.'],
        name != seq!['.', '.'],
    ensures
        file_name(style, s.push(c) + name) == Some(name),
{
    assert(here::<char>() == seq!['.']);
    assert(up::<char>() == seq!['.', '.']);
    lemma_parts_grow(style, s, c, name);
    assert((parts(style, s) + seq![part(name)]).last() == part(name));
}

/// The file name of a Windows path that does not start with two separators is what follows its last
/// separator, if that is a name.
pub proof fn law_windows_file_name(s: Seq<char>, separator: char, name: Seq<char>)
    requires
        s.len() > 0,
        !((s[0] == '/' || s[0] == '\\') && (s.len() == 1 || s[1] == '/' || s[1] == '\\')),
        s.len() == 2 ==> !on_a_drive(s),
        separator == '\\' || separator == '/',
        name.len() > 0,
        name != seq!['.'],
        name != seq!['.', '.'],
        forall|i: int| 0 <= i < name.len() ==> #[trigger] name[i] != '/' && name[i] != '\\',
    ensures
        file_name(PathStyle::Windows, s.push(separator) + name) == Some(name),
{
    let path = s.push(separator) + name;
    assert(path[0] == s[0]);
    if s.len() > 1 {
        assert(path[1] == s[1]);
    } else {
        assert(path[1] == separator);
    }
    lemma_prefix_fits(PathStyle::Windows, s);
    lemma_name_follows(PathStyle::Windows, s, separator, name);
}

/// The file name of a Windows path below the root of a drive in verbatim form is what follows its
/// last `\`, if that is a name.
pub proof fn law_verbatim_file_name(s: Seq<char>, name: Seq<char>)
    requires
        s.len() >= 7,
        s[0] == '\\' && s[1] == '\\' && s[2] == '?' && s[3] == '\\',
        on_a_drive(s.skip(4)),
        s[6] == '\\',
        name.len() > 0,
        name != seq!['.'],
        name != seq!['.', '.'],
        forall|i: int| 0 <= i < name.len() ==> #[trigger] name[i] != '\\',
    ensures
        file_name(PathStyle::Windows, s.push('\\') + name) == Some(name),
{
    let path = s.push('\\') + name;
    assert(s.skip(4)[0] == s[4] && s.skip(4)[1] == s[5]);
    assert forall|i: int| 0 <= i < 7 implies path[i] == s[i] by {}
    assert(prefix(PathStyle::Windows, s) == Some(Prefix::VerbatimDisk(s[4].upper())));
    assert(prefix(PathStyle::Windows, path) == Some(Prefix::VerbatimDisk(s[4].upper())));
    lemma_name_follows(PathStyle::Windows, s, '\\', name);
}

/// A piece ends where its first separator is.
proof fn lemma_piece_ends_at<A: PathUnit>(seps: Separators, s: Seq<A>, from: int, end: int)
    requires
        0 <= from <= end < s.len(),
        forall|i: int| from <= i < end ==> !seps.hold(#[trigger] s[i]),
        seps.hold(s[end]),
    ensures
        piece_end(seps, s, from) == end,
    decreases end - from,
{
    if from < end {
        assert(!seps.hold(s[from]));
        lemma_piece_ends_at(seps, s, from + 1, end);
    }
}

/// The file name of a Windows path on a share, such as `\\server\share\`, is what follows its last
/// separator, if that is a name.
pub proof fn law_share_file_name(
    server: Seq<char>,
    share: Seq<char>,
    rest: Seq<char>,
    separator: char,
    name: Seq<char>,
)
    requires
        server.len() > 0,
        share.len() > 0,
        server != seq!['.'],
        server != seq!['?'],
        forall|i: int| 0 <= i < server.len() ==> #[trigger] server[i] != '/' && server[i] != '\\',
        forall|i: int| 0 <= i < share.len() ==> #[trigger] share[i] != '/' && share[i] != '\\',
        separator == '\\' || separator == '/',
        name.len() > 0,
        name != seq!['.'],
        name != seq!['.', '.'],
        forall|i: int| 0 <= i < name.len() ==> #[trigger] name[i] != '/' && name[i] != '\\',
    ensures
        file_name(
            PathStyle::Windows,
            (seq!['\\', '\\'] + server + seq!['\\'] + share + seq!['\\'] + rest).push(separator)
                + name,
        ) == Some(name),
{
    let s = seq!['\\', '\\'] + server + seq!['\\'] + share + seq!['\\'] + rest;
    let path = s.push(separator) + name;
    lemma_share_prefix(server, share, seq!['\\'] + rest);
    lemma_share_prefix(server, share, (seq!['\\'] + rest).push(separator) + name);
    assert(s == seq!['\\', '\\'] + server + seq!['\\'] + share + (seq!['\\'] + rest));
    assert(path == seq!['\\', '\\'] + server + seq!['\\'] + share + ((seq!['\\'] + rest).push(
        separator,
    ) + name));
    lemma_name_follows(PathStyle::Windows, s, separator, name);
}

proof fn lemma_share_prefix(server: Seq<char>, share: Seq<char>, rest: Seq<char>)
    requires
        server.len() > 0,
        share.len() > 0,
        server != seq!['.'],
        server != seq!['?'],
        forall|i: int| 0 <= i < server.len() ==> #[trigger] server[i] != '/' && server[i] != '\\',
        forall|i: int| 0 <= i < share.len() ==> #[trigger] share[i] != '/' && share[i] != '\\',
        rest.len() > 0,
        rest[0] == '\\',
    ensures
        prefix(PathStyle::Windows, seq!['\\', '\\'] + server + seq!['\\'] + share + rest) == Some(
            Prefix::Unc(server, share),
        ),
{
    let s = seq!['\\', '\\'] + server + seq!['\\'] + share + rest;
    let both = Separators::Both;
    let (x, y) = ((2 + server.len()) as int, (3 + server.len() + share.len()) as int);
    assert forall|i: int| 2 <= i < x implies !both.hold(#[trigger] s[i]) by {
        assert(s[i] == server[i - 2]);
    }
    assert forall|i: int| x + 1 <= i < y implies !both.hold(#[trigger] s[i]) by {
        assert(s[i] == share[i - x - 1]);
    }
    assert(s[x] == '\\' && s[y] == '\\');
    lemma_piece_ends_at(both, s, 2, x);
    lemma_piece_ends_at(both, s, x + 1, y);
    assert(s.subrange(2, x) == server);
    assert(s.subrange(x + 1, y) == share);
    assert(s[2] == server[0]);
    if server.len() == 1 {
        assert(server == seq![server[0]]);
    } else {
        assert(s[3] == server[1]);
    }
}

/// The canonical path of something on a Windows share, such as `\\?\UNC\server\share\`.
pub open spec fn on_a_share(server: Seq<u8>, share: Seq<u8>, rest: Seq<u8>) -> Seq<u8> {
    seq![
        '\\' as u8,
        '\\' as u8,
        '?' as u8,
        '\\' as u8,
        'U' as u8,
        'N' as u8,
        'C' as u8,
        '\\' as u8,
    ] + server + seq!['\\' as u8] + share + seq!['\\' as u8] + rest
}

/// A canonical Windows path on a share lies at or below another one if and only if the server and
/// the share are the same and what follows them reads the same, or starts with what follows them
/// in the other and a `\`.
pub proof fn law_share_path_lies_below(
    server: Seq<u8>,
    share: Seq<u8>,
    dir: Seq<u8>,
    other_server: Seq<u8>,
    other_share: Seq<u8>,
    path: Seq<u8>,
)
    requires
        server.len() > 0,
        share.len() > 0,
        other_server.len() > 0,
        other_share.len() > 0,
        forall|i: int| 0 <= i < server.len() ==> #[trigger] server[i] != '\\' as u8,
        forall|i: int| 0 <= i < share.len() ==> #[trigger] share[i] != '\\' as u8,
        forall|i: int| 0 <= i < other_server.len() ==> #[trigger] other_server[i] != '\\' as u8,
        forall|i: int| 0 <= i < other_share.len() ==> #[trigger] other_share[i] != '\\' as u8,
        tidy('\\' as u8, dir),
        tidy('\\' as u8, path),
    ensures
        within(
            PathStyle::Windows,
            on_a_share(server, share, dir),
            on_a_share(other_server, other_share, path),
        ) <==> server == other_server && share == other_share && (path == dir || (dir.len()
            < path.len() && path.take(dir.len() as int) == dir && path[dir.len() as int]
            == '\\' as u8)),
{
    let style = PathStyle::Windows;
    let c = '\\' as u8;
    let seps = Separators::Backslash;
    let (s, t) = (on_a_share(server, share, dir), on_a_share(other_server, other_share, path));
    assert(only(seps, c));
    lemma_share_parts(server, share, dir);
    lemma_share_parts(other_server, other_share, path);
    let l = seq![Part::<u8>::Prefix(Prefix::VerbatimUnc(server, share)), Part::Root];
    let m = seq![Part::<u8>::Prefix(Prefix::VerbatimUnc(other_server, other_share)), Part::Root];
    let (p, q) = (
        named_parts(Dots::All, segments(seps, dir)),
        named_parts(Dots::All, segments(seps, path)),
    );
    assert(l == m <==> server == other_server && share == other_share) by {
        assert(l[0] == m[0] <==> server == other_server && share == other_share);
    }
    lemma_same_lead(l, p, m, q);
    lemma_tidy_prefix(seps, c, dir, path, Dots::All);
}

proof fn lemma_share_parts(server: Seq<u8>, share: Seq<u8>, rest: Seq<u8>)
    requires
        server.len() > 0,
        share.len() > 0,
        forall|i: int| 0 <= i < server.len() ==> #[trigger] server[i] != '\\' as u8,
        forall|i: int| 0 <= i < share.len() ==> #[trigger] share[i] != '\\' as u8,
    ensures
        parts(PathStyle::Windows, on_a_share(server, share, rest)) == seq![
            Part::<u8>::Prefix(Prefix::VerbatimUnc(server, share)),
            Part::Root,
        ] + named_parts(Dots::All, segments(Separators::Backslash, rest)),
{
    let style = PathStyle::Windows;
    let s = on_a_share(server, share, rest);
    let seps = Separators::Backslash;
    let (x, y) = ((8 + server.len()) as int, (9 + server.len() + share.len()) as int);
    assert forall|i: int| 8 <= i < x implies !seps.hold(#[trigger] s[i]) by {
        assert(s[i] == server[i - 8]);
    }
    assert forall|i: int| x + 1 <= i < y implies !seps.hold(#[trigger] s[i]) by {
        assert(s[i] == share[i - x - 1]);
    }
    assert(s[x] == '\\' as u8 && s[y] == '\\' as u8);
    lemma_piece_ends_at(seps, s, 8, x);
    lemma_piece_ends_at(seps, s, x + 1, y);
    assert(s.subrange(8, x) == server);
    assert(s.subrange(x + 1, y) == share);
    assert(prefix(style, s) == Some(Prefix::VerbatimUnc(server, share)));
    assert(prefix_len(style, s) == y);
    assert(rooted(style, s));
    assert(s.skip(y + 1) == rest);
    assert(lead(style, s) == seq![
        Part::<u8>::Prefix(Prefix::VerbatimUnc(server, share)),
        Part::Root,
    ]);
}

} // verus!
