//! Joining paths.

use crate::path::{
    body_start, components, dots, file_name, here, lead, lemma_body_parts, lemma_piece_end,
    lemma_prefix_fits, lemma_segments_extend, named_parts, next_piece, one_name, part, parts,
    piece, piece_end, plain_name, prefix, prefix_len, rooted, segments, separator_at, silent,
    start_of, up, verbatim, within, Component, Dots, Part, PathStyle, PathUnit, Prefix, PrefixAt,
    Separators,
};
use crate::text::chars_of;
use vstd::prelude::*;

verus! {

/// The parts `ps` of a verbatim path after going on by the part `p`: a verbatim path is kept free
/// of `.` and `..` that are joined to it.
pub open spec fn gone_on<A>(ps: Seq<Part<A>>, p: Part<A>) -> Seq<Part<A>> {
    match p {
        Part::Root => ps.take(1).push(Part::Root),
        Part::Here => ps,
        Part::Up => if ps.len() > 0 && ps.last() is Name {
            ps.drop_last()
        } else {
            ps
        },
        _ => ps.push(p),
    }
}

/// The parts `ps` of a verbatim path after going on by each of the parts `qs`.
pub open spec fn gone_on_by<A>(ps: Seq<Part<A>>, qs: Seq<Part<A>>) -> Seq<Part<A>>
    decreases qs.len(),
{
    if qs.len() == 0 {
        ps
    } else {
        gone_on(gone_on_by(ps, qs.drop_last()), qs.last())
    }
}

/// How a part behind the prefix is written in a Windows path.
pub open spec fn part_text<A: PathUnit>(p: Part<A>) -> Seq<A> {
    match p {
        Part::Name(name) => name,
        Part::Here => here(),
        Part::Up => up(),
        _ => seq![A::of('\\')],
    }
}

/// A Windows path of these parts, the first of which is a prefix written as `raw`.
pub open spec fn rendered<A: PathUnit>(raw: Seq<A>, ps: Seq<Part<A>>) -> Seq<A>
    decreases ps.len(),
{
    if ps.len() <= 1 {
        raw
    } else {
        let before = rendered(raw, ps.drop_last());
        if ps.last() is Root || ps[ps.len() - 2] is Root {
            before + part_text(ps.last())
        } else {
            before + seq![A::of('\\')] + part_text(ps.last())
        }
    }
}

/// Whether the Windows path `base` needs a separator before a name is joined to it. A bare drive
/// does not: `C:` and `name` make `C:name`.
pub open spec fn needs_separator<A: PathUnit>(base: Seq<A>) -> bool {
    &&& base.len() > 0
    &&& !Separators::Both.hold(base.last())
    &&& !(base.len() == 2 && prefix(PathStyle::Windows, base) matches Some(Prefix::Disk(_)))
}

/// The Windows path `rel` as seen from the directory `base`.
pub open spec fn windows_join<A: PathUnit>(base: Seq<A>, rel: Seq<A>) -> Seq<A> {
    let style = PathStyle::Windows;
    if prefix(style, rel) is Some {
        rel
    } else if verbatim(style, base) && rel.len() > 0 {
        rendered(
            base.take(prefix_len(style, base)),
            gone_on_by(parts(style, base), parts(style, rel)),
        )
    } else if rooted(style, rel) {
        base.take(prefix_len(style, base)) + rel
    } else if needs_separator(base) {
        base.push(A::of('\\')) + rel
    } else {
        base + rel
    }
}

/// The POSIX path `rel` as seen from the directory `base`.
pub open spec fn posix_join<A: PathUnit>(base: Seq<A>, rel: Seq<A>) -> Seq<A> {
    if rooted(PathStyle::Posix, rel) {
        rel
    } else if base.len() == 0 || base.last() == A::of('/') {
        base + rel
    } else {
        base.push(A::of('/')) + rel
    }
}

/// The path `rel` as seen from the directory `base`.
pub open spec fn join<A: PathUnit>(style: PathStyle, base: Seq<A>, rel: Seq<A>) -> Seq<A> {
    match style {
        PathStyle::Posix => posix_join(base, rel),
        PathStyle::Windows => windows_join(base, rel),
    }
}

/// A part of one of the two paths that are joined.
#[derive(Clone, Copy)]
struct Step {
    from_rel: bool,
    component: Component,
}

impl Step {
    spec fn fits(self, base: Seq<char>, rel: Seq<char>) -> bool {
        self.component.fits(if self.from_rel {
            rel.len()
        } else {
            base.len()
        })
    }

    spec fn of(self, base: Seq<char>, rel: Seq<char>) -> Part<char> {
        self.component.of(if self.from_rel {
            rel
        } else {
            base
        })
    }
}

spec fn all_fit(steps: Seq<Step>, base: Seq<char>, rel: Seq<char>) -> bool {
    forall|i: int| 0 <= i < steps.len() ==> (#[trigger] steps[i]).fits(base, rel)
}

spec fn parts_of(steps: Seq<Step>, base: Seq<char>, rel: Seq<char>) -> Seq<Part<char>> {
    steps.map_values(|step: Step| step.of(base, rel))
}

/// The parts of `base` after going on by those of `rel`.
fn steps_of(base: &[char], rel: &[char]) -> (steps: Vec<Step>)
    requires
        verbatim(PathStyle::Windows, base@),
    ensures
        steps@.len() > 0,
        all_fit(steps@, base@, rel@),
        parts_of(steps@, base@, rel@) == gone_on_by(
            parts(PathStyle::Windows, base@),
            parts(PathStyle::Windows, rel@),
        ),
{
    let style = PathStyle::Windows;
    let base_components = components(style, base);
    let rel_components = components(style, rel);
    let ghost ps = parts(style, base@);
    let ghost qs = parts(style, rel@);
    let mut steps: Vec<Step> = Vec::new();
    let mut i: usize = 0;
    while i < base_components.len()
        invariant
            i <= base_components@.len(),
            forall|k: int|
                0 <= k < base_components@.len() ==> (#[trigger] base_components@[k]).fits(
                    base@.len(),
                ),
            ps == base_components@.map_values(|c: Component| c.of(base@)),
            all_fit(steps@, base@, rel@),
            parts_of(steps@, base@, rel@) == ps.take(i as int),
        decreases base_components@.len() - i,
    {
        let ghost before = steps@;
        let step = Step { from_rel: false, component: base_components[i] };
        steps.push(step);
        assert(step.of(base@, rel@) == ps[i as int]);
        assert(parts_of(steps@, base@, rel@) == parts_of(before, base@, rel@).push(
            step.of(base@, rel@),
        ));
        assert(ps.take(i + 1) == ps.take(i as int).push(ps[i as int]));
        i = i + 1;
    }
    assert(ps.take(i as int) == ps);
    assert(qs.take(0) == Seq::<Part<char>>::empty());
    let mut j: usize = 0;
    while j < rel_components.len()
        invariant
            j <= rel_components@.len(),
            forall|k: int|
                0 <= k < rel_components@.len() ==> (#[trigger] rel_components@[k]).fits(
                    rel@.len(),
                ),
            qs == rel_components@.map_values(|c: Component| c.of(rel@)),
            all_fit(steps@, base@, rel@),
            parts_of(steps@, base@, rel@) == gone_on_by(ps, qs.take(j as int)),
            parts_of(steps@, base@, rel@).len() > 0,
            parts_of(steps@, base@, rel@)[0] is Prefix,
        decreases rel_components@.len() - j,
    {
        let ghost before = steps@;
        let ghost seen = parts_of(before, base@, rel@);
        let component = rel_components[j];
        let step = Step { from_rel: true, component };
        assert(step.of(base@, rel@) == qs[j as int]);
        assert(qs.take(j + 1).drop_last() == qs.take(j as int));
        assert(qs.take(j + 1).last() == qs[j as int]);
        match component {
            Component::Root => {
                if steps.len() > 1 {
                    steps.truncate(1);
                }
                let ghost cut = steps@;
                steps.push(step);
                assert(parts_of(cut, base@, rel@) == seen.take(1));
                assert(parts_of(steps@, base@, rel@) == seen.take(1).push(Part::Root));
                assert(seen.take(1)[0] == seen[0]);
            },
            Component::Here => {},
            Component::Up => {
                if steps.len() > 0 {
                    let last: usize = steps.len() - 1;
                    assert(seen.last() == steps@[last as int].of(base@, rel@));
                    let named = match steps[last].component {
                        Component::Name(_, _) => true,
                        _ => false,
                    };
                    if named {
                        steps.truncate(last);
                        assert(parts_of(steps@, base@, rel@) == seen.drop_last());
                    }
                }
            },
            _ => {
                steps.push(step);
                assert(parts_of(steps@, base@, rel@) == seen.push(step.of(base@, rel@)));
            },
        }
        j = j + 1;
    }
    assert(qs.take(j as int) == qs);
    steps
}

/// Joins `rel` to the verbatim path `base`.
fn join_verbatim(base: &str, rel: &str, prefix_end: usize) -> (path: String)
    requires
        verbatim(PathStyle::Windows, base@),
        prefix_end == prefix_len(PathStyle::Windows, base@),
        prefix_end <= base@.len(),
    ensures
        path@ == rendered(
            base@.take(prefix_end as int),
            gone_on_by(parts(PathStyle::Windows, base@), parts(PathStyle::Windows, rel@)),
        ),
{
    let base_chars = chars_of(base);
    let rel_chars = chars_of(rel);
    let steps = steps_of(base_chars.as_slice(), rel_chars.as_slice());
    let ghost ps = parts_of(steps@, base@, rel@);
    let ghost raw = base@.take(prefix_end as int);
    let mut path = base.substring_char(0, prefix_end).to_owned();
    proof {
        reveal_strlit("\\");
        reveal_strlit(".");
        reveal_strlit("..");
        assert("\\"@ == seq!['\\']);
        assert("."@ == here::<char>());
        assert(".."@ == up::<char>());
    }
    let mut i: usize = 1;
    assert(path@ == raw);
    assert(ps.take(1).len() == 1);
    while i < steps.len()
        invariant
            1 <= i <= steps@.len(),
            all_fit(steps@, base@, rel@),
            ps == parts_of(steps@, base@, rel@),
            "\\"@ == seq!['\\'],
            "."@ == here::<char>(),
            ".."@ == up::<char>(),
            path@ == rendered(raw, ps.take(i as int)),
        decreases steps@.len() - i,
    {
        let step = steps[i];
        assert(steps@[i as int].fits(base@, rel@));
        let ghost p = ps[i as int];
        assert(p == step.of(base@, rel@));
        assert(ps.take(i + 1).drop_last() == ps.take(i as int));
        let after_root = match steps[i - 1].component {
            Component::Root => true,
            _ => false,
        };
        let at_root = match step.component {
            Component::Root => true,
            _ => false,
        };
        assert(ps[i - 1] == steps@[i - 1].of(base@, rel@));
        assert(after_root == (ps.take(i + 1)[i - 1] is Root));
        let ghost before = path@;
        if !after_root && !at_root {
            path.append("\\");
        }
        let ghost spaced = path@;
        match step.component {
            Component::Name(from, to) => {
                if step.from_rel {
                    path.append(rel.substring_char(from, to));
                } else {
                    path.append(base.substring_char(from, to));
                }
            },
            Component::Here => path.append("."),
            Component::Up => path.append(".."),
            _ => path.append("\\"),
        }
        assert(path@ == spaced + part_text(p));
        i = i + 1;
    }
    assert(ps.take(i as int) == ps);
    path
}

/// The path `rel` as seen from the directory `base`.
pub fn join_text(style: PathStyle, base: &str, rel: &str) -> (path: String)
    ensures
        path@ == join(style, base@, rel@),
{
    let base_chars = chars_of(base);
    let rel_chars = chars_of(rel);
    let base_start = start_of(style, base_chars.as_slice());
    let rel_start = start_of(style, rel_chars.as_slice());
    let count: usize = base_chars.len();
    let windows = match style {
        PathStyle::Posix => false,
        PathStyle::Windows => true,
    };
    if rel_start.prefix.is_some() || (rel_start.rooted && !windows) {
        return rel.to_owned();
    }
    if base_start.verbatim && rel_chars.len() > 0 {
        return join_verbatim(base, rel, base_start.prefix_len);
    }
    if rel_start.rooted {
        let mut path = base.substring_char(0, base_start.prefix_len).to_owned();
        path.append(rel);
        return path;
    }
    proof {
        reveal_strlit("/");
        reveal_strlit("\\");
        assert(base@ + "/"@ == base@.push('/'));
        assert(base@ + "\\"@ == base@.push('\\'));
    }
    let mut path = base.to_owned();
    if windows {
        let bare_drive = match base_start.prefix {
            Some(PrefixAt::Disk(_)) => count == 2,
            _ => false,
        };
        if count > 0 && !bare_drive && !base_chars[count - 1].stands_for('/') && !base_chars[count
            - 1].stands_for('\\') {
            path.append("\\");
        }
    } else if count > 0 && !base_chars[count - 1].stands_for('/') {
        path.append("/");
    }
    path.append(rel);
    path
}

/// The directory below `data_root` that holds the backups.
pub fn backups_dir(style: PathStyle, data_root: &str) -> (dir: String)
    ensures
        dir@ == join(style, data_root@, "backups"@),
{
    join_text(style, data_root, "backups")
}

/// Whether joining `name` to the path `base` leaves the prefix and the root as they are. With
/// POSIX paths it always does. A Windows path that ends within what could be a prefix may get
/// another one: `\\server` and `share` make `\\server\share`.
pub open spec fn joins_below<A: PathUnit>(style: PathStyle, base: Seq<A>, name: Seq<A>) -> bool {
    lead(style, join(style, base, name)) == lead(style, base)
}

/// A plain name is a path of that one part.
proof fn lemma_plain_name_is_one_part<A: PathUnit>(style: PathStyle, name: Seq<A>)
    requires
        plain_name(style, name),
    ensures
        !rooted(style, name),
        parts(style, name) == seq![Part::Name(name)],
{
    let seps = style.separators();
    assert(!seps.hold(name[0]));
    assert(name.skip(0) == name);
    lemma_segments_extend(seps, Seq::empty(), name);
    assert(Seq::<A>::empty() + name == name);
    assert(segments(seps, name) == seq![name]);
    assert(seq![name].drop_last() == Seq::<Seq<A>>::empty());
    assert(named_parts(dots(style, name), Seq::<Seq<A>>::empty()) == Seq::<Part<A>>::empty());
    assert(parts(style, name) == seq![Part::Name(name)]);
}

/// A name that stands apart at the end of the names of a path is one more part.
proof fn lemma_names_grow<A: PathUnit>(
    seps: Separators,
    kept: Dots,
    names: Seq<A>,
    mid: Seq<A>,
    name: Seq<A>,
)
    requires
        one_name(seps, name),
        if mid.len() == 0 {
            names.len() == 0 || seps.hold(names.last())
        } else {
            mid.len() == 1 && seps.hold(mid[0])
        },
    ensures
        named_parts(kept, segments(seps, names + mid + name)) == named_parts(
            kept,
            segments(seps, names),
        ).push(Part::Name(name)),
{
    lemma_segments_extend(seps, names + mid, name);
    assert(Seq::<A>::empty() + name == name);
    let all = segments(seps, names + mid + name);
    if mid.len() == 1 {
        assert((names + mid).drop_last() == names);
        assert(segments(seps, names + mid).drop_last() == segments(seps, names));
        assert(all.drop_last() == segments(seps, names));
    } else {
        assert(names + mid == names);
        if names.len() == 0 {
            assert(all.drop_last() == Seq::<Seq<A>>::empty());
            reveal_with_fuel(named_parts, 2);
            assert(segments(seps, names).drop_last() == Seq::<Seq<A>>::empty());
        } else {
            let before = segments(seps, names.drop_last());
            assert(segments(seps, names).drop_last() == before);
            assert(all.drop_last() == before);
        }
    }
}

/// Parts that can stand behind the lead of a verbatim path.
spec fn verbatim_names<A: PathUnit>(ps: Seq<Part<A>>) -> bool {
    forall|i: int|
        0 <= i < ps.len() ==> match #[trigger] ps[i] {
            Part::Name(name) => one_name(Separators::Backslash, name),
            Part::Here => true,
            Part::Up => true,
            _ => false,
        }
}

/// The names of a rendered path are the parts that it was rendered from.
proof fn lemma_rendered_names<A: PathUnit>(raw: Seq<A>, p: Prefix<A>, ps: Seq<Part<A>>)
    requires
        verbatim_names(ps),
    ensures
        ({
            let path = rendered(raw, seq![Part::Prefix(p), Part::Root] + ps);
            let names = path.skip((raw.len() + 1) as int);
            &&& path.len() >= raw.len() + 1
            &&& path.take(raw.len() as int) == raw
            &&& path[raw.len() as int] == A::of('\\')
            &&& named_parts(Dots::All, segments(Separators::Backslash, names)) == ps
            &&& ps.len() == 0 <==> names.len() == 0
        }),
    decreases ps.len(),
{
    let only = Separators::Backslash;
    let full = seq![Part::Prefix(p), Part::Root] + ps;
    let path = rendered(raw, full);
    if ps.len() == 0 {
        assert(full.drop_last() == seq![Part::<A>::Prefix(p)]);
        assert(full.last() is Root);
        assert(rendered(raw, full.drop_last()) == raw);
        assert(path == raw + seq![A::of('\\')]);
        assert(path.take(raw.len() as int) == raw);
        assert(path.skip((raw.len() + 1) as int) == Seq::<A>::empty());
        reveal_with_fuel(named_parts, 2);
        assert(segments(only, Seq::<A>::empty()).drop_last() == Seq::<Seq<A>>::empty());
        assert(named_parts(Dots::All, segments(only, Seq::<A>::empty())) == ps);
    } else {
        let front = ps.drop_last();
        let last = ps.last();
        assert forall|i: int| 0 <= i < front.len() implies match #[trigger] front[i] {
            Part::Name(name) => one_name(Separators::Backslash, name),
            Part::Here => true,
            Part::Up => true,
            _ => false,
        } by {
            assert(front[i] == ps[i]);
        }
        lemma_rendered_names(raw, p, front);
        let before = rendered(raw, seq![Part::Prefix(p), Part::Root] + front);
        assert(full.drop_last() == seq![Part::Prefix(p), Part::Root] + front);
        assert(full.last() == last);
        assert(ps[ps.len() - 1] == last);
        let names = before.skip((raw.len() + 1) as int);
        let text = part_text(last);
        A::lemma_units_differ();
        assert(forall|i: int| 0 <= i < text.len() ==> !only.hold(#[trigger] text[i]));
        assert(text.len() > 0);
        assert(here::<A>().len() == 1 && up::<A>().len() == 2);
        assert(part(text) == last);
        assert(!silent(text, true));
        let mid = if front.len() == 0 {
            Seq::<A>::empty()
        } else {
            seq![A::of('\\')]
        };
        if front.len() == 0 {
            assert(full[full.len() - 2] is Root);
            assert(path == before + text);
            assert(before + text == before + mid + text);
        } else {
            assert(full[full.len() - 2] == front.last());
            assert(front.last() == front[front.len() - 1]);
            assert(!(full[full.len() - 2] is Root));
            assert(path == before + mid + text);
        }
        assert(path.skip((raw.len() + 1) as int) == names + mid + text);
        assert(path.take(raw.len() as int) == before.take(raw.len() as int));
        assert(path[raw.len() as int] == before[raw.len() as int]);
        lemma_segments_extend(only, names + mid, text);
        assert(Seq::<A>::empty() + text == text);
        let all = segments(only, names + mid + text);
        if front.len() == 0 {
            assert(names + mid == names);
            assert(all == seq![text]);
            assert(all.drop_last() == Seq::<Seq<A>>::empty());
            assert(named_parts(Dots::All, all.drop_last()) == front);
        } else {
            assert((names + mid).drop_last() == names);
            assert(segments(only, names + mid).drop_last() == segments(only, names));
            assert(all.drop_last() == segments(only, names));
        }
        assert(named_parts(Dots::All, all) == front.push(last));
        assert(front.push(last) == ps);
    }
}

proof fn lemma_rendered_starts_with_raw<A: PathUnit>(raw: Seq<A>, ps: Seq<Part<A>>)
    ensures
        rendered(raw, ps).len() >= raw.len(),
        rendered(raw, ps).take(raw.len() as int) == raw,
        ps.len() >= 2 && !(ps[0] is Root) ==> rendered(raw, ps).len() > raw.len() && rendered(
            raw,
            ps,
        )[raw.len() as int] == A::of('\\'),
    decreases ps.len(),
{
    let path = rendered(raw, ps);
    if ps.len() <= 1 {
        assert(raw.take(raw.len() as int) == raw);
    } else {
        lemma_rendered_starts_with_raw(raw, ps.drop_last());
        let before = rendered(raw, ps.drop_last());
        assert(path.take(raw.len() as int) == before.take(raw.len() as int));
        if ps.len() > 2 {
            assert(ps.drop_last()[0] == ps[0]);
            if !(ps[0] is Root) {
                assert(path[raw.len() as int] == before[raw.len() as int]);
            }
        } else {
            assert(ps[ps.len() - 2] == ps[0]);
        }
    }
}

/// Going on by a plain name puts that name behind the parts.
pub proof fn lemma_go_on_by_a_name<A: PathUnit>(base: Seq<A>, name: Seq<A>)
    requires
        plain_name(PathStyle::Windows, name),
    ensures
        gone_on_by(parts(PathStyle::Windows, base), parts(PathStyle::Windows, name)) == parts(
            PathStyle::Windows,
            base,
        ).push(Part::Name(name)),
{
    let ps = parts(PathStyle::Windows, base);
    let qs = parts(PathStyle::Windows, name);
    lemma_plain_name_is_one_part(PathStyle::Windows, name);
    assert(qs.drop_last() == Seq::<Part<A>>::empty());
    assert(gone_on_by(ps, qs.drop_last()) == ps);
}

/// Joining a name to a verbatim path.
proof fn lemma_join_verbatim<A: PathUnit>(base: Seq<A>, name: Seq<A>)
    requires
        plain_name(PathStyle::Windows, name),
        verbatim(PathStyle::Windows, base),
        joins_below(PathStyle::Windows, base, name),
    ensures
        parts(PathStyle::Windows, join(PathStyle::Windows, base, name)) == parts(
            PathStyle::Windows,
            base,
        ).push(Part::Name(name)),
{
    let style = PathStyle::Windows;
    let path = join(style, base, name);
    let p = prefix(style, base)->Some_0;
    let raw = base.take(prefix_len(style, base));
    lemma_prefix_fits(style, base);
    lemma_prefix_fits(style, path);
    lemma_plain_name_is_one_part(style, name);
    let ps = parts(style, base);
    lemma_go_on_by_a_name(base, name);
    assert(path == rendered(raw, ps.push(Part::Name(name))));
    assert(lead(style, path)[0] == lead(style, base)[0]);
    assert(prefix(style, path) == Some(p));
    lemma_rendered_starts_with_raw(raw, ps.push(Part::Name(name)));
    assert(ps[0] == lead(style, base)[0]);
    assert(rooted(style, path));
    assert(lead(style, path) == seq![Part::Prefix(p), Part::Root]);
    let names = ps.skip(2);
    let grown = names.push(Part::Name(name));
    assert(ps == lead(style, base) + names);
    assert forall|i: int| 0 <= i < grown.len() implies match #[trigger] grown[i] {
        Part::Name(name) => one_name(Separators::Backslash, name),
        Part::Here => true,
        Part::Up => true,
        _ => false,
    } by {
        if i < names.len() {
            lemma_body_parts(style, base, i + 2);
            assert(grown[i] == ps[i + 2]);
        } else {
            assert(grown[i] == Part::Name(name));
        }
    }
    assert(ps.push(Part::Name(name)) == seq![Part::Prefix(p), Part::Root] + grown);
    lemma_rendered_names(raw, p, grown);
    assert(parts(style, path) == ps.push(Part::Name(name)));
}

/// Joining a plain name to a path puts that name behind the parts of the path.
pub proof fn law_join_adds_one_part<A: PathUnit>(style: PathStyle, base: Seq<A>, name: Seq<A>)
    requires
        plain_name(style, name),
        style == PathStyle::Windows ==> joins_below(style, base, name),
    ensures
        parts(style, join(style, base, name)) == parts(style, base).push(Part::Name(name)),
        file_name(style, join(style, base, name)) == Some(name),
        within(style, base, join(style, base, name)),
{
    let path = join(style, base, name);
    if verbatim(style, base) {
        lemma_join_verbatim(base, name);
    } else {
        lemma_join_plainly(style, base, name);
    }
    assert(parts(style, base) == parts(style, path).subrange(0, parts(style, base).len() as int));
}

/// Joining a name to a path that is not verbatim.
proof fn lemma_join_plainly<A: PathUnit>(style: PathStyle, base: Seq<A>, name: Seq<A>)
    requires
        plain_name(style, name),
        !verbatim(style, base),
        style == PathStyle::Windows ==> joins_below(style, base, name),
    ensures
        parts(style, join(style, base, name)) == parts(style, base).push(Part::Name(name)),
{
    let path = join(style, base, name);
    let seps = style.separators();
    lemma_prefix_fits(style, base);
    lemma_plain_name_is_one_part(style, name);
    let n = prefix_len(style, base);
    let apart = if style == PathStyle::Posix {
        base.len() > 0 && base.last() != A::of('/')
    } else {
        needs_separator(base)
    };
    let mid = if !apart {
        Seq::<A>::empty()
    } else if style == PathStyle::Posix {
        seq![A::of('/')]
    } else {
        seq![A::of('\\')]
    };
    assert(base + Seq::<A>::empty() == base);
    assert(path == base + mid + name);
    assert(!seps.hold(name[0]));
    if style == PathStyle::Windows {
        let (l, m) = (lead(style, path), lead(style, base));
        if prefix(style, base) is Some {
            assert(l[0] == m[0]);
        } else if prefix(style, path) is Some {
            assert(l[0] == m[0]);
        }
        assert(prefix(style, path) == prefix(style, base));
    }
    assert(prefix_len(style, path) == n);
    let names = base.skip(body_start(style, base));
    if n == base.len() {
        assert(names == Seq::<A>::empty());
        assert(path[n] == (mid + name)[0]);
        assert(rooted(style, path) == (mid.len() > 0));
        assert(path.skip(body_start(style, path)) == name);
        lemma_names_grow(seps, dots(style, path), names, Seq::empty(), name);
        assert(names + Seq::<A>::empty() + name == name);
        reveal_with_fuel(named_parts, 2);
        assert(segments(seps, names).drop_last() == Seq::<Seq<A>>::empty());
        assert(named_parts(dots(style, path), segments(seps, names)) == Seq::<Part<A>>::empty());
        assert(named_parts(dots(style, base), segments(seps, names)) == Seq::<Part<A>>::empty());
    } else {
        assert(path[n] == base[n]);
        assert(rooted(style, path) == rooted(style, base));
        assert(path.skip(body_start(style, path)) == names + mid + name);
        if names.len() > 0 {
            assert(names.last() == base.last());
        } else {
            assert(base.last() == base[n]);
        }
        lemma_names_grow(seps, dots(style, path), names, mid, name);
    }
    if style == PathStyle::Posix {
        assert(lead(style, path) == lead(style, base)) by {
            if base.len() == 0 {
                assert(path == name);
            }
        }
    }
    assert(parts(style, path) == parts(style, base).push(Part::Name(name)));
}

/// The backup directory is the entry `backups` of the data directory, and its file name says so.
pub proof fn law_backups_dir(style: PathStyle, data_root: Seq<char>)
    requires
        style == PathStyle::Windows ==> joins_below(style, data_root, "backups"@),
    ensures
        parts(style, join(style, data_root, "backups"@)) == parts(style, data_root).push(
            Part::Name("backups"@),
        ),
        file_name(style, join(style, data_root, "backups"@)) == Some("backups"@),
        within(style, data_root, join(style, data_root, "backups"@)),
{
    reveal_strlit("backups");
    assert(here::<char>().len() == 1 && up::<char>().len() == 2);
    assert("backups"@[0] == 'b' && "backups"@[1] == 'a');
    law_join_adds_one_part(style, data_root, "backups"@);
}

/// A piece ends at the same place in a path that goes on, where it ended before a separator or a
/// separator comes next.
proof fn lemma_piece_end_stays<A: PathUnit>(seps: Separators, s: Seq<A>, t: Seq<A>, from: int)
    requires
        0 <= from <= s.len() < t.len(),
        t.take(s.len() as int) == s,
        piece_end(seps, s, from) < s.len() || seps.hold(t[s.len() as int]),
    ensures
        piece_end(seps, t, from) == piece_end(seps, s, from),
        from <= piece_end(seps, s, from) <= s.len(),
        piece(seps, t, from) == piece(seps, s, from),
    decreases s.len() - from,
{
    lemma_piece_end(seps, s, from);
    if from < s.len() {
        assert(t.take(s.len() as int)[from] == t[from]);
        if !seps.hold(s[from]) {
            lemma_piece_end_stays(seps, s, t, from + 1);
        }
    }
    let end = piece_end(seps, s, from);
    assert(t.subrange(from, end) == t.take(s.len() as int).subrange(from, end));
}

/// A piece ends at the same place in the start of a path, where that start holds all of it.
proof fn lemma_piece_end_within<A: PathUnit>(seps: Separators, t: Seq<A>, s: Seq<A>, from: int)
    requires
        0 <= from <= s.len() <= t.len(),
        t.take(s.len() as int) == s,
        piece_end(seps, t, from) <= s.len(),
    ensures
        piece_end(seps, s, from) == piece_end(seps, t, from),
    decreases s.len() - from,
{
    if from < s.len() {
        assert(t.take(s.len() as int)[from] == t[from]);
        if !seps.hold(s[from]) {
            lemma_piece_end_within(seps, t, s, from + 1);
        }
    } else if from < t.len() && !seps.hold(t[from]) {
        lemma_piece_end(seps, t, from + 1);
    }
}

/// A piece holds no separator.
proof fn lemma_piece_holds_no_separator<A: PathUnit>(
    seps: Separators,
    s: Seq<A>,
    from: int,
    i: int,
)
    requires
        0 <= from <= i < piece_end(seps, s, from),
    ensures
        i < s.len(),
        !seps.hold(s[i]),
    decreases i - from,
{
    if from < s.len() && from < i {
        lemma_piece_holds_no_separator(seps, s, from + 1, i);
    }
}

/// The paths on a Windows share take a name below them: those that start with the share itself,
/// and those below its root in verbatim form, which is the canonical one.
pub proof fn law_share_paths_join_below<A: PathUnit>(base: Seq<A>, name: Seq<A>)
    requires
        plain_name(PathStyle::Windows, name),
        match prefix(PathStyle::Windows, base) {
            Some(Prefix::Unc(_, _)) => true,
            Some(Prefix::VerbatimUnc(_, share)) => share.len() > 0 && rooted(
                PathStyle::Windows,
                base,
            ),
            _ => false,
        },
    ensures
        joins_below(PathStyle::Windows, base, name),
{
    let style = PathStyle::Windows;
    let path = join(style, base, name);
    lemma_prefix_fits(style, base);
    lemma_plain_name_is_one_part(style, name);
    if verbatim(style, base) {
        let only = Separators::Backslash;
        let n = prefix_len(style, base);
        let raw = base.take(n);
        let ps = parts(style, base);
        lemma_go_on_by_a_name(base, name);
        assert(ps[0] == lead(style, base)[0]);
        lemma_rendered_starts_with_raw(raw, ps.push(Part::Name(name)));
        assert(path == rendered(raw, ps.push(Part::Name(name))));
        assert(path[n] == A::of('\\'));
        lemma_piece_end(only, base, 8);
        let next = next_piece(only, base, 8);
        lemma_piece_end(only, base, next);
        assert(piece_end(only, base, next) == n);
        assert(only.hold(base[n]));
        lemma_piece_end_within(only, base, raw, 8);
        lemma_piece_end_within(only, base, raw, next);
        lemma_piece_end_stays(only, raw, path, 8);
        lemma_piece_end_stays(only, raw, path, next);
        lemma_piece_end_stays(only, raw, base, 8);
        lemma_piece_end_stays(only, raw, base, next);
        assert forall|i: int| 0 <= i < 8 implies path[i] == base[i] by {
            assert(path.take(n)[i] == raw[i]);
        }
        assert(prefix(style, path) == prefix(style, base));
    } else {
        let both = Separators::Both;
        let next = next_piece(both, base, 2);
        lemma_piece_end(both, base, 2);
        lemma_piece_end(both, base, next);
        assert(path.take(base.len() as int) == base);
        if both.hold(base.last()) {
            if piece_end(both, base, next) == base.len() {
                lemma_piece_holds_no_separator(both, base, next, base.len() - 1);
            }
        } else {
            assert(path[base.len() as int] == A::of('\\'));
        }
        lemma_piece_end_stays(both, base, path, 2);
        lemma_piece_end_stays(both, base, path, next);
        assert forall|i: int| 0 <= i < 4 implies path[i] == base[i] by {
            assert(path.take(base.len() as int)[i] == base[i]);
        }
        assert(prefix(style, path) == prefix(style, base));
    }
}

/// The usual Windows paths take a name below them: a path on a drive, a path without a drive that
/// does not start with two separators, and a verbatim path from the root of a drive on, which is
/// the canonical form.
pub proof fn law_usual_paths_join_below<A: PathUnit>(base: Seq<A>, name: Seq<A>)
    requires
        plain_name(PathStyle::Windows, name),
        match prefix(PathStyle::Windows, base) {
            Some(Prefix::Disk(_)) => true,
            Some(Prefix::VerbatimDisk(_)) => rooted(PathStyle::Windows, base),
            Some(_) => false,
            None => !(separator_at(base, 0) && separator_at(base, 1)),
        },
    ensures
        joins_below(PathStyle::Windows, base, name),
{
    let style = PathStyle::Windows;
    let path = join(style, base, name);
    A::lemma_units_differ();
    lemma_prefix_fits(style, base);
    lemma_plain_name_is_one_part(style, name);
    assert(!Separators::Both.hold(name[0]));
    if verbatim(style, base) {
        let raw = base.take(6);
        let ps = parts(style, base);
        lemma_go_on_by_a_name(base, name);
        assert(ps[0] == lead(style, base)[0]);
        lemma_rendered_starts_with_raw(raw, ps.push(Part::Name(name)));
        assert forall|i: int| 0 <= i < 6 implies path[i] == base[i] by {
            assert(path.take(6)[i] == raw[i]);
        }
        assert(path[6] == A::of('\\'));
        assert(prefix(style, path) == prefix(style, base));
    } else {
        assert(path == base + name || path == base.push(A::of('\\')) + name);
        if base.len() == 0 {
            assert(path == name);
        } else {
            assert(path[0] == base[0]);
            if base.len() >= 2 {
                assert(path[1] == base[1]);
                if base.len() >= 3 {
                    assert(path[2] == base[2]);
                }
            } else if Separators::Both.hold(base[0]) {
                assert(path[1] == name[0]);
            } else {
                assert(path[1] == A::of('\\'));
            }
        }
    }
}

} // verus!
