//! Paths: how a path falls into parts, what its file name is, and when one path lies within
//! another.
//!
//! A path is written in the syntax of the platform that the server runs on. The same grammar is
//! used on text (`char`) and on the raw bytes that a file system hands back (`u8`).

use crate::text::chars_of;
use vstd::prelude::*;

verus! {

/// The syntax that paths are written in.
#[derive(Debug, Clone, Copy, PartialEq, Eq, Structural)]
pub enum PathStyle {
    /// Parts are separated by `/`, and an absolute path starts with one.
    Posix,
    /// Parts are separated by `\` or `/`, and a path may start with a prefix, such as a drive.
    Windows,
}

/// A unit that paths are written in.
pub trait PathUnit: Copy {
    /// The unit that stands for an ASCII character.
    spec fn of(c: char) -> Self;

    /// Whether the unit is an ASCII letter.
    spec fn letter(self) -> bool;

    /// The unit in upper case, where it is an ASCII letter.
    spec fn upper(self) -> Self;

    fn stands_for(self, c: char) -> (r: bool)
        requires
            c <= '\u{7f}',
        ensures
            r == (self == Self::of(c)),
    ;

    fn is_letter(self) -> (r: bool)
        ensures
            r == self.letter(),
    ;

    proof fn lemma_units_differ()
        ensures
            Self::of(':') != Self::of('N'),
            Self::of('.') != Self::of('/'),
            Self::of('.') != Self::of('\\'),
            Self::of(':') != Self::of('/'),
            Self::of(':') != Self::of('\\'),
            !Self::of('/').letter(),
            !Self::of('\\').letter(),
    ;
}

impl PathUnit for u8 {
    open spec fn of(c: char) -> u8 {
        c as u8
    }

    open spec fn letter(self) -> bool {
        65 <= self <= 90 || 97 <= self <= 122
    }

    open spec fn upper(self) -> u8 {
        if 97 <= self <= 122 {
            (self - 32) as u8
        } else {
            self
        }
    }

    fn stands_for(self, c: char) -> (r: bool) {
        self == c as u8
    }

    fn is_letter(self) -> (r: bool) {
        (65 <= self && self <= 90) || (97 <= self && self <= 122)
    }

    proof fn lemma_units_differ() {
    }
}

impl PathUnit for char {
    open spec fn of(c: char) -> char {
        c
    }

    open spec fn letter(self) -> bool {
        'A' <= self <= 'Z' || 'a' <= self <= 'z'
    }

    open spec fn upper(self) -> char {
        if 'a' <= self <= 'z' {
            (self as u32 - 32) as char
        } else {
            self
        }
    }

    fn stands_for(self, c: char) -> (r: bool) {
        self == c
    }

    fn is_letter(self) -> (r: bool) {
        ('A' <= self && self <= 'Z') || ('a' <= self && self <= 'z')
    }

    proof fn lemma_units_differ() {
    }
}

/// Which units separate parts.
#[derive(Debug, Clone, Copy, PartialEq, Eq, Structural)]
pub enum Separators {
    Slash,
    Backslash,
    Both,
}

impl Separators {
    /// Whether `a` separates parts.
    pub open spec fn hold<A: PathUnit>(self, a: A) -> bool {
        match self {
            Separators::Slash => a == A::of('/'),
            Separators::Backslash => a == A::of('\\'),
            Separators::Both => a == A::of('/') || a == A::of('\\'),
        }
    }

    fn has<A: PathUnit>(self, a: A) -> (r: bool)
        ensures
            r == self.hold(a),
    {
        match self {
            Separators::Slash => a.stands_for('/'),
            Separators::Backslash => a.stands_for('\\'),
            Separators::Both => a.stands_for('/') || a.stands_for('\\'),
        }
    }
}

impl PathStyle {
    /// The units that separate parts, except in verbatim paths.
    pub open spec fn separators(self) -> Separators {
        match self {
            PathStyle::Posix => Separators::Slash,
            PathStyle::Windows => Separators::Both,
        }
    }

    fn separators_of(self) -> (r: Separators)
        ensures
            r == self.separators(),
    {
        match self {
            PathStyle::Posix => Separators::Slash,
            PathStyle::Windows => Separators::Both,
        }
    }
}

/// The prefix of a Windows path.
pub enum Prefix<A> {
    /// `C:`.
    Disk(A),
    /// `\\server\share`.
    Unc(Seq<A>, Seq<A>),
    /// `\\.\name`.
    Device(Seq<A>),
    /// `\\?\name`.
    Verbatim(Seq<A>),
    /// `\\?\C:`.
    VerbatimDisk(A),
    /// `\\?\UNC\server\share`.
    VerbatimUnc(Seq<A>, Seq<A>),
}

impl<A> Prefix<A> {
    /// Whether the prefix starts with `\\?\`: in such a path only `\` separates, and `.` counts.
    pub open spec fn verbatim(self) -> bool {
        self is Verbatim || self is VerbatimDisk || self is VerbatimUnc
    }

    /// Whether a path with the prefix starts at a root, though no separator follows the prefix.
    pub open spec fn rooted(self) -> bool {
        self is Unc || self is Device
    }

    /// The number of units that the prefix is written with.
    pub open spec fn len(self) -> nat {
        match self {
            Prefix::Disk(_) => 2,
            Prefix::Unc(server, share) => 3 + server.len() + share.len(),
            Prefix::Device(name) => 4 + name.len(),
            Prefix::Verbatim(name) => 4 + name.len(),
            Prefix::VerbatimDisk(_) => 6,
            Prefix::VerbatimUnc(server, share) => 8 + server.len() + if share.len() > 0 {
                1 + share.len()
            } else {
                0
            },
        }
    }
}

/// One part of a path.
pub enum Part<A> {
    /// The prefix of a Windows path.
    Prefix(Prefix<A>),
    /// The root directory.
    Root,
    /// A `.` that counts.
    Here,
    /// `..`.
    Up,
    /// The name of a file or a directory.
    Name(Seq<A>),
}

/// Whether the unit at `i` is that of the character `c`.
pub open spec fn unit_at<A: PathUnit>(s: Seq<A>, i: int, c: char) -> bool {
    0 <= i < s.len() && s[i] == A::of(c)
}

/// Whether there is a separator of either kind at `i`.
pub open spec fn separator_at<A: PathUnit>(s: Seq<A>, i: int) -> bool {
    0 <= i < s.len() && Separators::Both.hold(s[i])
}

/// Whether there is a drive, such as `C:`, at `i`.
pub open spec fn drive_at<A: PathUnit>(s: Seq<A>, i: int) -> bool {
    0 <= i < s.len() && s[i].letter() && unit_at(s, i + 1, ':')
}

/// Where the piece that starts at `from` ends: before the next separator, or with `s`.
pub open spec fn piece_end<A: PathUnit>(seps: Separators, s: Seq<A>, from: int) -> int
    decreases s.len() - from,
{
    if from >= s.len() {
        s.len() as int
    } else if seps.hold(s[from]) {
        from
    } else {
        piece_end(seps, s, from + 1)
    }
}

/// The piece that starts at `from`.
pub open spec fn piece<A: PathUnit>(seps: Separators, s: Seq<A>, from: int) -> Seq<A> {
    s.subrange(from, piece_end(seps, s, from))
}

/// Where the piece after the one that starts at `from` starts.
pub open spec fn next_piece<A: PathUnit>(seps: Separators, s: Seq<A>, from: int) -> int {
    if piece_end(seps, s, from) < s.len() {
        piece_end(seps, s, from) + 1
    } else {
        s.len() as int
    }
}

/// The prefix of the Windows path `s`.
pub open spec fn windows_prefix<A: PathUnit>(s: Seq<A>) -> Option<Prefix<A>> {
    if separator_at(s, 0) && separator_at(s, 1) {
        if unit_at(s, 0, '\\') && unit_at(s, 1, '\\') && unit_at(s, 2, '?') && unit_at(s, 3, '\\') {
            let only = Separators::Backslash;
            if unit_at(s, 4, 'U') && unit_at(s, 5, 'N') && unit_at(s, 6, 'C') && separator_at(
                s,
                7,
            ) {
                Some(Prefix::VerbatimUnc(piece(only, s, 8), piece(only, s, next_piece(only, s, 8))))
            } else if drive_at(s, 4) && (s.len() == 6 || separator_at(s, 6)) {
                Some(Prefix::VerbatimDisk(s[4].upper()))
            } else {
                Some(Prefix::Verbatim(piece(only, s, 4)))
            }
        } else {
            let both = Separators::Both;
            if unit_at(s, 2, '.') && separator_at(s, 3) {
                Some(Prefix::Device(piece(both, s, 4)))
            } else {
                let server = piece(both, s, 2);
                let share = piece(both, s, next_piece(both, s, 2));
                if server.len() > 0 && share.len() > 0 {
                    Some(Prefix::Unc(server, share))
                } else {
                    None
                }
            }
        }
    } else if drive_at(s, 0) {
        Some(Prefix::Disk(s[0].upper()))
    } else {
        None
    }
}

/// The prefix of the path `s`.
pub open spec fn prefix<A: PathUnit>(style: PathStyle, s: Seq<A>) -> Option<Prefix<A>> {
    match style {
        PathStyle::Posix => None,
        PathStyle::Windows => windows_prefix(s),
    }
}

/// The number of units that the prefix of the path `s` is written with.
pub open spec fn prefix_len<A: PathUnit>(style: PathStyle, s: Seq<A>) -> int {
    match prefix(style, s) {
        Some(p) => p.len() as int,
        None => 0,
    }
}

/// Whether the path `s` has a verbatim prefix.
pub open spec fn verbatim<A: PathUnit>(style: PathStyle, s: Seq<A>) -> bool {
    prefix(style, s) matches Some(p) && p.verbatim()
}

/// Whether a separator stands at the start of the path `s`, or right after its prefix.
pub open spec fn rooted<A: PathUnit>(style: PathStyle, s: Seq<A>) -> bool {
    prefix_len(style, s) < s.len() && style.separators().hold(s[prefix_len(style, s)])
}

/// The units that separate the parts of the path `s`.
pub open spec fn separators<A: PathUnit>(style: PathStyle, s: Seq<A>) -> Separators {
    if verbatim(style, s) {
        Separators::Backslash
    } else {
        style.separators()
    }
}

/// The prefix and the root that the path `s` starts with.
pub open spec fn lead<A: PathUnit>(style: PathStyle, s: Seq<A>) -> Seq<Part<A>> {
    match prefix(style, s) {
        Some(p) => if rooted(style, s) || p.rooted() {
            seq![Part::Prefix(p), Part::Root]
        } else {
            seq![Part::Prefix(p)]
        },
        None => if rooted(style, s) {
            seq![Part::Root]
        } else {
            Seq::empty()
        },
    }
}

/// Where the names of the path `s` start.
pub open spec fn body_start<A: PathUnit>(style: PathStyle, s: Seq<A>) -> int {
    prefix_len(style, s) + if rooted(style, s) {
        1int
    } else {
        0
    }
}

/// Which `.` in a path count as parts.
#[derive(Debug, Clone, Copy, PartialEq, Eq, Structural)]
pub enum Dots {
    Never,
    First,
    All,
}

impl Dots {
    /// Whether a `.` counts, depending on whether it is the first name.
    pub open spec fn count(self, first: bool) -> bool {
        self == Dots::All || (self == Dots::First && first)
    }
}

/// Which `.` in the path `s` count as parts.
pub open spec fn dots<A: PathUnit>(style: PathStyle, s: Seq<A>) -> Dots {
    if verbatim(style, s) {
        Dots::All
    } else if prefix(style, s) is None && !rooted(style, s) {
        Dots::First
    } else {
        Dots::Never
    }
}

/// The pieces of `s` between separators. There is always at least one; pieces may be empty.
pub open spec fn segments<A: PathUnit>(seps: Separators, s: Seq<A>) -> Seq<Seq<A>>
    decreases s.len(),
{
    if s.len() == 0 {
        seq![Seq::empty()]
    } else if seps.hold(s.last()) {
        segments(seps, s.drop_last()).push(Seq::empty())
    } else {
        let before = segments(seps, s.drop_last());
        before.drop_last().push(before.last().push(s.last()))
    }
}

/// `.`.
pub open spec fn here<A: PathUnit>() -> Seq<A> {
    seq![A::of('.')]
}

/// `..`.
pub open spec fn up<A: PathUnit>() -> Seq<A> {
    seq![A::of('.'), A::of('.')]
}

/// The part that a segment stands for.
pub open spec fn part<A: PathUnit>(segment: Seq<A>) -> Part<A> {
    if segment == here::<A>() {
        Part::Here
    } else if segment == up::<A>() {
        Part::Up
    } else {
        Part::Name(segment)
    }
}

/// Whether a segment stands for no part: it is empty, or it is a `.` that does not count.
pub open spec fn silent<A: PathUnit>(segment: Seq<A>, dot_counts: bool) -> bool {
    segment.len() == 0 || (segment == here::<A>() && !dot_counts)
}

/// The parts that a run of segments stands for.
pub open spec fn named_parts<A: PathUnit>(kept: Dots, segs: Seq<Seq<A>>) -> Seq<Part<A>>
    decreases segs.len(),
{
    if segs.len() == 0 {
        Seq::empty()
    } else if silent(segs.last(), kept.count(segs.len() == 1)) {
        named_parts(kept, segs.drop_last())
    } else {
        named_parts(kept, segs.drop_last()).push(part(segs.last()))
    }
}

/// The segments of the path `s` after its prefix and its root.
pub open spec fn body_segments<A: PathUnit>(style: PathStyle, s: Seq<A>) -> Seq<Seq<A>> {
    segments(separators(style, s), s.skip(body_start(style, s)))
}

/// The parts of the path `s`.
pub open spec fn parts<A: PathUnit>(style: PathStyle, s: Seq<A>) -> Seq<Part<A>> {
    lead(style, s) + named_parts(dots(style, s), body_segments(style, s))
}

/// Whether the path `s` lies at or below the path `base`: the parts of `base` are the first
/// parts of `s`.
pub open spec fn within<A: PathUnit>(style: PathStyle, base: Seq<A>, s: Seq<A>) -> bool {
    parts(style, base).is_prefix_of(parts(style, s))
}

/// The last of `ps`, where it is a name.
pub open spec fn last_name<A>(ps: Seq<Part<A>>) -> Option<Seq<A>> {
    if ps.len() == 0 {
        None
    } else {
        match ps.last() {
            Part::Name(name) => Some(name),
            _ => None,
        }
    }
}

/// The file name of the path `s`: its last part, where that is a name.
pub open spec fn file_name<A: PathUnit>(style: PathStyle, s: Seq<A>) -> Option<Seq<A>> {
    last_name(parts(style, s))
}

/// Where the prefix of a path stands in it: a drive by the index of its letter, a piece by the
/// index of its first unit and that after its last.
#[derive(Clone, Copy)]
pub enum PrefixAt {
    Disk(usize),
    Unc(usize, usize, usize, usize),
    Device(usize, usize),
    Verbatim(usize, usize),
    VerbatimDisk(usize),
    VerbatimUnc(usize, usize, usize, usize),
}

impl PrefixAt {
    /// Whether the prefix stays inside a path of that length.
    pub open spec fn fits(self, len: nat) -> bool {
        match self {
            PrefixAt::Disk(i) | PrefixAt::VerbatimDisk(i) => i < len,
            PrefixAt::Device(from, to) | PrefixAt::Verbatim(from, to) => from <= to <= len,
            PrefixAt::Unc(from, to, from2, to2) | PrefixAt::VerbatimUnc(from, to, from2, to2) => from
                <= to <= len && from2 <= to2 <= len,
        }
    }

    /// The prefix of `s` that stands there.
    pub open spec fn of<A: PathUnit>(self, s: Seq<A>) -> Prefix<A> {
        match self {
            PrefixAt::Disk(i) => Prefix::Disk(s[i as int].upper()),
            PrefixAt::VerbatimDisk(i) => Prefix::VerbatimDisk(s[i as int].upper()),
            PrefixAt::Device(from, to) => Prefix::Device(s.subrange(from as int, to as int)),
            PrefixAt::Verbatim(from, to) => Prefix::Verbatim(s.subrange(from as int, to as int)),
            PrefixAt::Unc(from, to, from2, to2) => Prefix::Unc(
                s.subrange(from as int, to as int),
                s.subrange(from2 as int, to2 as int),
            ),
            PrefixAt::VerbatimUnc(from, to, from2, to2) => Prefix::VerbatimUnc(
                s.subrange(from as int, to as int),
                s.subrange(from2 as int, to2 as int),
            ),
        }
    }
}

fn has_unit_at<A: PathUnit>(path: &[A], i: usize, c: char) -> (r: bool)
    requires
        c <= '\u{7f}',
    ensures
        r == unit_at(path@, i as int, c),
{
    i < path.len() && path[i].stands_for(c)
}

fn has_separator_at<A: PathUnit>(path: &[A], i: usize) -> (r: bool)
    ensures
        r == separator_at(path@, i as int),
{
    i < path.len() && Separators::Both.has(path[i])
}

fn has_drive_at<A: PathUnit>(path: &[A], i: usize) -> (r: bool)
    requires
        i < 8,
    ensures
        r == drive_at(path@, i as int),
{
    i < path.len() && path[i].is_letter() && has_unit_at(path, i + 1, ':')
}

fn end_of_piece<A: PathUnit>(seps: Separators, path: &[A], from: usize) -> (end: usize)
    requires
        from <= path@.len(),
    ensures
        end == piece_end(seps, path@, from as int),
        from <= end <= path@.len(),
{
    let mut i: usize = from;
    while i < path.len()
        invariant
            from <= i <= path@.len(),
            piece_end(seps, path@, from as int) == piece_end(seps, path@, i as int),
        decreases path@.len() - i,
    {
        if seps.has(path[i]) {
            return i;
        }
        i = i + 1;
    }
    i
}

fn windows_prefix_at<A: PathUnit>(path: &[A]) -> (r: Option<PrefixAt>)
    ensures
        match r {
            Some(at) => at.fits(path@.len()) && windows_prefix(path@) == Some(at.of(path@)),
            None => windows_prefix(path@) is None,
        },
{
    if !(has_separator_at(path, 0) && has_separator_at(path, 1)) {
        if has_drive_at(path, 0) {
            return Some(PrefixAt::Disk(0));
        }
        return None;
    }
    if has_unit_at(path, 0, '\\') && has_unit_at(path, 1, '\\') && has_unit_at(path, 2, '?')
        && has_unit_at(path, 3, '\\') {
        let only = Separators::Backslash;
        if has_unit_at(path, 4, 'U') && has_unit_at(path, 5, 'N') && has_unit_at(path, 6, 'C')
            && has_separator_at(path, 7) {
            let to: usize = end_of_piece(only, path, 8);
            let from2: usize = if to < path.len() {
                to + 1
            } else {
                path.len()
            };
            let to2: usize = end_of_piece(only, path, from2);
            return Some(PrefixAt::VerbatimUnc(8, to, from2, to2));
        }
        if has_drive_at(path, 4) && (path.len() == 6 || has_separator_at(path, 6)) {
            return Some(PrefixAt::VerbatimDisk(4));
        }
        return Some(PrefixAt::Verbatim(4, end_of_piece(only, path, 4)));
    }
    let both = Separators::Both;
    if has_unit_at(path, 2, '.') && has_separator_at(path, 3) {
        return Some(PrefixAt::Device(4, end_of_piece(both, path, 4)));
    }
    let to: usize = end_of_piece(both, path, 2);
    let from2: usize = if to < path.len() {
        to + 1
    } else {
        path.len()
    };
    let to2: usize = end_of_piece(both, path, from2);
    if 2 < to && from2 < to2 {
        Some(PrefixAt::Unc(2, to, from2, to2))
    } else {
        None
    }
}

/// A piece ends inside its path, and before a separator where anything follows it.
pub proof fn lemma_piece_end<A: PathUnit>(seps: Separators, s: Seq<A>, from: int)
    requires
        0 <= from <= s.len(),
    ensures
        from <= piece_end(seps, s, from) <= s.len(),
        piece_end(seps, s, from) < s.len() ==> seps.hold(s[piece_end(seps, s, from)]),
    decreases s.len() - from,
{
    if from < s.len() && !seps.hold(s[from]) {
        lemma_piece_end(seps, s, from + 1);
    }
}

/// A prefix stays inside its path, and what follows a prefix other than a drive starts with a
/// separator.
pub proof fn lemma_prefix_fits<A: PathUnit>(style: PathStyle, s: Seq<A>)
    ensures
        0 <= prefix_len(style, s) <= s.len(),
        prefix(style, s) matches Some(p) && !(p is Disk) && p.len() < s.len() ==> rooted(style, s),
{
    let only = Separators::Backslash;
    let both = Separators::Both;
    if style == PathStyle::Windows && separator_at(s, 0) && separator_at(s, 1) {
        lemma_piece_end(both, s, 2);
        lemma_piece_end(both, s, next_piece(both, s, 2));
        if s.len() >= 4 {
            lemma_piece_end(only, s, 4);
            lemma_piece_end(both, s, 4);
        }
        if s.len() >= 8 {
            lemma_piece_end(only, s, 8);
            lemma_piece_end(only, s, next_piece(only, s, 8));
        }
    }
}

/// Where a part of a path stands in it.
#[derive(Clone, Copy)]
pub enum Component {
    Prefix(PrefixAt),
    Root,
    Here,
    Up,
    /// The units from the first index up to the second, which is not in it.
    Name(usize, usize),
}

impl Component {
    /// Whether the component stays inside a path of that length.
    pub open spec fn fits(self, len: nat) -> bool {
        match self {
            Component::Prefix(at) => at.fits(len),
            Component::Name(from, to) => from <= to <= len,
            _ => true,
        }
    }

    /// The part of `s` that the component points at.
    pub open spec fn of<A: PathUnit>(self, s: Seq<A>) -> Part<A> {
        match self {
            Component::Prefix(at) => Part::Prefix(at.of(s)),
            Component::Root => Part::Root,
            Component::Here => Part::Here,
            Component::Up => Part::Up,
            Component::Name(from, to) => Part::Name(s.subrange(from as int, to as int)),
        }
    }
}

/// The start of a path: its prefix and its root.
#[derive(Clone, Copy)]
pub struct Start {
    pub prefix: Option<PrefixAt>,
    /// The number of units that the prefix is written with.
    pub prefix_len: usize,
    /// Whether a separator follows.
    pub rooted: bool,
    /// Whether the prefix is verbatim.
    pub verbatim: bool,
}

impl Start {
    /// Whether this is the start of the path `s`.
    pub open spec fn starts<A: PathUnit>(self, style: PathStyle, s: Seq<A>) -> bool {
        &&& match self.prefix {
            Some(at) => at.fits(s.len()) && prefix(style, s) == Some(at.of(s)),
            None => prefix(style, s) is None,
        }
        &&& self.prefix_len == prefix_len(style, s)
        &&& self.prefix_len <= s.len()
        &&& self.rooted == rooted(style, s)
        &&& self.verbatim == verbatim(style, s)
    }
}

/// The start of `path`.
pub fn start_of<A: PathUnit>(style: PathStyle, path: &[A]) -> (start: Start)
    ensures
        start.starts(style, path@),
{
    proof {
        lemma_prefix_fits(style, path@);
    }
    let prefix = match style {
        PathStyle::Posix => None,
        PathStyle::Windows => windows_prefix_at(path),
    };
    let len: usize = path.len();
    proof {
        if let Some(at) = prefix {
            assert(at.of(path@).len() == prefix_len(style, path@));
        }
    }
    let (prefix_len, verbatim): (usize, bool) = match prefix {
        None => (0, false),
        Some(PrefixAt::Disk(_)) => (2, false),
        Some(PrefixAt::Unc(from, to, from2, to2)) => (3 + (to - from) + (to2 - from2), false),
        Some(PrefixAt::Device(from, to)) => (4 + (to - from), false),
        Some(PrefixAt::Verbatim(from, to)) => (4 + (to - from), true),
        Some(PrefixAt::VerbatimDisk(_)) => (6, true),
        Some(PrefixAt::VerbatimUnc(from, to, from2, to2)) => if from2 < to2 {
            (9 + (to - from) + (to2 - from2), true)
        } else {
            (8 + (to - from), true)
        },
    };
    let rooted: bool = prefix_len < len && style.separators_of().has(path[prefix_len]);
    Start { prefix, prefix_len, rooted, verbatim }
}

/// The component of `path` from `from` up to `to`; `None` where that segment is silent.
fn component<A: PathUnit>(path: &[A], from: usize, to: usize, dot_counts: bool) -> (r: Option<
    Component,
>)
    requires
        from <= to <= path@.len(),
    ensures
        r is None <==> silent(path@.subrange(from as int, to as int), dot_counts),
        r matches Some(c) ==> c.fits(path@.len()) && c.of(path@) == part(
            path@.subrange(from as int, to as int),
        ),
{
    let ghost segment = path@.subrange(from as int, to as int);
    if from == to {
        return None;
    }
    if to - from == 1 && path[from].stands_for('.') {
        assert(segment == here::<A>());
        if dot_counts {
            return Some(Component::Here);
        }
        return None;
    }
    assert(segment != here::<A>()) by {
        if segment == here::<A>() {
            assert(segment.len() == 1);
            assert(segment[0] == A::of('.'));
            assert(path@[from as int] == A::of('.'));
        }
    }
    if to - from == 2 && path[from].stands_for('.') && path[from + 1].stands_for('.') {
        assert(segment == up::<A>());
        return Some(Component::Up);
    }
    assert(segment != up::<A>()) by {
        if segment == up::<A>() {
            assert(segment.len() == 2);
            assert(segment[0] == A::of('.'));
            assert(segment[1] == A::of('.'));
            assert(path@[from as int] == A::of('.'));
            assert(path@[from + 1] == A::of('.'));
        }
    }
    Some(Component::Name(from, to))
}

/// The parts of `path`, as places in it.
pub fn components<A: PathUnit>(style: PathStyle, path: &[A]) -> (found: Vec<Component>)
    ensures
        forall|i: int| 0 <= i < found@.len() ==> (#[trigger] found@[i]).fits(path@.len()),
        found@.map_values(|c: Component| c.of(path@)) == parts(style, path@),
{
    let ghost pointed = |c: Component| c.of(path@);
    let ghost first = lead(style, path@);
    let ghost kept = dots(style, path@);
    let mut found: Vec<Component> = Vec::new();
    let start = start_of(style, path);
    let mut at_root: bool = start.rooted;
    if let Some(at) = start.prefix {
        found.push(Component::Prefix(at));
        match at {
            PrefixAt::Unc(_, _, _, _) | PrefixAt::Device(_, _) => {
                at_root = true;
            },
            _ => {},
        }
    }
    if at_root {
        found.push(Component::Root);
    }
    let seps = if start.verbatim {
        Separators::Backslash
    } else {
        style.separators_of()
    };
    let first_dot: bool = start.prefix.is_none() && !start.rooted;
    let len: usize = path.len();
    let body: usize = if start.rooted {
        start.prefix_len + 1
    } else {
        start.prefix_len
    };
    let ghost names = path@.skip(body as int);
    let ghost mut closed: Seq<Seq<A>> = Seq::empty();
    assert(found@.map_values(pointed) == first + named_parts(kept, closed));
    let mut from: usize = body;
    let mut i: usize = body;
    let mut leads: bool = true;
    assert(names.take(0) == Seq::<A>::empty());
    assert(path@.subrange(body as int, body as int) == Seq::<A>::empty());
    while i < len
        invariant
            body <= from <= i <= len == path@.len(),
            names == path@.skip(body as int),
            leads == (closed.len() == 0),
            seps == separators(style, path@),
            kept == dots(style, path@),
            start.verbatim == (kept == Dots::All),
            first_dot ==> kept == Dots::First || kept == Dots::All,
            kept == Dots::First ==> first_dot,
            pointed == |c: Component| c.of(path@),
            segments(seps, names.take(i - body)) == closed.push(
                path@.subrange(from as int, i as int),
            ),
            forall|k: int| 0 <= k < found@.len() ==> (#[trigger] found@[k]).fits(path@.len()),
            found@.map_values(pointed) == first + named_parts(kept, closed),
        decreases path@.len() - i,
    {
        let ghost seen = names.take(i - body);
        let ghost segment = path@.subrange(from as int, i as int);
        assert(names.take(i - body + 1).drop_last() == seen);
        assert(names.take(i - body + 1).last() == path@[i as int]);
        if seps.has(path[i]) {
            let ghost before = found@;
            let ghost grown = closed.push(segment);
            assert(grown.drop_last() == closed);
            match component(path, from, i, start.verbatim || (first_dot && leads)) {
                Some(c) => {
                    found.push(c);
                    assert(found@.map_values(pointed) == before.map_values(pointed).push(
                        part(segment),
                    ));
                    assert(first + named_parts(kept, grown) == (first + named_parts(
                        kept,
                        closed,
                    )).push(part(segment)));
                },
                None => {},
            }
            proof {
                closed = grown;
            }
            leads = false;
            from = i + 1;
            assert(path@.subrange(i + 1, i + 1) == Seq::<A>::empty());
        } else {
            let ghost all = closed.push(segment);
            assert(all.drop_last() == closed);
            assert(segment.push(path@[i as int]) == path@.subrange(from as int, i + 1));
        }
        i = i + 1;
    }
    let ghost segment = path@.subrange(from as int, i as int);
    let ghost all = closed.push(segment);
    let ghost before = found@;
    assert(names.take(i - body) == names);
    assert(all.drop_last() == closed);
    match component(path, from, i, start.verbatim || (first_dot && leads)) {
        Some(c) => {
            found.push(c);
            assert(found@.map_values(pointed) == before.map_values(pointed).push(part(segment)));
            assert(first + named_parts(kept, all) == (first + named_parts(kept, closed)).push(
                part(segment),
            ));
        },
        None => {},
    }
    found
}

/// Whether `a` from `a_from` up to `a_to` and `b` from `b_from` up to `b_to` hold the same bytes.
fn same_bytes(
    a: &[u8],
    a_from: usize,
    a_to: usize,
    b: &[u8],
    b_from: usize,
    b_to: usize,
) -> (r: bool)
    requires
        a_from <= a_to <= a@.len(),
        b_from <= b_to <= b@.len(),
    ensures
        r == (a@.subrange(a_from as int, a_to as int) == b@.subrange(b_from as int, b_to as int)),
{
    let ghost left = a@.subrange(a_from as int, a_to as int);
    let ghost right = b@.subrange(b_from as int, b_to as int);
    if a_to - a_from != b_to - b_from {
        assert(left.len() != right.len());
        return false;
    }
    let mut k: usize = 0;
    while k < a_to - a_from
        invariant
            a_from <= a_to <= a@.len(),
            b_from <= b_to <= b@.len(),
            a_to - a_from == b_to - b_from,
            k <= a_to - a_from,
            left == a@.subrange(a_from as int, a_to as int),
            right == b@.subrange(b_from as int, b_to as int),
            forall|j: int| 0 <= j < k ==> left[j] == right[j],
        decreases a_to - a_from - k,
    {
        if a[a_from + k] != b[b_from + k] {
            assert(left[k as int] != right[k as int]);
            return false;
        }
        k = k + 1;
    }
    assert(left == right);
    true
}

fn upper_byte(b: u8) -> (r: u8)
    ensures
        r == b.upper(),
{
    if 97 <= b && b <= 122 {
        b - 32
    } else {
        b
    }
}

/// Whether the prefix `c` of `path` and the prefix `d` of `base` are the same.
fn same_prefix(path: &[u8], c: PrefixAt, base: &[u8], d: PrefixAt) -> (r: bool)
    requires
        c.fits(path@.len()),
        d.fits(base@.len()),
    ensures
        r == (c.of(path@) == d.of(base@)),
{
    match (c, d) {
        (PrefixAt::Disk(i), PrefixAt::Disk(j)) => upper_byte(path[i]) == upper_byte(base[j]),
        (PrefixAt::VerbatimDisk(i), PrefixAt::VerbatimDisk(j)) => upper_byte(path[i])
            == upper_byte(base[j]),
        (PrefixAt::Device(a, b), PrefixAt::Device(x, y)) => same_bytes(path, a, b, base, x, y),
        (PrefixAt::Verbatim(a, b), PrefixAt::Verbatim(x, y)) => same_bytes(path, a, b, base, x, y),
        (PrefixAt::Unc(a, b, a2, b2), PrefixAt::Unc(x, y, x2, y2)) => same_bytes(
            path,
            a,
            b,
            base,
            x,
            y,
        ) && same_bytes(path, a2, b2, base, x2, y2),
        (PrefixAt::VerbatimUnc(a, b, a2, b2), PrefixAt::VerbatimUnc(x, y, x2, y2)) => same_bytes(
            path,
            a,
            b,
            base,
            x,
            y,
        ) && same_bytes(path, a2, b2, base, x2, y2),
        _ => false,
    }
}

/// Whether the component `c` of `path` and the component `d` of `base` are the same part.
fn same_part(path: &[u8], c: Component, base: &[u8], d: Component) -> (r: bool)
    requires
        c.fits(path@.len()),
        d.fits(base@.len()),
    ensures
        r == (c.of(path@) == d.of(base@)),
{
    match (c, d) {
        (Component::Prefix(at), Component::Prefix(base_at)) => same_prefix(path, at, base, base_at),
        (Component::Root, Component::Root) => true,
        (Component::Here, Component::Here) => true,
        (Component::Up, Component::Up) => true,
        (Component::Name(from, to), Component::Name(base_from, base_to)) => same_bytes(
            path,
            from,
            to,
            base,
            base_from,
            base_to,
        ),
        _ => false,
    }
}

/// Whether `path` lies at or below `base`. Only whole parts count; upper and lower case differ,
/// except in the letter of a drive.
pub fn starts_with(style: PathStyle, path: &[u8], base: &[u8]) -> (r: bool)
    ensures
        r == within(style, base@, path@),
{
    let found = components(style, path);
    let wanted = components(style, base);
    let ghost path_parts = parts(style, path@);
    let ghost base_parts = parts(style, base@);
    assert(path_parts.len() == found@.len());
    assert(base_parts.len() == wanted@.len());
    if found.len() < wanted.len() {
        return false;
    }
    let mut k: usize = 0;
    while k < wanted.len()
        invariant
            k <= wanted@.len() <= found@.len(),
            forall|i: int| 0 <= i < found@.len() ==> (#[trigger] found@[i]).fits(path@.len()),
            forall|i: int| 0 <= i < wanted@.len() ==> (#[trigger] wanted@[i]).fits(base@.len()),
            path_parts == found@.map_values(|c: Component| c.of(path@)),
            base_parts == wanted@.map_values(|c: Component| c.of(base@)),
            path_parts == parts(style, path@),
            base_parts == parts(style, base@),
            forall|j: int| 0 <= j < k ==> path_parts[j] == base_parts[j],
        decreases wanted@.len() - k,
    {
        assert(path_parts[k as int] == found@[k as int].of(path@));
        assert(base_parts[k as int] == wanted@[k as int].of(base@));
        if !same_part(path, found[k], base, wanted[k]) {
            assert(path_parts.subrange(0, base_parts.len() as int)[k as int]
                != base_parts[k as int]);
            return false;
        }
        k = k + 1;
    }
    assert(base_parts == path_parts.subrange(0, base_parts.len() as int));
    true
}

/// The file name of `path`, where it has one.
pub fn file_name_of(style: PathStyle, path: &str) -> (name: Option<String>)
    ensures
        match name {
            Some(name) => file_name(style, path@) == Some(name@),
            None => file_name(style, path@) is None,
        },
{
    let chars = chars_of(path);
    let found = components(style, chars.as_slice());
    let ghost path_parts = parts(style, path@);
    assert(path_parts.len() == found@.len());
    if found.len() == 0 {
        return None;
    }
    let last: usize = found.len() - 1;
    assert(path_parts.last() == found@[last as int].of(path@));
    assert(found@[last as int].fits(path@.len()));
    match found[last] {
        Component::Name(from, to) => Some(path.substring_char(from, to).to_owned()),
        _ => None,
    }
}

/// Whether `name` is one name between these separators: it is not empty, holds none of them, and
/// is neither `.` nor `..`.
pub open spec fn one_name<A: PathUnit>(seps: Separators, name: Seq<A>) -> bool {
    &&& name.len() > 0
    &&& forall|i: int| 0 <= i < name.len() ==> !seps.hold(#[trigger] name[i])
    &&& name != here::<A>()
    &&& name != up::<A>()
}

/// Whether `name` can stand as one name in a path: it is one name, and not taken for a drive.
pub open spec fn plain_name<A: PathUnit>(style: PathStyle, name: Seq<A>) -> bool {
    one_name(style.separators(), name) && prefix(style, name) is None
}

/// There is always at least one segment.
pub proof fn lemma_segments_not_empty<A: PathUnit>(seps: Separators, s: Seq<A>)
    ensures
        segments(seps, s).len() > 0,
    decreases s.len(),
{
    if s.len() > 0 {
        lemma_segments_not_empty(seps, s.drop_last());
    }
}

/// Units without a separator go to the end of the last segment.
pub proof fn lemma_segments_extend<A: PathUnit>(seps: Separators, s: Seq<A>, tail: Seq<A>)
    requires
        forall|i: int| 0 <= i < tail.len() ==> !seps.hold(#[trigger] tail[i]),
    ensures
        segments(seps, s).len() > 0,
        segments(seps, s + tail) == segments(seps, s).drop_last().push(
            segments(seps, s).last() + tail,
        ),
    decreases tail.len(),
{
    lemma_segments_not_empty(seps, s);
    if tail.len() == 0 {
        assert(s + tail == s);
        assert(segments(seps, s).last() + tail == segments(seps, s).last());
        assert(segments(seps, s) == segments(seps, s).drop_last().push(segments(seps, s).last()));
    } else {
        assert forall|i: int| 0 <= i < tail.drop_last().len() implies !seps.hold(
            #[trigger] tail.drop_last()[i],
        ) by {
            assert(tail.drop_last()[i] == tail[i]);
        }
        lemma_segments_extend(seps, s, tail.drop_last());
        assert((s + tail).drop_last() == s + tail.drop_last());
        assert((s + tail).last() == tail.last());
        assert(!seps.hold(tail[tail.len() - 1]));
        let before = segments(seps, s + tail.drop_last());
        assert(before.drop_last() == segments(seps, s).drop_last());
        assert(before.last().push(tail.last()) == segments(seps, s).last() + tail);
    }
}

proof fn lemma_segments_hold_no_separator<A: PathUnit>(
    seps: Separators,
    s: Seq<A>,
    at: int,
    i: int,
)
    requires
        0 <= at < segments(seps, s).len(),
        0 <= i < segments(seps, s)[at].len(),
    ensures
        !seps.hold(segments(seps, s)[at][i]),
    decreases s.len(),
{
    if s.len() > 0 {
        let before = segments(seps, s.drop_last());
        lemma_segments_not_empty(seps, s.drop_last());
        if at < segments(seps, s).len() - 1 {
            lemma_segments_hold_no_separator(seps, s.drop_last(), at, i);
            assert(segments(seps, s)[at] == before[at]);
        } else if !seps.hold(s.last()) {
            assert(segments(seps, s)[at] == before.last().push(s.last()));
            if i < before.last().len() {
                lemma_segments_hold_no_separator(seps, s.drop_last(), before.len() - 1, i);
            }
        }
    }
}

/// The names that segments stand for are names between the separators, and a `.` among the parts
/// is one that counts.
proof fn lemma_named_parts<A: PathUnit>(
    seps: Separators,
    kept: Dots,
    segs: Seq<Seq<A>>,
    at: int,
)
    requires
        forall|k: int, i: int|
            0 <= k < segs.len() && 0 <= i < segs[k].len() ==> !seps.hold(#[trigger] segs[k][i]),
        0 <= at < named_parts(kept, segs).len(),
    ensures
        match named_parts(kept, segs)[at] {
            Part::Name(name) => one_name(seps, name),
            Part::Here => kept != Dots::Never,
            Part::Up => true,
            _ => false,
        },
    decreases segs.len(),
{
    let front = segs.drop_last();
    assert forall|k: int, i: int| 0 <= k < front.len() && 0 <= i < front[k].len() implies !seps.hold(
        #[trigger] front[k][i],
    ) by {
        assert(front[k][i] == segs[k][i]);
    }
    if at < named_parts(kept, front).len() {
        lemma_named_parts(seps, kept, front, at);
        assert(named_parts(kept, segs)[at] == named_parts(kept, front)[at]);
    } else {
        let last = segs.len() - 1;
        assert(segs.last() == segs[last]);
        assert forall|i: int| 0 <= i < segs.last().len() implies !seps.hold(
            #[trigger] segs.last()[i],
        ) by {
            assert(!seps.hold(segs[last][i]));
        }
    }
}

/// The parts of a path behind its lead are names between its separators, `..`, or `.`.
pub proof fn lemma_body_parts<A: PathUnit>(style: PathStyle, s: Seq<A>, at: int)
    requires
        lead(style, s).len() <= at < parts(style, s).len(),
    ensures
        match parts(style, s)[at] {
            Part::Name(name) => one_name(separators(style, s), name),
            Part::Here => dots(style, s) != Dots::Never,
            Part::Up => true,
            _ => false,
        },
{
    let seps = separators(style, s);
    let segs = body_segments(style, s);
    let names = s.skip(body_start(style, s));
    assert forall|k: int, i: int| 0 <= k < segs.len() && 0 <= i < segs[k].len() implies !seps.hold(
        #[trigger] segs[k][i],
    ) by {
        lemma_segments_hold_no_separator(seps, names, k, i);
    }
    lemma_named_parts(seps, dots(style, s), segs, at - lead(style, s).len());
}

/// A file name is one name between the separators of its path; in particular, it is not empty.
pub proof fn law_file_name_is_one_name<A: PathUnit>(style: PathStyle, s: Seq<A>)
    ensures
        file_name(style, s) matches Some(name) ==> one_name(separators(style, s), name),
{
    if file_name(style, s) is Some {
        lemma_body_parts(style, s, parts(style, s).len() - 1);
    }
}

/// A path that lies within a second path lies within everything that the second lies within,
/// and each path lies within itself.
pub proof fn law_within_is_transitive<A: PathUnit>(
    style: PathStyle,
    top: Seq<A>,
    middle: Seq<A>,
    bottom: Seq<A>,
)
    requires
        within(style, top, middle),
        within(style, middle, bottom),
    ensures
        within(style, top, bottom),
        within(style, top, top),
{
    let t = parts(style, top);
    let m = parts(style, middle);
    let b = parts(style, bottom);
    assert(t == m.subrange(0, t.len() as int));
    assert(m == b.subrange(0, m.len() as int));
    assert(t == b.subrange(0, t.len() as int));
    assert(t == t.subrange(0, t.len() as int));
}

} // verus!
