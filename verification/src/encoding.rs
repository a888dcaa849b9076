//! A path as text and as bytes: taking a path apart and writing it in UTF-8 can be done in either
//! order.

use crate::path::{
    body_segments, body_start, dots, drive_at, here, lead, lemma_body_parts, lemma_piece_end,
    lemma_prefix_fits, lemma_segments_extend, lemma_segments_not_empty, named_parts, next_piece,
    part, parts, piece, piece_end, plain_name, prefix, prefix_len, rooted, segments, separator_at,
    separators, silent, unit_at, up, windows_prefix, within, Dots, Part, PathStyle, PathUnit,
    Prefix, Separators,
};
use vstd::prelude::*;
use vstd::utf8::{
    encode_scalar, encode_utf8, encode_utf8_decode_utf8, last_continuation_byte,
    leading_byte_width_1, leading_byte_width_2, leading_byte_width_3, leading_byte_width_4,
    second_last_continuation_byte, third_last_continuation_byte,
};

verus! {

/// The byte of an ASCII character.
pub open spec fn encoded_unit(c: char) -> u8 {
    encode_utf8(seq![c])[0]
}

/// A prefix, written in UTF-8.
pub open spec fn encoded_prefix(p: Prefix<char>) -> Prefix<u8> {
    match p {
        Prefix::Disk(letter) => Prefix::Disk(encoded_unit(letter)),
        Prefix::Unc(server, share) => Prefix::Unc(encode_utf8(server), encode_utf8(share)),
        Prefix::Device(name) => Prefix::Device(encode_utf8(name)),
        Prefix::Verbatim(name) => Prefix::Verbatim(encode_utf8(name)),
        Prefix::VerbatimDisk(letter) => Prefix::VerbatimDisk(encoded_unit(letter)),
        Prefix::VerbatimUnc(server, share) => Prefix::VerbatimUnc(
            encode_utf8(server),
            encode_utf8(share),
        ),
    }
}

/// A part of a path, written in UTF-8.
pub open spec fn encoded_part(p: Part<char>) -> Part<u8> {
    match p {
        Part::Prefix(prefix) => Part::Prefix(encoded_prefix(prefix)),
        Part::Root => Part::Root,
        Part::Here => Part::Here,
        Part::Up => Part::Up,
        Part::Name(name) => Part::Name(encode_utf8(name)),
    }
}

/// The parts of a path, written in UTF-8.
pub open spec fn encoded_parts(ps: Seq<Part<char>>) -> Seq<Part<u8>> {
    ps.map_values(|p: Part<char>| encoded_part(p))
}

spec fn encoded_segments(segs: Seq<Seq<char>>) -> Seq<Seq<u8>> {
    segs.map_values(|segment: Seq<char>| encode_utf8(segment))
}

proof fn lemma_encode_concat(a: Seq<char>, b: Seq<char>)
    ensures
        encode_utf8(a + b) == encode_utf8(a) + encode_utf8(b),
    decreases a.len(),
{
    if a.len() == 0 {
        assert(a + b == b);
        assert(encode_utf8(a) + encode_utf8(b) == encode_utf8(b));
    } else {
        lemma_encode_concat(a.drop_first(), b);
        assert((a + b).drop_first() == a.drop_first() + b);
        assert((a + b)[0] == a[0]);
    }
}

proof fn lemma_encode_injective(a: Seq<char>, b: Seq<char>)
    ensures
        encode_utf8(a) == encode_utf8(b) <==> a == b,
{
    encode_utf8_decode_utf8(a);
    encode_utf8_decode_utf8(b);
}

/// An ASCII character is one byte of the same number, and another character has no byte below
/// that of an ASCII character.
proof fn lemma_encode_char(c: char)
    ensures
        encode_utf8(seq![c]).len() > 0,
        c <= '\u{7f}' ==> encode_utf8(seq![c]).len() == 1 && encode_utf8(seq![c])[0] as int
            == c as int,
        c > '\u{7f}' ==> forall|i: int|
            0 <= i < encode_utf8(seq![c]).len() ==> #[trigger] encode_utf8(seq![c])[i] > 127,
{
    let code = c as u32;
    assert(seq![c].drop_first() == Seq::<char>::empty());
    reveal_with_fuel(encode_utf8, 2);
    assert(encode_utf8(seq![c]) == encode_scalar(code));
    if code < 128 {
        assert(leading_byte_width_1(code) == code as u8) by (bit_vector)
            requires
                code < 128u32,
        ;
    } else {
        assert(leading_byte_width_2(code) >= 128u8) by (bit_vector);
        assert(leading_byte_width_3(code) >= 128u8) by (bit_vector);
        assert(leading_byte_width_4(code) >= 128u8) by (bit_vector);
        assert(last_continuation_byte(code) >= 128u8) by (bit_vector);
        assert(second_last_continuation_byte(code) >= 128u8) by (bit_vector);
        assert(third_last_continuation_byte(code) >= 128u8) by (bit_vector);
    }
}

proof fn lemma_encode_empty(s: Seq<char>)
    ensures
        encode_utf8(s).len() == 0 <==> s.len() == 0,
{
    if s.len() > 0 {
        assert(s == seq![s[0]] + s.drop_first());
        lemma_encode_concat(seq![s[0]], s.drop_first());
        lemma_encode_char(s[0]);
    }
}

/// A separator is written as one byte, which separates, and no other character has such a byte.
proof fn lemma_encode_separator(seps: Separators, c: char)
    ensures
        seps.hold(c) ==> encode_utf8(seq![c]).len() == 1 && seps.hold(encode_utf8(seq![c])[0]),
        !seps.hold(c) ==> forall|i: int|
            0 <= i < encode_utf8(seq![c]).len() ==> !seps.hold(
                #[trigger] encode_utf8(seq![c])[i],
            ),
{
    lemma_encode_char(c);
    assert(<u8 as PathUnit>::of('/') == 47 && <u8 as PathUnit>::of('\\') == 92);
    if !seps.hold(c) {
        assert forall|i: int| 0 <= i < encode_utf8(seq![c]).len() implies !seps.hold(
            #[trigger] encode_utf8(seq![c])[i],
        ) by {
            if c > '\u{7f}' {
                assert(encode_utf8(seq![c])[i] > 127);
            }
        }
    }
}

proof fn lemma_encode_dots()
    ensures
        encode_utf8(here::<char>()) == here::<u8>(),
        encode_utf8(up::<char>()) == up::<u8>(),
{
    lemma_encode_char('.');
    lemma_encode_concat(seq!['.'], seq!['.']);
    assert(<u8 as PathUnit>::of('.') == 46);
    assert(encode_utf8(seq!['.']) == here::<u8>());
    assert(seq!['.'] + seq!['.'] == up::<char>());
    assert(here::<u8>() + here::<u8>() == up::<u8>());
}

proof fn lemma_segments_encoded(seps: Separators, s: Seq<char>)
    ensures
        segments(seps, encode_utf8(s)) == encoded_segments(segments(seps, s)),
    decreases s.len(),
{
    if s.len() == 0 {
        assert(encode_utf8(s) == Seq::<u8>::empty());
        assert(encoded_segments(segments(seps, s)) == seq![Seq::<u8>::empty()]);
    } else {
        let front = s.drop_last();
        let c = s.last();
        lemma_segments_encoded(seps, front);
        assert(s == front + seq![c]);
        lemma_encode_concat(front, seq![c]);
        lemma_encode_separator(seps, c);
        let bytes = encode_utf8(front);
        let tail = encode_utf8(seq![c]);
        lemma_segments_not_empty(seps, front);
        if seps.hold(c) {
            assert(bytes + tail == bytes.push(tail[0]));
            assert(bytes.push(tail[0]).drop_last() == bytes);
            assert(encoded_segments(segments(seps, s)) == encoded_segments(
                segments(seps, front),
            ).push(Seq::<u8>::empty()));
        } else {
            lemma_segments_extend(seps, bytes, tail);
            let before = segments(seps, front);
            lemma_encode_concat(before.last(), seq![c]);
            assert(before.last() + seq![c] == before.last().push(c));
            assert(encoded_segments(segments(seps, s)) == encoded_segments(
                before,
            ).drop_last().push(encode_utf8(before.last()) + tail));
        }
    }
}

proof fn lemma_named_parts_encoded(kept: Dots, segs: Seq<Seq<char>>)
    ensures
        named_parts(kept, encoded_segments(segs)) == encoded_parts(named_parts(kept, segs)),
    decreases segs.len(),
{
    let bytes = encoded_segments(segs);
    if segs.len() == 0 {
        assert(encoded_parts(named_parts(kept, segs)) == Seq::<Part<u8>>::empty());
    } else {
        let front = segs.drop_last();
        let segment = segs.last();
        let counts = kept.count(segs.len() == 1);
        lemma_named_parts_encoded(kept, front);
        assert(bytes.drop_last() == encoded_segments(front));
        assert(bytes.last() == encode_utf8(segment));
        lemma_encode_dots();
        lemma_encode_injective(segment, here());
        lemma_encode_injective(segment, up());
        lemma_encode_empty(segment);
        assert(silent(bytes.last(), counts) == silent(segment, counts));
        assert(part(bytes.last()) == encoded_part(part(segment)));
        if !silent(segment, counts) {
            assert(encoded_parts(named_parts(kept, segs)) == encoded_parts(
                named_parts(kept, front),
            ).push(encoded_part(part(segment))));
        }
    }
}

/// Whether the first `k` characters of `s` are ASCII.
spec fn ascii_start(s: Seq<char>, k: int) -> bool {
    0 <= k <= s.len() && forall|i: int| 0 <= i < k ==> (#[trigger] s[i]) <= '\u{7f}'
}

proof fn lemma_encode_ascii(s: Seq<char>)
    requires
        ascii_start(s, s.len() as int),
    ensures
        encode_utf8(s).len() == s.len(),
        forall|i: int| 0 <= i < s.len() ==> (#[trigger] encode_utf8(s)[i]) as int == s[i] as int,
    decreases s.len(),
{
    if s.len() > 0 {
        let front = s.drop_last();
        assert forall|i: int| 0 <= i < front.len() implies (#[trigger] front[i]) <= '\u{7f}' by {
            assert(front[i] == s[i]);
        }
        lemma_encode_ascii(front);
        lemma_encode_concat(front, seq![s.last()]);
        assert(s == front + seq![s.last()]);
        assert(s[s.len() - 1] == s.last());
        lemma_encode_char(s.last());
        assert forall|i: int| 0 <= i < s.len() implies (#[trigger] encode_utf8(s)[i]) as int
            == s[i] as int by {
            if i < front.len() {
                assert(encode_utf8(s)[i] == encode_utf8(front)[i]);
                assert(front[i] == s[i]);
            }
        }
    }
}

/// After an ASCII start the bytes are at the places of the characters.
proof fn lemma_ascii_start(s: Seq<char>, k: int)
    requires
        ascii_start(s, k),
    ensures
        encode_utf8(s.take(k)).len() == k,
        k < s.len() <==> k < encode_utf8(s).len(),
        k == s.len() <==> k == encode_utf8(s).len(),
        forall|i: int| 0 <= i < k ==> (#[trigger] encode_utf8(s)[i]) as int == s[i] as int,
        k < s.len() && s[k] <= '\u{7f}' ==> encode_utf8(s)[k] as int == s[k] as int,
        k < s.len() && s[k] > '\u{7f}' ==> encode_utf8(s)[k] > 127,
{
    let head = s.take(k);
    let tail = s.skip(k);
    assert(s == head + tail);
    lemma_encode_concat(head, tail);
    assert forall|i: int| 0 <= i < head.len() implies (#[trigger] head[i]) <= '\u{7f}' by {
        assert(head[i] == s[i]);
    }
    lemma_encode_ascii(head);
    assert forall|i: int| 0 <= i < k implies (#[trigger] encode_utf8(s)[i]) as int
        == s[i] as int by {
        assert(encode_utf8(s)[i] == encode_utf8(head)[i]);
        assert(head[i] == s[i]);
    }
    lemma_encode_empty(tail);
    if k < s.len() {
        let c = s[k];
        assert(tail == seq![c] + tail.drop_first());
        lemma_encode_concat(seq![c], tail.drop_first());
        lemma_encode_char(c);
        assert(encode_utf8(s)[k] == encode_utf8(seq![c])[0]);
    }
}

/// Tests on the unit after an ASCII start come out the same on text and on bytes.
proof fn lemma_tests_encoded(s: Seq<char>, k: int, c: char)
    requires
        ascii_start(s, k),
        c <= '\u{7f}',
    ensures
        unit_at(encode_utf8(s), k, c) == unit_at(s, k, c),
        unit_at(s, k, c) ==> ascii_start(s, k + 1),
        separator_at(encode_utf8(s), k) == separator_at(s, k),
        separator_at(s, k) ==> ascii_start(s, k + 1),
{
    lemma_ascii_start(s, k);
    assert(<u8 as PathUnit>::of('/') == 47 && <u8 as PathUnit>::of('\\') == 92);
    assert(<u8 as PathUnit>::of(c) as int == c as int);
}

proof fn lemma_drive_encoded(s: Seq<char>, k: int)
    requires
        ascii_start(s, k),
    ensures
        drive_at(encode_utf8(s), k) == drive_at(s, k),
        drive_at(s, k) ==> ascii_start(s, k + 2) && encode_utf8(s)[k].upper() == encoded_unit(
            s[k].upper(),
        ),
{
    lemma_ascii_start(s, k);
    if k < s.len() && s[k].letter() {
        assert(ascii_start(s, k + 1));
        lemma_tests_encoded(s, k + 1, ':');
        let c = s[k].upper();
        lemma_encode_char(c);
        assert(c as int == if 'a' <= s[k] <= 'z' {
            s[k] as int - 32
        } else {
            s[k] as int
        });
    }
}

proof fn lemma_piece_skips<A: PathUnit>(seps: Separators, s: Seq<A>, from: int, k: int)
    requires
        0 <= from,
        0 <= k,
        from + k <= s.len(),
        forall|i: int| from <= i < from + k ==> !seps.hold(#[trigger] s[i]),
    ensures
        piece_end(seps, s, from) == piece_end(seps, s, from + k),
    decreases k,
{
    if k > 0 {
        assert(!seps.hold(s[from]));
        lemma_piece_skips(seps, s, from + 1, k - 1);
    }
}

/// Pieces of a path end at the same character on text and on bytes.
proof fn lemma_piece_end_encoded(seps: Separators, s: Seq<char>, from: int)
    requires
        0 <= from <= s.len(),
    ensures
        piece_end(seps, encode_utf8(s), encode_utf8(s.take(from)).len() as int) == encode_utf8(
            s.take(piece_end(seps, s, from)),
        ).len(),
    decreases s.len() - from,
{
    let bytes = encode_utf8(s);
    let at = encode_utf8(s.take(from)).len() as int;
    if from == s.len() {
        assert(s.take(from) == s);
    } else {
        let c = s[from];
        let tail = encode_utf8(seq![c]);
        assert(s == s.take(from) + seq![c] + s.skip(from + 1));
        assert(s.take(from + 1) == s.take(from) + seq![c]);
        lemma_encode_concat(s.take(from), seq![c]);
        lemma_encode_concat(s.take(from) + seq![c], s.skip(from + 1));
        lemma_encode_separator(seps, c);
        lemma_encode_char(c);
        assert forall|i: int| 0 <= i < tail.len() implies bytes[at + i] == tail[i] by {}
        if seps.hold(c) {
            assert(bytes[at + 0] == tail[0]);
        } else {
            assert forall|i: int| at <= i < at + tail.len() implies !seps.hold(
                #[trigger] bytes[i],
            ) by {
                assert(bytes[at + (i - at)] == tail[i - at]);
            }
            lemma_piece_skips(seps, bytes, at, tail.len() as int);
            lemma_piece_end_encoded(seps, s, from + 1);
        }
    }
}

/// Pieces of a path are the same on text and on bytes.
proof fn lemma_piece_encoded(seps: Separators, s: Seq<char>, from: int)
    requires
        0 <= from <= s.len(),
    ensures
        piece(seps, encode_utf8(s), encode_utf8(s.take(from)).len() as int) == encode_utf8(
            piece(seps, s, from),
        ),
        from <= piece_end(seps, s, from) <= s.len(),
        0 <= next_piece(seps, s, from) <= s.len(),
        next_piece(seps, encode_utf8(s), encode_utf8(s.take(from)).len() as int) == encode_utf8(
            s.take(next_piece(seps, s, from)),
        ).len(),
{
    let bytes = encode_utf8(s);
    let end = piece_end(seps, s, from);
    lemma_piece_end(seps, s, from);
    lemma_piece_end_encoded(seps, s, from);
    assert(s.take(end) == s.take(from) + piece(seps, s, from));
    lemma_encode_concat(s.take(from), piece(seps, s, from));
    assert(s == s.take(end) + s.skip(end));
    lemma_encode_concat(s.take(end), s.skip(end));
    let (x, y) = (encode_utf8(s.take(from)).len() as int, encode_utf8(s.take(end)).len() as int);
    assert(bytes.subrange(x, y) == encode_utf8(piece(seps, s, from)));
    if end < s.len() {
        let c = s[end];
        lemma_encode_separator(seps, c);
        assert(s.take(end + 1) == s.take(end) + seq![c]);
        lemma_encode_concat(s.take(end), seq![c]);
        assert(s == s.take(end + 1) + s.skip(end + 1));
        lemma_encode_concat(s.take(end + 1), s.skip(end + 1));
        assert(y < bytes.len());
    } else {
        assert(s.take(end) == s);
    }
}

/// Where the prefix of a Windows path ends.
proof fn lemma_prefix_end<A: PathUnit>(s: Seq<A>)
    ensures
        windows_prefix(s) matches Some(p) ==> p.len() == match p {
            Prefix::Disk(_) => 2,
            Prefix::Unc(_, _) => piece_end(
                Separators::Both,
                s,
                next_piece(Separators::Both, s, 2),
            ),
            Prefix::Device(_) => piece_end(Separators::Both, s, 4),
            Prefix::Verbatim(_) => piece_end(Separators::Backslash, s, 4),
            Prefix::VerbatimDisk(_) => 6,
            Prefix::VerbatimUnc(_, share) => if share.len() > 0 {
                piece_end(Separators::Backslash, s, next_piece(Separators::Backslash, s, 8))
            } else {
                piece_end(Separators::Backslash, s, 8)
            },
        },
{
    let only = Separators::Backslash;
    let both = Separators::Both;
    if separator_at(s, 0) && separator_at(s, 1) {
        lemma_piece_end(both, s, 2);
        lemma_piece_end(both, s, next_piece(both, s, 2));
        if s.len() >= 4 {
            lemma_piece_end(only, s, 4);
            lemma_piece_end(both, s, 4);
        }
        if s.len() >= 8 {
            lemma_piece_end(only, s, 8);
            lemma_piece_end(only, s, next_piece(only, s, 8));
        }
    }
}

spec fn encoded_prefix_option(p: Option<Prefix<char>>) -> Option<Prefix<u8>> {
    match p {
        Some(p) => Some(encoded_prefix(p)),
        None => None,
    }
}

/// The prefix of a verbatim path is the same on text and on bytes.
proof fn lemma_verbatim_prefix_encoded(s: Seq<char>)
    requires
        unit_at(s, 0, '\\'),
        unit_at(s, 1, '\\'),
        unit_at(s, 2, '?'),
        unit_at(s, 3, '\\'),
    ensures
        windows_prefix(encode_utf8(s)) == encoded_prefix_option(windows_prefix(s)),
        windows_prefix(s) matches Some(p) ==> encoded_prefix(p).len() == encode_utf8(
            s.take(p.len() as int),
        ).len(),
{
    let only = Separators::Backslash;
    let bytes = encode_utf8(s);
    lemma_prefix_fits(PathStyle::Windows, s);
    assert(ascii_start(s, 0));
    lemma_tests_encoded(s, 0, '\\');
    lemma_tests_encoded(s, 1, '\\');
    lemma_tests_encoded(s, 2, '?');
    lemma_tests_encoded(s, 3, '\\');
    lemma_tests_encoded(s, 4, 'U');
    lemma_drive_encoded(s, 4);
    lemma_ascii_start(s, 4);
    lemma_prefix_end(s);
    lemma_prefix_end(bytes);
    if unit_at(s, 4, 'U') {
        lemma_tests_encoded(s, 5, 'N');
        if unit_at(s, 5, 'N') {
            lemma_tests_encoded(s, 6, 'C');
            if unit_at(s, 6, 'C') {
                lemma_tests_encoded(s, 7, '\\');
            }
        }
    }
    if unit_at(s, 4, 'U') && unit_at(s, 5, 'N') && unit_at(s, 6, 'C') && separator_at(s, 7) {
        lemma_ascii_start(s, 8);
        lemma_piece_encoded(only, s, 8);
        let next = next_piece(only, s, 8);
        lemma_piece_encoded(only, s, next);
        lemma_piece_end_encoded(only, s, 8);
        lemma_piece_end_encoded(only, s, next);
        lemma_encode_empty(piece(only, s, next));
        assert(windows_prefix(bytes) == Some(
            Prefix::VerbatimUnc(
                encode_utf8(piece(only, s, 8)),
                encode_utf8(piece(only, s, next)),
            ),
        ));
    } else if drive_at(s, 4) && (s.len() == 6 || separator_at(s, 6)) {
        lemma_ascii_start(s, 6);
        lemma_tests_encoded(s, 6, '\\');
    } else {
        if drive_at(s, 4) {
            lemma_ascii_start(s, 6);
            lemma_tests_encoded(s, 6, '\\');
        }
        lemma_piece_encoded(only, s, 4);
        lemma_piece_end_encoded(only, s, 4);
        assert(windows_prefix(bytes) == Some(Prefix::Verbatim(encode_utf8(piece(only, s, 4)))));
    }
}

/// The prefix of a Windows path is the same on text and on bytes.
proof fn lemma_prefix_encoded(s: Seq<char>)
    ensures
        windows_prefix(encode_utf8(s)) == encoded_prefix_option(windows_prefix(s)),
        windows_prefix(s) matches Some(p) ==> encoded_prefix(p).len() == encode_utf8(
            s.take(p.len() as int),
        ).len(),
{
    let both = Separators::Both;
    let bytes = encode_utf8(s);
    lemma_prefix_fits(PathStyle::Windows, s);
    lemma_prefix_end(s);
    lemma_prefix_end(bytes);
    assert(ascii_start(s, 0));
    lemma_tests_encoded(s, 0, '\\');
    lemma_drive_encoded(s, 0);
    if separator_at(s, 0) {
        lemma_tests_encoded(s, 1, '\\');
    }
    if separator_at(s, 0) && separator_at(s, 1) {
        lemma_tests_encoded(s, 2, '?');
        lemma_tests_encoded(s, 2, '.');
        lemma_ascii_start(s, 2);
        if unit_at(s, 2, '?') || unit_at(s, 2, '.') {
            lemma_tests_encoded(s, 3, '\\');
        }
        if unit_at(s, 0, '\\') && unit_at(s, 1, '\\') && unit_at(s, 2, '?') && unit_at(s, 3, '\\') {
            lemma_verbatim_prefix_encoded(s);
        } else if unit_at(s, 2, '.') && separator_at(s, 3) {
            lemma_ascii_start(s, 4);
            lemma_piece_encoded(both, s, 4);
            lemma_piece_end_encoded(both, s, 4);
        } else {
            lemma_piece_encoded(both, s, 2);
            let next = next_piece(both, s, 2);
            lemma_piece_encoded(both, s, next);
            lemma_piece_end_encoded(both, s, next);
            lemma_encode_empty(piece(both, s, 2));
            lemma_encode_empty(piece(both, s, next));
        }
    } else if drive_at(s, 0) {
        lemma_ascii_start(s, 2);
    }
}

/// What follows the first `n` characters of a path follows their bytes.
proof fn lemma_rest_encoded(seps: Separators, s: Seq<char>, n: int)
    requires
        0 <= n <= s.len(),
    ensures
        ({
            let bytes = encode_utf8(s);
            let m = encode_utf8(s.take(n)).len() as int;
            &&& m <= bytes.len()
            &&& m < bytes.len() <==> n < s.len()
            &&& bytes.skip(m) == encode_utf8(s.skip(n))
            &&& n < s.len() ==> (seps.hold(bytes[m]) <==> seps.hold(s[n]))
            &&& n < s.len() && seps.hold(s[n]) ==> bytes.skip(m + 1) == encode_utf8(s.skip(n + 1))
        }),
{
    let bytes = encode_utf8(s);
    let m = encode_utf8(s.take(n)).len() as int;
    assert(s == s.take(n) + s.skip(n));
    lemma_encode_concat(s.take(n), s.skip(n));
    lemma_encode_empty(s.skip(n));
    assert(bytes.skip(m) == encode_utf8(s.skip(n)));
    if n < s.len() {
        let c = s[n];
        assert(s.skip(n) == seq![c] + s.skip(n + 1));
        lemma_encode_concat(seq![c], s.skip(n + 1));
        lemma_encode_char(c);
        lemma_encode_separator(seps, c);
        assert(bytes[m] == encode_utf8(seq![c])[0]);
        if seps.hold(c) {
            assert(bytes.skip(m + 1) == encode_utf8(s.skip(n + 1)));
        }
    }
}

/// The parts of a path written in UTF-8 are its parts, written in UTF-8.
pub proof fn law_parts_survive_encoding(style: PathStyle, s: Seq<char>)
    ensures
        parts(style, encode_utf8(s)) == encoded_parts(parts(style, s)),
{
    let bytes = encode_utf8(s);
    let n = prefix_len(style, s);
    lemma_prefix_fits(style, s);
    lemma_prefix_encoded(s);
    assert(prefix(style, bytes) == encoded_prefix_option(prefix(style, s)));
    if prefix(style, s) is None {
        assert(encode_utf8(s.take(0)) == Seq::<u8>::empty());
    }
    assert(prefix_len(style, bytes) == encode_utf8(s.take(n)).len());
    lemma_rest_encoded(style.separators(), s, n);
    assert(rooted(style, bytes) == rooted(style, s));
    assert(separators(style, bytes) == separators(style, s));
    assert(dots(style, bytes) == dots(style, s));
    assert(lead(style, bytes) == encoded_parts(lead(style, s)));
    let names = s.skip(body_start(style, s));
    assert(bytes.skip(body_start(style, bytes)) == encode_utf8(names));
    lemma_segments_encoded(separators(style, s), names);
    lemma_named_parts_encoded(dots(style, s), body_segments(style, s));
    assert(encoded_parts(parts(style, s)) == encoded_parts(lead(style, s)) + encoded_parts(
        named_parts(dots(style, s), body_segments(style, s)),
    ));
}

proof fn lemma_same_part_encoded(a: Part<char>, b: Part<char>)
    requires
        a matches Part::Prefix(Prefix::Disk(c)) ==> c <= '\u{7f}',
        a matches Part::Prefix(Prefix::VerbatimDisk(c)) ==> c <= '\u{7f}',
        b matches Part::Prefix(Prefix::Disk(c)) ==> c <= '\u{7f}',
        b matches Part::Prefix(Prefix::VerbatimDisk(c)) ==> c <= '\u{7f}',
    ensures
        encoded_part(a) == encoded_part(b) <==> a == b,
{
    match (a, b) {
        (Part::Name(x), Part::Name(y)) => lemma_encode_injective(x, y),
        (Part::Prefix(p), Part::Prefix(q)) => match (p, q) {
            (Prefix::Disk(x), Prefix::Disk(y)) => {
                lemma_encode_char(x);
                lemma_encode_char(y);
            },
            (Prefix::VerbatimDisk(x), Prefix::VerbatimDisk(y)) => {
                lemma_encode_char(x);
                lemma_encode_char(y);
            },
            (Prefix::Device(x), Prefix::Device(y)) => lemma_encode_injective(x, y),
            (Prefix::Verbatim(x), Prefix::Verbatim(y)) => lemma_encode_injective(x, y),
            (Prefix::Unc(x, v), Prefix::Unc(y, w)) => {
                lemma_encode_injective(x, y);
                lemma_encode_injective(v, w);
            },
            (Prefix::VerbatimUnc(x, v), Prefix::VerbatimUnc(y, w)) => {
                lemma_encode_injective(x, y);
                lemma_encode_injective(v, w);
            },
            _ => {},
        },
        _ => {},
    }
}

proof fn lemma_drives_are_ascii(style: PathStyle, s: Seq<char>, i: int)
    requires
        0 <= i < parts(style, s).len(),
    ensures
        parts(style, s)[i] matches Part::Prefix(Prefix::Disk(c)) ==> c <= '\u{7f}',
        parts(style, s)[i] matches Part::Prefix(Prefix::VerbatimDisk(c)) ==> c <= '\u{7f}',
{
    if i >= lead(style, s).len() {
        lemma_body_parts(style, s, i);
    } else {
        assert(parts(style, s)[i] == lead(style, s)[i]);
    }
}

/// One path lies within another as text if and only if it does so in UTF-8.
pub proof fn law_within_survives_encoding(style: PathStyle, base: Seq<char>, s: Seq<char>)
    ensures
        within(style, encode_utf8(base), encode_utf8(s)) <==> within(style, base, s),
{
    law_parts_survive_encoding(style, base);
    law_parts_survive_encoding(style, s);
    let b = parts(style, base);
    let p = parts(style, s);
    assert forall|i: int| 0 <= i < b.len() && i < p.len() implies (encoded_parts(b)[i]
        == encoded_parts(p)[i] <==> b[i] == p[i]) by {
        lemma_drives_are_ascii(style, base, i);
        lemma_drives_are_ascii(style, s, i);
        lemma_same_part_encoded(b[i], p[i]);
    }
    if within(style, base, s) {
        assert(encoded_parts(b) == encoded_parts(p).subrange(0, b.len() as int));
    }
    if within(style, encode_utf8(base), encode_utf8(s)) {
        assert forall|i: int| 0 <= i < b.len() implies b[i] == p[i] by {
            assert(encoded_parts(b)[i] == encoded_parts(p).subrange(0, b.len() as int)[i]);
        }
        assert(b == p.subrange(0, b.len() as int));
    }
}

proof fn lemma_no_separator_encoded(seps: Separators, s: Seq<char>)
    requires
        forall|i: int| 0 <= i < s.len() ==> !seps.hold(#[trigger] s[i]),
    ensures
        forall|i: int|
            0 <= i < encode_utf8(s).len() ==> !seps.hold(#[trigger] encode_utf8(s)[i]),
    decreases s.len(),
{
    if s.len() > 0 {
        let front = s.drop_last();
        let c = s.last();
        assert forall|i: int| 0 <= i < front.len() implies !seps.hold(#[trigger] front[i]) by {
            assert(front[i] == s[i]);
        }
        assert(s[s.len() - 1] == c);
        lemma_no_separator_encoded(seps, front);
        lemma_encode_separator(seps, c);
        lemma_encode_concat(front, seq![c]);
        assert(s == front + seq![c]);
        let at = encode_utf8(front).len();
        assert forall|i: int| 0 <= i < encode_utf8(s).len() implies !seps.hold(
            #[trigger] encode_utf8(s)[i],
        ) by {
            if i < at {
                assert(encode_utf8(s)[i] == encode_utf8(front)[i]);
            } else {
                assert(encode_utf8(s)[i] == encode_utf8(seq![c])[i - at]);
            }
        }
    }
}

/// A plain name is plain in UTF-8, too.
pub proof fn law_plain_name_survives_encoding(style: PathStyle, name: Seq<char>)
    requires
        plain_name(style, name),
    ensures
        plain_name(style, encode_utf8(name)),
{
    lemma_encode_dots();
    lemma_encode_injective(name, here());
    lemma_encode_injective(name, up());
    lemma_encode_empty(name);
    lemma_prefix_encoded(name);
    lemma_no_separator_encoded(style.separators(), name);
}

} // verus!
