//! Text helpers: building messages, comparing and ordering strings.

use vstd::prelude::*;

verus! {

/// The characters of `s`, one after the other.
pub fn chars_of(s: &str) -> (chars: Vec<char>)
    ensures
        chars@ == s@,
{
    let mut chars: Vec<char> = Vec::new();
    for c in iter: s.chars()
        invariant
            iter.seq() == s@,
            chars@ == s@.take(iter.index() as int),
    {
        proof {
            assert(s@.take(iter.index() + 1) == s@.take(iter.index() as int).push(c));
        }
        chars.push(c);
    }
    proof {
        assert(s@.take(s@.len() as int) == s@);
    }
    chars
}

/// `a` followed by `b`.
pub fn joined(a: &str, b: &str) -> (text: String)
    ensures
        text@ == a@ + b@,
{
    let mut text = String::new();
    text.append(a);
    text.append(b);
    proof {
        assert(Seq::<char>::empty() + a@ == a@);
    }
    text
}

/// `c` in lower case, where it is an ASCII letter.
pub open spec fn ascii_lower(c: char) -> int {
    if 'A' <= c <= 'Z' {
        c as int + 32
    } else {
        c as int
    }
}

/// Whether `a` and `b` are the same text when the case of ASCII letters does not count.
pub open spec fn same_but_case(a: Seq<char>, b: Seq<char>) -> bool {
    a.len() == b.len() && forall|i: int|
        0 <= i < a.len() ==> ascii_lower(#[trigger] a[i]) == ascii_lower(b[i])
}

fn lower(c: char) -> (code: u32)
    ensures
        code == ascii_lower(c),
{
    if 'A' <= c && c <= 'Z' {
        c as u32 + 32
    } else {
        c as u32
    }
}

/// Whether `a` and `b` are the same text when the case of ASCII letters does not count.
pub fn eq_ignore_ascii_case(a: &str, b: &str) -> (r: bool)
    ensures
        r == same_but_case(a@, b@),
{
    let left = chars_of(a);
    let right = chars_of(b);
    if left.len() != right.len() {
        return false;
    }
    let mut k: usize = 0;
    while k < left.len()
        invariant
            left@ == a@,
            right@ == b@,
            k <= left@.len() == right@.len(),
            forall|i: int| 0 <= i < k ==> ascii_lower(#[trigger] a@[i]) == ascii_lower(b@[i]),
        decreases left@.len() - k,
    {
        if lower(left[k]) != lower(right[k]) {
            assert(ascii_lower(a@[k as int]) != ascii_lower(b@[k as int]));
            return false;
        }
        k = k + 1;
    }
    true
}

/// Whether `a` and `b` agree up to place `k`, and place `k` puts `a` first: `a` ends there, or
/// has the lower code point.
pub open spec fn first_at(a: Seq<char>, b: Seq<char>, k: int) -> bool {
    &&& 0 <= k <= a.len()
    &&& k < b.len()
    &&& forall|i: int| 0 <= i < k ==> a[i] == b[i]
    &&& k == a.len() || a[k] < b[k]
}

/// Whether `a` comes before `b` in the order of strings, which goes by code points.
pub open spec fn comes_before(a: Seq<char>, b: Seq<char>) -> bool {
    exists|k: int| first_at(a, b, k)
}

/// Whether `a` comes before `b`.
pub fn is_before(a: &str, b: &str) -> (r: bool)
    ensures
        r == comes_before(a@, b@),
{
    let left = chars_of(a);
    let right = chars_of(b);
    let mut k: usize = 0;
    while k < left.len() && k < right.len()
        invariant
            left@ == a@,
            right@ == b@,
            k <= left@.len(),
            k <= right@.len(),
            forall|i: int| 0 <= i < k ==> a@[i] == b@[i],
        decreases left@.len() - k,
    {
        if left[k] < right[k] {
            assert(first_at(a@, b@, k as int));
            return true;
        }
        if right[k] < left[k] {
            assert forall|j: int| !first_at(a@, b@, j) by {
                if first_at(a@, b@, j) {
                    if j > k {
                        assert(a@[k as int] == b@[k as int]);
                    }
                }
            }
            return false;
        }
        k = k + 1;
    }
    let r: bool = k < right.len();
    proof {
        if r {
            assert(first_at(a@, b@, k as int));
        } else {
            assert forall|j: int| !first_at(a@, b@, j) by {
                if first_at(a@, b@, j) && j < k {
                    assert(a@[j] == b@[j]);
                }
            }
        }
    }
    r
}

/// The order of strings is total: of two texts that differ, one comes before the other.
pub proof fn law_order_is_total(a: Seq<char>, b: Seq<char>)
    ensures
        comes_before(a, b) || comes_before(b, a) || a == b,
{
    lemma_first_difference(a, b, 0);
}

proof fn lemma_first_difference(a: Seq<char>, b: Seq<char>, k: int)
    requires
        0 <= k <= a.len(),
        k <= b.len(),
        forall|i: int| 0 <= i < k ==> a[i] == b[i],
    ensures
        comes_before(a, b) || comes_before(b, a) || a == b,
    decreases a.len() - k,
{
    if k == a.len() || k == b.len() || a[k] != b[k] {
        if k == a.len() && k == b.len() {
            assert(a == b);
        } else if k == a.len() || (k < b.len() && a[k] < b[k]) {
            assert(first_at(a, b, k));
        } else {
            assert(first_at(b, a, k));
        }
    } else {
        lemma_first_difference(a, b, k + 1);
    }
}

/// The order of strings is strict: if `a` comes before `b`, then `b` does not come before `a`.
pub proof fn law_order_is_strict(a: Seq<char>, b: Seq<char>)
    requires
        comes_before(a, b),
    ensures
        !comes_before(b, a),
        a != b,
{
    let k = choose|k: int| first_at(a, b, k);
    assert forall|j: int| !first_at(b, a, j) by {
        if first_at(b, a, j) {
            if j < k {
                assert(a[j] == b[j]);
            } else if k < j {
                assert(a[k] == b[k]);
            }
        }
    }
    if a == b {
        assert(first_at(b, a, k));
    }
}

/// The order of strings is transitive.
pub proof fn law_order_is_transitive(a: Seq<char>, b: Seq<char>, c: Seq<char>)
    requires
        comes_before(a, b),
        comes_before(b, c),
    ensures
        comes_before(a, c),
{
    let j = choose|j: int| first_at(a, b, j);
    let k = choose|k: int| first_at(b, c, k);
    let m = if j < k { j } else { k };
    assert forall|i: int| 0 <= i < m implies a[i] == c[i] by {
        assert(a[i] == b[i]);
        assert(b[i] == c[i]);
    }
    if j < k {
        assert(b[j] == c[j]);
    } else if k < j {
        assert(a[k] == b[k]);
    }
    assert(first_at(a, c, m));
}

/// Two texts that differ only in a stretch of the same length at the same place are ordered by
/// that stretch. So names that differ in a time stamp of fixed width are ordered by the stamp.
pub proof fn law_order_goes_by_the_stamp(
    prefix: Seq<char>,
    a: Seq<char>,
    b: Seq<char>,
    suffix: Seq<char>,
)
    requires
        a.len() == b.len(),
    ensures
        comes_before(prefix + a + suffix, prefix + b + suffix) <==> comes_before(a, b),
{
    let start = prefix.len();
    let left = prefix + a + suffix;
    let right = prefix + b + suffix;
    assert forall|i: int| 0 <= i < a.len() implies left[start + i] == a[i] && right[start + i]
        == b[i] by {}
    assert forall|i: int| 0 <= i < start implies left[i] == right[i] by {}
    assert forall|i: int| start + a.len() <= i < left.len() implies left[i] == right[i] by {}
    if comes_before(a, b) {
        let k = choose|k: int| first_at(a, b, k);
        assert forall|i: int| 0 <= i < start + k implies left[i] == right[i] by {
            if i >= start {
                assert(a[i - start] == b[i - start]);
            }
        }
        assert(first_at(left, right, start + k));
    }
    if comes_before(left, right) {
        let k = choose|k: int| first_at(left, right, k);
        assert(start <= k < start + a.len());
        assert forall|i: int| 0 <= i < k - start implies a[i] == b[i] by {
            assert(left[start + i] == right[start + i]);
        }
        assert(left[start + (k - start)] == a[k - start]);
        assert(first_at(a, b, k - start));
    }
}

/// The order of strings is that of code points: where two texts first differ, the one with the
/// smaller code point comes first; and a text comes before what it is the start of.
pub proof fn law_order_is_by_code_points(a: Seq<char>, b: Seq<char>, k: int)
    requires
        0 <= k <= a.len(),
        k <= b.len(),
        forall|i: int| 0 <= i < k ==> a[i] == b[i],
        k < a.len() && k < b.len() ==> a[k] != b[k],
        k < a.len() || k < b.len(),
    ensures
        k < a.len() && k < b.len() ==> (comes_before(a, b) <==> (a[k] as int) < (b[k] as int)),
        k == a.len() ==> comes_before(a, b),
        k == b.len() ==> !comes_before(a, b),
        comes_before(a, b) <==> !comes_before(b, a),
{
    if k == a.len() || (k < b.len() && (a[k] as int) < (b[k] as int)) {
        assert(first_at(a, b, k));
        law_order_is_strict(a, b);
    } else {
        assert(first_at(b, a, k));
        law_order_is_strict(b, a);
    }
}

/// The number that a run of decimal digits stands for.
pub open spec fn number(digits: Seq<char>) -> int
    decreases digits.len(),
{
    if digits.len() == 0 {
        0
    } else {
        10 * number(digits.drop_last()) + (digits.last() as int - '0' as int)
    }
}

/// Of two names that differ only in a number of fixed width, such as a date and time, the one with
/// the smaller number comes first.
pub proof fn law_smaller_number_comes_first(
    prefix: Seq<char>,
    a: Seq<char>,
    b: Seq<char>,
    suffix: Seq<char>,
)
    requires
        a.len() == b.len(),
        forall|i: int| 0 <= i < a.len() ==> '0' <= #[trigger] a[i] <= '9',
        forall|i: int| 0 <= i < b.len() ==> '0' <= #[trigger] b[i] <= '9',
    ensures
        comes_before(prefix + a + suffix, prefix + b + suffix) <==> number(a) < number(b),
{
    law_order_goes_by_the_stamp(prefix, a, b, suffix);
    lemma_numbers(a, b);
}

proof fn lemma_numbers(a: Seq<char>, b: Seq<char>)
    requires
        a.len() == b.len(),
        forall|i: int| 0 <= i < a.len() ==> '0' <= #[trigger] a[i] <= '9',
        forall|i: int| 0 <= i < b.len() ==> '0' <= #[trigger] b[i] <= '9',
    ensures
        comes_before(a, b) <==> number(a) < number(b),
        number(a) == number(b) <==> a == b,
    decreases a.len(),
{
    if a.len() == 0 {
        assert(a == b);
        assert forall|k: int| !first_at(a, b, k) by {}
    } else {
        let (x, y) = (a.drop_last(), b.drop_last());
        let last = a.len() - 1;
        assert forall|i: int| 0 <= i < x.len() implies '0' <= #[trigger] x[i] <= '9' by {
            assert(x[i] == a[i]);
        }
        assert forall|i: int| 0 <= i < y.len() implies '0' <= #[trigger] y[i] <= '9' by {
            assert(y[i] == b[i]);
        }
        lemma_numbers(x, y);
        assert('0' <= a[last] <= '9' && '0' <= b[last] <= '9');
        assert(a == x.push(a[last]) && b == y.push(b[last]));
        if x == y {
            assert forall|i: int| 0 <= i < last implies a[i] == b[i] by {
                assert(x[i] == y[i]);
            }
            if a[last] != b[last] {
                law_order_is_by_code_points(a, b, last);
            } else {
                assert(a == b);
                if comes_before(a, b) {
                    law_order_is_strict(a, b);
                }
            }
        } else {
            if a == b {
                assert(x == y);
            }
            law_order_is_total(x, y);
            if comes_before(x, y) {
                let k = choose|k: int| first_at(x, y, k);
                assert forall|i: int| 0 <= i < k implies a[i] == b[i] by {
                    assert(x[i] == y[i]);
                }
                assert(x[k] == a[k] && y[k] == b[k]);
                assert(first_at(a, b, k));
            } else {
                let k = choose|k: int| first_at(y, x, k);
                assert forall|i: int| 0 <= i < k implies a[i] == b[i] by {
                    assert(x[i] == y[i]);
                }
                assert(x[k] == a[k] && y[k] == b[k]);
                assert(first_at(b, a, k));
                law_order_is_strict(b, a);
            }
        }
    }
}

/// Two texts are the same but for case if and only if they are of one length and, place by place,
/// hold the same character, or an ASCII letter once in upper and once in lower case.
pub proof fn law_only_the_case_of_letters_is_ignored(a: Seq<char>, b: Seq<char>)
    ensures
        same_but_case(a, b) <==> a.len() == b.len() && forall|i: int|
            0 <= i < a.len() ==> {
                let (x, y) = (#[trigger] a[i], b[i]);
                x == y || ('A' <= x <= 'Z' && y as int == x as int + 32) || ('A' <= y <= 'Z'
                    && x as int == y as int + 32)
            },
{
    if a.len() == b.len() {
        assert forall|i: int| 0 <= i < a.len() implies (ascii_lower(#[trigger] a[i])
            == ascii_lower(b[i]) <==> {
            let (x, y) = (a[i], b[i]);
            x == y || ('A' <= x <= 'Z' && y as int == x as int + 32) || ('A' <= y <= 'Z' && x as int
                == y as int + 32)
        }) by {}
        if same_but_case(a, b) {
            assert forall|i: int| 0 <= i < a.len() implies {
                let (x, y) = (#[trigger] a[i], b[i]);
                x == y || ('A' <= x <= 'Z' && y as int == x as int + 32) || ('A' <= y <= 'Z'
                    && x as int == y as int + 32)
            } by {
                assert(ascii_lower(a[i]) == ascii_lower(b[i]));
            }
        }
    }
}

} // verus!
