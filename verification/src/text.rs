//! Reading text that is held as bytes: searching, trimming, numbers.
use vstd::prelude::*;
use vstd::slice::slice_subrange;

verus! {

/// The first place at or behind `from` at which `needle` stands in `hay`.
pub open spec fn first_at(hay: Seq<u8>, needle: Seq<u8>, from: int) -> Option<int>
    decreases hay.len() - from + 1,
{
    if from < 0 || from + needle.len() > hay.len() {
        None
    } else if hay.subrange(from, from + needle.len()) == needle {
        Some(from)
    } else {
        first_at(hay, needle, from + 1)
    }
}

/// The two are the same bytes.
pub(crate) fn same_bytes(a: &[u8], b: &[u8]) -> (same: bool)
    ensures
        same == (a@ == b@),
{
    if a.len() != b.len() {
        return false;
    }
    let mut i: usize = 0;
    while i < a.len()
        invariant
            i <= a@.len() == b@.len(),
            forall|j: int| 0 <= j < i ==> #[trigger] a@[j] == b@[j],
        decreases a@.len() - i,
    {
        if a[i] != b[i] {
            assert(a@[i as int] != b@[i as int]);
            return false;
        }
        i += 1;
    }
    assert(a@ =~= b@);
    true
}

/// The first place at which `needle` stands in `hay`.
pub(crate) fn find(hay: &[u8], needle: &[u8]) -> (place: Option<usize>)
    ensures
        match place {
            Some(i) => first_at(hay@, needle@, 0) == Some(i as int) && i + needle@.len()
                <= hay@.len(),
            None => first_at(hay@, needle@, 0) is None,
        },
{
    if needle.len() > hay.len() {
        return None;
    }
    let last: usize = hay.len() - needle.len();
    let mut i: usize = 0;
    while i <= last
        invariant
            i <= last + 1,
            last + needle@.len() == hay@.len(),
            hay@.len() <= usize::MAX,
            first_at(hay@, needle@, 0) == first_at(hay@, needle@, i as int),
        decreases last + 1 - i,
    {
        let end: usize = i + needle.len();
        if same_bytes(slice_subrange(hay, i, end), needle) {
            return Some(i);
        }
        if i == last {
            return None;
        }
        i += 1;
    }
    None
}

/// The first place at which `byte` stands.
pub(crate) fn find_byte(hay: &[u8], byte: u8) -> (place: Option<usize>)
    ensures
        match place {
            Some(i) => hay@.index_of_first(byte) == Some(i as int) && i < hay@.len(),
            None => hay@.index_of_first(byte) is None,
        },
{
    proof {
        hay@.index_of_first_ensures(byte);
    }
    let mut i: usize = 0;
    while i < hay.len()
        invariant
            i <= hay@.len(),
            forall|j: int| 0 <= j < i ==> #[trigger] hay@[j] != byte,
            match hay@.index_of_first(byte) {
                Some(index) => 0 <= index < hay@.len() && hay@[index] == byte && forall|j: int|
                    0 <= j < index < hay@.len() ==> hay@[j] != byte,
                None => !hay@.contains(byte),
            },
        decreases hay@.len() - i,
    {
        if hay[i] == byte {
            assert(hay@.contains(byte));
            let ghost first = hay@.index_of_first(byte).unwrap();
            assert(hay@[i as int] == byte && hay@[first] == byte);
            return Some(i);
        }
        i += 1;
    }
    None
}

// ---------------------------------------------------------------------------
// White space
// ---------------------------------------------------------------------------

/// Three bytes that encode a white-space character.
pub open spec fn is_wide_blank(a: u8, b: u8, c: u8) -> bool {
    ||| a == 0xE1 && b == 0x9A && c == 0x80
    ||| a == 0xE2 && b == 0x80 && (0x80 <= c <= 0x8A || c == 0xA8 || c == 0xA9 || c == 0xAF)
    ||| a == 0xE2 && b == 0x81 && c == 0x9F
    ||| a == 0xE3 && b == 0x80 && c == 0x80
}

/// How many of three bytes, of which the first `n` are there, a white-space character takes up.
pub open spec fn blank_width(a: u8, b: u8, c: u8, n: int) -> int {
    if n >= 1 && (a == 0x20 || 0x09 <= a <= 0x0D) {
        1
    } else if n >= 2 && a == 0xC2 && (b == 0x85 || b == 0xA0) {
        2
    } else if n >= 3 && is_wide_blank(a, b, c) {
        3
    } else {
        0
    }
}

/// How many bytes the white-space character at the front takes up; 0 where none stands there.
pub open spec fn blank_front(s: Seq<u8>) -> int {
    blank_width(s[0], s[1], s[2], s.len() as int)
}

/// How many bytes the white-space character at the back takes up; 0 where none stands there.
pub open spec fn blank_back(s: Seq<u8>) -> int {
    let n = s.len() as int;
    if n >= 1 && blank_width(s[n - 1], 0, 0, 1) == 1 {
        1
    } else if n >= 2 && blank_width(s[n - 2], s[n - 1], 0, 2) == 2 {
        2
    } else if n >= 3 && blank_width(s[n - 3], s[n - 2], s[n - 1], 3) == 3 {
        3
    } else {
        0
    }
}

/// Without white space at the front.
pub open spec fn trimmed_front(s: Seq<u8>) -> Seq<u8>
    decreases s.len(),
{
    if blank_front(s) == 0 {
        s
    } else {
        trimmed_front(s.skip(blank_front(s)))
    }
}

/// Without white space at the back.
pub open spec fn trimmed_back(s: Seq<u8>) -> Seq<u8>
    decreases s.len(),
{
    if blank_back(s) == 0 {
        s
    } else {
        trimmed_back(s.take(s.len() - blank_back(s)))
    }
}

/// Without white space around it.
pub open spec fn trimmed(s: Seq<u8>) -> Seq<u8> {
    trimmed_back(trimmed_front(s))
}

fn width_of_blank(a: u8, b: u8, c: u8, n: usize) -> (width: usize)
    ensures
        width == blank_width(a, b, c, n as int),
{
    if n >= 1 && (a == 0x20 || (0x09 <= a && a <= 0x0D)) {
        1
    } else if n >= 2 && a == 0xC2 && (b == 0x85 || b == 0xA0) {
        2
    } else if n >= 3 && ((a == 0xE1 && b == 0x9A && c == 0x80) || (a == 0xE2 && b == 0x80 && ((0x80
        <= c && c <= 0x8A) || c == 0xA8 || c == 0xA9 || c == 0xAF)) || (a == 0xE2 && b == 0x81 && c
        == 0x9F) || (a == 0xE3 && b == 0x80 && c == 0x80)) {
        3
    } else {
        0
    }
}

/// Without white space around it, as `str::trim` has it.
pub(crate) fn trim(s: &[u8]) -> (r: &[u8])
    ensures
        r@ == trimmed(s@),
{
    let mut start: usize = 0;
    let mut front: usize = 1;
    assert(s@.skip(0) =~= s@);
    while front > 0
        invariant
            start <= s@.len(),
            front <= 3,
            trimmed_front(s@) == trimmed_front(s@.skip(start as int)),
            front == 0 ==> blank_front(s@.skip(start as int)) == 0,
        decreases s@.len() - start + front,
    {
        let left: usize = s.len() - start;
        let a: u8 = if left >= 1 {
            s[start]
        } else {
            0
        };
        let b: u8 = if left >= 2 {
            s[start + 1]
        } else {
            0
        };
        let c: u8 = if left >= 3 {
            s[start + 2]
        } else {
            0
        };
        front = width_of_blank(a, b, c, left);
        assert(front == blank_front(s@.skip(start as int)));
        assert(s@.skip(start as int).skip(front as int) =~= s@.skip(start + front));
        start += front;
    }
    let ghost rest = s@.skip(start as int);
    let mut end: usize = s.len();
    let mut back: usize = 1;
    assert(s@.subrange(start as int, end as int) =~= rest);
    while back > 0
        invariant
            start <= end <= s@.len(),
            back <= 3,
            trimmed_back(rest) == trimmed_back(s@.subrange(start as int, end as int)),
            back == 0 ==> blank_back(s@.subrange(start as int, end as int)) == 0,
        decreases end - start + back,
    {
        let left: usize = end - start;
        back = 0;
        if left >= 1 && width_of_blank(s[end - 1], 0, 0, 1) == 1 {
            back = 1;
        } else if left >= 2 && width_of_blank(s[end - 2], s[end - 1], 0, 2) == 2 {
            back = 2;
        } else if left >= 3 && width_of_blank(s[end - 3], s[end - 2], s[end - 1], 3) == 3 {
            back = 3;
        }
        let ghost now = s@.subrange(start as int, end as int);
        assert(back == blank_back(now));
        assert(now.take(now.len() - back) =~= s@.subrange(start as int, end - back));
        end -= back;
    }
    slice_subrange(s, start, end)
}

// ---------------------------------------------------------------------------
// Numbers
// ---------------------------------------------------------------------------

/// Only decimal digits.
pub open spec fn all_digits(s: Seq<u8>) -> bool {
    forall|i: int| 0 <= i < s.len() ==> 0x30 <= #[trigger] s[i] <= 0x39
}

/// The number that the digits write.
pub open spec fn decimal(digits: Seq<u8>) -> int
    decreases digits.len(),
{
    if digits.len() == 0 {
        0
    } else {
        decimal(digits.drop_last()) * 10 + (digits.last() - 0x30)
    }
}

/// The digits of a number, behind a plus sign where there is one.
pub open spec fn digits_of(s: Seq<u8>) -> Seq<u8> {
    if s.len() > 0 && s[0] == 0x2B {
        s.skip(1)
    } else {
        s
    }
}

/// The number that the text writes, if it writes one that a `usize` can hold.
pub open spec fn number(s: Seq<u8>) -> Option<usize> {
    let digits = digits_of(s);
    if digits.len() > 0 && all_digits(digits) && decimal(digits) <= usize::MAX {
        Some(decimal(digits) as usize)
    } else {
        None
    }
}

proof fn lemma_decimal_grows(digits: Seq<u8>, n: int)
    requires
        all_digits(digits),
        0 <= n <= digits.len(),
    ensures
        0 <= decimal(digits.take(n)) <= decimal(digits),
    decreases digits.len(),
{
    if n == digits.len() {
        assert(digits.take(n) =~= digits);
        if n > 0 {
            lemma_decimal_grows(digits.drop_last(), n - 1);
            assert(digits.drop_last().take(n - 1) =~= digits.drop_last());
        }
    } else {
        lemma_decimal_grows(digits.drop_last(), n);
        assert(digits.drop_last().take(n) =~= digits.take(n));
    }
}

/// The number that the text writes, as `str::parse` reads one.
pub(crate) fn parse_number(s: &[u8]) -> (r: Option<usize>)
    ensures
        r == number(s@),
{
    let start: usize = if s.len() > 0 && s[0] == 0x2B {
        1
    } else {
        0
    };
    let digits: &[u8] = slice_subrange(s, start, s.len());
    assert(digits@ =~= digits_of(s@));
    if digits.len() == 0 {
        return None;
    }
    let mut value: usize = 0;
    let mut i: usize = 0;
    while i < digits.len()
        invariant
            i <= digits@.len(),
            digits@ == digits_of(s@),
            forall|j: int| 0 <= j < i ==> 0x30 <= #[trigger] digits@[j] <= 0x39,
            value == decimal(digits@.take(i as int)),
        decreases digits@.len() - i,
    {
        let d: u8 = digits[i];
        if d < 0x30 || d > 0x39 {
            assert(!(0x30 <= digits@[i as int] <= 0x39));
            return None;
        }
        let add: usize = (d - 0x30) as usize;
        proof {
            assert(digits@.take(i + 1).drop_last() =~= digits@.take(i as int));
            if all_digits(digits@) {
                lemma_decimal_grows(digits@, i + 1);
            }
        }
        if value > usize::MAX / 10 || value * 10 > usize::MAX - add {
            return None;
        }
        value = value * 10 + add;
        i += 1;
    }
    assert(digits@.take(i as int) =~= digits@);
    Some(value)
}

/// What is found is the first place: the needle stands there, and nowhere before; and where none is
/// found it stands nowhere.
pub proof fn first_at_is_the_first(hay: Seq<u8>, needle: Seq<u8>, from: int)
    requires
        0 <= from,
    ensures
        match first_at(hay, needle, from) {
            Some(p) => {
                &&& from <= p && p + needle.len() <= hay.len()
                &&& hay.subrange(p, p + needle.len()) == needle
                &&& forall|q: int|
                    from <= q < p ==> #[trigger] hay.subrange(q, q + needle.len()) != needle
            },
            None => forall|q: int|
                from <= q && q + needle.len() <= hay.len() ==> #[trigger] hay.subrange(
                    q,
                    q + needle.len(),
                ) != needle,
        },
    decreases hay.len() - from + 1,
{
    if from + needle.len() <= hay.len() && hay.subrange(from, from + needle.len()) != needle {
        first_at_is_the_first(hay, needle, from + 1);
    }
}

/// One digit writes its own value, a further digit adds to ten times what stands before it, a plus
/// sign in front changes nothing, and what does not fit in a `usize` is no number.
pub proof fn digits_write_numbers(s: Seq<u8>, d: int)
    requires
        0 <= d <= 9,
        s.len() > 0,
    ensures
        number(seq![(0x30 + d) as u8]) == Some(d as usize),
        match number(s) {
            Some(v) => number(s.push((0x30 + d) as u8)) == if v * 10 + d <= usize::MAX {
                Some((v * 10 + d) as usize)
            } else {
                None
            },
            None => s != seq![0x2Bu8] ==> number(s.push((0x30 + d) as u8)) is None,
        },
        s[0] != 0x2B ==> number(seq![0x2Bu8] + s) == number(s),
{
    let one = seq![(0x30 + d) as u8];
    assert(one.drop_last() =~= Seq::empty());
    assert(decimal(one) == d) by {
        reveal_with_fuel(decimal, 2);
    }
    assert(digits_of(one) == one);
    assert(all_digits(one));
    let more = s.push((0x30 + d) as u8);
    let digits = digits_of(s);
    if s[0] == 0x2B {
        assert(digits_of(more) =~= digits.push((0x30 + d) as u8));
    } else {
        assert(digits_of(more) =~= digits.push((0x30 + d) as u8));
    }
    let longer = digits.push((0x30 + d) as u8);
    assert(longer.drop_last() =~= digits);
    assert(longer.last() == (0x30 + d) as u8);
    assert(decimal(longer) == decimal(digits) * 10 + d);
    if all_digits(digits) {
        lemma_decimal_grows(digits, 0);
        assert(all_digits(longer));
        assert(digits.take(0) =~= Seq::empty());
    } else {
        let i = choose|i: int| 0 <= i < digits.len() && !(0x30 <= #[trigger] digits[i] <= 0x39);
        assert(longer[i] == digits[i]);
        assert(!all_digits(longer));
    }
    if digits.len() == 0 {
        assert(s =~= seq![0x2Bu8]);
    }
    if s[0] != 0x2B {
        assert((seq![0x2Bu8] + s).skip(1) =~= s);
        assert(digits_of(seq![0x2Bu8] + s) == s);
    }
}

/// Text that holds anything but digits, behind a plus sign or not, is no number, nor is none at all.
pub proof fn other_text_is_no_number(s: Seq<u8>, i: int)
    requires
        s.len() == 0 || (0 <= i < s.len() && !(0x30 <= s[i] <= 0x39) && (i > 0 || s[i] != 0x2B
            || s.len() == 1)),
    ensures
        number(s) is None,
{
    let digits = digits_of(s);
    if s.len() > 1 {
        if s[0] == 0x2B {
            assert(digits[i - 1] == s[i]);
        } else {
            assert(digits[i] == s[i]);
        }
    }
}

/// White space at either end, as far as it is ASCII, does not matter.
pub proof fn trimming_drops_blanks(s: Seq<u8>, b: u8)
    requires
        b == 0x20 || 0x09 <= b <= 0x0D,
    ensures
        trimmed(seq![b] + s) == trimmed(s),
        trimmed(s.push(b)) == trimmed(s),
{
    let wide = seq![b] + s;
    assert(wide[0] == b);
    assert(blank_front(wide) == 1);
    assert(wide.skip(1) =~= s);
    assert(trimmed_front(wide) == trimmed_front(s));
    lemma_blank_behind(s, b);
    let front = trimmed_front(s);
    let t = front.push(b);
    if trimmed_front(s.push(b)) == t {
        assert(t[t.len() - 1] == b);
        assert(blank_width(t[t.len() - 1], 0, 0, 1) == 1);
        assert(blank_back(t) == 1);
        assert(t.take(t.len() - 1) =~= front);
        assert(trimmed_back(t) == trimmed_back(front));
    } else {
        assert(trimmed_front(s.push(b)) =~= front);
    }
}

/// Text that starts and ends with a visible character stays as it is.
pub proof fn trimming_keeps_the_visible(s: Seq<u8>)
    requires
        s.len() > 0 ==> 0x21 <= s[0] <= 0x7E && 0x21 <= s.last() <= 0x7E,
    ensures
        trimmed(s) == s,
{
    assert(blank_front(s) == 0);
    assert(trimmed_front(s) == s);
    let n = s.len() as int;
    if n >= 1 {
        assert(s[n - 1] == s.last());
        assert(blank_width(s[n - 1], 0, 0, 1) == 0);
    }
    if n >= 2 {
        assert(blank_width(s[n - 2], s[n - 1], 0, 2) != 2);
    }
    if n >= 3 {
        assert(blank_width(s[n - 3], s[n - 2], s[n - 1], 3) != 3);
    }
    assert(blank_back(s) == 0);
}

/// A blank behind the text stays behind what is left of its front, unless nothing is.
proof fn lemma_blank_behind(s: Seq<u8>, b: u8)
    requires
        b == 0x20 || 0x09 <= b <= 0x0D,
    ensures
        trimmed_front(s.push(b)) == trimmed_front(s).push(b) || (trimmed_front(s.push(b)).len() == 0
            && trimmed_front(s).len() == 0),
    decreases s.len(),
{
    let more = s.push(b);
    if s.len() == 0 {
        assert(more[0] == b);
        assert(blank_front(more) == 1);
        assert(more.skip(1) =~= Seq::empty());
        assert(blank_front(more.skip(1)) == 0);
        assert(trimmed_front(more.skip(1)) == more.skip(1));
        assert(trimmed_front(more) == trimmed_front(more.skip(1)));
        assert(blank_front(s) == 0);
        assert(trimmed_front(s) == s);
    } else {
        assert(more[0] == s[0]);
        if s.len() >= 2 {
            assert(more[1] == s[1]);
        } else {
            assert(more[1] == b);
        }
        if s.len() >= 3 {
            assert(more[2] == s[2]);
        } else if s.len() == 2 {
            assert(more[2] == b);
        }
        let w = blank_front(s);
        assert(blank_front(more) == w);
        if w > 0 {
            lemma_blank_behind(s.skip(w), b);
            assert(more.skip(w) =~= s.skip(w).push(b));
        }
    }
}

/// A blank of Unicode, in UTF-8, before the text or behind it is dropped: a space, one of the five
/// controls from the tab on, U+0085, U+00A0, U+1680, U+2000 to U+200A, U+2028, U+2029, U+202F,
/// U+205F or U+3000.
pub proof fn trimming_drops_every_blank(s: Seq<u8>, w: Seq<u8>)
    requires
({
        ||| w.len() == 1 && (w[0] == 0x20 || 0x09 <= w[0] <= 0x0D)
        ||| w.len() == 2 && w[0] == 0xC2 && (w[1] == 0x85 || w[1] == 0xA0)
        ||| w.len() == 3 && w[0] == 0xE1 && w[1] == 0x9A && w[2] == 0x80
        ||| w.len() == 3 && w[0] == 0xE2 && w[1] == 0x80 && (0x80 <= w[2] <= 0x8A || w[2]
            == 0xA8 || w[2] == 0xA9 || w[2] == 0xAF)
        ||| w.len() == 3 && w[0] == 0xE2 && w[1] == 0x81 && w[2] == 0x9F
        ||| w.len() == 3 && w[0] == 0xE3 && w[1] == 0x80 && w[2] == 0x80
        }),
    ensures
        trimmed(w + s) == trimmed(s),
        trimmed(s + w) == trimmed(s),
{
    let before = w + s;
    let n = w.len() as int;
    assert(before[0] == w[0]);
    assert(n >= 2 ==> before[1] == w[1]);
    assert(n >= 3 ==> before[2] == w[2]);
    assert(blank_front(before) == n);
    assert(before.skip(n) =~= s);
    assert(trimmed_front(before) == trimmed_front(s));
    lemma_blanks_behind(s, w);
    let front = trimmed_front(s);
    let t = front + w;
    if trimmed_front(s + w) == t {
        let m = t.len() as int;
        assert(t[m - 1] == w[n - 1]);
        assert(n >= 2 ==> t[m - 2] == w[n - 2]);
        assert(n >= 3 ==> t[m - 3] == w[n - 3]);
        assert(blank_back(t) == n);
        assert(t.take(m - n) =~= front);
        assert(trimmed_back(t) == trimmed_back(front));
    } else {
        assert(trimmed_front(s + w) =~= front);
    }
}

proof fn lemma_blanks_behind(s: Seq<u8>, w: Seq<u8>)
    requires
        1 <= w.len() <= 3,
        blank_width(
            w[0],
            if w.len() >= 2 {
                w[1]
            } else {
                0
            },
            if w.len() >= 3 {
                w[2]
            } else {
                0
            },
            w.len() as int,
        ) == w.len(),
    ensures
        trimmed_front(s + w) == trimmed_front(s) + w || (trimmed_front(s + w).len() == 0
            && trimmed_front(s).len() == 0),
    decreases s.len(),
{
    let more = s + w;
    if s.len() == 0 {
        assert(more =~= w);
        assert(blank_front(more) == w.len());
        assert(more.skip(w.len() as int) =~= Seq::empty());
        assert(blank_front(more.skip(w.len() as int)) == 0);
        assert(trimmed_front(more) == trimmed_front(more.skip(w.len() as int)));
        assert(blank_front(s) == 0);
    } else {
        assert(more[0] == s[0]);
        if s.len() >= 2 {
            assert(more[1] == s[1]);
        } else {
            assert(more[1] == w[0]);
        }
        if s.len() >= 3 {
            assert(more[2] == s[2]);
        } else if s.len() == 2 {
            assert(more[2] == w[0]);
        }
        let b = blank_front(s);
        assert(blank_front(more) == b);
        if b > 0 {
            lemma_blanks_behind(s.skip(b), w);
            assert(more.skip(b) =~= s.skip(b) + w);
        }
    }
}

/// Text stays as it is exactly if it neither starts nor ends with a blank.
pub proof fn trimming_changes_nothing_else(s: Seq<u8>)
    ensures
        ({
            let blank = |w: Seq<u8>|
                {
                    ||| w.len() == 1 && (w[0] == 0x20 || 0x09 <= w[0] <= 0x0D)
                    ||| w.len() == 2 && w[0] == 0xC2 && (w[1] == 0x85 || w[1] == 0xA0)
                    ||| w.len() == 3 && w[0] == 0xE1 && w[1] == 0x9A && w[2] == 0x80
                    ||| w.len() == 3 && w[0] == 0xE2 && w[1] == 0x80 && (0x80 <= w[2] <= 0x8A || w[2]
                        == 0xA8 || w[2] == 0xA9 || w[2] == 0xAF)
                    ||| w.len() == 3 && w[0] == 0xE2 && w[1] == 0x81 && w[2] == 0x9F
                    ||| w.len() == 3 && w[0] == 0xE3 && w[1] == 0x80 && w[2] == 0x80
                };
            let n = s.len() as int;
            let starts = |k: int| k <= n && blank(s.take(k));
            let ends = |k: int| k <= n && blank(s.skip(n - k));
            trimmed(s) == s <==> !starts(1) && !starts(2) && !starts(3) && !ends(1) && !ends(2)
                && !ends(3)
        }),
{
    let n = s.len() as int;
    lemma_trimmed_is_shorter(s);
    if blank_front(s) > 0 {
        lemma_trimmed_is_shorter(s.skip(blank_front(s)));
        assert(trimmed(s).len() < s.len());
    } else {
        assert(trimmed_front(s) == s);
        if blank_back(s) > 0 {
            lemma_trimmed_back_is_shorter(s.take(n - blank_back(s)));
            assert(trimmed(s).len() < s.len());
        } else {
            assert(trimmed(s) == s);
        }
    }
    if n >= 1 {
        assert(s.take(1)[0] == s[0] && s.skip(n - 1)[0] == s[n - 1]);
    }
    if n >= 2 {
        assert(s.take(2)[0] == s[0] && s.take(2)[1] == s[1]);
        assert(s.skip(n - 2)[0] == s[n - 2] && s.skip(n - 2)[1] == s[n - 1]);
    }
    if n >= 3 {
        assert(s.take(3)[0] == s[0] && s.take(3)[1] == s[1] && s.take(3)[2] == s[2]);
        assert(s.skip(n - 3)[0] == s[n - 3] && s.skip(n - 3)[1] == s[n - 2] && s.skip(n - 3)[2]
            == s[n - 1]);
    }
}

proof fn lemma_trimmed_back_is_shorter(s: Seq<u8>)
    ensures
        trimmed_back(s).len() <= s.len(),
    decreases s.len(),
{
    if blank_back(s) != 0 {
        lemma_trimmed_back_is_shorter(s.take(s.len() - blank_back(s)));
    }
}

proof fn lemma_trimmed_front_is_shorter(s: Seq<u8>)
    ensures
        trimmed_front(s).len() <= s.len(),
    decreases s.len(),
{
    if blank_front(s) != 0 {
        lemma_trimmed_front_is_shorter(s.skip(blank_front(s)));
    }
}

proof fn lemma_trimmed_is_shorter(s: Seq<u8>)
    ensures
        trimmed(s).len() <= s.len(),
{
    lemma_trimmed_front_is_shorter(s);
    lemma_trimmed_back_is_shorter(trimmed_front(s));
}

} // verus!
