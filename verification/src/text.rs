//! Reading the short texts that the game attaches to a step.

use vstd::prelude::*;

verus! {

/// The first position at or after `from` that holds `c`, or the length where there is none.
pub open spec fn index_from(s: Seq<char>, c: char, from: int) -> int
    decreases s.len() - from,
{
    if from < 0 || from >= s.len() {
        s.len() as int
    } else if s[from] == c {
        from
    } else {
        index_from(s, c, from + 1)
    }
}

/// What is left of the first `to` characters once every trailing `c` is dropped.
pub open spec fn end_without(s: Seq<char>, c: char, to: int) -> int
    decreases to,
{
    if to <= 0 {
        0
    } else if s[to - 1] == c {
        end_without(s, c, to - 1)
    } else {
        to
    }
}

/// `pattern` stands somewhere in `s`.
pub open spec fn holds_text(s: Seq<char>, pattern: Seq<char>) -> bool {
    exists|i: int|
        0 <= i <= s.len() - pattern.len() && #[trigger] s.subrange(i, i + pattern.len()) == pattern
}

/// `s` begins with `prefix`.
pub open spec fn begins_with(s: Seq<char>, prefix: Seq<char>) -> bool {
    prefix.len() <= s.len() && s.subrange(0, prefix.len() as int) == prefix
}

/// The characters with Unicode's `White_Space` property.
pub open spec fn is_space(c: char) -> bool {
    ||| '\u{9}' <= c <= '\u{d}'
    ||| c == ' '
    ||| c == '\u{85}'
    ||| c == '\u{a0}'
    ||| c == '\u{1680}'
    ||| '\u{2000}' <= c <= '\u{200a}'
    ||| c == '\u{2028}'
    ||| c == '\u{2029}'
    ||| c == '\u{202f}'
    ||| c == '\u{205f}'
    ||| c == '\u{3000}'
}

/// The first position at or after `from` whose character is no white space, or the length.
pub open spec fn skip_spaces(s: Seq<char>, from: int) -> int
    decreases s.len() - from,
{
    if from < 0 || from >= s.len() {
        s.len() as int
    } else if is_space(s[from]) {
        skip_spaces(s, from + 1)
    } else {
        from
    }
}

/// The end of the last character before `to`, and not before `from`, that is no white space.
pub open spec fn drop_spaces(s: Seq<char>, from: int, to: int) -> int
    decreases to - from,
{
    if to <= from {
        from
    } else if is_space(s[to - 1]) {
        drop_spaces(s, from, to - 1)
    } else {
        to
    }
}

/// `s` without the white space at either end.
pub open spec fn trimmed(s: Seq<char>) -> Seq<char> {
    let from = skip_spaces(s, 0);
    s.subrange(from, drop_spaces(s, from, s.len() as int))
}

/// `c` is one of the ten decimal digits.
pub open spec fn is_digit(c: char) -> bool {
    '0' <= c <= '9'
}

/// Every character is a decimal digit.
pub open spec fn all_digits(s: Seq<char>) -> bool {
    forall|i: int| 0 <= i < s.len() ==> is_digit(#[trigger] s[i])
}

/// The number that a row of decimal digits writes.
pub open spec fn decimal(s: Seq<char>) -> int
    decreases s.len(),
{
    if s.len() == 0 {
        0
    } else {
        10 * decimal(s.drop_last()) + (s.last() as int - '0' as int)
    }
}

/// The number that `s` writes: decimal digits, at least one, with a plus sign before them or
/// none, of a value that a `usize` holds.
pub open spec fn number(s: Seq<char>) -> Option<usize> {
    let digits = if s.len() > 0 && s[0] == '+' {
        s.skip(1)
    } else {
        s
    };
    if digits.len() > 0 && all_digits(digits) && decimal(digits) <= usize::MAX {
        Some(decimal(digits) as usize)
    } else {
        None
    }
}

proof fn lemma_decimal_grows(s: Seq<char>, n: int)
    requires
        all_digits(s),
        0 <= n <= s.len(),
    ensures
        0 <= decimal(s.take(n)) <= decimal(s),
    decreases s.len(),
{
    if n == s.len() {
        assert(s.take(n) =~= s);
        if s.len() > 0 {
            assert(is_digit(s.last()));
            let shorter = s.drop_last();
            assert(all_digits(shorter)) by {
                assert forall|i: int| 0 <= i < shorter.len() implies is_digit(
                    #[trigger] shorter[i],
                ) by {
                    assert(is_digit(s[i]));
                }
            }
            lemma_decimal_grows(shorter, n - 1);
        }
    } else {
        assert(is_digit(s.last()));
        let shorter = s.drop_last();
        assert(all_digits(shorter)) by {
            assert forall|i: int| 0 <= i < shorter.len() implies is_digit(#[trigger] shorter[i]) by {
                assert(is_digit(s[i]));
            }
        }
        lemma_decimal_grows(shorter, n);
        assert(shorter.take(n) =~= s.take(n));
    }
}

/// The characters of `s`.
pub fn chars_of(s: &str) -> (v: Vec<char>)
    ensures
        v@ == s@,
{
    let n: usize = s.unicode_len();
    let mut v: Vec<char> = Vec::new();
    let mut i: usize = 0;
    while i < n
        invariant
            n == s@.len(),
            i <= n,
            v@ == s@.take(i as int),
        decreases n - i,
    {
        v.push(s.get_char(i));
        i = i + 1;
        assert(v@ =~= s@.take(i as int));
    }
    assert(s@.take(n as int) =~= s@);
    v
}

/// The characters of `v` from `from` up to `to`.
pub fn range_of(v: &Vec<char>, from: usize, to: usize) -> (r: Vec<char>)
    requires
        from <= to <= v@.len(),
    ensures
        r@ == v@.subrange(from as int, to as int),
{
    let mut r: Vec<char> = Vec::new();
    let mut i: usize = from;
    while i < to
        invariant
            from <= i <= to <= v@.len(),
            r@ == v@.subrange(from as int, i as int),
        decreases to - i,
    {
        r.push(v[i]);
        i = i + 1;
        assert(r@ =~= v@.subrange(from as int, i as int));
    }
    r
}

/// Finds `c` in `v`, from position `from` on.
pub fn find_char(v: &Vec<char>, c: char, from: usize) -> (i: usize)
    requires
        from <= v@.len(),
    ensures
        i == index_from(v@, c, from as int),
        from <= i <= v@.len(),
        i < v@.len() ==> v@[i as int] == c,
{
    let mut i: usize = from;
    while i < v.len() && v[i] != c
        invariant
            from <= i <= v@.len(),
            index_from(v@, c, from as int) == index_from(v@, c, i as int),
        decreases v@.len() - i,
    {
        i = i + 1;
    }
    i
}

/// Where `v` ends once every trailing `c` is dropped.
pub fn trim_end_char(v: &Vec<char>, c: char) -> (end: usize)
    ensures
        end == end_without(v@, c, v@.len() as int),
        end <= v@.len(),
{
    let mut end: usize = v.len();
    while end > 0 && v[end - 1] == c
        invariant
            end <= v@.len(),
            end_without(v@, c, v@.len() as int) == end_without(v@, c, end as int),
        decreases end,
    {
        end = end - 1;
    }
    end
}

/// Whether `c` is white space.
pub fn char_is_space(c: char) -> (r: bool)
    ensures
        r == is_space(c),
{
    ('\u{9}' <= c && c <= '\u{d}') || c == ' ' || c == '\u{85}' || c == '\u{a0}' || c == '\u{1680}'
        || ('\u{2000}' <= c && c <= '\u{200a}') || c == '\u{2028}' || c == '\u{2029}' || c
        == '\u{202f}' || c == '\u{205f}' || c == '\u{3000}'
}

/// `v` without the white space at either end.
pub fn trim(v: &Vec<char>) -> (r: Vec<char>)
    ensures
        r@ == trimmed(v@),
{
    let mut from: usize = 0;
    while from < v.len() && char_is_space(v[from])
        invariant
            from <= v@.len(),
            skip_spaces(v@, 0) == skip_spaces(v@, from as int),
        decreases v@.len() - from,
    {
        from = from + 1;
    }
    let mut to: usize = v.len();
    while to > from && char_is_space(v[to - 1])
        invariant
            from <= to <= v@.len(),
            drop_spaces(v@, from as int, v@.len() as int) == drop_spaces(
                v@,
                from as int,
                to as int,
            ),
        decreases to,
    {
        to = to - 1;
    }
    range_of(v, from, to)
}

/// Reads `v` as a number.
pub fn parse_usize(v: &Vec<char>) -> (r: Option<usize>)
    ensures
        r == number(v@),
{
    let start: usize = if v.len() > 0 && v[0] == '+' {
        1
    } else {
        0
    };
    let ghost digits = v@.skip(start as int);
    assert(start == 0 ==> digits =~= v@);
    if start == v.len() {
        return None;
    }
    let mut value: usize = 0;
    let mut i: usize = start;
    assert(digits.take(0) =~= Seq::<char>::empty());
    while i < v.len()
        invariant
            start <= 1,
            start <= i <= v@.len(),
            start < v@.len(),
            digits == v@.skip(start as int),
            number(v@) == (if all_digits(digits) && decimal(digits) <= usize::MAX {
                Some(decimal(digits) as usize)
            } else {
                None
            }),
            all_digits(digits.take(i - start)),
            value == decimal(digits.take(i - start)),
        decreases v@.len() - i,
    {
        let c: char = v[i];
        assert(digits[i - start] == c);
        if c < '0' || c > '9' {
            assert(!all_digits(digits)) by {
                assert(!is_digit(digits[i - start]));
            }
            return None;
        }
        let digit: usize = (c as u32 - '0' as u32) as usize;
        let ghost longer = digits.take(i - start + 1);
        assert(longer.drop_last() =~= digits.take(i - start));
        assert(longer.last() == c);
        assert(decimal(longer) == 10 * value + digit);
        let next: Option<usize> = match value.checked_mul(10) {
            None => None,
            Some(tens) => tens.checked_add(digit),
        };
        match next {
            None => {
                proof {
                    if all_digits(digits) {
                        lemma_decimal_grows(digits, i - start + 1);
                    }
                }
                return None;
            },
            Some(sum) => {
                value = sum;
            },
        }
        assert forall|k: int| 0 <= k < longer.len() implies is_digit(#[trigger] longer[k]) by {
            if k < i - start {
                assert(is_digit(digits.take(i - start)[k]));
            }
        }
        i = i + 1;
    }
    assert(digits.take(v@.len() - start) =~= digits);
    Some(value)
}

/// Whether `v` begins with `prefix`.
pub fn starts_with(v: &Vec<char>, prefix: &Vec<char>) -> (r: bool)
    ensures
        r == begins_with(v@, prefix@),
{
    if prefix.len() > v.len() {
        return false;
    }
    matches_at(v, prefix, 0)
}

/// Whether `pattern` stands in `v` at position `at`.
fn matches_at(v: &Vec<char>, pattern: &Vec<char>, at: usize) -> (r: bool)
    requires
        at + pattern@.len() <= v@.len(),
    ensures
        r == (v@.subrange(at as int, at + pattern@.len()) == pattern@),
{
    let ghost part = v@.subrange(at as int, at + pattern@.len());
    let n: usize = v.len();
    let mut k: usize = 0;
    while k < pattern.len()
        invariant
            k <= pattern@.len(),
            n == v@.len(),
            at + pattern@.len() <= n,
            part == v@.subrange(at as int, at + pattern@.len()),
            forall|j: int| 0 <= j < k ==> v@[at + j] == #[trigger] pattern@[j],
        decreases pattern@.len() - k,
    {
        if v[at + k] != pattern[k] {
            assert(part[k as int] != pattern@[k as int]);
            return false;
        }
        k = k + 1;
    }
    assert(part =~= pattern@);
    true
}

/// The first position at which `pattern` stands in `v`, where there is one.
pub fn find_text(v: &Vec<char>, pattern: &Vec<char>) -> (r: Option<usize>)
    ensures
        r is Some <==> holds_text(v@, pattern@),
        r matches Some(i) ==> {
            &&& i + pattern@.len() <= v@.len()
            &&& v@.subrange(i as int, i + pattern@.len()) == pattern@
            &&& forall|j: int|
                0 <= j < i ==> #[trigger] v@.subrange(j, j + pattern@.len()) != pattern@
        },
{
    if pattern.len() > v.len() {
        return None;
    }
    let last: usize = v.len() - pattern.len();
    let mut i: usize = 0;
    while i <= last
        invariant
            last + pattern@.len() == v@.len(),
            i <= last + 1,
            forall|j: int| 0 <= j < i ==> #[trigger] v@.subrange(j, j + pattern@.len()) != pattern@,
        decreases last + 1 - i,
    {
        if matches_at(v, pattern, i) {
            return Some(i);
        }
        if i == last {
            return None;
        }
        i = i + 1;
    }
    None
}

/// Whether `pattern` stands somewhere in `text`.
pub fn contains(text: &str, pattern: &str) -> (r: bool)
    ensures
        r == holds_text(text@, pattern@),
{
    let v: Vec<char> = chars_of(text);
    let p: Vec<char> = chars_of(pattern);
    find_text(&v, &p).is_some()
}

/// What `str::to_lowercase` makes of a text.
pub uninterp spec fn lowercase(s: Seq<char>) -> Seq<char>;

/// Calls `str::to_lowercase`. The result is what Unicode's lower-case mapping makes of the text,
/// named here and not spelled out.
#[verifier::external_body]
pub(crate) fn to_lower(s: &str) -> (r: String)
    ensures
        r@ == lowercase(s@),
{
    s.to_lowercase()
}

/// The position that is found is that of the character, and it stands nowhere before; it stands
/// nowhere where the end is found.
pub proof fn the_first_place_is_found(s: Seq<char>, c: char, from: int)
    requires
        0 <= from <= s.len(),
    ensures
        from <= index_from(s, c, from) <= s.len(),
        index_from(s, c, from) < s.len() ==> s[index_from(s, c, from)] == c,
        forall|i: int| from <= i < index_from(s, c, from) ==> #[trigger] s[i] != c,
    decreases s.len() - from,
{
    if from < s.len() && s[from] != c {
        the_first_place_is_found(s, c, from + 1);
    }
}

/// What is dropped at the end is that character over and over, and what is kept does not end in it.
pub proof fn only_the_tail_is_dropped(s: Seq<char>, c: char, to: int)
    requires
        0 <= to <= s.len(),
    ensures
        0 <= end_without(s, c, to) <= to,
        forall|i: int| end_without(s, c, to) <= i < to ==> #[trigger] s[i] == c,
        end_without(s, c, to) > 0 ==> s[end_without(s, c, to) - 1] != c,
    decreases to,
{
    if to > 0 && s[to - 1] == c {
        only_the_tail_is_dropped(s, c, to - 1);
    }
}

proof fn lemma_spaces_skipped(s: Seq<char>, from: int)
    requires
        0 <= from <= s.len(),
    ensures
        from <= skip_spaces(s, from) <= s.len(),
        forall|i: int| from <= i < skip_spaces(s, from) ==> is_space(#[trigger] s[i]),
        skip_spaces(s, from) < s.len() ==> !is_space(s[skip_spaces(s, from)]),
    decreases s.len() - from,
{
    if from < s.len() && is_space(s[from]) {
        lemma_spaces_skipped(s, from + 1);
    }
}

proof fn lemma_spaces_dropped(s: Seq<char>, from: int, to: int)
    requires
        0 <= from <= to <= s.len(),
    ensures
        from <= drop_spaces(s, from, to) <= to,
        forall|i: int| drop_spaces(s, from, to) <= i < to ==> is_space(#[trigger] s[i]),
        drop_spaces(s, from, to) > from ==> !is_space(s[drop_spaces(s, from, to) - 1]),
    decreases to - from,
{
    if to > from && is_space(s[to - 1]) {
        lemma_spaces_dropped(s, from, to - 1);
    }
}

/// White space around a text that neither begins nor ends with any does not show once it is
/// trimmed, and nothing else is lost.
pub proof fn white_space_around_does_not_show(before: Seq<char>, s: Seq<char>, after: Seq<char>)
    requires
        forall|i: int| 0 <= i < before.len() ==> is_space(#[trigger] before[i]),
        forall|i: int| 0 <= i < after.len() ==> is_space(#[trigger] after[i]),
        s.len() > 0,
        !is_space(s[0]),
        !is_space(s.last()),
    ensures
        trimmed(before + s + after) == s,
{
    let all = before + s + after;
    let from = skip_spaces(all, 0);
    lemma_spaces_skipped(all, 0);
    assert(all[before.len() as int] == s[0]);
    assert(from == before.len()) by {
        if from < before.len() {
            assert(all[from] == before[from]);
        } else if from > before.len() {
            assert(is_space(all[before.len() as int]));
        }
    }
    let to = drop_spaces(all, from, all.len() as int);
    lemma_spaces_dropped(all, from, all.len() as int);
    let end = before.len() + s.len();
    assert(all[end - 1] == s.last());
    assert(to == end) by {
        if to < end {
            assert(is_space(all[end - 1]));
        } else if to > end {
            assert(all[to - 1] == after[to - 1 - end]);
        }
    }
    assert(all.subrange(from, to) =~= s);
}

/// A row of digits, at least one, of a value that fits, writes that value; so it does behind a
/// plus sign.
pub proof fn digits_write_their_value(s: Seq<char>)
    requires
        s.len() > 0,
        all_digits(s),
        decimal(s) <= usize::MAX,
    ensures
        0 <= decimal(s),
        number(s) == Some(decimal(s) as usize),
        number(seq!['+'] + s) == Some(decimal(s) as usize),
{
    lemma_decimal_grows(s, 0);
    assert(is_digit(s[0]));
    assert((seq!['+'] + s).skip(1) =~= s);
}

/// A further digit makes ten times the value and adds its own.
pub proof fn a_digit_adds_its_value(s: Seq<char>, c: char)
    requires
        is_digit(c),
    ensures
        decimal(s.push(c)) == 10 * decimal(s) + (c as int - '0' as int),
        decimal(Seq::empty()) == 0,
{
    assert(s.push(c).drop_last() =~= s);
}

/// A text that is empty, or holds anything but digits behind a plus sign at most, writes no number;
/// nor do digits of a value that does not fit.
pub proof fn anything_else_writes_no_number(s: Seq<char>, i: int)
    ensures
        0 <= i < s.len() && !is_digit(s[i]) && (i > 0 || s[i] != '+') ==> number(s) is None,
        s.len() == 0 ==> number(s) is None,
        s.len() == 1 && s[0] == '+' ==> number(s) is None,
        s.len() > 0 && all_digits(s) && decimal(s) > usize::MAX ==> number(s) is None,
{
    if 0 <= i < s.len() && !is_digit(s[i]) && s[0] == '+' && i > 0 {
        assert(s.skip(1)[i - 1] == s[i]);
    }
    if s.len() > 0 && all_digits(s) {
        assert(is_digit(s[0]));
    }
}

} // verus!
