//! Character classes, maximal runs, trimming and decimal notation over
//! sequences of characters.

use vstd::prelude::*;
use vstd::string::StrSliceExecFns;

verus! {

/// Whether `c` is white space: one of the characters that carry the Unicode
/// property `White_Space`.
pub open spec fn is_whitespace(c: char) -> bool {
    let u = c as u32;
    ||| 0x09 <= u <= 0x0D
    ||| u == 0x20
    ||| u == 0x85
    ||| u == 0xA0
    ||| u == 0x1680
    ||| 0x2000 <= u <= 0x200A
    ||| u == 0x2028
    ||| u == 0x2029
    ||| u == 0x202F
    ||| u == 0x205F
    ||| u == 0x3000
}

/// Whether `c` lies in the inclusive range from `low` to `high`.
pub open spec fn in_range(c: char, low: char, high: char) -> bool {
    low as u32 <= c as u32 <= high as u32
}

/// Whether `c` is an ASCII decimal digit.
pub open spec fn is_digit(c: char) -> bool {
    in_range(c, '0', '9')
}

/// Whether `c` may stand in a variable name: any character from `'A'` to
/// `'z'`. Besides the letters this takes in the six characters that lie
/// between `'Z'` and `'a'`.
pub open spec fn is_name_char(c: char) -> bool {
    in_range(c, 'A', 'z')
}

/// The length of the longest prefix of `s` whose characters all lie in the
/// range from `low` to `high`.
pub open spec fn run_length(s: Seq<char>, low: char, high: char) -> nat
    decreases s.len(),
{
    if s.len() > 0 && in_range(s[0], low, high) {
        1 + run_length(s.drop_first(), low, high)
    } else {
        0
    }
}

/// The number of white-space characters at the start of `s`.
pub open spec fn leading_whitespace(s: Seq<char>) -> nat
    decreases s.len(),
{
    if s.len() > 0 && is_whitespace(s[0]) {
        1 + leading_whitespace(s.drop_first())
    } else {
        0
    }
}

/// The number of white-space characters at the end of `s`.
pub open spec fn trailing_whitespace(s: Seq<char>) -> nat
    decreases s.len(),
{
    if s.len() > 0 && is_whitespace(s.last()) {
        1 + trailing_whitespace(s.drop_last())
    } else {
        0
    }
}

/// `s` without the white space at its start.
pub open spec fn trimmed_start(s: Seq<char>) -> Seq<char> {
    s.skip(leading_whitespace(s) as int)
}

/// `s` without the white space at its end.
pub open spec fn trimmed_end(s: Seq<char>) -> Seq<char> {
    s.take(s.len() - trailing_whitespace(s))
}

/// `s` without the white space at either end.
pub open spec fn trimmed(s: Seq<char>) -> Seq<char> {
    trimmed_end(trimmed_start(s))
}

/// A run is no longer than the sequence, lies in the range throughout, and
/// stops at the first character outside the range.
pub proof fn lemma_run_length(s: Seq<char>, low: char, high: char)
    ensures
        run_length(s, low, high) <= s.len(),
        forall|i: int| 0 <= i < run_length(s, low, high) ==> in_range(#[trigger] s[i], low, high),
        run_length(s, low, high) < s.len() ==> !in_range(
            s[run_length(s, low, high) as int],
            low,
            high,
        ),
    decreases s.len(),
{
    if s.len() > 0 && in_range(s[0], low, high) {
        let rest = s.drop_first();
        lemma_run_length(rest, low, high);
        let n = run_length(rest, low, high);
        assert forall|i: int| 0 <= i < n + 1 implies in_range(#[trigger] s[i], low, high) by {
            if i > 0 {
                assert(s[i] == rest[i - 1]);
            }
        }
        if n + 1 < s.len() {
            assert(s[n as int + 1] == rest[n as int]);
        }
    }
}

/// A prefix that lies in the range throughout and stops at a character
/// outside it, or at the end, is the run.
pub proof fn lemma_run_length_is(s: Seq<char>, low: char, high: char, n: nat)
    requires
        n <= s.len(),
        forall|i: int| 0 <= i < n ==> in_range(#[trigger] s[i], low, high),
        n < s.len() ==> !in_range(s[n as int], low, high),
    ensures
        run_length(s, low, high) == n,
    decreases s.len(),
{
    if n > 0 {
        let rest = s.drop_first();
        assert forall|i: int| 0 <= i < n - 1 implies in_range(#[trigger] rest[i], low, high) by {
            assert(rest[i] == s[i + 1]);
        }
        if n - 1 < rest.len() {
            assert(rest[n - 1] == s[n as int]);
        }
        lemma_run_length_is(rest, low, high, (n - 1) as nat);
    }
}

/// The leading white space is a prefix of white space that stops at a
/// character of another kind, or at the end.
pub proof fn lemma_leading_whitespace(s: Seq<char>)
    ensures
        leading_whitespace(s) <= s.len(),
        forall|i: int| 0 <= i < leading_whitespace(s) ==> is_whitespace(#[trigger] s[i]),
        leading_whitespace(s) < s.len() ==> !is_whitespace(s[leading_whitespace(s) as int]),
    decreases s.len(),
{
    if s.len() > 0 && is_whitespace(s[0]) {
        let rest = s.drop_first();
        lemma_leading_whitespace(rest);
        let n = leading_whitespace(rest);
        assert forall|i: int| 0 <= i < n + 1 implies is_whitespace(#[trigger] s[i]) by {
            if i > 0 {
                assert(s[i] == rest[i - 1]);
            }
        }
        if n + 1 < s.len() {
            assert(s[n as int + 1] == rest[n as int]);
        }
    }
}

/// A prefix of white space that stops at a character of another kind, or at
/// the end, is the leading white space.
pub proof fn lemma_leading_whitespace_is(s: Seq<char>, n: nat)
    requires
        n <= s.len(),
        forall|i: int| 0 <= i < n ==> is_whitespace(#[trigger] s[i]),
        n < s.len() ==> !is_whitespace(s[n as int]),
    ensures
        leading_whitespace(s) == n,
    decreases s.len(),
{
    if n > 0 {
        let rest = s.drop_first();
        assert forall|i: int| 0 <= i < n - 1 implies is_whitespace(#[trigger] rest[i]) by {
            assert(rest[i] == s[i + 1]);
        }
        if n - 1 < rest.len() {
            assert(rest[n - 1] == s[n as int]);
        }
        lemma_leading_whitespace_is(rest, (n - 1) as nat);
    }
}

/// The trailing white space is a suffix of white space that is preceded by a
/// character of another kind, or by nothing.
pub proof fn lemma_trailing_whitespace(s: Seq<char>)
    ensures
        trailing_whitespace(s) <= s.len(),
        forall|i: int|
            s.len() - trailing_whitespace(s) <= i < s.len() ==> is_whitespace(#[trigger] s[i]),
        trailing_whitespace(s) < s.len() ==> !is_whitespace(
            s[s.len() - trailing_whitespace(s) - 1],
        ),
    decreases s.len(),
{
    if s.len() > 0 && is_whitespace(s.last()) {
        let rest = s.drop_last();
        lemma_trailing_whitespace(rest);
        let n = trailing_whitespace(rest);
        assert forall|i: int| s.len() - (n + 1) <= i < s.len() implies is_whitespace(
            #[trigger] s[i],
        ) by {
            if i < s.len() - 1 {
                assert(s[i] == rest[i]);
            }
        }
        if n + 1 < s.len() {
            assert(s[s.len() - (n + 1) - 1] == rest[rest.len() - n - 1]);
        }
    }
}

/// A suffix of white space that is preceded by a character of another kind,
/// or by nothing, is the trailing white space.
pub proof fn lemma_trailing_whitespace_is(s: Seq<char>, n: nat)
    requires
        n <= s.len(),
        forall|i: int| s.len() - n <= i < s.len() ==> is_whitespace(#[trigger] s[i]),
        n < s.len() ==> !is_whitespace(s[s.len() - n - 1]),
    ensures
        trailing_whitespace(s) == n,
    decreases s.len(),
{
    if n > 0 {
        let rest = s.drop_last();
        assert forall|i: int| rest.len() - (n - 1) <= i < rest.len() implies is_whitespace(
            #[trigger] rest[i],
        ) by {
            assert(rest[i] == s[i]);
        }
        if n - 1 < rest.len() {
            assert(rest[rest.len() - (n - 1) - 1] == s[s.len() - n - 1]);
        }
        lemma_trailing_whitespace_is(rest, (n - 1) as nat);
    } else if s.len() > 0 {
        assert(s.last() == s[s.len() - 0 - 1]);
    }
}

/// Text that neither starts nor ends with white space is its own trimmed
/// form.
pub proof fn lemma_trimmed_of_clean(s: Seq<char>)
    requires
        s.len() > 0,
        !is_whitespace(s[0]),
        !is_whitespace(s.last()),
    ensures
        trimmed(s) == s,
{
    assert(trimmed_start(s) =~= s);
    assert(trimmed_end(s) =~= s);
}

/// White space at the start does not change the trimmed form.
pub proof fn lemma_trimmed_after_whitespace(c: char, s: Seq<char>)
    requires
        is_whitespace(c),
    ensures
        trimmed(seq![c] + s) == trimmed(s),
{
    let longer = seq![c] + s;
    assert(longer.drop_first() =~= s);
    lemma_leading_whitespace(s);
    assert(trimmed_start(longer) =~= trimmed_start(s));
}

/// Whether `c` is white space.
pub fn whitespace(c: char) -> (b: bool)
    ensures
        b == is_whitespace(c),
{
    let u: u32 = c as u32;
    (0x09 <= u && u <= 0x0D) || u == 0x20 || u == 0x85 || u == 0xA0 || u == 0x1680 || (0x2000 <= u
        && u <= 0x200A) || u == 0x2028 || u == 0x2029 || u == 0x202F || u == 0x205F || u == 0x3000
}

/// Whether `c` lies in the inclusive range from `low` to `high`.
pub fn within(c: char, low: char, high: char) -> (b: bool)
    ensures
        b == in_range(c, low, high),
{
    low <= c && c <= high
}

/// `s` without the white space at either end.
pub fn trim(s: &str) -> (t: &str)
    ensures
        t@ == trimmed(s@),
{
    let len: usize = s.unicode_len();
    let mut index: usize = 0;
    let mut start: usize = 0;
    let mut end: usize = 0;
    for c in iter: s.chars()
        invariant
            len == s@.len(),
            iter.seq() == s@,
            index == iter.index(),
            start <= end <= index,
            forall|i: int| 0 <= i < start ==> is_whitespace(#[trigger] s@[i]),
            forall|i: int| end <= i < index ==> is_whitespace(#[trigger] s@[i]),
            start == end ==> end == index,
            start < end ==> !is_whitespace(s@[start as int]) && !is_whitespace(s@[end - 1]),
    {
        if !whitespace(c) {
            if start == end {
                start = index;
            }
            end = index + 1;
        } else if start == end {
            start = index + 1;
            end = index + 1;
        }
        index += 1;
    }
    proof {
        let middle = s@.skip(start as int);
        lemma_leading_whitespace_is(s@, start as nat);
        assert forall|i: int| middle.len() - (len - end) <= i < middle.len() implies is_whitespace(
            #[trigger] middle[i],
        ) by {
            assert(middle[i] == s@[i + start]);
        }
        if len - end < middle.len() {
            assert(middle[middle.len() - (len - end) - 1] == s@[end - 1]);
        }
        lemma_trailing_whitespace_is(middle, (len - end) as nat);
        assert(s@.subrange(start as int, end as int) =~= trimmed(s@));
    }
    s.substring_char(start, end)
}

/// Whether `s` starts with `prefix`.
pub fn starts_with(s: &str, prefix: &str) -> (b: bool)
    ensures
        b == prefix@.is_prefix_of(s@),
{
    let prefix_len: usize = prefix.unicode_len();
    let mut matched: usize = 0;
    for c in iter: s.chars()
        invariant_except_break
            matched == iter.index(),
        invariant
            prefix_len == prefix@.len(),
            iter.seq() == s@,
            matched <= prefix_len,
            forall|j: int| 0 <= j < matched ==> s@[j] == prefix@[j],
        ensures
            matched <= s@.len(),
            matched < prefix_len ==> matched == s@.len() || s@[matched as int]
                != prefix@[matched as int],
    {
        if matched == prefix_len || c != prefix.get_char(matched) {
            break;
        }
        matched += 1;
    }
    proof {
        if matched == prefix_len {
            assert(s@.subrange(0, prefix@.len() as int) =~= prefix@);
        } else if prefix@.len() <= s@.len() {
            assert(s@.subrange(0, prefix@.len() as int)[matched as int] != prefix@[matched as int]);
        }
    }
    matched == prefix_len
}

/// The longest prefix of `s` whose characters all lie in the inclusive range
/// from `low` to `high`.
pub fn leading_run(s: &str, low: char, high: char) -> (run: &str)
    ensures
        run@ == s@.take(run_length(s@, low, high) as int),
{
    let len: usize = s.unicode_len();
    let mut end: usize = 0;
    for c in iter: s.chars()
        invariant_except_break
            end == iter.index(),
        invariant
            len == s@.len(),
            iter.seq() == s@,
            forall|i: int| 0 <= i < end ==> in_range(#[trigger] s@[i], low, high),
        ensures
            end <= len,
            end < len ==> !in_range(s@[end as int], low, high),
    {
        if !within(c, low, high) {
            break;
        }
        end += 1;
    }
    proof {
        lemma_run_length_is(s@, low, high, end as nat);
    }
    s.substring_char(0, end)
}

} // verus!
