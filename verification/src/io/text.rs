use vstd::prelude::*;

verus! {

/// `c` is a whitespace character (Unicode `White_Space`), as
/// `char::is_whitespace` decides.
pub open spec fn is_whitespace(c: char) -> bool {
    let v = c as u32;
    ||| 9 <= v <= 13
    ||| v == 32
    ||| v == 0x85
    ||| v == 0xA0
    ||| v == 0x1680
    ||| 0x2000 <= v <= 0x200A
    ||| v == 0x2028
    ||| v == 0x2029
    ||| v == 0x202F
    ||| v == 0x205F
    ||| v == 0x3000
}

/// Tells whether `c` is whitespace.
pub fn char_is_whitespace(c: char) -> (r: bool)
    ensures
        r == is_whitespace(c),
{
    let v = c as u32;
    (9 <= v && v <= 13) || v == 32 || v == 0x85 || v == 0xA0 || v == 0x1680 || (0x2000 <= v && v
        <= 0x200A) || v == 0x2028 || v == 0x2029 || v == 0x202F || v == 0x205F || v == 0x3000
}

/// The end of the word that starts at `i`: the first whitespace at or after
/// `i`, or the end of the text.
pub open spec fn word_end(s: Seq<char>, i: int) -> int
    decreases s.len() - i,
{
    if 0 <= i < s.len() && !is_whitespace(s[i]) {
        word_end(s, i + 1)
    } else {
        i
    }
}

/// The words of `s` from position `i` on, as `[start, end)` ranges: the runs
/// of non-whitespace characters, in order.
pub open spec fn words_from(s: Seq<char>, i: int) -> Seq<(int, int)>
    decreases s.len() - i,
{
    if i < 0 || i >= s.len() {
        Seq::empty()
    } else if is_whitespace(s[i]) {
        words_from(s, i + 1)
    } else {
        proof {
            lemma_word_end(s, i);
        }
        seq![(i, word_end(s, i))] + words_from(s, word_end(s, i))
    }
}

/// The words of `s`, as `split_whitespace` yields them.
pub open spec fn words(s: Seq<char>) -> Seq<(int, int)> {
    words_from(s, 0)
}

/// A word ends after it starts and within the text, and holds no whitespace.
pub proof fn lemma_word_end(s: Seq<char>, i: int)
    requires
        0 <= i <= s.len(),
    ensures
        i <= word_end(s, i) <= s.len(),
        i < s.len() && !is_whitespace(s[i]) ==> word_end(s, i) > i,
        forall|k: int| i <= k < word_end(s, i) ==> !is_whitespace(#[trigger] s[k]),
        word_end(s, i) < s.len() ==> is_whitespace(s[word_end(s, i)]),
    decreases s.len() - i,
{
    if 0 <= i < s.len() && !is_whitespace(s[i]) {
        lemma_word_end(s, i + 1);
    }
}

/// Every word found from `i` on lies within `[i, len)`, starts with a
/// non-whitespace character and is not empty.
pub proof fn lemma_words_from_bounds(s: Seq<char>, i: int)
    requires
        0 <= i,
    ensures
        forall|k: int|
            0 <= k < words_from(s, i).len() ==> i <= (#[trigger] words_from(s, i)[k]).0 < words_from(s, i)[k].1
                <= s.len(),
    decreases s.len() - i,
{
    if i < s.len() {
        if is_whitespace(s[i]) {
            lemma_words_from_bounds(s, i + 1);
            assert(words_from(s, i) == words_from(s, i + 1));
        } else {
            lemma_word_end(s, i);
            lemma_words_from_bounds(s, word_end(s, i));
            let rest = words_from(s, word_end(s, i));
            assert(words_from(s, i) == seq![(i, word_end(s, i))] + rest);
            assert forall|k: int| 0 <= k < words_from(s, i).len() implies i <= (#[trigger] words_from(s, i)[k]).0
                < words_from(s, i)[k].1 <= s.len() by {
                if k > 0 {
                    assert(words_from(s, i)[k] == rest[k - 1]);
                }
            }
        }
    }
}

/// Splits `s` at whitespace: the `[start, end)` ranges of its words.
pub fn split_whitespace(s: &[char]) -> (r: Vec<(usize, usize)>)
    ensures
        r@.len() == words(s@).len(),
        forall|k: int| 0 <= k < r@.len() ==> (#[trigger] r@[k]).0 == words(s@)[k].0 && r@[k].1 == words(s@)[k].1,
{
    let mut out: Vec<(usize, usize)> = Vec::new();
    let mut i: usize = 0;
    let n = s.len();
    while i < n
        invariant
            n == s@.len(),
            0 <= i <= n,
            out@.len() + words_from(s@, i as int).len() == words(s@).len(),
            forall|k: int| 0 <= k < out@.len() ==> (#[trigger] out@[k]).0 == words(s@)[k].0 && out@[k].1 == words(s@)[k].1,
            forall|k: int|
                0 <= k < words_from(s@, i as int).len() ==> words(s@)[out@.len() + k] == #[trigger] words_from(s@, i as int)[k],
        decreases n - i,
    {
        if char_is_whitespace(s[i]) {
            i = i + 1;
        } else {
            let start = i;
            proof {
                lemma_word_end(s@, i as int);
            }
            while i < n && !char_is_whitespace(s[i])
                invariant
                    n == s@.len(),
                    start <= i <= word_end(s@, start as int),
                    word_end(s@, start as int) <= n,
                    forall|k: int| start <= k < word_end(s@, start as int) ==> !is_whitespace(#[trigger] s@[k]),
                    word_end(s@, start as int) < n ==> is_whitespace(s@[word_end(s@, start as int)]),
                decreases n - i,
            {
                i = i + 1;
            }
            let ghost old_len = out@.len();
            out.push((start, i));
            proof {
                let rest = words_from(s@, i as int);
                assert(words_from(s@, start as int) == seq![(start as int, i as int)] + rest);
                assert forall|k: int| 0 <= k < rest.len() implies words(s@)[out@.len() + k] == #[trigger] rest[k] by {
                    assert(words_from(s@, start as int)[k + 1] == rest[k]);
                }
                assert(words(s@)[old_len as int] == words_from(s@, start as int)[0]);
            }
        }
    }
    out
}

/// The exact value of the decimal digits `t[from..to]`.
pub open spec fn char_digits_value(t: Seq<char>, from: int, to: int) -> int
    decreases to - from,
{
    if to <= from {
        0
    } else {
        char_digits_value(t, from, to - 1) * 10 + (t[to - 1] as u32 - 48)
    }
}

pub open spec fn is_digit_char(c: char) -> bool {
    48 <= c as u32 <= 57
}

/// `t[from..to]` is a non-empty run of decimal digits.
pub open spec fn all_digits(t: Seq<char>, from: int, to: int) -> bool {
    from < to && forall|k: int| from <= k < to ==> is_digit_char(#[trigger] t[k])
}

/// What parsing `t` as an unsigned number up to `max` gives, as `from_str`
/// for unsigned integers does: an optional `+`, then at least one digit, and
/// a value no greater than `max`.
pub open spec fn parse_unsigned_spec(t: Seq<char>, max: int) -> Option<int> {
    let start = if t.len() > 0 && t[0] == '+' { 1int } else { 0int };
    if all_digits(t, start, t.len() as int) && char_digits_value(t, start, t.len() as int) <= max {
        Some(char_digits_value(t, start, t.len() as int))
    } else {
        None
    }
}

/// What parsing `t` as a signed number between `-(max + 1)` and `max` gives,
/// as `from_str` for signed integers does: an optional sign, then at least
/// one digit.
pub open spec fn parse_signed_spec(t: Seq<char>, max: int) -> Option<int> {
    if t.len() > 0 && t[0] == '-' {
        if all_digits(t, 1, t.len() as int) && char_digits_value(t, 1, t.len() as int) <= max + 1 {
            Some(-char_digits_value(t, 1, t.len() as int))
        } else {
            None
        }
    } else {
        parse_unsigned_spec(t, max)
    }
}

/// A number that parsing yields lies between 0 and the limit it was parsed
/// against.
pub proof fn lemma_parse_unsigned_range(t: Seq<char>, max: int)
    ensures
        parse_unsigned_spec(t, max) matches Some(v) ==> 0 <= v <= max,
{
    let start = if t.len() > 0 && t[0] == '+' { 1int } else { 0int };
    if all_digits(t, start, t.len() as int) {
        lemma_digits_monotone(t, start, start, t.len() as int);
    }
}

/// The digit values only grow as digits are added.
proof fn lemma_digits_monotone(t: Seq<char>, from: int, k: int, to: int)
    requires
        from <= k <= to,
        forall|j: int| from <= j < to ==> is_digit_char(#[trigger] t[j]),
    ensures
        char_digits_value(t, from, k) <= char_digits_value(t, from, to),
        char_digits_value(t, from, k) >= 0,
    decreases to - from,
{
    if to > k {
        lemma_digits_monotone(t, from, k, to - 1);
    } else if k > from {
        lemma_digits_monotone(t, from, k - 1, k - 1);
    }
}

/// Parses the digits `t[from..to]` as a number no greater than `max`.
fn parse_digits(t: &[char], from: usize, to: usize, max: u64) -> (r: Option<u64>)
    requires
        from <= to <= t@.len(),
    ensures
        match r {
            Some(v) => all_digits(t@, from as int, to as int) && v == char_digits_value(t@, from as int, to as int)
                && v <= max,
            None => !(all_digits(t@, from as int, to as int) && char_digits_value(t@, from as int, to as int) <= max),
        },
{
    if from == to {
        return None;
    }
    let mut value: u128 = 0;
    let mut i = from;
    while i < to
        invariant
            from <= i <= to <= t@.len(),
            forall|k: int| from <= k < i ==> is_digit_char(#[trigger] t@[k]),
            value == char_digits_value(t@, from as int, i as int),
            value <= max,
        decreases to - i,
    {
        let c = t[i];
        let v = c as u32;
        if v < 48 || v > 57 {
            return None;
        }
        value = value * 10 + (v - 48) as u128;
        i = i + 1;
        if value > max as u128 {
            proof {
                if all_digits(t@, from as int, to as int) {
                    lemma_digits_monotone(t@, from as int, i as int, to as int);
                }
            }
            return None;
        }
    }
    Some(value as u64)
}

/// Parses `t` as an unsigned number no greater than `max`.
pub fn parse_unsigned(t: &[char], max: u64) -> (r: Option<u64>)
    ensures
        match r {
            Some(v) => parse_unsigned_spec(t@, max as int) == Some(v as int),
            None => parse_unsigned_spec(t@, max as int) is None,
        },
{
    let start: usize = if t.len() > 0 && t[0] == '+' { 1 } else { 0 };
    parse_digits(t, start, t.len(), max)
}

/// Parses `t` as a signed number that fits in an `isize`.
pub fn parse_isize(t: &[char]) -> (r: Option<isize>)
    ensures
        match r {
            Some(v) => parse_signed_spec(t@, isize::MAX as int) == Some(v as int),
            None => parse_signed_spec(t@, isize::MAX as int) is None,
        },
{
    if t.len() > 0 && t[0] == '-' {
        match parse_digits(t, 1, t.len(), isize::MAX as u64 + 1) {
            Some(m) => {
                if m == isize::MAX as u64 + 1 {
                    Some(isize::MIN)
                } else {
                    Some(-(m as isize))
                }
            },
            None => None,
        }
    } else {
        match parse_unsigned(t, isize::MAX as u64) {
            Some(m) => Some(m as isize),
            None => None,
        }
    }
}

/// `s` starts with `prefix`.
pub open spec fn starts_with(s: Seq<char>, prefix: Seq<char>) -> bool {
    prefix.len() <= s.len() && s.take(prefix.len() as int) == prefix
}

/// Tells whether `s` starts with `prefix`.
pub fn has_prefix(s: &[char], prefix: &[char]) -> (r: bool)
    ensures
        r == starts_with(s@, prefix@),
{
    if prefix.len() > s.len() {
        return false;
    }
    let mut i: usize = 0;
    while i < prefix.len()
        invariant
            prefix@.len() <= s@.len(),
            0 <= i <= prefix@.len(),
            forall|k: int| 0 <= k < i ==> s@[k] == prefix@[k],
        decreases prefix@.len() - i,
    {
        if s[i] != prefix[i] {
            proof {
                assert(s@.take(prefix@.len() as int)[i as int] != prefix@[i as int]);
            }
            return false;
        }
        i = i + 1;
    }
    proof {
        assert(s@.take(prefix@.len() as int) =~= prefix@);
    }
    true
}

/// Tells whether `t[from..to]` spells `word`.
pub fn range_is(t: &[char], from: usize, to: usize, word: &[char]) -> (r: bool)
    requires
        from <= to <= t@.len(),
    ensures
        r == (t@.subrange(from as int, to as int) == word@),
{
    if to - from != word.len() {
        proof {
            assert(t@.subrange(from as int, to as int).len() != word@.len());
        }
        return false;
    }
    let mut i: usize = 0;
    while i < word.len()
        invariant
            from <= to <= t@.len(),
            to - from == word@.len(),
            0 <= i <= word@.len(),
            forall|k: int| 0 <= k < i ==> t@[from + k] == word@[k],
        decreases word@.len() - i,
    {
        if t[from + i] != word[i] {
            proof {
                assert(t@.subrange(from as int, to as int)[i as int] != word@[i as int]);
            }
            return false;
        }
        i = i + 1;
    }
    proof {
        assert(t@.subrange(from as int, to as int) =~= word@);
    }
    true
}

/// A copy of `t[from..to]`.
pub fn copy_range(t: &[char], from: usize, to: usize) -> (r: Vec<char>)
    requires
        from <= to <= t@.len(),
    ensures
        r@ == t@.subrange(from as int, to as int),
{
    let mut out: Vec<char> = Vec::new();
    let mut i = from;
    while i < to
        invariant
            from <= i <= to <= t@.len(),
            out@ == t@.subrange(from as int, i as int),
        decreases to - i,
    {
        out.push(t[i]);
        i = i + 1;
        proof {
            assert(out@ =~= t@.subrange(from as int, i as int));
        }
    }
    out
}

} // verus!
