use vstd::prelude::*;
use vstd::wrapping::i32_specs;
use crate::format::{byte_at, zero_pos_from, lemma_zero_pos_from_bounds, is_digit, digit_run_end, lemma_digit_run_end};

verus! {

// A C string is handed over as a slice of its bytes: the string ends at the
// first zero byte of the slice, or at the end of the slice when it holds none
// (as if a zero byte followed it).

/// The length of the C string in `s`: the position of its first zero byte.
pub open spec fn c_len(s: Seq<u8>) -> int {
    zero_pos_from(s, 0)
}

/// `b` in lower case, for ASCII letters.
pub open spec fn lower(b: u8) -> u8 {
    if 65 <= b <= 90 { (b + 32) as u8 } else { b }
}

/// `b` in upper case, for ASCII letters.
pub open spec fn upper(b: u8) -> u8 {
    if 97 <= b <= 122 { (b - 32) as u8 } else { b }
}

/// The byte as the comparison sees it.
pub open spec fn folded(b: u8, ignore_case: bool) -> u8 {
    if ignore_case { lower(b) } else { b }
}

/// The comparison of two C strings from position `i` on, looking at no more
/// than the first `n` bytes: the difference of the first differing bytes, or
/// 0 when the strings end together or `n` bytes agree.
pub open spec fn str_diff_from(a: Seq<u8>, b: Seq<u8>, ignore_case: bool, i: int, n: int) -> int
    decreases n - i,
{
    if i >= n {
        0
    } else {
        let c1 = folded(byte_at(a, i), ignore_case);
        let c2 = folded(byte_at(b, i), ignore_case);
        if c1 != c2 {
            c1 - c2
        } else if c1 == 0 {
            0
        } else {
            str_diff_from(a, b, ignore_case, i + 1, n)
        }
    }
}

/// The comparison of two C strings over at most `n` bytes.
pub open spec fn str_diff(a: Seq<u8>, b: Seq<u8>, ignore_case: bool, n: usize) -> int {
    str_diff_from(a, b, ignore_case, 0, n as int)
}

/// `b` is an ASCII whitespace byte: space, tab, line feed, form feed or
/// carriage return.
pub open spec fn is_space(b: u8) -> bool {
    b == 32 || b == 9 || b == 10 || b == 12 || b == 13
}

/// The byte in lower case, for ASCII letters.
pub fn to_lower(b: u8) -> (r: u8)
    ensures
        r == lower(b),
{
    if b >= 65 && b <= 90 {
        b + 32
    } else {
        b
    }
}

/// The byte in upper case, for ASCII letters.
pub fn to_upper(b: u8) -> (r: u8)
    ensures
        r == upper(b),
{
    if b >= 97 && b <= 122 {
        b - 32
    } else {
        b
    }
}

/// The byte at `i`, or the terminating zero past the end of the slice.
pub fn byte_or_zero(s: &[u8], i: usize) -> (r: u8)
    ensures
        r == byte_at(s@, i as int),
{
    if i < s.len() {
        s[i]
    } else {
        0
    }
}

/// `strlen`: the number of bytes before the terminating zero.
pub fn strlen(s: &[u8]) -> (r: usize)
    ensures
        r == c_len(s@),
{
    let mut len: usize = 0;
    while len < s.len() && s[len] != 0
        invariant
            0 <= len <= s@.len(),
            zero_pos_from(s@, 0) == zero_pos_from(s@, len as int),
        decreases s@.len() - len,
    {
        len = len + 1;
    }
    proof {
        lemma_zero_pos_from_bounds(s@, len as int);
    }
    len
}

/// Compares two C strings byte by byte, looking at no more than `n` bytes and
/// ignoring the case of ASCII letters when asked: the difference of the first
/// differing bytes, or 0.
pub fn compare_str(str_1: &[u8], str_2: &[u8], ignore_case: bool, n: usize) -> (r: i32)
    ensures
        r == str_diff_from(str_1@, str_2@, ignore_case, 0, n as int),
{
    let mut len: usize = 0;
    while len < n
        invariant
            0 <= len <= n,
            str_diff_from(str_1@, str_2@, ignore_case, 0, n as int) == str_diff_from(
                str_1@,
                str_2@,
                ignore_case,
                len as int,
                n as int,
            ),
        decreases n - len,
    {
        let mut c_1 = byte_or_zero(str_1, len);
        let mut c_2 = byte_or_zero(str_2, len);
        if ignore_case {
            c_1 = to_lower(c_1);
            c_2 = to_lower(c_2);
        }
        if c_1 != c_2 {
            return (c_1 as i32) - (c_2 as i32);
        }
        if c_1 == 0 {
            return 0;
        }
        len = len + 1;
    }
    0
}

/// `strcasecmp`: compares two C strings ignoring the case of ASCII letters.
pub fn strcasecmp(str_1: &[u8], str_2: &[u8]) -> (r: i32)
    ensures
        r == str_diff(str_1@, str_2@, true, usize::MAX),
{
    compare_str(str_1, str_2, true, usize::MAX)
}

/// `strcmp`: compares two C strings.
pub fn strcmp(str_1: &[u8], str_2: &[u8]) -> (r: i32)
    ensures
        r == str_diff(str_1@, str_2@, false, usize::MAX),
{
    compare_str(str_1, str_2, false, usize::MAX)
}

/// `strncasecmp`: compares at most `n` bytes ignoring the case of ASCII letters.
pub fn strncasecmp(str_1: &[u8], str_2: &[u8], n: usize) -> (r: i32)
    ensures
        r == str_diff(str_1@, str_2@, true, n),
{
    compare_str(str_1, str_2, true, n)
}

/// `strncmp`: compares at most `n` bytes of two C strings.
pub fn strncmp(str_1: &[u8], str_2: &[u8], n: usize) -> (r: i32)
    ensures
        r == str_diff(str_1@, str_2@, false, n),
{
    compare_str(str_1, str_2, false, n)
}

/// Swapping the two strings negates the comparison.
pub proof fn lemma_compare_antisymmetric(a: Seq<u8>, b: Seq<u8>, ignore_case: bool, n: usize)
    ensures
        str_diff(a, b, ignore_case, n) == -str_diff(b, a, ignore_case, n),
{
    lemma_diff_from_antisymmetric(a, b, ignore_case, 0, n as int);
}

proof fn lemma_diff_from_antisymmetric(a: Seq<u8>, b: Seq<u8>, ignore_case: bool, i: int, n: int)
    ensures
        str_diff_from(a, b, ignore_case, i, n) == -str_diff_from(b, a, ignore_case, i, n),
    decreases n - i,
{
    if i < n {
        lemma_diff_from_antisymmetric(a, b, ignore_case, i + 1, n);
    }
}

/// ASCII case conversion: every upper-case letter `A`..`Z` lowers to the
/// letter 32 above it, every lower-case letter `a`..`z` uppers to the letter
/// 32 below it, and every other byte stays as it is.
pub proof fn lemma_ascii_case(b: u8)
    ensures
        65 <= b <= 90 ==> lower(b) == b + 32 && upper(b) == b,
        97 <= b <= 122 ==> upper(b) == b - 32 && lower(b) == b,
        !(65 <= b <= 90) && !(97 <= b <= 122) ==> lower(b) == b && upper(b) == b,
        lower(upper(b)) == lower(b),
        upper(lower(b)) == upper(b),
{
}

/// Two bytes are the same letter in either case, or the same byte.
pub open spec fn same_ignoring_case(x: u8, y: u8) -> bool {
    ||| x == y
    ||| (65 <= x <= 90 && y == x + 32)
    ||| (65 <= y <= 90 && x == y + 32)
}

/// Strings that differ only in the case of ASCII letters compare equal when
/// case is ignored, whatever the limit.
pub proof fn lemma_compare_ignores_case(a: Seq<u8>, b: Seq<u8>, n: usize)
    requires
        a.len() == b.len(),
        forall|i: int| 0 <= i < a.len() ==> same_ignoring_case(#[trigger] a[i], b[i]),
    ensures
        str_diff(a, b, true, n) == 0,
{
    lemma_diff_from_ignores_case(a, b, 0, n as int);
}

proof fn lemma_diff_from_ignores_case(a: Seq<u8>, b: Seq<u8>, i: int, n: int)
    requires
        0 <= i,
        a.len() == b.len(),
        forall|j: int| 0 <= j < a.len() ==> same_ignoring_case(#[trigger] a[j], b[j]),
    ensures
        str_diff_from(a, b, true, i, n) == 0,
    decreases n - i,
{
    if i < n {
        if i < a.len() {
            assert(same_ignoring_case(a[i], b[i]));
            assert(lower(byte_at(a, i)) == lower(byte_at(b, i)));
        }
        lemma_diff_from_ignores_case(a, b, i + 1, n);
    }
}

/// A string compares equal to itself.
pub proof fn lemma_compare_reflexive(a: Seq<u8>, ignore_case: bool, n: usize)
    ensures
        str_diff(a, a, ignore_case, n) == 0,
{
    lemma_diff_from_reflexive(a, ignore_case, 0, n as int);
}

proof fn lemma_diff_from_reflexive(a: Seq<u8>, ignore_case: bool, i: int, n: int)
    ensures
        str_diff_from(a, a, ignore_case, i, n) == 0,
    decreases n - i,
{
    if i < n {
        lemma_diff_from_reflexive(a, ignore_case, i + 1, n);
    }
}

/// The string length is the position of the first zero byte: every byte
/// before it is non-zero, and the byte there reads as zero.
pub proof fn lemma_c_len(s: Seq<u8>)
    ensures
        0 <= c_len(s) <= s.len(),
        forall|j: int| 0 <= j < c_len(s) ==> #[trigger] s[j] != 0,
        byte_at(s, c_len(s)) == 0,
{
    lemma_zero_pos_from_rest(s, 0);
}

proof fn lemma_zero_pos_from_rest(s: Seq<u8>, i: int)
    requires
        0 <= i <= s.len(),
    ensures
        i <= zero_pos_from(s, i) <= s.len(),
        forall|j: int| i <= j < zero_pos_from(s, i) ==> #[trigger] s[j] != 0,
        byte_at(s, zero_pos_from(s, i)) == 0,
    decreases s.len() - i,
{
    if i < s.len() && s[i] != 0 {
        lemma_zero_pos_from_rest(s, i + 1);
    }
}

/// `strncpy`: copies the C string `source` into the first `n` bytes of
/// `dest`, terminating zero included, and fills the rest of them with zeros.
pub fn strncpy(dest: &mut [u8], source: &[u8], n: usize)
    requires
        n <= old(dest)@.len(),
    ensures
        final(dest)@.len() == old(dest)@.len(),
        forall|i: int|
            0 <= i < old(dest)@.len() ==> #[trigger] final(dest)@[i] == if i < n {
                if i < c_len(source@) { source@[i] } else { 0u8 }
            } else {
                old(dest)@[i]
            },
{
    proof { lemma_c_len(source@); }
    let mut i: usize = 0;
    while i < n
        invariant_except_break
            forall|k: int| 0 <= k < dest@.len() ==> #[trigger] dest@[k] == if k < i { source@[k] } else { old(dest)@[k] },
        invariant
            n <= dest@.len(),
            dest@.len() == old(dest)@.len(),
            0 <= i <= n,
            i <= c_len(source@),
            0 <= c_len(source@) <= source@.len(),
            forall|j: int| 0 <= j < c_len(source@) ==> #[trigger] source@[j] != 0,
            byte_at(source@, c_len(source@)) == 0,
        ensures
            forall|k: int|
                0 <= k < dest@.len() ==> #[trigger] dest@[k] == if k < n {
                    if k < c_len(source@) { source@[k] } else { 0u8 }
                } else {
                    old(dest)@[k]
                },
        decreases n - i,
    {
        let b = byte_or_zero(source, i);
        dest[i] = b;
        if b == 0 {
            proof {
                if i < c_len(source@) {
                    assert(source@[i as int] != 0);
                }
            }
            let mut j = i + 1;
            while j < n
                invariant
                    n <= dest@.len(),
                    dest@.len() == old(dest)@.len(),
                    i < j <= n,
                    i == c_len(source@),
                    forall|k: int| 0 <= k < dest@.len() ==> #[trigger] dest@[k] == if k < i { source@[k] } else if k < j { 0u8 } else { old(dest)@[k] },
                decreases n - j,
            {
                dest[j] = 0;
                j = j + 1;
            }
            break;
        }
        i = i + 1;
    }
}

/// `needle` (as a C string) occurs in `hay` at position `i`.
pub open spec fn matches_at(hay: Seq<u8>, needle: Seq<u8>, i: int) -> bool {
    forall|k: int| 0 <= k < c_len(needle) ==> byte_at(hay, i + k) == #[trigger] needle[k]
}

/// `strstr`: the position of the first occurrence of the C string `needle`
/// in the C string `haystack`; 0 for an empty needle.
pub fn strstr(haystack: &[u8], needle: &[u8]) -> (r: Option<usize>)
    ensures
        c_len(needle@) == 0 ==> r == Some(0usize),
        c_len(needle@) > 0 ==> match r {
            None => forall|i: int| 0 <= i < c_len(haystack@) ==> !matches_at(haystack@, needle@, i),
            Some(i) => 0 <= i < c_len(haystack@) && matches_at(haystack@, needle@, i as int) && forall|j: int|
                0 <= j < i ==> !matches_at(haystack@, needle@, j),
        },
{
    proof {
        lemma_c_len(haystack@);
        lemma_c_len(needle@);
    }
    if byte_or_zero(needle, 0) == 0 {
        return Some(0);
    }
    let _hl = haystack.len();
    let _nl = needle.len();
    let mut h: usize = 0;
    while byte_or_zero(haystack, h) != 0
        invariant
            0 <= h <= c_len(haystack@),
            c_len(needle@) > 0,
            haystack@.len() <= usize::MAX,
            needle@.len() <= usize::MAX,
            0 <= c_len(haystack@) <= haystack@.len(),
            forall|j: int| 0 <= j < c_len(haystack@) ==> #[trigger] haystack@[j] != 0,
            byte_at(haystack@, c_len(haystack@)) == 0,
            0 <= c_len(needle@) <= needle@.len(),
            forall|j: int| 0 <= j < c_len(needle@) ==> #[trigger] needle@[j] != 0,
            byte_at(needle@, c_len(needle@)) == 0,
            forall|j: int| 0 <= j < h ==> !matches_at(haystack@, needle@, j),
        decreases haystack@.len() - h,
    {
        if haystack[h] == needle[0] {
            let mut k: usize = 0;
            while byte_or_zero(needle, k) != 0 && byte_or_zero(haystack, h + k) != 0 && byte_or_zero(
                haystack,
                h + k,
            ) == byte_or_zero(needle, k)
                invariant
                    0 <= k <= c_len(needle@),
                    h < c_len(haystack@),
                    haystack@.len() <= usize::MAX,
                    needle@.len() <= usize::MAX,
                    forall|j: int| 0 <= j < c_len(haystack@) ==> #[trigger] haystack@[j] != 0,
                    byte_at(haystack@, c_len(haystack@)) == 0,
                    h + k <= haystack@.len(),
                    0 <= c_len(haystack@) <= haystack@.len(),
                    0 <= c_len(needle@) <= needle@.len(),
                    forall|j: int| 0 <= j < c_len(needle@) ==> #[trigger] needle@[j] != 0,
                    byte_at(needle@, c_len(needle@)) == 0,
                    forall|j: int| 0 <= j < k ==> byte_at(haystack@, h + j) == #[trigger] needle@[j],
                decreases c_len(needle@) - k,
            {
                k = k + 1;
            }
            if byte_or_zero(needle, k) == 0 {
                return Some(h);
            }
            proof {
                assert(byte_at(haystack@, h + k) != needle@[k as int]);
            }
        }
        h = h + 1;
    }
    None
}

/// `strchr`: the position of the first byte of the C string `s` that equals
/// the low byte of `ch`; the terminating zero is never found.
pub fn strchr(s: &[u8], ch: i32) -> (r: Option<usize>)
    ensures
        match r {
            None => forall|i: int| 0 <= i < c_len(s@) ==> s@[i] != ch as u8,
            Some(i) => 0 <= i < c_len(s@) && s@[i as int] == ch as u8 && forall|j: int|
                0 <= j < i ==> s@[j] != ch as u8,
        },
{
    proof { lemma_c_len(s@); }
    let c = ch as u8;
    let mut i: usize = 0;
    while byte_or_zero(s, i) != 0
        invariant
            0 <= i <= c_len(s@),
            0 <= c_len(s@) <= s@.len(),
            forall|j: int| 0 <= j < c_len(s@) ==> #[trigger] s@[j] != 0,
            byte_at(s@, c_len(s@)) == 0,
            c == ch as u8,
            forall|j: int| 0 <= j < i ==> s@[j] != c,
        decreases s@.len() - i,
    {
        if s[i] == c {
            return Some(i);
        }
        i = i + 1;
    }
    None
}

/// `strrchr`: the position of the last byte of the C string `s` that equals
/// `ch`; for a zero `ch`, the position one past the terminating zero.
pub fn strrchr(s: &[u8], ch: u8) -> (r: Option<usize>)
    requires
        s@.len() < usize::MAX,
    ensures
        ch == 0 ==> r == Some((c_len(s@) + 1) as usize),
        ch != 0 ==> match r {
            None => forall|i: int| 0 <= i < c_len(s@) ==> s@[i] != ch,
            Some(i) => 0 <= i < c_len(s@) && s@[i as int] == ch && forall|j: int|
                i < j < c_len(s@) ==> s@[j] != ch,
        },
{
    proof { lemma_c_len(s@); }
    let mut n: usize = 0;
    if ch == 0 {
        while byte_or_zero(s, n) != 0
            invariant
                0 <= n <= c_len(s@),
                0 <= c_len(s@) <= s@.len(),
                s@.len() < usize::MAX,
                forall|j: int| 0 <= j < c_len(s@) ==> #[trigger] s@[j] != 0,
                byte_at(s@, c_len(s@)) == 0,
            decreases s@.len() - n,
        {
            n = n + 1;
        }
        return Some(n + 1);
    }
    let mut last: Option<usize> = None;
    while byte_or_zero(s, n) != 0
        invariant
            0 <= n <= c_len(s@),
            0 <= c_len(s@) <= s@.len(),
            forall|j: int| 0 <= j < c_len(s@) ==> #[trigger] s@[j] != 0,
            byte_at(s@, c_len(s@)) == 0,
            match last {
                None => forall|j: int| 0 <= j < n ==> s@[j] != ch,
                Some(i) => 0 <= i < n && s@[i as int] == ch && forall|j: int| i < j < n ==> s@[j] != ch,
            },
        decreases s@.len() - n,
    {
        if s[n] == ch {
            last = Some(n);
        }
        n = n + 1;
    }
    last
}

/// The first position at or after `i` that holds no whitespace byte.
pub open spec fn skip_spaces(s: Seq<u8>, i: int) -> int
    decreases s.len() - i,
{
    if 0 <= i < s.len() && is_space(s[i]) {
        skip_spaces(s, i + 1)
    } else {
        i
    }
}

/// The value of the digits in `[from, to)`, accumulated in wrapping `int`
/// (32-bit) arithmetic.
pub open spec fn digits_i32(s: Seq<u8>, from: int, to: int) -> i32
    decreases to - from,
{
    if to <= from {
        0
    } else {
        i32_specs::wrapping_add(
            i32_specs::wrapping_mul(digits_i32(s, from, to - 1), 10),
            (s[to - 1] - 48) as i32,
        )
    }
}

/// The exact value of the digits in `[from, to)`.
pub open spec fn digits_value(s: Seq<u8>, from: int, to: int) -> int
    decreases to - from,
{
    if to <= from {
        0
    } else {
        digits_value(s, from, to - 1) * 10 + (s[to - 1] - 48)
    }
}

/// Where the digits of a number start: after leading whitespace and one sign.
pub open spec fn number_start(s: Seq<u8>) -> int {
    let p = skip_spaces(s, 0);
    let c = byte_at(s, p);
    if c == 43 || c == 45 { p + 1 } else { p }
}

/// The number has a minus sign.
pub open spec fn number_negative(s: Seq<u8>) -> bool {
    byte_at(s, skip_spaces(s, 0)) == 45
}

/// What `atoi` returns: leading whitespace skipped, an optional sign, then the
/// decimal digits, all in wrapping 32-bit arithmetic.
pub open spec fn atoi_spec(s: Seq<u8>) -> i32 {
    let st = number_start(s);
    let v = digits_i32(s, st, digit_run_end(s, st));
    i32_specs::wrapping_mul(v, if number_negative(s) { -1i32 } else { 1i32 })
}

/// `atoi`: the decimal number at the start of the C string `s`.
pub fn atoi(s: &[u8]) -> (r: i32)
    ensures
        r == atoi_spec(s@),
{
    let mut c: usize = 0;
    let mut value: i32 = 0;
    let mut sign: i32 = 1;
    while c < s.len() && (s[c] == 32 || s[c] == 9 || s[c] == 10 || s[c] == 12 || s[c] == 13)
        invariant
            0 <= c <= s@.len(),
            skip_spaces(s@, 0) == skip_spaces(s@, c as int),
        decreases s@.len() - c,
    {
        c = c + 1;
    }
    let first = byte_or_zero(s, c);
    if first == 43 || first == 45 {
        if first == 45 {
            sign = -1;
        }
        c = c + 1;
    }
    let start = c;
    proof {
        lemma_digit_run_end(s@, start as int);
    }
    while c < s.len() && s[c] >= 48 && s[c] <= 57
        invariant
            start <= c <= digit_run_end(s@, start as int),
            digit_run_end(s@, start as int) <= s@.len(),
            forall|k: int| start <= k < digit_run_end(s@, start as int) ==> 0 <= k < s@.len() && is_digit(#[trigger] s@[k]),
            !is_digit(byte_at(s@, digit_run_end(s@, start as int))),
            value == digits_i32(s@, start as int, c as int),
        decreases s@.len() - c,
    {
        value = value.wrapping_mul(10);
        value = value.wrapping_add((s[c] - 48) as i32);
        c = c + 1;
    }
    value.wrapping_mul(sign)
}

/// When the digits of the number fit in an `int`, `atoi` returns their exact
/// value with the sign.
pub proof fn lemma_atoi_exact(s: Seq<u8>)
    requires
        digits_value(s, number_start(s), digit_run_end(s, number_start(s))) <= i32::MAX,
    ensures
        atoi_spec(s) == if number_negative(s) {
            -digits_value(s, number_start(s), digit_run_end(s, number_start(s)))
        } else {
            digits_value(s, number_start(s), digit_run_end(s, number_start(s)))
        },
{
    let st = number_start(s);
    let e = digit_run_end(s, st);
    lemma_skip_spaces_bounds(s, 0);
    assert(0 <= st <= s.len());
    lemma_digit_run_end(s, st);
    lemma_digits_exact(s, st, e);
}

proof fn lemma_skip_spaces_bounds(s: Seq<u8>, i: int)
    requires
        0 <= i,
    ensures
        skip_spaces(s, i) >= i,
        i <= s.len() ==> skip_spaces(s, i) <= s.len(),
    decreases s.len() - i,
{
    if 0 <= i < s.len() && is_space(s[i]) {
        lemma_skip_spaces_bounds(s, i + 1);
    }
}

/// Over digits, the wrapping value equals the exact one while that fits.
proof fn lemma_digits_exact(s: Seq<u8>, from: int, to: int)
    requires
        0 <= from <= to <= s.len(),
        forall|k: int| from <= k < to ==> is_digit(#[trigger] s[k]),
        digits_value(s, from, to) <= i32::MAX,
    ensures
        digits_i32(s, from, to) == digits_value(s, from, to),
        digits_value(s, from, to) >= 0,
    decreases to - from,
{
    if to > from {
        lemma_digits_nonneg(s, from, to - 1);
        assert(is_digit(s[to - 1]));
        lemma_digits_exact(s, from, to - 1);
    }
}

proof fn lemma_digits_nonneg(s: Seq<u8>, from: int, to: int)
    requires
        0 <= from <= to <= s.len(),
        forall|k: int| from <= k < to ==> is_digit(#[trigger] s[k]),
    ensures
        digits_value(s, from, to) >= 0,
    decreases to - from,
{
    if to > from {
        lemma_digits_nonneg(s, from, to - 1);
    }
}

/// `toupper`: the low byte of `c` in upper case.
pub fn toupper(c: i32) -> (r: i32)
    ensures
        r == upper(c as u8) as i32,
{
    to_upper(c as u8) as i32
}

/// `tolower`: the low byte of `c` in lower case.
pub fn tolower(c: i32) -> (r: i32)
    ensures
        r == lower(c as u8) as i32,
{
    to_lower(c as u8) as i32
}

/// `abs`: the absolute value; the smallest `int` stays as it is (it has no
/// positive counterpart and the negation wraps around).
pub fn abs(n: i32) -> (r: i32)
    ensures
        n == i32::MIN ==> r == i32::MIN,
        n != i32::MIN ==> r == if n < 0 { -n } else { n as int },
{
    if n < 0 {
        if n == i32::MIN {
            n
        } else {
            -n
        }
    } else {
        n
    }
}

/// The upper-case table that `__ctype_toupper_loc` points into: entry `i`
/// is the upper case of byte `i - 128` (taken modulo 256), for `i` below 384.
pub fn toupper_table() -> (r: Vec<i32>)
    ensures
        r@.len() == 384,
        forall|i: int| 0 <= i < 384 ==> #[trigger] r@[i] == upper(((i + 128) % 256) as u8) as i32,
{
    let mut table: Vec<i32> = Vec::new();
    let mut i: usize = 0;
    while i < 384
        invariant
            0 <= i <= 384,
            table@.len() == i,
            forall|k: int| 0 <= k < i ==> #[trigger] table@[k] == upper(((k + 128) % 256) as u8) as i32,
        decreases 384 - i,
    {
        let c: u8 = ((i + 128) % 256) as u8;
        table.push(to_upper(c) as i32);
        i = i + 1;
    }
    table
}

} // verus!
