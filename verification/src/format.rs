use vstd::prelude::*;
use vstd::wrapping::usize_specs;

verus! {

/// The kind of argument that a conversion reads.
#[derive(Clone, Copy, PartialEq, Eq, Debug, Structural)]
pub enum ArgKind {
    /// `%d`, `%i`: an `int`, in decimal.
    Int,
    /// `%u`: an `unsigned int`, in decimal.
    UInt,
    /// `%x`: an `unsigned int`, in lower-case hexadecimal.
    Hex,
    /// `%X`: an `unsigned int`, in upper-case hexadecimal.
    HexUpper,
    /// `%o`: an `unsigned int`, in octal.
    Octal,
    /// `%p`: a pointer, as `0x` and lower-case hexadecimal, or `(null)`.
    Pointer,
    /// `%c`: an `int` whose low byte is written as a character.
    Char,
    /// `%s`: a C string, or `(null)`.
    Str,
    /// `%f`, `%F`, `%g`, `%G`: a `double`.
    Float,
    /// `%ld`, `%li`: a `long`, in decimal.
    Long,
    /// `%lu`: an `unsigned long`, in decimal.
    ULong,
}

/// One step of a format string.
#[derive(Clone, Copy, PartialEq, Eq, Debug, Structural)]
pub enum Directive {
    /// A byte written as a character.
    Literal(u8),
    /// A conversion that reads one argument, with the precision given after `.`.
    Convert { kind: ArgKind, precision: Option<usize> },
    /// `%%`: a percent sign.
    Percent,
    /// `%` and a byte that names no conversion: both are written.
    Unknown(u8),
    /// `%l` and a byte that names no conversion: all three are written.
    UnknownLong(u8),
}

/// An argument as a conversion reads it.  Floating-point arguments come
/// already rendered as text (`Text`).
pub enum FmtArg {
    I32(i32),
    U32(u32),
    I64(i64),
    U64(u64),
    Ptr(usize),
    /// A C string: its bytes (up to, not including, the terminating zero), or
    /// `None` for a null pointer.
    Str(Option<Vec<u8>>),
    /// Text to be written as it is.
    Text(Vec<u8>),
}

/// The byte at `i`; past the end of the string it reads the terminating zero.
pub open spec fn byte_at(fmt: Seq<u8>, i: int) -> u8 {
    if 0 <= i < fmt.len() { fmt[i] } else { 0 }
}

pub open spec fn is_digit(b: u8) -> bool {
    48 <= b <= 57
}

/// The first position at or after `q` that does not hold a decimal digit.
pub open spec fn digit_run_end(fmt: Seq<u8>, q: int) -> int
    decreases fmt.len() - q,
{
    if 0 <= q < fmt.len() && is_digit(fmt[q]) {
        digit_run_end(fmt, q + 1)
    } else {
        q
    }
}

/// The value of the digits in `[from, to)`, computed in `usize` arithmetic
/// that wraps around.
pub open spec fn prec_value(fmt: Seq<u8>, from: int, to: int) -> usize
    decreases to - from,
{
    if to <= from {
        0
    } else {
        usize_specs::wrapping_add(
            usize_specs::wrapping_mul(prec_value(fmt, from, to - 1), 10),
            (fmt[to - 1] - 48) as usize,
        )
    }
}

/// The conversion named by the byte after `%` (and, for `l`, the next byte).
pub open spec fn conversion_of(c: u8) -> Option<ArgKind> {
    if c == 100 || c == 105 {
        Some(ArgKind::Int)
    } else if c == 117 {
        Some(ArgKind::UInt)
    } else if c == 120 {
        Some(ArgKind::Hex)
    } else if c == 88 {
        Some(ArgKind::HexUpper)
    } else if c == 111 {
        Some(ArgKind::Octal)
    } else if c == 112 {
        Some(ArgKind::Pointer)
    } else if c == 99 {
        Some(ArgKind::Char)
    } else if c == 115 {
        Some(ArgKind::Str)
    } else if c == 102 || c == 70 || c == 103 || c == 71 {
        Some(ArgKind::Float)
    } else {
        None
    }
}

/// The directive that starts at `pos`, and where the next one starts; `None`
/// at the terminating zero.
pub open spec fn parse_directive(fmt: Seq<u8>, pos: int) -> Option<(Directive, int)> {
    let ch = byte_at(fmt, pos);
    if ch == 0 {
        None
    } else if ch != 37 {
        Some((Directive::Literal(ch), pos + 1))
    } else {
        let q = pos + 1;
        let has_prec = byte_at(fmt, q) == 46;
        let sp = if has_prec { digit_run_end(fmt, q + 1) } else { q };
        let precision = if has_prec { Some(prec_value(fmt, q + 1, sp)) } else { None };
        let c = byte_at(fmt, sp);
        let after = sp + 1;
        if c == 108 {
            let n = byte_at(fmt, after);
            if n == 100 || n == 105 {
                Some((Directive::Convert { kind: ArgKind::Long, precision }, after + 1))
            } else if n == 117 {
                Some((Directive::Convert { kind: ArgKind::ULong, precision }, after + 1))
            } else {
                Some((Directive::UnknownLong(n), after + 1))
            }
        } else if c == 37 {
            Some((Directive::Percent, after))
        } else {
            match conversion_of(c) {
                Some(kind) => Some((Directive::Convert { kind, precision }, after)),
                None => Some((Directive::Unknown(c), after)),
            }
        }
    }
}

/// A run of digits ends inside the string or right at its end.
pub proof fn lemma_digit_run_end(fmt: Seq<u8>, q: int)
    ensures
        digit_run_end(fmt, q) >= q,
        q <= fmt.len() ==> digit_run_end(fmt, q) <= fmt.len(),
        forall|k: int| q <= k < digit_run_end(fmt, q) ==> 0 <= k < fmt.len() && is_digit(#[trigger] fmt[k]),
        !is_digit(byte_at(fmt, digit_run_end(fmt, q))),
    decreases fmt.len() - q,
{
    if 0 <= q < fmt.len() && is_digit(fmt[q]) {
        lemma_digit_run_end(fmt, q + 1);
    }
}

/// A directive takes at least one byte and ends at most one byte past the
/// terminating zero.
pub proof fn lemma_parse_directive_bounds(fmt: Seq<u8>, pos: int)
    requires
        0 <= pos,
    ensures
        parse_directive(fmt, pos) matches Some((d, next)) ==> pos < fmt.len() && pos < next <= fmt.len() + 1,
{
    lemma_digit_run_end(fmt, pos + 2);
}

/// The bytes that writing byte `b` as a character produces: the byte itself
/// below 128, otherwise its two-byte UTF-8 encoding (as code point `b`).
pub open spec fn encode_byte(b: u8) -> Seq<u8> {
    if b < 128 {
        seq![b]
    } else {
        seq![(192 + b / 64) as u8, (128 + b % 64) as u8]
    }
}

/// Every byte of `s` written as a character, in order.
pub open spec fn encode_bytes(s: Seq<u8>) -> Seq<u8>
    decreases s.len(),
{
    if s.len() == 0 {
        Seq::empty()
    } else {
        encode_bytes(s.drop_last()) + encode_byte(s.last())
    }
}

/// The character of digit `d` (below 36): `0`-`9`, then letters.
pub open spec fn digit_char(d: int, upper: bool) -> u8 {
    if d < 10 {
        (48 + d) as u8
    } else if upper {
        (55 + d) as u8
    } else {
        (87 + d) as u8
    }
}

/// The digits of `n` in base `base`, most significant first, without leading
/// zeros (empty for zero).
pub open spec fn raw_digits(n: nat, base: nat, upper: bool) -> Seq<u8>
    decreases n,
{
    if n == 0 || base < 2 {
        Seq::empty()
    } else {
        proof {
            assert(n / base < n) by (nonlinear_arith)
                requires
                    n > 0,
                    base >= 2,
            ;
        }
        raw_digits(n / base, base, upper).push(digit_char((n % base) as int, upper))
    }
}

/// `n` written in base `base`: its digits, or `0` for zero.
pub open spec fn num_text(n: nat, base: nat, upper: bool) -> Seq<u8> {
    if n == 0 {
        seq![48u8]
    } else {
        raw_digits(n, base, upper)
    }
}

/// `s` with zeros in front up to `width` bytes.
pub open spec fn zero_pad(s: Seq<u8>, width: int) -> Seq<u8> {
    if s.len() < width {
        Seq::new((width - s.len()) as nat, |i: int| 48u8) + s
    } else {
        s
    }
}

/// An unsigned number as a conversion writes it: zero padded to the precision
/// when one is given.
pub open spec fn unsigned_text(n: nat, base: nat, upper: bool, precision: Option<usize>) -> Seq<u8> {
    match precision {
        None => num_text(n, base, upper),
        Some(p) => zero_pad(num_text(n, base, upper), p as int),
    }
}

/// A signed decimal number as a conversion writes it: a minus sign for a
/// negative value, and zero padding to the precision that counts the sign.
pub open spec fn signed_text(v: int, precision: Option<usize>) -> Seq<u8> {
    if v < 0 {
        match precision {
            None => seq![45u8] + num_text((-v) as nat, 10, false),
            Some(p) => seq![45u8] + zero_pad(num_text((-v) as nat, 10, false), p - 1),
        }
    } else {
        unsigned_text(v as nat, 10, false, precision)
    }
}

/// The position of the first zero byte of `s` at or after `i`, or its length.
pub open spec fn zero_pos_from(s: Seq<u8>, i: int) -> int
    decreases s.len() - i,
{
    if i >= s.len() || i < 0 {
        s.len() as int
    } else if s[i] == 0 {
        i
    } else {
        zero_pos_from(s, i + 1)
    }
}

/// The bytes of a C string that `%s` writes: those before the first zero, and
/// no more than the precision.
pub open spec fn str_taken(s: Seq<u8>, precision: Option<usize>) -> Seq<u8> {
    let z = zero_pos_from(s, 0);
    match precision {
        None => s.take(z),
        Some(p) => if p < z { s.take(p as int) } else { s.take(z) },
    }
}

/// `(null)`, written for a null pointer or string.
pub open spec fn null_text() -> Seq<u8> {
    seq![40u8, 110u8, 117u8, 108u8, 108u8, 41u8]
}

/// The argument has the type that the conversion reads.
pub open spec fn kind_matches(kind: ArgKind, arg: FmtArg) -> bool {
    match kind {
        ArgKind::Int | ArgKind::Char => arg is I32,
        ArgKind::UInt | ArgKind::Hex | ArgKind::HexUpper | ArgKind::Octal => arg is U32,
        ArgKind::Pointer => arg is Ptr,
        ArgKind::Str => arg is Str,
        ArgKind::Float => arg is Text,
        ArgKind::Long => arg is I64,
        ArgKind::ULong => arg is U64,
    }
}

/// The text of one conversion of a matching argument.
pub open spec fn conversion_text(kind: ArgKind, precision: Option<usize>, arg: FmtArg) -> Seq<u8> {
    match arg {
        FmtArg::I32(v) => if kind == ArgKind::Char {
            encode_byte(v as u8)
        } else {
            signed_text(v as int, precision)
        },
        FmtArg::U32(v) => if kind == ArgKind::Hex {
            unsigned_text(v as nat, 16, false, precision)
        } else if kind == ArgKind::HexUpper {
            unsigned_text(v as nat, 16, true, precision)
        } else if kind == ArgKind::Octal {
            unsigned_text(v as nat, 8, false, precision)
        } else {
            unsigned_text(v as nat, 10, false, precision)
        },
        FmtArg::I64(v) => signed_text(v as int, precision),
        FmtArg::U64(v) => unsigned_text(v as nat, 10, false, precision),
        FmtArg::Ptr(v) => if v == 0 {
            null_text()
        } else {
            seq![48u8, 120u8] + num_text(v as nat, 16, false)
        },
        FmtArg::Str(s) => match s {
            None => null_text(),
            Some(b) => encode_bytes(str_taken(b@, precision)),
        },
        FmtArg::Text(t) => t@,
    }
}

/// The text of a directive that reads no argument.
pub open spec fn plain_text(d: Directive) -> Seq<u8> {
    match d {
        Directive::Literal(b) => encode_byte(b),
        Directive::Percent => seq![37u8],
        Directive::Unknown(c) => seq![37u8] + encode_byte(c),
        Directive::UnknownLong(c) => seq![37u8, 108u8] + encode_byte(c),
        Directive::Convert { .. } => Seq::empty(),
    }
}

/// Every conversion from `pos` on has an argument of its type, taken in order
/// from `args[ai]` on.
pub open spec fn args_fit_from(fmt: Seq<u8>, pos: int, args: Seq<FmtArg>, ai: int) -> bool
    decreases fmt.len() + 2 - pos,
{
    if pos < 0 || ai < 0 {
        false
    } else {
        match parse_directive(fmt, pos) {
            None => true,
            Some((d, next)) => {
                proof {
                    lemma_parse_directive_bounds(fmt, pos);
                }
                match d {
                    Directive::Convert { kind, precision } => ai < args.len() && kind_matches(
                        kind,
                        args[ai],
                    ) && args_fit_from(fmt, next, args, ai + 1),
                    _ => args_fit_from(fmt, next, args, ai),
                }
            },
        }
    }
}

/// The text that the format string from `pos` on produces with the arguments
/// from `args[ai]` on.
pub open spec fn format_from(fmt: Seq<u8>, pos: int, args: Seq<FmtArg>, ai: int) -> Seq<u8>
    decreases fmt.len() + 2 - pos,
{
    if pos < 0 || ai < 0 {
        Seq::empty()
    } else {
        match parse_directive(fmt, pos) {
            None => Seq::empty(),
            Some((d, next)) => {
                proof {
                    lemma_parse_directive_bounds(fmt, pos);
                }
                match d {
                    Directive::Convert { kind, precision } => conversion_text(kind, precision, args[ai])
                        + format_from(fmt, next, args, ai + 1),
                    _ => plain_text(d) + format_from(fmt, next, args, ai),
                }
            },
        }
    }
}

/// The text that the whole format string produces with the arguments.
pub open spec fn formatted(fmt: Seq<u8>, args: Seq<FmtArg>) -> Seq<u8> {
    format_from(fmt, 0, args, 0)
}

/// A format string of plain ASCII bytes, without `%` and without zero bytes,
/// comes out unchanged, whatever the arguments.
pub proof fn lemma_plain_format(fmt: Seq<u8>, args: Seq<FmtArg>)
    requires
        forall|i: int| 0 <= i < fmt.len() ==> 0 < #[trigger] fmt[i] < 128 && fmt[i] != 37,
    ensures
        formatted(fmt, args) == fmt,
{
    lemma_plain_format_from(fmt, args, 0);
    assert(fmt.subrange(0, fmt.len() as int) =~= fmt);
}

/// Each of the bytes `f`, `F`, `g` and `G` after `%` names the
/// floating-point conversion: wherever it stands in a format string, `%`
/// and that byte form one directive that reads one argument, with no
/// precision.
pub proof fn lemma_float_directive(fmt: Seq<u8>, pos: int)
    requires
        0 <= pos,
        byte_at(fmt, pos) == 37,
        byte_at(fmt, pos + 1) == 102 || byte_at(fmt, pos + 1) == 70 || byte_at(fmt, pos + 1) == 103
            || byte_at(fmt, pos + 1) == 71,
    ensures
        parse_directive(fmt, pos) == Some((Directive::Convert { kind: ArgKind::Float, precision: None }, pos + 2)),
{
}

/// `%f`, `%F`, `%g` and `%G` on their own write the rendered argument, as it
/// is, and take exactly that one argument.
pub proof fn lemma_float_conversion_writes_argument(c: u8, arg: FmtArg)
    requires
        c == 102 || c == 70 || c == 103 || c == 71,
        arg is Text,
    ensures
        args_fit_from(seq![37u8, c], 0, seq![arg], 0),
        formatted(seq![37u8, c], seq![arg]) == arg->Text_0@,
{
    let fmt = seq![37u8, c];
    let args = seq![arg];
    lemma_float_directive(fmt, 0);
    assert(parse_directive(fmt, 2) is None);
    assert(format_from(fmt, 2, args, 1) == Seq::<u8>::empty());
    assert(args_fit_from(fmt, 2, args, 1));
    assert(format_from(fmt, 0, args, 0) == conversion_text(ArgKind::Float, None, arg) + format_from(fmt, 2, args, 1));
    assert(conversion_text(ArgKind::Float, None, arg) == arg->Text_0@);
    assert(format_from(fmt, 0, args, 0) =~= arg->Text_0@);
}

proof fn lemma_plain_format_from(fmt: Seq<u8>, args: Seq<FmtArg>, pos: int)
    requires
        0 <= pos <= fmt.len(),
        forall|i: int| 0 <= i < fmt.len() ==> 0 < #[trigger] fmt[i] < 128 && fmt[i] != 37,
    ensures
        format_from(fmt, pos, args, 0) == fmt.subrange(pos, fmt.len() as int),
    decreases fmt.len() - pos,
{
    if pos < fmt.len() {
        lemma_plain_format_from(fmt, args, pos + 1);
        assert(parse_directive(fmt, pos) == Some((Directive::Literal(fmt[pos]), pos + 1)));
        assert(format_from(fmt, pos, args, 0) == encode_byte(fmt[pos]) + format_from(fmt, pos + 1, args, 0));
        assert(fmt.subrange(pos, fmt.len() as int) =~= seq![fmt[pos]] + fmt.subrange(pos + 1, fmt.len() as int));
    } else {
        assert(fmt.subrange(pos, fmt.len() as int) =~= Seq::<u8>::empty());
    }
}

/// The byte at `i` of the format string; the terminating zero past its end.
fn fmt_byte(fmt: &[u8], i: usize) -> (r: u8)
    ensures
        r == byte_at(fmt@, i as int),
{
    if i < fmt.len() {
        fmt[i]
    } else {
        0
    }
}

/// The conversion named by the byte after `%`, if any.
fn conversion(c: u8) -> (r: Option<ArgKind>)
    ensures
        r == conversion_of(c),
{
    if c == 100 || c == 105 {
        Some(ArgKind::Int)
    } else if c == 117 {
        Some(ArgKind::UInt)
    } else if c == 120 {
        Some(ArgKind::Hex)
    } else if c == 88 {
        Some(ArgKind::HexUpper)
    } else if c == 111 {
        Some(ArgKind::Octal)
    } else if c == 112 {
        Some(ArgKind::Pointer)
    } else if c == 99 {
        Some(ArgKind::Char)
    } else if c == 115 {
        Some(ArgKind::Str)
    } else if c == 102 || c == 70 || c == 103 || c == 71 {
        Some(ArgKind::Float)
    } else {
        None
    }
}

/// Reads the directive that starts at `pos`: a plain byte, or `%` with an
/// optional `.` and precision digits, a conversion byte and, after `l`, one
/// more byte.  `None` at the terminating zero.
pub fn next_directive(fmt: &[u8], pos: usize) -> (r: Option<(Directive, usize)>)
    requires
        fmt@.len() + 3 <= usize::MAX,
        pos <= fmt@.len() + 1,
    ensures
        match r {
            None => true,
            Some((d, next)) => next <= fmt@.len() + 1,
        },
        match r {
            None => parse_directive(fmt@, pos as int) is None,
            Some((d, next)) => parse_directive(fmt@, pos as int) == Some((d, next as int)),
        },
{
    proof {
        lemma_digit_run_end(fmt@, pos + 2);
    }
    let ch = fmt_byte(fmt, pos);
    if ch == 0 {
        return None;
    }
    if ch != 37 {
        return Some((Directive::Literal(ch), pos + 1));
    }
    let mut fi = pos + 1;
    let mut precision: Option<usize> = None;
    let mut next_byte = fmt_byte(fmt, fi);
    if next_byte == 46 {
        fi = fi + 1;
        let mut p_val: usize = 0;
        loop
            invariant
                pos + 2 <= fi <= digit_run_end(fmt@, pos + 2),
                digit_run_end(fmt@, pos + 2) <= fmt@.len(),
                fmt@.len() + 3 <= usize::MAX,
                forall|k: int| pos + 2 <= k < digit_run_end(fmt@, pos + 2) ==> 0 <= k < fmt@.len() && is_digit(#[trigger] fmt@[k]),
                !is_digit(byte_at(fmt@, digit_run_end(fmt@, pos + 2))),
                p_val == prec_value(fmt@, pos + 2, fi as int),
            ensures
                fi == digit_run_end(fmt@, pos + 2),
                p_val == prec_value(fmt@, pos + 2, fi as int),
            decreases fmt@.len() - fi,
        {
            let digit = fmt_byte(fmt, fi);
            if digit >= 48 && digit <= 57 {
                p_val = p_val.wrapping_mul(10).wrapping_add((digit - 48) as usize);
                fi = fi + 1;
            } else {
                break;
            }
        }
        precision = Some(p_val);
        next_byte = fmt_byte(fmt, fi);
    }
    let spec_byte = next_byte;
    fi = fi + 1;
    if spec_byte == 108 {
        let next_spec = fmt_byte(fmt, fi);
        fi = fi + 1;
        if next_spec == 100 || next_spec == 105 {
            return Some((Directive::Convert { kind: ArgKind::Long, precision }, fi));
        } else if next_spec == 117 {
            return Some((Directive::Convert { kind: ArgKind::ULong, precision }, fi));
        } else {
            return Some((Directive::UnknownLong(next_spec), fi));
        }
    }
    if spec_byte == 37 {
        return Some((Directive::Percent, fi));
    }
    match conversion(spec_byte) {
        Some(kind) => Some((Directive::Convert { kind, precision }, fi)),
        None => Some((Directive::Unknown(spec_byte), fi)),
    }
}

/// Appends byte `b` written as a character.
pub fn push_encoded(out: &mut Vec<u8>, b: u8)
    ensures
        final(out)@ == old(out)@ + encode_byte(b),
{
    if b < 128 {
        out.push(b);
    } else {
        out.push(192 + b / 64);
        out.push(128 + b % 64);
    }
    proof {
        assert(out@ =~= old(out)@ + encode_byte(b));
    }
}

/// Appends every byte of `s` written as a character.
fn push_encoded_all(out: &mut Vec<u8>, s: &[u8], count: usize)
    requires
        count <= s@.len(),
    ensures
        final(out)@ == old(out)@ + encode_bytes(s@.take(count as int)),
{
    let mut i: usize = 0;
    while i < count
        invariant
            count <= s@.len(),
            0 <= i <= count,
            out@ == old(out)@ + encode_bytes(s@.take(i as int)),
        decreases count - i,
    {
        let b = s[i];
        push_encoded(out, b);
        proof {
            let t = s@.take(i + 1);
            assert(t.drop_last() =~= s@.take(i as int));
            assert(t.last() == b);
        }
        i = i + 1;
        proof {
            assert(out@ =~= old(out)@ + encode_bytes(s@.take(i as int)));
        }
    }
}

/// `n` written in base 8, 10 or 16.
pub fn number_text(n: u64, base: u64, upper: bool) -> (r: Vec<u8>)
    requires
        base == 8 || base == 10 || base == 16,
    ensures
        r@ == num_text(n as nat, base as nat, upper),
{
    let mut out: Vec<u8> = Vec::new();
    if n == 0 {
        out.push(48);
        proof {
            assert(out@ =~= num_text(n as nat, base as nat, upper));
        }
        return out;
    }
    let mut val = n;
    while val > 0
        invariant
            base == 8 || base == 10 || base == 16,
            n > 0,
            raw_digits(n as nat, base as nat, upper) == raw_digits(val as nat, base as nat, upper) + out@,
        decreases val,
    {
        let d = val % base;
        let c: u8 = if d < 10 {
            48 + d as u8
        } else if upper {
            55 + d as u8
        } else {
            87 + d as u8
        };
        assert(c == digit_char((val % base) as int, upper));
        let ghost before = out@;
        out.insert(0, c);
        proof {
            let rv = raw_digits(val as nat, base as nat, upper);
            let rq = raw_digits((val / base) as nat, base as nat, upper);
            assert(rv == rq.push(c));
            assert(out@ =~= seq![c] + before);
            assert(rv + before =~= rq + out@);
        }
        val = val / base;
    }
    proof {
        assert(raw_digits(0, base as nat, upper) =~= Seq::<u8>::empty());
        assert(out@ =~= num_text(n as nat, base as nat, upper));
    }
    out
}

/// Appends `s`, with zeros in front up to `width` bytes.
fn push_zero_padded(out: &mut Vec<u8>, s: &Vec<u8>, width: usize)
    ensures
        final(out)@ == old(out)@ + zero_pad(s@, width as int),
{
    let len = s.len();
    if len < width {
        let mut k: usize = 0;
        while k < width - len
            invariant
                len == s@.len(),
                len < width,
                0 <= k <= width - len,
                out@ == old(out)@ + Seq::new(k as nat, |i: int| 48u8),
            decreases width - len - k,
        {
            out.push(48);
            k = k + 1;
            proof {
                assert(out@ =~= old(out)@ + Seq::new(k as nat, |i: int| 48u8));
            }
        }
    }
    let mut j: usize = 0;
    let ghost mid = out@;
    while j < len
        invariant
            len == s@.len(),
            0 <= j <= len,
            out@ == mid + s@.take(j as int),
        decreases len - j,
    {
        out.push(s[j]);
        j = j + 1;
        proof {
            assert(out@ =~= mid + s@.take(j as int));
        }
    }
    proof {
        assert(s@.take(len as int) =~= s@);
        assert(out@ =~= old(out)@ + zero_pad(s@, width as int));
    }
}

/// Appends an unsigned number as a conversion writes it.
fn push_unsigned(out: &mut Vec<u8>, n: u64, base: u64, upper: bool, precision: Option<usize>)
    requires
        base == 8 || base == 10 || base == 16,
    ensures
        final(out)@ == old(out)@ + unsigned_text(n as nat, base as nat, upper, precision),
{
    let digits = number_text(n, base, upper);
    match precision {
        None => {
            push_zero_padded(out, &digits, 0);
            proof {
                assert(zero_pad(digits@, 0) == digits@);
            }
        },
        Some(p) => {
            push_zero_padded(out, &digits, p);
        },
    }
}

/// Appends a signed decimal number as a conversion writes it.
fn push_signed(out: &mut Vec<u8>, v: i64, precision: Option<usize>)
    ensures
        final(out)@ == old(out)@ + signed_text(v as int, precision),
{
    if v < 0 {
        let magnitude: u64 = (-(v + 1)) as u64 + 1;
        let digits = number_text(magnitude, 10, false);
        out.push(45);
        let ghost mid = out@;
        match precision {
            None => {
                push_zero_padded(out, &digits, 0);
                proof {
                    assert(zero_pad(digits@, 0) == digits@);
                }
            },
            Some(p) => {
                if p == 0 {
                    push_zero_padded(out, &digits, 0);
                    proof {
                        assert(zero_pad(digits@, 0) == zero_pad(digits@, p - 1));
                    }
                } else {
                    push_zero_padded(out, &digits, p - 1);
                }
            },
        }
        proof {
            assert(out@ =~= old(out)@ + signed_text(v as int, precision));
        }
    } else {
        push_unsigned(out, v as u64, 10, false, precision);
    }
}

/// `v` in decimal, with a minus sign when negative.
pub fn decimal_text(v: i64) -> (r: Vec<u8>)
    ensures
        r@ == signed_text(v as int, None),
{
    let mut out: Vec<u8> = Vec::new();
    push_signed(&mut out, v, None);
    proof {
        assert(out@ =~= signed_text(v as int, None));
    }
    out
}

/// The number of bytes of `s` that `%s` writes: up to the first zero, and no
/// more than the precision.
fn str_count(s: &[u8], precision: Option<usize>) -> (r: usize)
    ensures
        r <= s@.len(),
        s@.take(r as int) == str_taken(s@, precision),
{
    let mut i: usize = 0;
    while i < s.len()
        invariant
            0 <= i <= s@.len(),
            zero_pos_from(s@, 0) == zero_pos_from(s@, i as int),
            match precision {
                Some(p) => i <= p,
                None => true,
            },
        ensures
            0 <= i <= s@.len(),
            zero_pos_from(s@, 0) == zero_pos_from(s@, i as int),
            i == s@.len() || s@[i as int] == 0 || (match precision {
                Some(p) => i == p,
                None => false,
            }),
            match precision {
                Some(p) => i <= p,
                None => true,
            },
        decreases s@.len() - i,
    {
        if s[i] == 0 {
            break;
        }
        match precision {
            Some(p) => {
                if i >= p {
                    break;
                }
            },
            None => {},
        }
        i = i + 1;
    }
    proof {
        let z = zero_pos_from(s@, 0);
        assert(z == zero_pos_from(s@, i as int));
        lemma_zero_pos_from_bounds(s@, i as int);
    }
    i
}

/// The first zero at or after `i` is no earlier than `i` and within the string.
pub proof fn lemma_zero_pos_from_bounds(s: Seq<u8>, i: int)
    requires
        0 <= i <= s.len(),
    ensures
        i <= zero_pos_from(s, i) <= s.len(),
        zero_pos_from(s, i) == i <==> (i == s.len() || s[i] == 0),
    decreases s.len() - i,
{
    if i < s.len() && s[i] != 0 {
        lemma_zero_pos_from_bounds(s, i + 1);
    }
}

/// Appends `(null)`.
fn push_null(out: &mut Vec<u8>)
    ensures
        final(out)@ == old(out)@ + null_text(),
{
    out.push(40);
    out.push(110);
    out.push(117);
    out.push(108);
    out.push(108);
    out.push(41);
    proof {
        assert(out@ =~= old(out)@ + null_text());
    }
}

/// Appends the text of one conversion of `arg`.
pub fn push_conversion(out: &mut Vec<u8>, kind: ArgKind, precision: Option<usize>, arg: &FmtArg)
    requires
        kind_matches(kind, *arg),
    ensures
        final(out)@ == old(out)@ + conversion_text(kind, precision, *arg),
{
    match arg {
        FmtArg::I32(v) => {
            if kind == ArgKind::Char {
                push_encoded(out, *v as u8);
            } else {
                push_signed(out, *v as i64, precision);
            }
        },
        FmtArg::U32(v) => {
            if kind == ArgKind::Hex {
                push_unsigned(out, *v as u64, 16, false, precision);
            } else if kind == ArgKind::HexUpper {
                push_unsigned(out, *v as u64, 16, true, precision);
            } else if kind == ArgKind::Octal {
                push_unsigned(out, *v as u64, 8, false, precision);
            } else {
                push_unsigned(out, *v as u64, 10, false, precision);
            }
        },
        FmtArg::I64(v) => {
            push_signed(out, *v, precision);
        },
        FmtArg::U64(v) => {
            push_unsigned(out, *v, 10, false, precision);
        },
        FmtArg::Ptr(v) => {
            if *v == 0 {
                push_null(out);
            } else {
                let digits = number_text(*v as u64, 16, false);
                out.push(48);
                out.push(120);
                let ghost mid = out@;
                push_zero_padded(out, &digits, 0);
                proof {
                    assert(zero_pad(digits@, 0) == digits@);
                    assert(out@ =~= old(out)@ + conversion_text(kind, precision, *arg));
                }
            }
        },
        FmtArg::Str(opt) => {
            match opt {
                None => {
                    push_null(out);
                },
                Some(bytes) => {
                    let n = str_count(bytes.as_slice(), precision);
                    push_encoded_all(out, bytes.as_slice(), n);
                },
            }
        },
        FmtArg::Text(t) => {
            let mut j: usize = 0;
            while j < t.len()
                invariant
                    0 <= j <= t@.len(),
                    out@ == old(out)@ + t@.take(j as int),
                decreases t@.len() - j,
            {
                out.push(t[j]);
                j = j + 1;
                proof {
                    assert(out@ =~= old(out)@ + t@.take(j as int));
                }
            }
            proof {
                assert(t@.take(t@.len() as int) =~= t@);
            }
        },
    }
}

/// Appends the text of a directive that reads no argument.
pub fn push_plain(out: &mut Vec<u8>, d: Directive)
    ensures
        final(out)@ == old(out)@ + plain_text(d),
{
    match d {
        Directive::Literal(b) => {
            push_encoded(out, b);
        },
        Directive::Percent => {
            out.push(37);
            proof {
                assert(out@ =~= old(out)@ + plain_text(d));
            }
        },
        Directive::Unknown(c) => {
            out.push(37);
            push_encoded(out, c);
            proof {
                assert(out@ =~= old(out)@ + plain_text(d));
            }
        },
        Directive::UnknownLong(c) => {
            out.push(37);
            out.push(108);
            push_encoded(out, c);
            proof {
                assert(out@ =~= old(out)@ + plain_text(d));
            }
        },
        Directive::Convert { .. } => {
            proof {
                assert(out@ =~= old(out)@ + plain_text(d));
            }
        },
    }
}

/// Formats `fmt` with `args` as C's `printf` family does: plain bytes are
/// written as characters, `%` starts a conversion that reads the next
/// argument.  Every conversion must have an argument of its type.
pub fn write_c_formatted(fmt: &[u8], args: &[FmtArg]) -> (r: Vec<u8>)
    requires
        fmt@.len() + 3 <= usize::MAX,
        args_fit_from(fmt@, 0, args@, 0),
    ensures
        r@ == formatted(fmt@, args@),
{
    let mut out: Vec<u8> = Vec::new();
    let mut pos: usize = 0;
    let mut ai: usize = 0;
    loop
        invariant
            fmt@.len() + 3 <= usize::MAX,
            pos <= fmt@.len() + 1,
            ai <= args@.len(),
            args_fit_from(fmt@, pos as int, args@, ai as int),
            formatted(fmt@, args@) == out@ + format_from(fmt@, pos as int, args@, ai as int),
        decreases fmt@.len() + 2 - pos,
    {
        proof {
            lemma_parse_directive_bounds(fmt@, pos as int);
        }
        match next_directive(fmt, pos) {
            None => {
                proof {
                    assert(out@ + Seq::<u8>::empty() =~= out@);
                }
                return out;
            },
            Some((d, next)) => {
                let ghost before = out@;
                match d {
                    Directive::Convert { kind, precision } => {
                        push_conversion(&mut out, kind, precision, &args[ai]);
                        ai = ai + 1;
                    },
                    _ => {
                        push_plain(&mut out, d);
                    },
                }
                proof {
                    assert(out@ + format_from(fmt@, next as int, args@, ai as int) =~= before + format_from(
                        fmt@,
                        pos as int,
                        args@,
                        if d is Convert { ai - 1 } else { ai as int },
                    ));
                }
                pos = next;
            },
        }
    }
}

/// The kind of argument that `arg` is, for any conversion it can serve.
fn fits_kind(kind: ArgKind, arg: &FmtArg) -> (r: bool)
    ensures
        r == kind_matches(kind, *arg),
{
    match arg {
        FmtArg::I32(_) => matches!(kind, ArgKind::Int | ArgKind::Char),
        FmtArg::U32(_) => matches!(kind, ArgKind::UInt | ArgKind::Hex | ArgKind::HexUpper | ArgKind::Octal),
        FmtArg::I64(_) => matches!(kind, ArgKind::Long),
        FmtArg::U64(_) => matches!(kind, ArgKind::ULong),
        FmtArg::Ptr(_) => matches!(kind, ArgKind::Pointer),
        FmtArg::Str(_) => matches!(kind, ArgKind::Str),
        FmtArg::Text(_) => matches!(kind, ArgKind::Float),
    }
}

/// Tells whether every conversion of `fmt` has an argument of its type.
pub fn format_args_fit(fmt: &[u8], args: &[FmtArg]) -> (r: bool)
    requires
        fmt@.len() + 3 <= usize::MAX,
    ensures
        r == args_fit_from(fmt@, 0, args@, 0),
{
    let mut pos: usize = 0;
    let mut ai: usize = 0;
    loop
        invariant
            fmt@.len() + 3 <= usize::MAX,
            pos <= fmt@.len() + 1,
            ai <= args@.len(),
            args_fit_from(fmt@, 0, args@, 0) == args_fit_from(fmt@, pos as int, args@, ai as int),
        decreases fmt@.len() + 2 - pos,
    {
        proof {
            lemma_parse_directive_bounds(fmt@, pos as int);
        }
        match next_directive(fmt, pos) {
            None => {
                return true;
            },
            Some((d, next)) => {
                match d {
                    Directive::Convert { kind, precision } => {
                        if ai >= args.len() {
                            return false;
                        }
                        if !fits_kind(kind, &args[ai]) {
                            return false;
                        }
                        ai = ai + 1;
                    },
                    _ => {},
                }
                pos = next;
            },
        }
    }
}

/// The buffer after `vsnprintf` wrote `n` bytes of `out` and a zero after
/// them.
pub open spec fn written_with_terminator(m: Seq<u8>, out: Seq<u8>, n: int) -> Seq<u8> {
    Seq::new(m.len(), |i: int| if i < n { out[i] } else if i == n { 0u8 } else { m[i] })
}

/// How many bytes of a text of length `len` fit in a buffer of `size` bytes
/// that keeps one byte for the terminating zero.
pub open spec fn fitting_len(len: int, size: int) -> int {
    if len < size - 1 { len } else { size - 1 }
}

/// `vsnprintf` into a buffer of `size` bytes: writes as much of the formatted
/// text as fits before a terminating zero and returns how many bytes it
/// wrote; -1 for a buffer of size 0.
pub fn vsnprintf(buf: &mut [u8], size: usize, fmt: &[u8], args: &[FmtArg]) -> (r: i32)
    requires
        size <= old(buf)@.len(),
        fmt@.len() + 3 <= usize::MAX,
        args_fit_from(fmt@, 0, args@, 0),
    ensures
        size == 0 ==> r == -1 && final(buf)@ == old(buf)@,
        size > 0 ==> {
            let n = fitting_len(formatted(fmt@, args@).len() as int, size as int);
            &&& final(buf)@ == written_with_terminator(old(buf)@, formatted(fmt@, args@), n)
            &&& r == n as i32
        },
{
    if size == 0 {
        return -1;
    }
    let max = size - 1;
    let out = write_c_formatted(fmt, args);
    let n = if out.len() < max { out.len() } else { max };
    let mut i: usize = 0;
    while i < n
        invariant
            n <= max,
            max < size,
            size <= buf@.len(),
            n <= out@.len(),
            buf@.len() == old(buf)@.len(),
            0 <= i <= n,
            forall|k: int| 0 <= k < buf@.len() ==> #[trigger] buf@[k] == if k < i { out@[k] } else { old(buf)@[k] },
        decreases n - i,
    {
        buf[i] = out[i];
        i = i + 1;
    }
    buf[n] = 0;
    proof {
        assert(buf@ =~= written_with_terminator(old(buf)@, formatted(fmt@, args@), n as int));
    }
    n as i32
}

/// `snprintf`: the same as `vsnprintf`, with the arguments given directly.
pub fn snprintf(buf: &mut [u8], size: usize, fmt: &[u8], args: &[FmtArg]) -> (r: i32)
    requires
        size <= old(buf)@.len(),
        fmt@.len() + 3 <= usize::MAX,
        args_fit_from(fmt@, 0, args@, 0),
    ensures
        size == 0 ==> r == -1 && final(buf)@ == old(buf)@,
        size > 0 ==> {
            let n = fitting_len(formatted(fmt@, args@).len() as int, size as int);
            &&& final(buf)@ == written_with_terminator(old(buf)@, formatted(fmt@, args@), n)
            &&& r == n as i32
        },
{
    vsnprintf(buf, size, fmt, args)
}

} // verus!
