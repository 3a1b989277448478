use vstd::prelude::*;
use vstd::arithmetic::power2::{pow2, lemma2_to64};
use vstd::arithmetic::div_mod::lemma_fundamental_div_mod;
use vstd::bits::{lemma_usize_shl_is_mul, lemma_usize_shr_is_div, lemma_usize_pow2_no_overflow};
use vstd::utf8::{valid_utf8, partial_valid_utf8, partial_valid_utf8_extend_ascii_block, is_leading_byte_width_1};
use crate::format::{num_text, raw_digits, digit_char};
use vstd::string::StringSliceAdditionalSpecFns;

verus! {

/// `align` is a power of two that fits in a `usize`.
pub open spec fn is_pow2(align: usize) -> bool {
    exists|k: usize| k < usize::BITS && align == pow2(k as nat)
}

/// The largest multiple of `align` that is at most `addr`.
pub open spec fn spec_align_down(addr: usize, align: usize) -> int {
    addr - addr % align
}

/// The smallest multiple of `align` that is at least `addr`.
pub open spec fn spec_align_up(addr: usize, align: usize) -> int {
    if addr % align == 0 { addr as int } else { addr - addr % align + align }
}

/// For a power of two, masking with `align - 1` is the remainder and masking
/// with its complement rounds down.
pub proof fn lemma_mask_is_mod(x: usize, align: usize)
    requires
        is_pow2(align),
    ensures
        align > 0,
        x & ((align - 1) as usize) == x % align,
        x & !((align - 1) as usize) == x - x % align,
        x | ((align - 1) as usize) == x - x % align + (align - 1),
{
    let k = choose|k: usize| k < usize::BITS && align == pow2(k as nat);
    lemma_usize_pow2_no_overflow(k as nat);
    lemma_usize_shl_is_mul(1, k);
    assert(align == 1usize << k);
    let q = x >> k;
    lemma_usize_shr_is_div(x, k);
    assert(q == x / align);
    lemma_fundamental_div_mod(x as int, align as int);
    assert(q * align <= x) by (nonlinear_arith)
        requires q == x / align, x == align * (x / align) + x % align, x % align >= 0, align > 0;
    lemma_usize_shl_is_mul(q, k);
    assert(q << k == q * align);
    let m = (align - 1) as usize;
    assert(x & !m == (x >> k) << k) by (bit_vector)
        requires k < usize::BITS, align == 1usize << k, m == align - 1;
    assert(x & m == x - ((x >> k) << k)) by (bit_vector)
        requires k < usize::BITS, align == 1usize << k, m == align - 1;
    assert(x | m == ((x >> k) << k) + m) by (bit_vector)
        requires k < usize::BITS, align == 1usize << k, m == align - 1;
}

/// Sixteen, the alignment of heap blocks, is a power of two.
pub proof fn lemma_pow2_16()
    ensures
        is_pow2(16),
{
    lemma2_to64();
    assert(4usize < usize::BITS && 16 == pow2(4usize as nat));
}

/// Rounding up gives the smallest multiple of `align` at or above `addr`, and
/// rounding down the largest at or below it; an address that is already
/// aligned stays where it is either way.
pub proof fn lemma_align_bounds(addr: usize, align: usize)
    requires
        is_pow2(align),
    ensures
        spec_align_down(addr, align) <= addr < spec_align_down(addr, align) + align,
        spec_align_down(addr, align) % (align as int) == 0,
        addr <= spec_align_up(addr, align) < addr + align,
        spec_align_up(addr, align) % (align as int) == 0,
        addr % align == 0 ==> spec_align_up(addr, align) == addr && spec_align_down(addr, align) == addr,
{
    lemma_mask_is_mod(addr, align);
    vstd::arithmetic::div_mod::lemma_fundamental_div_mod(addr as int, align as int);
    vstd::arithmetic::div_mod::lemma_mod_multiples_basic(addr as int / align as int, align as int);
    vstd::arithmetic::div_mod::lemma_mod_multiples_basic(addr as int / align as int + 1, align as int);
    assert((addr as int / align as int) * align == addr - addr % align) by (nonlinear_arith)
        requires addr == align * (addr as int / align as int) + addr % align;
    assert((addr as int / align as int + 1) * align == addr - addr % align + align) by (nonlinear_arith)
        requires addr == align * (addr as int / align as int) + addr % align;
}

/// Rounds `addr` down to a multiple of `align`.
pub fn align_down(addr: usize, align: usize) -> (r: usize)
    requires
        is_pow2(align),
    ensures
        r == spec_align_down(addr, align),
{
    proof { lemma_mask_is_mod(addr, align); }
    addr & !(align - 1)
}

/// Rounds `addr` up to a multiple of `align`; the result must fit in a `usize`.
pub fn align_up(addr: usize, align: usize) -> (r: usize)
    requires
        is_pow2(align),
        spec_align_up(addr, align) <= usize::MAX,
    ensures
        r == spec_align_up(addr, align),
{
    proof { lemma_mask_is_mod(addr, align); }
    let align_mask = align - 1;
    if addr & align_mask == 0 {
        addr
    } else {
        (addr | align_mask) + 1
    }
}

/// Reads bytes as UTF-8 text with `std::str::from_utf8`, which accepts
/// exactly the valid UTF-8 sequences and hands back text made of the same
/// bytes.
#[verifier::external_body]
pub fn utf8_str(bytes: &[u8]) -> (r: Option<&str>)
    ensures
        r.is_some() <==> valid_utf8(bytes@),
        r matches Some(text) ==> text.spec_bytes() == bytes@,
{
    std::str::from_utf8(bytes).ok()
}

/// Bytes below 128 are valid UTF-8 on their own.
pub proof fn lemma_ascii_valid_utf8(bytes: Seq<u8>)
    requires
        forall|i: int| 0 <= i < bytes.len() ==> #[trigger] bytes[i] < 128,
    ensures
        valid_utf8(bytes),
{
    assert(bytes.subrange(0, 0) =~= Seq::<u8>::empty());
    assert(partial_valid_utf8(bytes, 0));
    assert forall|i: int| 0 <= 0 <= i < bytes.len() <= bytes.len() implies #[trigger] is_leading_byte_width_1(bytes[i]) by {}
    partial_valid_utf8_extend_ascii_block(bytes, 0, bytes.len() as int);
    assert(bytes.subrange(0, bytes.len() as int) =~= bytes);
}

/// Ten to the power `k`.
pub open spec fn pow10(k: nat) -> nat
    decreases k,
{
    if k == 0 { 1 } else { 10 * pow10((k - 1) as nat) }
}

/// The decimal digits of an unsigned 64-bit number, kept right-aligned in a
/// buffer of twenty bytes.
pub struct U64Buf {
    buf: [u8; 20],
    start: usize,
}

impl U64Buf {
    /// The digits sit at the end of the buffer and are decimal digits.
    #[verifier::type_invariant]
    spec fn inv(&self) -> bool {
        &&& self.start <= 20
        &&& forall|i: int| self.start <= i < 20 ==> 48 <= #[trigger] self.buf@[i] <= 57
    }

    /// The digits that the buffer holds.
    pub closed spec fn digits(&self) -> Seq<u8> {
        self.buf@.subrange(self.start as int, 20)
    }

    /// The decimal digits of `n` (`0` for zero).
    pub fn new(n: u64) -> (r: U64Buf)
        ensures
            r.digits() == num_text(n as nat, 10, false),
    {
        let mut buf = [0u8; 20];
        let mut pos: usize = 20;
        let mut val = n;
        if val == 0 {
            buf[19] = 48;
            let r = U64Buf { buf, start: 19 };
            proof {
                assert(r.digits() =~= num_text(n as nat, 10, false));
            }
            return r;
        }
        proof {
            reveal_with_fuel(pow10, 21);
            assert(pow10(20) == 100000000000000000000nat);
        }
        while val > 0
            invariant
                0 <= pos <= 20,
                n > 0,
                val < pow10(pos as nat),
                raw_digits(n as nat, 10, false) == raw_digits(val as nat, 10, false) + buf@.subrange(pos as int, 20),
                forall|i: int| pos <= i < 20 ==> 48 <= #[trigger] buf@[i] <= 57,
            decreases val,
        {
            if pos == 0 {
                assert(pow10(0) == 1);
                assert(false);
            }
            let ghost before = buf@.subrange(pos as int, 20);
            pos = pos - 1;
            let c: u8 = 48 + (val % 10) as u8;
            buf[pos] = c;
            proof {
                assert(c == digit_char((val % 10) as int, false));
                let rq = raw_digits((val / 10) as nat, 10, false);
                assert(raw_digits(val as nat, 10, false) == rq.push(c));
                assert(buf@.subrange(pos as int, 20) =~= seq![c] + before);
                assert(rq.push(c) + before =~= rq + buf@.subrange(pos as int, 20));
                assert(pow10((pos + 1) as nat) == 10 * pow10(pos as nat));
            }
            val = val / 10;
        }
        let r = U64Buf { buf, start: pos };
        proof {
            assert(raw_digits(0, 10, false) =~= Seq::<u8>::empty());
            assert(r.digits() =~= num_text(n as nat, 10, false));
        }
        r
    }

    /// The digits as text.
    pub fn as_str(&self) -> (r: &str)
        ensures
            r.spec_bytes() == self.digits(),
    {
        proof {
            use_type_invariant(self);
        }
        let bytes = &self.buf[self.start..20];
        proof {
            assert(bytes@ =~= self.digits());
            lemma_ascii_valid_utf8(bytes@);
        }
        match utf8_str(bytes) {
            Some(text) => text,
            None => "",
        }
    }
}

} // verus!
