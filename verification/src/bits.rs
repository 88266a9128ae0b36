//! Byte strings as strings of bits, and the routine that moves a run of bits
//! from one byte string to another.
use vstd::arithmetic::div_mod::{lemma_div_denominator, lemma_hoist_over_denominator};
use vstd::arithmetic::power2::{
    lemma2_to64, lemma_pow2_adds, lemma_pow2_pos, lemma_pow2_unfold, pow2,
};
use vstd::bits::lemma_u64_shr_is_div;
use vstd::prelude::*;

verus! {

/// Bit `k` of the two's complement form of an integer, which has no last bit:
/// past the sign all bits are equal.
pub open spec fn int_bit(v: int, k: int) -> bool {
    (v / (pow2(k as nat) as int)) % 2 == 1
}

/// Bit `k` of a byte, bit 0 being the least significant one.
pub open spec fn byte_bit(b: u8, k: int) -> bool {
    (b >> (k as u8)) & 1u8 == 1u8
}

/// Bit `p` of a byte string: bytes in order, least significant bit first.
pub open spec fn bit(bytes: Seq<u8>, p: int) -> bool {
    byte_bit(bytes[p / 8], p % 8)
}

/// The smaller of two integers.
pub open spec fn min_int(a: int, b: int) -> int {
    if a <= b {
        a
    } else {
        b
    }
}

/// `bits` bits rounded up to whole bytes.
pub open spec fn bytes_for(bits: int) -> int {
    (bits + 7) / 8
}

/// Adding a chunk of `n` source bits into `n` clear bits of a byte writes
/// exactly those bits and disturbs no other.
proof fn lemma_add_chunk(d: u8, b: u8, r: u8, so: u8, dof: u8, n: u8, x: u8)
    requires
        1 <= r <= 8,
        so < r,
        dof < 8,
        n == (if r - so <= 8 - dof { (r - so) as u8 } else { (8 - dof) as u8 }),
        forall|k: int| dof <= k < dof + n ==> !#[trigger] byte_bit(d, k),
        x == ((b & (0xffu8 >> ((8 - r) as u8))) >> so) << dof,
    ensures
        d + x <= 255,
        forall|k: int|
            0 <= k < 8 ==> #[trigger] byte_bit((d + x) as u8, k) == (if dof <= k < dof + n {
                byte_bit(b, so + k - dof)
            } else {
                byte_bit(d, k)
            }),
{
    let z = (8 - r) as u8;
    let c = (8 - n) as u8;
    let m = 0xffu8 >> c;
    assert((d >> dof) & m == 0u8) by {
        lemma_clear_window(d, dof, n);
    }
    assert(d & x == 0u8) by (bit_vector)
        requires
            dof < 8,
            1 <= r <= 8,
            so < r,
            z == 8 - r,
            n == (if r - so <= 8 - dof { r - so } else { 8 - dof }),
            c == 8 - n,
            m == 0xffu8 >> c,
            (d >> dof) & m == 0,
            x == ((b & (0xffu8 >> z)) >> so) << dof,
    ;
    let s = d | x;
    assert(d + x == s) by (bit_vector)
        requires
            d & x == 0u8,
            s == d | x,
    ;
    assert forall|k: int| 0 <= k < 8 implies #[trigger] byte_bit((d + x) as u8, k) == (if dof <= k
        < dof + n {
        byte_bit(b, so + k - dof)
    } else {
        byte_bit(d, k)
    }) by {
        let i = k as u8;
        if dof <= k < dof + n {
            let j = (so + k - dof) as u8;
            assert((s >> i) & 1u8 == (b >> j) & 1u8) by (bit_vector)
                requires
                    1 <= r <= 8,
                    so < r,
                    dof < 8,
                    i < 8,
                    dof <= i,
                    i < dof + n,
                    j == so + i - dof,
                    n == (if r - so <= 8 - dof { r - so } else { 8 - dof }),
                    z == 8 - r,
                    c == 8 - n,
                    m == 0xffu8 >> c,
                    (d >> dof) & m == 0,
                    x == ((b & (0xffu8 >> z)) >> so) << dof,
                    s == d | x,
            ;
        } else {
            assert((s >> i) & 1u8 == (d >> i) & 1u8) by (bit_vector)
                requires
                    1 <= r <= 8,
                    so < r,
                    dof < 8,
                    i < 8,
                    i < dof || i >= dof + n,
                    n == (if r - so <= 8 - dof { r - so } else { 8 - dof }),
                    z == 8 - r,
                    x == ((b & (0xffu8 >> z)) >> so) << dof,
                    s == d | x,
            ;
        }
    }
}

/// A window of clear bits, as a masked shift.
proof fn lemma_clear_window(d: u8, dof: u8, n: u8)
    requires
        dof < 8,
        1 <= n <= 8 - dof,
        forall|k: int| dof <= k < dof + n ==> !#[trigger] byte_bit(d, k),
    ensures
        (d >> dof) & (0xffu8 >> ((8 - n) as u8)) == 0u8,
{
    let c = (8 - n) as u8;
    let m = 0xffu8 >> c;
    let e = dof + n;
    assert(dof <= 0 < e ==> !byte_bit(d, 0));
    assert(dof <= 1 < e ==> !byte_bit(d, 1));
    assert(dof <= 2 < e ==> !byte_bit(d, 2));
    assert(dof <= 3 < e ==> !byte_bit(d, 3));
    assert(dof <= 4 < e ==> !byte_bit(d, 4));
    assert(dof <= 5 < e ==> !byte_bit(d, 5));
    assert(dof <= 6 < e ==> !byte_bit(d, 6));
    assert(dof <= 7 < e ==> !byte_bit(d, 7));
    assert((d >> dof) & m == 0u8) by (bit_vector)
        requires
            dof < 8,
            1 <= n <= 8 - dof,
            c == 8 - n,
            m == 0xffu8 >> c,
            dof <= 0 < dof + n ==> !((d >> 0u8) & 1u8 == 1u8),
            dof <= 1 < dof + n ==> !((d >> 1u8) & 1u8 == 1u8),
            dof <= 2 < dof + n ==> !((d >> 2u8) & 1u8 == 1u8),
            dof <= 3 < dof + n ==> !((d >> 3u8) & 1u8 == 1u8),
            dof <= 4 < dof + n ==> !((d >> 4u8) & 1u8 == 1u8),
            dof <= 5 < dof + n ==> !((d >> 5u8) & 1u8 == 1u8),
            dof <= 6 < dof + n ==> !((d >> 6u8) & 1u8 == 1u8),
            dof <= 7 < dof + n ==> !((d >> 7u8) & 1u8 == 1u8),
    ;
}

/// A source byte under the mask of the bits still to be copied, moved to the
/// current offset.
proof fn lemma_source_window(b: u8, num_bits: u64, written: u64, so: u64, curr_mask: u64)
    requires
        1 <= num_bits <= 64,
        written < num_bits,
        so < 8,
        curr_mask == (u64::MAX >> ((64 - num_bits) as u64)) >> written,
    ensures
        shows(b & ((curr_mask << so) as u8), b, so, num_bits - written),
{
    let r = min_int(8, so + num_bits - written) as u8;
    let c = (64 - num_bits) as u64;
    let z = (8 - r) as u8;
    assert((b & ((curr_mask << so) as u8)) >> so == (b & (0xffu8 >> z)) >> so) by (bit_vector)
        requires
            1 <= num_bits <= 64,
            written < num_bits,
            so < 8,
            r == (if so + num_bits - written < 8 { so + num_bits - written } else { 8 }),
            c == 64 - num_bits,
            z == 8 - r,
            curr_mask == (0xffff_ffff_ffff_ffffu64 >> c) >> written,
    ;
}

/// Shifting twice shifts by the sum.
proof fn lemma_shift_twice(x: u64, a: u64, b: u64)
    requires
        a + b < 64,
    ensures
        (x >> a) >> b == x >> ((a + b) as u64),
{
    lemma_u64_shr_is_div(x, a);
    lemma_u64_shr_is_div(x >> a, b);
    lemma_u64_shr_is_div(x, (a + b) as u64);
    lemma_pow2_pos(a as nat);
    lemma_pow2_pos(b as nat);
    lemma_pow2_adds(a as nat, b as nat);
    lemma_div_denominator(x as int, pow2(a as nat) as int, pow2(b as nat) as int);
}

/// `after` is `before` with the `n` bits from bit `to` on replaced by the bits of
/// `src` from bit `from` on.
pub open spec fn copied(
    src: Seq<u8>,
    from: int,
    before: Seq<u8>,
    after: Seq<u8>,
    to: int,
    n: int,
) -> bool {
    &&& after.len() == before.len()
    &&& forall|p: int|
        0 <= p < 8 * after.len() ==> #[trigger] bit(after, p) == (if to <= p < to + n {
            bit(src, from + p - to)
        } else {
            bit(before, p)
        })
}

/// What a masked source byte shows of the byte itself: shifted by the offset, its
/// first `rest` bits from there on, as far as the byte goes.
spec fn shows(masked: u8, b: u8, so: u64, rest: int) -> bool {
    let r = min_int(8, so + rest) as u8;
    masked >> so == (b & (0xffu8 >> ((8 - r) as u8))) >> so
}

/// Writing one chunk carries a copy on.
proof fn lemma_chunk_copied(
    src: Seq<u8>,
    from: int,
    before: Seq<u8>,
    dst: Seq<u8>,
    to: int,
    written: int,
    n: int,
    si: int,
    so: u64,
    di: int,
    dof: u64,
    masked: u8,
    rest: int,
)
    requires
        copied(src, from, before, dst, to, written),
        0 <= written,
        0 <= si < src.len(),
        so < 8,
        8 * si + so == from + written,
        0 <= di < dst.len(),
        dof < 8,
        8 * di + dof == to + written,
        rest > 0,
        n == min_int(rest, min_int(8 - so, 8 - dof)),
        forall|p: int| to + written <= p < to + written + n ==> !#[trigger] bit(before, p),
        shows(masked, src[si], so, rest),
    ensures
        dst[di] + ((masked >> so) << dof) <= 255,
        copied(
            src,
            from,
            before,
            dst.update(di, (dst[di] + ((masked >> so) << dof)) as u8),
            to,
            written + n,
        ),
{
    let b = src[si];
    let d = dst[di];
    let r = min_int(8, so + rest) as u8;
    let x = (masked >> so) << dof;
    let so8 = so as u8;
    let dof8 = dof as u8;
    assert forall|k: int| dof8 <= k < dof8 + n implies !#[trigger] byte_bit(d, k) by {
        assert(!bit(before, 8 * di + k));
        assert(!bit(dst, 8 * di + k));
    }
    assert(b >> so == b >> so8);
    lemma_add_chunk(d, b, r, so8, dof8, n as u8, x);
    let e = (d + x) as u8;
    let after = dst.update(di, e);
    assert forall|p: int| 0 <= p < 8 * after.len() implies #[trigger] bit(after, p) == (if to <= p
        < to + written + n {
        bit(src, from + p - to)
    } else {
        bit(before, p)
    }) by {
        let k = p % 8;
        assert(bit(dst, p) == (if to <= p < to + written {
            bit(src, from + p - to)
        } else {
            bit(before, p)
        }));
        if p / 8 == di {
            assert(byte_bit(e, k) == (if dof8 <= k < dof8 + n {
                byte_bit(b, so8 + k - dof8)
            } else {
                byte_bit(d, k)
            }));
            if dof8 <= k < dof8 + n {
                let q = from + p - to;
                assert(q / 8 == si && q % 8 == so8 + k - dof8);
            }
        }
    }
}

/// What was shown from an offset on is shown from a later one on.
proof fn lemma_shows_further(masked: u8, b: u8, so: u64, rest: int, n: u64)
    requires
        shows(masked, b, so, rest),
        so + n < 8,
        n <= rest,
    ensures
        shows(masked, b, (so + n) as u64, rest - n),
{
    let r = min_int(8, so + rest) as u8;
    let y = b & (0xffu8 >> ((8 - r) as u8));
    let s1 = (so + n) as u64;
    assert(masked >> s1 == y >> s1) by (bit_vector)
        requires
            masked >> so == y >> so,
            so <= s1,
            s1 < 8,
    ;
}

/// Copies `num_bits` bits, or as many as `src` still holds, from bit
/// `8 * src_idx + src_offset` of `src` to bit `8 * dst_idx + dst_offset` of
/// `dst`, and advances both positions past the copied bits.
///
/// The bits are added into `dst`, so the ones that they replace have to be clear.
pub fn copy_bits(
    src: &[u8],
    src_idx: &mut usize,
    src_offset: &mut u64,
    num_bits: u64,
    dst: &mut [u8],
    dst_idx: &mut usize,
    dst_offset: &mut u64,
)
    requires
        1 <= num_bits <= 64,
        *old(src_idx) < src@.len(),
        *old(src_offset) < 8,
        *old(dst_offset) < 8,
        ({
            let from = 8 * *old(src_idx) + *old(src_offset);
            let to = 8 * *old(dst_idx) + *old(dst_offset);
            let n = min_int(num_bits as int, 8 * src@.len() - from);
            &&& to + n <= 8 * old(dst)@.len()
            &&& forall|p: int| to <= p < to + n ==> !#[trigger] bit(old(dst)@, p)
        }),
    ensures
        ({
            let from = 8 * *old(src_idx) + *old(src_offset);
            let to = 8 * *old(dst_idx) + *old(dst_offset);
            let n = min_int(num_bits as int, 8 * src@.len() - from);
            &&& copied(src@, from, old(dst)@, final(dst)@, to, n)
            &&& *final(src_offset) < 8
            &&& 8 * *final(src_idx) + *final(src_offset) == from + n
            &&& *final(dst_offset) < 8
            &&& 8 * *final(dst_idx) + *final(dst_offset) == to + n
        }),
{
    let ghost from: int = 8 * *src_idx + *src_offset;
    let ghost to: int = 8 * *dst_idx + *dst_offset;
    let ghost n: int = min_int(num_bits as int, 8 * src@.len() - from);
    let mut curr_mask: u64 = u64::MAX >> (64 - num_bits);
    let mut curr_src: u8 = src[*src_idx] & (curr_mask << *src_offset) as u8;
    let mut written: u64 = 0;
    proof {
        let c = (64 - num_bits) as u64;
        assert((u64::MAX >> c) >> 0u64 == u64::MAX >> c) by (bit_vector);
        lemma_source_window(src@[*src_idx as int], num_bits, 0, *src_offset, curr_mask);
    }
    while written < num_bits && *src_idx < src.len()
        invariant
            1 <= num_bits <= 64,
            written <= num_bits,
            from == 8 * *old(src_idx) + *old(src_offset),
            to == 8 * *old(dst_idx) + *old(dst_offset),
            n == min_int(num_bits as int, 8 * src@.len() - from),
            8 * *src_idx + *src_offset == from + written,
            *src_offset < 8,
            *src_idx <= src@.len(),
            *src_idx == src@.len() ==> *src_offset == 0,
            8 * *dst_idx + *dst_offset == to + written,
            *dst_offset < 8,
            to + n <= 8 * old(dst)@.len(),
            forall|p: int| to <= p < to + n ==> !#[trigger] bit(old(dst)@, p),
            copied(src@, from, old(dst)@, dst@, to, written as int),
            written < num_bits ==> curr_mask == (u64::MAX >> ((64 - num_bits) as u64)) >> written,
            written < num_bits && *src_idx < src@.len() ==> shows(
                curr_src,
                src@[*src_idx as int],
                *src_offset,
                num_bits - written,
            ),
        decreases num_bits - written,
    {
        let mut bits_written: u64 = num_bits - written;
        if 8 - *src_offset < bits_written {
            bits_written = 8 - *src_offset;
        }
        if 8 - *dst_offset < bits_written {
            bits_written = 8 - *dst_offset;
        }
        proof {
            lemma_chunk_copied(
                src@,
                from,
                old(dst)@,
                dst@,
                to,
                written as int,
                bits_written as int,
                *src_idx as int,
                *src_offset,
                *dst_idx as int,
                *dst_offset,
                curr_src,
                num_bits - written,
            );
            if written + bits_written < num_bits {
                lemma_shift_twice(
                    u64::MAX >> ((64 - num_bits) as u64),
                    written,
                    bits_written,
                );
            }
            if *src_offset + bits_written < 8 {
                lemma_shows_further(
                    curr_src,
                    src@[*src_idx as int],
                    *src_offset,
                    num_bits - written,
                    bits_written,
                );
            }
        }
        dst[*dst_idx] = dst[*dst_idx] + ((curr_src >> *src_offset) << *dst_offset);
        written = written + bits_written;
        *dst_offset = *dst_offset + bits_written;
        *src_offset = *src_offset + bits_written;
        curr_mask = curr_mask >> bits_written;
        if *dst_offset == 8 {
            *dst_idx = *dst_idx + 1;
            *dst_offset = 0;
        }
        if *src_offset == 8 {
            *src_idx = *src_idx + 1;
            *src_offset = 0;
            if *src_idx < src.len() {
                curr_src = src[*src_idx] & curr_mask as u8;
                proof {
                    if written < num_bits {
                        lemma_source_window(
                            src@[*src_idx as int],
                            num_bits,
                            written,
                            0,
                            curr_mask,
                        );
                        assert(curr_mask << 0u64 == curr_mask) by (bit_vector);
                    }
                }
            }
        }
    }
}

/// The 64 bit two's complement pattern of an integer.
pub open spec fn pattern(v: int) -> int {
    if v >= 0 {
        v
    } else {
        v + 0x1_0000_0000_0000_0000
    }
}

/// The bits of the pattern are those of the integer.
pub proof fn lemma_pattern_bit(v: int, x: u64, k: int)
    requires
        0 <= k < 64,
        x == pattern(v),
    ensures
        ((x >> (k as u64)) & 1u64 == 1u64) == int_bit(v, k),
{
    let d = pow2(k as nat) as int;
    lemma_pow2_pos(k as nat);
    lemma_u64_shr_is_div(x, k as u64);
    let y = x >> (k as u64);
    assert(y & 1u64 == y % 2u64) by (bit_vector);
    assert(int_bit(x as int, k) == (y & 1u64 == 1u64));
    if v < 0 {
        let e = pow2((64 - k) as nat) as int;
        let h = pow2((63 - k) as nat) as int;
        lemma_pow2_adds(k as nat, (64 - k) as nat);
        lemma_pow2_unfold((64 - k) as nat);
        lemma2_to64();
        assert(v + d * e == x);
        assert(x as int / d == v / d + e) by {
            lemma_hoist_over_denominator(v, e, d as nat);
            assert(e * d == d * e) by (nonlinear_arith);
        }
        assert(e == 2 * h);
        assert((v / d + 2 * h) % 2 == (v / d) % 2);
    }
}

/// The bits of zero bytes are clear.
pub proof fn lemma_zero_bits(bytes: Seq<u8>)
    requires
        forall|i: int| 0 <= i < bytes.len() ==> #[trigger] bytes[i] == 0,
    ensures
        forall|p: int| 0 <= p < 8 * bytes.len() ==> !#[trigger] bit(bytes, p),
{
    assert forall|p: int| 0 <= p < 8 * bytes.len() implies !#[trigger] bit(bytes, p) by {
        let k = (p % 8) as u8;
        assert((0u8 >> k) & 1u8 == 0u8) by (bit_vector);
        assert(bytes[p / 8] == 0);
    }
}

/// Byte strings of the same length with the same bits are the same.
pub proof fn lemma_same_bits(a: Seq<u8>, b: Seq<u8>)
    requires
        a.len() == b.len(),
        forall|p: int| 0 <= p < 8 * a.len() ==> #[trigger] bit(a, p) == bit(b, p),
    ensures
        a == b,
{
    assert forall|i: int| 0 <= i < a.len() implies a[i] == b[i] by {
        let x = a[i];
        let y = b[i];
        assert(bit(a, 8 * i) == bit(b, 8 * i));
        assert(bit(a, 8 * i + 1) == bit(b, 8 * i + 1));
        assert(bit(a, 8 * i + 2) == bit(b, 8 * i + 2));
        assert(bit(a, 8 * i + 3) == bit(b, 8 * i + 3));
        assert(bit(a, 8 * i + 4) == bit(b, 8 * i + 4));
        assert(bit(a, 8 * i + 5) == bit(b, 8 * i + 5));
        assert(bit(a, 8 * i + 6) == bit(b, 8 * i + 6));
        assert(bit(a, 8 * i + 7) == bit(b, 8 * i + 7));
        assert(x == y) by (bit_vector)
            requires
                ((x >> 0u8) & 1u8 == 1u8) == ((y >> 0u8) & 1u8 == 1u8),
                ((x >> 1u8) & 1u8 == 1u8) == ((y >> 1u8) & 1u8 == 1u8),
                ((x >> 2u8) & 1u8 == 1u8) == ((y >> 2u8) & 1u8 == 1u8),
                ((x >> 3u8) & 1u8 == 1u8) == ((y >> 3u8) & 1u8 == 1u8),
                ((x >> 4u8) & 1u8 == 1u8) == ((y >> 4u8) & 1u8 == 1u8),
                ((x >> 5u8) & 1u8 == 1u8) == ((y >> 5u8) & 1u8 == 1u8),
                ((x >> 6u8) & 1u8 == 1u8) == ((y >> 6u8) & 1u8 == 1u8),
                ((x >> 7u8) & 1u8 == 1u8) == ((y >> 7u8) & 1u8 == 1u8),
        ;
    }
    assert(a =~= b);
}

} // verus!
