//! Fixed-width integer reads and writes in either byte order, and the
//! zero-padding that keeps wire values aligned.

use vstd::prelude::*;
use vstd::bytes::{
    spec_u16_to_le_bytes, spec_u16_from_le_bytes, spec_u32_to_le_bytes, spec_u32_from_le_bytes,
    spec_u64_to_le_bytes, spec_u64_from_le_bytes, lemma_auto_spec_u16_to_from_le_bytes,
    lemma_auto_spec_u32_to_from_le_bytes, lemma_auto_spec_u64_to_from_le_bytes, u16_to_le_bytes,
    u32_to_le_bytes, u64_to_le_bytes, u16_from_le_bytes, u32_from_le_bytes, u64_from_le_bytes,
};
use crate::ByteOrder;
use crate::errors::UnmarshalError;

verus! {

/// `n` zero bytes.
pub open spec fn zeros(n: int) -> Seq<u8> {
    Seq::new(n as nat, |i: int| 0u8)
}

/// How many bytes of padding take offset `off` up to a multiple of `a`.
pub open spec fn pad_len(a: int, off: int) -> int {
    if off % a == 0 {
        0
    } else {
        a - off % a
    }
}

/// Padding is less than the alignment and lands on a multiple of it.
pub proof fn lemma_pad_len(a: int, off: int)
    requires
        a > 0,
        off >= 0,
    ensures
        0 <= pad_len(a, off) < a,
        (off + pad_len(a, off)) % a == 0,
{
    let r = off % a;
    assert((off + (a - r)) % a == 0) by {
        assert(off == a * (off / a) + r) by {
            vstd::arithmetic::div_mod::lemma_fundamental_div_mod(off, a);
        }
        assert(a * (off / a + 1) == a * (off / a) + a) by (nonlinear_arith);
        assert(off + (a - r) == a * (off / a + 1));
        vstd::arithmetic::div_mod::lemma_mod_multiples_basic(off / a + 1, a);
    }
}

/// The wire bytes of a `u16` in byte order `bo`.
pub open spec fn spec_u16_bytes(bo: ByteOrder, v: u16) -> Seq<u8> {
    match bo {
        ByteOrder::LittleEndian => spec_u16_to_le_bytes(v),
        ByteOrder::BigEndian => spec_u16_to_le_bytes(v).reverse(),
    }
}

/// The wire bytes of a `u32` in byte order `bo`.
pub open spec fn spec_u32_bytes(bo: ByteOrder, v: u32) -> Seq<u8> {
    match bo {
        ByteOrder::LittleEndian => spec_u32_to_le_bytes(v),
        ByteOrder::BigEndian => spec_u32_to_le_bytes(v).reverse(),
    }
}

/// The wire bytes of a `u64` in byte order `bo`.
pub open spec fn spec_u64_bytes(bo: ByteOrder, v: u64) -> Seq<u8> {
    match bo {
        ByteOrder::LittleEndian => spec_u64_to_le_bytes(v),
        ByteOrder::BigEndian => spec_u64_to_le_bytes(v).reverse(),
    }
}

/// The `u16` two wire bytes in byte order `bo` stand for.
pub open spec fn spec_u16_from_bytes(bo: ByteOrder, s: Seq<u8>) -> u16 {
    match bo {
        ByteOrder::LittleEndian => spec_u16_from_le_bytes(s),
        ByteOrder::BigEndian => spec_u16_from_le_bytes(s.reverse()),
    }
}

/// The `u32` four wire bytes in byte order `bo` stand for.
pub open spec fn spec_u32_from_bytes(bo: ByteOrder, s: Seq<u8>) -> u32 {
    match bo {
        ByteOrder::LittleEndian => spec_u32_from_le_bytes(s),
        ByteOrder::BigEndian => spec_u32_from_le_bytes(s.reverse()),
    }
}

/// The `u64` eight wire bytes in byte order `bo` stand for.
pub open spec fn spec_u64_from_bytes(bo: ByteOrder, s: Seq<u8>) -> u64 {
    match bo {
        ByteOrder::LittleEndian => spec_u64_from_le_bytes(s),
        ByteOrder::BigEndian => spec_u64_from_le_bytes(s.reverse()),
    }
}

/// Reversing twice gives the sequence back.
pub proof fn lemma_reverse_reverse(s: Seq<u8>)
    ensures
        s.reverse().reverse() == s,
{
    assert(s.reverse().reverse() =~= s);
}

/// Writing then reading an integer gives the value back, in either byte
/// order, and the wire widths are fixed.
pub proof fn lemma_int_bytes_roundtrip(bo: ByteOrder)
    ensures
        forall|v: u16| (#[trigger] spec_u16_bytes(bo, v)).len() == 2,
        forall|v: u32| (#[trigger] spec_u32_bytes(bo, v)).len() == 4,
        forall|v: u64| (#[trigger] spec_u64_bytes(bo, v)).len() == 8,
        forall|v: u16| spec_u16_from_bytes(bo, #[trigger] spec_u16_bytes(bo, v)) == v,
        forall|v: u32| spec_u32_from_bytes(bo, #[trigger] spec_u32_bytes(bo, v)) == v,
        forall|v: u64| spec_u64_from_bytes(bo, #[trigger] spec_u64_bytes(bo, v)) == v,
{
    lemma_auto_spec_u16_to_from_le_bytes();
    lemma_auto_spec_u32_to_from_le_bytes();
    lemma_auto_spec_u64_to_from_le_bytes();
    assert forall|v: u16| spec_u16_from_bytes(bo, #[trigger] spec_u16_bytes(bo, v)) == v by {
        lemma_reverse_reverse(spec_u16_to_le_bytes(v));
    }
    assert forall|v: u32| spec_u32_from_bytes(bo, #[trigger] spec_u32_bytes(bo, v)) == v by {
        lemma_reverse_reverse(spec_u32_to_le_bytes(v));
    }
    assert forall|v: u64| spec_u64_from_bytes(bo, #[trigger] spec_u64_bytes(bo, v)) == v by {
        lemma_reverse_reverse(spec_u64_to_le_bytes(v));
    }
}

/// Append zero bytes to `buf` until its length is a multiple of
/// `align_to`.
pub fn pad_to_align(align_to: usize, buf: &mut Vec<u8>)
    requires
        align_to > 0,
    ensures
        final(buf)@ == old(buf)@ + zeros(pad_len(align_to as int, old(buf)@.len() as int)),
        (final(buf)@.len() as int) % (align_to as int) == 0,
{
    proof {
        lemma_pad_len(align_to as int, old(buf)@.len() as int);
    }
    let rem = buf.len() % align_to;
    let needed: usize = if rem == 0 {
        0
    } else {
        align_to - rem
    };
    let mut k: usize = 0;
    while k < needed
        invariant
            k <= needed,
            needed == pad_len(align_to as int, old(buf)@.len() as int),
            buf@ == old(buf)@ + zeros(k as int),
        decreases needed - k,
    {
        buf.push(0);
        k = k + 1;
        proof {
            assert(buf@ =~= old(buf)@ + zeros(k as int));
        }
    }
    proof {
        assert(final(buf)@ =~= old(buf)@ + zeros(
            pad_len(align_to as int, old(buf)@.len() as int),
        ));
    }
}

/// Append the bytes of `le` to `buf`, reversed when `bo` is big-endian.
fn append_ordered(bo: ByteOrder, le: &Vec<u8>, buf: &mut Vec<u8>)
    ensures
        final(buf)@ == old(buf)@ + match bo {
            ByteOrder::LittleEndian => le@,
            ByteOrder::BigEndian => le@.reverse(),
        },
{
    let n = le.len();
    match bo {
        ByteOrder::LittleEndian => {
            let mut i: usize = 0;
            while i < n
                invariant
                    i <= n,
                    n == le@.len(),
                    buf@ == old(buf)@ + le@.subrange(0, i as int),
                decreases n - i,
            {
                buf.push(le[i]);
                i = i + 1;
                proof {
                    assert(buf@ =~= old(buf)@ + le@.subrange(0, i as int));
                }
            }
            proof {
                assert(final(buf)@ =~= old(buf)@ + le@);
            }
        },
        ByteOrder::BigEndian => {
            let mut i: usize = 0;
            while i < n
                invariant
                    i <= n,
                    n == le@.len(),
                    buf@ == old(buf)@ + le@.reverse().subrange(0, i as int),
                decreases n - i,
            {
                buf.push(le[n - 1 - i]);
                i = i + 1;
                proof {
                    assert(buf@ =~= old(buf)@ + le@.reverse().subrange(0, i as int));
                }
            }
            proof {
                assert(le@.reverse().subrange(0, n as int) =~= le@.reverse());
            }
        },
    }
}

/// Append the wire bytes of `val` in byte order `byteorder`.
pub fn write_u16(val: u16, byteorder: ByteOrder, buf: &mut Vec<u8>)
    ensures
        final(buf)@ == old(buf)@ + spec_u16_bytes(byteorder, val),
{
    let le = u16_to_le_bytes(val);
    append_ordered(byteorder, &le, buf);
}

/// Append the wire bytes of `val` in byte order `byteorder`.
pub fn write_u32(val: u32, byteorder: ByteOrder, buf: &mut Vec<u8>)
    ensures
        final(buf)@ == old(buf)@ + spec_u32_bytes(byteorder, val),
{
    let le = u32_to_le_bytes(val);
    append_ordered(byteorder, &le, buf);
}

/// Append the wire bytes of `val` in byte order `byteorder`.
pub fn write_u64(val: u64, byteorder: ByteOrder, buf: &mut Vec<u8>)
    ensures
        final(buf)@ == old(buf)@ + spec_u64_bytes(byteorder, val),
{
    let le = u64_to_le_bytes(val);
    append_ordered(byteorder, &le, buf);
}

/// The first `n` bytes of `src`, reversed when `bo` is big-endian.
fn take_ordered(bo: ByteOrder, src: &[u8], n: usize) -> (r: Vec<u8>)
    requires
        n <= src@.len(),
    ensures
        r@ == match bo {
            ByteOrder::LittleEndian => src@.subrange(0, n as int),
            ByteOrder::BigEndian => src@.subrange(0, n as int).reverse(),
        },
{
    let mut out: Vec<u8> = Vec::new();
    match bo {
        ByteOrder::LittleEndian => {
            let mut i: usize = 0;
            while i < n
                invariant
                    i <= n,
                    n <= src@.len(),
                    out@ == src@.subrange(0, i as int),
                decreases n - i,
            {
                out.push(src[i]);
                i = i + 1;
                proof {
                    assert(out@ =~= src@.subrange(0, i as int));
                }
            }
        },
        ByteOrder::BigEndian => {
            let mut i: usize = 0;
            while i < n
                invariant
                    i <= n,
                    n <= src@.len(),
                    out@ == src@.subrange(0, n as int).reverse().subrange(0, i as int),
                decreases n - i,
            {
                out.push(src[n - 1 - i]);
                i = i + 1;
                proof {
                    assert(out@ =~= src@.subrange(0, n as int).reverse().subrange(0, i as int));
                }
            }
            proof {
                assert(src@.subrange(0, n as int).reverse().subrange(0, n as int) =~= src@
                    .subrange(0, n as int).reverse());
            }
        },
    }
    out
}

/// Read a `u16` from the front of `src` in byte order `byteorder`; on
/// success also return how many bytes it took.
pub fn parse_u16(src: &[u8], byteorder: ByteOrder) -> (r: Result<(usize, u16), UnmarshalError>)
    ensures
        match r {
            Ok((n, v)) => n == 2 && src@.len() >= 2 && v == spec_u16_from_bytes(
                byteorder,
                src@.subrange(0, 2),
            ),
            Err(e) => e == UnmarshalError::NotEnoughBytes && src@.len() < 2,
        },
{
    if src.len() < 2 {
        return Err(UnmarshalError::NotEnoughBytes);
    }
    let bytes = take_ordered(byteorder, src, 2);
    let v = u16_from_le_bytes(bytes.as_slice());
    Ok((2, v))
}

/// Read a `u32` from the front of `src` in byte order `byteorder`; on
/// success also return how many bytes it took.
pub fn parse_u32(src: &[u8], byteorder: ByteOrder) -> (r: Result<(usize, u32), UnmarshalError>)
    ensures
        match r {
            Ok((n, v)) => n == 4 && src@.len() >= 4 && v == spec_u32_from_bytes(
                byteorder,
                src@.subrange(0, 4),
            ),
            Err(e) => e == UnmarshalError::NotEnoughBytes && src@.len() < 4,
        },
{
    if src.len() < 4 {
        return Err(UnmarshalError::NotEnoughBytes);
    }
    let bytes = take_ordered(byteorder, src, 4);
    let v = u32_from_le_bytes(bytes.as_slice());
    Ok((4, v))
}

/// Read a `u64` from the front of `src` in byte order `byteorder`; on
/// success also return how many bytes it took.
pub fn parse_u64(src: &[u8], byteorder: ByteOrder) -> (r: Result<(usize, u64), UnmarshalError>)
    ensures
        match r {
            Ok((n, v)) => n == 8 && src@.len() >= 8 && v == spec_u64_from_bytes(
                byteorder,
                src@.subrange(0, 8),
            ),
            Err(e) => e == UnmarshalError::NotEnoughBytes && src@.len() < 8,
        },
{
    if src.len() < 8 {
        return Err(UnmarshalError::NotEnoughBytes);
    }
    let bytes = take_ordered(byteorder, src, 8);
    let v = u64_from_le_bytes(bytes.as_slice());
    Ok((8, v))
}

/// How skipping padding at `off` in `src` must end: with the padding
/// length when every skipped byte is zero and the buffer is long enough.
pub open spec fn spec_align_offset(a: int, src: Seq<u8>, off: int) -> Result<int, UnmarshalError> {
    let p = pad_len(a, off);
    if off + p > src.len() {
        Err(UnmarshalError::NotEnoughBytes)
    } else if exists|i: int| off <= i < off + p && src[i] != 0 {
        Err(UnmarshalError::PaddingContainedNonZero)
    } else {
        Ok(p)
    }
}

/// How many bytes to skip at `off` so the offset is a multiple of
/// `align_to`; the skipped bytes must all be zero.
pub fn align_offset(align_to: usize, src: &[u8], off: usize) -> (r: Result<usize, UnmarshalError>)
    requires
        align_to > 0,
        off <= src@.len(),
    ensures
        match r {
            Ok(p) => spec_align_offset(align_to as int, src@, off as int) == Ok::<
                _,
                UnmarshalError,
            >(p as int) && off + p <= src@.len() && (off + p) % (align_to as int) == 0,
            Err(e) => spec_align_offset(align_to as int, src@, off as int) == Err::<int, _>(e),
        },
{
    proof {
        lemma_pad_len(align_to as int, off as int);
    }
    let n = src.len();
    let rem = off % align_to;
    let needed: usize = if rem == 0 {
        0
    } else {
        align_to - rem
    };
    if n - off < needed {
        return Err(UnmarshalError::NotEnoughBytes);
    }
    let mut k: usize = 0;
    while k < needed
        invariant
            k <= needed,
            n == src@.len(),
            off + needed <= n,
            needed == pad_len(align_to as int, off as int),
            forall|i: int| off <= i < off + k ==> src@[i] == 0,
        decreases needed - k,
    {
        if src[off + k] != 0 {
            return Err(UnmarshalError::PaddingContainedNonZero);
        }
        k = k + 1;
    }
    Ok(needed)
}

} // verus!
