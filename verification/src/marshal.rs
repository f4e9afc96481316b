//! Encoding values into a byte buffer: padding, length prefixes, and the
//! framing of every base and container kind.

use vstd::prelude::*;
use vstd::string::StringSliceAdditionalSpecFns;
use vstd::utf8::encode_utf8;
use crate::ByteOrder;
use crate::errors::MarshalError;
use crate::params;
use crate::params::{Base, BaseV, Param, ParamV, Container, ContainerV, params_view};
use crate::signature;
use crate::signature::TypeV;
use crate::wire_util::{
    pad_len, zeros, spec_u16_bytes, spec_u32_bytes, spec_u64_bytes, pad_to_align, write_u16,
    write_u32, write_u64,
};

verus! {

/// Everything one encoding pass writes into: the byte buffer, the file
/// descriptor side table, and the byte order.
#[derive(Debug)]
pub struct MarshalContext {
    pub buf: Vec<u8>,
    pub fds: Vec<u32>,
    pub byteorder: ByteOrder,
}

/// The wire framing of a string payload: length, bytes, NUL.
pub open spec fn string_wire_bytes(bo: ByteOrder, payload: Seq<u8>) -> Seq<u8> {
    spec_u32_bytes(bo, payload.len() as u32) + payload + seq![0u8]
}

/// The wire framing of a signature payload: one-byte length, bytes, NUL.
pub open spec fn signature_wire_bytes(payload: Seq<u8>) -> Seq<u8> {
    seq![payload.len() as u8] + payload + seq![0u8]
}

/// Arrays may not encode more payload bytes than this.
pub open spec fn max_array_len() -> int {
    0x4000000
}

/// What marshalling base value `b` at buffer offset `off` appends, and the
/// fd table afterwards. The bytes include the value's alignment padding.
pub open spec fn spec_marshal_base(b: BaseV, bo: ByteOrder, off: int, fds: Seq<u32>) -> Result<
    (Seq<u8>, Seq<u32>),
    MarshalError,
> {
    let pad = zeros(pad_len(signature::base_alignment(params::base_sig(b)) as int, off));
    match b {
        BaseV::Byte(v) => Ok((pad + seq![v], fds)),
        BaseV::Boolean(v) => Ok(
            (
                pad + spec_u32_bytes(
                    bo,
                    if v {
                        1
                    } else {
                        0
                    },
                ),
                fds,
            ),
        ),
        BaseV::Int16(v) => Ok((pad + spec_u16_bytes(bo, v as u16), fds)),
        BaseV::Uint16(v) => Ok((pad + spec_u16_bytes(bo, v), fds)),
        BaseV::Int32(v) => Ok((pad + spec_u32_bytes(bo, v as u32), fds)),
        BaseV::Uint32(v) => Ok((pad + spec_u32_bytes(bo, v), fds)),
        BaseV::Int64(v) => Ok((pad + spec_u64_bytes(bo, v as u64), fds)),
        BaseV::Uint64(v) => Ok((pad + spec_u64_bytes(bo, v), fds)),
        BaseV::Double(v) => Ok((pad + spec_u64_bytes(bo, v), fds)),
        BaseV::UnixFd(fd) => if fds.len() < 0x1_0000_0000 {
            Ok((pad + spec_u32_bytes(bo, fds.len() as u32), fds.push(fd)))
        } else {
            Err(MarshalError::ValueTooLarge)
        },
        BaseV::String(s) => if !params::no_null_bytes(encode_utf8(s)) {
            Err(MarshalError::StringContainsNullByte)
        } else if encode_utf8(s).len() >= 0x1_0000_0000 {
            Err(MarshalError::ValueTooLarge)
        } else {
            Ok((pad + string_wire_bytes(bo, encode_utf8(s)), fds))
        },
        BaseV::ObjectPath(s) => if !params::valid_object_path(encode_utf8(s)) {
            Err(MarshalError::InvalidObjectPath)
        } else if encode_utf8(s).len() >= 0x1_0000_0000 {
            Err(MarshalError::ValueTooLarge)
        } else {
            Ok((pad + string_wire_bytes(bo, encode_utf8(s)), fds))
        },
        BaseV::Signature(s) => match signature::spec_parse_description(s) {
            Ok(_) => Ok((pad + signature_wire_bytes(encode_utf8(s)), fds)),
            Err(e) => Err(MarshalError::Signature(e)),
        },
    }
}

/// What marshalling value `p` at buffer offset `off` appends, and the fd
/// table afterwards. The bytes include the value's alignment padding.
pub open spec fn spec_marshal_param(p: ParamV, bo: ByteOrder, off: int, fds: Seq<u32>) -> Result<
    (Seq<u8>, Seq<u32>),
    MarshalError,
>
    decreases p,
{
    match p {
        ParamV::Base(b) => spec_marshal_base(b, bo, off, fds),
        ParamV::Container(c) => spec_marshal_container(c, bo, off, fds),
    }
}

/// What marshalling container value `c` at buffer offset `off` appends,
/// and the fd table afterwards.
pub open spec fn spec_marshal_container(
    c: ContainerV,
    bo: ByteOrder,
    off: int,
    fds: Seq<u32>,
) -> Result<(Seq<u8>, Seq<u32>), MarshalError>
    decreases c,
{
    match c {
        ContainerV::Array { element_sig, values } => {
            if !params::array_valid(element_sig, values) {
                Err(MarshalError::ArrayElementTypeMismatch)
            } else {
                let pad1 = pad_len(4, off);
                let off1 = off + pad1 + 4;
                let pad2 = pad_len(signature::type_alignment(element_sig) as int, off1);
                match spec_marshal_elements(values, bo, off1 + pad2, fds) {
                    Err(e) => Err(e),
                    Ok((payload, fds2)) => if payload.len() > max_array_len() {
                        Err(MarshalError::ValueTooLarge)
                    } else {
                        Ok(
                            (
                                zeros(pad1) + spec_u32_bytes(bo, payload.len() as u32) + zeros(
                                    pad2,
                                ) + payload,
                                fds2,
                            ),
                        )
                    },
                }
            }
        },
        ContainerV::Struct(ps) => {
            let pad = pad_len(8, off);
            match spec_marshal_elements(ps, bo, off + pad, fds) {
                Err(e) => Err(e),
                Ok((payload, fds2)) => Ok((zeros(pad) + payload, fds2)),
            }
        },
        ContainerV::Dict { key_sig, value_sig, map } => {
            if exists|i: int| 0 <= i < map.len() && params::base_sig((#[trigger] map[i]).0)
                != key_sig {
                Err(MarshalError::DictKeyTypeMismatch)
            } else if exists|i: int|
                0 <= i < map.len() && params::param_sig((#[trigger] map[i]).1) != value_sig {
                Err(MarshalError::DictValueTypeMismatch)
            } else if !params::dict_keys_unique(map) {
                Err(MarshalError::DictDuplicateKey)
            } else {
                let pad1 = pad_len(4, off);
                let off1 = off + pad1 + 4;
                let pad2 = pad_len(8, off1);
                match spec_marshal_entries(map, bo, off1 + pad2, fds) {
                    Err(e) => Err(e),
                    Ok((payload, fds2)) => if payload.len() > max_array_len() {
                        Err(MarshalError::ValueTooLarge)
                    } else {
                        Ok(
                            (
                                zeros(pad1) + spec_u32_bytes(bo, payload.len() as u32) + zeros(
                                    pad2,
                                ) + payload,
                                fds2,
                            ),
                        )
                    },
                }
            }
        },
        ContainerV::Variant(inner) => {
            let sig_chars = signature::type_chars(params::param_sig(*inner));
            match signature::spec_parse_description(sig_chars) {
                Err(e) => Err(MarshalError::Signature(e)),
                Ok(_) => {
                    let sb = signature_wire_bytes(encode_utf8(sig_chars));
                    let off1 = off + sb.len();
                    let pad = pad_len(
                        signature::type_alignment(params::param_sig(*inner)) as int,
                        off1,
                    );
                    match spec_marshal_param(*inner, bo, off1 + pad, fds) {
                        Err(e) => Err(e),
                        Ok((vb, fds2)) => Ok((sb + zeros(pad) + vb, fds2)),
                    }
                },
            }
        },
    }
}

/// What marshalling the values of `ps` back to back, starting at offset
/// `off`, appends.
pub open spec fn spec_marshal_elements(
    ps: Seq<ParamV>,
    bo: ByteOrder,
    off: int,
    fds: Seq<u32>,
) -> Result<(Seq<u8>, Seq<u32>), MarshalError>
    decreases ps,
{
    if ps.len() == 0 {
        Ok((Seq::empty(), fds))
    } else {
        match spec_marshal_param(ps[0], bo, off, fds) {
            Err(e) => Err(e),
            Ok((b0, fds0)) => match spec_marshal_elements(
                ps.subrange(1, ps.len() as int),
                bo,
                off + b0.len(),
                fds0,
            ) {
                Err(e) => Err(e),
                Ok((b1, fds1)) => Ok((b0 + b1, fds1)),
            },
        }
    }
}

/// What marshalling the dict entries of `map` back to back, starting at
/// offset `off`, appends. Every entry starts on an 8-byte boundary.
pub open spec fn spec_marshal_entries(
    map: Seq<(BaseV, ParamV)>,
    bo: ByteOrder,
    off: int,
    fds: Seq<u32>,
) -> Result<(Seq<u8>, Seq<u32>), MarshalError>
    decreases map,
{
    if map.len() == 0 {
        Ok((Seq::empty(), fds))
    } else {
        let pad = pad_len(8, off);
        match spec_marshal_base(map[0].0, bo, off + pad, fds) {
            Err(e) => Err(e),
            Ok((kb, fds0)) => match spec_marshal_param(map[0].1, bo, off + pad + kb.len(), fds0) {
                Err(e) => Err(e),
                Ok((vb, fds1)) => match spec_marshal_entries(
                    map.subrange(1, map.len() as int),
                    bo,
                    off + pad + kb.len() + vb.len(),
                    fds1,
                ) {
                    Err(e) => Err(e),
                    Ok((rb, fds2)) => Ok((zeros(pad) + kb + vb + rb, fds2)),
                },
            },
        }
    }
}

/// Append the wire form of a boolean: a `u32` that is zero or one.
pub fn marshal_boolean(b: bool, byteorder: ByteOrder, buf: &mut Vec<u8>)
    ensures
        final(buf)@ == old(buf)@ + spec_u32_bytes(
            byteorder,
            if b {
                1u32
            } else {
                0u32
            },
        ),
{
    if b {
        write_u32(1, byteorder, buf);
    } else {
        write_u32(0, byteorder, buf);
    }
}

/// Append one byte.
pub fn marshal_byte(i: u8, buf: &mut Vec<u8>)
    ensures
        final(buf)@ == old(buf)@ + seq![i],
{
    buf.push(i);
    proof {
        assert(final(buf)@ =~= old(buf)@ + seq![i]);
    }
}

/// Append the wire bytes of an `i16` (as its bit pattern).
pub fn marshal_i16(i: i16, byteorder: ByteOrder, buf: &mut Vec<u8>)
    ensures
        final(buf)@ == old(buf)@ + spec_u16_bytes(byteorder, i as u16),
{
    write_u16(i as u16, byteorder, buf);
}

/// Append the wire bytes of a `u16`.
pub fn marshal_u16(i: u16, byteorder: ByteOrder, buf: &mut Vec<u8>)
    ensures
        final(buf)@ == old(buf)@ + spec_u16_bytes(byteorder, i),
{
    write_u16(i, byteorder, buf);
}

/// Append the wire bytes of an `i32` (as its bit pattern).
pub fn marshal_i32(i: i32, byteorder: ByteOrder, buf: &mut Vec<u8>)
    ensures
        final(buf)@ == old(buf)@ + spec_u32_bytes(byteorder, i as u32),
{
    write_u32(i as u32, byteorder, buf);
}

/// Append the wire bytes of a `u32`.
pub fn marshal_u32(i: u32, byteorder: ByteOrder, buf: &mut Vec<u8>)
    ensures
        final(buf)@ == old(buf)@ + spec_u32_bytes(byteorder, i),
{
    write_u32(i, byteorder, buf);
}

/// Append the wire bytes of an `i64` (as its bit pattern).
pub fn marshal_i64(i: i64, byteorder: ByteOrder, buf: &mut Vec<u8>)
    ensures
        final(buf)@ == old(buf)@ + spec_u64_bytes(byteorder, i as u64),
{
    write_u64(i as u64, byteorder, buf);
}

/// Append the wire bytes of a `u64`.
pub fn marshal_u64(i: u64, byteorder: ByteOrder, buf: &mut Vec<u8>)
    ensures
        final(buf)@ == old(buf)@ + spec_u64_bytes(byteorder, i),
{
    write_u64(i, byteorder, buf);
}

/// Append the UTF-8 bytes of `s`.
fn push_str_bytes(s: &str, buf: &mut Vec<u8>)
    ensures
        final(buf)@ == old(buf)@ + s.spec_bytes(),
{
    let bytes = s.as_bytes();
    let mut i: usize = 0;
    while i < bytes.len()
        invariant
            i <= bytes@.len(),
            bytes@ == s.spec_bytes(),
            buf@ == old(buf)@ + bytes@.subrange(0, i as int),
        decreases bytes@.len() - i,
    {
        buf.push(bytes[i]);
        i = i + 1;
        proof {
            assert(buf@ =~= old(buf)@ + bytes@.subrange(0, i as int));
        }
    }
    proof {
        assert(final(buf)@ =~= old(buf)@ + s.spec_bytes());
    }
}

/// Append the wire form of a string that was already validated:
/// `u32` length, UTF-8 bytes, NUL.
pub fn write_string(s: &str, byteorder: ByteOrder, buf: &mut Vec<u8>)
    requires
        s.spec_bytes().len() < 0x1_0000_0000,
    ensures
        final(buf)@ == old(buf)@ + string_wire_bytes(byteorder, s.spec_bytes()),
{
    let bytes_len = s.as_bytes().len();
    write_u32(bytes_len as u32, byteorder, buf);
    push_str_bytes(s, buf);
    buf.push(0);
    proof {
        assert(final(buf)@ =~= old(buf)@ + string_wire_bytes(byteorder, s.spec_bytes()));
    }
}

/// Append the wire form of a signature that was already validated:
/// one-byte length, ASCII bytes, NUL.
pub fn write_signature(s: &str, buf: &mut Vec<u8>)
    requires
        s.spec_bytes().len() <= 255,
    ensures
        final(buf)@ == old(buf)@ + signature_wire_bytes(s.spec_bytes()),
{
    let bytes_len = s.as_bytes().len();
    buf.push(bytes_len as u8);
    push_str_bytes(s, buf);
    buf.push(0);
    proof {
        assert(final(buf)@ =~= old(buf)@ + signature_wire_bytes(s.spec_bytes()));
    }
}

/// Validate and append a string value's payload framing.
pub fn marshal_string(s: &str, byteorder: ByteOrder, buf: &mut Vec<u8>) -> (r: Result<
    (),
    MarshalError,
>)
    ensures
        match r {
            Ok(_) => params::no_null_bytes(s.spec_bytes()) && s.spec_bytes().len()
                < 0x1_0000_0000 && final(buf)@ == old(buf)@ + string_wire_bytes(
                byteorder,
                s.spec_bytes(),
            ),
            Err(e) => final(buf)@ == old(buf)@ && ((e == MarshalError::StringContainsNullByte
                && !params::no_null_bytes(s.spec_bytes())) || (e == MarshalError::ValueTooLarge
                && params::no_null_bytes(s.spec_bytes()) && s.spec_bytes().len()
                >= 0x1_0000_0000)),
        },
{
    match params::validate_string(s) {
        Ok(_) => {},
        Err(e) => {
            return Err(e);
        },
    }
    if (s.as_bytes().len() as u64) >= 0x1_0000_0000u64 {
        return Err(MarshalError::ValueTooLarge);
    }
    write_string(s, byteorder, buf);
    Ok(())
}

/// Validate and append an object-path value's payload framing.
pub fn marshal_objectpath(s: &str, byteorder: ByteOrder, buf: &mut Vec<u8>) -> (r: Result<
    (),
    MarshalError,
>)
    ensures
        match r {
            Ok(_) => params::valid_object_path(s.spec_bytes()) && s.spec_bytes().len()
                < 0x1_0000_0000 && final(buf)@ == old(buf)@ + string_wire_bytes(
                byteorder,
                s.spec_bytes(),
            ),
            Err(e) => final(buf)@ == old(buf)@ && ((e == MarshalError::InvalidObjectPath
                && !params::valid_object_path(s.spec_bytes())) || (e
                == MarshalError::ValueTooLarge && params::valid_object_path(s.spec_bytes())
                && s.spec_bytes().len() >= 0x1_0000_0000)),
        },
{
    match params::validate_object_path(s) {
        Ok(_) => {},
        Err(e) => {
            return Err(e);
        },
    }
    if (s.as_bytes().len() as u64) >= 0x1_0000_0000u64 {
        return Err(MarshalError::ValueTooLarge);
    }
    write_string(s, byteorder, buf);
    Ok(())
}

/// Validate and append a signature value's payload framing.
pub fn marshal_signature(s: &str, buf: &mut Vec<u8>) -> (r: Result<(), MarshalError>)
    ensures
        match r {
            Ok(_) => signature::spec_parse_description(s@) is Ok && s.spec_bytes().len() <= 255
                && final(buf)@ == old(buf)@ + signature_wire_bytes(s.spec_bytes()),
            Err(e) => final(buf)@ == old(buf)@ && (signature::spec_parse_description(s@) matches
                Err(se) && e == MarshalError::Signature(se)),
        },
{
    match params::validate_signature(s) {
        Ok(_) => {},
        Err(e) => {
            return Err(MarshalError::Signature(e));
        },
    }
    write_signature(s, buf);
    Ok(())
}

/// Append the index of `fd` and record it in the side table.
fn marshal_unixfd(fd: u32, ctx: &mut MarshalContext) -> (r: Result<(), MarshalError>)
    ensures
        match r {
            Ok(_) => {
                &&& old(ctx).fds@.len() < 0x1_0000_0000
                &&& final(ctx).buf@ == old(ctx).buf@ + spec_u32_bytes(
                    old(ctx).byteorder,
                    old(ctx).fds@.len() as u32,
                )
                &&& final(ctx).fds@ == old(ctx).fds@.push(fd)
                &&& final(ctx).byteorder == old(ctx).byteorder
            },
            Err(e) => e == MarshalError::ValueTooLarge && old(ctx).fds@.len() >= 0x1_0000_0000
                && *final(ctx) == *old(ctx),
        },
{
    if (ctx.fds.len() as u64) >= 0x1_0000_0000u64 {
        return Err(MarshalError::ValueTooLarge);
    }
    let idx = ctx.fds.len() as u32;
    write_u32(idx, ctx.byteorder, &mut ctx.buf);
    ctx.fds.push(fd);
    Ok(())
}

/// Pad to the value's alignment, then append its payload; fd values also
/// append to the side table.
pub fn marshal_base_param(p: &Base, ctx: &mut MarshalContext) -> (r: Result<(), MarshalError>)
    ensures
        match r {
            Ok(_) => {
                &&& spec_marshal_base(
                    p@,
                    old(ctx).byteorder,
                    old(ctx).buf@.len() as int,
                    old(ctx).fds@,
                ) matches Ok((bytes, fds2))
                &&& final(ctx).buf@ == old(ctx).buf@ + bytes
                &&& final(ctx).fds@ == fds2
                &&& final(ctx).byteorder == old(ctx).byteorder
            },
            Err(e) => {
                &&& spec_marshal_base(
                    p@,
                    old(ctx).byteorder,
                    old(ctx).buf@.len() as int,
                    old(ctx).fds@,
                ) == Err::<(Seq<u8>, Seq<u32>), _>(e)
                &&& final(ctx).byteorder == old(ctx).byteorder
                &&& final(ctx).buf@ == old(ctx).buf@ + zeros(
                    pad_len(
                        signature::base_alignment(params::base_sig(p@)) as int,
                        old(ctx).buf@.len() as int,
                    ),
                )
                &&& final(ctx).fds@ == old(ctx).fds@
                &&& seq_extends(final(ctx).buf@, old(ctx).buf@)
                &&& seq_extends(final(ctx).fds@, old(ctx).fds@)
            },
        },
{
    let align = p.sig().get_alignment();
    pad_to_align(align, &mut ctx.buf);
    let byteorder = ctx.byteorder;
    match p {
        Base::Boolean(b) => marshal_boolean(*b, byteorder, &mut ctx.buf),
        Base::Byte(i) => marshal_byte(*i, &mut ctx.buf),
        Base::Int16(i) => marshal_i16(*i, byteorder, &mut ctx.buf),
        Base::Uint16(i) => marshal_u16(*i, byteorder, &mut ctx.buf),
        Base::Int32(i) => marshal_i32(*i, byteorder, &mut ctx.buf),
        Base::Uint32(i) => marshal_u32(*i, byteorder, &mut ctx.buf),
        Base::Int64(i) => marshal_i64(*i, byteorder, &mut ctx.buf),
        Base::Uint64(i) => marshal_u64(*i, byteorder, &mut ctx.buf),
        Base::Double(i) => marshal_u64(*i, byteorder, &mut ctx.buf),
        Base::String(s) => {
            match marshal_string(s.as_str(), byteorder, &mut ctx.buf) {
                Ok(_) => {},
                Err(e) => {
                    proof {
                        let pad = pad_len(
                            signature::base_alignment(params::base_sig(p@)) as int,
                            old(ctx).buf@.len() as int,
                        );
                        assert(ctx.buf@ =~= old(ctx).buf@ + zeros(pad));
                        lemma_seq_extends_concat(old(ctx).buf@, zeros(pad));
                        lemma_seq_extends_refl(ctx.fds@);
                    }
                    return Err(e);
                },
            }
        },
        Base::Signature(s) => {
            match marshal_signature(s.as_str(), &mut ctx.buf) {
                Ok(_) => {},
                Err(e) => {
                    proof {
                        let pad = pad_len(
                            signature::base_alignment(params::base_sig(p@)) as int,
                            old(ctx).buf@.len() as int,
                        );
                        assert(ctx.buf@ =~= old(ctx).buf@ + zeros(pad));
                        lemma_seq_extends_concat(old(ctx).buf@, zeros(pad));
                        lemma_seq_extends_refl(ctx.fds@);
                    }
                    return Err(e);
                },
            }
        },
        Base::ObjectPath(s) => {
            match marshal_objectpath(s.as_str(), byteorder, &mut ctx.buf) {
                Ok(_) => {},
                Err(e) => {
                    proof {
                        let pad = pad_len(
                            signature::base_alignment(params::base_sig(p@)) as int,
                            old(ctx).buf@.len() as int,
                        );
                        assert(ctx.buf@ =~= old(ctx).buf@ + zeros(pad));
                        lemma_seq_extends_concat(old(ctx).buf@, zeros(pad));
                        lemma_seq_extends_refl(ctx.fds@);
                    }
                    return Err(e);
                },
            }
        },
        Base::UnixFd(i) => {
            match marshal_unixfd(*i, ctx) {
                Ok(_) => {},
                Err(e) => {
                    proof {
                        let pad = pad_len(
                            signature::base_alignment(params::base_sig(p@)) as int,
                            old(ctx).buf@.len() as int,
                        );
                        assert(ctx.buf@ =~= old(ctx).buf@ + zeros(pad));
                        lemma_seq_extends_concat(old(ctx).buf@, zeros(pad));
                        lemma_seq_extends_refl(ctx.fds@);
                    }
                    return Err(e);
                },
            }
        },
    }
    Ok(())
}

/// `new` extends `old`: the old contents are an unchanged prefix of the
/// new. A failed marshal may leave partial output, but it only ever
/// appends.
pub open spec fn seq_extends<T>(new: Seq<T>, old: Seq<T>) -> bool {
    new.len() >= old.len() && new.subrange(0, old.len() as int) == old
}

/// Extension is transitive.
proof fn lemma_seq_extends_trans<T>(a: Seq<T>, b: Seq<T>, c: Seq<T>)
    requires
        seq_extends(b, a),
        seq_extends(c, b),
    ensures
        seq_extends(c, a),
{
    assert(c.subrange(0, b.len() as int).subrange(0, a.len() as int) =~= c.subrange(
        0,
        a.len() as int,
    ));
}

/// Appending extends.
proof fn lemma_seq_extends_concat<T>(old: Seq<T>, tail: Seq<T>)
    ensures
        seq_extends(old + tail, old),
{
    assert((old + tail).subrange(0, old.len() as int) =~= old);
}

/// Extension is reflexive.
proof fn lemma_seq_extends_refl<T>(a: Seq<T>)
    ensures
        seq_extends(a, a),
{
    assert(a.subrange(0, a.len() as int) =~= a);
}

/// Prefix the bytes of a marshalling result with already-written bytes.
pub open spec fn with_written(
    written: Seq<u8>,
    r: Result<(Seq<u8>, Seq<u32>), MarshalError>,
) -> Result<(Seq<u8>, Seq<u32>), MarshalError> {
    match r {
        Ok((b, f)) => Ok((written + b, f)),
        Err(e) => Err(e),
    }
}

/// Prefixing no bytes changes nothing.
proof fn lemma_with_written_empty(written: Seq<u8>, r: Result<(Seq<u8>, Seq<u32>), MarshalError>)
    requires
        written.len() == 0,
    ensures
        with_written(written, r) == r,
{
    match r {
        Ok((b, f)) => {
            assert(written + b =~= b);
        },
        Err(_) => {},
    }
}

/// Prefixes compose by concatenation.
proof fn lemma_with_written_assoc(
    w1: Seq<u8>,
    w2: Seq<u8>,
    r: Result<(Seq<u8>, Seq<u32>), MarshalError>,
)
    ensures
        with_written(w1, with_written(w2, r)) == with_written(w1 + w2, r),
{
    match r {
        Ok((b, f)) => {
            assert(w1 + (w2 + b) =~= (w1 + w2) + b);
        },
        Err(_) => {},
    }
}

/// One marshalled element moves the composition forward by its bytes.
proof fn lemma_elements_step(
    s: Seq<ParamV>,
    bo: ByteOrder,
    off: int,
    fds: Seq<u32>,
    b0: Seq<u8>,
    f0: Seq<u32>,
)
    requires
        s.len() > 0,
        spec_marshal_param(s[0], bo, off, fds) == Ok::<_, MarshalError>((b0, f0)),
    ensures
        spec_marshal_elements(s, bo, off, fds) == with_written(
            b0,
            spec_marshal_elements(s.subrange(1, s.len() as int), bo, off + b0.len(), f0),
        ),
{
}

/// One marshalled dict entry moves the composition forward by its
/// padding, key and value bytes.
proof fn lemma_entries_step(
    s: Seq<(BaseV, ParamV)>,
    bo: ByteOrder,
    off: int,
    fds: Seq<u32>,
    kb: Seq<u8>,
    fk: Seq<u32>,
    vb: Seq<u8>,
    fv: Seq<u32>,
)
    requires
        s.len() > 0,
        spec_marshal_base(s[0].0, bo, off + pad_len(8, off), fds) == Ok::<_, MarshalError>(
            (kb, fk),
        ),
        spec_marshal_param(s[0].1, bo, off + pad_len(8, off) + kb.len(), fk) == Ok::<
            _,
            MarshalError,
        >((vb, fv)),
    ensures
        spec_marshal_entries(s, bo, off, fds) == with_written(
            zeros(pad_len(8, off)) + kb + vb,
            spec_marshal_entries(
                s.subrange(1, s.len() as int),
                bo,
                off + pad_len(8, off) + kb.len() + vb.len(),
                fv,
            ),
        ),
{
    let pad = pad_len(8, off);
    let rest = spec_marshal_entries(s.subrange(1, s.len() as int), bo, off + pad + kb.len()
        + vb.len(), fv);
    match rest {
        Ok((rb, f2)) => {
            assert(zeros(pad) + kb + vb + rb =~= (zeros(pad) + kb + vb) + rb);
        },
        Err(_) => {},
    }
}

/// Overwrite four bytes of `buf` at `at` with the wire bytes of `v`.
fn patch_u32(buf: &mut Vec<u8>, at: usize, v: u32, bo: ByteOrder)
    requires
        at + 4 <= old(buf)@.len(),
        old(buf)@.len() <= usize::MAX,
    ensures
        final(buf)@ == old(buf)@.subrange(0, at as int) + spec_u32_bytes(bo, v) + old(
            buf,
        )@.subrange(at as int + 4, old(buf)@.len() as int),
        final(buf)@.len() == old(buf)@.len(),
{
    proof {
        crate::wire_util::lemma_int_bytes_roundtrip(bo);
    }
    let mut tmp: Vec<u8> = Vec::new();
    write_u32(v, bo, &mut tmp);
    buf[at] = tmp[0];
    buf[at + 1] = tmp[1];
    buf[at + 2] = tmp[2];
    buf[at + 3] = tmp[3];
    proof {
        assert(tmp@ =~= Seq::<u8>::empty() + spec_u32_bytes(bo, v));
        assert(final(buf)@ =~= old(buf)@.subrange(0, at as int) + spec_u32_bytes(bo, v) + old(
            buf,
        )@.subrange(at as int + 4, old(buf)@.len() as int));
    }
}

/// Append the values of `values` back to back, each paying its own
/// alignment.
#[verifier::rlimit(60)]
fn marshal_elements(values: &Vec<Param>, ctx: &mut MarshalContext) -> (r: Result<
    (),
    MarshalError,
>)
    ensures
        match r {
            Ok(_) => {
                &&& spec_marshal_elements(
                    params_view(values@),
                    old(ctx).byteorder,
                    old(ctx).buf@.len() as int,
                    old(ctx).fds@,
                ) matches Ok(res)
                &&& final(ctx).buf@ == old(ctx).buf@ + res.0
                &&& final(ctx).fds@ == res.1
                &&& final(ctx).byteorder == old(ctx).byteorder
            },
            Err(e) => spec_marshal_elements(
                params_view(values@),
                old(ctx).byteorder,
                old(ctx).buf@.len() as int,
                old(ctx).fds@,
            ) == Err::<(Seq<u8>, Seq<u32>), _>(e) && final(ctx).byteorder == old(ctx).byteorder
                && seq_extends(final(ctx).buf@, old(ctx).buf@) && seq_extends(
                final(ctx).fds@,
                old(ctx).fds@,
            ),
        },
    decreases values@, 0int,
{
    let ghost bo = old(ctx).byteorder;
    let ghost off0 = old(ctx).buf@.len() as int;
    let ghost fds0 = old(ctx).fds@;
    let ghost whole = params_view(values@);
    proof {
        params::lemma_params_view(values@);
        assert(whole.subrange(0, whole.len() as int) =~= whole);
        assert(old(ctx).buf@.subrange(off0, off0).len() == 0);
        lemma_with_written_empty(
            old(ctx).buf@.subrange(off0, off0),
            spec_marshal_elements(whole, bo, off0, fds0),
        );
        lemma_seq_extends_refl(old(ctx).fds@);
    }
    let n = values.len();
    let mut i: usize = 0;
    while i < n
        invariant
            i <= n,
            n == values@.len(),
            whole == params_view(values@),
            whole.len() == values@.len(),
            forall|j: int| 0 <= j < values@.len() ==> #[trigger] whole[j] == values@[j]@,
            ctx.byteorder == bo,
            bo == old(ctx).byteorder,
            fds0 == old(ctx).fds@,
            ctx.buf@.len() >= off0,
            off0 == old(ctx).buf@.len(),
            ctx.buf@.subrange(0, off0) == old(ctx).buf@,
            seq_extends(ctx.fds@, old(ctx).fds@),
            spec_marshal_elements(whole, bo, off0, fds0) == with_written(
                ctx.buf@.subrange(off0, ctx.buf@.len() as int),
                spec_marshal_elements(
                    whole.subrange(i as int, whole.len() as int),
                    bo,
                    ctx.buf@.len() as int,
                    ctx.fds@,
                ),
            ),
        decreases n - i,
    {
        let ghost pre_buf = ctx.buf@;
        let ghost pre_fds = ctx.fds@;
        let ghost suffix = whole.subrange(i as int, whole.len() as int);
        proof {
            assert(decreases_to!(values@ => values@[i as int]));
            assert(suffix[0] == values@[i as int]@);
        }
        match marshal_param(&values[i], ctx) {
            Ok(_) => {},
            Err(e) => {
                proof {
                    assert(spec_marshal_param(suffix[0], bo, pre_buf.len() as int, pre_fds)
                        == Err::<(Seq<u8>, Seq<u32>), _>(e));
                    assert(spec_marshal_elements(suffix, bo, pre_buf.len() as int, pre_fds)
                        == Err::<(Seq<u8>, Seq<u32>), _>(e));
                    assert(seq_extends(pre_buf, old(ctx).buf@));
                    lemma_seq_extends_trans(old(ctx).buf@, pre_buf, ctx.buf@);
                    lemma_seq_extends_trans(old(ctx).fds@, pre_fds, ctx.fds@);
                }
                return Err(e);
            },
        }
        i = i + 1;
        proof {
            lemma_marshal_fds_prefix_param(suffix[0], bo, pre_buf.len() as int, pre_fds);
            assert(seq_extends(ctx.fds@, pre_fds));
            lemma_seq_extends_trans(old(ctx).fds@, pre_fds, ctx.fds@);
            let written = pre_buf.subrange(off0, pre_buf.len() as int);
            let b0 = ctx.buf@.subrange(pre_buf.len() as int, ctx.buf@.len() as int);
            let res = spec_marshal_param(suffix[0], bo, pre_buf.len() as int, pre_fds)->Ok_0;
            assert(b0 =~= res.0);
            lemma_elements_step(suffix, bo, pre_buf.len() as int, pre_fds, b0, ctx.fds@);
            lemma_with_written_assoc(
                written,
                b0,
                spec_marshal_elements(
                    suffix.subrange(1, suffix.len() as int),
                    bo,
                    pre_buf.len() as int + b0.len(),
                    ctx.fds@,
                ),
            );
            assert(suffix.subrange(1, suffix.len() as int) =~= whole.subrange(
                i as int,
                whole.len() as int,
            ));
            assert(written + b0 =~= ctx.buf@.subrange(off0, ctx.buf@.len() as int));
            assert(ctx.buf@.subrange(0, off0) =~= old(ctx).buf@);
        }
    }
    proof {
        let written = final(ctx).buf@.subrange(off0, final(ctx).buf@.len() as int);
        assert(whole.subrange(n as int, whole.len() as int) =~= Seq::<ParamV>::empty());
        assert(written + Seq::<u8>::empty() =~= written);
        assert(final(ctx).buf@ =~= old(ctx).buf@ + written);
    }
    Ok(())
}

/// Append the dict entries of `map` back to back, each starting on an
/// 8-byte boundary.
#[verifier::rlimit(100)]
fn marshal_entries(map: &Vec<(Base, Param)>, ctx: &mut MarshalContext) -> (r: Result<
    (),
    MarshalError,
>)
    ensures
        match r {
            Ok(_) => {
                &&& spec_marshal_entries(
                    params::entries_view(map@),
                    old(ctx).byteorder,
                    old(ctx).buf@.len() as int,
                    old(ctx).fds@,
                ) matches Ok(res)
                &&& final(ctx).buf@ == old(ctx).buf@ + res.0
                &&& final(ctx).fds@ == res.1
                &&& final(ctx).byteorder == old(ctx).byteorder
            },
            Err(e) => spec_marshal_entries(
                params::entries_view(map@),
                old(ctx).byteorder,
                old(ctx).buf@.len() as int,
                old(ctx).fds@,
            ) == Err::<(Seq<u8>, Seq<u32>), _>(e) && final(ctx).byteorder == old(ctx).byteorder
                && seq_extends(final(ctx).buf@, old(ctx).buf@) && seq_extends(
                final(ctx).fds@,
                old(ctx).fds@,
            ),
        },
    decreases map@, 0int,
{
    let ghost bo = old(ctx).byteorder;
    let ghost off0 = old(ctx).buf@.len() as int;
    let ghost fds0 = old(ctx).fds@;
    let ghost whole = params::entries_view(map@);
    proof {
        params::lemma_entries_view(map@);
        assert(whole.subrange(0, whole.len() as int) =~= whole);
        assert(old(ctx).buf@.subrange(off0, off0).len() == 0);
        lemma_with_written_empty(
            old(ctx).buf@.subrange(off0, off0),
            spec_marshal_entries(whole, bo, off0, fds0),
        );
        lemma_seq_extends_refl(old(ctx).fds@);
    }
    let n = map.len();
    let mut i: usize = 0;
    while i < n
        invariant
            i <= n,
            n == map@.len(),
            whole == params::entries_view(map@),
            whole.len() == map@.len(),
            forall|j: int|
                0 <= j < map@.len() ==> #[trigger] whole[j] == (map@[j].0@, map@[j].1@),
            ctx.byteorder == bo,
            bo == old(ctx).byteorder,
            fds0 == old(ctx).fds@,
            ctx.buf@.len() >= off0,
            off0 == old(ctx).buf@.len(),
            ctx.buf@.subrange(0, off0) == old(ctx).buf@,
            seq_extends(ctx.fds@, old(ctx).fds@),
            spec_marshal_entries(whole, bo, off0, fds0) == with_written(
                ctx.buf@.subrange(off0, ctx.buf@.len() as int),
                spec_marshal_entries(
                    whole.subrange(i as int, whole.len() as int),
                    bo,
                    ctx.buf@.len() as int,
                    ctx.fds@,
                ),
            ),
        decreases n - i,
    {
        let ghost pre_buf = ctx.buf@;
        let ghost pre_fds = ctx.fds@;
        let ghost suffix = whole.subrange(i as int, whole.len() as int);
        proof {
            assert(decreases_to!(map@ => map@[i as int]));
            assert(suffix[0] == (map@[i as int].0@, map@[i as int].1@));
        }
        let entry = &map[i];
        pad_to_align(8, &mut ctx.buf);
        let ghost after_pad = ctx.buf@;
        proof {
            assert(after_pad.len() == pre_buf.len() + pad_len(8, pre_buf.len() as int));
        }
        match marshal_base_param(&entry.0, ctx) {
            Ok(_) => {},
            Err(e) => {
                proof {
                    assert(spec_marshal_base(suffix[0].0, bo, after_pad.len() as int, pre_fds)
                        == Err::<(Seq<u8>, Seq<u32>), _>(e));
                    assert(spec_marshal_entries(suffix, bo, pre_buf.len() as int, pre_fds)
                        == Err::<(Seq<u8>, Seq<u32>), _>(e));
                    assert(seq_extends(pre_buf, old(ctx).buf@));
                    assert(seq_extends(after_pad, pre_buf)) by {
                        assert(after_pad.subrange(0, pre_buf.len() as int) =~= pre_buf);
                    }
                    lemma_seq_extends_trans(old(ctx).buf@, pre_buf, after_pad);
                    lemma_seq_extends_trans(old(ctx).buf@, after_pad, ctx.buf@);
                    lemma_seq_extends_trans(old(ctx).fds@, pre_fds, ctx.fds@);
                }
                return Err(e);
            },
        }
        let ghost after_key = ctx.buf@;
        let ghost fds_k = ctx.fds@;
        match marshal_param(&entry.1, ctx) {
            Ok(_) => {},
            Err(e) => {
                proof {
                    let kres = spec_marshal_base(
                        suffix[0].0,
                        bo,
                        after_pad.len() as int,
                        pre_fds,
                    )->Ok_0;
                    assert(after_key.len() == after_pad.len() + kres.0.len());
                    assert(spec_marshal_param(suffix[0].1, bo, after_key.len() as int, fds_k)
                        == Err::<(Seq<u8>, Seq<u32>), _>(e));
                    assert(spec_marshal_entries(suffix, bo, pre_buf.len() as int, pre_fds)
                        == Err::<(Seq<u8>, Seq<u32>), _>(e));
                    assert(seq_extends(pre_buf, old(ctx).buf@));
                    assert(seq_extends(after_pad, pre_buf)) by {
                        assert(after_pad.subrange(0, pre_buf.len() as int) =~= pre_buf);
                    }
                    assert(seq_extends(after_key, after_pad)) by {
                        assert(after_key.subrange(0, after_pad.len() as int) =~= after_pad);
                    }
                    lemma_seq_extends_trans(old(ctx).buf@, pre_buf, after_pad);
                    lemma_seq_extends_trans(old(ctx).buf@, after_pad, after_key);
                    lemma_seq_extends_trans(old(ctx).buf@, after_key, ctx.buf@);
                    lemma_marshal_fds_prefix_param(
                        ParamV::Base(suffix[0].0),
                        bo,
                        after_pad.len() as int,
                        pre_fds,
                    );
                    assert(seq_extends(fds_k, pre_fds));
                    lemma_seq_extends_trans(old(ctx).fds@, pre_fds, fds_k);
                    lemma_seq_extends_trans(old(ctx).fds@, fds_k, ctx.fds@);
                }
                return Err(e);
            },
        }
        i = i + 1;
        proof {
            lemma_marshal_fds_prefix_param(
                ParamV::Base(suffix[0].0),
                bo,
                after_pad.len() as int,
                pre_fds,
            );
            assert(seq_extends(fds_k, pre_fds));
            lemma_marshal_fds_prefix_param(suffix[0].1, bo, after_key.len() as int, fds_k);
            assert(seq_extends(ctx.fds@, fds_k));
            lemma_seq_extends_trans(old(ctx).fds@, pre_fds, fds_k);
            lemma_seq_extends_trans(old(ctx).fds@, fds_k, ctx.fds@);
            let written = pre_buf.subrange(off0, pre_buf.len() as int);
            let pad = pad_len(8, pre_buf.len() as int);
            let kb = after_key.subrange(after_pad.len() as int, after_key.len() as int);
            let vb = ctx.buf@.subrange(after_key.len() as int, ctx.buf@.len() as int);
            let kres = spec_marshal_base(suffix[0].0, bo, after_pad.len() as int, pre_fds)->Ok_0;
            let vres = spec_marshal_param(suffix[0].1, bo, after_key.len() as int, fds_k)->Ok_0;
            assert(kb =~= kres.0);
            assert(vb =~= vres.0);
            assert(after_pad.len() == pre_buf.len() + pad);
            lemma_entries_step(
                suffix,
                bo,
                pre_buf.len() as int,
                pre_fds,
                kb,
                fds_k,
                vb,
                ctx.fds@,
            );
            lemma_with_written_assoc(
                written,
                zeros(pad) + kb + vb,
                spec_marshal_entries(
                    suffix.subrange(1, suffix.len() as int),
                    bo,
                    pre_buf.len() as int + pad + kb.len() + vb.len(),
                    ctx.fds@,
                ),
            );
            assert(suffix.subrange(1, suffix.len() as int) =~= whole.subrange(
                i as int,
                whole.len() as int,
            ));
            assert(written + (zeros(pad) + kb + vb) =~= ctx.buf@.subrange(
                off0,
                ctx.buf@.len() as int,
            ));
            assert(ctx.buf@.subrange(0, off0) =~= old(ctx).buf@);
        }
    }
    proof {
        let written = final(ctx).buf@.subrange(off0, final(ctx).buf@.len() as int);
        assert(whole.subrange(n as int, whole.len() as int) =~= Seq::<(BaseV, ParamV)>::empty());
        assert(written + Seq::<u8>::empty() =~= written);
        assert(final(ctx).buf@ =~= old(ctx).buf@ + written);
    }
    Ok(())
}

/// Append an array: length prefix, padding to the element alignment, then
/// the elements; the prefix is patched to the payload length afterwards.
#[verifier::rlimit(100)]
fn marshal_array(arr: &params::Array, ctx: &mut MarshalContext) -> (r: Result<(), MarshalError>)
    ensures
        match r {
            Ok(_) => {
                &&& spec_marshal_container(
                    ContainerV::Array {
                        element_sig: arr.element_sig@,
                        values: params_view(arr.values@),
                    },
                    old(ctx).byteorder,
                    old(ctx).buf@.len() as int,
                    old(ctx).fds@,
                ) matches Ok(res)
                &&& final(ctx).buf@ == old(ctx).buf@ + res.0
                &&& final(ctx).fds@ == res.1
                &&& final(ctx).byteorder == old(ctx).byteorder
            },
            Err(e) => spec_marshal_container(
                ContainerV::Array {
                    element_sig: arr.element_sig@,
                    values: params_view(arr.values@),
                },
                old(ctx).byteorder,
                old(ctx).buf@.len() as int,
                old(ctx).fds@,
            ) == Err::<(Seq<u8>, Seq<u32>), _>(e) && final(ctx).byteorder == old(ctx).byteorder
                && seq_extends(final(ctx).buf@, old(ctx).buf@) && seq_extends(
                final(ctx).fds@,
                old(ctx).fds@,
            ),
        },
    decreases arr, 2int,
{
    let ghost cv = ContainerV::Array {
        element_sig: arr.element_sig@,
        values: params_view(arr.values@),
    };
    let ghost bo = old(ctx).byteorder;
    let ghost off = old(ctx).buf@.len() as int;
    let ghost fds0 = old(ctx).fds@;
    proof {
        crate::wire_util::lemma_int_bytes_roundtrip(bo);
    }
    match params::validate_array(arr) {
        Ok(_) => {},
        Err(e) => {
            proof {
                lemma_seq_extends_refl(ctx.buf@);
                lemma_seq_extends_refl(ctx.fds@);
            }
            return Err(e);
        },
    }
    pad_to_align(4, &mut ctx.buf);
    let len_pos = ctx.buf.len();
    write_u32(0, ctx.byteorder, &mut ctx.buf);
    let el_align = arr.element_sig.get_alignment();
    pad_to_align(el_align, &mut ctx.buf);
    let payload_start = ctx.buf.len();
    let ghost pre_elems = ctx.buf@;
    proof {
        assert(len_pos == off + pad_len(4, off));
        assert(payload_start == off + pad_len(4, off) + 4 + pad_len(
            signature::type_alignment(arr.element_sig@) as int,
            off + pad_len(4, off) + 4,
        ));
        assert(decreases_to!(*arr => arr.values@));
    }
    match marshal_elements(&arr.values, ctx) {
        Ok(_) => {},
        Err(e) => {
            proof {
                assert(spec_marshal_elements(
                    params_view(arr.values@),
                    bo,
                    payload_start as int,
                    fds0,
                ) == Err::<(Seq<u8>, Seq<u32>), _>(e));
                assert(seq_extends(pre_elems, old(ctx).buf@)) by {
                    assert(pre_elems.subrange(0, old(ctx).buf@.len() as int) =~= old(ctx).buf@);
                }
                lemma_seq_extends_trans(old(ctx).buf@, pre_elems, ctx.buf@);
            }
            return Err(e);
        },
    }
    let cur_len = ctx.buf.len();
    let payload_len = cur_len - payload_start;
    let ghost eres = spec_marshal_elements(
        params_view(arr.values@),
        bo,
        payload_start as int,
        fds0,
    )->Ok_0;
    proof {
        assert(ctx.buf@ == pre_elems + eres.0);
        assert(payload_len == eres.0.len());
    }
    if payload_len > 0x4000000 {
        proof {
            assert(seq_extends(pre_elems, old(ctx).buf@)) by {
                assert(pre_elems.subrange(0, old(ctx).buf@.len() as int) =~= old(ctx).buf@);
            }
            lemma_seq_extends_concat(pre_elems, eres.0);
            lemma_seq_extends_trans(old(ctx).buf@, pre_elems, ctx.buf@);
            lemma_marshal_fds_prefix_elements(
                params_view(arr.values@),
                bo,
                payload_start as int,
                fds0,
            );
            assert(seq_extends(ctx.fds@, old(ctx).fds@));
        }
        return Err(MarshalError::ValueTooLarge);
    }
    patch_u32(&mut ctx.buf, len_pos, payload_len as u32, ctx.byteorder);
    proof {
        let pad1 = pad_len(4, off);
        let pad2 = pad_len(
            signature::type_alignment(arr.element_sig@) as int,
            off + pad1 + 4,
        );
        assert(pre_elems =~= old(ctx).buf@ + zeros(pad1) + spec_u32_bytes(bo, 0) + zeros(pad2));
        let before_patch = pre_elems + eres.0;
        assert(before_patch.subrange(0, len_pos as int) =~= old(ctx).buf@ + zeros(pad1));
        assert(before_patch.subrange(len_pos as int + 4, before_patch.len() as int) =~= zeros(
            pad2,
        ) + eres.0);
        assert(final(ctx).buf@ =~= old(ctx).buf@ + (zeros(pad1) + spec_u32_bytes(
            bo,
            eres.0.len() as u32,
        ) + zeros(pad2) + eres.0));
        assert(spec_marshal_container(cv, bo, off, fds0) == Ok::<_, MarshalError>(
            ((zeros(pad1) + spec_u32_bytes(bo, eres.0.len() as u32) + zeros(pad2) + eres.0), eres.1),
        ));
    }
    Ok(())
}

/// Append a dict: length prefix, padding to the 8-byte entry alignment,
/// then the entries; the prefix is patched to the payload length
/// afterwards.
#[verifier::rlimit(100)]
fn marshal_dict(dict: &params::Dict, ctx: &mut MarshalContext) -> (r: Result<(), MarshalError>)
    ensures
        match r {
            Ok(_) => {
                &&& spec_marshal_container(
                    ContainerV::Dict {
                        key_sig: dict.key_sig,
                        value_sig: dict.value_sig@,
                        map: params::entries_view(dict.map@),
                    },
                    old(ctx).byteorder,
                    old(ctx).buf@.len() as int,
                    old(ctx).fds@,
                ) matches Ok(res)
                &&& final(ctx).buf@ == old(ctx).buf@ + res.0
                &&& final(ctx).fds@ == res.1
                &&& final(ctx).byteorder == old(ctx).byteorder
            },
            Err(e) => spec_marshal_container(
                ContainerV::Dict {
                    key_sig: dict.key_sig,
                    value_sig: dict.value_sig@,
                    map: params::entries_view(dict.map@),
                },
                old(ctx).byteorder,
                old(ctx).buf@.len() as int,
                old(ctx).fds@,
            ) == Err::<(Seq<u8>, Seq<u32>), _>(e) && final(ctx).byteorder == old(ctx).byteorder
                && seq_extends(final(ctx).buf@, old(ctx).buf@) && seq_extends(
                final(ctx).fds@,
                old(ctx).fds@,
            ),
        },
    decreases dict, 2int,
{
    let ghost cv = ContainerV::Dict {
        key_sig: dict.key_sig,
        value_sig: dict.value_sig@,
        map: params::entries_view(dict.map@),
    };
    let ghost bo = old(ctx).byteorder;
    let ghost off = old(ctx).buf@.len() as int;
    let ghost fds0 = old(ctx).fds@;
    proof {
        crate::wire_util::lemma_int_bytes_roundtrip(bo);
    }
    match params::validate_dict(dict) {
        Ok(_) => {},
        Err(e) => {
            proof {
                lemma_seq_extends_refl(ctx.buf@);
                lemma_seq_extends_refl(ctx.fds@);
            }
            return Err(e);
        },
    }
    pad_to_align(4, &mut ctx.buf);
    let len_pos = ctx.buf.len();
    write_u32(0, ctx.byteorder, &mut ctx.buf);
    pad_to_align(8, &mut ctx.buf);
    let payload_start = ctx.buf.len();
    let ghost pre_entries = ctx.buf@;
    proof {
        assert(len_pos == off + pad_len(4, off));
        assert(payload_start == off + pad_len(4, off) + 4 + pad_len(8, off + pad_len(4, off) + 4));
        assert(decreases_to!(*dict => dict.map@));
    }
    match marshal_entries(&dict.map, ctx) {
        Ok(_) => {},
        Err(e) => {
            proof {
                assert(spec_marshal_entries(
                    params::entries_view(dict.map@),
                    bo,
                    payload_start as int,
                    fds0,
                ) == Err::<(Seq<u8>, Seq<u32>), _>(e));
                assert(seq_extends(pre_entries, old(ctx).buf@)) by {
                    assert(pre_entries.subrange(0, old(ctx).buf@.len() as int) =~= old(
                        ctx,
                    ).buf@);
                }
                lemma_seq_extends_trans(old(ctx).buf@, pre_entries, ctx.buf@);
            }
            return Err(e);
        },
    }
    let cur_len = ctx.buf.len();
    let payload_len = cur_len - payload_start;
    let ghost eres = spec_marshal_entries(
        params::entries_view(dict.map@),
        bo,
        payload_start as int,
        fds0,
    )->Ok_0;
    proof {
        assert(ctx.buf@ == pre_entries + eres.0);
        assert(payload_len == eres.0.len());
    }
    if payload_len > 0x4000000 {
        proof {
            assert(seq_extends(pre_entries, old(ctx).buf@)) by {
                assert(pre_entries.subrange(0, old(ctx).buf@.len() as int) =~= old(ctx).buf@);
            }
            lemma_seq_extends_concat(pre_entries, eres.0);
            lemma_seq_extends_trans(old(ctx).buf@, pre_entries, ctx.buf@);
            lemma_marshal_fds_prefix_entries(
                params::entries_view(dict.map@),
                bo,
                payload_start as int,
                fds0,
            );
            assert(seq_extends(ctx.fds@, old(ctx).fds@));
        }
        return Err(MarshalError::ValueTooLarge);
    }
    patch_u32(&mut ctx.buf, len_pos, payload_len as u32, ctx.byteorder);
    proof {
        let pad1 = pad_len(4, off);
        let pad2 = pad_len(8, off + pad1 + 4);
        assert(pre_entries =~= old(ctx).buf@ + zeros(pad1) + spec_u32_bytes(bo, 0) + zeros(pad2));
        let before_patch = pre_entries + eres.0;
        assert(before_patch.subrange(0, len_pos as int) =~= old(ctx).buf@ + zeros(pad1));
        assert(before_patch.subrange(len_pos as int + 4, before_patch.len() as int) =~= zeros(
            pad2,
        ) + eres.0);
        assert(final(ctx).buf@ =~= old(ctx).buf@ + (zeros(pad1) + spec_u32_bytes(
            bo,
            eres.0.len() as u32,
        ) + zeros(pad2) + eres.0));
        assert(spec_marshal_container(cv, bo, off, fds0) == Ok::<_, MarshalError>(
            ((zeros(pad1) + spec_u32_bytes(bo, eres.0.len() as u32) + zeros(pad2) + eres.0), eres.1),
        ));
    }
    Ok(())
}

/// Append a variant: the inner value's signature, padding to the inner
/// value's alignment, then the inner value.
#[verifier::rlimit(100)]
fn marshal_variant(inner: &Param, ctx: &mut MarshalContext) -> (r: Result<(), MarshalError>)
    ensures
        match r {
            Ok(_) => {
                &&& spec_marshal_container(
                    ContainerV::Variant(Box::new(inner@)),
                    old(ctx).byteorder,
                    old(ctx).buf@.len() as int,
                    old(ctx).fds@,
                ) matches Ok(res)
                &&& final(ctx).buf@ == old(ctx).buf@ + res.0
                &&& final(ctx).fds@ == res.1
                &&& final(ctx).byteorder == old(ctx).byteorder
            },
            Err(e) => spec_marshal_container(
                ContainerV::Variant(Box::new(inner@)),
                old(ctx).byteorder,
                old(ctx).buf@.len() as int,
                old(ctx).fds@,
            ) == Err::<(Seq<u8>, Seq<u32>), _>(e) && final(ctx).byteorder == old(ctx).byteorder
                && seq_extends(final(ctx).buf@, old(ctx).buf@) && seq_extends(
                final(ctx).fds@,
                old(ctx).fds@,
            ),
        },
    decreases inner, 2int,
{
    let ghost bo = old(ctx).byteorder;
    let ghost off = old(ctx).buf@.len() as int;
    let ghost fds0 = old(ctx).fds@;
    let ghost sig_chars = signature::type_chars(params::param_sig(inner@));
    let sig_type = inner.sig();
    let mut sig_str = String::new();
    sig_type.to_str(&mut sig_str);
    proof {
        assert(sig_str@ =~= sig_chars);
    }
    match marshal_signature(sig_str.as_str(), &mut ctx.buf) {
        Ok(_) => {},
        Err(e) => {
            proof {
                lemma_seq_extends_refl(ctx.buf@);
                lemma_seq_extends_refl(ctx.fds@);
            }
            return Err(e);
        },
    }
    let al = sig_type.get_alignment();
    pad_to_align(al, &mut ctx.buf);
    let ghost pre_inner = ctx.buf@;
    proof {
        let sb = signature_wire_bytes(encode_utf8(sig_chars));
        assert(pre_inner.len() == off + sb.len() + pad_len(
            signature::type_alignment(params::param_sig(inner@)) as int,
            off + sb.len(),
        ));
    }
    match marshal_param(inner, ctx) {
        Ok(_) => {},
        Err(e) => {
            proof {
                assert(seq_extends(pre_inner, old(ctx).buf@)) by {
                    assert(pre_inner.subrange(0, old(ctx).buf@.len() as int) =~= old(ctx).buf@);
                }
                lemma_seq_extends_trans(old(ctx).buf@, pre_inner, ctx.buf@);
            }
            return Err(e);
        },
    }
    proof {
        let sb = signature_wire_bytes(encode_utf8(sig_chars));
        let pad = pad_len(
            signature::type_alignment(params::param_sig(inner@)) as int,
            off + sb.len(),
        );
        let vres = spec_marshal_param(inner@, bo, pre_inner.len() as int, fds0)->Ok_0;
        assert(final(ctx).buf@ =~= old(ctx).buf@ + (sb + zeros(pad) + vres.0));
        assert(spec_marshal_container(ContainerV::Variant(Box::new(inner@)), bo, off, fds0)
            == Ok::<_, MarshalError>(((sb + zeros(pad) + vres.0), vres.1)));
    }
    Ok(())
}

/// Pad to the container's alignment and append its framing and contents:
/// length prefixes for arrays and dicts, the inner signature for variants.
pub fn marshal_container_param(p: &Container, ctx: &mut MarshalContext) -> (r: Result<
    (),
    MarshalError,
>)
    ensures
        match r {
            Ok(_) => {
                &&& spec_marshal_container(
                    p@,
                    old(ctx).byteorder,
                    old(ctx).buf@.len() as int,
                    old(ctx).fds@,
                ) matches Ok(res)
                &&& final(ctx).buf@ == old(ctx).buf@ + res.0
                &&& final(ctx).fds@ == res.1
                &&& final(ctx).byteorder == old(ctx).byteorder
            },
            Err(e) => spec_marshal_container(
                p@,
                old(ctx).byteorder,
                old(ctx).buf@.len() as int,
                old(ctx).fds@,
            ) == Err::<(Seq<u8>, Seq<u32>), _>(e) && final(ctx).byteorder == old(ctx).byteorder
                && seq_extends(final(ctx).buf@, old(ctx).buf@) && seq_extends(
                final(ctx).fds@,
                old(ctx).fds@,
            ),
        },
    decreases p, 1int,
{
    match p {
        Container::Array(arr) => marshal_array(arr, ctx),
        Container::Struct(ps) => {
            let ghost bo = old(ctx).byteorder;
            let ghost off = old(ctx).buf@.len() as int;
            pad_to_align(8, &mut ctx.buf);
            let ghost pre = ctx.buf@;
            proof {
                assert(decreases_to!(*p => ps@));
            }
            match marshal_elements(ps, ctx) {
                Ok(_) => {},
                Err(e) => {
                    proof {
                        assert(spec_marshal_elements(
                            params_view(ps@),
                            bo,
                            pre.len() as int,
                            old(ctx).fds@,
                        ) == Err::<(Seq<u8>, Seq<u32>), _>(e));
                        assert(seq_extends(pre, old(ctx).buf@)) by {
                            assert(pre.subrange(0, old(ctx).buf@.len() as int) =~= old(
                                ctx,
                            ).buf@);
                        }
                        lemma_seq_extends_trans(old(ctx).buf@, pre, ctx.buf@);
                    }
                    return Err(e);
                },
            }
            proof {
                let eres = spec_marshal_elements(
                    params_view(ps@),
                    bo,
                    pre.len() as int,
                    old(ctx).fds@,
                )->Ok_0;
                assert(final(ctx).buf@ =~= old(ctx).buf@ + (zeros(pad_len(8, off)) + eres.0));
            }
            Ok(())
        },
        Container::Dict(dict) => marshal_dict(dict, ctx),
        Container::Variant(inner) => marshal_variant(inner, ctx),
    }
}

/// Pad to the value's alignment and append its wire form.
pub fn marshal_param(p: &Param, ctx: &mut MarshalContext) -> (r: Result<(), MarshalError>)
    ensures
        match r {
            Ok(_) => {
                &&& spec_marshal_param(
                    p@,
                    old(ctx).byteorder,
                    old(ctx).buf@.len() as int,
                    old(ctx).fds@,
                ) matches Ok(res)
                &&& final(ctx).buf@ == old(ctx).buf@ + res.0
                &&& final(ctx).fds@ == res.1
                &&& final(ctx).byteorder == old(ctx).byteorder
            },
            Err(e) => spec_marshal_param(
                p@,
                old(ctx).byteorder,
                old(ctx).buf@.len() as int,
                old(ctx).fds@,
            ) == Err::<(Seq<u8>, Seq<u32>), _>(e) && final(ctx).byteorder == old(ctx).byteorder
                && seq_extends(final(ctx).buf@, old(ctx).buf@) && seq_extends(
                final(ctx).fds@,
                old(ctx).fds@,
            ),
        },
    decreases p, 0int,
{
    match p {
        Param::Base(b) => marshal_base_param(b, ctx),
        Param::Container(c) => marshal_container_param(c, ctx),
    }
}

/// What the whole-value entry point appends: the value's derived
/// signature is validated first, so a malformed or too deeply nested
/// value is rejected before any byte is written.
pub open spec fn spec_marshal(p: ParamV, bo: ByteOrder, off: int, fds: Seq<u32>) -> Result<
    (Seq<u8>, Seq<u32>),
    MarshalError,
> {
    match signature::spec_parse_description(signature::type_chars(params::param_sig(p))) {
        Err(e) => Err(MarshalError::Signature(e)),
        Ok(_) => spec_marshal_param(p, bo, off, fds),
    }
}

/// Validate the value's derived signature, then pad to its alignment and
/// append its wire form.
pub fn marshal(p: &Param, ctx: &mut MarshalContext) -> (r: Result<(), MarshalError>)
    ensures
        match r {
            Ok(_) => {
                &&& spec_marshal(
                    p@,
                    old(ctx).byteorder,
                    old(ctx).buf@.len() as int,
                    old(ctx).fds@,
                ) matches Ok(res)
                &&& final(ctx).buf@ == old(ctx).buf@ + res.0
                &&& final(ctx).fds@ == res.1
                &&& final(ctx).byteorder == old(ctx).byteorder
            },
            Err(e) => spec_marshal(
                p@,
                old(ctx).byteorder,
                old(ctx).buf@.len() as int,
                old(ctx).fds@,
            ) == Err::<(Seq<u8>, Seq<u32>), _>(e) && final(ctx).byteorder == old(ctx).byteorder
                && seq_extends(final(ctx).buf@, old(ctx).buf@) && seq_extends(
                final(ctx).fds@,
                old(ctx).fds@,
            ),
        },
{
    let sig_type = p.sig();
    let mut sig_str = String::new();
    sig_type.to_str(&mut sig_str);
    proof {
        assert(sig_str@ =~= signature::type_chars(params::param_sig(p@)));
    }
    match signature::Type::parse_description(sig_str.as_str()) {
        Ok(_) => {},
        Err(e) => {
            proof {
                lemma_seq_extends_refl(ctx.buf@);
                lemma_seq_extends_refl(ctx.fds@);
            }
            return Err(MarshalError::Signature(e));
        },
    }
    marshal_param(p, ctx)
}

/// The derived signature of a well-formed, within-limits value is
/// accepted by the signature parser and parses back to exactly that
/// signature.
pub proof fn lemma_sig_of_value_parses(p: ParamV)
    requires
        signature::wf_type(params::param_sig(p)),
        signature::type_depth_ok(params::param_sig(p)),
        signature::type_chars(params::param_sig(p)).len() <= 255,
    ensures
        signature::spec_parse_description(signature::type_chars(params::param_sig(p)))
            == Ok::<_, signature::Error>(seq![params::param_sig(p)]),
{
    let t = params::param_sig(p);
    let ts = seq![t];
    assert(ts.len() == 1);
    assert(ts[0] == t);
    assert(ts.subrange(1, ts.len() as int) =~= Seq::<TypeV>::empty());
    assert(signature::wf_types(Seq::<TypeV>::empty()));
    assert(signature::types_chars(Seq::<TypeV>::empty()) == Seq::<char>::empty());
    assert(signature::types_struct_depth(Seq::<TypeV>::empty()) == 0);
    assert(signature::types_array_depth(Seq::<TypeV>::empty()) == 0);
    assert(signature::wf_types(ts));
    assert(signature::types_struct_depth(ts) == signature::type_struct_depth(t));
    assert(signature::types_array_depth(ts) == signature::type_array_depth(t));
    assert(signature::types_chars(ts) =~= signature::type_chars(t));
    signature::lemma_parse_format_roundtrip(ts);
}

/// A value whose type nests deeper than the limit is rejected by the
/// whole-value entry point with the nesting error, as long as its
/// signature is otherwise well formed and fits the length limit.
pub proof fn lemma_deep_value_rejected(p: ParamV, bo: ByteOrder, off: int, fds: Seq<u32>)
    requires
        signature::wf_type(params::param_sig(p)),
        !signature::type_depth_ok(params::param_sig(p)),
        signature::type_chars(params::param_sig(p)).len() <= 255,
    ensures
        spec_marshal(p, bo, off, fds) == Err::<(Seq<u8>, Seq<u32>), _>(
            MarshalError::Signature(signature::Error::NestingTooDeep),
        ),
{
    let t = params::param_sig(p);
    let ts = seq![t];
    let s = signature::type_chars(t);
    assert(ts.len() == 1);
    assert(ts[0] == t);
    assert(ts.subrange(1, ts.len() as int) =~= Seq::<TypeV>::empty());
    assert(signature::wf_types(Seq::<TypeV>::empty()));
    assert(signature::types_chars(Seq::<TypeV>::empty()) == Seq::<char>::empty());
    assert(signature::types_struct_depth(Seq::<TypeV>::empty()) == 0);
    assert(signature::types_array_depth(Seq::<TypeV>::empty()) == 0);
    assert(signature::wf_types(ts));
    assert(signature::types_chars(ts) =~= s);
    signature::lemma_types_chars_ascii(ts);
    vstd::utf8::is_ascii_chars_encode_utf8(s);
    signature::lemma_parse_types_complete(ts);
    assert(signature::types_struct_depth(ts) == signature::type_struct_depth(t));
    assert(signature::types_array_depth(ts) == signature::type_array_depth(t));
    assert(s.len() > 0) by {
        signature::lemma_type_chars_len(t);
    }
}

/// Offsets that agree modulo eight need the same padding for every wire
/// alignment.
proof fn lemma_pad_len_mod8(a: int, off1: int, off2: int)
    requires
        a == 1 || a == 2 || a == 4 || a == 8,
        off1 >= 0,
        off2 >= 0,
        off1 % 8 == off2 % 8,
    ensures
        pad_len(a, off1) == pad_len(a, off2),
{
    let k = 8int / a;
    assert(8 == a * k);
    vstd::arithmetic::div_mod::lemma_mod_mod(off1, a, k);
    vstd::arithmetic::div_mod::lemma_mod_mod(off2, a, k);
    assert(off1 % a == (off1 % 8) % a);
    assert(off2 % a == (off2 % 8) % a);
}

/// Congruence modulo eight survives advancing both offsets by the same
/// amount.
proof fn lemma_mod8_step(off1: int, off2: int, d: int)
    requires
        off1 % 8 == off2 % 8,
    ensures
        (off1 + d) % 8 == (off2 + d) % 8,
{
    vstd::arithmetic::div_mod::lemma_add_mod_noop(off1, d, 8);
    vstd::arithmetic::div_mod::lemma_add_mod_noop(off2, d, 8);
    assert((off1 % 8 + d % 8) % 8 == (off2 % 8 + d % 8) % 8);
}

/// How a value marshals depends on the starting offset only through its
/// remainder modulo eight: at congruent offsets the same error comes, or
/// byte strings of the same length and fd tables of the same length.
pub proof fn lemma_marshal_len_param(
    p: ParamV,
    bo: ByteOrder,
    off1: int,
    off2: int,
    fds1: Seq<u32>,
    fds2: Seq<u32>,
)
    requires
        off1 >= 0,
        off2 >= 0,
        off1 % 8 == off2 % 8,
        fds1.len() == fds2.len(),
    ensures
        match (spec_marshal_param(p, bo, off1, fds1), spec_marshal_param(p, bo, off2, fds2)) {
            (Ok((b1, f1)), Ok((b2, f2))) => b1.len() == b2.len() && f1.len() == f2.len(),
            (Err(e1), Err(e2)) => e1 == e2,
            _ => false,
        },
    decreases p, 1int,
{
    match p {
        ParamV::Base(b) => {
            lemma_pad_len_mod8(
                signature::base_alignment(params::base_sig(b)) as int,
                off1,
                off2,
            );
        },
        ParamV::Container(c) => {
            lemma_marshal_len_container(c, bo, off1, off2, fds1, fds2);
        },
    }
}

/// [`lemma_marshal_len_param`], for container values.
#[verifier::rlimit(100)]
proof fn lemma_marshal_len_container(
    c: ContainerV,
    bo: ByteOrder,
    off1: int,
    off2: int,
    fds1: Seq<u32>,
    fds2: Seq<u32>,
)
    requires
        off1 >= 0,
        off2 >= 0,
        off1 % 8 == off2 % 8,
        fds1.len() == fds2.len(),
    ensures
        match (
            spec_marshal_container(c, bo, off1, fds1),
            spec_marshal_container(c, bo, off2, fds2),
        ) {
            (Ok((b1, f1)), Ok((b2, f2))) => b1.len() == b2.len() && f1.len() == f2.len(),
            (Err(e1), Err(e2)) => e1 == e2,
            _ => false,
        },
    decreases c, 0int,
{
    match c {
        ContainerV::Array { element_sig, values } => {
            let p1a = pad_len(4, off1);
            let p1b = pad_len(4, off2);
            lemma_pad_len_mod8(4, off1, off2);
            crate::wire_util::lemma_pad_len(4, off1);
            lemma_mod8_step(off1, off2, p1a + 4);
            let s1 = off1 + p1a + 4;
            let s2 = off2 + p1b + 4;
            let al = signature::type_alignment(element_sig) as int;
            assert(al == 1 || al == 2 || al == 4 || al == 8);
            lemma_pad_len_mod8(al, s1, s2);
            crate::wire_util::lemma_pad_len(al, s1);
            lemma_mod8_step(s1, s2, pad_len(al, s1));
            lemma_marshal_len_elements(
                values,
                bo,
                s1 + pad_len(al, s1),
                s2 + pad_len(al, s2),
                fds1,
                fds2,
            );
        },
        ContainerV::Struct(ps) => {
            lemma_pad_len_mod8(8, off1, off2);
            crate::wire_util::lemma_pad_len(8, off1);
            lemma_mod8_step(off1, off2, pad_len(8, off1));
            lemma_marshal_len_elements(
                ps,
                bo,
                off1 + pad_len(8, off1),
                off2 + pad_len(8, off2),
                fds1,
                fds2,
            );
        },
        ContainerV::Dict { key_sig, value_sig, map } => {
            let p1a = pad_len(4, off1);
            lemma_pad_len_mod8(4, off1, off2);
            crate::wire_util::lemma_pad_len(4, off1);
            lemma_mod8_step(off1, off2, p1a + 4);
            let s1 = off1 + p1a + 4;
            let s2 = off2 + pad_len(4, off2) + 4;
            lemma_pad_len_mod8(8, s1, s2);
            crate::wire_util::lemma_pad_len(8, s1);
            lemma_mod8_step(s1, s2, pad_len(8, s1));
            lemma_marshal_len_entries(
                map,
                bo,
                s1 + pad_len(8, s1),
                s2 + pad_len(8, s2),
                fds1,
                fds2,
            );
        },
        ContainerV::Variant(inner) => {
            let sig_chars = signature::type_chars(params::param_sig(*inner));
            match signature::spec_parse_description(sig_chars) {
                Err(_) => {},
                Ok(_) => {
                    let sb = signature_wire_bytes(encode_utf8(sig_chars));
                    lemma_mod8_step(off1, off2, sb.len() as int);
                    let al = signature::type_alignment(params::param_sig(*inner)) as int;
                    assert(al == 1 || al == 2 || al == 4 || al == 8);
                    let s1 = off1 + sb.len();
                    let s2 = off2 + sb.len();
                    lemma_pad_len_mod8(al, s1, s2);
                    crate::wire_util::lemma_pad_len(al, s1);
                    lemma_mod8_step(s1, s2, pad_len(al, s1));
                    lemma_marshal_len_param(
                        *inner,
                        bo,
                        s1 + pad_len(al, s1),
                        s2 + pad_len(al, s2),
                        fds1,
                        fds2,
                    );
                },
            }
        },
    }
}

/// [`lemma_marshal_len_param`], for a run of values.
proof fn lemma_marshal_len_elements(
    ps: Seq<ParamV>,
    bo: ByteOrder,
    off1: int,
    off2: int,
    fds1: Seq<u32>,
    fds2: Seq<u32>,
)
    requires
        off1 >= 0,
        off2 >= 0,
        off1 % 8 == off2 % 8,
        fds1.len() == fds2.len(),
    ensures
        match (
            spec_marshal_elements(ps, bo, off1, fds1),
            spec_marshal_elements(ps, bo, off2, fds2),
        ) {
            (Ok((b1, f1)), Ok((b2, f2))) => b1.len() == b2.len() && f1.len() == f2.len(),
            (Err(e1), Err(e2)) => e1 == e2,
            _ => false,
        },
    decreases ps, 2int,
{
    if ps.len() > 0 {
        lemma_marshal_len_param(ps[0], bo, off1, off2, fds1, fds2);
        match (spec_marshal_param(ps[0], bo, off1, fds1), spec_marshal_param(
            ps[0],
            bo,
            off2,
            fds2,
        )) {
            (Ok((b1, f1)), Ok((b2, f2))) => {
                lemma_mod8_step(off1, off2, b1.len() as int);
                lemma_marshal_len_elements(
                    ps.subrange(1, ps.len() as int),
                    bo,
                    off1 + b1.len(),
                    off2 + b2.len(),
                    f1,
                    f2,
                );
            },
            _ => {},
        }
    }
}

/// [`lemma_marshal_len_param`], for a run of dict entries.
proof fn lemma_marshal_len_entries(
    map: Seq<(BaseV, ParamV)>,
    bo: ByteOrder,
    off1: int,
    off2: int,
    fds1: Seq<u32>,
    fds2: Seq<u32>,
)
    requires
        off1 >= 0,
        off2 >= 0,
        off1 % 8 == off2 % 8,
        fds1.len() == fds2.len(),
    ensures
        match (
            spec_marshal_entries(map, bo, off1, fds1),
            spec_marshal_entries(map, bo, off2, fds2),
        ) {
            (Ok((b1, f1)), Ok((b2, f2))) => b1.len() == b2.len() && f1.len() == f2.len(),
            (Err(e1), Err(e2)) => e1 == e2,
            _ => false,
        },
    decreases map, 2int,
{
    if map.len() > 0 {
        let p1 = pad_len(8, off1);
        let p2 = pad_len(8, off2);
        lemma_pad_len_mod8(8, off1, off2);
        crate::wire_util::lemma_pad_len(8, off1);
        lemma_mod8_step(off1, off2, p1);
        let ka = signature::base_alignment(params::base_sig(map[0].0)) as int;
        lemma_pad_len_mod8(ka, off1 + p1, off2 + p2);
        match (spec_marshal_base(map[0].0, bo, off1 + p1, fds1), spec_marshal_base(
            map[0].0,
            bo,
            off2 + p2,
            fds2,
        )) {
            (Ok((kb1, fk1)), Ok((kb2, fk2))) => {
                assert(kb1.len() == kb2.len());
                assert(fk1.len() == fk2.len());
                lemma_mod8_step(off1 + p1, off2 + p2, kb1.len() as int);
                lemma_marshal_len_param(
                    map[0].1,
                    bo,
                    off1 + p1 + kb1.len(),
                    off2 + p2 + kb2.len(),
                    fk1,
                    fk2,
                );
                match (spec_marshal_param(map[0].1, bo, off1 + p1 + kb1.len(), fk1), spec_marshal_param(
                    map[0].1,
                    bo,
                    off2 + p2 + kb2.len(),
                    fk2,
                )) {
                    (Ok((vb1, fv1)), Ok((vb2, fv2))) => {
                        lemma_mod8_step(off1 + p1 + kb1.len(), off2 + p2 + kb2.len(), vb1.len() as int);
                        lemma_marshal_len_entries(
                            map.subrange(1, map.len() as int),
                            bo,
                            off1 + p1 + kb1.len() + vb1.len(),
                            off2 + p2 + kb2.len() + vb2.len(),
                            fv1,
                            fv2,
                        );
                    },
                    _ => {},
                }
            },
            _ => {},
        }
    }
}

/// When an array marshals successfully, its encoded payload is at most
/// the array-size cap; larger payloads give ValueTooLarge instead.
pub proof fn lemma_array_payload_capped(
    element_sig: TypeV,
    values: Seq<ParamV>,
    bo: ByteOrder,
    off: int,
    fds: Seq<u32>,
)
    ensures
        ({
            let c = ContainerV::Array { element_sig, values };
            let pad1 = pad_len(4, off);
            let pad2 = pad_len(signature::type_alignment(element_sig) as int, off + pad1 + 4);
            match spec_marshal_container(c, bo, off, fds) {
                Ok((bytes, _)) => bytes.len() - pad1 - 4 - pad2 <= max_array_len(),
                Err(_) => true,
            }
        }),
        (spec_marshal_container(ContainerV::Array { element_sig, values }, bo, off, fds) matches
            Ok((bytes, _)) ==> spec_marshal_elements(
            values,
            bo,
            off + pad_len(4, off) + 4 + pad_len(
                signature::type_alignment(element_sig) as int,
                off + pad_len(4, off) + 4,
            ),
            fds,
        ) matches Ok(p2) && p2.0.len() <= max_array_len()),
{
    crate::wire_util::lemma_int_bytes_roundtrip(bo);
}

/// Marshalling only ever appends to the fd table: the table out is an
/// extension of the table in.
pub proof fn lemma_marshal_fds_prefix_param(p: ParamV, bo: ByteOrder, off: int, fds: Seq<u32>)
    requires
        spec_marshal_param(p, bo, off, fds) is Ok,
    ensures
        ({
            let out = spec_marshal_param(p, bo, off, fds)->Ok_0.1;
            out.len() >= fds.len() && out.subrange(0, fds.len() as int) == fds
        }),
    decreases p, 1int,
{
    match p {
        ParamV::Base(b) => {
            let out = spec_marshal_base(b, bo, off, fds)->Ok_0.1;
            if b is UnixFd {
                assert(out.subrange(0, fds.len() as int) =~= fds);
            } else {
                assert(out.subrange(0, fds.len() as int) =~= fds);
            }
        },
        ParamV::Container(c) => {
            lemma_marshal_fds_prefix_container(c, bo, off, fds);
        },
    }
}

/// [`lemma_marshal_fds_prefix_param`], for container values.
proof fn lemma_marshal_fds_prefix_container(c: ContainerV, bo: ByteOrder, off: int, fds: Seq<u32>)
    requires
        spec_marshal_container(c, bo, off, fds) is Ok,
    ensures
        ({
            let out = spec_marshal_container(c, bo, off, fds)->Ok_0.1;
            out.len() >= fds.len() && out.subrange(0, fds.len() as int) == fds
        }),
    decreases c, 0int,
{
    match c {
        ContainerV::Array { element_sig, values } => {
            let pad1 = pad_len(4, off);
            let off1 = off + pad1 + 4;
            let pad2 = pad_len(signature::type_alignment(element_sig) as int, off1);
            lemma_marshal_fds_prefix_elements(values, bo, off1 + pad2, fds);
        },
        ContainerV::Struct(ps) => {
            lemma_marshal_fds_prefix_elements(ps, bo, off + pad_len(8, off), fds);
        },
        ContainerV::Dict { key_sig, value_sig, map } => {
            let pad1 = pad_len(4, off);
            let off1 = off + pad1 + 4;
            let pad2 = pad_len(8, off1);
            lemma_marshal_fds_prefix_entries(map, bo, off1 + pad2, fds);
        },
        ContainerV::Variant(inner) => {
            let sig_chars = signature::type_chars(params::param_sig(*inner));
            match signature::spec_parse_description(sig_chars) {
                Err(_) => {},
                Ok(_) => {
                    let sb = signature_wire_bytes(encode_utf8(sig_chars));
                    let off1 = off + sb.len();
                    let pad = pad_len(
                        signature::type_alignment(params::param_sig(*inner)) as int,
                        off1,
                    );
                    lemma_marshal_fds_prefix_param(*inner, bo, off1 + pad, fds);
                },
            }
        },
    }
}

/// [`lemma_marshal_fds_prefix_param`], for a run of values.
pub proof fn lemma_marshal_fds_prefix_elements(
    ps: Seq<ParamV>,
    bo: ByteOrder,
    off: int,
    fds: Seq<u32>,
)
    requires
        spec_marshal_elements(ps, bo, off, fds) is Ok,
    ensures
        ({
            let out = spec_marshal_elements(ps, bo, off, fds)->Ok_0.1;
            out.len() >= fds.len() && out.subrange(0, fds.len() as int) == fds
        }),
    decreases ps, 2int,
{
    if ps.len() == 0 {
        let out = spec_marshal_elements(ps, bo, off, fds)->Ok_0.1;
        assert(out.subrange(0, fds.len() as int) =~= fds);
    } else {
        lemma_marshal_fds_prefix_param(ps[0], bo, off, fds);
        let (b0, f0) = spec_marshal_param(ps[0], bo, off, fds)->Ok_0;
        lemma_marshal_fds_prefix_elements(
            ps.subrange(1, ps.len() as int),
            bo,
            off + b0.len(),
            f0,
        );
        let out = spec_marshal_elements(ps, bo, off, fds)->Ok_0.1;
        assert(out.subrange(0, f0.len() as int).subrange(0, fds.len() as int) =~= out.subrange(
            0,
            fds.len() as int,
        ));
    }
}

/// [`lemma_marshal_fds_prefix_param`], for a run of dict entries.
pub proof fn lemma_marshal_fds_prefix_entries(
    map: Seq<(BaseV, ParamV)>,
    bo: ByteOrder,
    off: int,
    fds: Seq<u32>,
)
    requires
        spec_marshal_entries(map, bo, off, fds) is Ok,
    ensures
        ({
            let out = spec_marshal_entries(map, bo, off, fds)->Ok_0.1;
            out.len() >= fds.len() && out.subrange(0, fds.len() as int) == fds
        }),
    decreases map, 2int,
{
    if map.len() == 0 {
        let out = spec_marshal_entries(map, bo, off, fds)->Ok_0.1;
        assert(out.subrange(0, fds.len() as int) =~= fds);
    } else {
        let pad = pad_len(8, off);
        let (kb, fk) = spec_marshal_base(map[0].0, bo, off + pad, fds)->Ok_0;
        assert(fk.len() >= fds.len() && fk.subrange(0, fds.len() as int) =~= fds);
        lemma_marshal_fds_prefix_param(map[0].1, bo, off + pad + kb.len(), fk);
        let (vb, fv) = spec_marshal_param(map[0].1, bo, off + pad + kb.len(), fk)->Ok_0;
        lemma_marshal_fds_prefix_entries(
            map.subrange(1, map.len() as int),
            bo,
            off + pad + kb.len() + vb.len(),
            fv,
        );
        let out = spec_marshal_entries(map, bo, off, fds)->Ok_0.1;
        assert(out.subrange(0, fv.len() as int).subrange(0, fk.len() as int) =~= out.subrange(
            0,
            fk.len() as int,
        ));
        assert(out.subrange(0, fk.len() as int).subrange(0, fds.len() as int) =~= out.subrange(
            0,
            fds.len() as int,
        ));
    }
}

/// A well-formed value always writes at least one byte.
pub proof fn lemma_marshal_min_len(p: ParamV, bo: ByteOrder, off: int, fds: Seq<u32>)
    requires
        params::param_wf(p),
        spec_marshal_param(p, bo, off, fds) is Ok,
    ensures
        spec_marshal_param(p, bo, off, fds)->Ok_0.0.len() >= 1,
    decreases p, 1int,
{
    crate::wire_util::lemma_int_bytes_roundtrip(bo);
    match p {
        ParamV::Base(b) => {
            match b {
                BaseV::Byte(_) => {},
                BaseV::Boolean(_) => {},
                BaseV::Int16(_) => {},
                BaseV::Uint16(_) => {},
                BaseV::Int32(_) => {},
                BaseV::Uint32(_) => {},
                BaseV::UnixFd(_) => {},
                BaseV::Int64(_) => {},
                BaseV::Uint64(_) => {},
                BaseV::Double(_) => {},
                BaseV::String(_) => {},
                BaseV::ObjectPath(_) => {},
                BaseV::Signature(_) => {},
            }
        },
        ParamV::Container(c) => match c {
            ContainerV::Array { element_sig, values } => {},
            ContainerV::Dict { key_sig, value_sig, map } => {},
            ContainerV::Variant(inner) => {},
            ContainerV::Struct(ps) => {
                assert(params::params_wf(ps));
                assert(params::param_wf(ps[0]));
                let pad = pad_len(8, off);
                assert(spec_marshal_elements(ps, bo, off + pad, fds) is Ok);
                assert(spec_marshal_param(ps[0], bo, off + pad, fds) is Ok);
                lemma_marshal_min_len(ps[0], bo, off + pad, fds);
            },
        },
    }
}

/// Marshalling starts by paying exactly the value's alignment tax: the
/// written bytes open with that many zeros, and what follows is the
/// value's own encoding.
pub proof fn lemma_marshal_alignment(p: ParamV, bo: ByteOrder, off: int, fds: Seq<u32>)
    requires
        off >= 0,
        spec_marshal_param(p, bo, off, fds) is Ok,
    ensures
        ({
            let bytes = spec_marshal_param(p, bo, off, fds)->Ok_0.0;
            let pad = pad_len(signature::type_alignment(params::param_sig(p)) as int, off);
            bytes.len() >= pad && bytes.subrange(0, pad) == zeros(pad)
        }),
{
    let bytes = spec_marshal_param(p, bo, off, fds)->Ok_0.0;
    let a = signature::type_alignment(params::param_sig(p)) as int;
    let pad = pad_len(a, off);
    crate::wire_util::lemma_pad_len(a, off);
    match p {
        ParamV::Base(b) => {
            assert(bytes.subrange(0, pad) =~= zeros(pad));
        },
        ParamV::Container(c) => {
            match c {
                ContainerV::Array { element_sig, values } => {
                    assert(bytes.subrange(0, pad) =~= zeros(pad));
                },
                ContainerV::Struct(ps) => {
                    assert(bytes.subrange(0, pad) =~= zeros(pad));
                },
                ContainerV::Dict { key_sig, value_sig, map } => {
                    assert(bytes.subrange(0, pad) =~= zeros(pad));
                },
                ContainerV::Variant(inner) => {
                    assert(pad == 0);
                    assert(bytes.subrange(0, 0) =~= zeros(0));
                },
            }
        },
    }
}

} // verus!
