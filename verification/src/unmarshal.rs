//! Decoding a byte buffer back into values: a one-shot recursive decoder
//! and pull-based iterators that walk a buffer guided by a signature.

use vstd::prelude::*;
use vstd::utf8::{valid_utf8, decode_utf8};
use crate::ByteOrder;
use crate::errors::UnmarshalError;
use crate::params;
use crate::params::{BaseV, ParamV};
use crate::signature;
use crate::signature::{TypeV, ContainerV};
use crate::wire_util::{
    pad_len, zeros, spec_align_offset, spec_u16_from_bytes, spec_u32_from_bytes,
    spec_u64_from_bytes,
};

verus! {

/// Decoding a length-prefixed text: a `u32` byte count, that many bytes,
/// and a NUL. Returns the consumed size and the payload bytes.
pub open spec fn spec_read_string_frame(bo: ByteOrder, buf: Seq<u8>, off: int) -> Result<
    (int, Seq<u8>),
    UnmarshalError,
> {
    if off + 4 > buf.len() {
        Err(UnmarshalError::NotEnoughBytes)
    } else {
        let n = spec_u32_from_bytes(bo, buf.subrange(off, off + 4)) as int;
        if off + 4 + n + 1 > buf.len() {
            Err(UnmarshalError::NotEnoughBytes)
        } else {
            Ok((4 + n + 1, buf.subrange(off + 4, off + 4 + n)))
        }
    }
}

/// Decoding a signature frame: a one-byte count, that many bytes, and a
/// NUL. Returns the consumed size and the payload bytes.
pub open spec fn spec_read_signature_frame(buf: Seq<u8>, off: int) -> Result<
    (int, Seq<u8>),
    UnmarshalError,
> {
    if off + 1 > buf.len() {
        Err(UnmarshalError::NotEnoughBytes)
    } else {
        let n = buf[off] as int;
        if off + 1 + n + 1 > buf.len() {
            Err(UnmarshalError::NotEnoughBytes)
        } else {
            Ok((1 + n + 1, buf.subrange(off + 1, off + 1 + n)))
        }
    }
}

/// What decoding a base value of kind `k` at `off` yields: the consumed
/// size, padding included, and the value.
#[verifier::opaque]
pub open spec fn spec_unmarshal_base(
    k: signature::Base,
    bo: ByteOrder,
    buf: Seq<u8>,
    fds: Seq<u32>,
    off: int,
) -> Result<(int, BaseV), UnmarshalError> {
    match spec_align_offset(signature::base_alignment(k) as int, buf, off) {
        Err(e) => Err(e),
        Ok(p) => {
            let off1 = off + p;
            match k {
                signature::Base::Byte => if off1 + 1 <= buf.len() {
                    Ok((p + 1, BaseV::Byte(buf[off1])))
                } else {
                    Err(UnmarshalError::NotEnoughBytes)
                },
                signature::Base::Boolean => if off1 + 4 <= buf.len() {
                    let v = spec_u32_from_bytes(bo, buf.subrange(off1, off1 + 4));
                    if v == 0 {
                        Ok((p + 4, BaseV::Boolean(false)))
                    } else if v == 1 {
                        Ok((p + 4, BaseV::Boolean(true)))
                    } else {
                        Err(UnmarshalError::InvalidBoolean)
                    }
                } else {
                    Err(UnmarshalError::NotEnoughBytes)
                },
                signature::Base::Int16 => if off1 + 2 <= buf.len() {
                    Ok(
                        (
                            p + 2,
                            BaseV::Int16(
                                spec_u16_from_bytes(bo, buf.subrange(off1, off1 + 2)) as i16,
                            ),
                        ),
                    )
                } else {
                    Err(UnmarshalError::NotEnoughBytes)
                },
                signature::Base::Uint16 => if off1 + 2 <= buf.len() {
                    Ok((p + 2, BaseV::Uint16(spec_u16_from_bytes(bo, buf.subrange(off1, off1 + 2)))))
                } else {
                    Err(UnmarshalError::NotEnoughBytes)
                },
                signature::Base::Int32 => if off1 + 4 <= buf.len() {
                    Ok(
                        (
                            p + 4,
                            BaseV::Int32(
                                spec_u32_from_bytes(bo, buf.subrange(off1, off1 + 4)) as i32,
                            ),
                        ),
                    )
                } else {
                    Err(UnmarshalError::NotEnoughBytes)
                },
                signature::Base::Uint32 => if off1 + 4 <= buf.len() {
                    Ok((p + 4, BaseV::Uint32(spec_u32_from_bytes(bo, buf.subrange(off1, off1 + 4)))))
                } else {
                    Err(UnmarshalError::NotEnoughBytes)
                },
                signature::Base::UnixFd => if off1 + 4 <= buf.len() {
                    let idx = spec_u32_from_bytes(bo, buf.subrange(off1, off1 + 4));
                    if idx < fds.len() {
                        Ok((p + 4, BaseV::UnixFd(fds[idx as int])))
                    } else {
                        Err(UnmarshalError::UnixFdIndexOutOfRange)
                    }
                } else {
                    Err(UnmarshalError::NotEnoughBytes)
                },
                signature::Base::Int64 => if off1 + 8 <= buf.len() {
                    Ok(
                        (
                            p + 8,
                            BaseV::Int64(
                                spec_u64_from_bytes(bo, buf.subrange(off1, off1 + 8)) as i64,
                            ),
                        ),
                    )
                } else {
                    Err(UnmarshalError::NotEnoughBytes)
                },
                signature::Base::Uint64 => if off1 + 8 <= buf.len() {
                    Ok((p + 8, BaseV::Uint64(spec_u64_from_bytes(bo, buf.subrange(off1, off1 + 8)))))
                } else {
                    Err(UnmarshalError::NotEnoughBytes)
                },
                signature::Base::Double => if off1 + 8 <= buf.len() {
                    Ok((p + 8, BaseV::Double(spec_u64_from_bytes(bo, buf.subrange(off1, off1 + 8)))))
                } else {
                    Err(UnmarshalError::NotEnoughBytes)
                },
                signature::Base::String => match spec_read_string_frame(bo, buf, off1) {
                    Err(e) => Err(e),
                    Ok((n, payload)) => if buf[off1 + n - 1] != 0 || !valid_utf8(payload) {
                        Err(UnmarshalError::InvalidUtf8)
                    } else {
                        Ok((p + n, BaseV::String(decode_utf8(payload))))
                    },
                },
                signature::Base::ObjectPath => match spec_read_string_frame(bo, buf, off1) {
                    Err(e) => Err(e),
                    Ok((n, payload)) => if buf[off1 + n - 1] != 0 || !valid_utf8(payload) {
                        Err(UnmarshalError::InvalidUtf8)
                    } else if !params::valid_object_path(payload) {
                        Err(UnmarshalError::InvalidObjectPath)
                    } else {
                        Ok((p + n, BaseV::ObjectPath(decode_utf8(payload))))
                    },
                },
                signature::Base::Signature => match spec_read_signature_frame(buf, off1) {
                    Err(e) => Err(e),
                    Ok((n, payload)) => if buf[off1 + n - 1] != 0 || !valid_utf8(payload) {
                        Err(UnmarshalError::InvalidSignature)
                    } else if !(signature::spec_parse_description(decode_utf8(payload)) is Ok) {
                        Err(UnmarshalError::InvalidSignature)
                    } else {
                        Ok((p + n, BaseV::Signature(decode_utf8(payload))))
                    },
                },
            }
        },
    }
}

/// What decoding a value of type `t` at `off` yields: the consumed size,
/// padding included, and the value.
pub open spec fn spec_unmarshal_param(
    t: TypeV,
    bo: ByteOrder,
    buf: Seq<u8>,
    fds: Seq<u32>,
    off: int,
) -> Result<(int, ParamV), UnmarshalError>
    decreases buf.len() - off, t, 1int,
{
    match t {
        TypeV::Base(k) => match spec_unmarshal_base(k, bo, buf, fds, off) {
            Err(e) => Err(e),
            Ok((n, v)) => Ok((n, ParamV::Base(v))),
        },
        TypeV::Container(c) => spec_unmarshal_container(c, bo, buf, fds, off),
    }
}

/// What decoding a container of shape `c` at `off` yields.
pub open spec fn spec_unmarshal_container(
    c: ContainerV,
    bo: ByteOrder,
    buf: Seq<u8>,
    fds: Seq<u32>,
    off: int,
) -> Result<(int, ParamV), UnmarshalError>
    decreases buf.len() - off, c, 0int,
{
    match c {
        ContainerV::Array(el) => match spec_align_offset(4, buf, off) {
            Err(e) => Err(e),
            Ok(p1) => if off + p1 + 4 > buf.len() {
                Err(UnmarshalError::NotEnoughBytes)
            } else {
                let n = spec_u32_from_bytes(bo, buf.subrange(off + p1, off + p1 + 4)) as int;
                if n > crate::marshal::max_array_len() {
                    Err(UnmarshalError::ArraySizeTooLarge)
                } else {
                    let off2 = off + p1 + 4;
                    match spec_align_offset(signature::type_alignment(*el) as int, buf, off2) {
                        Err(e) => Err(e),
                        Ok(p2) => {
                            let start = off2 + p2;
                            if start + n > buf.len() {
                                Err(UnmarshalError::NotEnoughBytes)
                            } else {
                                match spec_unmarshal_array_elems(
                                    *el,
                                    bo,
                                    buf,
                                    fds,
                                    start,
                                    start + n,
                                ) {
                                    Err(e) => Err(e),
                                    Ok(vs) => Ok(
                                        (
                                            p1 + 4 + p2 + n,
                                            ParamV::Container(
                                                params::ContainerV::Array {
                                                    element_sig: *el,
                                                    values: vs,
                                                },
                                            ),
                                        ),
                                    ),
                                }
                            }
                        },
                    }
                }
            },
        },
        ContainerV::Dict(k, vt) => match spec_align_offset(4, buf, off) {
            Err(e) => Err(e),
            Ok(p1) => if off + p1 + 4 > buf.len() {
                Err(UnmarshalError::NotEnoughBytes)
            } else {
                let n = spec_u32_from_bytes(bo, buf.subrange(off + p1, off + p1 + 4)) as int;
                if n > crate::marshal::max_array_len() {
                    Err(UnmarshalError::ArraySizeTooLarge)
                } else {
                    let off2 = off + p1 + 4;
                    match spec_align_offset(8, buf, off2) {
                        Err(e) => Err(e),
                        Ok(p2) => {
                            let start = off2 + p2;
                            if start + n > buf.len() {
                                Err(UnmarshalError::NotEnoughBytes)
                            } else {
                                match spec_unmarshal_dict_entries(
                                    k,
                                    *vt,
                                    bo,
                                    buf,
                                    fds,
                                    start,
                                    start + n,
                                ) {
                                    Err(e) => Err(e),
                                    Ok(entries) => Ok(
                                        (
                                            p1 + 4 + p2 + n,
                                            ParamV::Container(
                                                params::ContainerV::Dict {
                                                    key_sig: k,
                                                    value_sig: *vt,
                                                    map: entries,
                                                },
                                            ),
                                        ),
                                    ),
                                }
                            }
                        },
                    }
                }
            },
        },
        ContainerV::Struct(ts) => match spec_align_offset(8, buf, off) {
            Err(e) => Err(e),
            Ok(p) => match spec_unmarshal_fields(ts, bo, buf, fds, off + p) {
                Err(e) => Err(e),
                Ok((n, vs)) => Ok((p + n, ParamV::Container(params::ContainerV::Struct(vs)))),
            },
        },
        ContainerV::Variant => match spec_read_signature_frame(buf, off) {
            Err(e) => Err(e),
            Ok((nsig, payload)) => if buf[off + nsig - 1] != 0 || !valid_utf8(payload) {
                Err(UnmarshalError::InvalidSignature)
            } else {
                match signature::spec_parse_description(decode_utf8(payload)) {
                    Err(signature::Error::NestingTooDeep) => Err(UnmarshalError::NestingTooDeep),
                    Err(_) => Err(UnmarshalError::InvalidSignature),
                    Ok(ts) => {
                        let t0 = ts[0];
                        match spec_align_offset(
                            signature::type_alignment(t0) as int,
                            buf,
                            off + nsig,
                        ) {
                            Err(e) => Err(e),
                            Ok(p) => match spec_unmarshal_param(t0, bo, buf, fds, off + nsig + p) {
                                Err(e) => Err(e),
                                Ok((n, v)) => Ok(
                                    (
                                        nsig + p + n,
                                        ParamV::Container(
                                            params::ContainerV::Variant(Box::new(v)),
                                        ),
                                    ),
                                ),
                            },
                        }
                    },
                }
            },
        },
    }
}

/// What decoding array elements of type `el` between `off` and `end`
/// yields. An element that would run past `end` is an error.
pub open spec fn spec_unmarshal_array_elems(
    el: TypeV,
    bo: ByteOrder,
    buf: Seq<u8>,
    fds: Seq<u32>,
    off: int,
    end: int,
) -> Result<Seq<ParamV>, UnmarshalError>
    decreases buf.len() - off, el, 2int,
{
    if off >= end {
        if off == end {
            Ok(Seq::empty())
        } else {
            Err(UnmarshalError::NotEnoughBytes)
        }
    } else {
        match spec_unmarshal_param(el, bo, buf, fds, off) {
            Err(e) => Err(e),
            Ok((n, v)) => if 1 <= n && off + n <= buf.len() {
                match spec_unmarshal_array_elems(el, bo, buf, fds, off + n, end) {
                    Err(e) => Err(e),
                    Ok(vs) => Ok(seq![v] + vs),
                }
            } else {
                Err(UnmarshalError::NotEnoughBytes)
            },
        }
    }
}

/// What decoding dict entries between `off` and `end` yields: each entry
/// starts on an 8-byte boundary and holds a key of kind `k` then a value
/// of type `vt`.
pub open spec fn spec_unmarshal_dict_entries(
    k: signature::Base,
    vt: TypeV,
    bo: ByteOrder,
    buf: Seq<u8>,
    fds: Seq<u32>,
    off: int,
    end: int,
) -> Result<Seq<(BaseV, ParamV)>, UnmarshalError>
    decreases buf.len() - off, vt, 2int,
{
    if off >= end {
        if off == end {
            Ok(Seq::empty())
        } else {
            Err(UnmarshalError::NotEnoughBytes)
        }
    } else {
        match spec_align_offset(8, buf, off) {
            Err(e) => Err(e),
            Ok(p) => match spec_unmarshal_base(k, bo, buf, fds, off + p) {
                Err(e) => Err(e),
                Ok((nk, kv)) => if 1 <= nk && off + p + nk <= buf.len() {
                    match spec_unmarshal_param(vt, bo, buf, fds, off + p + nk) {
                        Err(e) => Err(e),
                        Ok((nv, vv)) => if 1 <= nv && off + p + nk + nv <= buf.len() {
                            match spec_unmarshal_dict_entries(
                                k,
                                vt,
                                bo,
                                buf,
                                fds,
                                off + p + nk + nv,
                                end,
                            ) {
                                Err(e) => Err(e),
                                Ok(es) => Ok(seq![(kv, vv)] + es),
                            }
                        } else {
                            Err(UnmarshalError::NotEnoughBytes)
                        },
                    }
                } else {
                    Err(UnmarshalError::NotEnoughBytes)
                },
            },
        }
    }
}

/// What decoding the fields of a struct one after another yields: the
/// consumed size and the field values.
pub open spec fn spec_unmarshal_fields(
    ts: Seq<TypeV>,
    bo: ByteOrder,
    buf: Seq<u8>,
    fds: Seq<u32>,
    off: int,
) -> Result<(int, Seq<ParamV>), UnmarshalError>
    decreases buf.len() - off, ts, 2int,
{
    if ts.len() == 0 {
        Ok((0, Seq::empty()))
    } else {
        match spec_unmarshal_param(ts[0], bo, buf, fds, off) {
            Err(e) => Err(e),
            Ok((n, v)) => if 1 <= n && off + n <= buf.len() {
                match spec_unmarshal_fields(
                    ts.subrange(1, ts.len() as int),
                    bo,
                    buf,
                    fds,
                    off + n,
                ) {
                    Err(e) => Err(e),
                    Ok((n2, vs)) => Ok((n + n2, seq![v] + vs)),
                }
            } else {
                Err(UnmarshalError::NotEnoughBytes)
            },
        }
    }
}

/// Relies on std's str::from_utf8: it accepts exactly the valid UTF-8
/// byte sequences, and decodes them to their characters.
#[verifier::external_body]
fn bytes_to_string(v: &[u8]) -> (r: Option<String>)
    ensures
        match r {
            Some(s) => valid_utf8(v@) && s@ == decode_utf8(v@),
            None => !valid_utf8(v@),
        },
{
    match std::str::from_utf8(v) {
        Ok(s) => Some(s.to_owned()),
        Err(_) => None,
    }
}

/// Decode one base value of kind `k` at `offset`, padding included.
/// On success return how many bytes it took, and the value.
#[verifier::rlimit(100)]
pub fn unmarshal_base(
    k: signature::Base,
    byteorder: ByteOrder,
    source: &[u8],
    fds: &[u32],
    offset: usize,
) -> (r: Result<(usize, params::Base), UnmarshalError>)
    requires
        offset <= source@.len(),
    ensures
        match r {
            Ok((n, v)) => spec_unmarshal_base(k, byteorder, source@, fds@, offset as int) == Ok::<
                _,
                UnmarshalError,
            >((n as int, v@)) && 1 <= n && offset + n <= source@.len(),
            Err(e) => spec_unmarshal_base(k, byteorder, source@, fds@, offset as int) == Err::<
                (int, BaseV),
                _,
            >(e),
        },
{
    proof {
        reveal(spec_unmarshal_base);
    }
    let slen = source.len();
    let align = k.get_alignment();
    let p = match crate::wire_util::align_offset(align, source, offset) {
        Ok(p) => p,
        Err(e) => {
            return Err(e);
        },
    };
    let off1 = offset + p;
    match k {
        signature::Base::Byte => {
            if off1 >= slen {
                return Err(UnmarshalError::NotEnoughBytes);
            }
            Ok((p + 1, params::Base::Byte(source[off1])))
        },
        signature::Base::Boolean => {
            match crate::wire_util::parse_u32(slice_tail(source, off1), byteorder) {
                Err(e) => Err(e),
                Ok((_, v)) => {
                    proof {
                        lemma_tail_subrange(source@, off1 as int, 4);
                    }
                    if v == 0 {
                        Ok((p + 4, params::Base::Boolean(false)))
                    } else if v == 1 {
                        Ok((p + 4, params::Base::Boolean(true)))
                    } else {
                        Err(UnmarshalError::InvalidBoolean)
                    }
                },
            }
        },
        signature::Base::Int16 => {
            match crate::wire_util::parse_u16(slice_tail(source, off1), byteorder) {
                Err(e) => Err(e),
                Ok((_, v)) => {
                    proof {
                        lemma_tail_subrange(source@, off1 as int, 2);
                    }
                    Ok((p + 2, params::Base::Int16(v as i16)))
                },
            }
        },
        signature::Base::Uint16 => {
            match crate::wire_util::parse_u16(slice_tail(source, off1), byteorder) {
                Err(e) => Err(e),
                Ok((_, v)) => {
                    proof {
                        lemma_tail_subrange(source@, off1 as int, 2);
                    }
                    Ok((p + 2, params::Base::Uint16(v)))
                },
            }
        },
        signature::Base::Int32 => {
            match crate::wire_util::parse_u32(slice_tail(source, off1), byteorder) {
                Err(e) => Err(e),
                Ok((_, v)) => {
                    proof {
                        lemma_tail_subrange(source@, off1 as int, 4);
                    }
                    Ok((p + 4, params::Base::Int32(v as i32)))
                },
            }
        },
        signature::Base::Uint32 => {
            match crate::wire_util::parse_u32(slice_tail(source, off1), byteorder) {
                Err(e) => Err(e),
                Ok((_, v)) => {
                    proof {
                        lemma_tail_subrange(source@, off1 as int, 4);
                    }
                    Ok((p + 4, params::Base::Uint32(v)))
                },
            }
        },
        signature::Base::UnixFd => {
            match crate::wire_util::parse_u32(slice_tail(source, off1), byteorder) {
                Err(e) => Err(e),
                Ok((_, idx)) => {
                    proof {
                        lemma_tail_subrange(source@, off1 as int, 4);
                    }
                    if (idx as u64) < (fds.len() as u64) {
                        Ok((p + 4, params::Base::UnixFd(fds[idx as usize])))
                    } else {
                        Err(UnmarshalError::UnixFdIndexOutOfRange)
                    }
                },
            }
        },
        signature::Base::Int64 => {
            match crate::wire_util::parse_u64(slice_tail(source, off1), byteorder) {
                Err(e) => Err(e),
                Ok((_, v)) => {
                    proof {
                        lemma_tail_subrange(source@, off1 as int, 8);
                    }
                    Ok((p + 8, params::Base::Int64(v as i64)))
                },
            }
        },
        signature::Base::Uint64 => {
            match crate::wire_util::parse_u64(slice_tail(source, off1), byteorder) {
                Err(e) => Err(e),
                Ok((_, v)) => {
                    proof {
                        lemma_tail_subrange(source@, off1 as int, 8);
                    }
                    Ok((p + 8, params::Base::Uint64(v)))
                },
            }
        },
        signature::Base::Double => {
            match crate::wire_util::parse_u64(slice_tail(source, off1), byteorder) {
                Err(e) => Err(e),
                Ok((_, v)) => {
                    proof {
                        lemma_tail_subrange(source@, off1 as int, 8);
                    }
                    Ok((p + 8, params::Base::Double(v)))
                },
            }
        },
        signature::Base::String => {
            match read_string_payload(byteorder, source, off1) {
                Err(e) => Err(e),
                Ok((n, payload)) => {
                    match bytes_to_string(payload) {
                        Some(s) => Ok((p + n, params::Base::String(s))),
                        None => Err(UnmarshalError::InvalidUtf8),
                    }
                },
            }
        },
        signature::Base::ObjectPath => {
            match read_string_payload(byteorder, source, off1) {
                Err(e) => Err(e),
                Ok((n, payload)) => {
                    match bytes_to_string(payload) {
                        Some(s) => {
                            match params::validate_object_path(s.as_str()) {
                                Ok(_) => {
                                    proof {
                                        vstd::utf8::decode_utf8_encode_utf8(payload@);
                                    }
                                    Ok((p + n, params::Base::ObjectPath(s)))
                                },
                                Err(_) => {
                                    proof {
                                        vstd::utf8::decode_utf8_encode_utf8(payload@);
                                    }
                                    Err(UnmarshalError::InvalidObjectPath)
                                },
                            }
                        },
                        None => Err(UnmarshalError::InvalidUtf8),
                    }
                },
            }
        },
        signature::Base::Signature => {
            match read_signature_payload(source, off1) {
                Err(e) => Err(e),
                Ok((n, payload)) => {
                    match bytes_to_string(payload) {
                        Some(s) => {
                            match signature::Type::parse_description(s.as_str()) {
                                Ok(_) => Ok((p + n, params::Base::Signature(s))),
                                Err(_) => Err(UnmarshalError::InvalidSignature),
                            }
                        },
                        None => Err(UnmarshalError::InvalidSignature),
                    }
                },
            }
        },
    }
}

/// The part of `source` from `off` on.
fn slice_tail(source: &[u8], off: usize) -> (r: &[u8])
    requires
        off <= source@.len(),
    ensures
        r@ == source@.subrange(off as int, source@.len() as int),
{
    &source[off..source.len()]
}

/// A prefix of a tail of `source` is a subrange of it.
proof fn lemma_tail_subrange(s: Seq<u8>, off: int, w: int)
    requires
        0 <= off <= s.len(),
        0 <= w,
        off + w <= s.len(),
    ensures
        s.subrange(off, s.len() as int).subrange(0, w) == s.subrange(off, off + w),
        s.subrange(off, s.len() as int).len() == s.len() - off,
{
    assert(s.subrange(off, s.len() as int).subrange(0, w) =~= s.subrange(off, off + w));
}

/// Read a string frame at `off`: `u32` length, payload, NUL. On success
/// return the whole frame's size and the payload, checked to end in NUL.
fn read_string_payload<'a>(byteorder: ByteOrder, source: &'a [u8], off: usize) -> (r: Result<
    (usize, &'a [u8]),
    UnmarshalError,
>)
    requires
        off <= source@.len(),
    ensures
        match r {
            Ok((n, payload)) => {
                &&& spec_read_string_frame(byteorder, source@, off as int) == Ok::<
                    _,
                    UnmarshalError,
                >((n as int, payload@))
                &&& source@[off + n - 1] == 0
                &&& off + n <= source@.len()
                &&& n >= 5
            },
            Err(e) => {
                ||| spec_read_string_frame(byteorder, source@, off as int) == Err::<
                    (int, Seq<u8>),
                    _,
                >(e)
                ||| (spec_read_string_frame(byteorder, source@, off as int) matches Ok((n, _))
                    && source@[off + n - 1] != 0 && e == UnmarshalError::InvalidUtf8)
            },
        },
{
    let (_, len32) = match crate::wire_util::parse_u32(slice_tail(source, off), byteorder) {
        Ok(x) => x,
        Err(e) => {
            return Err(e);
        },
    };
    proof {
        lemma_tail_subrange(source@, off as int, 4);
    }
    let remaining = source.len() - (off + 4);
    if (len32 as u64) + 1 > (remaining as u64) {
        return Err(UnmarshalError::NotEnoughBytes);
    }
    let n = len32 as usize;
    if source[off + 4 + n] != 0 {
        return Err(UnmarshalError::InvalidUtf8);
    }
    let payload = &source[off + 4..off + 4 + n];
    Ok((4 + n + 1, payload))
}

/// Read a signature frame at `off`: one-byte length, payload, NUL. On
/// success return the whole frame's size and the payload, checked to end
/// in NUL.
fn read_signature_payload<'a>(source: &'a [u8], off: usize) -> (r: Result<
    (usize, &'a [u8]),
    UnmarshalError,
>)
    requires
        off <= source@.len(),
    ensures
        match r {
            Ok((n, payload)) => {
                &&& spec_read_signature_frame(source@, off as int) == Ok::<_, UnmarshalError>(
                    (n as int, payload@),
                )
                &&& source@[off + n - 1] == 0
                &&& off + n <= source@.len()
                &&& n >= 2
            },
            Err(e) => {
                ||| spec_read_signature_frame(source@, off as int) == Err::<(int, Seq<u8>), _>(e)
                ||| (spec_read_signature_frame(source@, off as int) matches Ok((n, _))
                    && source@[off + n - 1] != 0 && e == UnmarshalError::InvalidSignature)
            },
        },
{
    if off >= source.len() {
        return Err(UnmarshalError::NotEnoughBytes);
    }
    let n = source[off] as usize;
    let remaining = source.len() - (off + 1);
    if (n as u64) + 1 > (remaining as u64) {
        return Err(UnmarshalError::NotEnoughBytes);
    }
    if source[off + 1 + n] != 0 {
        return Err(UnmarshalError::InvalidSignature);
    }
    let payload = &source[off + 1..off + 1 + n];
    Ok((1 + n + 1, payload))
}

/// Prefix the items of a decoding result with already-decoded items.
pub open spec fn with_items<T>(vs0: Seq<T>, r: Result<Seq<T>, UnmarshalError>) -> Result<
    Seq<T>,
    UnmarshalError,
> {
    match r {
        Ok(vs) => Ok(vs0 + vs),
        Err(e) => Err(e),
    }
}

/// Prefixing no items changes nothing.
proof fn lemma_with_items_empty<T>(vs0: Seq<T>, r: Result<Seq<T>, UnmarshalError>)
    requires
        vs0.len() == 0,
    ensures
        with_items(vs0, r) == r,
{
    match r {
        Ok(vs) => {
            assert(vs0 + vs =~= vs);
        },
        Err(_) => {},
    }
}

/// Prefixes compose by concatenation.
proof fn lemma_with_items_assoc<T>(v1: Seq<T>, v2: Seq<T>, r: Result<Seq<T>, UnmarshalError>)
    ensures
        with_items(v1, with_items(v2, r)) == with_items(v1 + v2, r),
{
    match r {
        Ok(vs) => {
            assert(v1 + (v2 + vs) =~= (v1 + v2) + vs);
        },
        Err(_) => {},
    }
}

/// Prefix a field-decoding result with an already-consumed size and
/// already-decoded fields.
pub open spec fn with_fields(
    n0: int,
    vs0: Seq<ParamV>,
    r: Result<(int, Seq<ParamV>), UnmarshalError>,
) -> Result<(int, Seq<ParamV>), UnmarshalError> {
    match r {
        Ok((n, vs)) => Ok((n0 + n, vs0 + vs)),
        Err(e) => Err(e),
    }
}

/// Prefixing nothing changes nothing.
proof fn lemma_with_fields_empty(
    n0: int,
    vs0: Seq<ParamV>,
    r: Result<(int, Seq<ParamV>), UnmarshalError>,
)
    requires
        n0 == 0,
        vs0.len() == 0,
    ensures
        with_fields(n0, vs0, r) == r,
{
    match r {
        Ok((n, vs)) => {
            assert(vs0 + vs =~= vs);
        },
        Err(_) => {},
    }
}

/// Prefixes compose by addition and concatenation.
proof fn lemma_with_fields_assoc(
    n0: int,
    vs0: Seq<ParamV>,
    n1: int,
    vs1: Seq<ParamV>,
    r: Result<(int, Seq<ParamV>), UnmarshalError>,
)
    ensures
        with_fields(n0, vs0, with_fields(n1, vs1, r)) == with_fields(n0 + n1, vs0 + vs1, r),
{
    match r {
        Ok((n, vs)) => {
            assert(vs0 + (vs1 + vs) =~= (vs0 + vs1) + vs);
        },
        Err(_) => {},
    }
}

/// One decoded field moves the composition forward.
proof fn lemma_fields_step(
    ts: Seq<TypeV>,
    bo: ByteOrder,
    buf: Seq<u8>,
    fds: Seq<u32>,
    off: int,
    n: int,
    v: ParamV,
)
    requires
        ts.len() > 0,
        spec_unmarshal_param(ts[0], bo, buf, fds, off) == Ok::<_, UnmarshalError>((n, v)),
        1 <= n,
        off + n <= buf.len(),
    ensures
        spec_unmarshal_fields(ts, bo, buf, fds, off) == with_fields(
            n,
            seq![v],
            spec_unmarshal_fields(ts.subrange(1, ts.len() as int), bo, buf, fds, off + n),
        ),
{
}

/// One decoded array element moves the composition forward.
proof fn lemma_elems_step(
    el: TypeV,
    bo: ByteOrder,
    buf: Seq<u8>,
    fds: Seq<u32>,
    off: int,
    end: int,
    n: int,
    v: ParamV,
)
    requires
        off < end,
        spec_unmarshal_param(el, bo, buf, fds, off) == Ok::<_, UnmarshalError>((n, v)),
        1 <= n,
        off + n <= buf.len(),
    ensures
        spec_unmarshal_array_elems(el, bo, buf, fds, off, end) == with_items(
            seq![v],
            spec_unmarshal_array_elems(el, bo, buf, fds, off + n, end),
        ),
{
}

/// One decoded dict entry moves the composition forward.
proof fn lemma_dict_entries_step(
    k: signature::Base,
    vt: TypeV,
    bo: ByteOrder,
    buf: Seq<u8>,
    fds: Seq<u32>,
    off: int,
    end: int,
    p: int,
    nk: int,
    kv: BaseV,
    nv: int,
    vv: ParamV,
)
    requires
        off < end,
        spec_align_offset(8, buf, off) == Ok::<_, UnmarshalError>(p),
        spec_unmarshal_base(k, bo, buf, fds, off + p) == Ok::<_, UnmarshalError>((nk, kv)),
        1 <= nk,
        off + p + nk <= buf.len(),
        spec_unmarshal_param(vt, bo, buf, fds, off + p + nk) == Ok::<_, UnmarshalError>((nv, vv)),
        1 <= nv,
        off + p + nk + nv <= buf.len(),
    ensures
        spec_unmarshal_dict_entries(k, vt, bo, buf, fds, off, end) == with_items(
            seq![(kv, vv)],
            spec_unmarshal_dict_entries(k, vt, bo, buf, fds, off + p + nk + nv, end),
        ),
{
}

/// Decode the elements of an array between `*offset` and `end`.
#[verifier::rlimit(100)]
fn unmarshal_array_elems(
    el: &signature::Type,
    byteorder: ByteOrder,
    source: &[u8],
    fds: &[u32],
    offset: &mut usize,
    end: usize,
) -> (r: Result<Vec<params::Param>, UnmarshalError>)
    requires
        *old(offset) <= end <= source@.len(),
    ensures
        *old(offset) <= *final(offset) <= source@.len(),
        match r {
            Ok(vs) => spec_unmarshal_array_elems(
                el@,
                byteorder,
                source@,
                fds@,
                *old(offset) as int,
                end as int,
            ) == Ok::<_, UnmarshalError>(params::params_view(vs@)) && *final(offset) == end,
            Err(e) => spec_unmarshal_array_elems(
                el@,
                byteorder,
                source@,
                fds@,
                *old(offset) as int,
                end as int,
            ) == Err::<Seq<ParamV>, _>(e),
        },
    decreases source@.len() - *old(offset), el, 2int,
{
    let ghost off0 = *old(offset) as int;
    let mut out: Vec<params::Param> = Vec::new();
    proof {
        lemma_with_items_empty(
            params::params_view(out@),
            spec_unmarshal_array_elems(el@, byteorder, source@, fds@, off0, end as int),
        );
    }
    while *offset < end
        invariant
            *old(offset) <= *offset <= end <= source@.len(),
            off0 == *old(offset) as int,
            spec_unmarshal_array_elems(el@, byteorder, source@, fds@, off0, end as int)
                == with_items(
                params::params_view(out@),
                spec_unmarshal_array_elems(
                    el@,
                    byteorder,
                    source@,
                    fds@,
                    *offset as int,
                    end as int,
                ),
            ),
        decreases end - *offset,
    {
        let pre_off: usize = *offset;
        let ghost pre = *offset as int;
        let ghost out0 = out@;
        let v = match unmarshal_param(el, byteorder, source, fds, offset) {
            Ok(v) => v,
            Err(e) => {
                return Err(e);
            },
        };
        if *offset == pre_off || *offset > end {
            return Err(UnmarshalError::NotEnoughBytes);
        }
        proof {
            let n = *offset as int - pre;
            lemma_elems_step(el@, byteorder, source@, fds@, pre, end as int, n, v@);
            lemma_with_items_assoc(
                params::params_view(out0),
                seq![v@],
                spec_unmarshal_array_elems(
                    el@,
                    byteorder,
                    source@,
                    fds@,
                    *offset as int,
                    end as int,
                ),
            );
        }
        out.push(v);
        proof {
            params::lemma_params_view(out@);
            params::lemma_params_view(out0);
            assert(params::params_view(out@) =~= params::params_view(out0) + seq![v@]);
        }
    }
    proof {
        assert(spec_unmarshal_array_elems(
            el@,
            byteorder,
            source@,
            fds@,
            *offset as int,
            end as int,
        ) == Ok::<_, UnmarshalError>(Seq::<ParamV>::empty()));
        assert(params::params_view(out@) + Seq::<ParamV>::empty() =~= params::params_view(out@));
    }
    Ok(out)
}

/// Decode the dict entries between `*offset` and `end`.
#[verifier::rlimit(100)]
fn unmarshal_dict_entries(
    key_sig: signature::Base,
    val_sig: &signature::Type,
    byteorder: ByteOrder,
    source: &[u8],
    fds: &[u32],
    offset: &mut usize,
    end: usize,
) -> (r: Result<Vec<(params::Base, params::Param)>, UnmarshalError>)
    requires
        *old(offset) <= end <= source@.len(),
    ensures
        *old(offset) <= *final(offset) <= source@.len(),
        match r {
            Ok(es) => spec_unmarshal_dict_entries(
                key_sig,
                val_sig@,
                byteorder,
                source@,
                fds@,
                *old(offset) as int,
                end as int,
            ) == Ok::<_, UnmarshalError>(params::entries_view(es@)) && *final(offset) == end,
            Err(e) => spec_unmarshal_dict_entries(
                key_sig,
                val_sig@,
                byteorder,
                source@,
                fds@,
                *old(offset) as int,
                end as int,
            ) == Err::<Seq<(BaseV, ParamV)>, _>(e),
        },
    decreases source@.len() - *old(offset), val_sig, 2int,
{
    let ghost off0 = *old(offset) as int;
    let slen = source.len();
    let mut out: Vec<(params::Base, params::Param)> = Vec::new();
    proof {
        lemma_with_items_empty(
            params::entries_view(out@),
            spec_unmarshal_dict_entries(
                key_sig,
                val_sig@,
                byteorder,
                source@,
                fds@,
                off0,
                end as int,
            ),
        );
    }
    while *offset < end
        invariant
            *old(offset) <= *offset <= end <= source@.len(),
            source@.len() <= usize::MAX,
            off0 == *old(offset) as int,
            spec_unmarshal_dict_entries(
                key_sig,
                val_sig@,
                byteorder,
                source@,
                fds@,
                off0,
                end as int,
            ) == with_items(
                params::entries_view(out@),
                spec_unmarshal_dict_entries(
                    key_sig,
                    val_sig@,
                    byteorder,
                    source@,
                    fds@,
                    *offset as int,
                    end as int,
                ),
            ),
        decreases end - *offset,
    {
        let ghost pre = *offset as int;
        let ghost out0 = out@;
        let p = match crate::wire_util::align_offset(8, source, *offset) {
            Ok(p) => p,
            Err(e) => {
                return Err(e);
            },
        };
        let (nk, kv) = match unmarshal_base(key_sig, byteorder, source, fds, *offset + p) {
            Ok(x) => x,
            Err(e) => {
                return Err(e);
            },
        };
        *offset = *offset + p + nk;
        let mid_off: usize = *offset;
        let ghost mid = *offset as int;
        let vv = match unmarshal_param(val_sig, byteorder, source, fds, offset) {
            Ok(v) => v,
            Err(e) => {
                return Err(e);
            },
        };
        if *offset == mid_off || *offset > end {
            return Err(UnmarshalError::NotEnoughBytes);
        }
        proof {
            let nv = *offset as int - mid;
            lemma_dict_entries_step(
                key_sig,
                val_sig@,
                byteorder,
                source@,
                fds@,
                pre,
                end as int,
                p as int,
                nk as int,
                kv@,
                nv,
                vv@,
            );
            lemma_with_items_assoc(
                params::entries_view(out0),
                seq![(kv@, vv@)],
                spec_unmarshal_dict_entries(
                    key_sig,
                    val_sig@,
                    byteorder,
                    source@,
                    fds@,
                    *offset as int,
                    end as int,
                ),
            );
        }
        out.push((kv, vv));
        proof {
            params::lemma_entries_view(out@);
            params::lemma_entries_view(out0);
            assert(params::entries_view(out@) =~= params::entries_view(out0) + seq![(kv@, vv@)]);
        }
    }
    proof {
        assert(spec_unmarshal_dict_entries(
            key_sig,
            val_sig@,
            byteorder,
            source@,
            fds@,
            *offset as int,
            end as int,
        ) == Ok::<_, UnmarshalError>(Seq::<(BaseV, ParamV)>::empty()));
        assert(params::entries_view(out@) + Seq::<(BaseV, ParamV)>::empty() =~= params::entries_view(
            out@,
        ));
    }
    Ok(out)
}

/// Decode the fields of a struct one after another.
#[verifier::rlimit(100)]
fn unmarshal_fields(
    sig: &Vec<signature::Type>,
    byteorder: ByteOrder,
    source: &[u8],
    fds: &[u32],
    offset: &mut usize,
) -> (r: Result<Vec<params::Param>, UnmarshalError>)
    requires
        *old(offset) <= source@.len(),
    ensures
        *old(offset) <= *final(offset) <= source@.len(),
        match r {
            Ok(vs) => spec_unmarshal_fields(
                signature::types_view(sig@),
                byteorder,
                source@,
                fds@,
                *old(offset) as int,
            ) == Ok::<_, UnmarshalError>(
                ((*final(offset) - *old(offset)) as int, params::params_view(vs@)),
            ) && *old(offset) <= *final(offset) <= source@.len(),
            Err(e) => spec_unmarshal_fields(
                signature::types_view(sig@),
                byteorder,
                source@,
                fds@,
                *old(offset) as int,
            ) == Err::<(int, Seq<ParamV>), _>(e),
        },
    decreases source@.len() - *old(offset), sig@, 2int,
{
    let ghost off0 = *old(offset) as int;
    let ghost tsv = signature::types_view(sig@);
    let mut out: Vec<params::Param> = Vec::new();
    let mut i: usize = 0;
    proof {
        signature::lemma_types_view(sig@);
        assert(tsv.subrange(0, tsv.len() as int) =~= tsv);
        lemma_with_fields_empty(
            0,
            params::params_view(out@),
            spec_unmarshal_fields(tsv, byteorder, source@, fds@, off0),
        );
    }
    while i < sig.len()
        invariant
            i <= sig@.len(),
            tsv == signature::types_view(sig@),
            tsv.len() == sig@.len(),
            forall|j: int| 0 <= j < sig@.len() ==> #[trigger] tsv[j] == sig@[j]@,
            off0 == *old(offset) as int,
            *old(offset) <= *offset <= source@.len(),
            out@.len() == i,
            spec_unmarshal_fields(tsv, byteorder, source@, fds@, off0) == with_fields(
                *offset - *old(offset),
                params::params_view(out@),
                spec_unmarshal_fields(
                    tsv.subrange(i as int, tsv.len() as int),
                    byteorder,
                    source@,
                    fds@,
                    *offset as int,
                ),
            ),
        decreases sig@.len() - i,
    {
        let pre_off: usize = *offset;
        let ghost pre = *offset as int;
        let ghost out0 = out@;
        let ghost suffix = tsv.subrange(i as int, tsv.len() as int);
        proof {
            assert(decreases_to!(sig@ => sig@[i as int]));
            assert(suffix[0] == sig@[i as int]@);
            assert(suffix.subrange(1, suffix.len() as int) =~= tsv.subrange(
                i as int + 1,
                tsv.len() as int,
            ));
        }
        let v = match unmarshal_param(&sig[i], byteorder, source, fds, offset) {
            Ok(v) => v,
            Err(e) => {
                return Err(e);
            },
        };
        if *offset == pre_off {
            return Err(UnmarshalError::NotEnoughBytes);
        }
        out.push(v);
        i = i + 1;
        proof {
            let n = *offset as int - pre;
            lemma_fields_step(suffix, byteorder, source@, fds@, pre, n, v@);
            lemma_with_fields_assoc(
                pre - off0,
                params::params_view(out0),
                n,
                seq![v@],
                spec_unmarshal_fields(
                    tsv.subrange(i as int, tsv.len() as int),
                    byteorder,
                    source@,
                    fds@,
                    *offset as int,
                ),
            );
            params::lemma_params_view(out@);
            params::lemma_params_view(out0);
            assert(params::params_view(out@) =~= params::params_view(out0) + seq![v@]);
        }
    }
    proof {
        assert(tsv.subrange(sig@.len() as int, tsv.len() as int) =~= Seq::<TypeV>::empty());
        assert(spec_unmarshal_fields(
            tsv.subrange(sig@.len() as int, tsv.len() as int),
            byteorder,
            source@,
            fds@,
            *offset as int,
        ) == Ok::<_, UnmarshalError>((0int, Seq::<ParamV>::empty())));
        assert(params::params_view(out@) + Seq::<ParamV>::empty() =~= params::params_view(out@));
    }
    Ok(out)
}

/// Decode one value of type `t` at `*offset`, padding included, advancing
/// `*offset` past it.
#[verifier::rlimit(100)]
pub fn unmarshal_param(
    t: &signature::Type,
    byteorder: ByteOrder,
    source: &[u8],
    fds: &[u32],
    offset: &mut usize,
) -> (r: Result<params::Param, UnmarshalError>)
    requires
        *old(offset) <= source@.len(),
    ensures
        *old(offset) <= *final(offset) <= source@.len(),
        match r {
            Ok(v) => spec_unmarshal_param(
                t@,
                byteorder,
                source@,
                fds@,
                *old(offset) as int,
            ) == Ok::<_, UnmarshalError>(((*final(offset) - *old(offset)) as int, v@)) && *old(
                offset,
            ) <= *final(offset) <= source@.len(),
            Err(e) => spec_unmarshal_param(t@, byteorder, source@, fds@, *old(offset) as int)
                == Err::<(int, ParamV), _>(e),
        },
    decreases source@.len() - *old(offset), t, 1int,
{
    let slen = source.len();
    match t {
        signature::Type::Base(k) => {
            match unmarshal_base(*k, byteorder, source, fds, *offset) {
                Ok((n, v)) => {
                    *offset = *offset + n;
                    Ok(params::Param::Base(v))
                },
                Err(e) => Err(e),
            }
        },
        signature::Type::Container(c) => {
            match unmarshal_container(c, byteorder, source, fds, offset) {
                Ok(v) => Ok(v),
                Err(e) => Err(e),
            }
        },
    }
}

/// Decode one container of shape `c` at `*offset`, advancing `*offset`
/// past it.
#[verifier::rlimit(100)]
#[verifier::spinoff_prover]
fn unmarshal_container(
    c: &signature::Container,
    byteorder: ByteOrder,
    source: &[u8],
    fds: &[u32],
    offset: &mut usize,
) -> (r: Result<params::Param, UnmarshalError>)
    requires
        *old(offset) <= source@.len(),
    ensures
        *old(offset) <= *final(offset) <= source@.len(),
        match r {
            Ok(v) => spec_unmarshal_container(
                c@,
                byteorder,
                source@,
                fds@,
                *old(offset) as int,
            ) == Ok::<_, UnmarshalError>(((*final(offset) - *old(offset)) as int, v@)) && *old(
                offset,
            ) <= *final(offset) <= source@.len(),
            Err(e) => spec_unmarshal_container(c@, byteorder, source@, fds@, *old(offset) as int)
                == Err::<(int, ParamV), _>(e),
        },
    decreases source@.len() - *old(offset), c, 0int,
{
    let slen = source.len();
    let ghost off0 = *old(offset) as int;
    match c {
        signature::Container::Array(el) => unmarshal_array(el, byteorder, source, fds, offset),
        signature::Container::Dict(k, vt) => unmarshal_dict(*k, vt, byteorder, source, fds, offset),
        signature::Container::Struct(st) => {
            let p = match crate::wire_util::align_offset(8, source, *offset) {
                Ok(p) => p,
                Err(e) => {
                    return Err(e);
                },
            };
            *offset = *offset + p;
            proof {
                assert(decreases_to!(*c => st.0@));
            }
            let fields = match unmarshal_fields(&st.0, byteorder, source, fds, offset) {
                Ok(vs) => vs,
                Err(e) => {
                    return Err(e);
                },
            };
            Ok(params::Param::Container(params::Container::Struct(fields)))
        },
        signature::Container::Variant => {
            let (nsig, payload) = match read_signature_payload(source, *offset) {
                Ok(x) => x,
                Err(e) => {
                    return Err(e);
                },
            };
            let s = match bytes_to_string(payload) {
                Some(s) => s,
                None => {
                    return Err(UnmarshalError::InvalidSignature);
                },
            };
            let types = match signature::Type::parse_description(s.as_str()) {
                Ok(ts) => ts,
                Err(signature::Error::NestingTooDeep) => {
                    return Err(UnmarshalError::NestingTooDeep);
                },
                Err(_) => {
                    return Err(UnmarshalError::InvalidSignature);
                },
            };
            proof {
                signature::lemma_types_view(types@);
                let chars = decode_utf8(payload@);
                assert(signature::spec_parse_description(chars) matches Ok(ts) && ts
                    == signature::types_view(types@));
                if chars.len() == 0 {
                    assert(signature::spec_parse_description(chars) is Err);
                }
                assert(signature::types_view(types@).len() > 0);
            }
            let t0 = &types[0];
            let p = match crate::wire_util::align_offset(
                t0.get_alignment(),
                source,
                *offset + nsig,
            ) {
                Ok(p) => p,
                Err(e) => {
                    return Err(e);
                },
            };
            *offset = *offset + nsig + p;
            let inner = match unmarshal_param(t0, byteorder, source, fds, offset) {
                Ok(v) => v,
                Err(e) => {
                    return Err(e);
                },
            };
            Ok(params::Param::Container(params::Container::Variant(Box::new(inner))))
        },
    }
}


/// Decode one array at `*offset`, advancing `*offset` past it.
#[verifier::rlimit(100)]
fn unmarshal_array(
    el: &signature::Type,
    byteorder: ByteOrder,
    source: &[u8],
    fds: &[u32],
    offset: &mut usize,
) -> (r: Result<params::Param, UnmarshalError>)
    requires
        *old(offset) <= source@.len(),
    ensures
        *old(offset) <= *final(offset) <= source@.len(),
        match r {
            Ok(v) => spec_unmarshal_container(
                ContainerV::Array(Box::new(el@)),
                byteorder,
                source@,
                fds@,
                *old(offset) as int,
            ) == Ok::<_, UnmarshalError>(((*final(offset) - *old(offset)) as int, v@)) && *old(
                offset,
            ) <= *final(offset) <= source@.len(),
            Err(e) => spec_unmarshal_container(
                ContainerV::Array(Box::new(el@)),
                byteorder,
                source@,
                fds@,
                *old(offset) as int,
            ) == Err::<(int, ParamV), _>(e),
        },
    decreases source@.len() - *old(offset), el, 3int,
{
    let slen = source.len();
    let ghost off0 = *old(offset) as int;

            let p1 = match crate::wire_util::align_offset(4, source, *offset) {
                Ok(p) => p,
                Err(e) => {
                    return Err(e);
                },
            };
            *offset = *offset + p1;
            let (_, len32) = match crate::wire_util::parse_u32(
                slice_tail(source, *offset),
                byteorder,
            ) {
                Ok(x) => x,
                Err(e) => {
                    proof {
                        lemma_tail_subrange(source@, *offset as int, 0);
                    }
                    return Err(e);
                },
            };
            proof {
                lemma_tail_subrange(source@, *offset as int, 4);
            }
            if len32 > 0x4000000 {
                return Err(UnmarshalError::ArraySizeTooLarge);
            }
            *offset = *offset + 4;
            let el_align = el.get_alignment();
            let p2 = match crate::wire_util::align_offset(el_align, source, *offset) {
                Ok(p) => p,
                Err(e) => {
                    return Err(e);
                },
            };
            *offset = *offset + p2;
            let n = len32 as usize;
            if (n as u64) > ((source.len() - *offset) as u64) {
                return Err(UnmarshalError::NotEnoughBytes);
            }
            let end = *offset + n;
            let values = match unmarshal_array_elems(el, byteorder, source, fds, offset, end) {
                Ok(vs) => vs,
                Err(e) => {
                    return Err(e);
                },
            };
            let element_sig = el.clone();
            Ok(
                params::Param::Container(
                    params::Container::Array(params::Array { element_sig, values }),
                ),
            )
}

/// Decode one dict at `*offset`, advancing `*offset` past it.
#[verifier::rlimit(100)]
fn unmarshal_dict(
    k: signature::Base,
    vt: &signature::Type,
    byteorder: ByteOrder,
    source: &[u8],
    fds: &[u32],
    offset: &mut usize,
) -> (r: Result<params::Param, UnmarshalError>)
    requires
        *old(offset) <= source@.len(),
    ensures
        *old(offset) <= *final(offset) <= source@.len(),
        match r {
            Ok(v) => spec_unmarshal_container(
                ContainerV::Dict(k, Box::new(vt@)),
                byteorder,
                source@,
                fds@,
                *old(offset) as int,
            ) == Ok::<_, UnmarshalError>(((*final(offset) - *old(offset)) as int, v@)) && *old(
                offset,
            ) <= *final(offset) <= source@.len(),
            Err(e) => spec_unmarshal_container(
                ContainerV::Dict(k, Box::new(vt@)),
                byteorder,
                source@,
                fds@,
                *old(offset) as int,
            ) == Err::<(int, ParamV), _>(e),
        },
    decreases source@.len() - *old(offset), vt, 3int,
{
    let slen = source.len();
    let ghost off0 = *old(offset) as int;

            let p1 = match crate::wire_util::align_offset(4, source, *offset) {
                Ok(p) => p,
                Err(e) => {
                    return Err(e);
                },
            };
            *offset = *offset + p1;
            let (_, len32) = match crate::wire_util::parse_u32(
                slice_tail(source, *offset),
                byteorder,
            ) {
                Ok(x) => x,
                Err(e) => {
                    proof {
                        lemma_tail_subrange(source@, *offset as int, 0);
                    }
                    return Err(e);
                },
            };
            proof {
                lemma_tail_subrange(source@, *offset as int, 4);
            }
            if len32 > 0x4000000 {
                return Err(UnmarshalError::ArraySizeTooLarge);
            }
            *offset = *offset + 4;
            let p2 = match crate::wire_util::align_offset(8, source, *offset) {
                Ok(p) => p,
                Err(e) => {
                    return Err(e);
                },
            };
            *offset = *offset + p2;
            let n = len32 as usize;
            if (n as u64) > ((source.len() - *offset) as u64) {
                return Err(UnmarshalError::NotEnoughBytes);
            }
            let end = *offset + n;
            let map = match unmarshal_dict_entries(k, vt, byteorder, source, fds, offset, end) {
                Ok(es) => es,
                Err(e) => {
                    return Err(e);
                },
            };
            let value_sig = vt.clone();
            Ok(
                params::Param::Container(
                    params::Container::Dict(
                        params::Dict { key_sig: k, value_sig, map },
                    ),
                ),
            )
}

/// Equality of a subrange gives equality at every index.
proof fn lemma_subrange_index(full: Seq<u8>, off: int, bytes: Seq<u8>)
    requires
        0 <= off,
        off + bytes.len() <= full.len(),
        full.subrange(off, off + bytes.len()) == bytes,
    ensures
        forall|i: int| off <= i < off + bytes.len() ==> #[trigger] full[i] == bytes[i - off],
{
    assert forall|i: int| off <= i < off + bytes.len() implies #[trigger] full[i] == bytes[i
        - off] by {
        assert(full.subrange(off, off + bytes.len())[i - off] == full[i]);
    }
}

/// Round trip for base values: decoding what the marshaller wrote, at the
/// same offset and in the same byte order, gives the value back and
/// consumes exactly the written bytes. The decoder may see any fd table
/// that extends the one the marshaller produced.
#[verifier::rlimit(100)]
pub proof fn lemma_base_roundtrip(
    b: BaseV,
    bo: ByteOrder,
    full: Seq<u8>,
    off: int,
    fds_tbl: Seq<u32>,
    decode_fds: Seq<u32>,
)
    requires
        crate::marshal::spec_marshal_base(b, bo, off, fds_tbl) is Ok,
        0 <= off,
        off + crate::marshal::spec_marshal_base(b, bo, off, fds_tbl)->Ok_0.0.len() <= full.len(),
        full.subrange(
            off,
            off + crate::marshal::spec_marshal_base(b, bo, off, fds_tbl)->Ok_0.0.len(),
        ) == crate::marshal::spec_marshal_base(b, bo, off, fds_tbl)->Ok_0.0,
        decode_fds.len() >= crate::marshal::spec_marshal_base(b, bo, off, fds_tbl)->Ok_0.1.len(),
        forall|j: int|
            fds_tbl.len() <= j < crate::marshal::spec_marshal_base(
                b,
                bo,
                off,
                fds_tbl,
            )->Ok_0.1.len() ==> decode_fds[j] == crate::marshal::spec_marshal_base(
                b,
                bo,
                off,
                fds_tbl,
            )->Ok_0.1[j],
    ensures
        spec_unmarshal_base(params::base_sig(b), bo, full, decode_fds, off) == Ok::<
            _,
            UnmarshalError,
        >((crate::marshal::spec_marshal_base(b, bo, off, fds_tbl)->Ok_0.0.len() as int, b)),
{
    reveal(spec_unmarshal_base);
    crate::wire_util::lemma_int_bytes_roundtrip(bo);
    let k = params::base_sig(b);
    let a = signature::base_alignment(k) as int;
    let (bytes, fds_out) = crate::marshal::spec_marshal_base(b, bo, off, fds_tbl)->Ok_0;
    let pad = pad_len(a, off);
    crate::wire_util::lemma_pad_len(a, off);
    lemma_subrange_index(full, off, bytes);
    assert(bytes.subrange(0, pad) =~= crate::wire_util::zeros(pad));
    assert forall|i: int| off <= i < off + pad implies full[i] == 0 by {
        assert(full[i] == bytes[i - off]);
        assert(bytes[i - off] == crate::wire_util::zeros(pad)[i - off]);
    }
    assert(spec_align_offset(a, full, off) == Ok::<_, UnmarshalError>(pad));
    let off1 = off + pad;
    match b {
        BaseV::Byte(v) => {
            assert(pad == 0);
            assert(bytes =~= seq![v]);
            assert(full[off1] == bytes[0]);
            assert(full[off1] == v);
            assert(off1 + 1 <= full.len());
            assert(spec_unmarshal_base(k, bo, full, decode_fds, off) == Ok::<_, UnmarshalError>(
                (pad + 1, BaseV::Byte(v)),
            ));
        },
        BaseV::Boolean(v) => {
            let payload = crate::wire_util::spec_u32_bytes(
                bo,
                if v {
                    1u32
                } else {
                    0u32
                },
            );
            assert(full.subrange(off1, off1 + 4) =~= payload);
        },
        BaseV::Int16(v) => {
            assert(full.subrange(off1, off1 + 2) =~= crate::wire_util::spec_u16_bytes(
                bo,
                v as u16,
            ));
            assert((v as u16) as i16 == v) by (bit_vector);
        },
        BaseV::Uint16(v) => {
            assert(full.subrange(off1, off1 + 2) =~= crate::wire_util::spec_u16_bytes(bo, v));
        },
        BaseV::Int32(v) => {
            assert(full.subrange(off1, off1 + 4) =~= crate::wire_util::spec_u32_bytes(
                bo,
                v as u32,
            ));
            assert((v as u32) as i32 == v) by (bit_vector);
        },
        BaseV::Uint32(v) => {
            assert(full.subrange(off1, off1 + 4) =~= crate::wire_util::spec_u32_bytes(bo, v));
        },
        BaseV::UnixFd(fd) => {
            let idx = fds_tbl.len() as u32;
            assert(full.subrange(off1, off1 + 4) =~= crate::wire_util::spec_u32_bytes(bo, idx));
            assert(fds_out == fds_tbl.push(fd));
            assert(decode_fds[fds_tbl.len() as int] == fds_out[fds_tbl.len() as int]);
            assert(fds_out[fds_tbl.len() as int] == fd);
        },
        BaseV::Int64(v) => {
            assert(full.subrange(off1, off1 + 8) =~= crate::wire_util::spec_u64_bytes(
                bo,
                v as u64,
            ));
            assert((v as u64) as i64 == v) by (bit_vector);
        },
        BaseV::Uint64(v) => {
            assert(full.subrange(off1, off1 + 8) =~= crate::wire_util::spec_u64_bytes(bo, v));
        },
        BaseV::Double(v) => {
            assert(full.subrange(off1, off1 + 8) =~= crate::wire_util::spec_u64_bytes(bo, v));
        },
        BaseV::String(s) => {
            lemma_base_roundtrip_text(b, bo, full, off, fds_tbl, decode_fds);
        },
        BaseV::ObjectPath(s) => {
            lemma_base_roundtrip_text(b, bo, full, off, fds_tbl, decode_fds);
        },
        BaseV::Signature(s) => {
            lemma_base_roundtrip_text(b, bo, full, off, fds_tbl, decode_fds);
        },
    }
}

/// The text cases of [`lemma_base_roundtrip`]: strings, object paths and
/// signature values.
#[verifier::rlimit(100)]
proof fn lemma_base_roundtrip_text(
    b: BaseV,
    bo: ByteOrder,
    full: Seq<u8>,
    off: int,
    fds_tbl: Seq<u32>,
    decode_fds: Seq<u32>,
)
    requires
        b is String || b is ObjectPath || b is Signature,
        crate::marshal::spec_marshal_base(b, bo, off, fds_tbl) is Ok,
        0 <= off,
        off + crate::marshal::spec_marshal_base(b, bo, off, fds_tbl)->Ok_0.0.len() <= full.len(),
        full.subrange(
            off,
            off + crate::marshal::spec_marshal_base(b, bo, off, fds_tbl)->Ok_0.0.len(),
        ) == crate::marshal::spec_marshal_base(b, bo, off, fds_tbl)->Ok_0.0,
    ensures
        spec_unmarshal_base(params::base_sig(b), bo, full, decode_fds, off) == Ok::<
            _,
            UnmarshalError,
        >((crate::marshal::spec_marshal_base(b, bo, off, fds_tbl)->Ok_0.0.len() as int, b)),
{
    reveal(spec_unmarshal_base);
    crate::wire_util::lemma_int_bytes_roundtrip(bo);
    let k = params::base_sig(b);
    let a = signature::base_alignment(k) as int;
    let (bytes, fds_out) = crate::marshal::spec_marshal_base(b, bo, off, fds_tbl)->Ok_0;
    let pad = pad_len(a, off);
    crate::wire_util::lemma_pad_len(a, off);
    lemma_subrange_index(full, off, bytes);
    assert(bytes.subrange(0, pad) =~= crate::wire_util::zeros(pad));
    assert forall|i: int| off <= i < off + pad implies full[i] == 0 by {
        assert(full[i] == bytes[i - off]);
        assert(bytes[i - off] == crate::wire_util::zeros(pad)[i - off]);
    }
    assert(spec_align_offset(a, full, off) == Ok::<_, UnmarshalError>(pad));
    let off1 = off + pad;
    match b {
        BaseV::String(s) => {
            let payload = vstd::utf8::encode_utf8(s);
            let n = payload.len() as int;
            assert(full.subrange(off1, off1 + 4) =~= crate::wire_util::spec_u32_bytes(
                bo,
                n as u32,
            ));
            assert(full.subrange(off1 + 4, off1 + 4 + n) =~= payload);
            assert(full[off1 + 4 + n] == bytes[pad + 4 + n]);
            assert(bytes[pad + 4 + n] == 0);
            vstd::utf8::encode_utf8_valid_utf8(s);
            vstd::utf8::encode_utf8_decode_utf8(s);
            assert(spec_read_string_frame(bo, full, off1) == Ok::<_, UnmarshalError>(
                (4 + n + 1, payload),
            ));
        },
        BaseV::ObjectPath(s) => {
            let payload = vstd::utf8::encode_utf8(s);
            let n = payload.len() as int;
            assert(full.subrange(off1, off1 + 4) =~= crate::wire_util::spec_u32_bytes(
                bo,
                n as u32,
            ));
            assert(full.subrange(off1 + 4, off1 + 4 + n) =~= payload);
            assert(full[off1 + 4 + n] == bytes[pad + 4 + n]);
            assert(bytes[pad + 4 + n] == 0);
            vstd::utf8::encode_utf8_valid_utf8(s);
            vstd::utf8::encode_utf8_decode_utf8(s);
            assert(spec_read_string_frame(bo, full, off1) == Ok::<_, UnmarshalError>(
                (4 + n + 1, payload),
            ));
        },
        BaseV::Signature(s) => {
            let payload = vstd::utf8::encode_utf8(s);
            let n = payload.len() as int;
            assert(signature::spec_parse_description(s) is Ok);
            assert(n <= 255);
            assert(full[off1] == bytes[pad]);
            assert(bytes[pad] == n as u8);
            assert(full.subrange(off1 + 1, off1 + 1 + n) =~= payload);
            assert(full[off1 + 1 + n] == bytes[pad + 1 + n]);
            assert(bytes[pad + 1 + n] == 0);
            vstd::utf8::encode_utf8_valid_utf8(s);
            vstd::utf8::encode_utf8_decode_utf8(s);
            assert(spec_read_signature_frame(full, off1) == Ok::<_, UnmarshalError>(
                (1 + n + 1, payload),
            ));
        },
        _ => {},
    }
}

/// The bytes of `buf` at `off` are exactly `bytes`.
pub open spec fn covers(full: Seq<u8>, off: int, bytes: Seq<u8>) -> bool {
    0 <= off && off + bytes.len() <= full.len() && full.subrange(off, off + bytes.len()) == bytes
}

/// `F` extends `out`: it is at least as long and agrees with it from `lo`
/// on.
pub open spec fn fds_extends(F: Seq<u32>, lo: int, out: Seq<u32>) -> bool {
    F.len() >= out.len() && forall|j: int| lo <= j < out.len() ==> F[j] == out[j]
}

/// Covering a concatenation covers each half at its own offset.
proof fn lemma_covers_split(full: Seq<u8>, off: int, b1: Seq<u8>, b2: Seq<u8>)
    requires
        covers(full, off, b1 + b2),
    ensures
        covers(full, off, b1),
        covers(full, off + b1.len(), b2),
{
    lemma_subrange_index(full, off, b1 + b2);
    assert forall|i: int| 0 <= i < b1.len() implies full.subrange(off, off + b1.len())[i] == b1[i]
        by {
        assert(full[off + i] == (b1 + b2)[i]);
    }
    assert(full.subrange(off, off + b1.len()) =~= b1);
    assert forall|i: int|
        0 <= i < b2.len() implies full.subrange(
            off + b1.len(),
            off + b1.len() + b2.len(),
        )[i] == b2[i] by {
        assert(full[off + b1.len() + i] == (b1 + b2)[b1.len() + i]);
    }
    assert(full.subrange(off + b1.len(), off + b1.len() + b2.len()) =~= b2);
}

/// Skipping the padding the marshaller wrote succeeds and skips exactly
/// that many bytes.
proof fn lemma_align_over_zeros(a: int, full: Seq<u8>, off: int, pad: int)
    requires
        a > 0,
        0 <= off,
        pad == pad_len(a, off),
        off + pad <= full.len(),
        full.subrange(off, off + pad) == zeros(pad),
    ensures
        spec_align_offset(a, full, off) == Ok::<_, UnmarshalError>(pad),
{
    crate::wire_util::lemma_pad_len(a, off);
    assert forall|i: int| off <= i < off + pad implies full[i] == 0 by {
        assert(full.subrange(off, off + pad)[i - off] == full[i]);
    }
}

/// An fd table extending a longer table extends its shorter prefixes.
proof fn lemma_fds_extends_prefix(F: Seq<u32>, lo: int, mid: Seq<u32>, out: Seq<u32>)
    requires
        0 <= lo,
        fds_extends(F, lo, out),
        mid.len() <= out.len(),
        out.subrange(0, mid.len() as int) == mid,
    ensures
        fds_extends(F, lo, mid),
{
    assert forall|j: int| lo <= j < mid.len() implies F[j] == mid[j] by {
        assert(F[j] == out[j]);
        assert(mid[j] == out.subrange(0, mid.len() as int)[j]);
        assert(out.subrange(0, mid.len() as int)[j] == out[j]);
    }
}

/// Round trip: decoding what the marshaller wrote for a well-formed
/// value, at the same offset, in the same byte order, and with any fd
/// table that extends the one the marshaller produced, gives the value
/// back and consumes exactly the written bytes.
#[verifier::rlimit(100)]
pub proof fn lemma_param_roundtrip(
    p: ParamV,
    bo: ByteOrder,
    full: Seq<u8>,
    off: int,
    fds_in: Seq<u32>,
    decode_fds: Seq<u32>,
)
    requires
        params::param_wf(p),
        crate::marshal::spec_marshal_param(p, bo, off, fds_in) is Ok,
        covers(full, off, crate::marshal::spec_marshal_param(p, bo, off, fds_in)->Ok_0.0),
        fds_extends(
            decode_fds,
            fds_in.len() as int,
            crate::marshal::spec_marshal_param(p, bo, off, fds_in)->Ok_0.1,
        ),
    ensures
        spec_unmarshal_param(params::param_sig(p), bo, full, decode_fds, off) == Ok::<
            _,
            UnmarshalError,
        >((crate::marshal::spec_marshal_param(p, bo, off, fds_in)->Ok_0.0.len() as int, p)),
    decreases p, 1int,
{
    match p {
        ParamV::Base(b) => {
            lemma_base_roundtrip(b, bo, full, off, fds_in, decode_fds);
        },
        ParamV::Container(c) => {
            lemma_container_roundtrip(c, bo, full, off, fds_in, decode_fds);
        },
    }
}

/// [`lemma_param_roundtrip`], for container values.
#[verifier::rlimit(100)]
proof fn lemma_container_roundtrip(
    c: params::ContainerV,
    bo: ByteOrder,
    full: Seq<u8>,
    off: int,
    fds_in: Seq<u32>,
    decode_fds: Seq<u32>,
)
    requires
        params::container_wf(c),
        crate::marshal::spec_marshal_container(c, bo, off, fds_in) is Ok,
        covers(full, off, crate::marshal::spec_marshal_container(c, bo, off, fds_in)->Ok_0.0),
        fds_extends(
            decode_fds,
            fds_in.len() as int,
            crate::marshal::spec_marshal_container(c, bo, off, fds_in)->Ok_0.1,
        ),
    ensures
        spec_unmarshal_container(
            params::container_sig(c),
            bo,
            full,
            decode_fds,
            off,
        ) == Ok::<_, UnmarshalError>(
            (
                crate::marshal::spec_marshal_container(c, bo, off, fds_in)->Ok_0.0.len() as int,
                ParamV::Container(c),
            ),
        ),
        decreases c, 0int,
{
    match c {
        params::ContainerV::Array { element_sig, values } => {
            lemma_container_roundtrip_array(c, bo, full, off, fds_in, decode_fds);
        },
        params::ContainerV::Struct(ps) => {
            lemma_container_roundtrip_struct(c, bo, full, off, fds_in, decode_fds);
        },
        params::ContainerV::Dict { key_sig, value_sig, map } => {
            lemma_container_roundtrip_dict(c, bo, full, off, fds_in, decode_fds);
        },
        params::ContainerV::Variant(inner) => {
            lemma_container_roundtrip_variant(c, bo, full, off, fds_in, decode_fds);
        },
    }
}

/// The signature frame a variant writes reads back to exactly the inner
/// type's signature, which parses to exactly that type.
#[verifier::rlimit(100)]
proof fn lemma_sig_frame_roundtrip(t: signature::TypeV, full: Seq<u8>, off: int)
    requires
        signature::wf_type(t),
        signature::spec_parse_description(signature::type_chars(t)) is Ok,
        covers(
            full,
            off,
            crate::marshal::signature_wire_bytes(
                vstd::utf8::encode_utf8(signature::type_chars(t)),
            ),
        ),
    ensures
        ({
            let sig_chars = signature::type_chars(t);
            let payload = vstd::utf8::encode_utf8(sig_chars);
            let sb = crate::marshal::signature_wire_bytes(payload);
            &&& spec_read_signature_frame(full, off) == Ok::<_, UnmarshalError>(
                (sb.len() as int, payload),
            )
            &&& full[off + sb.len() - 1] == 0
            &&& valid_utf8(payload)
            &&& decode_utf8(payload) == sig_chars
            &&& signature::spec_parse_description(decode_utf8(payload)) == Ok::<
                _,
                signature::Error,
            >(seq![t])
        }),
{
    let sig_chars = signature::type_chars(t);
    let payload = vstd::utf8::encode_utf8(sig_chars);
    let sb = crate::marshal::signature_wire_bytes(payload);
    let nsig = sb.len() as int;
    signature::lemma_type_chars_len(t);
    let ts = seq![t];
    assert(ts.len() == 1);
    assert(ts[0] == t);
    assert(ts.subrange(1, ts.len() as int) =~= Seq::<signature::TypeV>::empty());
    assert(signature::wf_types(Seq::<signature::TypeV>::empty()));
    assert(signature::types_chars(Seq::<signature::TypeV>::empty()) == Seq::<char>::empty());
    assert(signature::wf_types(ts));
    assert(signature::types_chars(ts) =~= sig_chars);
    signature::lemma_parse_types_complete(ts);
    signature::lemma_types_chars_ascii(ts);
    vstd::utf8::is_ascii_chars_encode_utf8(sig_chars);
    assert(payload.len() <= 255) by {
        assert(signature::spec_parse_description(sig_chars) is Ok);
    }
    lemma_subrange_index(full, off, sb);
    assert(nsig == 1 + payload.len() + 1);
    assert(full[off] == sb[0]);
    assert(sb[0] == payload.len() as u8);
    assert forall|i: int| 0 <= i < payload.len() implies full.subrange(
        off + 1,
        off + 1 + payload.len(),
    )[i] == payload[i] by {
        assert(full[off + 1 + i] == sb[1 + i]);
    }
    assert(full.subrange(off + 1, off + 1 + payload.len()) =~= payload);
    assert(full[off + 1 + payload.len()] == sb[nsig - 1]);
    assert(sb[nsig - 1] == 0);
    vstd::utf8::encode_utf8_valid_utf8(sig_chars);
    vstd::utf8::encode_utf8_decode_utf8(sig_chars);
}

/// The array case of the container round trip.
#[verifier::rlimit(100)]
proof fn lemma_container_roundtrip_array(
    c: params::ContainerV,
    bo: ByteOrder,
    full: Seq<u8>,
    off: int,
    fds_in: Seq<u32>,
    decode_fds: Seq<u32>,
)
    requires
        c is Array,
        params::container_wf(c),
        crate::marshal::spec_marshal_container(c, bo, off, fds_in) is Ok,
        covers(full, off, crate::marshal::spec_marshal_container(c, bo, off, fds_in)->Ok_0.0),
        fds_extends(
            decode_fds,
            fds_in.len() as int,
            crate::marshal::spec_marshal_container(c, bo, off, fds_in)->Ok_0.1,
        ),
    ensures
        spec_unmarshal_container(
            params::container_sig(c),
            bo,
            full,
            decode_fds,
            off,
        ) == Ok::<_, UnmarshalError>(
            (
                crate::marshal::spec_marshal_container(c, bo, off, fds_in)->Ok_0.0.len() as int,
                ParamV::Container(c),
            ),
        ),
    decreases c, 0int, 0int,
{
    crate::wire_util::lemma_int_bytes_roundtrip(bo);
    let (bytes, fds_out) = crate::marshal::spec_marshal_container(c, bo, off, fds_in)->Ok_0;
    lemma_subrange_index(full, off, bytes);
    match c {
        params::ContainerV::Array { element_sig, values } => {
            let pad1 = pad_len(4, off);
            crate::wire_util::lemma_pad_len(4, off);
            let off1 = off + pad1 + 4;
            let al = signature::type_alignment(element_sig) as int;
            let pad2 = pad_len(al, off1);
            crate::wire_util::lemma_pad_len(al, off1);
            let (payload, f2) = crate::marshal::spec_marshal_elements(
                values,
                bo,
                off1 + pad2,
                fds_in,
            )->Ok_0;
            let n = payload.len() as int;
            let lenb = crate::wire_util::spec_u32_bytes(bo, n as u32);
            assert(bytes =~= (zeros(pad1) + lenb) + (zeros(pad2) + payload));
            lemma_covers_split(full, off, zeros(pad1) + lenb, zeros(pad2) + payload);
            lemma_covers_split(full, off, zeros(pad1), lenb);
            lemma_covers_split(full, off1, zeros(pad2), payload);
            lemma_align_over_zeros(4, full, off, pad1);
            assert(full.subrange(off + pad1, off + pad1 + 4) =~= lenb);
            lemma_align_over_zeros(al, full, off1, pad2);
            lemma_elements_roundtrip(
                element_sig,
                values,
                bo,
                full,
                off1 + pad2,
                fds_in,
                decode_fds,
            );
            assert(spec_unmarshal_array_elems(
                element_sig,
                bo,
                full,
                decode_fds,
                off1 + pad2,
                off1 + pad2 + n,
            ) == Ok::<_, UnmarshalError>(values));
                },
        _ => {},
    }
}

/// The struct case of the container round trip.
#[verifier::rlimit(100)]
proof fn lemma_container_roundtrip_struct(
    c: params::ContainerV,
    bo: ByteOrder,
    full: Seq<u8>,
    off: int,
    fds_in: Seq<u32>,
    decode_fds: Seq<u32>,
)
    requires
        c is Struct,
        params::container_wf(c),
        crate::marshal::spec_marshal_container(c, bo, off, fds_in) is Ok,
        covers(full, off, crate::marshal::spec_marshal_container(c, bo, off, fds_in)->Ok_0.0),
        fds_extends(
            decode_fds,
            fds_in.len() as int,
            crate::marshal::spec_marshal_container(c, bo, off, fds_in)->Ok_0.1,
        ),
    ensures
        spec_unmarshal_container(
            params::container_sig(c),
            bo,
            full,
            decode_fds,
            off,
        ) == Ok::<_, UnmarshalError>(
            (
                crate::marshal::spec_marshal_container(c, bo, off, fds_in)->Ok_0.0.len() as int,
                ParamV::Container(c),
            ),
        ),
    decreases c, 0int, 0int,
{
    crate::wire_util::lemma_int_bytes_roundtrip(bo);
    let (bytes, fds_out) = crate::marshal::spec_marshal_container(c, bo, off, fds_in)->Ok_0;
    lemma_subrange_index(full, off, bytes);
    match c {
        params::ContainerV::Struct(ps) => {

            let pad = pad_len(8, off);
            crate::wire_util::lemma_pad_len(8, off);
            let (payload, f2) = crate::marshal::spec_marshal_elements(
                ps,
                bo,
                off + pad,
                fds_in,
            )->Ok_0;
            assert(bytes =~= zeros(pad) + payload);
            lemma_covers_split(full, off, zeros(pad), payload);
            lemma_align_over_zeros(8, full, off, pad);
            lemma_fields_roundtrip(ps, bo, full, off + pad, fds_in, decode_fds);
                },
        _ => {},
    }
}

/// The dict case of the container round trip.
#[verifier::rlimit(100)]
proof fn lemma_container_roundtrip_dict(
    c: params::ContainerV,
    bo: ByteOrder,
    full: Seq<u8>,
    off: int,
    fds_in: Seq<u32>,
    decode_fds: Seq<u32>,
)
    requires
        c is Dict,
        params::container_wf(c),
        crate::marshal::spec_marshal_container(c, bo, off, fds_in) is Ok,
        covers(full, off, crate::marshal::spec_marshal_container(c, bo, off, fds_in)->Ok_0.0),
        fds_extends(
            decode_fds,
            fds_in.len() as int,
            crate::marshal::spec_marshal_container(c, bo, off, fds_in)->Ok_0.1,
        ),
    ensures
        spec_unmarshal_container(
            params::container_sig(c),
            bo,
            full,
            decode_fds,
            off,
        ) == Ok::<_, UnmarshalError>(
            (
                crate::marshal::spec_marshal_container(c, bo, off, fds_in)->Ok_0.0.len() as int,
                ParamV::Container(c),
            ),
        ),
    decreases c, 0int, 0int,
{
    crate::wire_util::lemma_int_bytes_roundtrip(bo);
    let (bytes, fds_out) = crate::marshal::spec_marshal_container(c, bo, off, fds_in)->Ok_0;
    lemma_subrange_index(full, off, bytes);
    match c {
        params::ContainerV::Dict { key_sig, value_sig, map } => {
            let pad1 = pad_len(4, off);
            crate::wire_util::lemma_pad_len(4, off);
            let off1 = off + pad1 + 4;
            let pad2 = pad_len(8, off1);
            crate::wire_util::lemma_pad_len(8, off1);
            let (payload, f2) = crate::marshal::spec_marshal_entries(
                map,
                bo,
                off1 + pad2,
                fds_in,
            )->Ok_0;
            let n = payload.len() as int;
            let lenb = crate::wire_util::spec_u32_bytes(bo, n as u32);
            assert(bytes =~= (zeros(pad1) + lenb) + (zeros(pad2) + payload));
            lemma_covers_split(full, off, zeros(pad1) + lenb, zeros(pad2) + payload);
            lemma_covers_split(full, off, zeros(pad1), lenb);
            lemma_covers_split(full, off1, zeros(pad2), payload);
            lemma_align_over_zeros(4, full, off, pad1);
            assert(full.subrange(off + pad1, off + pad1 + 4) =~= lenb);
            lemma_align_over_zeros(8, full, off1, pad2);
            lemma_entries_roundtrip(
                key_sig,
                value_sig,
                map,
                bo,
                full,
                off1 + pad2,
                fds_in,
                decode_fds,
            );
                },
        _ => {},
    }
}

/// The variant case of the container round trip.
#[verifier::rlimit(100)]
#[verifier::spinoff_prover]
proof fn lemma_container_roundtrip_variant(
    c: params::ContainerV,
    bo: ByteOrder,
    full: Seq<u8>,
    off: int,
    fds_in: Seq<u32>,
    decode_fds: Seq<u32>,
)
    requires
        c is Variant,
        params::container_wf(c),
        crate::marshal::spec_marshal_container(c, bo, off, fds_in) is Ok,
        covers(full, off, crate::marshal::spec_marshal_container(c, bo, off, fds_in)->Ok_0.0),
        fds_extends(
            decode_fds,
            fds_in.len() as int,
            crate::marshal::spec_marshal_container(c, bo, off, fds_in)->Ok_0.1,
        ),
    ensures
        spec_unmarshal_container(
            params::container_sig(c),
            bo,
            full,
            decode_fds,
            off,
        ) == Ok::<_, UnmarshalError>(
            (
                crate::marshal::spec_marshal_container(c, bo, off, fds_in)->Ok_0.0.len() as int,
                ParamV::Container(c),
            ),
        ),
    decreases c, 0int, 0int,
{
    crate::wire_util::lemma_int_bytes_roundtrip(bo);
    let (bytes, fds_out) = crate::marshal::spec_marshal_container(c, bo, off, fds_in)->Ok_0;
    lemma_subrange_index(full, off, bytes);
    match c {
        params::ContainerV::Variant(inner) => {

            let t = params::param_sig(*inner);
            let sig_chars = signature::type_chars(t);
            let payload = vstd::utf8::encode_utf8(sig_chars);
            let sb = crate::marshal::signature_wire_bytes(payload);
            let al = signature::type_alignment(t) as int;
            let (vb, fv) = crate::marshal::spec_marshal_param(
                *inner,
                bo,
                off + sb.len() + pad_len(al, off + sb.len()),
                fds_in,
            )->Ok_0;
            let pad = pad_len(al, off + sb.len());
            crate::wire_util::lemma_pad_len(al, off + sb.len());
            assert(bytes =~= sb + (zeros(pad) + vb));
            lemma_covers_split(full, off, sb, zeros(pad) + vb);
            lemma_covers_split(full, off + sb.len(), zeros(pad), vb);
            let nsig = sb.len() as int;
            lemma_sig_frame_roundtrip(t, full, off);
            // Padding, then the inner value.
            lemma_align_over_zeros(al, full, off + nsig, pad);
            lemma_param_roundtrip(*inner, bo, full, off + nsig + pad, fds_in, decode_fds);
            assert(spec_unmarshal_param(t, bo, full, decode_fds, off + nsig + pad) == Ok::<
                _,
                UnmarshalError,
            >((vb.len() as int, *inner)));
            assert(bytes.len() == nsig + pad + vb.len());
            assert(spec_read_signature_frame(full, off) == Ok::<_, UnmarshalError>(
                (nsig, payload),
            ));
            assert(signature::spec_parse_description(decode_utf8(payload)) == Ok::<
                _,
                signature::Error,
            >(seq![t]));
            assert(seq![t][0] == t);
            assert(spec_align_offset(al, full, off + nsig) == Ok::<_, UnmarshalError>(pad));
        },
        _ => {},
    }
}

/// [`lemma_param_roundtrip`], for the elements of an array.
#[verifier::rlimit(100)]
proof fn lemma_elements_roundtrip(
    el_sig: signature::TypeV,
    values: Seq<ParamV>,
    bo: ByteOrder,
    full: Seq<u8>,
    start: int,
    fds_in: Seq<u32>,
    decode_fds: Seq<u32>,
)
    requires
        params::params_wf(values),
        params::array_valid(el_sig, values),
        crate::marshal::spec_marshal_elements(values, bo, start, fds_in) is Ok,
        covers(
            full,
            start,
            crate::marshal::spec_marshal_elements(values, bo, start, fds_in)->Ok_0.0,
        ),
        fds_extends(
            decode_fds,
            fds_in.len() as int,
            crate::marshal::spec_marshal_elements(values, bo, start, fds_in)->Ok_0.1,
        ),
    ensures
        spec_unmarshal_array_elems(
            el_sig,
            bo,
            full,
            decode_fds,
            start,
            start + crate::marshal::spec_marshal_elements(values, bo, start, fds_in)->Ok_0.0.len(),
        ) == Ok::<_, UnmarshalError>(values),
    decreases values, 2int,
{
    let (payload, fds_out) = crate::marshal::spec_marshal_elements(values, bo, start, fds_in)->Ok_0;
    if values.len() == 0 {
        assert(values =~= Seq::<ParamV>::empty());
    } else {
        let (b0, f0) = crate::marshal::spec_marshal_param(values[0], bo, start, fds_in)->Ok_0;
        let rest = values.subrange(1, values.len() as int);
        let (b1, f1) = crate::marshal::spec_marshal_elements(
            rest,
            bo,
            start + b0.len(),
            f0,
        )->Ok_0;
        assert(payload =~= b0 + b1);
        lemma_covers_split(full, start, b0, b1);
        crate::marshal::lemma_marshal_fds_prefix_elements(rest, bo, start + b0.len(), f0);
        crate::marshal::lemma_marshal_fds_prefix_param(values[0], bo, start, fds_in);
        lemma_fds_extends_prefix(decode_fds, fds_in.len() as int, f0, fds_out);
        lemma_param_roundtrip(values[0], bo, full, start, fds_in, decode_fds);
        crate::marshal::lemma_marshal_min_len(values[0], bo, start, fds_in);
        lemma_elements_roundtrip(el_sig, rest, bo, full, start + b0.len(), f0, decode_fds);
        assert(params::param_sig(values[0]) == el_sig);
        assert(seq![values[0]] + rest =~= values);
    }
}

/// [`lemma_param_roundtrip`], for the fields of a struct.
#[verifier::rlimit(100)]
proof fn lemma_fields_roundtrip(
    ps: Seq<ParamV>,
    bo: ByteOrder,
    full: Seq<u8>,
    off: int,
    fds_in: Seq<u32>,
    decode_fds: Seq<u32>,
)
    requires
        params::params_wf(ps),
        crate::marshal::spec_marshal_elements(ps, bo, off, fds_in) is Ok,
        covers(full, off, crate::marshal::spec_marshal_elements(ps, bo, off, fds_in)->Ok_0.0),
        fds_extends(
            decode_fds,
            fds_in.len() as int,
            crate::marshal::spec_marshal_elements(ps, bo, off, fds_in)->Ok_0.1,
        ),
    ensures
        spec_unmarshal_fields(params::params_sigs(ps), bo, full, decode_fds, off) == Ok::<
            _,
            UnmarshalError,
        >(
            (
                crate::marshal::spec_marshal_elements(ps, bo, off, fds_in)->Ok_0.0.len() as int,
                ps,
            ),
        ),
    decreases ps, 2int,
{
    let (payload, fds_out) = crate::marshal::spec_marshal_elements(ps, bo, off, fds_in)->Ok_0;
    if ps.len() == 0 {
        assert(ps =~= Seq::<ParamV>::empty());
        assert(params::params_sigs(ps) =~= Seq::<signature::TypeV>::empty());
    } else {
        let (b0, f0) = crate::marshal::spec_marshal_param(ps[0], bo, off, fds_in)->Ok_0;
        let rest = ps.subrange(1, ps.len() as int);
        let (b1, f1) = crate::marshal::spec_marshal_elements(rest, bo, off + b0.len(), f0)->Ok_0;
        assert(payload =~= b0 + b1);
        lemma_covers_split(full, off, b0, b1);
        crate::marshal::lemma_marshal_fds_prefix_elements(rest, bo, off + b0.len(), f0);
        crate::marshal::lemma_marshal_fds_prefix_param(ps[0], bo, off, fds_in);
        lemma_fds_extends_prefix(decode_fds, fds_in.len() as int, f0, fds_out);
        lemma_param_roundtrip(ps[0], bo, full, off, fds_in, decode_fds);
        crate::marshal::lemma_marshal_min_len(ps[0], bo, off, fds_in);
        lemma_fields_roundtrip(rest, bo, full, off + b0.len(), f0, decode_fds);
        let ts = params::params_sigs(ps);
        assert(ts[0] == params::param_sig(ps[0]));
        assert(ts.subrange(1, ts.len() as int) =~= params::params_sigs(rest));
        assert(seq![ps[0]] + rest =~= ps);
    }
}

/// [`lemma_param_roundtrip`], for the entries of a dict.
#[verifier::rlimit(100)]
proof fn lemma_entries_roundtrip(
    key_sig: signature::Base,
    value_sig: signature::TypeV,
    map: Seq<(BaseV, ParamV)>,
    bo: ByteOrder,
    full: Seq<u8>,
    start: int,
    fds_in: Seq<u32>,
    decode_fds: Seq<u32>,
)
    requires
        params::entries_wf(map),
        params::dict_valid(key_sig, value_sig, map),
        crate::marshal::spec_marshal_entries(map, bo, start, fds_in) is Ok,
        covers(
            full,
            start,
            crate::marshal::spec_marshal_entries(map, bo, start, fds_in)->Ok_0.0,
        ),
        fds_extends(
            decode_fds,
            fds_in.len() as int,
            crate::marshal::spec_marshal_entries(map, bo, start, fds_in)->Ok_0.1,
        ),
    ensures
        spec_unmarshal_dict_entries(
            key_sig,
            value_sig,
            bo,
            full,
            decode_fds,
            start,
            start + crate::marshal::spec_marshal_entries(map, bo, start, fds_in)->Ok_0.0.len(),
        ) == Ok::<_, UnmarshalError>(map),
    decreases map, 2int,
{
    let (payload, fds_out) = crate::marshal::spec_marshal_entries(map, bo, start, fds_in)->Ok_0;
    if map.len() == 0 {
        assert(map =~= Seq::<(BaseV, ParamV)>::empty());
    } else {
        let pad = pad_len(8, start);
        crate::wire_util::lemma_pad_len(8, start);
        let (kb, fk) = crate::marshal::spec_marshal_base(map[0].0, bo, start + pad, fds_in)->Ok_0;
        let (vb, fv) = crate::marshal::spec_marshal_param(
            map[0].1,
            bo,
            start + pad + kb.len(),
            fk,
        )->Ok_0;
        let rest = map.subrange(1, map.len() as int);
        let (rb, f2) = crate::marshal::spec_marshal_entries(
            rest,
            bo,
            start + pad + kb.len() + vb.len(),
            fv,
        )->Ok_0;
        assert(payload =~= (zeros(pad) + kb) + (vb + rb));
        lemma_covers_split(full, start, zeros(pad) + kb, vb + rb);
        lemma_covers_split(full, start, zeros(pad), kb);
        lemma_covers_split(full, start + pad + kb.len(), vb, rb);
        lemma_align_over_zeros(8, full, start, pad);
        // fd-table bookkeeping across the key, the value and the rest.
        crate::marshal::lemma_marshal_fds_prefix_entries(
            rest,
            bo,
            start + pad + kb.len() + vb.len(),
            fv,
        );
        crate::marshal::lemma_marshal_fds_prefix_param(
            map[0].1,
            bo,
            start + pad + kb.len(),
            fk,
        );
        lemma_fds_extends_prefix(decode_fds, fds_in.len() as int, fv, fds_out);
        lemma_fds_extends_prefix(decode_fds, fds_in.len() as int, fk, fv);
        assert(fds_extends(decode_fds, fk.len() as int, fv));
        lemma_base_roundtrip(map[0].0, bo, full, start + pad, fds_in, decode_fds);
        lemma_param_roundtrip(map[0].1, bo, full, start + pad + kb.len(), fk, decode_fds);
        crate::marshal::lemma_marshal_min_len(map[0].1, bo, start + pad + kb.len(), fk);
        crate::marshal::lemma_marshal_min_len(ParamV::Base(map[0].0), bo, start + pad, fds_in);
        assert(kb.len() >= 1);
        assert(payload.len() == pad + kb.len() + vb.len() + rb.len());
        assert(start + pad + kb.len() <= full.len());
        assert(start + pad + kb.len() + vb.len() <= full.len());
        lemma_entries_roundtrip(
            key_sig,
            value_sig,
            rest,
            bo,
            full,
            start + pad + kb.len() + vb.len(),
            fv,
            decode_fds,
        );
        assert(params::base_sig(map[0].0) == key_sig);
        assert(params::param_sig(map[0].1) == value_sig);
        assert(seq![(map[0].0, map[0].1)] + rest =~= map);
    }
}

/// A lazy cursor over one value: either a fully decoded base value or a
/// sub-iterator for a container's contents.
pub enum ParamIter {
    Array(ArrayIter),
    Struct(StructIter),
    DictEntry(DictEntryIter),
    Dict(DictIter),
    Variant(VariantIter),
    Base(params::Base),
}

/// Walks the fields of a struct.
pub struct StructIter {
    pub byteorder: ByteOrder,
    pub sig: Vec<signature::Type>,
    pub counter: usize,
}

/// Yields the key and then the value of one dict entry.
pub struct DictEntryIter {
    pub byteorder: ByteOrder,
    pub key_sig: signature::Base,
    pub val_sig: signature::Type,
    pub counter: u8,
}

/// Yields the single value inside a variant.
pub struct VariantIter {
    pub byteorder: ByteOrder,
    pub val_sig: signature::Type,
    pub counter: u8,
}

/// Walks the entries of a dict, bounded by its payload length.
pub struct DictIter {
    pub byteorder: ByteOrder,
    pub start_offset: usize,
    pub key_sig: signature::Base,
    pub val_sig: signature::Type,
    pub consume_max_bytes: usize,
}

/// Walks the elements of an array, bounded by its payload length.
pub struct ArrayIter {
    pub byteorder: ByteOrder,
    pub start_offset: usize,
    pub element_sig: signature::Type,
    pub consume_max_bytes: usize,
}

/// What [`ParamIter::new`] must hand back for signature `sig` at offset
/// `off0`, with the offset left at `off1`: a decoded base value, a
/// positioned sub-iterator, or the first decoding error.
pub open spec fn iter_from(
    sig: TypeV,
    bo: ByteOrder,
    src: Seq<u8>,
    off0: int,
    r: Option<Result<ParamIter, UnmarshalError>>,
    off1: int,
) -> bool {
    match sig {
        TypeV::Base(k) => match spec_unmarshal_base(k, bo, src, Seq::empty(), off0) {
            Ok((n, v)) => (r matches Some(Ok(ParamIter::Base(b))) && b@ == v) && off1 == off0 + n,
            Err(e) => r == Some(Err::<ParamIter, _>(e)),
        },
        TypeV::Container(c) => match c {
            ContainerV::Array(el) => match spec_align_offset(4, src, off0) {
                Err(e) => r == Some(Err::<ParamIter, _>(e)),
                Ok(p1) => if off0 + p1 + 4 > src.len() {
                    r == Some(Err::<ParamIter, _>(UnmarshalError::NotEnoughBytes))
                } else {
                    let n = spec_u32_from_bytes(bo, src.subrange(off0 + p1, off0 + p1 + 4)) as int;
                    if n > crate::marshal::max_array_len() {
                        r == Some(Err::<ParamIter, _>(UnmarshalError::ArraySizeTooLarge))
                    } else {
                        match spec_align_offset(
                            signature::type_alignment(*el) as int,
                            src,
                            off0 + p1 + 4,
                        ) {
                            Err(e) => r == Some(Err::<ParamIter, _>(e)),
                            Ok(p2) => if off0 + p1 + 4 + p2 + n > src.len() {
                                r == Some(Err::<ParamIter, _>(UnmarshalError::NotEnoughBytes))
                            } else {
                                &&& r matches Some(Ok(ParamIter::Array(it)))
                                &&& r matches Some(Ok(ParamIter::Array(it2))) ==> {
                                    &&& it2.byteorder == bo
                                    &&& it2.element_sig@ == *el
                                    &&& it2.start_offset == off0 + p1 + 4 + p2
                                    &&& it2.consume_max_bytes == n
                                }
                                &&& off1 == off0 + p1 + 4 + p2
                            },
                        }
                    }
                },
            },
            ContainerV::Dict(k, vt) => match spec_align_offset(4, src, off0) {
                Err(e) => r == Some(Err::<ParamIter, _>(e)),
                Ok(p1) => if off0 + p1 + 4 > src.len() {
                    r == Some(Err::<ParamIter, _>(UnmarshalError::NotEnoughBytes))
                } else {
                    let n = spec_u32_from_bytes(bo, src.subrange(off0 + p1, off0 + p1 + 4)) as int;
                    if n > crate::marshal::max_array_len() {
                        r == Some(Err::<ParamIter, _>(UnmarshalError::ArraySizeTooLarge))
                    } else {
                        match spec_align_offset(8, src, off0 + p1 + 4) {
                            Err(e) => r == Some(Err::<ParamIter, _>(e)),
                            Ok(p2) => if off0 + p1 + 4 + p2 + n > src.len() {
                                r == Some(Err::<ParamIter, _>(UnmarshalError::NotEnoughBytes))
                            } else {
                                &&& r matches Some(Ok(ParamIter::Dict(it)))
                                &&& r matches Some(Ok(ParamIter::Dict(it2))) ==> {
                                    &&& it2.byteorder == bo
                                    &&& it2.key_sig == k
                                    &&& it2.val_sig@ == *vt
                                    &&& it2.start_offset == off0 + p1 + 4 + p2
                                    &&& it2.consume_max_bytes == n
                                }
                                &&& off1 == off0 + p1 + 4 + p2
                            },
                        }
                    }
                },
            },
            ContainerV::Struct(ts) => match spec_align_offset(8, src, off0) {
                Err(e) => r == Some(Err::<ParamIter, _>(e)),
                Ok(p) => {
                    &&& r matches Some(Ok(ParamIter::Struct(it)))
                    &&& r matches Some(Ok(ParamIter::Struct(it2))) ==> {
                        &&& it2.byteorder == bo
                        &&& signature::types_view(it2.sig@) == ts
                        &&& it2.counter == 0
                    }
                    &&& off1 == off0 + p
                },
            },
            ContainerV::Variant => match spec_read_signature_frame(src, off0) {
                Err(e) => r == Some(Err::<ParamIter, _>(e)),
                Ok((nsig, payload)) => if src[off0 + nsig - 1] != 0 || !valid_utf8(payload) {
                    r == Some(Err::<ParamIter, _>(UnmarshalError::InvalidSignature))
                } else {
                    match signature::spec_parse_description(decode_utf8(payload)) {
                        Err(signature::Error::NestingTooDeep) => r == Some(
                            Err::<ParamIter, _>(UnmarshalError::NestingTooDeep),
                        ),
                        Err(_) => r == Some(Err::<ParamIter, _>(UnmarshalError::InvalidSignature)),
                        Ok(ts) => {
                            &&& r matches Some(Ok(ParamIter::Variant(it)))
                            &&& r matches Some(Ok(ParamIter::Variant(it2))) ==> {
                                &&& it2.byteorder == bo
                                &&& it2.val_sig@ == ts[0]
                                &&& it2.counter == 0
                            }
                            &&& off1 == off0 + nsig
                        },
                    }
                },
            },
        },
    }
}

/// Decode-side size cap: an array or dict whose length prefix exceeds
/// the cap is rejected with ArraySizeTooLarge before any element is
/// read.
pub proof fn lemma_decode_array_cap(
    el: TypeV,
    k: signature::Base,
    bo: ByteOrder,
    buf: Seq<u8>,
    fds: Seq<u32>,
    off: int,
)
    ensures
        ({
            match spec_align_offset(4, buf, off) {
                Ok(p1) => (off + p1 + 4 <= buf.len() && spec_u32_from_bytes(
                    bo,
                    buf.subrange(off + p1, off + p1 + 4),
                ) as int > crate::marshal::max_array_len()) ==> {
                    &&& spec_unmarshal_container(
                        ContainerV::Array(Box::new(el)),
                        bo,
                        buf,
                        fds,
                        off,
                    ) == Err::<(int, ParamV), _>(UnmarshalError::ArraySizeTooLarge)
                    &&& spec_unmarshal_container(
                        ContainerV::Dict(k, Box::new(el)),
                        bo,
                        buf,
                        fds,
                        off,
                    ) == Err::<(int, ParamV), _>(UnmarshalError::ArraySizeTooLarge)
                },
                Err(_) => true,
            }
        }),
{
}

/// What one [`StructIter::recurse`] call must do: while fields remain it
/// yields a cursor for the next field (advancing the counter, also when
/// the yield is an error); once they are exhausted it yields nothing and
/// changes nothing.
pub open spec fn struct_iter_step(
    o: StructIter,
    n: StructIter,
    src: Seq<u8>,
    off0: int,
    off1: int,
    r: Option<Result<ParamIter, UnmarshalError>>,
) -> bool {
    &&& off0 <= off1 <= src.len()
    &&& n.byteorder == o.byteorder
    &&& n.sig == o.sig
    &&& (o.counter >= o.sig@.len() ==> r is None && n.counter == o.counter && off1 == off0)
    &&& (o.counter < o.sig@.len() ==> {
        &&& r is Some
        &&& n.counter == o.counter + 1
        &&& iter_from(o.sig@[o.counter as int]@, o.byteorder, src, off0, r, off1)
    })
}

/// What one [`DictEntryIter::recurse`] call must do: the first call
/// decodes the key, the second yields a cursor for the value, later calls
/// yield nothing; the counter advances on every yield, also on an error
/// yield.
pub open spec fn dict_entry_iter_step(
    o: DictEntryIter,
    n: DictEntryIter,
    src: Seq<u8>,
    off0: int,
    off1: int,
    r: Option<Result<ParamIter, UnmarshalError>>,
) -> bool {
    &&& off0 <= off1 <= src.len()
    &&& n.byteorder == o.byteorder
    &&& n.key_sig == o.key_sig
    &&& n.val_sig == o.val_sig
    &&& (o.counter == 0 ==> {
        &&& r is Some
        &&& n.counter == 1
        &&& match spec_unmarshal_base(o.key_sig, o.byteorder, src, Seq::empty(), off0) {
            Ok((nk, v)) => (r matches Some(Ok(ParamIter::Base(b))) && b@ == v) && off1 == off0
                + nk,
            Err(e) => r == Some(Err::<ParamIter, _>(e)) && off1 == off0,
        }
    })
    &&& (o.counter == 1 ==> {
        &&& r is Some
        &&& n.counter == 2
        &&& iter_from(o.val_sig@, o.byteorder, src, off0, r, off1)
    })
    &&& (o.counter >= 2 ==> r is None && n.counter == o.counter && off1 == off0)
}

/// What one [`VariantIter::recurse`] call must do: the first call yields
/// a cursor for the one contained value (advancing the counter, also on
/// an error yield); later calls yield nothing.
pub open spec fn variant_iter_step(
    o: VariantIter,
    n: VariantIter,
    src: Seq<u8>,
    off0: int,
    off1: int,
    r: Option<Result<ParamIter, UnmarshalError>>,
) -> bool {
    &&& off0 <= off1 <= src.len()
    &&& n.byteorder == o.byteorder
    &&& n.val_sig == o.val_sig
    &&& (o.counter == 0 ==> {
        &&& r is Some
        &&& n.counter == 1
        &&& iter_from(o.val_sig@, o.byteorder, src, off0, r, off1)
    })
    &&& (o.counter >= 1 ==> r is None && n.counter == o.counter && off1 == off0)
}

/// What one [`ArrayIter::recurse`] call must do: while the payload is not
/// consumed it yields a cursor for the next element; when it is exactly
/// consumed it yields nothing; when a child overran it (or the cursor sits
/// before the payload) it yields NotEnoughBytes. The iterator itself
/// never changes.
pub open spec fn array_iter_step(
    o: ArrayIter,
    n: ArrayIter,
    src: Seq<u8>,
    off0: int,
    off1: int,
    r: Option<Result<ParamIter, UnmarshalError>>,
) -> bool {
    &&& off0 <= off1 <= src.len()
    &&& n == o
    &&& (off0 < o.start_offset ==> r == Some(Err::<ParamIter, _>(UnmarshalError::NotEnoughBytes))
        && off1 == off0)
    &&& (off0 >= o.start_offset && off0 - o.start_offset > o.consume_max_bytes ==> r == Some(
        Err::<ParamIter, _>(UnmarshalError::NotEnoughBytes),
    ) && off1 == off0)
    &&& (off0 >= o.start_offset && off0 - o.start_offset == o.consume_max_bytes ==> r is None
        && off1 == off0)
    &&& (off0 >= o.start_offset && off0 - o.start_offset < o.consume_max_bytes ==> r is Some
        && iter_from(o.element_sig@, o.byteorder, src, off0, r, off1))
}

/// What one [`DictIter::recurse`] call must do: while the payload is not
/// consumed it yields a fresh entry iterator without reading any bytes;
/// when it is exactly consumed it yields nothing; when a child overran it
/// (or the cursor sits before the payload) it yields NotEnoughBytes. The
/// iterator itself never changes.
pub open spec fn dict_iter_step(
    o: DictIter,
    n: DictIter,
    src: Seq<u8>,
    off0: int,
    off1: int,
    r: Option<Result<ParamIter, UnmarshalError>>,
) -> bool {
    &&& off0 <= off1 <= src.len()
    &&& n == o
    &&& (off0 < o.start_offset ==> r == Some(Err::<ParamIter, _>(UnmarshalError::NotEnoughBytes))
        && off1 == off0)
    &&& (off0 >= o.start_offset && off0 - o.start_offset > o.consume_max_bytes ==> r == Some(
        Err::<ParamIter, _>(UnmarshalError::NotEnoughBytes),
    ) && off1 == off0)
    &&& (off0 >= o.start_offset && off0 - o.start_offset == o.consume_max_bytes ==> r is None
        && off1 == off0)
    &&& (off0 >= o.start_offset && off0 - o.start_offset < o.consume_max_bytes ==> {
        &&& off1 == off0
        &&& r matches Some(Ok(ParamIter::DictEntry(de))) && de.byteorder == o.byteorder
            && de.key_sig == o.key_sig && de.val_sig@ == o.val_sig@ && de.counter == 0
    })
}

/// Aligning first and then decoding a base value is the same as decoding
/// it directly; the consumed size grows by the padding.
proof fn lemma_base_align_split(
    k: signature::Base,
    bo: ByteOrder,
    src: Seq<u8>,
    fds: Seq<u32>,
    off: int,
    p: int,
)
    requires
        off >= 0,
        spec_align_offset(signature::base_alignment(k) as int, src, off) == Ok::<
            _,
            UnmarshalError,
        >(p),
    ensures
        match spec_unmarshal_base(k, bo, src, fds, off + p) {
            Ok((n2, v)) => spec_unmarshal_base(k, bo, src, fds, off) == Ok::<_, UnmarshalError>(
                (p + n2, v),
            ),
            Err(e) => spec_unmarshal_base(k, bo, src, fds, off) == Err::<(int, BaseV), _>(e),
        },
{
    reveal(spec_unmarshal_base);
    let a = signature::base_alignment(k) as int;
    crate::wire_util::lemma_pad_len(a, off);
    assert(pad_len(a, off + p) == 0);
    assert(spec_align_offset(a, src, off + p) == Ok::<_, UnmarshalError>(0int));
}

impl ParamIter {
    /// Start decoding one value of type `new_sig` at `*offset`: skip its
    /// alignment padding, then either decode it fully (base values) or
    /// return a positioned sub-iterator (containers).
    #[verifier::rlimit(100)]
    pub fn new(
        new_sig: &signature::Type,
        offset: &mut usize,
        source: &[u8],
        byteorder: ByteOrder,
    ) -> (r: Option<Result<ParamIter, UnmarshalError>>)
        requires
            *old(offset) <= source@.len(),
        ensures
            r is Some,
            *old(offset) <= *final(offset) <= source@.len(),
            iter_from(
                new_sig@,
                byteorder,
                source@,
                *old(offset) as int,
                r,
                *final(offset) as int,
            ),
    {
        let slen = source.len();
        match new_sig {
            signature::Type::Base(b) => {
                let no_fds: Vec<u32> = Vec::new();
                match unmarshal_base(*b, byteorder, source, no_fds.as_slice(), *offset) {
                    Ok((bytes, param)) => {
                        *offset = *offset + bytes;
                        Some(Ok(ParamIter::Base(param)))
                    },
                    Err(e) => Some(Err(e)),
                }
            },
            signature::Type::Container(signature::Container::Array(el_sig)) => {
                match make_new_array_iter(offset, source, byteorder, el_sig) {
                    Ok(sub_iter) => Some(Ok(ParamIter::Array(sub_iter))),
                    Err(e) => Some(Err(e)),
                }
            },
            signature::Type::Container(signature::Container::Struct(sig)) => {
                let p = match crate::wire_util::align_offset(8, source, *offset) {
                    Ok(p) => p,
                    Err(e) => {
                        return Some(Err(e));
                    },
                };
                *offset = *offset + p;
                let fields = clone_type_vec_for_iter(&sig.0);
                Some(
                    Ok(
                        ParamIter::Struct(
                            StructIter { byteorder, sig: fields, counter: 0 },
                        ),
                    ),
                )
            },
            signature::Type::Container(signature::Container::Dict(key, val)) => {
                match make_new_dict_iter(offset, source, byteorder, *key, val) {
                    Ok(sub_iter) => Some(Ok(ParamIter::Dict(sub_iter))),
                    Err(e) => Some(Err(e)),
                }
            },
            signature::Type::Container(signature::Container::Variant) => {
                match make_new_variant_iter(offset, source, byteorder) {
                    Ok(sub_iter) => Some(Ok(ParamIter::Variant(sub_iter))),
                    Err(e) => Some(Err(e)),
                }
            },
        }
    }

    /// Yield the next child: the elements of arrays and dicts, the fields
    /// of structs, the two halves of a dict entry, the one value of a
    /// variant. Fully decoded base values have no children.
    pub fn recurse(
        &mut self,
        source: &[u8],
        offset: &mut usize,
    ) -> (r: Option<Result<ParamIter, UnmarshalError>>)
        requires
            *old(offset) <= source@.len(),
        ensures
            *old(offset) <= *final(offset) <= source@.len(),
            *old(self) is Base ==> r is None && *final(self) == *old(self) && *final(offset)
                == *old(offset),
            *old(self) matches ParamIter::Array(a) ==> (*final(self) matches ParamIter::Array(a2)
                && array_iter_step(
                a,
                a2,
                source@,
                *old(offset) as int,
                *final(offset) as int,
                r,
            )),
            *old(self) matches ParamIter::Dict(d) ==> (*final(self) matches ParamIter::Dict(d2)
                && dict_iter_step(
                d,
                d2,
                source@,
                *old(offset) as int,
                *final(offset) as int,
                r,
            )),
            *old(self) matches ParamIter::Struct(s) ==> (*final(self) matches ParamIter::Struct(
                s2,
            ) && struct_iter_step(
                s,
                s2,
                source@,
                *old(offset) as int,
                *final(offset) as int,
                r,
            )),
            *old(self) matches ParamIter::DictEntry(de) ==> (*final(self) matches
                ParamIter::DictEntry(de2) && dict_entry_iter_step(
                de,
                de2,
                source@,
                *old(offset) as int,
                *final(offset) as int,
                r,
            )),
            *old(self) matches ParamIter::Variant(v) ==> (*final(self) matches ParamIter::Variant(
                v2,
            ) && variant_iter_step(
                v,
                v2,
                source@,
                *old(offset) as int,
                *final(offset) as int,
                r,
            )),
    {
        match self {
            ParamIter::Array(array) => array.recurse(source, offset),
            ParamIter::DictEntry(de) => de.recurse(source, offset),
            ParamIter::Struct(strct) => strct.recurse(source, offset),
            ParamIter::Dict(dict) => dict.recurse(source, offset),
            ParamIter::Variant(var) => var.recurse(source, offset),
            ParamIter::Base(_) => None,
        }
    }

    /// Whether this cursor is a fully decoded base value.
    pub fn is_base(&self) -> (r: bool)
        ensures
            r == (self is Base),
    {
        matches!(self, ParamIter::Base(_))
    }

    /// The decoded base value, if this cursor is one.
    pub fn base(self) -> (r: Option<params::Base>)
        ensures
            match r {
                Some(b) => self matches ParamIter::Base(b2) && b == b2,
                None => !(self is Base),
            },
    {
        match self {
            ParamIter::Base(b) => Some(b),
            _ => None,
        }
    }
}

/// Deep copy of a vector of types, for a sub-iterator to own.
fn clone_type_vec_for_iter(v: &Vec<signature::Type>) -> (r: Vec<signature::Type>)
    ensures
        signature::types_view(r@) == signature::types_view(v@),
{
    let mut out: Vec<signature::Type> = Vec::new();
    let mut i: usize = 0;
    while i < v.len()
        invariant
            i <= v@.len(),
            out@.len() == i,
            forall|j: int| 0 <= j < i ==> #[trigger] out@[j]@ == v@[j]@,
        decreases v@.len() - i,
    {
        out.push(v[i].clone());
        i = i + 1;
    }
    proof {
        signature::lemma_types_view(out@);
        signature::lemma_types_view(v@);
        assert(signature::types_view(out@) =~= signature::types_view(v@));
    }
    out
}

/// Read an array's header at `*offset`: alignment, `u32` payload length,
/// padding to the element alignment. The returned iterator is positioned
/// at the first element.
#[verifier::rlimit(100)]
fn make_new_array_iter(
    offset: &mut usize,
    source: &[u8],
    byteorder: ByteOrder,
    el_sig: &signature::Type,
) -> (r: Result<ArrayIter, UnmarshalError>)
    requires
        *old(offset) <= source@.len(),
    ensures
        match r {
            Ok(it) => iter_from(
                TypeV::Container(ContainerV::Array(Box::new(el_sig@))),
                byteorder,
                source@,
                *old(offset) as int,
                Some(Ok(ParamIter::Array(it))),
                *final(offset) as int,
            ) && *old(offset) <= *final(offset) <= source@.len() && it.start_offset
                == *final(offset) && it.start_offset + it.consume_max_bytes <= source@.len(),
            Err(e) => iter_from(
                TypeV::Container(ContainerV::Array(Box::new(el_sig@))),
                byteorder,
                source@,
                *old(offset) as int,
                Some(Err(e)),
                *final(offset) as int,
            ) && *old(offset) <= *final(offset) <= source@.len(),
        },
{
    let slen = source.len();
    let p1 = match crate::wire_util::align_offset(4, source, *offset) {
        Ok(p) => p,
        Err(e) => {
            return Err(e);
        },
    };
    *offset = *offset + p1;
    let (_, len32) = match crate::wire_util::parse_u32(slice_tail(source, *offset), byteorder) {
        Ok(x) => x,
        Err(e) => {
            proof {
                lemma_tail_subrange(source@, *offset as int, 0);
            }
            return Err(e);
        },
    };
    proof {
        lemma_tail_subrange(source@, *offset as int, 4);
    }
    if len32 > 0x4000000 {
        return Err(UnmarshalError::ArraySizeTooLarge);
    }
    *offset = *offset + 4;
    let el_align = el_sig.get_alignment();
    let p2 = match crate::wire_util::align_offset(el_align, source, *offset) {
        Ok(p) => p,
        Err(e) => {
            return Err(e);
        },
    };
    *offset = *offset + p2;
    let n = len32 as usize;
    if (n as u64) > ((source.len() - *offset) as u64) {
        return Err(UnmarshalError::NotEnoughBytes);
    }
    Ok(
        ArrayIter {
            byteorder,
            start_offset: *offset,
            element_sig: el_sig.clone(),
            consume_max_bytes: n,
        },
    )
}

/// Read a dict's header at `*offset`: alignment, `u32` payload length,
/// padding to the 8-byte entry alignment. The returned iterator is
/// positioned at the first entry.
#[verifier::rlimit(100)]
fn make_new_dict_iter(
    offset: &mut usize,
    source: &[u8],
    byteorder: ByteOrder,
    key_sig: signature::Base,
    val_sig: &signature::Type,
) -> (r: Result<DictIter, UnmarshalError>)
    requires
        *old(offset) <= source@.len(),
    ensures
        match r {
            Ok(it) => iter_from(
                TypeV::Container(ContainerV::Dict(key_sig, Box::new(val_sig@))),
                byteorder,
                source@,
                *old(offset) as int,
                Some(Ok(ParamIter::Dict(it))),
                *final(offset) as int,
            ) && *old(offset) <= *final(offset) <= source@.len() && it.start_offset
                == *final(offset) && it.start_offset + it.consume_max_bytes <= source@.len(),
            Err(e) => iter_from(
                TypeV::Container(ContainerV::Dict(key_sig, Box::new(val_sig@))),
                byteorder,
                source@,
                *old(offset) as int,
                Some(Err(e)),
                *final(offset) as int,
            ) && *old(offset) <= *final(offset) <= source@.len(),
        },
{
    let slen = source.len();
    let p1 = match crate::wire_util::align_offset(4, source, *offset) {
        Ok(p) => p,
        Err(e) => {
            return Err(e);
        },
    };
    *offset = *offset + p1;
    let (_, len32) = match crate::wire_util::parse_u32(slice_tail(source, *offset), byteorder) {
        Ok(x) => x,
        Err(e) => {
            proof {
                lemma_tail_subrange(source@, *offset as int, 0);
            }
            return Err(e);
        },
    };
    proof {
        lemma_tail_subrange(source@, *offset as int, 4);
    }
    if len32 > 0x4000000 {
        return Err(UnmarshalError::ArraySizeTooLarge);
    }
    *offset = *offset + 4;
    let p2 = match crate::wire_util::align_offset(8, source, *offset) {
        Ok(p) => p,
        Err(e) => {
            return Err(e);
        },
    };
    *offset = *offset + p2;
    let n = len32 as usize;
    if (n as u64) > ((source.len() - *offset) as u64) {
        return Err(UnmarshalError::NotEnoughBytes);
    }
    Ok(
        DictIter {
            byteorder,
            start_offset: *offset,
            key_sig,
            val_sig: val_sig.clone(),
            consume_max_bytes: n,
        },
    )
}

/// Read a variant's inner signature at `*offset` and parse it. The
/// returned iterator will decode one value of that signature's first
/// type.
#[verifier::rlimit(100)]
fn make_new_variant_iter(
    offset: &mut usize,
    source: &[u8],
    byteorder: ByteOrder,
) -> (r: Result<VariantIter, UnmarshalError>)
    requires
        *old(offset) <= source@.len(),
    ensures
        match r {
            Ok(it) => iter_from(
                TypeV::Container(ContainerV::Variant),
                byteorder,
                source@,
                *old(offset) as int,
                Some(Ok(ParamIter::Variant(it))),
                *final(offset) as int,
            ) && *old(offset) <= *final(offset) <= source@.len(),
            Err(e) => iter_from(
                TypeV::Container(ContainerV::Variant),
                byteorder,
                source@,
                *old(offset) as int,
                Some(Err(e)),
                *final(offset) as int,
            ) && *old(offset) <= *final(offset) <= source@.len(),
        },
{
    let slen = source.len();
    let (nsig, payload) = match read_signature_payload(source, *offset) {
        Ok(x) => x,
        Err(e) => {
            return Err(e);
        },
    };
    let s = match bytes_to_string(payload) {
        Some(s) => s,
        None => {
            return Err(UnmarshalError::InvalidSignature);
        },
    };
    let mut types = match signature::Type::parse_description(s.as_str()) {
        Ok(ts) => ts,
        Err(signature::Error::NestingTooDeep) => {
            return Err(UnmarshalError::NestingTooDeep);
        },
        Err(_) => {
            return Err(UnmarshalError::InvalidSignature);
        },
    };
    proof {
        signature::lemma_types_view(types@);
        let chars = decode_utf8(payload@);
        if chars.len() == 0 {
            assert(signature::spec_parse_description(chars) is Err);
        }
        assert(signature::types_view(types@).len() > 0);
    }
    let first = types.remove(0);
    *offset = *offset + nsig;
    Ok(VariantIter { byteorder, val_sig: first, counter: 0 })
}

impl DictEntryIter {
    /// First call: decode the key. Second call: a cursor for the value.
    /// Further calls yield nothing.
    pub fn recurse(
        &mut self,
        source: &[u8],
        offset: &mut usize,
    ) -> (r: Option<Result<ParamIter, UnmarshalError>>)
        requires
            *old(offset) <= source@.len(),
        ensures
            dict_entry_iter_step(
                *old(self),
                *final(self),
                source@,
                *old(offset) as int,
                *final(offset) as int,
                r,
            ),
    {
        let slen = source.len();
        if self.counter == 0 {
            let no_fds: Vec<u32> = Vec::new();
            self.counter = self.counter + 1;
            match unmarshal_base(self.key_sig, self.byteorder, source, no_fds.as_slice(), *offset)
            {
                Ok((bytes, param)) => {
                    *offset = *offset + bytes;
                    Some(Ok(ParamIter::Base(param)))
                },
                Err(e) => Some(Err(e)),
            }
        } else if self.counter == 1 {
            self.counter = self.counter + 1;
            ParamIter::new(&self.val_sig, offset, source, self.byteorder)
        } else {
            None
        }
    }
}

impl VariantIter {
    /// First call: a cursor for the contained value. Further calls yield
    /// nothing.
    pub fn recurse(
        &mut self,
        source: &[u8],
        offset: &mut usize,
    ) -> (r: Option<Result<ParamIter, UnmarshalError>>)
        requires
            *old(offset) <= source@.len(),
        ensures
            variant_iter_step(
                *old(self),
                *final(self),
                source@,
                *old(offset) as int,
                *final(offset) as int,
                r,
            ),
    {
        if self.counter == 0 {
            self.counter = self.counter + 1;
            ParamIter::new(&self.val_sig, offset, source, self.byteorder)
        } else {
            None
        }
    }
}

impl StructIter {
    /// A cursor for the next field, or nothing once every field was
    /// yielded.
    pub fn recurse(
        &mut self,
        source: &[u8],
        offset: &mut usize,
    ) -> (r: Option<Result<ParamIter, UnmarshalError>>)
        requires
            *old(offset) <= source@.len(),
        ensures
            struct_iter_step(
                *old(self),
                *final(self),
                source@,
                *old(offset) as int,
                *final(offset) as int,
                r,
            ),
    {
        if self.counter >= self.sig.len() {
            return None;
        }
        let i = self.counter;
        self.counter = self.counter + 1;
        ParamIter::new(&self.sig[i], offset, source, self.byteorder)
    }
}

impl ArrayIter {
    /// A cursor for the next element while the payload is not consumed;
    /// nothing when it is exactly consumed; an error when a child overran
    /// it.
    pub fn recurse(
        &mut self,
        source: &[u8],
        offset: &mut usize,
    ) -> (r: Option<Result<ParamIter, UnmarshalError>>)
        requires
            *old(offset) <= source@.len(),
        ensures
            array_iter_step(
                *old(self),
                *final(self),
                source@,
                *old(offset) as int,
                *final(offset) as int,
                r,
            ),
    {
        if *offset < self.start_offset {
            return Some(Err(UnmarshalError::NotEnoughBytes));
        }
        let consumed = *offset - self.start_offset;
        if consumed > self.consume_max_bytes {
            return Some(Err(UnmarshalError::NotEnoughBytes));
        }
        if consumed == self.consume_max_bytes {
            None
        } else {
            ParamIter::new(&self.element_sig, offset, source, self.byteorder)
        }
    }
}

impl DictIter {
    /// A cursor for the next entry while the payload is not consumed;
    /// nothing when it is exactly consumed; an error when a child overran
    /// it.
    pub fn recurse(
        &mut self,
        source: &[u8],
        offset: &mut usize,
    ) -> (r: Option<Result<ParamIter, UnmarshalError>>)
        requires
            *old(offset) <= source@.len(),
        ensures
            dict_iter_step(
                *old(self),
                *final(self),
                source@,
                *old(offset) as int,
                *final(offset) as int,
                r,
            ),
    {
        if *offset < self.start_offset {
            return Some(Err(UnmarshalError::NotEnoughBytes));
        }
        let consumed = *offset - self.start_offset;
        if consumed > self.consume_max_bytes {
            return Some(Err(UnmarshalError::NotEnoughBytes));
        }
        if consumed == self.consume_max_bytes {
            None
        } else {
            Some(
                Ok(
                    ParamIter::DictEntry(
                        DictEntryIter {
                            byteorder: self.byteorder,
                            key_sig: self.key_sig,
                            val_sig: self.val_sig.clone(),
                            counter: 0,
                        },
                    ),
                ),
            )
        }
    }
}

/// Walks the top-level values of a message body, one signature entry at a
/// time.
pub struct MessageIter {
    pub byteorder: ByteOrder,
    pub sig: Vec<signature::Type>,
    pub counter: usize,
}

impl MessageIter {
    /// A fresh iterator over values of the types in `sig`.
    pub fn new(byteorder: ByteOrder, sig: Vec<signature::Type>) -> (r: MessageIter)
        ensures
            r.byteorder == byteorder,
            r.sig@ == sig@,
            r.counter == 0,
    {
        MessageIter { byteorder, sig, counter: 0 }
    }

    /// A cursor for the next top-level value, or nothing once every
    /// signature entry was used.
    pub fn next_iter(
        &mut self,
        source: &[u8],
        offset: &mut usize,
    ) -> (r: Option<Result<ParamIter, UnmarshalError>>)
        requires
            *old(offset) <= source@.len(),
        ensures
            *old(offset) <= *final(offset) <= source@.len(),
            final(self).byteorder == old(self).byteorder,
            final(self).sig == old(self).sig,
            old(self).counter >= old(self).sig@.len() ==> r is None && final(self).counter == old(
                self,
            ).counter && *final(offset) == *old(offset),
            old(self).counter < old(self).sig@.len() ==> {
                &&& r is Some
                &&& final(self).counter == old(self).counter + 1
                &&& iter_from(
                    old(self).sig@[old(self).counter as int]@,
                    old(self).byteorder,
                    source@,
                    *old(offset) as int,
                    r,
                    *final(offset) as int,
                )
            },
    {
        if self.counter >= self.sig.len() {
            return None;
        }
        let i = self.counter;
        self.counter = self.counter + 1;
        ParamIter::new(&self.sig[i], offset, source, self.byteorder)
    }

    /// Decode the next top-level value whole, or nothing once every
    /// signature entry was used.
    pub fn unmarshal_next(
        &mut self,
        source: &[u8],
        fds: &[u32],
        offset: &mut usize,
    ) -> (r: Option<Result<params::Param, UnmarshalError>>)
        requires
            *old(offset) <= source@.len(),
        ensures
            old(self).counter >= old(self).sig@.len() <==> r is None,
            r is None ==> *final(offset) == *old(offset) && *final(self) == *old(self),
            r is Some ==> final(self).counter == old(self).counter + 1,
            final(self).byteorder == old(self).byteorder,
            final(self).sig == old(self).sig,
            *old(offset) <= *final(offset) <= source@.len(),
            match r {
                Some(Ok(v)) => spec_unmarshal_param(
                    old(self).sig@[old(self).counter as int]@,
                    old(self).byteorder,
                    source@,
                    fds@,
                    *old(offset) as int,
                ) == Ok::<_, UnmarshalError>(
                    ((*final(offset) - *old(offset)) as int, v@),
                ) && *old(offset) <= *final(offset) <= source@.len(),
                Some(Err(e)) => spec_unmarshal_param(
                    old(self).sig@[old(self).counter as int]@,
                    old(self).byteorder,
                    source@,
                    fds@,
                    *old(offset) as int,
                ) == Err::<(int, ParamV), _>(e),
                None => true,
            },
    {
        if self.counter >= self.sig.len() {
            return None;
        }
        let i = self.counter;
        self.counter = self.counter + 1;
        Some(unmarshal_param(&self.sig[i], self.byteorder, source, fds, offset))
    }
}

} // verus!
