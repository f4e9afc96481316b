use rustbus::ByteOrder;
use rustbus::errors::{MarshalError, UnmarshalError};
use rustbus::marshal::{marshal, marshal_base_param, marshal_container_param, MarshalContext};
use rustbus::params::{Array, Base, Container, Dict, Param};
use rustbus::signature;
use rustbus::unmarshal::{unmarshal_base, unmarshal_param};

fn context(byteorder: ByteOrder) -> MarshalContext {
    MarshalContext { buf: Vec::new(), fds: Vec::new(), byteorder }
}

fn roundtrip(p: Param, byteorder: ByteOrder) {
    let mut ctx = context(byteorder);
    marshal(&p, &mut ctx).unwrap();
    let sig = p.sig();
    let mut offset = 0usize;
    let decoded = unmarshal_param(&sig, byteorder, &ctx.buf, &ctx.fds, &mut offset).unwrap();
    assert_eq!(decoded, p);
    assert_eq!(offset, ctx.buf.len());
}

fn roundtrip_both(p: Param) {
    let mut ctx = context(ByteOrder::LittleEndian);
    marshal(&p, &mut ctx).unwrap();
    roundtrip(clone_via_decode(&p), ByteOrder::LittleEndian);
    roundtrip(clone_via_decode(&p), ByteOrder::BigEndian);
}

// Values are not Clone; rebuild one through an encode/decode pass.
fn clone_via_decode(p: &Param) -> Param {
    let mut ctx = context(ByteOrder::LittleEndian);
    marshal(p, &mut ctx).unwrap();
    let sig = p.sig();
    let mut offset = 0usize;
    unmarshal_param(&sig, ByteOrder::LittleEndian, &ctx.buf, &ctx.fds, &mut offset).unwrap()
}

#[test]
fn test_int32_bytes() {
    let mut ctx = context(ByteOrder::LittleEndian);
    marshal_base_param(&Base::Int32(5), &mut ctx).unwrap();
    assert_eq!(ctx.buf, vec![0x05, 0x00, 0x00, 0x00]);

    let mut ctx = context(ByteOrder::BigEndian);
    marshal_base_param(&Base::Int32(5), &mut ctx).unwrap();
    assert_eq!(ctx.buf, vec![0x00, 0x00, 0x00, 0x05]);
}

#[test]
fn test_string_bytes() {
    let mut ctx = context(ByteOrder::LittleEndian);
    marshal_base_param(&Base::String(String::from("foo")), &mut ctx).unwrap();
    assert_eq!(ctx.buf, vec![0x03, 0x00, 0x00, 0x00, 0x66, 0x6f, 0x6f, 0x00]);
}

#[test]
fn test_array_bytes() {
    let arr = Container::Array(Array {
        element_sig: signature::Type::Base(signature::Base::Int32),
        values: vec![Param::from(0i32), Param::from(1i32), Param::from(2i32)],
    });
    let mut ctx = context(ByteOrder::LittleEndian);
    marshal_container_param(&arr, &mut ctx).unwrap();
    assert_eq!(
        ctx.buf,
        vec![
            0x0C, 0x00, 0x00, 0x00, 0x00, 0x00, 0x00, 0x00, 0x01, 0x00, 0x00, 0x00, 0x02, 0x00,
            0x00, 0x00,
        ]
    );
}

#[test]
fn test_struct_bytes() {
    let s = Container::Struct(vec![
        Param::from(1i32),
        Param::from(String::from("ab")),
        Param::from(2i32),
    ]);
    let mut ctx = context(ByteOrder::LittleEndian);
    marshal_container_param(&s, &mut ctx).unwrap();
    assert_eq!(
        ctx.buf,
        vec![
            0x01, 0x00, 0x00, 0x00, 0x02, 0x00, 0x00, 0x00, 0x61, 0x62, 0x00, 0x00, 0x02, 0x00,
            0x00, 0x00,
        ]
    );
}

#[test]
fn test_dict_bytes() {
    let d = Container::Dict(Dict {
        key_sig: signature::Base::String,
        value_sig: signature::Type::Base(signature::Base::Int32),
        map: vec![(Base::String(String::from("a")), Param::from(1i32))],
    });
    let mut ctx = context(ByteOrder::LittleEndian);
    marshal_container_param(&d, &mut ctx).unwrap();
    assert_eq!(
        ctx.buf,
        vec![
            0x0C, 0x00, 0x00, 0x00, 0x00, 0x00, 0x00, 0x00, 0x01, 0x00, 0x00, 0x00, 0x61, 0x00,
            0x00, 0x00, 0x01, 0x00, 0x00, 0x00,
        ]
    );
}

#[test]
fn test_variant_bytes() {
    let v = Container::Variant(Box::new(Param::from(7i32)));
    let mut ctx = context(ByteOrder::LittleEndian);
    marshal_container_param(&v, &mut ctx).unwrap();
    assert_eq!(ctx.buf, vec![0x01, 0x69, 0x00, 0x00, 0x07, 0x00, 0x00, 0x00]);
}

#[test]
fn test_empty_array() {
    // Element alignment 8 forces four bytes of padding after the length.
    let arr = Container::Array(Array {
        element_sig: signature::Type::Base(signature::Base::Uint64),
        values: vec![],
    });
    let mut ctx = context(ByteOrder::LittleEndian);
    marshal_container_param(&arr, &mut ctx).unwrap();
    assert_eq!(ctx.buf, vec![0, 0, 0, 0, 0, 0, 0, 0]);

    let sig = signature::Type::parse_description("at").unwrap().remove(0);
    let mut offset = 0usize;
    let decoded = unmarshal_param(&sig, ByteOrder::LittleEndian, &ctx.buf, &[], &mut offset)
        .unwrap();
    match decoded {
        Param::Container(Container::Array(a)) => assert_eq!(a.values.len(), 0),
        _ => unreachable!(),
    }
}

#[test]
fn test_roundtrip_base_values() {
    roundtrip_both(Param::from(Base::Byte(0xAB)));
    roundtrip_both(Param::from(Base::Boolean(true)));
    roundtrip_both(Param::from(Base::Boolean(false)));
    roundtrip_both(Param::from(Base::Int16(-1234)));
    roundtrip_both(Param::from(Base::Uint16(0xBEEF)));
    roundtrip_both(Param::from(Base::Int32(-123456)));
    roundtrip_both(Param::from(Base::Uint32(0xDEAD_BEEF)));
    roundtrip_both(Param::from(Base::Int64(-1234567890123)));
    roundtrip_both(Param::from(Base::Uint64(0xFEED_FACE_CAFE_BEEF)));
    roundtrip_both(Param::from(Base::Double(0x400921FB54442D18)));
    roundtrip_both(Param::from(Base::String(String::from("hello world"))));
    roundtrip_both(Param::from(Base::ObjectPath(String::from("/org/example/Thing"))));
    roundtrip_both(Param::from(Base::Signature(String::from("a{si}"))));
}

#[test]
fn test_roundtrip_containers() {
    roundtrip_both(Param::from(Container::Struct(vec![
        Param::from(1i32),
        Param::from(String::from("ab")),
        Param::from(2i32),
    ])));
    roundtrip_both(Param::from(
        Container::try_from(vec![Param::from(5u64), Param::from(6u64)]).unwrap(),
    ));
    roundtrip_both(Param::from(Container::Variant(Box::new(Param::from(7i32)))));
    // A variant inside a variant is permitted, recursively.
    roundtrip_both(Param::from(Container::Variant(Box::new(Param::from(
        Container::Variant(Box::new(Param::from(String::from("deep")))),
    )))));
    roundtrip_both(Param::from(
        Container::try_from(vec![
            (Base::String(String::from("a")), Param::from(1i32)),
            (Base::String(String::from("bc")), Param::from(2i32)),
        ])
        .unwrap(),
    ));
}

#[test]
fn test_roundtrip_unixfd() {
    let p = Param::from(Base::UnixFd(42));
    let mut ctx = context(ByteOrder::LittleEndian);
    marshal(&p, &mut ctx).unwrap();
    assert_eq!(ctx.fds, vec![42]);
    assert_eq!(ctx.buf, vec![0, 0, 0, 0]);
    let sig = p.sig();
    let mut offset = 0usize;
    let decoded = unmarshal_param(&sig, ByteOrder::LittleEndian, &ctx.buf, &ctx.fds, &mut offset)
        .unwrap();
    assert_eq!(decoded, p);
}

#[test]
fn test_marshal_at_offset() {
    // A value marshalled after existing bytes pays alignment padding
    // relative to the buffer start.
    let mut ctx = context(ByteOrder::LittleEndian);
    ctx.buf.push(0x77);
    marshal_base_param(&Base::Int32(5), &mut ctx).unwrap();
    assert_eq!(ctx.buf, vec![0x77, 0, 0, 0, 0x05, 0, 0, 0]);
}

#[test]
fn test_marshal_errors() {
    let mut ctx = context(ByteOrder::LittleEndian);
    assert_eq!(
        marshal_base_param(&Base::String(String::from("a\0b")), &mut ctx),
        Err(MarshalError::StringContainsNullByte)
    );
    let mut ctx = context(ByteOrder::LittleEndian);
    assert_eq!(
        marshal_base_param(&Base::ObjectPath(String::from("noslash")), &mut ctx),
        Err(MarshalError::InvalidObjectPath)
    );
    let mut ctx = context(ByteOrder::LittleEndian);
    assert_eq!(
        marshal_base_param(&Base::ObjectPath(String::from("/trailing/")), &mut ctx),
        Err(MarshalError::InvalidObjectPath)
    );
    let mut ctx = context(ByteOrder::LittleEndian);
    assert_eq!(
        marshal_base_param(&Base::Signature(String::from("(")), &mut ctx),
        Err(MarshalError::Signature(signature::Error::InvalidSignature))
    );
    // An element whose type does not match the array's element type.
    let arr = Container::Array(Array {
        element_sig: signature::Type::Base(signature::Base::Int32),
        values: vec![Param::from(1u32)],
    });
    let mut ctx = context(ByteOrder::LittleEndian);
    assert_eq!(
        marshal_container_param(&arr, &mut ctx),
        Err(MarshalError::ArrayElementTypeMismatch)
    );
    // A dict key of the wrong kind, then a value of the wrong type.
    let d = Container::Dict(Dict {
        key_sig: signature::Base::String,
        value_sig: signature::Type::Base(signature::Base::Int32),
        map: vec![(Base::Int32(1), Param::from(1i32))],
    });
    let mut ctx = context(ByteOrder::LittleEndian);
    assert_eq!(
        marshal_container_param(&d, &mut ctx),
        Err(MarshalError::DictKeyTypeMismatch)
    );
    let d = Container::Dict(Dict {
        key_sig: signature::Base::String,
        value_sig: signature::Type::Base(signature::Base::Int32),
        map: vec![(Base::String(String::from("a")), Param::from(1u32))],
    });
    let mut ctx = context(ByteOrder::LittleEndian);
    assert_eq!(
        marshal_container_param(&d, &mut ctx),
        Err(MarshalError::DictValueTypeMismatch)
    );
    // Two entries sharing a key break the dict's uniqueness invariant.
    let d = Container::Dict(Dict {
        key_sig: signature::Base::String,
        value_sig: signature::Type::Base(signature::Base::Int32),
        map: vec![
            (Base::String(String::from("a")), Param::from(1i32)),
            (Base::String(String::from("a")), Param::from(2i32)),
        ],
    });
    let mut ctx = context(ByteOrder::LittleEndian);
    assert_eq!(
        marshal_container_param(&d, &mut ctx),
        Err(MarshalError::DictDuplicateKey)
    );
    assert!(Container::try_from(vec![
        (Base::Uint32(7), Param::from(1i32)),
        (Base::Uint32(7), Param::from(2i32)),
    ])
    .is_err());
    // An empty struct value is rejected through its derived signature.
    let mut ctx = context(ByteOrder::LittleEndian);
    assert_eq!(
        marshal(&Param::from(Container::Struct(vec![])), &mut ctx),
        Err(MarshalError::Signature(signature::Error::EmptyStruct))
    );
}

#[test]
fn test_array_payload_cap() {
    // 64 strings of a megabyte each exceed the array-size cap.
    let chunk = "a".repeat(1 << 20);
    let mut values = Vec::new();
    for _ in 0..64 {
        values.push(Param::from(Base::String(chunk.clone())));
    }
    let arr = Container::Array(Array {
        element_sig: signature::Type::Base(signature::Base::String),
        values,
    });
    let mut ctx = context(ByteOrder::LittleEndian);
    assert_eq!(
        marshal_container_param(&arr, &mut ctx),
        Err(MarshalError::ValueTooLarge)
    );
}

#[test]
fn test_unmarshal_errors() {
    // Not enough bytes for an i32.
    let sig = signature::Type::Base(signature::Base::Int32);
    let mut offset = 0usize;
    assert_eq!(
        unmarshal_param(&sig, ByteOrder::LittleEndian, &[1, 0], &[], &mut offset),
        Err(UnmarshalError::NotEnoughBytes)
    );
    // Non-zero padding before an aligned read.
    let mut offset = 1usize;
    assert_eq!(
        unmarshal_param(
            &sig,
            ByteOrder::LittleEndian,
            &[0, 9, 9, 9, 5, 0, 0, 0],
            &[],
            &mut offset
        ),
        Err(UnmarshalError::PaddingContainedNonZero)
    );
    // A boolean that is neither zero nor one.
    assert_eq!(
        unmarshal_base(
            signature::Base::Boolean,
            ByteOrder::LittleEndian,
            &[2, 0, 0, 0],
            &[],
            0
        ),
        Err(UnmarshalError::InvalidBoolean)
    );
    // A string that is not valid UTF-8.
    assert_eq!(
        unmarshal_base(
            signature::Base::String,
            ByteOrder::LittleEndian,
            &[2, 0, 0, 0, 0xC3, 0x28, 0],
            &[],
            0
        ),
        Err(UnmarshalError::InvalidUtf8)
    );
    // An object path that breaks the path grammar.
    assert_eq!(
        unmarshal_base(
            signature::Base::ObjectPath,
            ByteOrder::LittleEndian,
            &[1, 0, 0, 0, 0x61, 0],
            &[],
            0
        ),
        Err(UnmarshalError::InvalidObjectPath)
    );
    // A signature value that does not parse.
    assert_eq!(
        unmarshal_base(
            signature::Base::Signature,
            ByteOrder::LittleEndian,
            &[1, 0x28, 0],
            &[],
            0
        ),
        Err(UnmarshalError::InvalidSignature)
    );
    // An fd index with no fd table entry behind it.
    assert_eq!(
        unmarshal_base(
            signature::Base::UnixFd,
            ByteOrder::LittleEndian,
            &[0, 0, 0, 0],
            &[],
            0
        ),
        Err(UnmarshalError::UnixFdIndexOutOfRange)
    );
    // An array length prefix over the cap.
    let sig = signature::Type::parse_description("ai").unwrap().remove(0);
    let mut offset = 0usize;
    assert_eq!(
        unmarshal_param(
            &sig,
            ByteOrder::LittleEndian,
            &[0xFF, 0xFF, 0xFF, 0x07],
            &[],
            &mut offset
        ),
        Err(UnmarshalError::ArraySizeTooLarge)
    );
    // A variant whose inner signature nests too deeply.
    let mut bytes = Vec::new();
    let deep = format!("{}y", "a".repeat(33));
    bytes.push(deep.len() as u8);
    bytes.extend_from_slice(deep.as_bytes());
    bytes.push(0);
    bytes.extend_from_slice(&[0, 0, 0, 0]);
    let sig = signature::Type::Container(signature::Container::Variant);
    let mut offset = 0usize;
    assert_eq!(
        unmarshal_param(&sig, ByteOrder::LittleEndian, &bytes, &[], &mut offset),
        Err(UnmarshalError::NestingTooDeep)
    );
}

#[test]
fn test_conversions() {
    assert_eq!(i32::try_from(&Base::Int32(5)), Ok(5));
    assert_eq!(u8::try_from(&Base::Byte(7)), Ok(7));
    assert_eq!(bool::try_from(&Base::Boolean(true)), Ok(true));
    assert_eq!(u64::try_from(&Base::Uint64(9)), Ok(9));
    assert_eq!(String::try_from(&Base::String(String::from("x"))), Ok(String::from("x")));
    assert!(bool::try_from(&Base::Int32(1)).is_err());
    assert!(i16::try_from(&Base::Uint16(1)).is_err());

    assert_eq!(signature::Base::from(&Base::Int32(1)), signature::Base::Int32);
    let t = signature::Type::from(&Param::from(1u32));
    assert_eq!(t, signature::Type::Base(signature::Base::Uint32));

    assert!(Container::try_from(Vec::<Param>::new()).is_err());
    assert!(
        Container::try_from(vec![Param::from(1i32), Param::from(2u32)]).is_err()
    );
}
