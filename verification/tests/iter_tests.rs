use rustbus::ByteOrder;
use rustbus::marshal::{marshal_container_param, MarshalContext};
use rustbus::params::{Base, Container, Param};
use rustbus::signature;
use rustbus::unmarshal::{MessageIter, ParamIter};

fn le_context() -> MarshalContext {
    MarshalContext { buf: Vec::new(), fds: Vec::new(), byteorder: ByteOrder::LittleEndian }
}

#[test]
fn test_array_iter() {
    let arr = Container::try_from(vec![
        Param::from(0i32),
        Param::from(1i32),
        Param::from(2i32),
    ])
    .unwrap();

    let mut ctx = le_context();
    marshal_container_param(&arr, &mut ctx).unwrap();
    let buf = ctx.buf;
    let mut offset = 0usize;

    let sig = signature::Type::Container(arr.sig());

    let mut iter = ParamIter::new(&sig, &mut offset, &buf, ByteOrder::LittleEndian)
        .unwrap()
        .unwrap();

    let mut ints = Vec::new();
    while let Some(base) = iter.recurse(&buf, &mut offset) {
        if let Base::Int32(i) = base.unwrap().base().unwrap() {
            ints.push(i);
        }
    }

    assert_eq!(&[0, 1, 2], ints.as_slice());
}

#[test]
fn test_struct_iter() {
    let s = Container::Struct(vec![
        Param::from(0i32),
        Param::from(String::from("TestTest")),
        Param::from(2i32),
        Param::from(Container::Struct(vec![
            Param::from(1i32),
            Param::from(String::from("InnerTestTest")),
            Param::from(3i32),
        ])),
    ]);
    let mut ctx = le_context();
    marshal_container_param(&s, &mut ctx).unwrap();
    let buf = ctx.buf;
    let mut offset = 0usize;

    let sig = signature::Type::Container(s.sig());

    let mut iter = ParamIter::new(&sig, &mut offset, &buf, ByteOrder::LittleEndian)
        .unwrap()
        .unwrap();

    let mut ints = Vec::new();
    let mut strings: Vec<String> = Vec::new();
    while let Some(sub) = iter.recurse(&buf, &mut offset) {
        let mut sub_iter = sub.unwrap();
        if sub_iter.is_base() {
            match sub_iter.base() {
                Some(Base::Int32(i)) => ints.push(i),
                Some(Base::String(sp)) => strings.push(sp),
                _ => unreachable!(),
            }
        } else {
            while let Some(base) = sub_iter.recurse(&buf, &mut offset) {
                match base.unwrap().base() {
                    Some(Base::Int32(i)) => ints.push(i),
                    Some(Base::String(sp)) => strings.push(sp),
                    None => {}
                    _ => unreachable!(),
                }
            }
        }
    }

    assert_eq!(&[0, 2, 1, 3], ints.as_slice());
    assert_eq!(
        &["TestTest".to_owned(), "InnerTestTest".to_owned()],
        strings.as_slice()
    );

    let msg_sig = vec![sig];
    offset = 0;
    let mut iter = MessageIter::new(ByteOrder::LittleEndian, msg_sig);
    let x = iter.unmarshal_next(&buf, &[], &mut offset).unwrap().unwrap();

    let expected = Param::Container(Container::Struct(vec![
        Param::from(0i32),
        Param::from(String::from("TestTest")),
        Param::from(2i32),
        Param::from(Container::Struct(vec![
            Param::from(1i32),
            Param::from(String::from("InnerTestTest")),
            Param::from(3i32),
        ])),
    ]));
    assert_eq!(x, expected);
}

#[test]
fn test_variant_iter() {
    let v = Container::Variant(Box::new(Param::from(7i32)));
    let mut ctx = le_context();
    marshal_container_param(&v, &mut ctx).unwrap();
    assert_eq!(ctx.buf, vec![0x01, 0x69, 0x00, 0x00, 0x07, 0x00, 0x00, 0x00]);

    let buf = ctx.buf;
    let mut offset = 0usize;
    let sig = signature::Type::Container(signature::Container::Variant);
    let mut iter = ParamIter::new(&sig, &mut offset, &buf, ByteOrder::LittleEndian)
        .unwrap()
        .unwrap();
    let inner = iter.recurse(&buf, &mut offset).unwrap().unwrap();
    assert_eq!(inner.base(), Some(Base::Int32(7)));
    assert!(iter.recurse(&buf, &mut offset).is_none());
}

#[test]
fn test_dict_iter() {
    let d = Container::try_from(vec![(
        Base::String(String::from("a")),
        Param::from(1i32),
    )])
    .unwrap();
    let mut ctx = le_context();
    marshal_container_param(&d, &mut ctx).unwrap();
    let buf = ctx.buf;
    let mut offset = 0usize;
    let sig = signature::Type::Container(d.sig());
    let mut iter = ParamIter::new(&sig, &mut offset, &buf, ByteOrder::LittleEndian)
        .unwrap()
        .unwrap();
    let mut entry = iter.recurse(&buf, &mut offset).unwrap().unwrap();
    let key = entry.recurse(&buf, &mut offset).unwrap().unwrap();
    assert_eq!(key.base(), Some(Base::String(String::from("a"))));
    let val = entry.recurse(&buf, &mut offset).unwrap().unwrap();
    assert_eq!(val.base(), Some(Base::Int32(1)));
    assert!(entry.recurse(&buf, &mut offset).is_none());
    assert!(iter.recurse(&buf, &mut offset).is_none());
}
