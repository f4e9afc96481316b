use rustbus::signature::{Base, Error, Type};

fn parse_and_back(s: &str) {
    let mut sig = String::new();
    for i in Type::parse_description(s).unwrap().iter() {
        i.to_str(&mut sig)
    }
    assert_eq!(sig, s);
}

#[test]
fn test_base_to_str() {
    {
        let mut s = String::new();
        Type::Base(Base::Boolean).to_str(&mut s);
        assert_eq!(s, "b");
    };
    {
        let mut s = String::new();
        Type::Base(Base::Byte).to_str(&mut s);
        assert_eq!(s, "y");
    };
    {
        let mut s = String::new();

        Type::Base(Base::Int16).to_str(&mut s);
        assert_eq!(s, "n");
    };
    {
        let mut s = String::new();
        Type::Base(Base::Uint16).to_str(&mut s);
        assert_eq!(s, "q");
    };
    {
        let mut s = String::new();
        Type::Base(Base::Int32).to_str(&mut s);
        assert_eq!(s, "i");
    };
    {
        let mut s = String::new();
        Type::Base(Base::Uint32).to_str(&mut s);
        assert_eq!(s, "u");
    };
    {
        let mut s = String::new();
        Type::Base(Base::Int64).to_str(&mut s);
        assert_eq!(s, "x");
    };
    {
        let mut s = String::new();
        Type::Base(Base::Uint64).to_str(&mut s);
        assert_eq!(s, "t");
    };
    {
        let mut s = String::new();
        Type::Base(Base::Double).to_str(&mut s);
        assert_eq!(s, "d");
    };
    {
        let mut s = String::new();
        Type::Base(Base::String).to_str(&mut s);
        assert_eq!(s, "s");
    };
    {
        let mut s = String::new();
        Type::Base(Base::UnixFd).to_str(&mut s);
        assert_eq!(s, "h");
    };
    {
        let mut s = String::new();
        Type::Base(Base::ObjectPath).to_str(&mut s);
        assert_eq!(s, "o");
    };
    {
        let mut s = String::new();
        Type::Base(Base::Boolean).to_str(&mut s);
        assert_eq!(s, "b");
    };
    {
        let mut s = String::new();
        Type::Base(Base::Signature).to_str(&mut s);
        assert_eq!(s, "g");
    };
}

#[test]
fn test_parse_description() {
    parse_and_back("b");
    parse_and_back("y");
    parse_and_back("n");
    parse_and_back("q");
    parse_and_back("i");
    parse_and_back("x");
    parse_and_back("t");
    parse_and_back("s");
    parse_and_back("h");
    parse_and_back("o");
    parse_and_back("b");
    parse_and_back("g");
    parse_and_back("v");

    parse_and_back("(si)");
    parse_and_back("a(si)");
    parse_and_back("a(sa(sv))");

    parse_and_back("a{si}");
    parse_and_back("a{s(dv)}");
    parse_and_back("a{s(dv)}");
    parse_and_back("aa{si}");
    parse_and_back("aaaa{si}");
}

#[test]
fn test_signature_boundaries() {
    assert_eq!(Type::parse_description(""), Err(Error::EmptySignature));
    let ok255 = "y".repeat(255);
    assert!(Type::parse_description(&ok255).is_ok());
    let too_long = "y".repeat(256);
    assert_eq!(Type::parse_description(&too_long), Err(Error::SignatureTooLong));
    assert_eq!(Type::parse_description("()"), Err(Error::EmptyStruct));
    assert_eq!(Type::parse_description("{si}"), Err(Error::InvalidSignature));
    assert_eq!(Type::parse_description("a"), Err(Error::InvalidSignature));
    assert_eq!(Type::parse_description("(i"), Err(Error::InvalidSignature));
    assert_eq!(Type::parse_description("i)"), Err(Error::InvalidSignature));
    assert_eq!(Type::parse_description("z"), Err(Error::InvalidSignature));
}

#[test]
fn test_nesting_limits() {
    let deep_ok = format!("{}y", "a".repeat(32));
    assert!(Type::parse_description(&deep_ok).is_ok());
    let too_deep = format!("{}y", "a".repeat(33));
    assert_eq!(Type::parse_description(&too_deep), Err(Error::NestingTooDeep));

    let struct_ok = format!("{}y{}", "(".repeat(32), ")".repeat(32));
    assert!(Type::parse_description(&struct_ok).is_ok());
    let struct_deep = format!("{}y{}", "(".repeat(33), ")".repeat(33));
    assert_eq!(Type::parse_description(&struct_deep), Err(Error::NestingTooDeep));
}

#[test]
fn test_alignment_and_bit_pattern_queries() {
    assert_eq!(Base::Byte.get_alignment(), 1);
    assert_eq!(Base::Int16.get_alignment(), 2);
    assert_eq!(Base::Int32.get_alignment(), 4);
    assert_eq!(Base::Int64.get_alignment(), 8);
    assert_eq!(Base::String.get_alignment(), 4);
    assert_eq!(Base::Signature.get_alignment(), 1);
    assert_eq!(Base::Boolean.get_alignment(), 4);
    let arr = Type::parse_description("ai").unwrap().remove(0);
    assert_eq!(arr.get_alignment(), 4);
    let st = Type::parse_description("(y)").unwrap().remove(0);
    assert_eq!(st.get_alignment(), 8);
    let var = Type::parse_description("v").unwrap().remove(0);
    assert_eq!(var.get_alignment(), 1);

    assert!(Base::Byte.bytes_always_valid());
    assert!(Base::Uint32.bytes_always_valid());
    assert!(Base::Double.bytes_always_valid());
    assert!(!Base::Boolean.bytes_always_valid());
    assert!(!Base::Int32.bytes_always_valid());
    assert!(!Base::String.bytes_always_valid());
    assert!(!arr.bytes_always_valid());
    assert!(Type::Base(Base::UnixFd).bytes_always_valid());
}
