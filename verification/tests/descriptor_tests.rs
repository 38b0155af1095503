use supersrg::descriptor::{JavaType, MethodDescriptorParseError, MethodSignature, PrimitiveType,
    TypeDescriptorParseError};
use supersrg::names::{JavaClass, NameParseError};

#[test]
fn parse_primitive_and_class_types() {
    assert!(matches!(
        JavaType::parse_descriptor("I").unwrap(),
        JavaType::Primitive(PrimitiveType::Int)
    ));
    match JavaType::parse_descriptor("Ljava/lang/String;").unwrap() {
        JavaType::Class(c) => assert_eq!(c, JavaClass::new("java/lang/String")),
        other => panic!("unexpected {:?}", other),
    }
    match JavaType::parse_descriptor("[[Z").unwrap() {
        JavaType::Array { dimensions, .. } => assert_eq!(dimensions, 2),
        other => panic!("unexpected {:?}", other),
    }
}

#[test]
fn parse_type_errors() {
    assert!(matches!(
        JavaType::parse_descriptor(""),
        Err(TypeDescriptorParseError::EmptyDescriptor)
    ));
    assert!(matches!(
        JavaType::parse_descriptor("Q"),
        Err(TypeDescriptorParseError::InvalidStart('Q'))
    ));
    assert!(matches!(
        JavaType::parse_descriptor("Ljava/lang/String"),
        Err(TypeDescriptorParseError::UnclosedClassDescriptor)
    ));
    assert!(matches!(
        JavaType::parse_descriptor("[["),
        Err(TypeDescriptorParseError::EmptyArray { dimensions: 2 })
    ));
    assert!(matches!(
        JavaType::parse_descriptor("II"),
        Err(TypeDescriptorParseError::UnexpectedlyLong {
            expected: 1,
            actual: 2
        })
    ));
    assert!(matches!(
        JavaType::parse_descriptor("[Q"),
        Err(TypeDescriptorParseError::InvalidElementDescriptor { dimensions: 1, .. })
    ));
}

#[test]
fn parse_method_signatures() {
    let parsed = MethodSignature::new("(ZLjava/lang/String;I)V").parse().unwrap();
    assert_eq!(parsed.parameter_types.len(), 3);
    assert!(matches!(
        parsed.return_type,
        JavaType::Primitive(PrimitiveType::Void)
    ));
    assert_eq!(parsed.descriptor(), "(ZLjava/lang/String;I)V");
    assert!(matches!(
        MethodSignature::new("").parse(),
        Err(MethodDescriptorParseError::EmptyDescriptor)
    ));
    assert!(matches!(
        MethodSignature::new("I").parse(),
        Err(MethodDescriptorParseError::UnopenedDescriptor)
    ));
    assert!(matches!(
        MethodSignature::new("(I").parse(),
        Err(MethodDescriptorParseError::UnclosedDescriptor)
    ));
    assert!(matches!(
        MethodSignature::new("(Q)V").parse(),
        Err(MethodDescriptorParseError::InvalidParameterType { .. })
    ));
    assert!(matches!(
        MethodSignature::new("(I)QQ").parse(),
        Err(MethodDescriptorParseError::InvalidReturnType { .. })
    ));
}

#[test]
fn primitive_descriptor_round_trip() {
    for (p, c) in [
        (PrimitiveType::Byte, 'B'),
        (PrimitiveType::Short, 'S'),
        (PrimitiveType::Int, 'I'),
        (PrimitiveType::Long, 'J'),
        (PrimitiveType::Double, 'D'),
        (PrimitiveType::Float, 'F'),
        (PrimitiveType::Char, 'C'),
        (PrimitiveType::Boolean, 'Z'),
        (PrimitiveType::Void, 'V'),
    ] {
        assert_eq!(p.descriptor(), c);
        assert_eq!(PrimitiveType::from_descriptor(c), Some(p));
    }
    assert_eq!(PrimitiveType::from_descriptor('Q'), None);
}

#[test]
fn parse_names() {
    assert!(matches!(
        JavaClass::parse_internal_name(""),
        Err(NameParseError::EmptyClassName)
    ));
    assert!(matches!(
        JavaClass::parse_internal_name("com.example.Dots"),
        Err(NameParseError::UnexpectedDot(3))
    ));
    assert!(matches!(
        JavaClass::parse_internal_name("bad;name"),
        Err(NameParseError::UnexpectedSemicolon(3))
    ));
    let c = JavaClass::parse_internal_name("com/example/Fine").unwrap();
    assert_eq!(c.internal_name(), "com/example/Fine");
    assert!(matches!(
        supersrg::names::FieldData::parse_internal_name("noslash"),
        Err(NameParseError::MissingSeparator)
    ));
    assert!(matches!(
        supersrg::names::FieldData::parse_internal_name("trailing/"),
        Err(NameParseError::EmptyMemberName)
    ));
    assert!(matches!(
        supersrg::names::FieldData::parse_internal_name(""),
        Err(NameParseError::EmptyName)
    ));
}
