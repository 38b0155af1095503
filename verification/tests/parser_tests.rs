use supersrg::names::{FieldData, JavaClass};
use supersrg::descriptor::{MethodData, MethodSignature};
use supersrg::store::MappingsSnapshot;
use supersrg::text::{CompactSrgParser, SrgEncoder, SrgMappingsParser};

static SRG_TEST_DATA: &str = "PK: packages/should be/ignored\n\
CL: java/lang/String com/example/NotString\n\
CL: com/google/guava/base/Preconditions short/Preconditions\n\
CL: Unpackaged com/example/Unpackaged\n\
CL: com/example/Packaged NoLongerPackaged\n\
FD: com/example/Packaged/exists NoLongerPackaged/living\n\
MD: com/google/guava/base/Preconditions/checkArgument (ZLjava/lang/String;I)V short/Preconditions/requireArgument (ZLcom/example/NotString;I)V\n";

fn check_parsed(result: &MappingsSnapshot) {
    assert_eq!(
        result.get_class(&JavaClass::new("java/lang/String")),
        JavaClass::new("com/example/NotString")
    );
    assert_eq!(
        result.get_class(&JavaClass::new("com/google/guava/base/Preconditions")),
        JavaClass::new("short/Preconditions")
    );
    assert_eq!(
        result.get_class(&JavaClass::new("Unpackaged")),
        JavaClass::new("com/example/Unpackaged")
    );
    assert_eq!(
        result.get_class(&JavaClass::new("com/example/Packaged")),
        JavaClass::new("NoLongerPackaged")
    );
    assert_eq!(
        result.get_field(&FieldData::parse_internal_name("com/example/Packaged/exists").unwrap()),
        FieldData::parse_internal_name("NoLongerPackaged/living").unwrap()
    );
    assert_eq!(
        result.get_field(&FieldData::parse_internal_name("com/example/Packaged/implicit").unwrap()),
        FieldData::parse_internal_name("NoLongerPackaged/implicit").unwrap()
    );
    assert_eq!(
        result.get_method(
            &MethodData::parse_internal_name(
                "com/google/guava/base/Preconditions/checkArgument",
                MethodSignature::new("(ZLjava/lang/String;I)V"),
            )
            .unwrap()
        ),
        MethodData::parse_internal_name(
            "short/Preconditions/requireArgument",
            MethodSignature::new("(ZLcom/example/NotString;I)V"),
        )
        .unwrap()
    );
    let implicit_method = MethodData::parse_internal_name(
        "com/google/guava/base/Preconditions/checkState",
        MethodSignature::new("(ZLjava/lang/String;I)V"),
    )
    .unwrap();
    assert!(result.try_get_method(&implicit_method).is_none());
    assert_eq!(
        result.get_method(&implicit_method),
        MethodData::parse_internal_name(
            "short/Preconditions/checkState",
            MethodSignature::new("(ZLcom/example/NotString;I)V"),
        )
        .unwrap()
    );
}

#[test]
fn srg_parse_test() {
    let mut parser = SrgMappingsParser::default();
    parser.parse_text(SRG_TEST_DATA).expect("Failed to parse test data");
    let builder = parser.finish();
    let result = builder.build();
    check_parsed(&result);
}

#[test]
fn csrg_parse_test() {
    let data = "java/lang/String com/example/NotString\n\
com/google/guava/base/Preconditions short/Preconditions\n\
Unpackaged com/example/Unpackaged\n\
com/example/Packaged NoLongerPackaged\n\
com/example/Packaged exists living\n\
com/google/guava/base/Preconditions checkArgument (ZLjava/lang/String;I)V requireArgument";
    let mut parser = CompactSrgParser::default();
    parser.parse_text(data).expect("Failed to parse test data");
    let builder = parser.finish();
    let result = builder.build();
    check_parsed(&result);
}

#[test]
fn srg_text_round_trip() {
    let input = "CL: java/lang/String com/example/NotString\n\
CL: com/google/guava/base/Preconditions short/Preconditions\n\
CL: Unpackaged com/example/Unpackaged\n\
CL: com/example/Packaged NoLongerPackaged\n\
FD: com/example/Packaged/exists NoLongerPackaged/living\n\
MD: com/google/guava/base/Preconditions/checkArgument (ZLjava/lang/String;I)V short/Preconditions/requireArgument (ZLcom/example/NotString;I)V\n";
    let mut parser = SrgMappingsParser::default();
    parser.parse_text(input).expect("parse");
    let snapshot = parser.finish().build();
    let mut out = String::new();
    SrgEncoder::new(&snapshot).write(&mut out);
    let mut expected_lines: Vec<&str> = input.lines().collect();
    let mut actual_lines: Vec<&str> = out.lines().collect();
    expected_lines.sort();
    actual_lines.sort();
    assert_eq!(expected_lines, actual_lines);
}

#[test]
fn srg_rejects_unknown_tag() {
    let mut parser = SrgMappingsParser::default();
    assert!(parser.parse_line("XX: what is this").is_err());
    assert!(parser.parse_line("# a comment").is_ok());
    assert!(parser.parse_line("").is_ok());
    assert!(parser.parse_line("CL: too many words here").is_err());
}

#[test]
fn implicit_class_remap_in_methods() {
    let input = "CL: java/lang/String com/example/NotString\n\
MD: a/m (Ljava/lang/String;)V a/m (Ljava/lang/String;)V\n";
    let mut parser = SrgMappingsParser::default();
    parser.parse_text(input).expect("parse");
    let result = parser.finish().build();
    let got = result.get_method(
        &MethodData::parse_internal_name("a/m", MethodSignature::new("(Ljava/lang/String;)V"))
            .unwrap(),
    );
    assert_eq!(got.signature.descriptor(), "(Lcom/example/NotString;)V");
}
