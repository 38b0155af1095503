use supersrg::codec::SimpleEncoder;
use supersrg::descriptor::{MethodData, MethodSignature};
use supersrg::names::JavaClass;
use supersrg::ranges::{FieldReference, FileLocation, MemberReference, MethodReference,
    RangeMapApplier};
use supersrg::store::MappingsBuilder;

fn method_ref(start: u32, end: u32, qualified: &str, descriptor: &str) -> MemberReference {
    MemberReference::Method(MethodReference {
        location: FileLocation { start, end },
        referenced_method: MethodData::parse_internal_name(
            qualified,
            MethodSignature::new(descriptor),
        )
        .unwrap(),
    })
}

#[test]
fn range_apply() {
    let input: Vec<u8> = b"foo.bar()".to_vec();
    let refs = vec![method_ref(4, 7, "a/Thing/bar", "()V")];
    let mut builder = MappingsBuilder::new();
    builder
        .insert_method(
            MethodData::parse_internal_name("a/Thing/bar", MethodSignature::new("()V")).unwrap(),
            String::from("baz"),
        )
        .unwrap();
    let mappings = builder.build();
    let applier = RangeMapApplier::new(&mappings);
    let (out, changed) = applier.apply_sorted(&refs, &input).unwrap();
    assert_eq!(out, b"foo.baz()".to_vec());
    assert_eq!(changed, 1);

    let empty = MappingsBuilder::new().build();
    let applier = RangeMapApplier::new(&empty);
    let (out, changed) = applier.apply_sorted(&refs, &input).unwrap();
    assert_eq!(out, input);
    assert_eq!(changed, 0);
}

#[test]
fn range_apply_rejects_wrong_name() {
    let input: Vec<u8> = b"foo.qux()".to_vec();
    let refs = vec![method_ref(4, 7, "a/Thing/bar", "()V")];
    let empty = MappingsBuilder::new().build();
    let applier = RangeMapApplier::new(&empty);
    assert!(applier.apply_sorted(&refs, &input).is_err());
}

#[test]
fn range_apply_rejects_overlap() {
    let input: Vec<u8> = b"barbar".to_vec();
    let refs = vec![
        method_ref(0, 3, "a/Thing/bar", "()V"),
        method_ref(2, 5, "a/Thing/rba", "()V"),
    ];
    let empty = MappingsBuilder::new().build();
    let applier = RangeMapApplier::new(&empty);
    assert!(applier.apply_sorted(&refs, &input).is_err());
}

#[test]
fn references_sort_by_start() {
    let ranges = supersrg::ranges::FileRanges {
        hash: None,
        field_references: vec![FieldReference {
            location: FileLocation { start: 10, end: 12 },
            referenced_field: supersrg::names::FieldData::parse_internal_name("a/A/f").unwrap(),
        }],
        method_references: vec![MethodReference {
            location: FileLocation { start: 2, end: 5 },
            referenced_method: MethodData::parse_internal_name(
                "a/A/m",
                MethodSignature::new("()V"),
            )
            .unwrap(),
        }],
    };
    let sorted = ranges.sorted();
    assert_eq!(sorted.len(), 2);
    assert_eq!(sorted[0].location().start, 2);
    assert_eq!(sorted[1].location().start, 10);
}

#[test]
fn reference_decoding() {
    let mut enc = SimpleEncoder(Vec::new());
    enc.write_u32(4);
    enc.write_u32(7);
    enc.write_string("a/Thing/bar");
    enc.write_string("()V");
    let decoded = MethodReference::decode_bytes(enc.0).unwrap();
    assert_eq!(decoded.location, FileLocation { start: 4, end: 7 });
    assert_eq!(decoded.referenced_method.class, JavaClass::new("a/Thing"));
    assert_eq!(decoded.referenced_method.name, "bar");
    assert_eq!(decoded.referenced_method.signature.descriptor(), "()V");

    let mut enc = SimpleEncoder(Vec::new());
    enc.write_u32(1);
    enc.write_u32(2);
    enc.write_string("a/Thing/f");
    let decoded = FieldReference::decode_bytes(enc.0).unwrap();
    assert_eq!(decoded.referenced_field.name, "f");

    let mut enc = SimpleEncoder(Vec::new());
    enc.write_u32(1);
    enc.write_u32(2);
    enc.write_string("a/Thing/f");
    enc.write_u16(3);
    assert!(FieldReference::decode_bytes(enc.0).is_err());
}

#[test]
fn assemble_merges_by_file() {
    let map = supersrg::ranges::assemble_range_map(
        vec![(String::from("A.java"), vec![1, 2])],
        vec![(String::from("B.java"), Vec::new())],
        vec![(String::from("A.java"), Vec::new())],
    );
    assert_eq!(map.files.len(), 2);
    assert!(map.find_file("A.java").is_some());
    assert!(map.find_file("B.java").is_some());
    assert!(map.find_file("C.java").is_none());
}
