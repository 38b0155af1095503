use supersrg::codec::{BinaryMappingError, MappingsDecoder, MappingsEncoder, SimpleDecoder,
    SimpleEncoder, magic_vec, MappingsCompressionFormat};
use supersrg::names::{FieldData, JavaClass};
use supersrg::descriptor::{MethodData, MethodSignature};
use supersrg::store::MappingsBuilder;

fn sample_builder() -> MappingsBuilder {
    let mut builder = MappingsBuilder::new();
    builder
        .insert_class(JavaClass::new("aa"), JavaClass::new("com/example/Cow"))
        .unwrap();
    builder
        .insert_class(JavaClass::new("ab"), JavaClass::new("com/example/Pig"))
        .unwrap();
    builder
        .insert_field(
            FieldData::parse_internal_name("aa/x").unwrap(),
            String::from("health"),
        )
        .unwrap();
    builder
        .insert_method(
            MethodData::parse_internal_name("ab/go", MethodSignature::new("(Laa;)V")).unwrap(),
            String::from("feed"),
        )
        .unwrap();
    builder
}

#[test]
fn binary_round_trip_uncompressed() {
    let builder = sample_builder();
    let snapshot = builder.build();
    let bytes = MappingsEncoder::uncompressed().encode(&snapshot).unwrap();
    let mut decoded = MappingsBuilder::new();
    MappingsDecoder::new(bytes).decode(&mut decoded).unwrap();
    assert_eq!(decoded.classes, builder.classes);
    assert_eq!(decoded.field_names, builder.field_names);
    assert_eq!(decoded.method_names, builder.method_names);
}

#[test]
fn binary_round_trip_lz4() {
    let builder = sample_builder();
    let snapshot = builder.build();
    let bytes = MappingsEncoder::new().encode(&snapshot).unwrap();
    let mut decoded = MappingsBuilder::new();
    MappingsDecoder::new(bytes).decode(&mut decoded).unwrap();
    assert_eq!(decoded.classes, builder.classes);
    assert_eq!(decoded.field_names, builder.field_names);
    assert_eq!(decoded.method_names, builder.method_names);
}

#[test]
fn binary_rejects_unchanged_field() {
    let mut enc = SimpleEncoder(magic_vec());
    enc.write_u32(1);
    enc.write_string("");
    enc.write_u64(1);
    enc.write_string("com/example/A");
    enc.write_string("");
    enc.write_u32(0);
    enc.write_u32(1);
    enc.write_string("same");
    enc.write_string("same");
    let mut decoded = MappingsBuilder::new();
    let err = MappingsDecoder::new(enc.0).decode(&mut decoded).unwrap_err();
    assert!(matches!(err, BinaryMappingError::UnchangedField(_)));
}

#[test]
fn binary_rejects_bad_header_and_version() {
    let mut decoded = MappingsBuilder::new();
    let err = MappingsDecoder::new(vec![1, 2, 3])
        .decode(&mut decoded)
        .unwrap_err();
    assert!(matches!(err, BinaryMappingError::UnexpectedHeader(_)));
    let mut enc = SimpleEncoder(magic_vec());
    enc.write_u32(7);
    let err = MappingsDecoder::new(enc.0).decode(&mut decoded).unwrap_err();
    assert!(matches!(err, BinaryMappingError::UnexpectedVersion(7)));
}

#[test]
fn binary_rejects_trailing_bytes() {
    let builder = sample_builder();
    let snapshot = builder.build();
    let mut bytes = MappingsEncoder::uncompressed().encode(&snapshot).unwrap();
    bytes.push(0);
    let mut decoded = MappingsBuilder::new();
    let err = MappingsDecoder::new(bytes).decode(&mut decoded).unwrap_err();
    assert!(matches!(err, BinaryMappingError::UnexpectedTrailing(_)));
}

#[test]
fn binary_rejects_forbidden_compression() {
    let mut enc = SimpleEncoder(magic_vec());
    enc.write_u32(1);
    enc.write_string("zstd");
    let mut decoded = MappingsBuilder::new();
    let err = MappingsDecoder::new(enc.0).decode(&mut decoded).unwrap_err();
    assert!(matches!(err, BinaryMappingError::ForbiddenCompression(_)));
}

#[test]
fn binary_reports_unsupported_compression() {
    let mut enc = SimpleEncoder(magic_vec());
    enc.write_u32(1);
    enc.write_string("lzma2");
    let mut decoded = MappingsBuilder::new();
    let err = MappingsDecoder::new(enc.0).decode(&mut decoded).unwrap_err();
    assert!(matches!(
        err,
        BinaryMappingError::UnsupportedCompression(MappingsCompressionFormat::Lzma2)
    ));
}

#[test]
fn identity_class_lines_are_dropped() {
    let mut enc = SimpleEncoder(magic_vec());
    enc.write_u32(1);
    enc.write_string("");
    enc.write_u64(1);
    enc.write_string("com/example/Same");
    enc.write_string("com/example/Same");
    enc.write_u32(0);
    enc.write_u32(0);
    let mut decoded = MappingsBuilder::new();
    MappingsDecoder::new(enc.0).decode(&mut decoded).unwrap();
    assert_eq!(decoded.classes.len(), 0);
}

#[test]
fn simple_codec_round_trips_values() {
    let mut enc = SimpleEncoder(Vec::new());
    enc.write_u16(0xABCD);
    enc.write_u32(0xDEADBEEF);
    enc.write_u64(0x0123456789ABCDEF);
    enc.write_string("hello");
    let mut dec = SimpleDecoder::new(enc.0);
    assert_eq!(dec.read_u16().unwrap(), 0xABCD);
    assert_eq!(dec.read_u32().unwrap(), 0xDEADBEEF);
    assert_eq!(dec.read_u64().unwrap(), 0x0123456789ABCDEF);
    assert_eq!(dec.read_string().unwrap(), "hello");
    assert!(dec.read_u16().is_err());
}
