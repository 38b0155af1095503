use supersrg::names::{FieldData, JavaClass};
use supersrg::descriptor::{MethodData, MethodSignature};
use supersrg::store::{MappingsBuilder, PackageTransformer};

fn test_classes() -> Vec<(JavaClass, JavaClass)> {
    vec![
        (
            JavaClass::new("net/techcable/Example"),
            JavaClass::new("com/example/Box"),
        ),
        (
            JavaClass::new("NotPackaged"),
            JavaClass::new("com/example/Packaged"),
        ),
    ]
}

fn test_methods() -> Vec<(MethodData, MethodData)> {
    vec![
        (
            MethodData::parse_internal_name(
                "net/techcable/Example/bob",
                MethodSignature::new("(LNotPackaged;I)V"),
            )
            .unwrap(),
            MethodData::parse_internal_name(
                "com/example/Box/foo",
                MethodSignature::new("(Lcom/example/Packaged;I)V"),
            )
            .unwrap(),
        ),
        (
            MethodData::parse_internal_name(
                "net/techcable/Example/eat",
                MethodSignature::new("(Lunchanged/ExampleClass;I)V"),
            )
            .unwrap(),
            MethodData::parse_internal_name(
                "com/example/Box/consume",
                MethodSignature::new("(Lunchanged/ExampleClass;I)V"),
            )
            .unwrap(),
        ),
    ]
}

fn test_fields() -> Vec<(FieldData, FieldData)> {
    vec![
        (
            FieldData::parse_internal_name("unchanged/ExampleClass/foo").unwrap(),
            FieldData::parse_internal_name("unchanged/ExampleClass/bar").unwrap(),
        ),
    ]
}

fn test_builder() -> MappingsBuilder {
    let mut builder = MappingsBuilder::new();
    for (original, renamed) in test_classes() {
        builder.insert_class(original, renamed).unwrap();
    }
    for (original, renamed) in test_methods() {
        builder.insert_method(original, renamed.name).unwrap();
    }
    for (original, renamed) in test_fields() {
        builder.insert_field(original, renamed.name).unwrap();
    }
    builder
}

#[test]
fn build_test() {
    let builder = test_builder();
    let result = builder.build();
    for (original, renamed) in test_classes() {
        assert_eq!(result.get_class(&original), renamed);
    }
    assert_eq!(
        result.get_class(&JavaClass::new("unchanged/ExampleClass")),
        JavaClass::new("unchanged/ExampleClass")
    );
    for (original, renamed) in test_methods() {
        assert_eq!(result.get_method(&original), renamed);
    }
    let implcitly_remapped = MethodData::parse_internal_name(
        "net/techcable/Example/implicit",
        MethodSignature::new("(ILNotPackaged;I)V"),
    )
    .unwrap();
    assert_eq!(
        result.get_method(&implcitly_remapped),
        MethodData::parse_internal_name(
            "com/example/Box/implicit",
            MethodSignature::new("(ILcom/example/Packaged;I)V"),
        )
        .unwrap()
    );
    for (original, renamed) in test_fields() {
        assert_eq!(result.get_field(&original), renamed);
    }
}

#[test]
fn chain_test() {
    let mut original = test_builder();
    let mut chained = MappingsBuilder::new();
    chained
        .insert_class(
            JavaClass::new("com/example/Box"),
            JavaClass::new("net/techcable/chained/ChainedBox"),
        )
        .unwrap();
    chained
        .insert_method(
            MethodData::parse_internal_name(
                "com/example/Box/consume",
                MethodSignature::new("(Lunchanged/ExampleClass;I)V"),
            )
            .unwrap(),
            String::from("party"),
        )
        .unwrap();
    original.chain(&chained);
    let result = original.build();
    assert_eq!(
        result.get_method(
            &MethodData::parse_internal_name(
                "net/techcable/Example/eat",
                MethodSignature::new("(Lunchanged/ExampleClass;I)V"),
            )
            .unwrap()
        ),
        MethodData::parse_internal_name(
            "net/techcable/chained/ChainedBox/party",
            MethodSignature::new("(Lunchanged/ExampleClass;I)V"),
        )
        .unwrap()
    );
}

#[test]
fn chain_with_empty_changes_nothing() {
    let mut original = test_builder();
    let before = original.build();
    let empty = MappingsBuilder::new();
    original.chain(&empty);
    let after = original.build();
    assert_eq!(before.classes, after.classes);
    assert_eq!(before.fields, after.fields);
    assert_eq!(before.methods, after.methods);
}

#[test]
fn reverse_twice_restores_names() {
    let mut builder = MappingsBuilder::new();
    builder
        .insert_class(JavaClass::new("a/A"), JavaClass::new("b/B"))
        .unwrap();
    builder
        .insert_field(
            FieldData::parse_internal_name("a/A/x").unwrap(),
            String::from("y"),
        )
        .unwrap();
    builder.reverse();
    builder.reverse();
    let result = builder.build();
    assert_eq!(result.get_class(&JavaClass::new("a/A")), JavaClass::new("b/B"));
    let f = result.get_field(&FieldData::parse_internal_name("a/A/x").unwrap());
    assert_eq!(f.name, "y");
    assert_eq!(f.class, JavaClass::new("b/B"));
}

#[test]
fn insert_rejects_bad_names() {
    let mut builder = MappingsBuilder::new();
    assert!(builder
        .insert_class(JavaClass::new("a.b"), JavaClass::new("ok/Name"))
        .is_err());
    assert!(builder
        .insert_class(JavaClass::new(""), JavaClass::new("ok/Name"))
        .is_err());
    assert!(builder
        .insert_field(
            FieldData {
                class: JavaClass::new("ok/Name"),
                name: String::from(""),
            },
            String::from("x"),
        )
        .is_err());
    assert_eq!(builder.classes.len(), 0);
    assert_eq!(builder.field_names.len(), 0);
}

#[test]
fn package_transformer_moves_classes() {
    let mut builder = MappingsBuilder::new();
    builder
        .insert_class(JavaClass::new("aa"), JavaClass::new("EntityCow"))
        .unwrap();
    let transformer = PackageTransformer::single(
        String::from(""),
        String::from("net/minecraft/server"),
    );
    builder.transform(&transformer);
    let result = builder.build();
    assert_eq!(
        result.get_class(&JavaClass::new("aa")),
        JavaClass::new("net/minecraft/server/EntityCow")
    );
}

#[test]
fn entry_counts() {
    let mut builder = MappingsBuilder::new();
    builder
        .insert_class(JavaClass::new("a"), JavaClass::new("Cow"))
        .unwrap();
    builder
        .insert_field(
            FieldData {
                class: JavaClass::new("a"),
                name: String::from("b"),
            },
            String::from("size"),
        )
        .unwrap();
    assert_eq!(builder.num_classes(), 1);
    assert_eq!(builder.num_fields(), 1);
    assert_eq!(builder.num_methods(), 0);
    let snapshot = builder.snapshot();
    assert_eq!(snapshot.num_classes(), 1);
    assert_eq!(snapshot.num_fields(), 1);
    assert_eq!(snapshot.num_methods(), 0);
}
