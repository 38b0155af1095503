use supersrg::mcp::McpMappings;
use supersrg::names::{FieldData, JavaClass};
use supersrg::descriptor::{MethodData, MethodSignature};
use supersrg::store::MappingsBuilder;
use supersrg::formats::{format_for_extension, full_extension, MappingsFileFormat, OutputFormat};
use supersrg::targets::{MappingsFormat, MappingsTarget, MappingsTargetComputerBuilder,
    PrimitiveSources, TargetModifier};

fn sources() -> PrimitiveSources {
    let mut obf2srg = MappingsBuilder::new();
    obf2srg
        .insert_class(JavaClass::new("aa"), JavaClass::new("net/minecraft/EntityCow"))
        .unwrap();
    obf2srg
        .insert_field(
            FieldData::parse_internal_name("aa/b").unwrap(),
            String::from("field_1000_health"),
        )
        .unwrap();
    obf2srg
        .insert_method(
            MethodData::parse_internal_name("aa/c", MethodSignature::new("()V")).unwrap(),
            String::from("func_2000_moo"),
        )
        .unwrap();
    let mut spigot_classes = MappingsBuilder::new();
    spigot_classes
        .insert_class(JavaClass::new("aa"), JavaClass::new("EntityCow"))
        .unwrap();
    let mut spigot_members = MappingsBuilder::new();
    spigot_members
        .insert_field(
            FieldData::parse_internal_name("EntityCow/b").unwrap(),
            String::from("health"),
        )
        .unwrap();
    let mut mcp = McpMappings::new();
    mcp.fields.push((
        String::from("field_1000_health"),
        String::from("cowHealth"),
    ));
    mcp.methods.push((String::from("func_2000_moo"), String::from("moo")));
    PrimitiveSources {
        obf2srg,
        spigot_class_mappings: spigot_classes,
        spigot_member_mappings: spigot_members,
        mcp,
    }
}

#[test]
fn target_parsing() {
    let t = MappingsTarget::parse("spigot2mcp").unwrap();
    assert_eq!(t.original, MappingsFormat::Spigot);
    assert_eq!(t.renamed, MappingsFormat::Mcp);
    assert_eq!(t.modifier, None);
    let t = MappingsTarget::parse("spigot2mcp-onlyobf").unwrap();
    assert_eq!(t.modifier, Some(TargetModifier::Onlyobf));
    let t = MappingsTarget::parse("obf2srg-classes").unwrap();
    assert_eq!(t.modifier, Some(TargetModifier::Classes));
    assert!(MappingsTarget::parse("srg2srg").is_err());
    assert!(MappingsTarget::parse("what2ever").is_err());
    assert!(MappingsTarget::parse("nonsense").is_err());
    assert!(MappingsTarget::parse("obf2srg-sideways").is_err());
    assert_eq!(
        MappingsTarget::parse("spigot2mcp-onlyobf").unwrap().name(),
        "spigot2mcp-onlyobf"
    );
}

#[test]
fn scheduler_dependency() {
    let mut cb = MappingsTargetComputerBuilder::new(String::from("1.12.2"));
    let requested = vec![MappingsTarget::parse("spigot2mcp").unwrap()];
    cb.targets(&requested);
    let mut computer = cb.build(sources());
    computer.compute_target_work().unwrap();
    // the transitive closure is computed, each target exactly once
    for name in [
        "spigot2mcp",
        "spigot2obf",
        "obf2spigot",
        "obf2srg",
        "srg2mcp",
        "obf2mcp",
    ] {
        let t = MappingsTarget::parse(name).unwrap();
        let hits = computer
            .results()
            .iter()
            .filter(|(rt, _)| *rt == t)
            .count();
        assert_eq!(hits, 1, "{} computed once", name);
    }
    // the composed value agrees with chaining the pieces by hand:
    // spigot2mcp == chain(reverse(obf2spigot), chain(obf2srg, srg2mcp))
    let spigot2mcp = MappingsTarget::parse("spigot2mcp").unwrap();
    let result = computer.find_result(&spigot2mcp).unwrap();
    // EntityCow (spigot, moved into net/minecraft/server) maps to the
    // srg class name, and the spigot field b -> cowHealth
    assert_eq!(
        result.get_class(&JavaClass::new("net/minecraft/server/EntityCow")),
        JavaClass::new("net/minecraft/EntityCow")
    );
}

#[test]
fn scheduler_modifiers() {
    let mut cb = MappingsTargetComputerBuilder::new(String::from("1.12.2"));
    let requested = vec![MappingsTarget::parse("obf2srg-classes").unwrap()];
    cb.targets(&requested);
    let mut computer = cb.build(sources());
    computer.compute_target_work().unwrap();
    let t = MappingsTarget::parse("obf2srg-classes").unwrap();
    let result = computer.find_result(&t).unwrap();
    assert_eq!(result.fields.len(), 0);
    assert_eq!(result.methods.len(), 0);
    assert_eq!(
        result.get_class(&JavaClass::new("aa")),
        JavaClass::new("net/minecraft/EntityCow")
    );
}

#[test]
fn formats_helpers() {
    assert_eq!(full_extension("a/b/c.srg.dat").as_deref(), Some("srg.dat"));
    assert_eq!(full_extension("plain"), None);
    assert_eq!(
        format_for_extension("srg.dat"),
        Some(MappingsFileFormat::Binary)
    );
    assert_eq!(format_for_extension("csrg"), Some(MappingsFileFormat::Csrg));
    assert_eq!(format_for_extension("srg"), Some(MappingsFileFormat::Srg));
    assert_eq!(format_for_extension("txt"), None);
    assert_eq!(OutputFormat::parse("binary"), Some(OutputFormat::Binary));
    assert_eq!(OutputFormat::Srg.extension(), "srg");
    assert_eq!(OutputFormat::Binary.extension(), "srg.dat");
}
