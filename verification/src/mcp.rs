//! MCP name tables: crowd-sourced readable names keyed by SRG member
//! names, and the version metadata that selects a table.

use vstd::prelude::*;
use vstd::string::StringExecFns;

use crate::names::{wf_member_chars, FieldDataV};
use crate::descriptor::MethodDataV;
use crate::store::{assoc, MappingsTransformer, transformer_wf};

verus! {

/// The two MCP tables: SRG field names and SRG method names, each to a
/// readable name.
#[derive(Debug)]
pub struct McpMappings {
    pub fields: Vec<(String, String)>,
    pub methods: Vec<(String, String)>,
}

/// The view of one name table.
pub open spec fn name_table_v(t: Seq<(String, String)>) -> Seq<(Seq<char>, Seq<char>)> {
    t.map_values(|p: (String, String)| (p.0@, p.1@))
}

/// Every renamed side of the table is a usable member name.
pub open spec fn wf_name_table(t: Seq<(Seq<char>, Seq<char>)>) -> bool {
    forall|i: int| 0 <= i < t.len() ==> wf_member_chars((#[trigger] t[i]).1)
}

impl McpMappings {
    /// Empty tables.
    pub fn new() -> (r: McpMappings)
        ensures
            name_table_v(r.fields@).len() == 0,
            name_table_v(r.methods@).len() == 0,
    {
        McpMappings { fields: Vec::new(), methods: Vec::new() }
    }

    /// Empty tables, sized for the given numbers of entries.
    pub fn with_capacity(capacity: usize) -> (r: McpMappings)
        ensures
            name_table_v(r.fields@).len() == 0,
            name_table_v(r.methods@).len() == 0,
    {
        McpMappings { fields: Vec::with_capacity(capacity), methods: Vec::with_capacity(capacity) }
    }

    /// The readable name of an SRG field name, if the table holds one.
    pub fn field_name(&self, srg: &String) -> (r: Option<String>)
        ensures
            r is Some <==> assoc(name_table_v(self.fields@), srg@) is Some,
            r matches Some(n) ==> assoc(name_table_v(self.fields@), srg@) == Some(n@),
    {
        lookup_name(&self.fields, srg)
    }

    /// The readable name of an SRG method name, if the table holds one.
    pub fn method_name(&self, srg: &String) -> (r: Option<String>)
        ensures
            r is Some <==> assoc(name_table_v(self.methods@), srg@) is Some,
            r matches Some(n) ==> assoc(name_table_v(self.methods@), srg@) == Some(n@),
    {
        lookup_name(&self.methods, srg)
    }
}

fn lookup_name(table: &Vec<(String, String)>, key: &String) -> (r: Option<String>)
    ensures
        r is Some <==> assoc(name_table_v(table@), key@) is Some,
        r matches Some(n) ==> assoc(name_table_v(table@), key@) == Some(n@),
{
    let mut i: usize = 0;
    while i < table.len()
        invariant
            i <= table@.len(),
            forall|j: int| 0 <= j < i ==> (#[trigger] table@[j]).0@ != key@,
        decreases table@.len() - i,
    {
        if table[i].0 == *key {
            proof {
                crate::store::lemma_assoc_at(name_table_v(table@), key@, i as int);
            }
            return Some(table[i].1.clone());
        }
        i = i + 1;
    }
    proof {
        crate::store::lemma_assoc_none(name_table_v(table@), key@);
    }
    None
}

/// The hooks MCP tables provide: replace a member's SRG name with its
/// readable name, never touching classes.
impl MappingsTransformer for McpMappings {
    open spec fn class_hook(&self, original: Seq<char>) -> Option<Seq<char>> {
        None
    }

    open spec fn field_hook(&self, revised: FieldDataV) -> Option<Seq<char>> {
        assoc(name_table_v(self.fields@), revised.name)
    }

    open spec fn method_hook(&self, revised: MethodDataV) -> Option<Seq<char>> {
        assoc(name_table_v(self.methods@), revised.name)
    }

    fn transform_class(&self, original: &crate::names::JavaClass) -> (r: Option<
        crate::names::JavaClass,
    >) {
        None
    }

    fn transform_field(&self, revised: &crate::names::FieldData) -> (r: Option<String>) {
        self.field_name(&revised.name)
    }

    fn transform_method(&self, revised: &crate::descriptor::MethodData) -> (r: Option<String>) {
        self.method_name(&revised.name)
    }
}

/// Tables whose readable names are non-empty keep a store well formed.
pub proof fn lemma_mcp_transformer_wf(m: &McpMappings)
    requires
        wf_name_table(name_table_v(m.fields@)),
        wf_name_table(name_table_v(m.methods@)),
    ensures
        transformer_wf(m),
{
    assert forall|f: FieldDataV|
        crate::names::wf_field_v(f) && (#[trigger] m.field_hook(f)) is Some implies wf_member_chars(
        m.field_hook(f)->Some_0,
    ) by {
        lemma_assoc_wf(name_table_v(m.fields@), f.name);
    }
    assert forall|md: MethodDataV|
        crate::descriptor::wf_method_v(md) && (#[trigger] m.method_hook(md))
            is Some implies wf_member_chars(m.method_hook(md)->Some_0) by {
        lemma_assoc_wf(name_table_v(m.methods@), md.name);
    }
}

/// A field name found in well-formed tables is well formed.
pub proof fn lemma_mcp_name_wf(m: &McpMappings, k: Seq<char>)
    requires
        wf_name_table(name_table_v(m.fields@)),
    ensures
        assoc(name_table_v(m.fields@), k) matches Some(n) ==> wf_member_chars(n),
{
    lemma_assoc_wf(name_table_v(m.fields@), k);
}

/// A method name found in well-formed tables is well formed.
pub proof fn lemma_mcp_method_name_wf(m: &McpMappings, k: Seq<char>)
    requires
        wf_name_table(name_table_v(m.methods@)),
    ensures
        assoc(name_table_v(m.methods@), k) matches Some(n) ==> wf_member_chars(n),
{
    lemma_assoc_wf(name_table_v(m.methods@), k);
}

/// A value found in a table with well-formed values is well formed.
proof fn lemma_assoc_wf(t: Seq<(Seq<char>, Seq<char>)>, k: Seq<char>)
    requires
        wf_name_table(t),
    ensures
        assoc(t, k) matches Some(n) ==> wf_member_chars(n),
    decreases t.len(),
{
    if t.len() > 0 && t[0].0 != k {
        assert forall|i: int| 0 <= i < t.drop_first().len() implies wf_member_chars(
            (#[trigger] t.drop_first()[i]).1,
        ) by {
            assert(t.drop_first()[i] == t[i + 1]);
        }
        lemma_assoc_wf(t.drop_first(), k);
    }
}

/// Which MCP table versions exist for one upstream version, by channel.
#[derive(Debug)]
pub struct McpVersionInfo {
    pub snapshot: Vec<u64>,
    pub stable: Vec<u64>,
}

/// Failure of selecting an MCP version.
#[derive(Debug)]
pub enum McpVersionError {
    UnknownChannel,
}

impl McpVersionInfo {
    /// The table versions of a channel: `stable` or `snapshot`.
    pub fn available_versions(&self, channel: &str) -> (r: Result<&Vec<u64>, McpVersionError>)
        ensures
            channel@ == "stable"@ ==> (r matches Ok(v) && v == &self.stable),
            channel@ == "snapshot"@ ==> (r matches Ok(v) && v == &self.snapshot),
            channel@ != "stable"@ && channel@ != "snapshot"@ ==> r is Err,
    {
        proof {
            reveal_strlit("stable");
            reveal_strlit("snapshot");
            assert(("stable"@).len() != ("snapshot"@).len());
        }
        let c = String::from_str(channel);
        if c == String::from_str("stable") {
            Ok(&self.stable)
        } else if c == String::from_str("snapshot") {
            Ok(&self.snapshot)
        } else {
            Err(McpVersionError::UnknownChannel)
        }
    }
}

} // verus!
