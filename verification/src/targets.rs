//! Mapping targets and the work-queue engine that computes them.
//!
//! A target is written `ORIGINAL2RENAMED`, optionally with a modifier:
//! `-classes` keeps only the class table, `-members` only the member
//! tables, `-onlyobf` only entries whose original name is still
//! obfuscated.  Primitive sets (`obf2srg`, `obf2spigot`, `srg2mcp`) come
//! from the fetched inputs; every other target is composed from its
//! dependencies with `chain` and `reverse`.

use vstd::prelude::*;
use vstd::string::StrSliceExecFns;
use vstd::string::StringExecFns;

use crate::names::{push_char, wf_class_chars};
use crate::store::{assoc, MappingsBuilder, MappingsSnapshot, MappingsTransformer,
    PackageTransformer, unique_keys};
use crate::mcp::McpMappings;

verus! {

/// The four naming schemes.
#[derive(Copy, Clone, PartialEq, Eq, Structural, Debug, Hash)]
pub enum MappingsFormat {
    Srg,
    Mcp,
    Spigot,
    Obf,
}

/// The three target modifiers.
#[derive(Copy, Clone, PartialEq, Eq, Structural, Debug, Hash)]
pub enum TargetModifier {
    Classes,
    Members,
    Onlyobf,
}

/// A requested mapping set: source scheme, destination scheme, and an
/// optional modifier.
#[derive(Copy, Clone, Debug)]
pub struct MappingsTarget {
    pub original: MappingsFormat,
    pub renamed: MappingsFormat,
    pub modifier: Option<TargetModifier>,
}

impl PartialEq for MappingsTarget {
    fn eq(&self, other: &MappingsTarget) -> (r: bool) {
        self.original == other.original && self.renamed == other.renamed && (match (
        self.modifier, other.modifier) {
            (Some(a), Some(b)) => a == b,
            (None, None) => true,
            _ => false,
        })
    }
}

impl vstd::std_specs::cmp::PartialEqSpecImpl for MappingsTarget {
    open spec fn obeys_eq_spec() -> bool {
        true
    }

    open spec fn eq_spec(&self, other: &MappingsTarget) -> bool {
        *self == *other
    }
}

/// A target makes sense only between two different schemes.
pub open spec fn target_wf(t: MappingsTarget) -> bool {
    t.original != t.renamed
}

impl MappingsTarget {
    /// A plain target without a modifier.
    pub fn new(original: MappingsFormat, renamed: MappingsFormat) -> (r: MappingsTarget)
        ensures
            r == (MappingsTarget { original, renamed, modifier: None }),
    {
        MappingsTarget { original, renamed, modifier: None }
    }

    /// The original and renamed formats, as an array.
    pub fn formats(&self) -> (r: [MappingsFormat; 2])
        ensures
            r[0] == self.original,
            r[1] == self.renamed,
    {
        [self.original, self.renamed]
    }
}

/// The text a scheme prints as.
pub open spec fn format_chars(f: MappingsFormat) -> Seq<char> {
    match f {
        MappingsFormat::Srg => "srg"@,
        MappingsFormat::Mcp => "mcp"@,
        MappingsFormat::Spigot => "spigot"@,
        MappingsFormat::Obf => "obf"@,
    }
}

/// The text a modifier prints as, with its separating dash.
pub open spec fn modifier_chars(m: Option<TargetModifier>) -> Seq<char> {
    match m {
        None => Seq::empty(),
        Some(TargetModifier::Classes) => seq!['-'] + "classes"@,
        Some(TargetModifier::Members) => seq!['-'] + "members"@,
        Some(TargetModifier::Onlyobf) => seq!['-'] + "onlyobf"@,
    }
}

/// The text a whole target prints as.
pub open spec fn target_name_chars(t: MappingsTarget) -> Seq<char> {
    format_chars(t.original) + seq!['2'] + format_chars(t.renamed) + modifier_chars(t.modifier)
}

/// The scheme a name denotes, if any.
pub open spec fn spec_format_of(s: Seq<char>) -> Option<MappingsFormat> {
    if s == "srg"@ {
        Some(MappingsFormat::Srg)
    } else if s == "mcp"@ {
        Some(MappingsFormat::Mcp)
    } else if s == "spigot"@ {
        Some(MappingsFormat::Spigot)
    } else if s == "obf"@ {
        Some(MappingsFormat::Obf)
    } else {
        None
    }
}

/// The modifier a name denotes, if any.
pub open spec fn spec_modifier_of(s: Seq<char>) -> Option<TargetModifier> {
    if s == "classes"@ {
        Some(TargetModifier::Classes)
    } else if s == "members"@ {
        Some(TargetModifier::Members)
    } else if s == "onlyobf"@ {
        Some(TargetModifier::Onlyobf)
    } else {
        None
    }
}

/// The first occurrence of `c` in `s`, if any.
pub open spec fn find_char(s: Seq<char>, c: char) -> Option<int>
    decreases s.len(),
{
    if s.len() == 0 {
        None
    } else if s[0] == c {
        Some(0)
    } else {
        match find_char(s.drop_first(), c) {
            Some(i) => Some(i + 1),
            None => None,
        }
    }
}

pub proof fn lemma_find_char(s: Seq<char>, c: char)
    ensures
        match find_char(s, c) {
            Some(j) => 0 <= j < s.len() && s[j] == c && (forall|i: int| 0 <= i < j ==> s[i] != c),
            None => forall|i: int| 0 <= i < s.len() ==> s[i] != c,
        },
    decreases s.len(),
{
    if s.len() > 0 && s[0] != c {
        lemma_find_char(s.drop_first(), c);
        match find_char(s.drop_first(), c) {
            Some(j0) => {
                assert(s[j0 + 1] == s.drop_first()[j0]);
                assert forall|i: int| 0 <= i < j0 + 1 implies s[i] != c by {
                    if i > 0 {
                        assert(s[i] == s.drop_first()[i - 1]);
                    }
                }
            },
            None => {
                assert forall|i: int| 0 <= i < s.len() implies s[i] != c by {
                    if i > 0 {
                        assert(s[i] == s.drop_first()[i - 1]);
                    }
                }
            },
        }
    }
}

/// The target a string denotes: `ORIGINAL '2' RENAMED ('-' MODIFIER)?`,
/// with the two schemes different.
pub open spec fn spec_parse_target(s: Seq<char>) -> Option<MappingsTarget> {
    match find_char(s, '2') {
        None => None,
        Some(i) => {
            match spec_format_of(s.subrange(0, i)) {
                None => None,
                Some(original) => {
                    let rest = s.skip(i + 1);
                    match find_char(rest, '-') {
                        None => match spec_format_of(rest) {
                            None => None,
                            Some(renamed) => if original == renamed {
                                None
                            } else {
                                Some(MappingsTarget { original, renamed, modifier: None })
                            },
                        },
                        Some(j) => match spec_format_of(rest.subrange(0, j)) {
                            None => None,
                            Some(renamed) => match spec_modifier_of(rest.skip(j + 1)) {
                                None => None,
                                Some(m) => if original == renamed {
                                    None
                                } else {
                                    Some(
                                        MappingsTarget { original, renamed, modifier: Some(m) },
                                    )
                                },
                            },
                        },
                    }
                },
            }
        },
    }
}

/// Failure of handling a target request.
#[derive(Debug)]
pub enum MinecraftMappingError {
    /// The string is not a well-formed, non-redundant target.
    InvalidTarget(String),
    /// The targets wait on one another; no order can compute them.
    DependencyCycle,
}

fn parse_format(word: &str) -> (r: Option<MappingsFormat>)
    ensures
        r == spec_format_of(word@),
{
    let w = String::from_str(word);
    if w == String::from_str("srg") {
        Some(MappingsFormat::Srg)
    } else if w == String::from_str("mcp") {
        Some(MappingsFormat::Mcp)
    } else if w == String::from_str("spigot") {
        Some(MappingsFormat::Spigot)
    } else if w == String::from_str("obf") {
        Some(MappingsFormat::Obf)
    } else {
        None
    }
}

fn parse_modifier(word: &str) -> (r: Option<TargetModifier>)
    ensures
        r == spec_modifier_of(word@),
{
    let w = String::from_str(word);
    if w == String::from_str("classes") {
        Some(TargetModifier::Classes)
    } else if w == String::from_str("members") {
        Some(TargetModifier::Members)
    } else if w == String::from_str("onlyobf") {
        Some(TargetModifier::Onlyobf)
    } else {
        None
    }
}

fn find_char_at(s: &str, c: char) -> (r: Option<usize>)
    ensures
        match find_char(s@, c) {
            Some(j) => r matches Some(k) && k == j,
            None => r is None,
        },
        r matches Some(k) ==> k < s@.len(),
{
    proof {
        lemma_find_char(s@, c);
    }
    let len = s.unicode_len();
    let mut i: usize = 0;
    while i < len
        invariant
            i <= len,
            len == s@.len(),
            forall|j: int| 0 <= j < i ==> s@[j] != c,
        decreases len - i,
    {
        if s.get_char(i) == c {
            proof {
                lemma_find_char(s@, c);
            }
            return Some(i);
        }
        i = i + 1;
    }
    None
}

impl MappingsTarget {
    /// Parse a target string.
    pub fn parse(value: &str) -> (r: Result<MappingsTarget, MinecraftMappingError>)
        ensures
            match spec_parse_target(value@) {
                Some(t) => r matches Ok(t2) && t2 == t && target_wf(t),
                None => r matches Err(MinecraftMappingError::InvalidTarget(s)) && s@ == value@,
            },
    {
        let len = value.unicode_len();
        let i = match find_char_at(value, '2') {
            Some(i) => i,
            None => {
                return Err(MinecraftMappingError::InvalidTarget(String::from_str(value)));
            },
        };
        let original = match parse_format(value.substring_char(0, i)) {
            Some(f) => f,
            None => {
                return Err(MinecraftMappingError::InvalidTarget(String::from_str(value)));
            },
        };
        let rest = value.substring_char(i + 1, len);
        proof {
            assert(rest@ =~= value@.skip(i + 1));
        }
        match find_char_at(rest, '-') {
            None => {
                let renamed = match parse_format(rest) {
                    Some(f) => f,
                    None => {
                        return Err(MinecraftMappingError::InvalidTarget(String::from_str(value)));
                    },
                };
                if original == renamed {
                    return Err(MinecraftMappingError::InvalidTarget(String::from_str(value)));
                }
                Ok(MappingsTarget { original, renamed, modifier: None })
            },
            Some(j) => {
                let rlen = rest.unicode_len();
                let renamed = match parse_format(rest.substring_char(0, j)) {
                    Some(f) => f,
                    None => {
                        return Err(MinecraftMappingError::InvalidTarget(String::from_str(value)));
                    },
                };
                let modifier = match parse_modifier(rest.substring_char(j + 1, rlen)) {
                    Some(m) => m,
                    None => {
                        return Err(MinecraftMappingError::InvalidTarget(String::from_str(value)));
                    },
                };
                proof {
                    assert(rest@.skip(j + 1) =~= value@.skip(i + 1).skip(j + 1));
                }
                if original == renamed {
                    return Err(MinecraftMappingError::InvalidTarget(String::from_str(value)));
                }
                Ok(MappingsTarget { original, renamed, modifier: Some(modifier) })
            },
        }
    }

    /// The text a format prints as.
    fn format_text(f: MappingsFormat) -> (r: &'static str)
        ensures
            spec_format_of(r@) == Some(f),
            r@ == format_chars(f),

    {
        proof {
            reveal_strlit("srg");
            reveal_strlit("mcp");
            reveal_strlit("spigot");
            reveal_strlit("obf");
        }
        match f {
            MappingsFormat::Srg => {
                proof {
                    assert(("srg"@).len() == 3);
                }
                "srg"
            },
            MappingsFormat::Mcp => {
                proof {
                    assert(("mcp"@).len() == 3 && ("srg"@).len() == 3);
                    assert(("mcp"@)[0] == 'm' && ("srg"@)[0] == 's');
                }
                "mcp"
            },
            MappingsFormat::Spigot => {
                proof {
                    assert(("spigot"@).len() == 6 && ("srg"@).len() == 3 && ("mcp"@).len() == 3);
                }
                "spigot"
            },
            MappingsFormat::Obf => {
                proof {
                    assert(("obf"@).len() == 3);
                    assert(("obf"@)[0] == 'o' && ("srg"@)[0] == 's' && ("mcp"@)[0] == 'm');
                }
                "obf"
            },
        }
    }

    /// The target's name, `original2renamed` with the modifier appended
    /// after a dash.
    pub fn name(&self) -> (r: String)
        ensures
            r@ == target_name_chars(*self),
    {
        let mut out = String::new();
        out.append(MappingsTarget::format_text(self.original));
        push_char(&mut out, '2');
        out.append(MappingsTarget::format_text(self.renamed));
        match self.modifier {
            Some(TargetModifier::Classes) => {
                push_char(&mut out, '-');
                out.append("classes");
            },
            Some(TargetModifier::Members) => {
                push_char(&mut out, '-');
                out.append("members");
            },
            Some(TargetModifier::Onlyobf) => {
                push_char(&mut out, '-');
                out.append("onlyobf");
            },
            None => {},
        }
        proof {
            assert(out@ =~= target_name_chars(*self));
        }
        out
    }
}

/// The targets a target needs before it can be composed; a primitive
/// source needs none.
/// A distinct number below 4 for each scheme.
pub open spec fn format_index(f: MappingsFormat) -> int {
    match f {
        MappingsFormat::Srg => 0,
        MappingsFormat::Mcp => 1,
        MappingsFormat::Spigot => 2,
        MappingsFormat::Obf => 3,
    }
}

/// A distinct number below 4 for each modifier choice.
pub open spec fn modifier_index(m: Option<TargetModifier>) -> int {
    match m {
        None => 0,
        Some(TargetModifier::Classes) => 1,
        Some(TargetModifier::Members) => 2,
        Some(TargetModifier::Onlyobf) => 3,
    }
}

/// A distinct number below 64 for each target: the target space is
/// finite, with at most 64 members.
pub open spec fn target_index(t: MappingsTarget) -> int {
    format_index(t.original) + 4 * format_index(t.renamed) + 16 * modifier_index(t.modifier)
}

/// Distinct targets receive distinct numbers.
pub proof fn lemma_target_index_injective(t1: MappingsTarget, t2: MappingsTarget)
    requires
        target_index(t1) == target_index(t2),
    ensures
        t1 == t2,
{
    assert(0 <= format_index(t1.original) < 4);
    assert(0 <= format_index(t1.renamed) < 4);
    assert(0 <= modifier_index(t1.modifier) < 4);
    assert(0 <= format_index(t2.original) < 4);
    assert(0 <= format_index(t2.renamed) < 4);
    assert(0 <= modifier_index(t2.modifier) < 4);
    assert(format_index(t1.original) == format_index(t2.original));
    assert(format_index(t1.renamed) == format_index(t2.renamed));
    assert(modifier_index(t1.modifier) == modifier_index(t2.modifier));
    assert(t1.original == t2.original);
    assert(t1.renamed == t2.renamed);
    assert(t1.modifier == t2.modifier);
}

/// Pairwise-distinct targets cannot outnumber the finite target space.
pub proof fn lemma_distinct_targets_bound(s: Seq<MappingsTarget>)
    requires
        forall|i: int, j: int| 0 <= i < j < s.len() ==> s[i] != s[j],
    ensures
        s.len() <= 64,
{
    broadcast use vstd::set::group_set_axioms;

    let m = s.map_values(|t: MappingsTarget| target_index(t));
    assert(m.no_duplicates()) by {
        assert forall|i: int, j: int|
            0 <= i < m.len() && 0 <= j < m.len() && i != j implies m[i] != m[j] by {
            if m[i] == m[j] {
                assert(m[i] == target_index(s[i]));
                assert(m[j] == target_index(s[j]));
                lemma_target_index_injective(s[i], s[j]);
            }
        }
    }
    m.unique_seq_to_set();
    assert(m.to_set().subset_of(vstd::set_lib::set_int_range(0, 64))) by {
        assert forall|x: int| m.to_set().contains(x) implies vstd::set_lib::set_int_range(
            0,
            64,
        ).contains(x) by {
            assert(m.contains(x));
            let k = choose|k: int| 0 <= k < m.len() && m[k] == x;
            assert(m[k] == target_index(s[k]));
            assert(0 <= target_index(s[k]) < 64);
        }
    }
    vstd::set_lib::lemma_int_range(0, 64);
    vstd::set_lib::lemma_len_subset(m.to_set(), vstd::set_lib::set_int_range(0, 64));
}

/// Result entries, whose keys are pairwise distinct, cannot outnumber
/// the target space either.
pub proof fn lemma_results_bound(rs: Seq<(MappingsTarget, MappingsSnapshot)>)
    requires
        unique_keys(rs),
    ensures
        rs.len() <= 64,
{
    let ks = rs.map_values(|p: (MappingsTarget, MappingsSnapshot)| p.0);
    assert forall|i: int, j: int| 0 <= i < j < ks.len() implies ks[i] != ks[j] by {
        assert(ks[i] == rs[i].0);
        assert(ks[j] == rs[j].0);
    }
    lemma_distinct_targets_bound(ks);
}

pub open spec fn spec_deps(t: MappingsTarget) -> Seq<MappingsTarget> {
    match t.modifier {
        Some(TargetModifier::Onlyobf) => if t.original == MappingsFormat::Obf {
            seq![MappingsTarget { original: t.original, renamed: t.renamed, modifier: None }]
        } else {
            seq![
                MappingsTarget { original: t.original, renamed: t.renamed, modifier: None },
                MappingsTarget {
                    original: t.original,
                    renamed: MappingsFormat::Obf,
                    modifier: None,
                },
            ]
        },
        Some(_) => seq![
            MappingsTarget { original: t.original, renamed: t.renamed, modifier: None },
        ],
        None => spec_plain_deps(t.original, t.renamed),
    }
}

pub open spec fn spec_plain_deps(o: MappingsFormat, r: MappingsFormat) -> Seq<MappingsTarget> {
    let obf2srg = MappingsTarget {
        original: MappingsFormat::Obf,
        renamed: MappingsFormat::Srg,
        modifier: None,
    };
    let srg2mcp = MappingsTarget {
        original: MappingsFormat::Srg,
        renamed: MappingsFormat::Mcp,
        modifier: None,
    };
    let obf2spigot = MappingsTarget {
        original: MappingsFormat::Obf,
        renamed: MappingsFormat::Spigot,
        modifier: None,
    };
    match (o, r) {
        (MappingsFormat::Srg, MappingsFormat::Mcp) => seq![obf2srg],
        (MappingsFormat::Srg, MappingsFormat::Spigot) => seq![
            MappingsTarget {
                original: MappingsFormat::Srg,
                renamed: MappingsFormat::Obf,
                modifier: None,
            },
            obf2spigot,
        ],
        (MappingsFormat::Srg, MappingsFormat::Obf) => seq![obf2srg],
        (MappingsFormat::Mcp, MappingsFormat::Srg) => seq![srg2mcp],
        (MappingsFormat::Mcp, MappingsFormat::Spigot) => seq![
            MappingsTarget {
                original: MappingsFormat::Mcp,
                renamed: MappingsFormat::Obf,
                modifier: None,
            },
            obf2spigot,
        ],
        (MappingsFormat::Mcp, MappingsFormat::Obf) => seq![
            MappingsTarget {
                original: MappingsFormat::Obf,
                renamed: MappingsFormat::Mcp,
                modifier: None,
            },
        ],
        (MappingsFormat::Spigot, MappingsFormat::Srg) => seq![
            MappingsTarget {
                original: MappingsFormat::Spigot,
                renamed: MappingsFormat::Obf,
                modifier: None,
            },
            obf2srg,
        ],
        (MappingsFormat::Spigot, MappingsFormat::Mcp) => seq![
            MappingsTarget {
                original: MappingsFormat::Spigot,
                renamed: MappingsFormat::Obf,
                modifier: None,
            },
            MappingsTarget {
                original: MappingsFormat::Obf,
                renamed: MappingsFormat::Mcp,
                modifier: None,
            },
        ],
        (MappingsFormat::Spigot, MappingsFormat::Obf) => seq![obf2spigot],
        (MappingsFormat::Obf, MappingsFormat::Mcp) => seq![obf2srg, srg2mcp],
        _ => Seq::empty(),
    }
}

/// Every dependency is itself a sensible target.
pub proof fn lemma_spec_deps_wf(t: MappingsTarget)
    requires
        target_wf(t),
    ensures
        forall|k: int| 0 <= k < spec_deps(t).len() ==> target_wf(#[trigger] spec_deps(t)[k]),
{
    match t.modifier {
        Some(TargetModifier::Onlyobf) => {},
        Some(_) => {},
        None => {
            match (t.original, t.renamed) {
                (MappingsFormat::Srg, MappingsFormat::Mcp) => {},
                (MappingsFormat::Srg, MappingsFormat::Spigot) => {},
                (MappingsFormat::Srg, MappingsFormat::Obf) => {},
                (MappingsFormat::Mcp, MappingsFormat::Srg) => {},
                (MappingsFormat::Mcp, MappingsFormat::Spigot) => {},
                (MappingsFormat::Mcp, MappingsFormat::Obf) => {},
                (MappingsFormat::Spigot, MappingsFormat::Srg) => {},
                (MappingsFormat::Spigot, MappingsFormat::Mcp) => {},
                (MappingsFormat::Spigot, MappingsFormat::Obf) => {},
                (MappingsFormat::Obf, MappingsFormat::Mcp) => {},
                _ => {},
            }
        },
    }
}

// ---------------------------------------------------------------------
// Primitive inputs and composition
// ---------------------------------------------------------------------
/// The fetched inputs the primitive targets are built from: the parsed
/// SRG store, the two parsed Spigot stores, and the MCP name tables.
#[derive(Debug)]
pub struct PrimitiveSources {
    pub obf2srg: MappingsBuilder,
    pub spigot_class_mappings: MappingsBuilder,
    pub spigot_member_mappings: MappingsBuilder,
    pub mcp: McpMappings,
}

/// Well-formed inputs.
pub open spec fn sources_wf(s: &PrimitiveSources) -> bool {
    &&& s.obf2srg.wf()
    &&& s.spigot_class_mappings.wf()
    &&& s.spigot_member_mappings.wf()
    &&& crate::mcp::wf_name_table(crate::mcp::name_table_v(s.mcp.fields@))
    &&& crate::mcp::wf_name_table(crate::mcp::name_table_v(s.mcp.methods@))
}

impl MappingsSnapshot {
    /// The snapshot's entries reinserted into a fresh builder: classes,
    /// then field renamings, then method renamings, names only, in
    /// order.
    pub fn rebuild(&self) -> (r: MappingsBuilder)
        requires
            self.wf(),
            crate::store::snapshot_names_wf(self@),
        ensures
            r.wf(),
            r@ == crate::store::rebuilt_store(self@),
    {
        let ghost target = crate::store::rebuilt_store(self@);
        let mut builder = MappingsBuilder::new();
        let mut i: usize = 0;
        while i < self.classes.len()
            invariant
                i <= self.classes@.len(),
                builder.wf(),
                self.wf(),
                crate::store::snapshot_names_wf(self@),
                target == crate::store::rebuilt_store(self@),
                builder@.classes == self@.classes.take(i as int),
                builder@.fields.len() == 0,
                builder@.methods.len() == 0,
            decreases self.classes@.len() - i,
        {
            proof {
                assert(wf_class_chars(self@.classes[i as int].0));
                assert(wf_class_chars(self@.classes[i as int].1));
                assert forall|j: int|
                    0 <= j < builder@.classes.len() implies (#[trigger] builder@.classes[j]).0
                    != self@.classes[i as int].0 by {
                    assert(builder@.classes[j] == self@.classes[j]);
                }
                crate::store::lemma_insert_fresh(
                    builder@.classes,
                    self@.classes[i as int].0,
                    self@.classes[i as int].1,
                );
            }
            let ghost pre = builder@.classes;
            let res = builder.insert_class(self.classes[i].0.clone(), self.classes[i].1.clone());
            proof {
                assert(res is Ok);
                assert(builder@.classes =~= self@.classes.take(i + 1));
            }
            i = i + 1;
        }
        proof {
            assert(self@.classes.take(self.classes@.len() as int) =~= self@.classes);
        }
        let mut i: usize = 0;
        while i < self.fields.len()
            invariant
                i <= self.fields@.len(),
                builder.wf(),
                self.wf(),
                crate::store::snapshot_names_wf(self@),
                target == crate::store::rebuilt_store(self@),
                builder@.classes == self@.classes,
                builder@.fields == target.fields.take(i as int),
                builder@.methods.len() == 0,
            decreases self.fields@.len() - i,
        {
            proof {
                assert(crate::names::wf_field_v(self@.fields[i as int].0));
                assert(crate::names::wf_field_v(self@.fields[i as int].1));
                assert(target.fields[i as int] == (
                    self@.fields[i as int].0,
                    self@.fields[i as int].1.name,
                ));
                assert forall|j: int|
                    0 <= j < builder@.fields.len() implies (#[trigger] builder@.fields[j]).0
                    != self@.fields[i as int].0 by {
                    assert(builder@.fields[j] == target.fields[j]);
                    assert(target.fields[j].0 == self@.fields[j].0);
                }
                crate::store::lemma_insert_fresh(
                    builder@.fields,
                    self@.fields[i as int].0,
                    self@.fields[i as int].1.name,
                );
            }
            let res = builder.insert_field(
                self.fields[i].0.clone(),
                self.fields[i].1.name.clone(),
            );
            proof {
                assert(res is Ok);
                assert(builder@.fields =~= target.fields.take(i + 1));
            }
            i = i + 1;
        }
        proof {
            assert(target.fields.take(self.fields@.len() as int) =~= target.fields);
        }
        let mut i: usize = 0;
        while i < self.methods.len()
            invariant
                i <= self.methods@.len(),
                builder.wf(),
                self.wf(),
                crate::store::snapshot_names_wf(self@),
                target == crate::store::rebuilt_store(self@),
                builder@.classes == self@.classes,
                builder@.fields == target.fields,
                builder@.methods == target.methods.take(i as int),
            decreases self.methods@.len() - i,
        {
            proof {
                assert(crate::descriptor::wf_method_v(self@.methods[i as int].0));
                assert(crate::descriptor::wf_method_v(self@.methods[i as int].1));
                assert(target.methods[i as int] == (
                    self@.methods[i as int].0,
                    self@.methods[i as int].1.name,
                ));
                assert forall|j: int|
                    0 <= j < builder@.methods.len() implies (#[trigger] builder@.methods[j]).0
                    != self@.methods[i as int].0 by {
                    assert(builder@.methods[j] == target.methods[j]);
                    assert(target.methods[j].0 == self@.methods[j].0);
                }
                crate::store::lemma_insert_fresh(
                    builder@.methods,
                    self@.methods[i as int].0,
                    self@.methods[i as int].1.name,
                );
            }
            let res = builder.insert_method(
                self.methods[i].0.clone(),
                self.methods[i].1.name.clone(),
            );
            proof {
                assert(res is Ok);
                assert(builder@.methods =~= target.methods.take(i + 1));
            }
            i = i + 1;
        }
        proof {
            assert(target.methods.take(self.methods@.len() as int) =~= target.methods);
            assert(builder@ =~= target);
        }
        builder
    }
}

/// The srg2mcp field entries: for each member of the obf2srg snapshot
/// whose renamed SRG name the table knows, the SRG-side record mapped
/// to the readable name, in input order.
pub open spec fn mcp_field_items(
    fs: Seq<(crate::names::FieldDataV, crate::names::FieldDataV)>,
    table: Seq<(Seq<char>, Seq<char>)>,
) -> Seq<(crate::names::FieldDataV, Seq<char>)>
    decreases fs.len(),
{
    if fs.len() == 0 {
        Seq::empty()
    } else {
        (match crate::store::assoc(table, fs[0].1.name) {
            Some(n) => seq![(fs[0].1, n)],
            None => Seq::empty(),
        }) + mcp_field_items(fs.drop_first(), table)
    }
}

/// The srg2mcp method entries, built like the field entries.
pub open spec fn mcp_method_items(
    ms: Seq<(crate::descriptor::MethodDataV, crate::descriptor::MethodDataV)>,
    table: Seq<(Seq<char>, Seq<char>)>,
) -> Seq<(crate::descriptor::MethodDataV, Seq<char>)>
    decreases ms.len(),
{
    if ms.len() == 0 {
        Seq::empty()
    } else {
        (match crate::store::assoc(table, ms[0].1.name) {
            Some(n) => seq![(ms[0].1, n)],
            None => Seq::empty(),
        }) + mcp_method_items(ms.drop_first(), table)
    }
}

/// The store srg2mcp derivation yields.
pub open spec fn mcp_derived_store(obf2srg: crate::store::SnapshotV, mcp: &McpMappings) -> crate::store::StoreV {
    crate::store::StoreV {
        classes: Seq::empty(),
        fields: crate::store::insert_all(
            Seq::empty(),
            mcp_field_items(obf2srg.fields, crate::mcp::name_table_v(mcp.fields@)),
        ),
        methods: crate::store::insert_all(
            Seq::empty(),
            mcp_method_items(obf2srg.methods, crate::mcp::name_table_v(mcp.methods@)),
        ),
    }
}

pub proof fn lemma_mcp_field_items_snoc(
    fs: Seq<(crate::names::FieldDataV, crate::names::FieldDataV)>,
    x: (crate::names::FieldDataV, crate::names::FieldDataV),
    table: Seq<(Seq<char>, Seq<char>)>,
)
    ensures
        mcp_field_items(fs.push(x), table) == mcp_field_items(fs, table) + (match crate::store::assoc(
            table,
            x.1.name,
        ) {
            Some(n) => seq![(x.1, n)],
            None => Seq::empty(),
        }),
    decreases fs.len(),
{
    let tail = (match crate::store::assoc(table, x.1.name) {
        Some(n) => seq![(x.1, n)],
        None => Seq::empty(),
    });
    if fs.len() == 0 {
        assert(fs.push(x)[0] == x);
        assert(fs.push(x)[0].1 == x.1);
        assert(fs.push(x)[0].1.name == x.1.name);
        assert(fs.push(x).drop_first() =~= Seq::<(
            crate::names::FieldDataV,
            crate::names::FieldDataV,
        )>::empty());
        let head2 = (match crate::store::assoc(table, fs.push(x)[0].1.name) {
            Some(n) => seq![(fs.push(x)[0].1, n)],
            None => Seq::<(crate::names::FieldDataV, Seq<char>)>::empty(),
        });
        assert(mcp_field_items(fs.push(x), table) == head2 + mcp_field_items(
            fs.push(x).drop_first(),
            table,
        ));
        assert(head2 == tail);
        assert(mcp_field_items(fs.push(x).drop_first(), table) =~= Seq::<(
            crate::names::FieldDataV,
            Seq<char>,
        )>::empty());
        assert(head2 + mcp_field_items(fs.push(x).drop_first(), table) =~= tail);
        assert(mcp_field_items(fs, table) + tail =~= tail);
    } else {
        assert(fs.push(x)[0] == fs[0]);
        assert(fs.push(x)[0].1.name == fs[0].1.name);
        assert(fs.push(x).drop_first() =~= fs.drop_first().push(x));
        lemma_mcp_field_items_snoc(fs.drop_first(), x, table);
        let head = (match crate::store::assoc(table, fs[0].1.name) {
            Some(n) => seq![(fs[0].1, n)],
            None => Seq::<(crate::names::FieldDataV, Seq<char>)>::empty(),
        });
        assert(mcp_field_items(fs.push(x), table) == head + mcp_field_items(
            fs.drop_first().push(x),
            table,
        ));
        assert(mcp_field_items(fs, table) == head + mcp_field_items(fs.drop_first(), table));
        assert((head + mcp_field_items(fs.drop_first(), table)) + tail =~= head + (mcp_field_items(
            fs.drop_first(),
            table,
        ) + tail));
    }
}

pub proof fn lemma_mcp_method_items_snoc(
    ms: Seq<(crate::descriptor::MethodDataV, crate::descriptor::MethodDataV)>,
    x: (crate::descriptor::MethodDataV, crate::descriptor::MethodDataV),
    table: Seq<(Seq<char>, Seq<char>)>,
)
    ensures
        mcp_method_items(ms.push(x), table) == mcp_method_items(ms, table) + (match crate::store::assoc(
            table,
            x.1.name,
        ) {
            Some(n) => seq![(x.1, n)],
            None => Seq::empty(),
        }),
    decreases ms.len(),
{
    let tail = (match crate::store::assoc(table, x.1.name) {
        Some(n) => seq![(x.1, n)],
        None => Seq::empty(),
    });
    if ms.len() == 0 {
        assert(ms.push(x)[0] == x);
        assert(ms.push(x)[0].1 == x.1);
        assert(ms.push(x)[0].1.name == x.1.name);
        assert(ms.push(x).drop_first() =~= Seq::<(
            crate::descriptor::MethodDataV,
            crate::descriptor::MethodDataV,
        )>::empty());
        let head2 = (match crate::store::assoc(table, ms.push(x)[0].1.name) {
            Some(n) => seq![(ms.push(x)[0].1, n)],
            None => Seq::<(crate::descriptor::MethodDataV, Seq<char>)>::empty(),
        });
        assert(mcp_method_items(ms.push(x), table) == head2 + mcp_method_items(
            ms.push(x).drop_first(),
            table,
        ));
        assert(head2 == tail);
        assert(mcp_method_items(ms.push(x).drop_first(), table) =~= Seq::<(
            crate::descriptor::MethodDataV,
            Seq<char>,
        )>::empty());
        assert(head2 + mcp_method_items(ms.push(x).drop_first(), table) =~= tail);
        assert(mcp_method_items(ms, table) + tail =~= tail);
    } else {
        assert(ms.push(x)[0] == ms[0]);
        assert(ms.push(x)[0].1.name == ms[0].1.name);
        assert(ms.push(x).drop_first() =~= ms.drop_first().push(x));
        lemma_mcp_method_items_snoc(ms.drop_first(), x, table);
        let head = (match crate::store::assoc(table, ms[0].1.name) {
            Some(n) => seq![(ms[0].1, n)],
            None => Seq::<(crate::descriptor::MethodDataV, Seq<char>)>::empty(),
        });
        assert(mcp_method_items(ms.push(x), table) == head + mcp_method_items(
            ms.drop_first().push(x),
            table,
        ));
        assert(mcp_method_items(ms, table) == head + mcp_method_items(ms.drop_first(), table));
        assert((head + mcp_method_items(ms.drop_first(), table)) + tail =~= head + (
        mcp_method_items(ms.drop_first(), table) + tail));
    }
}

/// The `srg2mcp` table: for every member of `obf2srg` whose SRG name
/// has a readable name in the MCP tables, the SRG-side record mapped to
/// that readable name.
pub fn derive_srg_to_mcp(obf2srg: &MappingsSnapshot, mcp: &McpMappings) -> (r: MappingsBuilder)
    requires
        obf2srg.wf(),
        crate::store::snapshot_names_wf(obf2srg@),
        crate::mcp::wf_name_table(crate::mcp::name_table_v(mcp.fields@)),
        crate::mcp::wf_name_table(crate::mcp::name_table_v(mcp.methods@)),
    ensures
        r.wf(),
        r@ == mcp_derived_store(obf2srg@, mcp),
{
    let ghost ftable = crate::mcp::name_table_v(mcp.fields@);
    let ghost mtable = crate::mcp::name_table_v(mcp.methods@);
    let mut builder = MappingsBuilder::new();
    let mut i: usize = 0;
    proof {
        assert(obf2srg@.fields.take(0) =~= Seq::<(
            crate::names::FieldDataV,
            crate::names::FieldDataV,
        )>::empty());
    }
    while i < obf2srg.fields.len()
        invariant
            i <= obf2srg.fields@.len(),
            builder.wf(),
            obf2srg.wf(),
            crate::store::snapshot_names_wf(obf2srg@),
            crate::mcp::wf_name_table(ftable),
            ftable == crate::mcp::name_table_v(mcp.fields@),
            builder@.classes.len() == 0,
            builder@.methods.len() == 0,
            builder@.fields == crate::store::insert_all(
                Seq::empty(),
                mcp_field_items(obf2srg@.fields.take(i as int), ftable),
            ),
        decreases obf2srg.fields@.len() - i,
    {
        proof {
            assert(crate::names::wf_field_v(obf2srg@.fields[i as int].1));
            assert(obf2srg@.fields.take(i + 1) =~= obf2srg@.fields.take(i as int).push(
                obf2srg@.fields[i as int],
            ));
            lemma_mcp_field_items_snoc(
                obf2srg@.fields.take(i as int),
                obf2srg@.fields[i as int],
                ftable,
            );
        }
        match mcp.field_name(&obf2srg.fields[i].1.name) {
            Some(n) => {
                proof {
                    crate::mcp::lemma_mcp_name_wf(mcp, obf2srg@.fields[i as int].1.name);
                    assert(mcp_field_items(obf2srg@.fields.take(i + 1), ftable)
                        =~= mcp_field_items(obf2srg@.fields.take(i as int), ftable).push(
                        (obf2srg@.fields[i as int].1, n@),
                    ));
                    crate::store::lemma_insert_all_snoc(
                        Seq::<(crate::names::FieldDataV, Seq<char>)>::empty(),
                        mcp_field_items(obf2srg@.fields.take(i as int), ftable),
                        (obf2srg@.fields[i as int].1, n@),
                    );
                }
                let res = builder.insert_field(obf2srg.fields[i].1.clone(), n);
                proof {
                    assert(res is Ok);
                }
            },
            None => {
                proof {
                    assert(mcp_field_items(obf2srg@.fields.take(i + 1), ftable)
                        =~= mcp_field_items(obf2srg@.fields.take(i as int), ftable));
                }
            },
        }
        i = i + 1;
    }
    proof {
        assert(obf2srg@.fields.take(obf2srg.fields@.len() as int) =~= obf2srg@.fields);
    }
    let mut i: usize = 0;
    proof {
        assert(obf2srg@.methods.take(0) =~= Seq::<(
            crate::descriptor::MethodDataV,
            crate::descriptor::MethodDataV,
        )>::empty());
    }
    while i < obf2srg.methods.len()
        invariant
            i <= obf2srg.methods@.len(),
            builder.wf(),
            obf2srg.wf(),
            crate::store::snapshot_names_wf(obf2srg@),
            crate::mcp::wf_name_table(mtable),
            mtable == crate::mcp::name_table_v(mcp.methods@),
            builder@.classes.len() == 0,
            builder@.fields == crate::store::insert_all(
                Seq::empty(),
                mcp_field_items(obf2srg@.fields, crate::mcp::name_table_v(mcp.fields@)),
            ),
            builder@.methods == crate::store::insert_all(
                Seq::empty(),
                mcp_method_items(obf2srg@.methods.take(i as int), mtable),
            ),
        decreases obf2srg.methods@.len() - i,
    {
        proof {
            assert(crate::descriptor::wf_method_v(obf2srg@.methods[i as int].1));
            assert(obf2srg@.methods.take(i + 1) =~= obf2srg@.methods.take(i as int).push(
                obf2srg@.methods[i as int],
            ));
            lemma_mcp_method_items_snoc(
                obf2srg@.methods.take(i as int),
                obf2srg@.methods[i as int],
                mtable,
            );
        }
        match mcp.method_name(&obf2srg.methods[i].1.name) {
            Some(n) => {
                proof {
                    crate::mcp::lemma_mcp_method_name_wf(mcp, obf2srg@.methods[i as int].1.name);
                    assert(mcp_method_items(obf2srg@.methods.take(i + 1), mtable)
                        =~= mcp_method_items(obf2srg@.methods.take(i as int), mtable).push(
                        (obf2srg@.methods[i as int].1, n@),
                    ));
                    crate::store::lemma_insert_all_snoc(
                        Seq::<(crate::descriptor::MethodDataV, Seq<char>)>::empty(),
                        mcp_method_items(obf2srg@.methods.take(i as int), mtable),
                        (obf2srg@.methods[i as int].1, n@),
                    );
                }
                let res = builder.insert_method(obf2srg.methods[i].1.clone(), n);
                proof {
                    assert(res is Ok);
                }
            },
            None => {
                proof {
                    assert(mcp_method_items(obf2srg@.methods.take(i + 1), mtable)
                        =~= mcp_method_items(obf2srg@.methods.take(i as int), mtable));
                }
            },
        }
        i = i + 1;
    }
    proof {
        assert(obf2srg@.methods.take(obf2srg.methods@.len() as int) =~= obf2srg@.methods);
        assert(builder@.classes =~= Seq::<(Seq<char>, Seq<char>)>::empty());
        assert(builder@ =~= mcp_derived_store(obf2srg@, mcp));
    }
    builder
}

/// No character of `s` is bad, up to index `n`, stated recursively so
/// a fixed string can be checked by unfolding.
pub open spec fn good_prefix(s: Seq<char>, n: int) -> bool
    decreases n,
{
    if n <= 0 {
        true
    } else {
        !crate::names::bad_name_char(s[n - 1]) && good_prefix(s, n - 1)
    }
}

pub proof fn lemma_good_prefix(s: Seq<char>, n: int)
    requires
        good_prefix(s, n),
    ensures
        forall|i: int| 0 <= i < n ==> !crate::names::bad_name_char(s[i]),
    decreases n,
{
    if n > 0 {
        lemma_good_prefix(s, n - 1);
    }
}

/// Whether a name is free of `#`.
pub open spec fn hash_free(s: Seq<char>) -> bool {
    forall|i: int| 0 <= i < s.len() ==> s[i] != '#'
}

/// The class entries that survive the `#` strip.
pub open spec fn strip_hash_items(cs: Seq<(Seq<char>, Seq<char>)>) -> Seq<(Seq<char>, Seq<char>)>
    decreases cs.len(),
{
    if cs.len() == 0 {
        Seq::empty()
    } else {
        (if hash_free(cs[0].0) && hash_free(cs[0].1) {
            seq![cs[0]]
        } else {
            Seq::empty()
        }) + strip_hash_items(cs.drop_first())
    }
}

pub proof fn lemma_strip_hash_items_snoc(cs: Seq<(Seq<char>, Seq<char>)>, x: (Seq<char>, Seq<char>))
    ensures
        strip_hash_items(cs.push(x)) == strip_hash_items(cs) + (if hash_free(x.0) && hash_free(
            x.1,
        ) {
            seq![x]
        } else {
            Seq::empty()
        }),
    decreases cs.len(),
{
    let tail = (if hash_free(x.0) && hash_free(x.1) {
        seq![x]
    } else {
        Seq::<(Seq<char>, Seq<char>)>::empty()
    });
    if cs.len() == 0 {
        assert(cs.push(x)[0] == x);
        assert(cs.push(x).drop_first() =~= Seq::<(Seq<char>, Seq<char>)>::empty());
        let head2 = (if hash_free(cs.push(x)[0].0) && hash_free(cs.push(x)[0].1) {
            seq![cs.push(x)[0]]
        } else {
            Seq::<(Seq<char>, Seq<char>)>::empty()
        });
        assert(strip_hash_items(cs.push(x)) == head2 + strip_hash_items(cs.push(x).drop_first()));
        assert(head2 == tail);
        assert(strip_hash_items(cs.push(x).drop_first()) =~= Seq::<(
            Seq<char>,
            Seq<char>,
        )>::empty());
        assert(head2 + strip_hash_items(cs.push(x).drop_first()) =~= tail);
        assert(strip_hash_items(cs) + tail =~= tail);
    } else {
        assert(cs.push(x)[0] == cs[0]);
        assert(cs.push(x).drop_first() =~= cs.drop_first().push(x));
        lemma_strip_hash_items_snoc(cs.drop_first(), x);
        let head = (if hash_free(cs[0].0) && hash_free(cs[0].1) {
            seq![cs[0]]
        } else {
            Seq::<(Seq<char>, Seq<char>)>::empty()
        });
        assert(strip_hash_items(cs.push(x)) == head + strip_hash_items(cs.drop_first().push(x)));
        assert(strip_hash_items(cs) == head + strip_hash_items(cs.drop_first()));
        assert((head + strip_hash_items(cs.drop_first())) + tail =~= head + (strip_hash_items(
            cs.drop_first(),
        ) + tail));
    }
}

/// The stripped class store: synthetic `#` entries dropped, members
/// reinserted in order.
pub open spec fn stripped_spigot_store(cls: crate::store::StoreV) -> crate::store::StoreV {
    crate::store::StoreV {
        classes: crate::store::insert_all(Seq::empty(), strip_hash_items(cls.classes)),
        fields: crate::store::insert_all(Seq::empty(), cls.fields),
        methods: crate::store::insert_all(Seq::empty(), cls.methods),
    }
}

/// The package every Spigot class ends up under, slash included.
pub open spec fn nms_package() -> Seq<char> {
    "net/minecraft/server"@ + seq!['/']
}

/// The `obf2spigot` store: classes stripped of `#` entries, chained
/// with the member mappings, every renamed class moved into the
/// `net/minecraft/server` package.
pub open spec fn spigot_composed(cls: crate::store::StoreV, mem: crate::store::StoreV) -> crate::store::StoreV {
    let chained = crate::store::chain_image(stripped_spigot_store(cls), mem);
    crate::store::StoreV {
        classes: chained.classes.map_values(
            |p: (Seq<char>, Seq<char>)|
                (
                    p.0,
                    match crate::store::package_hook(Seq::empty(), nms_package(), p.1) {
                        Some(n) => n,
                        None => p.1,
                    },
                ),
        ),
        fields: chained.fields,
        methods: chained.methods,
    }
}

/// Whether the name holds a `#`, the marker of synthetic entries the
/// Spigot class table carries.
fn contains_hash(s: &str) -> (r: bool)
    ensures
        r == (exists|i: int| 0 <= i < s@.len() && s@[i] == '#'),
{
    let len = s.unicode_len();
    let mut i: usize = 0;
    while i < len
        invariant
            i <= len,
            len == s@.len(),
            forall|j: int| 0 <= j < i ==> s@[j] != '#',
        decreases len - i,
    {
        if s.get_char(i) == '#' {
            return true;
        }
        i = i + 1;
    }
    false
}

/// The `obf2spigot` store: the class mappings stripped of synthetic
/// `#` entries, chained with the member mappings, and moved into the
/// `net/minecraft/server` package.
pub fn compose_spigot(
    class_mappings: &MappingsBuilder,
    member_mappings: &MappingsBuilder,
) -> (r: MappingsBuilder)
    requires
        class_mappings.wf(),
        member_mappings.wf(),
    ensures
        r.wf(),
        r@ == spigot_composed(class_mappings@, member_mappings@),
{
    let ghost cv = class_mappings@;
    let mut stripped = MappingsBuilder::new();
    let mut i: usize = 0;
    proof {
        assert(cv.classes.take(0) =~= Seq::<(Seq<char>, Seq<char>)>::empty());
    }
    while i < class_mappings.classes.len()
        invariant
            i <= cv.classes.len(),
            stripped.wf(),
            class_mappings.wf(),
            cv == class_mappings@,
            stripped@.fields.len() == 0,
            stripped@.methods.len() == 0,
            stripped@.classes == crate::store::insert_all(
                Seq::empty(),
                strip_hash_items(cv.classes.take(i as int)),
            ),
        decreases cv.classes.len() - i,
    {
        proof {
            assert(wf_class_chars(cv.classes[i as int].0));
            assert(wf_class_chars(cv.classes[i as int].1));
            assert(cv.classes.take(i + 1) =~= cv.classes.take(i as int).push(
                cv.classes[i as int],
            ));
            lemma_strip_hash_items_snoc(cv.classes.take(i as int), cv.classes[i as int]);
        }
        if !contains_hash(class_mappings.classes[i].0.internal_name()) && !contains_hash(
            class_mappings.classes[i].1.internal_name(),
        ) {
            proof {
                assert(strip_hash_items(cv.classes.take(i + 1)) =~= strip_hash_items(
                    cv.classes.take(i as int),
                ).push(cv.classes[i as int]));
                crate::store::lemma_insert_all_snoc(
                    Seq::<(Seq<char>, Seq<char>)>::empty(),
                    strip_hash_items(cv.classes.take(i as int)),
                    cv.classes[i as int],
                );
            }
            let res = stripped.insert_class(
                class_mappings.classes[i].0.clone(),
                class_mappings.classes[i].1.clone(),
            );
            proof {
                assert(res is Ok);
            }
        } else {
            proof {
                assert(strip_hash_items(cv.classes.take(i + 1)) =~= strip_hash_items(
                    cv.classes.take(i as int),
                ));
            }
        }
        i = i + 1;
    }
    proof {
        assert(cv.classes.take(cv.classes.len() as int) =~= cv.classes);
    }
    let mut j: usize = 0;
    proof {
        assert(cv.fields.take(0) =~= Seq::<(
            crate::names::FieldDataV,
            Seq<char>,
        )>::empty());
    }
    while j < class_mappings.field_names.len()
        invariant
            j <= cv.fields.len(),
            stripped.wf(),
            class_mappings.wf(),
            cv == class_mappings@,
            stripped@.classes == crate::store::insert_all(
                Seq::empty(),
                strip_hash_items(cv.classes),
            ),
            stripped@.methods.len() == 0,
            stripped@.fields == crate::store::insert_all(
                Seq::empty(),
                cv.fields.take(j as int),
            ),
        decreases cv.fields.len() - j,
    {
        proof {
            assert(crate::names::wf_field_v(cv.fields[j as int].0));
            assert(crate::names::wf_member_chars(cv.fields[j as int].1));
            assert(cv.fields.take(j + 1) =~= cv.fields.take(j as int).push(cv.fields[j as int]));
            crate::store::lemma_insert_all_snoc(
                Seq::<(crate::names::FieldDataV, Seq<char>)>::empty(),
                cv.fields.take(j as int),
                cv.fields[j as int],
            );
        }
        let res = stripped.insert_field(
            class_mappings.field_names[j].0.clone(),
            class_mappings.field_names[j].1.clone(),
        );
        proof {
            assert(res is Ok);
        }
        j = j + 1;
    }
    proof {
        assert(cv.fields.take(cv.fields.len() as int) =~= cv.fields);
    }
    let mut j: usize = 0;
    proof {
        assert(cv.methods.take(0) =~= Seq::<(
            crate::descriptor::MethodDataV,
            Seq<char>,
        )>::empty());
    }
    while j < class_mappings.method_names.len()
        invariant
            j <= cv.methods.len(),
            stripped.wf(),
            class_mappings.wf(),
            cv == class_mappings@,
            stripped@.classes == crate::store::insert_all(
                Seq::empty(),
                strip_hash_items(cv.classes),
            ),
            stripped@.fields == crate::store::insert_all(Seq::empty(), cv.fields),
            stripped@.methods == crate::store::insert_all(
                Seq::empty(),
                cv.methods.take(j as int),
            ),
        decreases cv.methods.len() - j,
    {
        proof {
            assert(crate::descriptor::wf_method_v(cv.methods[j as int].0));
            assert(crate::names::wf_member_chars(cv.methods[j as int].1));
            assert(cv.methods.take(j + 1) =~= cv.methods.take(j as int).push(
                cv.methods[j as int],
            ));
            crate::store::lemma_insert_all_snoc(
                Seq::<(crate::descriptor::MethodDataV, Seq<char>)>::empty(),
                cv.methods.take(j as int),
                cv.methods[j as int],
            );
        }
        let res = stripped.insert_method(
            class_mappings.method_names[j].0.clone(),
            class_mappings.method_names[j].1.clone(),
        );
        proof {
            assert(res is Ok);
        }
        j = j + 1;
    }
    proof {
        assert(cv.methods.take(cv.methods.len() as int) =~= cv.methods);
        assert(stripped@ =~= stripped_spigot_store(cv));
    }
    stripped.chain(member_mappings);
    let ghost chained = crate::store::chain_image(stripped_spigot_store(cv), member_mappings@);
    proof {
        assert(stripped@ == chained);
    }
    let transformer = PackageTransformer::single(
        String::from_str(""),
        String::from_str("net/minecraft/server"),
    );
    proof {
        reveal_strlit("");
        reveal_strlit("net/minecraft/server");
        assert((""@).len() == 0);
        assert(("net/minecraft/server"@).len() == 20);
        assert(good_prefix("net/minecraft/server"@, 20)) by {
            reveal_with_fuel(good_prefix, 25);
        }
        lemma_good_prefix("net/minecraft/server"@, 20);
        assert(transformer.original@ =~= Seq::<char>::empty());
        assert(transformer.renamed@ == nms_package());
        assert forall|i2: int|
            0 <= i2 < transformer.renamed@.len() implies !crate::names::bad_name_char(
            transformer.renamed@[i2],
        ) by {
            if i2 < 20 {
                assert(transformer.renamed@[i2] == ("net/minecraft/server"@)[i2]);
            } else {
                assert(transformer.renamed@[i2] == '/');
            }
        }
        assert(transformer.wf());
        transformer.lemma_transformer_wf();
    }
    stripped.transform(&transformer);
    proof {
        assert forall|k: int|
            0 <= k < stripped@.classes.len() implies #[trigger] stripped@.classes[k]
            == spigot_composed(cv, member_mappings@).classes[k] by {
            assert(stripped@.classes[k] == crate::store::transformed_class_value(
                &transformer,
                chained.classes[k],
            ));
            assert(transformer.class_hook(chained.classes[k].1) == crate::store::package_hook(
                Seq::empty(),
                nms_package(),
                chained.classes[k].1,
            ));
        }
        assert(stripped@.classes =~= spigot_composed(cv, member_mappings@).classes);
        assert(stripped@ =~= spigot_composed(cv, member_mappings@));
    }
    stripped
}

/// The snapshot a dependency contributes: its entry in the results, or
/// an empty snapshot if it is absent (a case the engine never uses).
pub open spec fn dep_view(rs: Seq<(MappingsTarget, MappingsSnapshot)>, d: MappingsTarget) -> crate::store::SnapshotV {
    match assoc(rs, d) {
        Some(s) => s@,
        None => crate::store::SnapshotV {
            classes: Seq::empty(),
            fields: Seq::empty(),
            methods: Seq::empty(),
        },
    }
}

/// A modified target's underlying plain target.
pub open spec fn unmod_of(t: MappingsTarget) -> MappingsTarget {
    MappingsTarget { original: t.original, renamed: t.renamed, modifier: None }
}

/// The `original2obf` target an `onlyobf` restriction consults.
pub open spec fn to_obf_of(t: MappingsTarget) -> MappingsTarget {
    MappingsTarget { original: t.original, renamed: MappingsFormat::Obf, modifier: None }
}

/// The snapshot a finished target holds, as a function of the
/// primitive inputs and the dependency snapshots in the results:
/// primitives come from the inputs, reversals and chains from the
/// rebuilt dependency stores, and modifiers restrict the unmodified
/// set.
pub open spec fn spec_target_result(
    t: MappingsTarget,
    rs: Seq<(MappingsTarget, MappingsSnapshot)>,
    sources: &PrimitiveSources,
) -> crate::store::SnapshotV {
    match t.modifier {
        Some(TargetModifier::Classes) => crate::store::snapshot_of(
            crate::store::StoreV {
                classes: crate::store::rebuilt_store(dep_view(rs, unmod_of(t))).classes,
                fields: Seq::empty(),
                methods: Seq::empty(),
            },
        ),
        Some(TargetModifier::Members) => crate::store::snapshot_of(
            crate::store::StoreV {
                classes: Seq::empty(),
                fields: crate::store::rebuilt_store(dep_view(rs, unmod_of(t))).fields,
                methods: crate::store::rebuilt_store(dep_view(rs, unmod_of(t))).methods,
            },
        ),
        Some(TargetModifier::Onlyobf) => if t.original == MappingsFormat::Obf {
            crate::store::snapshot_of(crate::store::rebuilt_store(dep_view(rs, unmod_of(t))))
        } else {
            crate::store::snapshot_of(
                onlyobf_store(dep_view(rs, unmod_of(t)), dep_view(rs, to_obf_of(t))),
            )
        },
        None => spec_plain_result(t, rs, sources),
    }
}

/// The unmodified targets' recipes.
pub open spec fn spec_plain_result(
    t: MappingsTarget,
    rs: Seq<(MappingsTarget, MappingsSnapshot)>,
    sources: &PrimitiveSources,
) -> crate::store::SnapshotV {
    let obf2srg = MappingsTarget {
        original: MappingsFormat::Obf,
        renamed: MappingsFormat::Srg,
        modifier: None,
    };
    match (t.original, t.renamed) {
        (MappingsFormat::Obf, MappingsFormat::Srg) => crate::store::snapshot_of(
            sources.obf2srg@,
        ),
        (MappingsFormat::Obf, MappingsFormat::Spigot) => crate::store::snapshot_of(
            spigot_composed(sources.spigot_class_mappings@, sources.spigot_member_mappings@),
        ),
        (MappingsFormat::Srg, MappingsFormat::Mcp) => crate::store::snapshot_of(
            mcp_derived_store(dep_view(rs, obf2srg), &sources.mcp),
        ),
        (MappingsFormat::Srg, MappingsFormat::Obf) => reversed_result(rs, obf2srg),
        (MappingsFormat::Mcp, MappingsFormat::Obf) => reversed_result(
            rs,
            MappingsTarget {
                original: MappingsFormat::Obf,
                renamed: MappingsFormat::Mcp,
                modifier: None,
            },
        ),
        (MappingsFormat::Spigot, MappingsFormat::Obf) => reversed_result(
            rs,
            MappingsTarget {
                original: MappingsFormat::Obf,
                renamed: MappingsFormat::Spigot,
                modifier: None,
            },
        ),
        (MappingsFormat::Mcp, MappingsFormat::Srg) => reversed_result(
            rs,
            MappingsTarget {
                original: MappingsFormat::Srg,
                renamed: MappingsFormat::Mcp,
                modifier: None,
            },
        ),
        (MappingsFormat::Srg, MappingsFormat::Spigot) => chained_result(
            rs,
            MappingsTarget {
                original: MappingsFormat::Srg,
                renamed: MappingsFormat::Obf,
                modifier: None,
            },
            MappingsTarget {
                original: MappingsFormat::Obf,
                renamed: MappingsFormat::Spigot,
                modifier: None,
            },
        ),
        (MappingsFormat::Mcp, MappingsFormat::Spigot) => chained_result(
            rs,
            MappingsTarget {
                original: MappingsFormat::Mcp,
                renamed: MappingsFormat::Obf,
                modifier: None,
            },
            MappingsTarget {
                original: MappingsFormat::Obf,
                renamed: MappingsFormat::Spigot,
                modifier: None,
            },
        ),
        (MappingsFormat::Spigot, MappingsFormat::Srg) => chained_result(
            rs,
            MappingsTarget {
                original: MappingsFormat::Spigot,
                renamed: MappingsFormat::Obf,
                modifier: None,
            },
            obf2srg,
        ),
        (MappingsFormat::Spigot, MappingsFormat::Mcp) => chained_result(
            rs,
            MappingsTarget {
                original: MappingsFormat::Spigot,
                renamed: MappingsFormat::Obf,
                modifier: None,
            },
            MappingsTarget {
                original: MappingsFormat::Obf,
                renamed: MappingsFormat::Mcp,
                modifier: None,
            },
        ),
        (MappingsFormat::Obf, MappingsFormat::Mcp) => chained_result(
            rs,
            obf2srg,
            MappingsTarget {
                original: MappingsFormat::Srg,
                renamed: MappingsFormat::Mcp,
                modifier: None,
            },
        ),
        _ => crate::store::snapshot_of(
            crate::store::StoreV {
                classes: Seq::empty(),
                fields: Seq::empty(),
                methods: Seq::empty(),
            },
        ),
    }
}

/// A dependency's store, reversed.
pub open spec fn reversed_result(rs: Seq<(MappingsTarget, MappingsSnapshot)>, dep: MappingsTarget) -> crate::store::SnapshotV {
    crate::store::snapshot_of(
        crate::store::rev_store_v(crate::store::rebuilt_store(dep_view(rs, dep))),
    )
}

/// The first dependency's store chained with the second's.
pub open spec fn chained_result(
    rs: Seq<(MappingsTarget, MappingsSnapshot)>,
    first: MappingsTarget,
    second: MappingsTarget,
) -> crate::store::SnapshotV {
    crate::store::snapshot_of(
        crate::store::chain_image(
            crate::store::rebuilt_store(dep_view(rs, first)),
            crate::store::rebuilt_store(dep_view(rs, second)),
        ),
    )
}

/// A target's recipe reads the results only at its dependencies, so
/// any growth of the results that leaves those entries alone leaves
/// the recipe's value alone.
pub proof fn lemma_target_result_stable(
    t: MappingsTarget,
    rs1: Seq<(MappingsTarget, MappingsSnapshot)>,
    rs2: Seq<(MappingsTarget, MappingsSnapshot)>,
    sources: &PrimitiveSources,
)
    requires
        forall|k: int|
            0 <= k < spec_deps(t).len() ==> assoc(rs2, #[trigger] spec_deps(t)[k]) == assoc(
                rs1,
                spec_deps(t)[k],
            ),
    ensures
        spec_target_result(t, rs2, sources) == spec_target_result(t, rs1, sources),
{
    match t.modifier {
        Some(TargetModifier::Onlyobf) => {
            assert(spec_deps(t)[0] == unmod_of(t));
            assert(dep_view(rs2, unmod_of(t)) == dep_view(rs1, unmod_of(t)));
            if t.original != MappingsFormat::Obf {
                assert(spec_deps(t)[1] == to_obf_of(t));
                assert(dep_view(rs2, to_obf_of(t)) == dep_view(rs1, to_obf_of(t)));
            }
        },
        Some(_) => {
            assert(spec_deps(t)[0] == unmod_of(t));
            assert(dep_view(rs2, unmod_of(t)) == dep_view(rs1, unmod_of(t)));
        },
        None => {
            match (t.original, t.renamed) {
                (MappingsFormat::Obf, MappingsFormat::Srg) => {},
                (MappingsFormat::Obf, MappingsFormat::Spigot) => {},
                _ => {
                    assert forall|k: int|
                        0 <= k < spec_deps(t).len() implies dep_view(
                        rs2,
                        #[trigger] spec_deps(t)[k],
                    ) == dep_view(rs1, spec_deps(t)[k]) by {}
                    if spec_deps(t).len() >= 1 {
                        assert(dep_view(rs2, spec_deps(t)[0]) == dep_view(rs1, spec_deps(t)[0]));
                    }
                    if spec_deps(t).len() >= 2 {
                        assert(dep_view(rs2, spec_deps(t)[1]) == dep_view(rs1, spec_deps(t)[1]));
                    }
                },
            }
        },
    }
}

// ---------------------------------------------------------------------
// The work-queue engine
// ---------------------------------------------------------------------
/// What computing one target yields: a finished snapshot, or the
/// dependencies that are not in the results yet.
#[derive(Debug)]
pub enum TargetOutcome {
    Done(MappingsSnapshot),
    Waiting(Vec<MappingsTarget>),
}

/// Configuration of a target computation.
#[derive(Debug)]
pub struct MappingsTargetComputerBuilder {
    pub minecraft_version: String,
    pub mcp_version: Option<String>,
    pub refresh_spigot: bool,
    pub builddata_commit: Option<String>,
    pub initial_targets: Vec<MappingsTarget>,
}

impl MappingsTargetComputerBuilder {
    pub fn new(minecraft_version: String) -> (r: MappingsTargetComputerBuilder)
        ensures
            r.initial_targets@.len() == 0,
            r.minecraft_version@ == minecraft_version@,
    {
        MappingsTargetComputerBuilder {
            minecraft_version,
            mcp_version: None,
            refresh_spigot: false,
            builddata_commit: None,
            initial_targets: Vec::new(),
        }
    }

    pub fn mcp_version(&mut self, mcp_version: String)
        ensures
            final(self).initial_targets == old(self).initial_targets,
    {
        self.mcp_version = Some(mcp_version);
    }

    pub fn builddata_commit(&mut self, builddata_commit: String)
        ensures
            final(self).initial_targets == old(self).initial_targets,
    {
        self.builddata_commit = Some(builddata_commit);
    }

    pub fn refresh_spigot(&mut self)
        ensures
            final(self).initial_targets == old(self).initial_targets,
    {
        self.refresh_spigot = true;
    }

    /// Request more targets.
    pub fn targets(&mut self, targets: &Vec<MappingsTarget>)
        requires
            forall|i: int| 0 <= i < targets@.len() ==> target_wf(#[trigger] targets@[i]),
            forall|i: int|
                0 <= i < old(self).initial_targets@.len() ==> target_wf(
                    #[trigger] old(self).initial_targets@[i],
                ),
        ensures
            forall|i: int|
                0 <= i < final(self).initial_targets@.len() ==> target_wf(
                    #[trigger] final(self).initial_targets@[i],
                ),
            final(self).initial_targets@ == old(self).initial_targets@ + targets@,
    {
        let mut i: usize = 0;
        while i < targets.len()
            invariant
                i <= targets@.len(),
                forall|k: int| 0 <= k < targets@.len() ==> target_wf(#[trigger] targets@[k]),
                self.initial_targets@ == old(self).initial_targets@ + targets@.take(i as int),
                forall|k: int|
                    0 <= k < self.initial_targets@.len() ==> target_wf(
                        #[trigger] self.initial_targets@[k],
                    ),
            decreases targets@.len() - i,
        {
            let t = targets[i];
            self.initial_targets.push(t);
            proof {
                assert(self.initial_targets@ =~= old(self).initial_targets@ + targets@.take(
                    i + 1,
                ));
            }
            i = i + 1;
        }
        proof {
            assert(targets@.take(targets@.len() as int) =~= targets@);
        }
    }

    /// Seed the engine: every requested target is queued and marked
    /// scheduled.
    pub fn build(self, sources: PrimitiveSources) -> (r: MappingsTargetComputer)
        requires
            forall|i: int|
                0 <= i < self.initial_targets@.len() ==> target_wf(
                    #[trigger] self.initial_targets@[i],
                ),
            sources_wf(&sources),
        ensures
            r.wf(),
            !r.done,
            r.results_consistent(),
            forall|i: int|
                0 <= i < self.initial_targets@.len() ==> r.scheduled@.contains(
                    #[trigger] self.initial_targets@[i],
                ),
    {
        let mut computer = MappingsTargetComputer {
            sources,
            results: Vec::new(),
            remaining_targets: Vec::new(),
            scheduled: Vec::new(),
            done: false,
            failed: false,
        };
        let mut i: usize = 0;
        while i < self.initial_targets.len()
            invariant
                i <= self.initial_targets@.len(),
                forall|k: int|
                    0 <= k < self.initial_targets@.len() ==> target_wf(
                        #[trigger] self.initial_targets@[k],
                    ),
                computer.wf(),
                !computer.done,
                computer.results@.len() == 0,
                forall|k: int|
                    0 <= k < i ==> computer.scheduled@.contains(#[trigger] self.initial_targets@[k]),
            decreases self.initial_targets@.len() - i,
        {
            let t = self.initial_targets[i];
            computer.schedule(t);
            i = i + 1;
        }
        computer
    }
}

/// The engine: a ready queue, finished results, and the set of targets
/// that were ever scheduled.  A target whose dependencies are missing is
/// put back behind them; the queue is drained to exhaustion.
#[derive(Debug)]
pub struct MappingsTargetComputer {
    pub sources: PrimitiveSources,
    pub results: Vec<(MappingsTarget, MappingsSnapshot)>,
    pub remaining_targets: Vec<MappingsTarget>,
    pub scheduled: Vec<MappingsTarget>,
    pub done: bool,
    pub failed: bool,
}

impl MappingsTargetComputer {
    /// The result table's own invariant: keys distinct, snapshots
    /// well formed.
    pub open spec fn results_wf(&self) -> bool {
        &&& unique_keys(self.results@)
        &&& (forall|i: int|
            0 <= i < self.results@.len() ==> {
                let p = #[trigger] self.results@[i];
                &&& target_wf(p.0)
                &&& p.1.wf()
                &&& crate::store::snapshot_names_wf(p.1@)
            })
    }

    /// Every finished target's dependencies are finished too, and its
    /// snapshot is exactly what its recipe assigns it over the results
    /// and the primitive inputs.
    pub open spec fn results_consistent(&self) -> bool {
        forall|i: int|
            0 <= i < self.results@.len() ==> {
                let p = #[trigger] self.results@[i];
                &&& (forall|k: int|
                    0 <= k < spec_deps(p.0).len() ==> assoc(
                        self.results@,
                        #[trigger] spec_deps(p.0)[k],
                    ) is Some)
                &&& p.1@ == spec_target_result(p.0, self.results@, &self.sources)
            }
    }

    /// The engine's invariant: every scheduled target is finished or
    /// still queued; results are produced at most once and hold
    /// well-formed snapshots.
    pub open spec fn wf(&self) -> bool {
        &&& sources_wf(&self.sources)
        &&& self.results_wf()
        &&& self.remaining_targets@.no_duplicates()
        &&& (forall|i: int|
            0 <= i < self.scheduled@.len() ==> target_wf(#[trigger] self.scheduled@[i]) && (assoc(
                self.results@,
                self.scheduled@[i],
            ) is Some || self.remaining_targets@.contains(self.scheduled@[i])))
        &&& (forall|i: int|
            0 <= i < self.remaining_targets@.len() ==> target_wf(
                #[trigger] self.remaining_targets@[i],
            ) && self.scheduled@.contains(self.remaining_targets@[i]))
    }

    /// The finished snapshot of a target, if computed.
    pub fn find_result(&self, t: &MappingsTarget) -> (r: Option<&MappingsSnapshot>)
        ensures
            r is Some <==> assoc(self.results@, *t) is Some,
            r matches Some(s) ==> assoc(self.results@, *t) == Some(*s),
            self.results_wf() && r is Some ==> (match r {
                Some(s) => s.wf() && crate::store::snapshot_names_wf(s@),
                None => false,
            }),
    {
        let mut i: usize = 0;
        while i < self.results.len()
            invariant
                i <= self.results@.len(),
                forall|j: int| 0 <= j < i ==> (#[trigger] self.results@[j]).0 != *t,
            decreases self.results@.len() - i,
        {
            if self.results[i].0 == *t {
                proof {
                    crate::store::lemma_assoc_at(self.results@, *t, i as int);
                }
                return Some(&self.results[i].1);
            }
            i = i + 1;
        }
        proof {
            crate::store::lemma_assoc_none(self.results@, *t);
        }
        None
    }

    /// The computed snapshots; to be read only after the work finished
    /// without failure.
    pub fn results(&self) -> (r: &Vec<(MappingsTarget, MappingsSnapshot)>)
        requires
            self.done,
            !self.failed,
        ensures
            r == &self.results,
    {
        &self.results
    }

    /// Mark a target scheduled and queue it, unless it was ever
    /// scheduled before.
    fn schedule(&mut self, t: MappingsTarget)
        requires
            old(self).wf(),
            target_wf(t),
        ensures
            final(self).wf(),
            final(self).sources == old(self).sources,
            final(self).done == old(self).done,
            final(self).failed == old(self).failed,
            final(self).results == old(self).results,
            final(self).scheduled@.contains(t),
            forall|t2: MappingsTarget|
                old(self).scheduled@.contains(t2) ==> final(self).scheduled@.contains(t2),
            final(self).remaining_targets@ == old(self).remaining_targets@
                || final(self).remaining_targets@ == old(self).remaining_targets@.push(t),
    {
        let mut i: usize = 0;
        while i < self.scheduled.len()
            invariant
                i <= self.scheduled@.len(),
                *self == *old(self),
                old(self).wf(),
                forall|j: int| 0 <= j < i ==> self.scheduled@[j] != t,
            decreases self.scheduled@.len() - i,
        {
            if self.scheduled[i] == t {
                proof {
                    assert(self.scheduled@[i as int] == t);
                }
                return ;
            }
            i = i + 1;
        }
        let ghost s0 = self.scheduled@;
        let ghost q0 = self.remaining_targets@;
        self.remaining_targets.push(t);
        self.scheduled.push(t);
        proof {
            assert(self.scheduled@[s0.len() as int] == t);
            assert(self.remaining_targets@[q0.len() as int] == t);
            assert(!q0.contains(t)) by {
                if q0.contains(t) {
                    let k = choose|k: int| 0 <= k < q0.len() && q0[k] == t;
                    let k2 = choose|k2: int| 0 <= k2 < s0.len() && s0[k2] == t;
                }
            }
            assert(self.remaining_targets@.no_duplicates()) by {
                assert forall|i2: int, j2: int|
                    0 <= i2 < self.remaining_targets@.len() && 0 <= j2
                        < self.remaining_targets@.len() && i2 != j2 implies self.remaining_targets@[i2]
                    != self.remaining_targets@[j2] by {
                    if i2 < q0.len() && j2 < q0.len() {
                        assert(self.remaining_targets@[i2] == q0[i2]);
                        assert(self.remaining_targets@[j2] == q0[j2]);
                    } else if i2 < q0.len() {
                        assert(self.remaining_targets@[i2] == q0[i2]);
                        assert(q0.contains(q0[i2]));
                    } else {
                        assert(self.remaining_targets@[j2] == q0[j2]);
                        assert(q0.contains(q0[j2]));
                    }
                }
            }
            assert forall|i2: int|
                0 <= i2 < self.scheduled@.len() implies target_wf(#[trigger] self.scheduled@[i2])
                && (assoc(self.results@, self.scheduled@[i2]) is Some
                || self.remaining_targets@.contains(self.scheduled@[i2])) by {
                if i2 < s0.len() {
                    assert(self.scheduled@[i2] == s0[i2]);
                    if q0.contains(s0[i2]) {
                        let k = choose|k: int| 0 <= k < q0.len() && q0[k] == s0[i2];
                        assert(self.remaining_targets@[k] == s0[i2]);
                    }
                } else {
                    assert(self.remaining_targets@.contains(t));
                }
            }
            assert forall|i2: int|
                0 <= i2 < self.remaining_targets@.len() implies target_wf(
                #[trigger] self.remaining_targets@[i2],
            ) && self.scheduled@.contains(self.remaining_targets@[i2]) by {
                if i2 < q0.len() {
                    assert(self.remaining_targets@[i2] == q0[i2]);
                    let k = choose|k: int| 0 <= k < s0.len() && s0[k] == q0[i2];
                    assert(self.scheduled@[k] == q0[i2]);
                } else {
                    assert(self.scheduled@.contains(t));
                }
            }
            assert forall|t2: MappingsTarget| s0.contains(t2) implies self.scheduled@.contains(
                t2,
            ) by {
                let k = choose|k: int| 0 <= k < s0.len() && s0[k] == t2;
                assert(self.scheduled@[k] == t2);
            }
        }
    }

    /// Decide one target from the results alone: compose it when its
    /// dependencies are all present, else report what is missing.
    pub fn try_compute_target(&self, target: MappingsTarget) -> (r: TargetOutcome)
        requires
            sources_wf(&self.sources),
            self.results_wf(),
            target_wf(target),
        ensures
            r matches TargetOutcome::Waiting(deps) ==> deps@.len() > 0 && (forall|k: int|
                0 <= k < deps@.len() ==> spec_deps(target).contains(#[trigger] deps@[k])
                    && target_wf(deps@[k]) && assoc(self.results@, deps@[k]) is None),
            r matches TargetOutcome::Waiting(deps) ==> (forall|k: int|
                0 <= k < spec_deps(target).len() ==> (assoc(
                    self.results@,
                    #[trigger] spec_deps(target)[k],
                ) is None ==> deps@.contains(spec_deps(target)[k]))),
            r is Done ==> (forall|k: int|
                0 <= k < spec_deps(target).len() ==> assoc(
                    self.results@,
                    #[trigger] spec_deps(target)[k],
                ) is Some),
            r matches TargetOutcome::Done(s) ==> s.wf() && crate::store::snapshot_names_wf(s@)
                && s@ == spec_target_result(target, self.results@, &self.sources),
    {
        proof {
            lemma_spec_deps_wf(target);
        }
        match target.modifier {
            Some(m) => {
                let unmod = MappingsTarget::new(target.original, target.renamed);
                proof {
                    assert(spec_deps(target).contains(unmod)) by {
                        assert(spec_deps(target)[0] == unmod);
                    }
                }
                match m {
                    TargetModifier::Onlyobf => {
                        if !(target.original == MappingsFormat::Obf) {
                            let o2o = MappingsTarget::new(target.original, MappingsFormat::Obf);
                            proof {
                                assert(spec_deps(target).contains(o2o)) by {
                                    assert(spec_deps(target)[1] == o2o);
                                }
                            }
                            let mut missing: Vec<MappingsTarget> = Vec::new();
                            if self.find_result(&unmod).is_none() {
                                missing.push(unmod);
                            }
                            if self.find_result(&o2o).is_none() {
                                missing.push(o2o);
                            }
                            proof {
                                assert(spec_deps(target).len() == 2);
                                assert(spec_deps(target)[0] == unmod);
                                assert(spec_deps(target)[1] == o2o);
                                if assoc(self.results@, unmod) is None {
                                    assert(missing@[0] == unmod);
                                    assert(missing@.contains(unmod));
                                }
                                if assoc(self.results@, o2o) is None {
                                    assert(missing@[missing@.len() - 1] == o2o);
                                    assert(missing@.contains(o2o));
                                }
                            }
                            if missing.len() > 0 {
                                return TargetOutcome::Waiting(missing);
                            }
                            proof {
                                assert(unmod == unmod_of(target));
                                assert(o2o == to_obf_of(target));
                            }
                            let u = match self.find_result(&unmod) {
                                Some(u) => u,
                                None => {
                                    proof {
                                        assert(false);
                                    }
                                    return TargetOutcome::Waiting(missing);
                                },
                            };
                            let oo = match self.find_result(&o2o) {
                                Some(o) => o,
                                None => {
                                    proof {
                                        assert(false);
                                    }
                                    return TargetOutcome::Waiting(Vec::new());
                                },
                            };
                            return TargetOutcome::Done(restrict_onlyobf(u, oo));
                        }
                        match self.find_result(&unmod) {
                            Some(u) => {
                                proof {
                                    assert(spec_deps(target).len() == 1);
                                    assert(spec_deps(target)[0] == unmod);
                                    assert(unmod == unmod_of(target));
                                }
                                let b = u.rebuild();
                                TargetOutcome::Done(b.snapshot())
                            },
                            None => {
                                let mut missing: Vec<MappingsTarget> = Vec::new();
                                missing.push(unmod);
                                proof {
                                    assert(spec_deps(target).len() == 1);
                                    assert(spec_deps(target)[0] == unmod);
                                    assert(missing@[0] == unmod);
                                    assert(missing@.contains(unmod));
                                }
                                TargetOutcome::Waiting(missing)
                            },
                        }
                    },
                    TargetModifier::Classes => {
                        match self.find_result(&unmod) {
                            Some(u) => {
                                let mut b = u.rebuild();
                                b.field_names = Vec::new();
                                b.method_names = Vec::new();
                                proof {
                                    assert(b@.fields =~= Seq::<(
                                        crate::names::FieldDataV,
                                        Seq<char>,
                                    )>::empty());
                                    assert(b@.methods =~= Seq::<(
                                        crate::descriptor::MethodDataV,
                                        Seq<char>,
                                    )>::empty());
                                    assert(b@.fields.len() == 0);
                                    assert(b@.methods.len() == 0);
                                    assert(b.wf());
                                    assert(spec_deps(target).len() == 1);
                                    assert(spec_deps(target)[0] == unmod);
                                    assert(unmod == unmod_of(target));
                                    assert(b@ =~= (crate::store::StoreV {
                                        classes: crate::store::rebuilt_store(u@).classes,
                                        fields: Seq::empty(),
                                        methods: Seq::empty(),
                                    }));
                                }
                                TargetOutcome::Done(b.snapshot())
                            },
                            None => {
                                let mut missing: Vec<MappingsTarget> = Vec::new();
                                missing.push(unmod);
                                proof {
                                    assert(spec_deps(target).len() == 1);
                                    assert(spec_deps(target)[0] == unmod);
                                    assert(missing@[0] == unmod);
                                    assert(missing@.contains(unmod));
                                }
                                TargetOutcome::Waiting(missing)
                            },
                        }
                    },
                    TargetModifier::Members => {
                        match self.find_result(&unmod) {
                            Some(u) => {
                                let mut b = u.rebuild();
                                b.classes = Vec::new();
                                proof {
                                    assert(b@.classes =~= Seq::<(Seq<char>, Seq<char>)>::empty());
                                    assert(b@.classes.len() == 0);
                                    assert(b.wf());
                                    assert(spec_deps(target).len() == 1);
                                    assert(spec_deps(target)[0] == unmod);
                                    assert(unmod == unmod_of(target));
                                    assert(b@ =~= (crate::store::StoreV {
                                        classes: Seq::empty(),
                                        fields: crate::store::rebuilt_store(u@).fields,
                                        methods: crate::store::rebuilt_store(u@).methods,
                                    }));
                                }
                                TargetOutcome::Done(b.snapshot())
                            },
                            None => {
                                let mut missing: Vec<MappingsTarget> = Vec::new();
                                missing.push(unmod);
                                proof {
                                    assert(spec_deps(target).len() == 1);
                                    assert(spec_deps(target)[0] == unmod);
                                    assert(missing@[0] == unmod);
                                    assert(missing@.contains(unmod));
                                }
                                TargetOutcome::Waiting(missing)
                            },
                        }
                    },
                }
            },
            None => self.try_compute_plain(target),
        }
    }

    /// Decide an unmodified target.
    fn try_compute_plain(&self, target: MappingsTarget) -> (r: TargetOutcome)
        requires
            sources_wf(&self.sources),
            self.results_wf(),
            target_wf(target),
            target.modifier is None,
        ensures
            r matches TargetOutcome::Waiting(deps) ==> deps@.len() > 0 && (forall|k: int|
                0 <= k < deps@.len() ==> spec_deps(target).contains(#[trigger] deps@[k])
                    && target_wf(deps@[k]) && assoc(self.results@, deps@[k]) is None),
            r matches TargetOutcome::Waiting(deps) ==> (forall|k: int|
                0 <= k < spec_deps(target).len() ==> (assoc(
                    self.results@,
                    #[trigger] spec_deps(target)[k],
                ) is None ==> deps@.contains(spec_deps(target)[k]))),
            r is Done ==> (forall|k: int|
                0 <= k < spec_deps(target).len() ==> assoc(
                    self.results@,
                    #[trigger] spec_deps(target)[k],
                ) is Some),
            r matches TargetOutcome::Done(s) ==> s.wf() && crate::store::snapshot_names_wf(s@)
                && s@ == spec_plain_result(target, self.results@, &self.sources),
    {
        proof {
            lemma_spec_deps_wf(target);
        }
        let deps = spec_deps_exec(target);
        proof {
            assert(deps@ == spec_deps(target));
        }
        let mut missing: Vec<MappingsTarget> = Vec::new();
        let mut i: usize = 0;
        while i < deps.len()
            invariant
                i <= deps@.len(),
                deps@ == spec_deps(target),
                target_wf(target),
                sources_wf(&self.sources),
                self.results_wf(),
                forall|k: int|
                    0 <= k < missing@.len() ==> spec_deps(target).contains(#[trigger] missing@[k])
                        && target_wf(missing@[k]) && assoc(self.results@, missing@[k]) is None,
                forall|k: int|
                    0 <= k < i ==> assoc(self.results@, #[trigger] deps@[k]) is Some
                        || missing@.contains(deps@[k]),
            decreases deps@.len() - i,
        {
            proof {
                lemma_spec_deps_wf(target);
                assert(spec_deps(target).contains(deps@[i as int]));
            }
            if self.find_result(&deps[i]).is_none() {
                let ghost m0 = missing@;
                missing.push(deps[i]);
                proof {
                    assert(missing@[m0.len() as int] == deps@[i as int]);
                    assert forall|k: int|
                        0 <= k < i + 1 implies assoc(self.results@, #[trigger] deps@[k]) is Some
                        || missing@.contains(deps@[k]) by {
                        if k < i {
                            if m0.contains(deps@[k]) {
                                let q = choose|q: int| 0 <= q < m0.len() && m0[q] == deps@[k];
                                assert(missing@[q] == deps@[k]);
                            }
                        } else {
                            assert(missing@[m0.len() as int] == deps@[k]);
                        }
                    }
                    assert forall|k: int|
                        0 <= k < missing@.len() implies spec_deps(target).contains(
                        #[trigger] missing@[k],
                    ) && target_wf(missing@[k]) && assoc(self.results@, missing@[k]) is None by {
                        if k < m0.len() {
                            assert(missing@[k] == m0[k]);
                        }
                    }
                }
            }
            i = i + 1;
        }
        if missing.len() > 0 {
            return TargetOutcome::Waiting(missing);
        }
        proof {
            assert forall|k: int| 0 <= k < deps@.len() implies assoc(
                self.results@,
                #[trigger] deps@[k],
            ) is Some by {
                if missing@.contains(deps@[k]) {
                    let q = choose|q: int| 0 <= q < missing@.len() && missing@[q] == deps@[k];
                }
            }
        }
        match (target.original, target.renamed) {
            (MappingsFormat::Obf, MappingsFormat::Srg) => {
                TargetOutcome::Done(self.sources.obf2srg.snapshot())
            },
            (MappingsFormat::Obf, MappingsFormat::Spigot) => {
                let b = compose_spigot(
                    &self.sources.spigot_class_mappings,
                    &self.sources.spigot_member_mappings,
                );
                TargetOutcome::Done(b.snapshot())
            },
            (MappingsFormat::Obf, MappingsFormat::Mcp) => {
                proof {
                    assert(spec_deps(target)[0] == (MappingsTarget { original: MappingsFormat::Obf, renamed: MappingsFormat::Srg, modifier: None }));
                    assert(spec_deps(target)[1] == (MappingsTarget { original: MappingsFormat::Srg, renamed: MappingsFormat::Mcp, modifier: None }));
                }
                self.compose_chain(
                    target,
                    MappingsTarget::new(MappingsFormat::Obf, MappingsFormat::Srg),
                    MappingsTarget::new(MappingsFormat::Srg, MappingsFormat::Mcp),
                )
            },
            (MappingsFormat::Srg, MappingsFormat::Mcp) => {
                let o2s = MappingsTarget::new(MappingsFormat::Obf, MappingsFormat::Srg);
                proof {
                    assert(spec_deps(target)[0] == o2s);
                }
                match self.find_result(&o2s) {
                    Some(u) => {
                        let b = derive_srg_to_mcp(u, &self.sources.mcp);
                        TargetOutcome::Done(b.snapshot())
                    },
                    None => {
                        proof {
                            assert(false);
                        }
                        TargetOutcome::Waiting(Vec::new())
                    },
                }
            },
            (MappingsFormat::Srg, MappingsFormat::Obf) => {
                proof {
                    assert(spec_deps(target)[0] == (MappingsTarget { original: MappingsFormat::Obf, renamed: MappingsFormat::Srg, modifier: None }));
                }
                self.compose_reverse(
                    target,
                    MappingsTarget::new(MappingsFormat::Obf, MappingsFormat::Srg),
                )
            },
            (MappingsFormat::Mcp, MappingsFormat::Obf) => {
                proof {
                    assert(spec_deps(target)[0] == (MappingsTarget { original: MappingsFormat::Obf, renamed: MappingsFormat::Mcp, modifier: None }));
                }
                self.compose_reverse(
                    target,
                    MappingsTarget::new(MappingsFormat::Obf, MappingsFormat::Mcp),
                )
            },
            (MappingsFormat::Spigot, MappingsFormat::Obf) => {
                proof {
                    assert(spec_deps(target)[0] == (MappingsTarget { original: MappingsFormat::Obf, renamed: MappingsFormat::Spigot, modifier: None }));
                }
                self.compose_reverse(
                    target,
                    MappingsTarget::new(MappingsFormat::Obf, MappingsFormat::Spigot),
                )
            },
            (MappingsFormat::Mcp, MappingsFormat::Srg) => {
                proof {
                    assert(spec_deps(target)[0] == (MappingsTarget { original: MappingsFormat::Srg, renamed: MappingsFormat::Mcp, modifier: None }));
                }
                self.compose_reverse(
                    target,
                    MappingsTarget::new(MappingsFormat::Srg, MappingsFormat::Mcp),
                )
            },
            (MappingsFormat::Srg, MappingsFormat::Spigot) => {
                proof {
                    assert(spec_deps(target)[0] == (MappingsTarget { original: MappingsFormat::Srg, renamed: MappingsFormat::Obf, modifier: None }));
                    assert(spec_deps(target)[1] == (MappingsTarget { original: MappingsFormat::Obf, renamed: MappingsFormat::Spigot, modifier: None }));
                }
                self.compose_chain(
                    target,
                    MappingsTarget::new(MappingsFormat::Srg, MappingsFormat::Obf),
                    MappingsTarget::new(MappingsFormat::Obf, MappingsFormat::Spigot),
                )
            },
            (MappingsFormat::Mcp, MappingsFormat::Spigot) => {
                proof {
                    assert(spec_deps(target)[0] == (MappingsTarget { original: MappingsFormat::Mcp, renamed: MappingsFormat::Obf, modifier: None }));
                    assert(spec_deps(target)[1] == (MappingsTarget { original: MappingsFormat::Obf, renamed: MappingsFormat::Spigot, modifier: None }));
                }
                self.compose_chain(
                    target,
                    MappingsTarget::new(MappingsFormat::Mcp, MappingsFormat::Obf),
                    MappingsTarget::new(MappingsFormat::Obf, MappingsFormat::Spigot),
                )
            },
            (MappingsFormat::Spigot, MappingsFormat::Srg) => {
                proof {
                    assert(spec_deps(target)[0] == (MappingsTarget { original: MappingsFormat::Spigot, renamed: MappingsFormat::Obf, modifier: None }));
                    assert(spec_deps(target)[1] == (MappingsTarget { original: MappingsFormat::Obf, renamed: MappingsFormat::Srg, modifier: None }));
                }
                self.compose_chain(
                    target,
                    MappingsTarget::new(MappingsFormat::Spigot, MappingsFormat::Obf),
                    MappingsTarget::new(MappingsFormat::Obf, MappingsFormat::Srg),
                )
            },
            (MappingsFormat::Spigot, MappingsFormat::Mcp) => {
                proof {
                    assert(spec_deps(target)[0] == (MappingsTarget { original: MappingsFormat::Spigot, renamed: MappingsFormat::Obf, modifier: None }));
                    assert(spec_deps(target)[1] == (MappingsTarget { original: MappingsFormat::Obf, renamed: MappingsFormat::Mcp, modifier: None }));
                }
                self.compose_chain(
                    target,
                    MappingsTarget::new(MappingsFormat::Spigot, MappingsFormat::Obf),
                    MappingsTarget::new(MappingsFormat::Obf, MappingsFormat::Mcp),
                )
            },
            _ => {
                proof {
                    assert(false);
                }
                TargetOutcome::Waiting(Vec::new())
            },
        }
    }

    /// The first dependency's store reversed.
    fn compose_reverse(&self, target: MappingsTarget, dep: MappingsTarget) -> (r: TargetOutcome)
        requires
            self.results_wf(),
            assoc(self.results@, dep) is Some,
        ensures
            r matches TargetOutcome::Done(s) ==> s.wf() && crate::store::snapshot_names_wf(s@)
                && s@ == reversed_result(self.results@, dep),
            r is Done,
    {
        match self.find_result(&dep) {
            Some(u) => {
                let mut b = u.rebuild();
                b.reverse();
                TargetOutcome::Done(b.snapshot())
            },
            None => {
                proof {
                    assert(false);
                }
                TargetOutcome::Waiting(Vec::new())
            },
        }
    }

    /// The first dependency's store chained with the second's.
    fn compose_chain(&self, target: MappingsTarget, first: MappingsTarget, second: MappingsTarget) -> (r:
        TargetOutcome)
        requires
            self.results_wf(),
            assoc(self.results@, first) is Some,
            assoc(self.results@, second) is Some,
        ensures
            r matches TargetOutcome::Done(s) ==> s.wf() && crate::store::snapshot_names_wf(s@)
                && s@ == chained_result(self.results@, first, second),
            r is Done,
    {
        match (self.find_result(&first), self.find_result(&second)) {
            (Some(a), Some(bsnap)) => {
                let mut b = a.rebuild();
                let other = bsnap.rebuild();
                b.chain(&other);
                TargetOutcome::Done(b.snapshot())
            },
            _ => {
                proof {
                    assert(false);
                }
                TargetOutcome::Waiting(Vec::new())
            },
        }
    }

    /// Drain the queue: pop a target; if its dependencies are all
    /// present it is computed and recorded once, otherwise it goes back
    /// behind its newly scheduled dependencies.  Ends cleanly when the
    /// queue empties, or reports a cycle when no progress is possible.
    pub fn compute_target_work(&mut self) -> (r: Result<(), MinecraftMappingError>)
        requires
            old(self).wf(),
            old(self).results_consistent(),
            !old(self).done,
        ensures
            final(self).wf(),
            final(self).done,
            final(self).failed == (r is Err),
            final(self).results_consistent(),
            unique_keys(final(self).results@),
            forall|t2: MappingsTarget|
                old(self).scheduled@.contains(t2) ==> final(self).scheduled@.contains(t2),
            r is Ok ==> (forall|i: int|
                0 <= i < final(self).scheduled@.len() ==> assoc(
                    final(self).results@,
                    #[trigger] final(self).scheduled@[i],
                ) is Some),
            r is Err ==> final(self).remaining_targets@.len() > 0 && (forall|i: int|
                0 <= i < final(self).remaining_targets@.len() ==> {
                    let t2 = #[trigger] final(self).remaining_targets@[i];
                    &&& assoc(final(self).results@, t2) is None
                    &&& exists|d: MappingsTarget|
                        (#[trigger] spec_deps(t2).contains(d)) && assoc(
                            final(self).results@,
                            d,
                        ) is None && final(self).remaining_targets@.contains(d)
                }),
    {
        let mut stall: usize = 0;
        proof {
            lemma_results_bound(self.results@);
            lemma_distinct_targets_bound(self.remaining_targets@);
        }
        loop
            invariant
                self.wf(),
                self.results_consistent(),
                self.done == old(self).done,
                self.failed == old(self).failed,
                forall|t2: MappingsTarget|
                    old(self).scheduled@.contains(t2) ==> self.scheduled@.contains(t2),
                self.results@.len() <= 64,
                self.remaining_targets@.len() <= 64,
                stall <= self.remaining_targets@.len(),
                forall|i: int|
                    0 <= i < stall ==> {
                        let t2 = #[trigger] self.remaining_targets@[i];
                        &&& assoc(self.results@, t2) is None
                        &&& exists|d: MappingsTarget|
                            (#[trigger] spec_deps(t2).contains(d)) && assoc(
                                self.results@,
                                d,
                            ) is None && self.scheduled@.contains(d)
                    },
            ensures
                self.wf(),
                self.results_consistent(),
                self.done == old(self).done,
                self.failed == old(self).failed,
                forall|t2: MappingsTarget|
                    old(self).scheduled@.contains(t2) ==> self.scheduled@.contains(t2),
                self.remaining_targets@.len() == 0 || (forall|i: int|
                    0 <= i < self.remaining_targets@.len() ==> {
                        let t2 = #[trigger] self.remaining_targets@[i];
                        &&& assoc(self.results@, t2) is None
                        &&& exists|d: MappingsTarget|
                            (#[trigger] spec_deps(t2).contains(d)) && assoc(
                                self.results@,
                                d,
                            ) is None && self.scheduled@.contains(d)
                    }),
            decreases 64 - self.results@.len(), 64 - stall, self.remaining_targets@.len(),
        {
            if self.remaining_targets.len() == 0 {
                break ;
            }
            // a full round of the queue without one new result: every
            // queued target is waiting on another queued target
            if stall >= self.remaining_targets.len() {
                break ;
            }
            let ghost q0 = self.remaining_targets@;
            let t = match self.remaining_targets.pop() {
                Some(t) => t,
                None => {
                    proof {
                        assert(false);
                    }
                    break ;
                },
            };
            proof {
                assert(t == q0[q0.len() - 1]);
                assert(q0.contains(t)) by {
                    assert(q0[q0.len() - 1] == t);
                }
                assert(target_wf(t));
            }
            if self.find_result(&t).is_some() {
                proof {
                    lemma_pop_keeps_wf(old(self), self, q0, t);
                    assert forall|i: int| 0 <= i < stall implies self.remaining_targets@[i]
                        == q0[i] by {}
                }
                continue ;
            }
            let ghost popped = *self;
            match self.try_compute_target(t) {
                TargetOutcome::Done(snap) => {
                    let ghost r0 = self.results@;
                    let ghost srcs = self.sources;
                    self.results.push((t, snap));
                    proof {
                        assert forall|i2: int|
                            0 <= i2 < self.results@.len() implies {
                            let p = #[trigger] self.results@[i2];
                            &&& (forall|k: int|
                                0 <= k < spec_deps(p.0).len() ==> assoc(
                                    self.results@,
                                    #[trigger] spec_deps(p.0)[k],
                                ) is Some)
                            &&& p.1@ == spec_target_result(p.0, self.results@, &self.sources)
                        } by {
                            if i2 < r0.len() {
                                assert(self.results@[i2] == r0[i2]);
                                let p = r0[i2];
                                assert forall|k: int|
                                    0 <= k < spec_deps(p.0).len() implies assoc(
                                    self.results@,
                                    #[trigger] spec_deps(p.0)[k],
                                ) == assoc(r0, spec_deps(p.0)[k]) && assoc(
                                    self.results@,
                                    spec_deps(p.0)[k],
                                ) is Some by {
                                    lemma_assoc_after_push(r0, t, snap, spec_deps(p.0)[k]);
                                    crate::store::lemma_find_key(r0, t);
                                }
                                lemma_target_result_stable(p.0, r0, self.results@, &srcs);
                            } else {
                                assert(self.results@[i2] == (t, snap));
                                assert(snap@ == spec_target_result(t, r0, &srcs));
                                assert forall|k: int|
                                    0 <= k < spec_deps(t).len() implies assoc(
                                    self.results@,
                                    #[trigger] spec_deps(t)[k],
                                ) == assoc(r0, spec_deps(t)[k]) && assoc(
                                    self.results@,
                                    spec_deps(t)[k],
                                ) is Some by {
                                    lemma_assoc_after_push(r0, t, snap, spec_deps(t)[k]);
                                    crate::store::lemma_find_key(r0, t);
                                }
                                lemma_target_result_stable(t, r0, self.results@, &srcs);
                            }
                        }
                        assert forall|i2: int, j2: int|
                            0 <= i2 < j2 < self.results@.len() implies (
                        #[trigger] self.results@[i2]).0 != (#[trigger] self.results@[j2]).0 by {
                            if j2 < r0.len() {
                                assert(self.results@[i2] == r0[i2]);
                                assert(self.results@[j2] == r0[j2]);
                            } else {
                                assert(self.results@[i2] == r0[i2]);
                                crate::store::lemma_find_key(r0, t);
                            }
                        }
                        assert(self.results@[r0.len() as int] == (t, snap));
                        crate::store::lemma_assoc_at(self.results@, t, r0.len() as int);
                        assert forall|i2: int|
                            0 <= i2 < self.scheduled@.len() implies target_wf(
                            #[trigger] self.scheduled@[i2],
                        ) && (assoc(self.results@, self.scheduled@[i2]) is Some
                            || self.remaining_targets@.contains(self.scheduled@[i2])) by {
                            let t3 = self.scheduled@[i2];
                            lemma_assoc_after_push(r0, t, snap, t3);
                            if assoc(r0, t3) is None && t3 != t {
                                if q0.contains(t3) {
                                    let k = choose|k: int| 0 <= k < q0.len() && q0[k] == t3;
                                    if k < q0.len() - 1 {
                                        assert(self.remaining_targets@[k] == t3);
                                    } else {
                                        assert(t3 == t);
                                    }
                                }
                            }
                        }
                        assert forall|i2: int|
                            0 <= i2 < self.results@.len() implies {
                            let p = #[trigger] self.results@[i2];
                            &&& target_wf(p.0)
                            &&& p.1.wf()
                            &&& crate::store::snapshot_names_wf(p.1@)
                        } by {
                            if i2 < r0.len() {
                                assert(self.results@[i2] == r0[i2]);
                            }
                        }
                        assert forall|i2: int|
                            0 <= i2 < self.remaining_targets@.len() implies target_wf(
                            #[trigger] self.remaining_targets@[i2],
                        ) && self.scheduled@.contains(self.remaining_targets@[i2]) by {
                            assert(self.remaining_targets@[i2] == q0[i2]);
                        }
                        lemma_results_bound(self.results@);
                    }
                    stall = 0;
                },
                TargetOutcome::Waiting(deps) => {
                    let ghost q1 = self.remaining_targets@;
                    // the suspended target goes to the far end of the
                    // queue, behind the dependencies about to be
                    // scheduled, so they surface first
                    self.remaining_targets.insert(0, t);
                    proof {
                        assert(self.remaining_targets@[0] == t);
                        assert forall|i2: int|
                            0 <= i2 < self.scheduled@.len() implies target_wf(
                            #[trigger] self.scheduled@[i2],
                        ) && (assoc(self.results@, self.scheduled@[i2]) is Some
                            || self.remaining_targets@.contains(self.scheduled@[i2])) by {
                            let t3 = self.scheduled@[i2];
                            if assoc(self.results@, t3) is None {
                                if q0.contains(t3) {
                                    let k = choose|k: int| 0 <= k < q0.len() && q0[k] == t3;
                                    if k < q0.len() - 1 {
                                        assert(self.remaining_targets@[k + 1] == t3);
                                    } else {
                                        assert(self.remaining_targets@[0] == t3);
                                    }
                                }
                            }
                        }
                        assert forall|i2: int|
                            0 <= i2 < self.remaining_targets@.len() implies target_wf(
                            #[trigger] self.remaining_targets@[i2],
                        ) && self.scheduled@.contains(self.remaining_targets@[i2]) by {
                            if i2 > 0 {
                                assert(self.remaining_targets@[i2] == q1[i2 - 1]);
                                assert(q1[i2 - 1] == q0[i2 - 1]);
                            } else {
                                assert(self.remaining_targets@[0] == t);
                                let k = choose|k: int|
                                    0 <= k < popped.scheduled@.len() && popped.scheduled@[k] == t;
                                assert(self.scheduled@[k] == t);
                            }
                        }
                    }
                    let ghost q2 = self.remaining_targets@;
                    let mut j: usize = 0;
                    while j < deps.len()
                        invariant
                            j <= deps@.len(),
                            self.wf(),
                            self.results_consistent(),
                            self.done == old(self).done,
                            self.failed == old(self).failed,
                            forall|k: int|
                                0 <= k < deps@.len() ==> target_wf(#[trigger] deps@[k]),
                            forall|t2: MappingsTarget|
                                old(self).scheduled@.contains(t2) ==> self.scheduled@.contains(t2),
                            forall|t2: MappingsTarget|
                                popped.scheduled@.contains(t2) ==> self.scheduled@.contains(t2),
                            self.results@ == popped.results@,
                            self.remaining_targets@.len() >= q2.len(),
                            forall|i2: int|
                                0 <= i2 < q2.len() ==> self.remaining_targets@[i2] == q2[i2],
                            forall|k: int| 0 <= k < j ==> self.scheduled@.contains(
                                #[trigger] deps@[k],
                            ),
                        decreases deps@.len() - j,
                    {
                        let d = deps[j];
                        let ghost qd = self.remaining_targets@;
                        self.schedule(d);
                        proof {
                            assert forall|i2: int| 0 <= i2 < q2.len() implies self.remaining_targets@[
                                i2] == q2[i2] by {
                                assert(qd[i2] == q2[i2]);
                            }
                        }
                        j = j + 1;
                    }
                    proof {
                        lemma_distinct_targets_bound(self.remaining_targets@);
                        assert forall|i2: int|
                            0 <= i2 < stall + 1 implies {
                            let t2 = #[trigger] self.remaining_targets@[i2];
                            &&& assoc(self.results@, t2) is None
                            &&& exists|d: MappingsTarget|
                                (#[trigger] spec_deps(t2).contains(d)) && assoc(
                                    self.results@,
                                    d,
                                ) is None && self.scheduled@.contains(d)
                        } by {
                            if i2 == 0 {
                                assert(self.remaining_targets@[0] == q2[0]);
                                assert(q2[0] == t);
                                let d0 = deps@[0];
                                assert(self.scheduled@.contains(d0));
                                assert((#[trigger] spec_deps(t).contains(d0)) && assoc(
                                    self.results@,
                                    d0,
                                ) is None && self.scheduled@.contains(d0));
                            } else {
                                assert(self.remaining_targets@[i2] == q2[i2]);
                                assert(q2[i2] == q1[i2 - 1]);
                                assert(q1[i2 - 1] == q0[i2 - 1]);
                                let t2 = q0[i2 - 1];
                                let d = choose|d: MappingsTarget|
                                    (#[trigger] spec_deps(t2).contains(d)) && assoc(
                                        popped.results@,
                                        d,
                                    ) is None && popped.scheduled@.contains(d);
                                assert((#[trigger] spec_deps(t2).contains(d)) && assoc(
                                    self.results@,
                                    d,
                                ) is None && self.scheduled@.contains(d));
                            }
                        }
                    }
                    stall = stall + 1;
                },
            }
        }
        self.done = true;
        if self.remaining_targets.len() != 0 {
            self.failed = true;
            proof {
                assert forall|i: int|
                    0 <= i < self.remaining_targets@.len() implies {
                    let t2 = #[trigger] self.remaining_targets@[i];
                    &&& assoc(self.results@, t2) is None
                    &&& exists|d: MappingsTarget|
                        (#[trigger] spec_deps(t2).contains(d)) && assoc(
                            self.results@,
                            d,
                        ) is None && self.remaining_targets@.contains(d)
                } by {
                    let t2 = self.remaining_targets@[i];
                    let d = choose|d: MappingsTarget|
                        (#[trigger] spec_deps(t2).contains(d)) && assoc(
                            self.results@,
                            d,
                        ) is None && self.scheduled@.contains(d);
                    let k = choose|k: int|
                        0 <= k < self.scheduled@.len() && self.scheduled@[k] == d;
                    assert(self.remaining_targets@.contains(d));
                    assert((#[trigger] spec_deps(t2).contains(d)) && assoc(
                        self.results@,
                        d,
                    ) is None && self.remaining_targets@.contains(d));
                }
            }
            return Err(MinecraftMappingError::DependencyCycle);
        }
        self.failed = false;
        proof {
            assert forall|i: int|
                0 <= i < self.scheduled@.len() implies assoc(
                self.results@,
                #[trigger] self.scheduled@[i],
            ) is Some by {
                if self.remaining_targets@.contains(self.scheduled@[i]) {
                    let k = choose|k: int|
                        0 <= k < self.remaining_targets@.len() && self.remaining_targets@[k]
                            == self.scheduled@[i];
                }
            }
        }
        Ok(())
    }
}

/// The queue's scheduled set still covers everything after a pop whose
/// target is already finished.
proof fn lemma_pop_keeps_wf(
    pre: &MappingsTargetComputer,
    post: &MappingsTargetComputer,
    q0: Seq<MappingsTarget>,
    t: MappingsTarget,
)
    requires
        sources_wf(&post.sources),
        unique_keys(post.results@),
        post.results == pre.results || true,
        q0.len() > 0,
        q0.no_duplicates(),
        post.remaining_targets@ == q0.drop_last(),
        t == q0[q0.len() - 1],
        assoc(post.results@, t) is Some,
        forall|i: int|
            0 <= i < post.scheduled@.len() ==> target_wf(#[trigger] post.scheduled@[i]) && (assoc(
                post.results@,
                post.scheduled@[i],
            ) is Some || q0.contains(post.scheduled@[i])),
        forall|i: int|
            0 <= i < q0.len() ==> target_wf(#[trigger] q0[i]) && post.scheduled@.contains(q0[i]),
        forall|i: int|
            0 <= i < post.results@.len() ==> {
                let p = #[trigger] post.results@[i];
                &&& target_wf(p.0)
                &&& p.1.wf()
                &&& crate::store::snapshot_names_wf(p.1@)
            },
    ensures
        post.wf(),
{
    assert(post.remaining_targets@.no_duplicates()) by {
        assert forall|i: int, j: int|
            0 <= i < post.remaining_targets@.len() && 0 <= j < post.remaining_targets@.len() && i
                != j implies post.remaining_targets@[i] != post.remaining_targets@[j] by {
            assert(post.remaining_targets@[i] == q0[i]);
            assert(post.remaining_targets@[j] == q0[j]);
        }
    }
    assert forall|i: int|
        0 <= i < post.scheduled@.len() implies target_wf(#[trigger] post.scheduled@[i]) && (assoc(
        post.results@,
        post.scheduled@[i],
    ) is Some || post.remaining_targets@.contains(post.scheduled@[i])) by {
        let t3 = post.scheduled@[i];
        if assoc(post.results@, t3) is None && q0.contains(t3) {
            let k = choose|k: int| 0 <= k < q0.len() && q0[k] == t3;
            if k < q0.len() - 1 {
                assert(post.remaining_targets@[k] == t3);
            } else {
                assert(t3 == t);
            }
        }
    }
    assert forall|i: int|
        0 <= i < post.remaining_targets@.len() implies target_wf(
        #[trigger] post.remaining_targets@[i],
    ) && post.scheduled@.contains(post.remaining_targets@[i]) by {
        assert(post.remaining_targets@[i] == q0[i]);
    }
}

/// What `assoc` yields after one push.
proof fn lemma_assoc_after_push(
    s: Seq<(MappingsTarget, MappingsSnapshot)>,
    t: MappingsTarget,
    v: MappingsSnapshot,
    k: MappingsTarget,
)
    ensures
        k == t ==> assoc(s.push((t, v)), k) is Some,
        k != t ==> assoc(s.push((t, v)), k) == assoc(s, k),
{
    crate::store::lemma_find_key(s, k);
    if k == t {
        match crate::store::find_key(s, k) {
            Some(i) => {
                assert(s.push((t, v))[i] == s[i]);
                assert forall|j: int| 0 <= j < i implies (#[trigger] s.push((t, v))[j]).0 != k by {
                    assert(s.push((t, v))[j] == s[j]);
                }
                crate::store::lemma_assoc_at(s.push((t, v)), k, i);
            },
            None => {
                assert(s.push((t, v))[s.len() as int] == (t, v));
                assert forall|j: int|
                    0 <= j < s.len() implies (#[trigger] s.push((t, v))[j]).0 != k by {
                    assert(s.push((t, v))[j] == s[j]);
                }
                crate::store::lemma_assoc_at(s.push((t, v)), k, s.len() as int);
            },
        }
    } else {
        match crate::store::find_key(s, k) {
            Some(i) => {
                assert(s.push((t, v))[i] == s[i]);
                assert forall|j: int| 0 <= j < i implies (#[trigger] s.push((t, v))[j]).0 != k by {
                    assert(s.push((t, v))[j] == s[j]);
                }
                crate::store::lemma_assoc_at(s.push((t, v)), k, i);
                assert(assoc(s, k) == Some(s[i].1));
            },
            None => {
                assert forall|j: int|
                    0 <= j < s.push((t, v)).len() implies (#[trigger] s.push((t, v))[j]).0 != k by {
                    if j < s.len() {
                        assert(s.push((t, v))[j] == s[j]);
                    }
                }
                crate::store::lemma_assoc_none(s.push((t, v)), k);
            },
        }
    }
}

/// The dependency list, as a vector.
fn spec_deps_exec(target: MappingsTarget) -> (r: Vec<MappingsTarget>)
    requires
        target_wf(target),
        target.modifier is None,
    ensures
        r@ == spec_deps(target),
{
    let mut v: Vec<MappingsTarget> = Vec::new();
    match (target.original, target.renamed) {
        (MappingsFormat::Srg, MappingsFormat::Mcp) => {
            v.push(MappingsTarget::new(MappingsFormat::Obf, MappingsFormat::Srg));
        },
        (MappingsFormat::Srg, MappingsFormat::Spigot) => {
            v.push(MappingsTarget::new(MappingsFormat::Srg, MappingsFormat::Obf));
            v.push(MappingsTarget::new(MappingsFormat::Obf, MappingsFormat::Spigot));
        },
        (MappingsFormat::Srg, MappingsFormat::Obf) => {
            v.push(MappingsTarget::new(MappingsFormat::Obf, MappingsFormat::Srg));
        },
        (MappingsFormat::Mcp, MappingsFormat::Srg) => {
            v.push(MappingsTarget::new(MappingsFormat::Srg, MappingsFormat::Mcp));
        },
        (MappingsFormat::Mcp, MappingsFormat::Spigot) => {
            v.push(MappingsTarget::new(MappingsFormat::Mcp, MappingsFormat::Obf));
            v.push(MappingsTarget::new(MappingsFormat::Obf, MappingsFormat::Spigot));
        },
        (MappingsFormat::Mcp, MappingsFormat::Obf) => {
            v.push(MappingsTarget::new(MappingsFormat::Obf, MappingsFormat::Mcp));
        },
        (MappingsFormat::Spigot, MappingsFormat::Srg) => {
            v.push(MappingsTarget::new(MappingsFormat::Spigot, MappingsFormat::Obf));
            v.push(MappingsTarget::new(MappingsFormat::Obf, MappingsFormat::Srg));
        },
        (MappingsFormat::Spigot, MappingsFormat::Mcp) => {
            v.push(MappingsTarget::new(MappingsFormat::Spigot, MappingsFormat::Obf));
            v.push(MappingsTarget::new(MappingsFormat::Obf, MappingsFormat::Mcp));
        },
        (MappingsFormat::Spigot, MappingsFormat::Obf) => {
            v.push(MappingsTarget::new(MappingsFormat::Obf, MappingsFormat::Spigot));
        },
        (MappingsFormat::Obf, MappingsFormat::Mcp) => {
            v.push(MappingsTarget::new(MappingsFormat::Obf, MappingsFormat::Srg));
            v.push(MappingsTarget::new(MappingsFormat::Srg, MappingsFormat::Mcp));
        },
        _ => {},
    }
    proof {
        assert(v@ =~= spec_deps(target));
    }
    v
}

/// Whether an entry's original class name is still obfuscated: the
/// original-to-obf set either does not know it, or maps it to itself.
pub open spec fn onlyobf_keep_class(oo: crate::store::SnapshotV, p: (Seq<char>, Seq<char>)) -> bool {
    match crate::store::assoc(oo.classes, p.0) {
        Some(obf) => p.0 == obf,
        None => true,
    }
}

pub open spec fn onlyobf_keep_field(
    oo: crate::store::SnapshotV,
    p: (crate::names::FieldDataV, crate::names::FieldDataV),
) -> bool {
    match crate::store::assoc(oo.fields, p.0) {
        Some(obf) => p.0.name == obf.name,
        None => true,
    }
}

pub open spec fn onlyobf_keep_method(
    oo: crate::store::SnapshotV,
    p: (crate::descriptor::MethodDataV, crate::descriptor::MethodDataV),
) -> bool {
    match crate::store::assoc(oo.methods, p.0) {
        Some(obf) => p.0.name == obf.name,
        None => true,
    }
}

pub open spec fn onlyobf_class_items(
    cs: Seq<(Seq<char>, Seq<char>)>,
    oo: crate::store::SnapshotV,
) -> Seq<(Seq<char>, Seq<char>)>
    decreases cs.len(),
{
    if cs.len() == 0 {
        Seq::empty()
    } else {
        (if onlyobf_keep_class(oo, cs[0]) {
            seq![cs[0]]
        } else {
            Seq::empty()
        }) + onlyobf_class_items(cs.drop_first(), oo)
    }
}

pub open spec fn onlyobf_field_items(
    fs: Seq<(crate::names::FieldDataV, crate::names::FieldDataV)>,
    oo: crate::store::SnapshotV,
) -> Seq<(crate::names::FieldDataV, Seq<char>)>
    decreases fs.len(),
{
    if fs.len() == 0 {
        Seq::empty()
    } else {
        (if onlyobf_keep_field(oo, fs[0]) {
            seq![(fs[0].0, fs[0].1.name)]
        } else {
            Seq::empty()
        }) + onlyobf_field_items(fs.drop_first(), oo)
    }
}

pub open spec fn onlyobf_method_items(
    ms: Seq<(crate::descriptor::MethodDataV, crate::descriptor::MethodDataV)>,
    oo: crate::store::SnapshotV,
) -> Seq<(crate::descriptor::MethodDataV, Seq<char>)>
    decreases ms.len(),
{
    if ms.len() == 0 {
        Seq::empty()
    } else {
        (if onlyobf_keep_method(oo, ms[0]) {
            seq![(ms[0].0, ms[0].1.name)]
        } else {
            Seq::empty()
        }) + onlyobf_method_items(ms.drop_first(), oo)
    }
}

/// The store the restriction yields: exactly the still-obfuscated
/// entries, in order.
pub open spec fn onlyobf_store(u: crate::store::SnapshotV, oo: crate::store::SnapshotV) -> crate::store::StoreV {
    crate::store::StoreV {
        classes: crate::store::insert_all(Seq::empty(), onlyobf_class_items(u.classes, oo)),
        fields: crate::store::insert_all(Seq::empty(), onlyobf_field_items(u.fields, oo)),
        methods: crate::store::insert_all(Seq::empty(), onlyobf_method_items(u.methods, oo)),
    }
}

pub proof fn lemma_onlyobf_class_items_snoc(
    cs: Seq<(Seq<char>, Seq<char>)>,
    x: (Seq<char>, Seq<char>),
    oo: crate::store::SnapshotV,
)
    ensures
        onlyobf_class_items(cs.push(x), oo) == onlyobf_class_items(cs, oo) + (if onlyobf_keep_class(
            oo,
            x,
        ) {
            seq![x]
        } else {
            Seq::empty()
        }),
    decreases cs.len(),
{
    let tail = (if onlyobf_keep_class(oo, x) {
        seq![x]
    } else {
        Seq::<(Seq<char>, Seq<char>)>::empty()
    });
    if cs.len() == 0 {
        assert(cs.push(x)[0] == x);
        assert(cs.push(x).drop_first() =~= Seq::<(Seq<char>, Seq<char>)>::empty());
        let head2 = (if onlyobf_keep_class(oo, cs.push(x)[0]) {
            seq![cs.push(x)[0]]
        } else {
            Seq::<(Seq<char>, Seq<char>)>::empty()
        });
        assert(onlyobf_class_items(cs.push(x), oo) == head2 + onlyobf_class_items(
            cs.push(x).drop_first(),
            oo,
        ));
        assert(head2 == tail);
        assert(onlyobf_class_items(cs.push(x).drop_first(), oo) =~= Seq::<(
            Seq<char>,
            Seq<char>,
        )>::empty());
        assert(head2 + onlyobf_class_items(cs.push(x).drop_first(), oo) =~= tail);
        assert(onlyobf_class_items(cs, oo) + tail =~= tail);
    } else {
        assert(cs.push(x)[0] == cs[0]);
        assert(cs.push(x).drop_first() =~= cs.drop_first().push(x));
        lemma_onlyobf_class_items_snoc(cs.drop_first(), x, oo);
        let head = (if onlyobf_keep_class(oo, cs[0]) {
            seq![cs[0]]
        } else {
            Seq::<(Seq<char>, Seq<char>)>::empty()
        });
        assert(onlyobf_class_items(cs.push(x), oo) == head + onlyobf_class_items(
            cs.drop_first().push(x),
            oo,
        ));
        assert(onlyobf_class_items(cs, oo) == head + onlyobf_class_items(cs.drop_first(), oo));
        assert((head + onlyobf_class_items(cs.drop_first(), oo)) + tail =~= head + (
        onlyobf_class_items(cs.drop_first(), oo) + tail));
    }
}

pub proof fn lemma_onlyobf_field_items_snoc(
    fs: Seq<(crate::names::FieldDataV, crate::names::FieldDataV)>,
    x: (crate::names::FieldDataV, crate::names::FieldDataV),
    oo: crate::store::SnapshotV,
)
    ensures
        onlyobf_field_items(fs.push(x), oo) == onlyobf_field_items(fs, oo) + (if onlyobf_keep_field(
            oo,
            x,
        ) {
            seq![(x.0, x.1.name)]
        } else {
            Seq::empty()
        }),
    decreases fs.len(),
{
    let tail = (if onlyobf_keep_field(oo, x) {
        seq![(x.0, x.1.name)]
    } else {
        Seq::<(crate::names::FieldDataV, Seq<char>)>::empty()
    });
    if fs.len() == 0 {
        assert(fs.push(x)[0] == x);
        assert(fs.push(x).drop_first() =~= Seq::<(
            crate::names::FieldDataV,
            crate::names::FieldDataV,
        )>::empty());
        let head2 = (if onlyobf_keep_field(oo, fs.push(x)[0]) {
            seq![(fs.push(x)[0].0, fs.push(x)[0].1.name)]
        } else {
            Seq::<(crate::names::FieldDataV, Seq<char>)>::empty()
        });
        assert(onlyobf_field_items(fs.push(x), oo) == head2 + onlyobf_field_items(
            fs.push(x).drop_first(),
            oo,
        ));
        assert(head2 == tail);
        assert(onlyobf_field_items(fs.push(x).drop_first(), oo) =~= Seq::<(
            crate::names::FieldDataV,
            Seq<char>,
        )>::empty());
        assert(head2 + onlyobf_field_items(fs.push(x).drop_first(), oo) =~= tail);
        assert(onlyobf_field_items(fs, oo) + tail =~= tail);
    } else {
        assert(fs.push(x)[0] == fs[0]);
        assert(fs.push(x).drop_first() =~= fs.drop_first().push(x));
        lemma_onlyobf_field_items_snoc(fs.drop_first(), x, oo);
        let head = (if onlyobf_keep_field(oo, fs[0]) {
            seq![(fs[0].0, fs[0].1.name)]
        } else {
            Seq::<(crate::names::FieldDataV, Seq<char>)>::empty()
        });
        assert(onlyobf_field_items(fs.push(x), oo) == head + onlyobf_field_items(
            fs.drop_first().push(x),
            oo,
        ));
        assert(onlyobf_field_items(fs, oo) == head + onlyobf_field_items(fs.drop_first(), oo));
        assert((head + onlyobf_field_items(fs.drop_first(), oo)) + tail =~= head + (
        onlyobf_field_items(fs.drop_first(), oo) + tail));
    }
}

pub proof fn lemma_onlyobf_method_items_snoc(
    ms: Seq<(crate::descriptor::MethodDataV, crate::descriptor::MethodDataV)>,
    x: (crate::descriptor::MethodDataV, crate::descriptor::MethodDataV),
    oo: crate::store::SnapshotV,
)
    ensures
        onlyobf_method_items(ms.push(x), oo) == onlyobf_method_items(ms, oo) + (
        if onlyobf_keep_method(oo, x) {
            seq![(x.0, x.1.name)]
        } else {
            Seq::empty()
        }),
    decreases ms.len(),
{
    let tail = (if onlyobf_keep_method(oo, x) {
        seq![(x.0, x.1.name)]
    } else {
        Seq::<(crate::descriptor::MethodDataV, Seq<char>)>::empty()
    });
    if ms.len() == 0 {
        assert(ms.push(x)[0] == x);
        assert(ms.push(x).drop_first() =~= Seq::<(
            crate::descriptor::MethodDataV,
            crate::descriptor::MethodDataV,
        )>::empty());
        let head2 = (if onlyobf_keep_method(oo, ms.push(x)[0]) {
            seq![(ms.push(x)[0].0, ms.push(x)[0].1.name)]
        } else {
            Seq::<(crate::descriptor::MethodDataV, Seq<char>)>::empty()
        });
        assert(onlyobf_method_items(ms.push(x), oo) == head2 + onlyobf_method_items(
            ms.push(x).drop_first(),
            oo,
        ));
        assert(head2 == tail);
        assert(onlyobf_method_items(ms.push(x).drop_first(), oo) =~= Seq::<(
            crate::descriptor::MethodDataV,
            Seq<char>,
        )>::empty());
        assert(head2 + onlyobf_method_items(ms.push(x).drop_first(), oo) =~= tail);
        assert(onlyobf_method_items(ms, oo) + tail =~= tail);
    } else {
        assert(ms.push(x)[0] == ms[0]);
        assert(ms.push(x).drop_first() =~= ms.drop_first().push(x));
        lemma_onlyobf_method_items_snoc(ms.drop_first(), x, oo);
        let head = (if onlyobf_keep_method(oo, ms[0]) {
            seq![(ms[0].0, ms[0].1.name)]
        } else {
            Seq::<(crate::descriptor::MethodDataV, Seq<char>)>::empty()
        });
        assert(onlyobf_method_items(ms.push(x), oo) == head + onlyobf_method_items(
            ms.drop_first().push(x),
            oo,
        ));
        assert(onlyobf_method_items(ms, oo) == head + onlyobf_method_items(ms.drop_first(), oo));
        assert((head + onlyobf_method_items(ms.drop_first(), oo)) + tail =~= head + (
        onlyobf_method_items(ms.drop_first(), oo) + tail));
    }
}

/// The unmodified store restricted to entries whose original name is
/// still obfuscated: entries the `original2obf` set would rename are
/// left out.
fn restrict_onlyobf(u: &MappingsSnapshot, oo: &MappingsSnapshot) -> (r: MappingsSnapshot)
    requires
        u.wf(),
        crate::store::snapshot_names_wf(u@),
        oo.wf(),
        crate::store::snapshot_names_wf(oo@),
    ensures
        r.wf(),
        crate::store::snapshot_names_wf(r@),
        r@ == crate::store::snapshot_of(onlyobf_store(u@, oo@)),
{
    let ghost oov = oo@;
    let mut builder = MappingsBuilder::new();
    let mut i: usize = 0;
    proof {
        assert(u@.classes.take(0) =~= Seq::<(Seq<char>, Seq<char>)>::empty());
    }
    while i < u.classes.len()
        invariant
            i <= u.classes@.len(),
            builder.wf(),
            u.wf(),
            oo.wf(),
            oov == oo@,
            crate::store::snapshot_names_wf(u@),
            builder@.fields.len() == 0,
            builder@.methods.len() == 0,
            builder@.classes == crate::store::insert_all(
                Seq::empty(),
                onlyobf_class_items(u@.classes.take(i as int), oov),
            ),
        decreases u.classes@.len() - i,
    {
        proof {
            assert(wf_class_chars(u@.classes[i as int].0));
            assert(wf_class_chars(u@.classes[i as int].1));
            assert(u@.classes.take(i + 1) =~= u@.classes.take(i as int).push(
                u@.classes[i as int],
            ));
            lemma_onlyobf_class_items_snoc(u@.classes.take(i as int), u@.classes[i as int], oov);
        }
        let keep = match oo.try_get_class(&u.classes[i].0) {
            Some(obf) => u.classes[i].0 == obf,
            None => true,
        };
        if keep {
            proof {
                assert(onlyobf_class_items(u@.classes.take(i + 1), oov) =~= onlyobf_class_items(
                    u@.classes.take(i as int),
                    oov,
                ).push(u@.classes[i as int]));
                crate::store::lemma_insert_all_snoc(
                    Seq::<(Seq<char>, Seq<char>)>::empty(),
                    onlyobf_class_items(u@.classes.take(i as int), oov),
                    u@.classes[i as int],
                );
            }
            let res = builder.insert_class(u.classes[i].0.clone(), u.classes[i].1.clone());
            proof {
                assert(res is Ok);
            }
        } else {
            proof {
                assert(onlyobf_class_items(u@.classes.take(i + 1), oov) =~= onlyobf_class_items(
                    u@.classes.take(i as int),
                    oov,
                ));
            }
        }
        i = i + 1;
    }
    proof {
        assert(u@.classes.take(u.classes@.len() as int) =~= u@.classes);
    }
    let mut i: usize = 0;
    proof {
        assert(u@.fields.take(0) =~= Seq::<(
            crate::names::FieldDataV,
            crate::names::FieldDataV,
        )>::empty());
    }
    while i < u.fields.len()
        invariant
            i <= u.fields@.len(),
            builder.wf(),
            u.wf(),
            oo.wf(),
            oov == oo@,
            crate::store::snapshot_names_wf(u@),
            builder@.classes == crate::store::insert_all(
                Seq::empty(),
                onlyobf_class_items(u@.classes, oov),
            ),
            builder@.methods.len() == 0,
            builder@.fields == crate::store::insert_all(
                Seq::empty(),
                onlyobf_field_items(u@.fields.take(i as int), oov),
            ),
        decreases u.fields@.len() - i,
    {
        proof {
            assert(crate::names::wf_field_v(u@.fields[i as int].0));
            assert(crate::names::wf_field_v(u@.fields[i as int].1));
            assert(u@.fields.take(i + 1) =~= u@.fields.take(i as int).push(u@.fields[i as int]));
            lemma_onlyobf_field_items_snoc(u@.fields.take(i as int), u@.fields[i as int], oov);
        }
        let keep = match oo.try_get_field(&u.fields[i].0) {
            Some(obf) => u.fields[i].0.name == obf.name,
            None => true,
        };
        if keep {
            proof {
                assert(onlyobf_field_items(u@.fields.take(i + 1), oov) =~= onlyobf_field_items(
                    u@.fields.take(i as int),
                    oov,
                ).push((u@.fields[i as int].0, u@.fields[i as int].1.name)));
                crate::store::lemma_insert_all_snoc(
                    Seq::<(crate::names::FieldDataV, Seq<char>)>::empty(),
                    onlyobf_field_items(u@.fields.take(i as int), oov),
                    (u@.fields[i as int].0, u@.fields[i as int].1.name),
                );
            }
            let res = builder.insert_field(u.fields[i].0.clone(), u.fields[i].1.name.clone());
            proof {
                assert(res is Ok);
            }
        } else {
            proof {
                assert(onlyobf_field_items(u@.fields.take(i + 1), oov) =~= onlyobf_field_items(
                    u@.fields.take(i as int),
                    oov,
                ));
            }
        }
        i = i + 1;
    }
    proof {
        assert(u@.fields.take(u.fields@.len() as int) =~= u@.fields);
    }
    let mut i: usize = 0;
    proof {
        assert(u@.methods.take(0) =~= Seq::<(
            crate::descriptor::MethodDataV,
            crate::descriptor::MethodDataV,
        )>::empty());
    }
    while i < u.methods.len()
        invariant
            i <= u.methods@.len(),
            builder.wf(),
            u.wf(),
            oo.wf(),
            oov == oo@,
            crate::store::snapshot_names_wf(u@),
            crate::store::snapshot_names_wf(oo@),
            builder@.classes == crate::store::insert_all(
                Seq::empty(),
                onlyobf_class_items(u@.classes, oov),
            ),
            builder@.fields == crate::store::insert_all(
                Seq::empty(),
                onlyobf_field_items(u@.fields, oov),
            ),
            builder@.methods == crate::store::insert_all(
                Seq::empty(),
                onlyobf_method_items(u@.methods.take(i as int), oov),
            ),
        decreases u.methods@.len() - i,
    {
        proof {
            assert(crate::descriptor::wf_method_v(u@.methods[i as int].0));
            assert(crate::descriptor::wf_method_v(u@.methods[i as int].1));
            assert(u@.methods.take(i + 1) =~= u@.methods.take(i as int).push(
                u@.methods[i as int],
            ));
            lemma_onlyobf_method_items_snoc(u@.methods.take(i as int), u@.methods[i as int], oov);
        }
        let keep = match oo.try_get_method(&u.methods[i].0) {
            Some(obf) => u.methods[i].0.name == obf.name,
            None => true,
        };
        if keep {
            proof {
                assert(onlyobf_method_items(u@.methods.take(i + 1), oov) =~= onlyobf_method_items(
                    u@.methods.take(i as int),
                    oov,
                ).push((u@.methods[i as int].0, u@.methods[i as int].1.name)));
                crate::store::lemma_insert_all_snoc(
                    Seq::<(crate::descriptor::MethodDataV, Seq<char>)>::empty(),
                    onlyobf_method_items(u@.methods.take(i as int), oov),
                    (u@.methods[i as int].0, u@.methods[i as int].1.name),
                );
            }
            let res = builder.insert_method(u.methods[i].0.clone(), u.methods[i].1.name.clone());
            proof {
                assert(res is Ok);
            }
        } else {
            proof {
                assert(onlyobf_method_items(u@.methods.take(i + 1), oov) =~= onlyobf_method_items(
                    u@.methods.take(i as int),
                    oov,
                ));
            }
        }
        i = i + 1;
    }
    proof {
        assert(u@.methods.take(u.methods@.len() as int) =~= u@.methods);
        assert(builder@ =~= onlyobf_store(u@, oov));
    }
    builder.snapshot()
}

} // verus!
