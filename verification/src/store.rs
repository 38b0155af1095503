//! The mapping store: ordered renaming tables for classes, fields and
//! methods, with implicit remapping of classes and of the class
//! references inside method descriptors.
//!
//! Each table is a vector of pairs with pairwise distinct keys, standing
//! in for an insertion-ordered map: iteration order is insertion order,
//! and overwriting a key keeps its position.  Lookups scan the vector;
//! the contracts speak of [`assoc`], the first match.

use vstd::prelude::*;

use crate::names::{wf_class_chars, wf_member_chars, wf_field_v, JavaClass, FieldData, FieldDataV,
    NameParseError};
use crate::descriptor::{valid_sig, spec_parse_sig, sig_chars, type_wf, type_chars, elem_wf,
    elem_chars, JavaType, JavaTypeV, ElementType, ElementTypeV, MethodData, MethodDataV,
    MethodSignature, MethodDescriptorParseError, ParsedMethodSignature, ParsedSigV, wf_method_v,
    lemma_parse_sig_wf, lemma_parse_sig_print, lemma_print_parse_sig};

verus! {

// ---------------------------------------------------------------------
// Association sequences
// ---------------------------------------------------------------------
/// The value bound to the first occurrence of `k`, if any.
pub open spec fn assoc<K, V>(s: Seq<(K, V)>, k: K) -> Option<V>
    decreases s.len(),
{
    if s.len() == 0 {
        None
    } else if s[0].0 == k {
        Some(s[0].1)
    } else {
        assoc(s.drop_first(), k)
    }
}

/// The index of the first occurrence of `k`, if any.
pub open spec fn find_key<K, V>(s: Seq<(K, V)>, k: K) -> Option<int>
    decreases s.len(),
{
    if s.len() == 0 {
        None
    } else if s[0].0 == k {
        Some(0)
    } else {
        match find_key(s.drop_first(), k) {
            Some(i) => Some(i + 1),
            None => None,
        }
    }
}

/// Pairwise distinct keys.
pub open spec fn unique_keys<K, V>(s: Seq<(K, V)>) -> bool {
    forall|i: int, j: int| 0 <= i < j < s.len() ==> s[i].0 != s[j].0
}

/// Ordered insert-or-overwrite: an existing key keeps its position, a
/// new key goes to the end.
pub open spec fn insert_assoc<K, V>(s: Seq<(K, V)>, k: K, v: V) -> Seq<(K, V)> {
    match find_key(s, k) {
        Some(i) => s.update(i, (k, v)),
        None => s.push((k, v)),
    }
}

/// Left fold of [`insert_assoc`] over a list of pairs.
pub open spec fn insert_all<K, V>(acc: Seq<(K, V)>, items: Seq<(K, V)>) -> Seq<(K, V)>
    decreases items.len(),
{
    if items.len() == 0 {
        acc
    } else {
        insert_all(insert_assoc(acc, items[0].0, items[0].1), items.drop_first())
    }
}

pub proof fn lemma_find_key<K, V>(s: Seq<(K, V)>, k: K)
    ensures
        match find_key(s, k) {
            Some(i) => 0 <= i < s.len() && s[i].0 == k && (forall|j: int|
                0 <= j < i ==> s[j].0 != k),
            None => forall|j: int| 0 <= j < s.len() ==> s[j].0 != k,
        },
        find_key(s, k) is Some <==> assoc(s, k) is Some,
        find_key(s, k) matches Some(i) ==> assoc(s, k) == Some(s[i].1),
    decreases s.len(),
{
    if s.len() > 0 && s[0].0 != k {
        lemma_find_key(s.drop_first(), k);
        match find_key(s.drop_first(), k) {
            Some(i0) => {
                assert(s[i0 + 1] == s.drop_first()[i0]);
                assert forall|j: int| 0 <= j < i0 + 1 implies s[j].0 != k by {
                    if j > 0 {
                        assert(s[j] == s.drop_first()[j - 1]);
                    }
                }
            },
            None => {
                assert forall|j: int| 0 <= j < s.len() implies s[j].0 != k by {
                    if j > 0 {
                        assert(s[j] == s.drop_first()[j - 1]);
                    }
                }
            },
        }
    }
}

/// The first match determines `assoc`.
pub proof fn lemma_assoc_at<K, V>(s: Seq<(K, V)>, k: K, i: int)
    requires
        0 <= i < s.len(),
        s[i].0 == k,
        forall|j: int| 0 <= j < i ==> s[j].0 != k,
    ensures
        assoc(s, k) == Some(s[i].1),
        find_key(s, k) == Some(i),
    decreases i,
{
    if i == 0 {
    } else {
        assert(s.drop_first()[i - 1] == s[i]);
        assert forall|j: int| 0 <= j < i - 1 implies s.drop_first()[j].0 != k by {
            assert(s.drop_first()[j] == s[j + 1]);
        }
        lemma_assoc_at(s.drop_first(), k, i - 1);
    }
}

/// No match anywhere means `assoc` is `None`.
pub proof fn lemma_assoc_none<K, V>(s: Seq<(K, V)>, k: K)
    requires
        forall|j: int| 0 <= j < s.len() ==> s[j].0 != k,
    ensures
        assoc(s, k) is None,
        find_key(s, k) is None,
    decreases s.len(),
{
    if s.len() > 0 {
        assert forall|j: int| 0 <= j < s.len() - 1 implies s.drop_first()[j].0 != k by {
            assert(s.drop_first()[j] == s[j + 1]);
        }
        lemma_assoc_none(s.drop_first(), k);
    }
}

/// What `insert_assoc` does to lookups, uniqueness and membership.
pub proof fn lemma_insert_assoc<K, V>(s: Seq<(K, V)>, k: K, v: V)
    ensures
        assoc(insert_assoc(s, k, v), k) == Some(v),
        forall|k2: K| k2 != k ==> #[trigger] assoc(insert_assoc(s, k, v), k2) == assoc(s, k2),
        unique_keys(s) ==> unique_keys(insert_assoc(s, k, v)),
        forall|i: int|
            0 <= i < insert_assoc(s, k, v).len() ==> (#[trigger] insert_assoc(s, k, v)[i] == (k, v)
                || (0 <= i < s.len() && insert_assoc(s, k, v)[i] == s[i])),
        s.len() <= insert_assoc(s, k, v).len() <= s.len() + 1,
{
    lemma_find_key(s, k);
    let t = insert_assoc(s, k, v);
    match find_key(s, k) {
        Some(i) => {
            assert(t[i] == (k, v));
            lemma_assoc_at(t, k, i);
            assert forall|k2: K| k2 != k implies #[trigger] assoc(t, k2) == assoc(s, k2) by {
                lemma_assoc_other(s, t, k2);
            }
        },
        None => {
            assert(t[s.len() as int] == (k, v));
            lemma_assoc_at(t, k, s.len() as int);
            assert forall|k2: K| k2 != k implies #[trigger] assoc(t, k2) == assoc(s, k2) by {
                lemma_assoc_other(s, t, k2);
            }
        },
    }
}

/// Two tables agreeing at every index of the shorter, the longer only
/// adding pairs with other keys, agree on `assoc` at `k2` when the keys
/// where they differ are not `k2`.
proof fn lemma_assoc_other<K, V>(s: Seq<(K, V)>, t: Seq<(K, V)>, k2: K)
    requires
        s.len() <= t.len() <= s.len() + 1,
        forall|i: int| 0 <= i < s.len() ==> (#[trigger] t[i] == s[i] || (t[i].0 == s[i].0 && s[
            i
        ].0 != k2 && t[i].0 != k2)),
        t.len() > s.len() ==> t[s.len() as int].0 != k2,
    ensures
        assoc(t, k2) == assoc(s, k2),
    decreases s.len(),
{
    if s.len() == 0 {
        if t.len() > 0 {
            assert(t[0].0 != k2);
            lemma_assoc_none(t, k2);
        }
    } else {
        assert(t[0] == s[0] || (t[0].0 == s[0].0 && s[0].0 != k2 && t[0].0 != k2));
        assert forall|i: int|
            0 <= i < s.drop_first().len() implies (#[trigger] t.drop_first()[i]
            == s.drop_first()[i] || (t.drop_first()[i].0 == s.drop_first()[i].0
            && s.drop_first()[i].0 != k2 && t.drop_first()[i].0 != k2)) by {
            assert(t.drop_first()[i] == t[i + 1]);
            assert(s.drop_first()[i] == s[i + 1]);
        }
        if t.len() > s.len() {
            assert(t.drop_first()[s.len() - 1] == t[s.len() as int]);
        }
        lemma_assoc_other(s.drop_first(), t.drop_first(), k2);
    }
}

/// Folding a unique-keyed list of pairs into the empty table yields the
/// list itself.
pub proof fn lemma_insert_all_unique<K, V>(acc: Seq<(K, V)>, items: Seq<(K, V)>)
    requires
        unique_keys(acc + items),
    ensures
        insert_all(acc, items) == acc + items,
    decreases items.len(),
{
    if items.len() == 0 {
        assert(acc + items =~= acc);
    } else {
        let k = items[0].0;
        let v = items[0].1;
        assert forall|j: int| 0 <= j < acc.len() implies acc[j].0 != k by {
            assert((acc + items)[j] == acc[j]);
            assert((acc + items)[acc.len() as int] == items[0]);
        }
        lemma_assoc_none(acc, k);
        assert(insert_assoc(acc, k, v) == acc.push((k, v)));
        assert(acc.push((k, v)) + items.drop_first() =~= acc + items);
        lemma_insert_all_unique(acc.push((k, v)), items.drop_first());
    }
}

// ---------------------------------------------------------------------
// Store views and well-formedness
// ---------------------------------------------------------------------
/// Ghost image of a mapping store: the three renaming tables.
#[verifier::ext_equal]
pub struct StoreV {
    pub classes: Seq<(Seq<char>, Seq<char>)>,
    pub fields: Seq<(FieldDataV, Seq<char>)>,
    pub methods: Seq<(MethodDataV, Seq<char>)>,
}

/// Well-formed store: unique keys, well-formed names on both sides,
/// valid method descriptors.
pub open spec fn wf_store(s: StoreV) -> bool {
    &&& unique_keys(s.classes)
    &&& unique_keys(s.fields)
    &&& unique_keys(s.methods)
    &&& (forall|i: int|
        0 <= i < s.classes.len() ==> wf_class_chars(#[trigger] s.classes[i].0) && wf_class_chars(
            s.classes[i].1,
        ))
    &&& (forall|i: int|
        0 <= i < s.fields.len() ==> wf_field_v(#[trigger] s.fields[i].0) && wf_member_chars(
            s.fields[i].1,
        ))
    &&& (forall|i: int|
        0 <= i < s.methods.len() ==> wf_method_v(#[trigger] s.methods[i].0) && wf_member_chars(
            s.methods[i].1,
        ))
}

// ---------------------------------------------------------------------
// Remapping through the class table
// ---------------------------------------------------------------------
/// The renamed class, or the class itself when it is not in the table.
pub open spec fn remap_class_v(classes: Seq<(Seq<char>, Seq<char>)>, c: Seq<char>) -> Seq<char> {
    match assoc(classes, c) {
        Some(n) => n,
        None => c,
    }
}

pub open spec fn remap_elem_v(classes: Seq<(Seq<char>, Seq<char>)>, e: ElementTypeV) -> ElementTypeV {
    match e {
        ElementTypeV::Primitive(p) => ElementTypeV::Primitive(p),
        ElementTypeV::Class(c) => ElementTypeV::Class(remap_class_v(classes, c)),
    }
}

pub open spec fn remap_type_v(classes: Seq<(Seq<char>, Seq<char>)>, t: JavaTypeV) -> JavaTypeV {
    match t {
        JavaTypeV::Primitive(p) => JavaTypeV::Primitive(p),
        JavaTypeV::Array { dimensions, element } => JavaTypeV::Array {
            dimensions,
            element: remap_elem_v(classes, element),
        },
        JavaTypeV::Class(c) => JavaTypeV::Class(remap_class_v(classes, c)),
    }
}

pub open spec fn remap_sig_v(classes: Seq<(Seq<char>, Seq<char>)>, ps: ParsedSigV) -> ParsedSigV {
    ParsedSigV {
        parameter_types: ps.parameter_types.map_values(|t: JavaTypeV| remap_type_v(classes, t)),
        return_type: remap_type_v(classes, ps.return_type),
    }
}

/// The descriptor with every class reference substituted through the
/// class table; a string that is not a valid descriptor is unchanged.
pub open spec fn remap_descriptor_v(classes: Seq<(Seq<char>, Seq<char>)>, d: Seq<char>) -> Seq<
    char,
> {
    match spec_parse_sig(d) {
        Some(ps) => sig_chars(remap_sig_v(classes, ps)),
        None => d,
    }
}

/// All renamed sides of a class table are well-formed names.
pub open spec fn wf_class_values(classes: Seq<(Seq<char>, Seq<char>)>) -> bool {
    forall|i: int| 0 <= i < classes.len() ==> wf_class_chars(#[trigger] classes[i].1)
}

pub proof fn lemma_remap_class_wf(classes: Seq<(Seq<char>, Seq<char>)>, c: Seq<char>)
    requires
        wf_class_values(classes),
        wf_class_chars(c),
    ensures
        wf_class_chars(remap_class_v(classes, c)),
    decreases classes.len(),
{
    if classes.len() > 0 && classes[0].0 != c {
        assert forall|i: int|
            0 <= i < classes.drop_first().len() implies wf_class_chars(
            #[trigger] classes.drop_first()[i].1,
        ) by {
            assert(classes.drop_first()[i] == classes[i + 1]);
        }
        lemma_remap_class_wf(classes.drop_first(), c);
    }
}

pub proof fn lemma_remap_type_wf(classes: Seq<(Seq<char>, Seq<char>)>, t: JavaTypeV)
    requires
        wf_class_values(classes),
        type_wf(t),
    ensures
        type_wf(remap_type_v(classes, t)),
{
    match t {
        JavaTypeV::Primitive(_) => {},
        JavaTypeV::Array { dimensions, element } => {
            match element {
                ElementTypeV::Primitive(_) => {},
                ElementTypeV::Class(c) => {
                    lemma_remap_class_wf(classes, c);
                },
            }
        },
        JavaTypeV::Class(c) => {
            lemma_remap_class_wf(classes, c);
        },
    }
}

/// Remapping a valid descriptor through a table with well-formed values
/// yields a valid descriptor whose parse is the remapped parse.
pub proof fn lemma_remap_descriptor_valid(classes: Seq<(Seq<char>, Seq<char>)>, d: Seq<char>)
    requires
        wf_class_values(classes),
        valid_sig(d),
    ensures
        valid_sig(remap_descriptor_v(classes, d)),
        spec_parse_sig(remap_descriptor_v(classes, d)) == Some(
            remap_sig_v(classes, spec_parse_sig(d)->Some_0),
        ),
{
    lemma_parse_sig_wf(d);
    let ps = spec_parse_sig(d)->Some_0;
    let rps = remap_sig_v(classes, ps);
    assert forall|i: int| 0 <= i < rps.parameter_types.len() implies type_wf(
        #[trigger] rps.parameter_types[i],
    ) by {
        assert(rps.parameter_types[i] == remap_type_v(classes, ps.parameter_types[i]));
        lemma_remap_type_wf(classes, ps.parameter_types[i]);
    }
    lemma_remap_type_wf(classes, ps.return_type);
    lemma_parse_sig_print(rps);
}

/// Inserting a well-formed class pair preserves store well-formedness.
pub proof fn lemma_wf_store_insert_class(b: StoreV, k: Seq<char>, v: Seq<char>, c: StoreV)
    requires
        wf_store(b),
        wf_class_chars(k),
        wf_class_chars(v),
        c.classes == insert_assoc(b.classes, k, v),
        c.fields == b.fields,
        c.methods == b.methods,
    ensures
        wf_store(c),
{
    lemma_insert_assoc(b.classes, k, v);
    let ins = insert_assoc(b.classes, k, v);
    assert forall|i: int| 0 <= i < c.classes.len() implies wf_class_chars(
        #[trigger] c.classes[i].0,
    ) && wf_class_chars(c.classes[i].1) by {
        assert(c.classes[i] == ins[i]);
        assert(ins[i] == (k, v) || (0 <= i < b.classes.len() && ins[i] == b.classes[i]));
    }
    assert forall|i: int, j: int|
        0 <= i < j < c.classes.len() implies (#[trigger] c.classes[i]).0 != (
    #[trigger] c.classes[j]).0 by {
        assert(c.classes[i] == ins[i]);
        assert(c.classes[j] == ins[j]);
        assert(unique_keys(ins));
        assert(ins[i].0 != ins[j].0);
    }
    assert forall|i: int| 0 <= i < c.fields.len() implies wf_field_v(#[trigger] c.fields[i].0)
        && wf_member_chars(c.fields[i].1) by {
        assert(c.fields[i] == b.fields[i]);
        assert(wf_field_v(b.fields[i].0));
    }
    assert forall|i: int, j: int|
        0 <= i < j < c.fields.len() implies (#[trigger] c.fields[i]).0 != (
    #[trigger] c.fields[j]).0 by {
        assert(c.fields[i] == b.fields[i]);
        assert(c.fields[j] == b.fields[j]);
        assert(b.fields[i].0 != b.fields[j].0);
    }
    assert forall|i: int| 0 <= i < c.methods.len() implies wf_method_v(#[trigger] c.methods[i].0)
        && wf_member_chars(c.methods[i].1) by {
        assert(c.methods[i] == b.methods[i]);
        assert(wf_method_v(b.methods[i].0));
    }
    assert forall|i: int, j: int|
        0 <= i < j < c.methods.len() implies (#[trigger] c.methods[i]).0 != (
    #[trigger] c.methods[j]).0 by {
        assert(c.methods[i] == b.methods[i]);
        assert(c.methods[j] == b.methods[j]);
        assert(b.methods[i].0 != b.methods[j].0);
    }
}

/// Inserting a well-formed field renaming preserves store
/// well-formedness.
pub proof fn lemma_wf_store_insert_field(b: StoreV, k: FieldDataV, v: Seq<char>, c: StoreV)
    requires
        wf_store(b),
        wf_field_v(k),
        wf_member_chars(v),
        c.fields == insert_assoc(b.fields, k, v),
        c.classes == b.classes,
        c.methods == b.methods,
    ensures
        wf_store(c),
{
    lemma_insert_assoc(b.fields, k, v);
    let ins = insert_assoc(b.fields, k, v);
    assert forall|i: int| 0 <= i < c.fields.len() implies wf_field_v(#[trigger] c.fields[i].0)
        && wf_member_chars(c.fields[i].1) by {
        assert(c.fields[i] == ins[i]);
        assert(ins[i] == (k, v) || (0 <= i < b.fields.len() && ins[i] == b.fields[i]));
        if ins[i] != (k, v) {
            assert(wf_field_v(b.fields[i].0));
        }
    }
    assert forall|i: int, j: int|
        0 <= i < j < c.fields.len() implies (#[trigger] c.fields[i]).0 != (
    #[trigger] c.fields[j]).0 by {
        assert(c.fields[i] == ins[i]);
        assert(c.fields[j] == ins[j]);
        assert(unique_keys(ins));
        assert(ins[i].0 != ins[j].0);
    }
    assert forall|i: int| 0 <= i < c.classes.len() implies wf_class_chars(
        #[trigger] c.classes[i].0,
    ) && wf_class_chars(c.classes[i].1) by {
        assert(c.classes[i] == b.classes[i]);
        assert(wf_class_chars(b.classes[i].0));
    }
    assert forall|i: int, j: int|
        0 <= i < j < c.classes.len() implies (#[trigger] c.classes[i]).0 != (
    #[trigger] c.classes[j]).0 by {
        assert(c.classes[i] == b.classes[i]);
        assert(c.classes[j] == b.classes[j]);
        assert(b.classes[i].0 != b.classes[j].0);
    }
    assert forall|i: int| 0 <= i < c.methods.len() implies wf_method_v(#[trigger] c.methods[i].0)
        && wf_member_chars(c.methods[i].1) by {
        assert(c.methods[i] == b.methods[i]);
        assert(wf_method_v(b.methods[i].0));
    }
    assert forall|i: int, j: int|
        0 <= i < j < c.methods.len() implies (#[trigger] c.methods[i]).0 != (
    #[trigger] c.methods[j]).0 by {
        assert(c.methods[i] == b.methods[i]);
        assert(c.methods[j] == b.methods[j]);
        assert(b.methods[i].0 != b.methods[j].0);
    }
}

/// Inserting a well-formed method renaming preserves store
/// well-formedness.
pub proof fn lemma_wf_store_insert_method(b: StoreV, k: MethodDataV, v: Seq<char>, c: StoreV)
    requires
        wf_store(b),
        wf_method_v(k),
        wf_member_chars(v),
        c.methods == insert_assoc(b.methods, k, v),
        c.classes == b.classes,
        c.fields == b.fields,
    ensures
        wf_store(c),
{
    lemma_insert_assoc(b.methods, k, v);
    let ins = insert_assoc(b.methods, k, v);
    assert forall|i: int| 0 <= i < c.methods.len() implies wf_method_v(#[trigger] c.methods[i].0)
        && wf_member_chars(c.methods[i].1) by {
        assert(c.methods[i] == ins[i]);
        assert(ins[i] == (k, v) || (0 <= i < b.methods.len() && ins[i] == b.methods[i]));
        if ins[i] != (k, v) {
            assert(wf_method_v(b.methods[i].0));
        }
    }
    assert forall|i: int, j: int|
        0 <= i < j < c.methods.len() implies (#[trigger] c.methods[i]).0 != (
    #[trigger] c.methods[j]).0 by {
        assert(c.methods[i] == ins[i]);
        assert(c.methods[j] == ins[j]);
        assert(unique_keys(ins));
        assert(ins[i].0 != ins[j].0);
    }
    assert forall|i: int| 0 <= i < c.classes.len() implies wf_class_chars(
        #[trigger] c.classes[i].0,
    ) && wf_class_chars(c.classes[i].1) by {
        assert(c.classes[i] == b.classes[i]);
        assert(wf_class_chars(b.classes[i].0));
    }
    assert forall|i: int, j: int|
        0 <= i < j < c.classes.len() implies (#[trigger] c.classes[i]).0 != (
    #[trigger] c.classes[j]).0 by {
        assert(c.classes[i] == b.classes[i]);
        assert(c.classes[j] == b.classes[j]);
        assert(b.classes[i].0 != b.classes[j].0);
    }
    assert forall|i: int| 0 <= i < c.fields.len() implies wf_field_v(#[trigger] c.fields[i].0)
        && wf_member_chars(c.fields[i].1) by {
        assert(c.fields[i] == b.fields[i]);
        assert(wf_field_v(b.fields[i].0));
    }
    assert forall|i: int, j: int|
        0 <= i < j < c.fields.len() implies (#[trigger] c.fields[i]).0 != (
    #[trigger] c.fields[j]).0 by {
        assert(c.fields[i] == b.fields[i]);
        assert(c.fields[j] == b.fields[j]);
        assert(b.fields[i].0 != b.fields[j].0);
    }
}

// ---------------------------------------------------------------------
// Builder
// ---------------------------------------------------------------------
/// Failure of an insertion into the store.
#[derive(Debug)]
pub enum MappingInsertError {
    InvalidName(NameParseError),
    InvalidDescriptor(MethodDescriptorParseError),
}

/// A mutable mapping store under construction.
#[derive(Debug)]
pub struct MappingsBuilder {
    pub classes: Vec<(JavaClass, JavaClass)>,
    pub field_names: Vec<(FieldData, String)>,
    pub method_names: Vec<(MethodData, String)>,
}

impl View for MappingsBuilder {
    type V = StoreV;

    open spec fn view(&self) -> StoreV {
        StoreV {
            classes: class_table_v(self.classes@),
            fields: field_table_v(self.field_names@),
            methods: method_table_v(self.method_names@),
        }
    }
}

fn find_class_index<V>(classes: &Vec<(JavaClass, V)>, key: &JavaClass) -> (r: Option<usize>)
    ensures
        r matches Some(i) ==> i < classes@.len() && classes@[i as int].0@ == key@ && (forall|
            j: int,
        |
            0 <= j < i ==> classes@[j].0@ != key@),
        r is None ==> forall|j: int| 0 <= j < classes@.len() ==> classes@[j].0@ != key@,
{
    let mut i: usize = 0;
    while i < classes.len()
        invariant
            i <= classes@.len(),
            forall|j: int| 0 <= j < i ==> classes@[j].0@ != key@,
        decreases classes@.len() - i,
    {
        if classes[i].0 == *key {
            return Some(i);
        }
        i = i + 1;
    }
    None
}

fn find_field_index<V>(fields: &Vec<(FieldData, V)>, key: &FieldData) -> (r: Option<usize>)
    ensures
        r matches Some(i) ==> i < fields@.len() && fields@[i as int].0@ == key@ && (forall|j: int|
            0 <= j < i ==> fields@[j].0@ != key@),
        r is None ==> forall|j: int| 0 <= j < fields@.len() ==> fields@[j].0@ != key@,
{
    let mut i: usize = 0;
    while i < fields.len()
        invariant
            i <= fields@.len(),
            forall|j: int| 0 <= j < i ==> fields@[j].0@ != key@,
        decreases fields@.len() - i,
    {
        if fields[i].0 == *key {
            return Some(i);
        }
        i = i + 1;
    }
    None
}

fn find_method_index<V>(methods: &Vec<(MethodData, V)>, key: &MethodData) -> (r: Option<usize>)
    ensures
        r matches Some(i) ==> i < methods@.len() && methods@[i as int].0@ == key@ && (forall|
            j: int,
        |
            0 <= j < i ==> methods@[j].0@ != key@),
        r is None ==> forall|j: int| 0 <= j < methods@.len() ==> methods@[j].0@ != key@,
{
    let mut i: usize = 0;
    while i < methods.len()
        invariant
            i <= methods@.len(),
            forall|j: int| 0 <= j < i ==> methods@[j].0@ != key@,
        decreases methods@.len() - i,
    {
        if methods[i].0 == *key {
            return Some(i);
        }
        i = i + 1;
    }
    None
}

/// Check a member name at run time.
fn check_member_name(n: &String) -> (r: bool)
    ensures
        r == wf_member_chars(n@),
{
    !n.as_str().is_empty()
}

impl MappingsBuilder {
    /// Well-formed builder: see [`wf_store`].
    pub open spec fn wf(&self) -> bool {
        wf_store(self@)
    }

    /// The number of class renames recorded.
    pub fn num_classes(&self) -> (r: usize)
        ensures
            r == self@.classes.len(),
    {
        self.classes.len()
    }

    /// The number of field renames recorded.
    pub fn num_fields(&self) -> (r: usize)
        ensures
            r == self@.fields.len(),
    {
        self.field_names.len()
    }

    /// The number of method renames recorded.
    pub fn num_methods(&self) -> (r: usize)
        ensures
            r == self@.methods.len(),
    {
        self.method_names.len()
    }

    /// An empty store.
    pub fn new() -> (r: MappingsBuilder)
        ensures
            r@.classes.len() == 0,
            r@.fields.len() == 0,
            r@.methods.len() == 0,
            r.wf(),
    {
        let r = MappingsBuilder { classes: Vec::new(), field_names: Vec::new(), method_names: Vec::new() };
        proof {
            assert(r@.classes =~= Seq::<(Seq<char>, Seq<char>)>::empty());
            assert(r@.fields =~= Seq::<(FieldDataV, Seq<char>)>::empty());
            assert(r@.methods =~= Seq::<(MethodDataV, Seq<char>)>::empty());
        }
        r
    }

    /// An empty store, sized for the given numbers of entries.
    pub fn with_capacities(classes: usize, fields: usize, methods: usize) -> (r: MappingsBuilder)
        ensures
            r@.classes.len() == 0,
            r@.fields.len() == 0,
            r@.methods.len() == 0,
            r.wf(),
    {
        let r = MappingsBuilder {
            classes: Vec::with_capacity(classes),
            field_names: Vec::with_capacity(fields),
            method_names: Vec::with_capacity(methods),
        };
        proof {
            assert(r@.classes =~= Seq::<(Seq<char>, Seq<char>)>::empty());
            assert(r@.fields =~= Seq::<(FieldDataV, Seq<char>)>::empty());
            assert(r@.methods =~= Seq::<(MethodDataV, Seq<char>)>::empty());
        }
        r
    }

    /// Ordered insert or overwrite of a class renaming; both sides must
    /// be well-formed internal names.
    pub fn insert_class(&mut self, original_class: JavaClass, new_class: JavaClass) -> (r: Result<
        (),
        MappingInsertError,
    >)
        ensures
            r is Ok <==> (wf_class_chars(original_class@) && wf_class_chars(new_class@)),
            r is Ok ==> final(self)@ == (StoreV {
                classes: insert_assoc(old(self)@.classes, original_class@, new_class@),
                fields: old(self)@.fields,
                methods: old(self)@.methods,
            }),
            r is Err ==> *final(self) == *old(self),
            old(self).wf() ==> final(self).wf(),
    {
        if let Err(e) = JavaClass::parse_internal_name(original_class.internal_name()) {
            return Err(MappingInsertError::InvalidName(e));
        }
        if let Err(e) = JavaClass::parse_internal_name(new_class.internal_name()) {
            return Err(MappingInsertError::InvalidName(e));
        }
        let ghost k = original_class@;
        let ghost v = new_class@;
        let ghost cv0 = old(self)@.classes;
        proof {
            lemma_insert_assoc(cv0, k, v);
        }
        match find_class_index(&self.classes, &original_class) {
            Some(i) => {
                proof {
                    lemma_assoc_at(cv0, k, i as int);
                }
                self.classes[i] = (original_class, new_class);
                proof {
                    assert(self@.classes =~= cv0.update(i as int, (k, v)));
                }
            },
            None => {
                proof {
                    lemma_assoc_none(cv0, k);
                }
                self.classes.push((original_class, new_class));
                proof {
                    assert(self@.classes =~= cv0.push((k, v)));
                }
            },
        }
        proof {
            assert(self@ =~= (StoreV {
                classes: insert_assoc(cv0, k, v),
                fields: old(self)@.fields,
                methods: old(self)@.methods,
            }));
            if old(self).wf() {
                lemma_wf_store_insert_class(old(self)@, k, v, self@);
            }
        }
        Ok(())
    }

    /// Ordered insert or overwrite of a field renaming; the key must be
    /// well formed and the new name non-empty.
    pub fn insert_field(&mut self, original_field: FieldData, new_name: String) -> (r: Result<
        (),
        MappingInsertError,
    >)
        ensures
            r is Ok <==> (wf_field_v(original_field@) && wf_member_chars(new_name@)),
            r is Ok ==> final(self)@ == (StoreV {
                classes: old(self)@.classes,
                fields: insert_assoc(old(self)@.fields, original_field@, new_name@),
                methods: old(self)@.methods,
            }),
            r is Err ==> *final(self) == *old(self),
            old(self).wf() ==> final(self).wf(),
    {
        if let Err(e) = JavaClass::parse_internal_name(original_field.class.internal_name()) {
            return Err(MappingInsertError::InvalidName(e));
        }
        if !check_member_name(&original_field.name) {
            return Err(MappingInsertError::InvalidName(NameParseError::EmptyMemberName));
        }
        if !check_member_name(&new_name) {
            return Err(MappingInsertError::InvalidName(NameParseError::EmptyMemberName));
        }
        let ghost k = original_field@;
        let ghost v = new_name@;
        let ghost fv0 = old(self)@.fields;
        proof {
            lemma_insert_assoc(fv0, k, v);
        }
        match find_field_index(&self.field_names, &original_field) {
            Some(i) => {
                proof {
                    lemma_assoc_at(fv0, k, i as int);
                }
                self.field_names[i] = (original_field, new_name);
                proof {
                    assert(self@.fields =~= fv0.update(i as int, (k, v)));
                }
            },
            None => {
                proof {
                    lemma_assoc_none(fv0, k);
                }
                self.field_names.push((original_field, new_name));
                proof {
                    assert(self@.fields =~= fv0.push((k, v)));
                }
            },
        }
        proof {
            assert(self@ =~= (StoreV {
                classes: old(self)@.classes,
                fields: insert_assoc(fv0, k, v),
                methods: old(self)@.methods,
            }));
            if old(self).wf() {
                lemma_wf_store_insert_field(old(self)@, k, v, self@);
            }
        }
        Ok(())
    }

    /// Ordered insert or overwrite of a method renaming; the key must be
    /// well formed, its descriptor must parse, and the new name must be
    /// non-empty.
    pub fn insert_method(&mut self, original_method: MethodData, new_name: String) -> (r: Result<
        (),
        MappingInsertError,
    >)
        ensures
            r is Ok <==> (wf_method_v(original_method@) && wf_member_chars(new_name@)),
            r is Ok ==> final(self)@ == (StoreV {
                classes: old(self)@.classes,
                fields: old(self)@.fields,
                methods: insert_assoc(old(self)@.methods, original_method@, new_name@),
            }),
            r is Err ==> *final(self) == *old(self),
            old(self).wf() ==> final(self).wf(),
    {
        if let Err(e) = JavaClass::parse_internal_name(original_method.class.internal_name()) {
            return Err(MappingInsertError::InvalidName(e));
        }
        if !check_member_name(&original_method.name) {
            return Err(MappingInsertError::InvalidName(NameParseError::EmptyMemberName));
        }
        if let Err(e) = original_method.signature.parse() {
            return Err(MappingInsertError::InvalidDescriptor(e));
        }
        if !check_member_name(&new_name) {
            return Err(MappingInsertError::InvalidName(NameParseError::EmptyMemberName));
        }
        let ghost k = original_method@;
        let ghost v = new_name@;
        let ghost mv0 = old(self)@.methods;
        proof {
            lemma_insert_assoc(mv0, k, v);
        }
        match find_method_index(&self.method_names, &original_method) {
            Some(i) => {
                proof {
                    lemma_assoc_at(mv0, k, i as int);
                }
                self.method_names[i] = (original_method, new_name);
                proof {
                    assert(self@.methods =~= mv0.update(i as int, (k, v)));
                }
            },
            None => {
                proof {
                    lemma_assoc_none(mv0, k);
                }
                self.method_names.push((original_method, new_name));
                proof {
                    assert(self@.methods =~= mv0.push((k, v)));
                }
            },
        }
        proof {
            assert(self@ =~= (StoreV {
                classes: old(self)@.classes,
                fields: old(self)@.fields,
                methods: insert_assoc(mv0, k, v),
            }));
            if old(self).wf() {
                lemma_wf_store_insert_method(old(self)@, k, v, self@);
            }
        }
        Ok(())
    }

    /// The renamed class bound to `original`, if one is recorded.
    pub fn try_get_class(&self, original: &JavaClass) -> (r: Option<JavaClass>)
        ensures
            r is Some <==> assoc(self@.classes, original@) is Some,
            r matches Some(c) ==> assoc(self@.classes, original@) == Some(c@),
    {
        match find_class_index(&self.classes, original) {
            Some(i) => {
                proof {
                    lemma_assoc_at(self@.classes, original@, i as int);
                }
                Some(self.classes[i].1.clone())
            },
            None => {
                proof {
                    lemma_assoc_none(self@.classes, original@);
                }
                None
            },
        }
    }

    /// The renamed class bound to `original`, or `original` itself.
    pub fn get_class(&self, original: &JavaClass) -> (r: JavaClass)
        ensures
            r@ == remap_class_v(self@.classes, original@),
    {
        match self.try_get_class(original) {
            Some(c) => c,
            None => original.clone(),
        }
    }

    /// One type with its class references substituted through the class
    /// table.
    fn remap_java_type(&self, t: &JavaType) -> (r: JavaType)
        ensures
            r@ == remap_type_v(self@.classes, t@),
    {
        match t {
            JavaType::Primitive(p) => JavaType::Primitive(*p),
            JavaType::Class(c) => JavaType::Class(self.get_class(c)),
            JavaType::Array { dimensions, element } => JavaType::Array {
                dimensions: *dimensions,
                element: match element {
                    ElementType::Primitive(p) => ElementType::Primitive(*p),
                    ElementType::Class(c) => ElementType::Class(self.get_class(c)),
                },
            },
        }
    }

    /// A method descriptor with every class reference substituted
    /// through the class table.
    pub fn remap_signature(&self, original: &MethodSignature) -> (r: MethodSignature)
        requires
            valid_sig(original@),
            wf_class_values(self@.classes),
        ensures
            r@ == remap_descriptor_v(self@.classes, original@),
    {
        match original.parse() {
            Err(_) => {
                proof {
                    assert(false);
                }
                MethodSignature::new("")
            },
            Ok(parsed) => {
                let ghost ps = parsed@;
                let mut new_params: Vec<JavaType> = Vec::new();
                let n = parsed.parameter_types.len();
                let mut i: usize = 0;
                while i < n
                    invariant
                        i <= n,
                        n == parsed.parameter_types.len(),
                        parsed@ == ps,
                        new_params@.len() == i,
                        forall|k: int|
                            0 <= k < i ==> (#[trigger] new_params@[k])@ == remap_type_v(
                                self@.classes,
                                ps.parameter_types[k],
                            ),
                    decreases n - i,
                {
                    let nt = self.remap_java_type(&parsed.parameter_types[i]);
                    new_params.push(nt);
                    i = i + 1;
                }
                let new_ret = self.remap_java_type(&parsed.return_type);
                let remapped = ParsedMethodSignature {
                    parameter_types: new_params,
                    return_type: new_ret,
                };
                proof {
                    assert(remapped@ =~= remap_sig_v(self@.classes, ps));
                }
                let descriptor = remapped.descriptor();
                MethodSignature { descriptor }
            },
        }
    }
}

// ---------------------------------------------------------------------
// Snapshot
// ---------------------------------------------------------------------
/// Ghost image of a snapshot: three tables whose renamed sides are fully
/// materialized.
#[verifier::ext_equal]
pub struct SnapshotV {
    pub classes: Seq<(Seq<char>, Seq<char>)>,
    pub fields: Seq<(FieldDataV, FieldDataV)>,
    pub methods: Seq<(MethodDataV, MethodDataV)>,
}

/// The snapshot a store builds: classes copied; fields and methods
/// paired with their renamed record, the class side and the descriptor
/// already remapped through the class table.
pub open spec fn snapshot_of(b: StoreV) -> SnapshotV {
    SnapshotV {
        classes: b.classes,
        fields: b.fields.map_values(
            |p: (FieldDataV, Seq<char>)|
                (
                    p.0,
                    FieldDataV { class: remap_class_v(b.classes, p.0.class), name: p.1 },
                ),
        ),
        methods: b.methods.map_values(
            |p: (MethodDataV, Seq<char>)|
                (
                    p.0,
                    MethodDataV {
                        class: remap_class_v(b.classes, p.0.class),
                        name: p.1,
                        descriptor: remap_descriptor_v(b.classes, p.0.descriptor),
                    },
                ),
        ),
    }
}

/// Every name a snapshot holds is well formed: keys as in a
/// well-formed store, renamed sides with remapped classes and valid
/// descriptors.
pub open spec fn snapshot_names_wf(s: SnapshotV) -> bool {
    &&& (forall|i: int|
        0 <= i < s.classes.len() ==> wf_class_chars(#[trigger] s.classes[i].0) && wf_class_chars(
            s.classes[i].1,
        ))
    &&& (forall|i: int|
        0 <= i < s.fields.len() ==> wf_field_v((#[trigger] s.fields[i]).0) && wf_field_v(
            s.fields[i].1,
        ))
    &&& (forall|i: int|
        0 <= i < s.methods.len() ==> wf_method_v((#[trigger] s.methods[i]).0) && wf_method_v(
            s.methods[i].1,
        ))
}

/// An immutable mapping store with materialized renamings.
#[derive(Debug)]
pub struct MappingsSnapshot {
    pub classes: Vec<(JavaClass, JavaClass)>,
    pub fields: Vec<(FieldData, FieldData)>,
    pub methods: Vec<(MethodData, MethodData)>,
}

impl View for MappingsSnapshot {
    type V = SnapshotV;

    open spec fn view(&self) -> SnapshotV {
        SnapshotV {
            classes: self.classes@.map_values(|p: (JavaClass, JavaClass)| (p.0@, p.1@)),
            fields: self.fields@.map_values(|p: (FieldData, FieldData)| (p.0@, p.1@)),
            methods: self.methods@.map_values(|p: (MethodData, MethodData)| (p.0@, p.1@)),
        }
    }
}

/// What `get_field` returns: the recorded renaming, or the key with
/// only its class remapped.
pub open spec fn spec_get_field(s: SnapshotV, f: FieldDataV) -> FieldDataV {
    match assoc(s.fields, f) {
        Some(rf) => rf,
        None => FieldDataV { class: remap_class_v(s.classes, f.class), name: f.name },
    }
}

/// What `get_method` returns: the recorded renaming, or the key with
/// its class and descriptor remapped.
pub open spec fn spec_get_method(s: SnapshotV, m: MethodDataV) -> MethodDataV {
    match assoc(s.methods, m) {
        Some(rm) => rm,
        None => MethodDataV {
            class: remap_class_v(s.classes, m.class),
            name: m.name,
            descriptor: remap_descriptor_v(s.classes, m.descriptor),
        },
    }
}

impl MappingsBuilder {
    /// Materialize every renaming: remap each field's and method's class
    /// and each method's descriptor through the class table once.
    pub fn snapshot(&self) -> (r: MappingsSnapshot)
        requires
            self.wf(),
        ensures
            r@ == snapshot_of(self@),
            r.wf(),
            snapshot_names_wf(r@),
    {
        let ghost b = self@;
        let mut classes: Vec<(JavaClass, JavaClass)> = Vec::new();
        let mut i: usize = 0;
        while i < self.classes.len()
            invariant
                i <= self.classes.len(),
                b == self@,
                classes@.len() == i,
                forall|k: int|
                    0 <= k < i ==> (#[trigger] classes@[k]).0@ == b.classes[k].0 && classes@[k].1@
                        == b.classes[k].1,
            decreases self.classes.len() - i,
        {
            let pair = (self.classes[i].0.clone(), self.classes[i].1.clone());
            classes.push(pair);
            i = i + 1;
        }
        let mut fields: Vec<(FieldData, FieldData)> = Vec::new();
        let mut i: usize = 0;
        while i < self.field_names.len()
            invariant
                i <= self.field_names.len(),
                b == self@,
                fields@.len() == i,
                forall|k: int|
                    0 <= k < i ==> (#[trigger] fields@[k]).0@ == b.fields[k].0 && fields@[k].1@
                        == snapshot_of(b).fields[k].1,
            decreases self.field_names.len() - i,
        {
            let key = self.field_names[i].0.clone();
            let renamed = FieldData {
                class: self.get_class(&self.field_names[i].0.class),
                name: self.field_names[i].1.clone(),
            };
            fields.push((key, renamed));
            i = i + 1;
        }
        let mut methods: Vec<(MethodData, MethodData)> = Vec::new();
        let mut i: usize = 0;
        while i < self.method_names.len()
            invariant
                i <= self.method_names.len(),
                b == self@,
                self.wf(),
                methods@.len() == i,
                forall|k: int|
                    0 <= k < i ==> (#[trigger] methods@[k]).0@ == b.methods[k].0 && methods@[k].1@
                        == snapshot_of(b).methods[k].1,
            decreases self.method_names.len() - i,
        {
            let key = self.method_names[i].0.clone();
            proof {
                assert(wf_method_v(b.methods[i as int].0));
            }
            let renamed = MethodData {
                class: self.get_class(&self.method_names[i].0.class),
                name: self.method_names[i].1.clone(),
                signature: self.remap_signature(&self.method_names[i].0.signature),
            };
            methods.push((key, renamed));
            i = i + 1;
        }
        let r = MappingsSnapshot { classes, fields, methods };
        proof {
            assert(r@ =~= snapshot_of(b));
            assert forall|i: int, j: int| 0 <= i < j < r@.fields.len() implies r@.fields[i].0
                != r@.fields[j].0 by {
                assert(r@.fields[i].0 == b.fields[i].0);
                assert(r@.fields[j].0 == b.fields[j].0);
            }
            assert forall|i: int, j: int| 0 <= i < j < r@.methods.len() implies r@.methods[i].0
                != r@.methods[j].0 by {
                assert(r@.methods[i].0 == b.methods[i].0);
                assert(r@.methods[j].0 == b.methods[j].0);
            }
            lemma_snapshot_wf_values(b);
            assert forall|i: int| 0 <= i < r@.fields.len() implies wf_field_v(
                (#[trigger] r@.fields[i]).0,
            ) && wf_field_v(r@.fields[i].1) by {
                assert(r@.fields[i] == snapshot_of(b).fields[i]);
                assert(wf_field_v(b.fields[i].0));
                assert(wf_field_v(snapshot_of(b).fields[i].1));
            }
            assert forall|i: int| 0 <= i < r@.methods.len() implies wf_method_v(
                (#[trigger] r@.methods[i]).0,
            ) && wf_method_v(r@.methods[i].1) by {
                assert(r@.methods[i] == snapshot_of(b).methods[i]);
                assert(wf_method_v(b.methods[i].0));
                assert(wf_method_v(snapshot_of(b).methods[i].1));
            }
            assert forall|i: int| 0 <= i < r@.classes.len() implies wf_class_chars(
                #[trigger] r@.classes[i].0,
            ) && wf_class_chars(r@.classes[i].1) by {
                assert(r@.classes[i] == b.classes[i]);
                assert(wf_class_chars(b.classes[i].0));
            }
        }
        r
    }

    /// `snapshot` under the name the build step is known by.
    pub fn build(&self) -> (r: MappingsSnapshot)
        requires
            self.wf(),
        ensures
            r@ == snapshot_of(self@),
            r.wf(),
            snapshot_names_wf(r@),
    {
        self.snapshot()
    }
}

impl MappingsSnapshot {
    /// The number of class renames recorded.
    pub fn num_classes(&self) -> (r: usize)
        ensures
            r == self@.classes.len(),
    {
        self.classes.len()
    }

    /// The number of field renames recorded.
    pub fn num_fields(&self) -> (r: usize)
        ensures
            r == self@.fields.len(),
    {
        self.fields.len()
    }

    /// The number of method renames recorded.
    pub fn num_methods(&self) -> (r: usize)
        ensures
            r == self@.methods.len(),
    {
        self.methods.len()
    }

    /// Well-formed snapshot: unique keys and a class table with
    /// well-formed renamed sides.
    pub open spec fn wf(&self) -> bool {
        &&& unique_keys(self@.classes)
        &&& unique_keys(self@.fields)
        &&& unique_keys(self@.methods)
        &&& wf_class_values(self@.classes)
    }

    /// The renamed class bound to `original`, if one is recorded.
    pub fn try_get_class(&self, original: &JavaClass) -> (r: Option<JavaClass>)
        ensures
            r is Some <==> assoc(self@.classes, original@) is Some,
            r matches Some(c) ==> assoc(self@.classes, original@) == Some(c@),
    {
        match find_class_index(&self.classes, original) {
            Some(i) => {
                proof {
                    lemma_assoc_at(self@.classes, original@, i as int);
                }
                Some(self.classes[i].1.clone())
            },
            None => {
                proof {
                    lemma_assoc_none(self@.classes, original@);
                }
                None
            },
        }
    }

    /// The renamed class bound to `original`, or `original` itself.
    pub fn get_class(&self, original: &JavaClass) -> (r: JavaClass)
        ensures
            r@ == remap_class_v(self@.classes, original@),
    {
        match self.try_get_class(original) {
            Some(c) => c,
            None => original.clone(),
        }
    }

    /// The renamed field record bound to `original`, if one is recorded.
    pub fn try_get_field(&self, original: &FieldData) -> (r: Option<FieldData>)
        ensures
            r is Some <==> assoc(self@.fields, original@) is Some,
            r matches Some(f) ==> assoc(self@.fields, original@) == Some(f@),
    {
        match find_field_index(&self.fields, original) {
            Some(i) => {
                proof {
                    lemma_assoc_at(self@.fields, original@, i as int);
                }
                Some(self.fields[i].1.clone())
            },
            None => {
                proof {
                    lemma_assoc_none(self@.fields, original@);
                }
                None
            },
        }
    }

    /// Only the renamed name of the field, if one is recorded.
    pub fn try_get_field_name(&self, original: &FieldData) -> (r: Option<String>)
        ensures
            r is Some <==> assoc(self@.fields, original@) is Some,
            r matches Some(n) ==> (match assoc(self@.fields, original@) {
                Some(f) => f.name == n@,
                None => false,
            }),
    {
        match find_field_index(&self.fields, original) {
            Some(i) => {
                proof {
                    lemma_assoc_at(self@.fields, original@, i as int);
                }
                Some(self.fields[i].1.name.clone())
            },
            None => {
                proof {
                    lemma_assoc_none(self@.fields, original@);
                }
                None
            },
        }
    }

    /// The renamed field record, or the key itself with only its class
    /// remapped through the class table.
    pub fn get_field(&self, original: &FieldData) -> (r: FieldData)
        ensures
            r@ == spec_get_field(self@, original@),
    {
        match self.try_get_field(original) {
            Some(f) => f,
            None => FieldData {
                class: self.get_class(&original.class),
                name: original.name.clone(),
            },
        }
    }

    /// The renamed method record bound to `original`, if one is
    /// recorded.
    pub fn try_get_method(&self, original: &MethodData) -> (r: Option<MethodData>)
        ensures
            r is Some <==> assoc(self@.methods, original@) is Some,
            r matches Some(m) ==> assoc(self@.methods, original@) == Some(m@),
    {
        match find_method_index(&self.methods, original) {
            Some(i) => {
                proof {
                    lemma_assoc_at(self@.methods, original@, i as int);
                }
                Some(self.methods[i].1.clone())
            },
            None => {
                proof {
                    lemma_assoc_none(self@.methods, original@);
                }
                None
            },
        }
    }

    /// Only the renamed name of the method, if one is recorded.
    pub fn try_get_method_name(&self, original: &MethodData) -> (r: Option<String>)
        ensures
            r is Some <==> assoc(self@.methods, original@) is Some,
            r matches Some(n) ==> (match assoc(self@.methods, original@) {
                Some(m) => m.name == n@,
                None => false,
            }),
    {
        match find_method_index(&self.methods, original) {
            Some(i) => {
                proof {
                    lemma_assoc_at(self@.methods, original@, i as int);
                }
                Some(self.methods[i].1.name.clone())
            },
            None => {
                proof {
                    lemma_assoc_none(self@.methods, original@);
                }
                None
            },
        }
    }

    /// One type with its class references substituted through the class
    /// table.
    fn remap_java_type(&self, t: &JavaType) -> (r: JavaType)
        ensures
            r@ == remap_type_v(self@.classes, t@),
    {
        match t {
            JavaType::Primitive(p) => JavaType::Primitive(*p),
            JavaType::Class(c) => JavaType::Class(self.get_class(c)),
            JavaType::Array { dimensions, element } => JavaType::Array {
                dimensions: *dimensions,
                element: match element {
                    ElementType::Primitive(p) => ElementType::Primitive(*p),
                    ElementType::Class(c) => ElementType::Class(self.get_class(c)),
                },
            },
        }
    }

    /// A method descriptor with every class reference substituted
    /// through the class table.
    pub fn remap_signature(&self, original: &MethodSignature) -> (r: MethodSignature)
        requires
            valid_sig(original@),
            wf_class_values(self@.classes),
        ensures
            r@ == remap_descriptor_v(self@.classes, original@),
    {
        match original.parse() {
            Err(_) => {
                proof {
                    assert(false);
                }
                MethodSignature::new("")
            },
            Ok(parsed) => {
                let ghost ps = parsed@;
                let mut new_params: Vec<JavaType> = Vec::new();
                let n = parsed.parameter_types.len();
                let mut i: usize = 0;
                while i < n
                    invariant
                        i <= n,
                        n == parsed.parameter_types.len(),
                        parsed@ == ps,
                        new_params@.len() == i,
                        forall|k: int|
                            0 <= k < i ==> (#[trigger] new_params@[k])@ == remap_type_v(
                                self@.classes,
                                ps.parameter_types[k],
                            ),
                    decreases n - i,
                {
                    let nt = self.remap_java_type(&parsed.parameter_types[i]);
                    new_params.push(nt);
                    i = i + 1;
                }
                let new_ret = self.remap_java_type(&parsed.return_type);
                let remapped = ParsedMethodSignature {
                    parameter_types: new_params,
                    return_type: new_ret,
                };
                proof {
                    assert(remapped@ =~= remap_sig_v(self@.classes, ps));
                }
                let descriptor = remapped.descriptor();
                MethodSignature { descriptor }
            },
        }
    }

    /// The renamed method record, or the key itself with its class and
    /// descriptor remapped through the class table.
    pub fn get_method(&self, original: &MethodData) -> (r: MethodData)
        requires
            valid_sig(original@.descriptor),
            wf_class_values(self@.classes),
        ensures
            r@ == spec_get_method(self@, original@),
    {
        match self.try_get_method(original) {
            Some(m) => m,
            None => MethodData {
                class: self.get_class(&original.class),
                name: original.name.clone(),
                signature: self.remap_signature(&original.signature),
            },
        }
    }

    /// A snapshot is immutable; its snapshot is a copy of itself.
    pub fn snapshot(&self) -> (r: MappingsSnapshot)
        ensures
            r@ == self@,
    {
        self.clone()
    }
}

impl Clone for MappingsSnapshot {
    fn clone(&self) -> (r: Self)
        ensures
            r@ == self@,
    {
        let mut classes: Vec<(JavaClass, JavaClass)> = Vec::new();
        let mut i: usize = 0;
        while i < self.classes.len()
            invariant
                i <= self.classes.len(),
                classes@.len() == i,
                forall|k: int|
                    0 <= k < i ==> (#[trigger] classes@[k]).0@ == self@.classes[k].0 && classes@[
                        k
                    ].1@ == self@.classes[k].1,
            decreases self.classes.len() - i,
        {
            classes.push((self.classes[i].0.clone(), self.classes[i].1.clone()));
            i = i + 1;
        }
        let mut fields: Vec<(FieldData, FieldData)> = Vec::new();
        let mut i: usize = 0;
        while i < self.fields.len()
            invariant
                i <= self.fields.len(),
                fields@.len() == i,
                forall|k: int|
                    0 <= k < i ==> (#[trigger] fields@[k]).0@ == self@.fields[k].0 && fields@[
                        k
                    ].1@ == self@.fields[k].1,
            decreases self.fields.len() - i,
        {
            fields.push((self.fields[i].0.clone(), self.fields[i].1.clone()));
            i = i + 1;
        }
        let mut methods: Vec<(MethodData, MethodData)> = Vec::new();
        let mut i: usize = 0;
        while i < self.methods.len()
            invariant
                i <= self.methods.len(),
                methods@.len() == i,
                forall|k: int|
                    0 <= k < i ==> (#[trigger] methods@[k]).0@ == self@.methods[k].0 && methods@[
                        k
                    ].1@ == self@.methods[k].1,
            decreases self.methods.len() - i,
        {
            methods.push((self.methods[i].0.clone(), self.methods[i].1.clone()));
            i = i + 1;
        }
        let r = MappingsSnapshot { classes, fields, methods };
        proof {
            assert(r@ =~= self@);
        }
        r
    }
}

/// In a well-formed store the renamed sides of the class table are
/// well-formed names.
pub proof fn lemma_wf_store_class_values(b: StoreV)
    requires
        wf_store(b),
    ensures
        wf_class_values(b.classes),
{
    assert forall|i: int| 0 <= i < b.classes.len() implies wf_class_chars(
        #[trigger] b.classes[i].1,
    ) by {
        assert(wf_class_chars(b.classes[i].0));
    }
}

/// All renamed sides a snapshot materializes from a well-formed store
/// are themselves well formed.
pub proof fn lemma_snapshot_wf_values(b: StoreV)
    requires
        wf_store(b),
    ensures
        forall|j: int|
            0 <= j < snapshot_of(b).fields.len() ==> wf_field_v(
                #[trigger] snapshot_of(b).fields[j].1,
            ),
        forall|j: int|
            0 <= j < snapshot_of(b).methods.len() ==> wf_method_v(
                #[trigger] snapshot_of(b).methods[j].1,
            ),
{
    lemma_wf_store_class_values(b);
    assert(snapshot_of(b).fields.len() == b.fields.len());
    assert(snapshot_of(b).methods.len() == b.methods.len());
    assert forall|j: int| 0 <= j < snapshot_of(b).fields.len() implies wf_field_v(
        #[trigger] snapshot_of(b).fields[j].1,
    ) by {
        assert(0 <= j < b.fields.len());
        assert(wf_field_v(b.fields[j].0));
        assert(wf_member_chars(b.fields[j].1));
        lemma_remap_class_wf(b.classes, b.fields[j].0.class);
    }
    assert forall|j: int| 0 <= j < snapshot_of(b).methods.len() implies wf_method_v(
        #[trigger] snapshot_of(b).methods[j].1,
    ) by {
        assert(0 <= j < b.methods.len());
        assert(wf_method_v(b.methods[j].0));
        assert(wf_member_chars(b.methods[j].1));
        lemma_remap_class_wf(b.classes, b.methods[j].0.class);
        lemma_remap_descriptor_valid(b.classes, b.methods[j].0.descriptor);
    }
}

/// `get_field` on the snapshot of a well-formed store yields a
/// well-formed field.
pub proof fn lemma_spec_get_field_wf(b: StoreV, f: FieldDataV)
    requires
        wf_store(b),
        wf_field_v(f),
    ensures
        wf_field_v(spec_get_field(snapshot_of(b), f)),
{
    lemma_snapshot_wf_values(b);
    lemma_wf_store_class_values(b);
    let s = snapshot_of(b);
    lemma_find_key(s.fields, f);
    match find_key(s.fields, f) {
        Some(i) => {
            assert(spec_get_field(s, f) == s.fields[i].1);
        },
        None => {
            lemma_remap_class_wf(b.classes, f.class);
        },
    }
}

// ---------------------------------------------------------------------
// Reverse and chain
// ---------------------------------------------------------------------
/// Named views of the three exec tables.
pub open spec fn class_table_v(s: Seq<(JavaClass, JavaClass)>) -> Seq<(Seq<char>, Seq<char>)> {
    s.map_values(|p: (JavaClass, JavaClass)| (p.0@, p.1@))
}

pub open spec fn field_table_v(s: Seq<(FieldData, String)>) -> Seq<(FieldDataV, Seq<char>)> {
    s.map_values(|p: (FieldData, String)| (p.0@, p.1@))
}

pub open spec fn method_table_v(s: Seq<(MethodData, String)>) -> Seq<(MethodDataV, Seq<char>)> {
    s.map_values(|p: (MethodData, String)| (p.0@, p.1@))
}

/// The class table with each pair swapped.
pub open spec fn swap_pairs(s: Seq<(Seq<char>, Seq<char>)>) -> Seq<(Seq<char>, Seq<char>)> {
    s.map_values(|p: (Seq<char>, Seq<char>)| (p.1, p.0))
}

/// The field entries `reverse` produces: the fully remapped renamed
/// record becomes the key, the original name the value.
pub open spec fn reversed_fields_v(b: StoreV) -> Seq<(FieldDataV, Seq<char>)> {
    b.fields.map_values(
        |p: (FieldDataV, Seq<char>)|
            (FieldDataV { class: remap_class_v(b.classes, p.0.class), name: p.1 }, p.0.name),
    )
}

/// The method entries `reverse` produces, descriptors remapped through
/// the old class table.
pub open spec fn reversed_methods_v(b: StoreV) -> Seq<(MethodDataV, Seq<char>)> {
    b.methods.map_values(
        |p: (MethodDataV, Seq<char>)|
            (
                MethodDataV {
                    class: remap_class_v(b.classes, p.0.class),
                    name: p.1,
                    descriptor: remap_descriptor_v(b.classes, p.0.descriptor),
                },
                p.0.name,
            ),
    )
}

/// The store `reverse` produces, duplicate keys collapsing onto their
/// first position.
pub open spec fn rev_store_v(b: StoreV) -> StoreV {
    StoreV {
        classes: insert_all(Seq::empty(), swap_pairs(b.classes)),
        fields: insert_all(Seq::empty(), reversed_fields_v(b)),
        methods: insert_all(Seq::empty(), reversed_methods_v(b)),
    }
}

/// The reverse snapshot `chain` resolves the other store's originals
/// through.
pub open spec fn chain_rev(b: StoreV) -> SnapshotV {
    snapshot_of(rev_store_v(b))
}

/// The store `chain` produces: the other store's entries, originals
/// translated back through the reverse snapshot, inserted over this
/// store's tables.
pub open spec fn chain_image(b: StoreV, o: StoreV) -> StoreV {
    StoreV {
        classes: insert_all(b.classes, chained_class_items(chain_rev(b), o.classes)),
        fields: insert_all(b.fields, chained_field_items(chain_rev(b), o.fields)),
        methods: insert_all(b.methods, chained_method_items(chain_rev(b), o.methods)),
    }
}

/// The store a snapshot rebuilds to: its classes and its member name
/// pairs, reinserted in order.
pub open spec fn rebuilt_store(v: SnapshotV) -> StoreV {
    StoreV {
        classes: v.classes,
        fields: v.fields.map_values(|p: (FieldDataV, FieldDataV)| (p.0, p.1.name)),
        methods: v.methods.map_values(|p: (MethodDataV, MethodDataV)| (p.0, p.1.name)),
    }
}

/// Inserting a key no earlier entry holds appends the pair.
pub proof fn lemma_insert_fresh<K, V>(s: Seq<(K, V)>, k: K, v: V)
    requires
        forall|j: int| 0 <= j < s.len() ==> (#[trigger] s[j]).0 != k,
    ensures
        insert_assoc(s, k, v) == s.push((k, v)),
{
    lemma_assoc_none(s, k);
}

/// The class entries `chain` adds: originals translated back through
/// the reverse snapshot, a name it does not know passing unchanged.
pub open spec fn chained_class_items(rs: SnapshotV, items: Seq<(Seq<char>, Seq<char>)>) -> Seq<
    (Seq<char>, Seq<char>),
> {
    items.map_values(|p: (Seq<char>, Seq<char>)| (remap_class_v(rs.classes, p.0), p.1))
}

/// The field entries `chain` adds.
pub open spec fn chained_field_items(rs: SnapshotV, items: Seq<(FieldDataV, Seq<char>)>) -> Seq<
    (FieldDataV, Seq<char>),
> {
    items.map_values(|p: (FieldDataV, Seq<char>)| (spec_get_field(rs, p.0), p.1))
}

/// The method entries `chain` adds.
pub open spec fn chained_method_items(rs: SnapshotV, items: Seq<(MethodDataV, Seq<char>)>) -> Seq<
    (MethodDataV, Seq<char>),
> {
    items.map_values(|p: (MethodDataV, Seq<char>)| (spec_get_method(rs, p.0), p.1))
}

pub proof fn lemma_insert_all_snoc<K, V>(acc: Seq<(K, V)>, items: Seq<(K, V)>, x: (K, V))
    ensures
        insert_all(acc, items.push(x)) == insert_assoc(insert_all(acc, items), x.0, x.1),
    decreases items.len(),
{
    if items.len() == 0 {
        assert(items.push(x)[0] == x);
        assert(items.push(x).drop_first() =~= Seq::<(K, V)>::empty());
        assert(insert_all(acc, items.push(x)) == insert_all(
            insert_assoc(acc, items.push(x)[0].0, items.push(x)[0].1),
            items.push(x).drop_first(),
        ));
        assert(insert_all(insert_assoc(acc, x.0, x.1), items.push(x).drop_first()) == insert_assoc(
            acc,
            x.0,
            x.1,
        ));
        assert(insert_all(acc, items) == acc);
    } else {
        assert(items.push(x)[0] == items[0]);
        assert(items.push(x).drop_first() =~= items.drop_first().push(x));
        let acc2 = insert_assoc(acc, items[0].0, items[0].1);
        assert(insert_all(acc, items.push(x)) == insert_all(
            insert_assoc(acc, items.push(x)[0].0, items.push(x)[0].1),
            items.push(x).drop_first(),
        ));
        assert(insert_assoc(acc, items.push(x)[0].0, items.push(x)[0].1) == acc2);
        assert(insert_all(acc2, items.push(x).drop_first()) == insert_all(
            acc2,
            items.drop_first().push(x),
        ));
        lemma_insert_all_snoc(acc2, items.drop_first(), x);
        assert(insert_all(acc, items) == insert_all(acc2, items.drop_first()));
    }
}

/// Folding inserts preserves uniqueness and any property of the pairs.
pub proof fn lemma_insert_all_props<K, V>(
    acc: Seq<(K, V)>,
    items: Seq<(K, V)>,
    p: spec_fn((K, V)) -> bool,
)
    requires
        unique_keys(acc),
        forall|i: int| 0 <= i < acc.len() ==> p(#[trigger] acc[i]),
        forall|i: int| 0 <= i < items.len() ==> p(#[trigger] items[i]),
    ensures
        unique_keys(insert_all(acc, items)),
        forall|i: int|
            0 <= i < insert_all(acc, items).len() ==> p(#[trigger] insert_all(acc, items)[i]),
    decreases items.len(),
{
    if items.len() > 0 {
        lemma_insert_assoc(acc, items[0].0, items[0].1);
        let acc2 = insert_assoc(acc, items[0].0, items[0].1);
        assert forall|i: int| 0 <= i < acc2.len() implies p(#[trigger] acc2[i]) by {
            assert(acc2[i] == (items[0].0, items[0].1) || (0 <= i < acc.len() && acc2[i] == acc[
                i
            ]));
            assert(p(items[0]));
        }
        assert forall|i: int| 0 <= i < items.drop_first().len() implies p(
            #[trigger] items.drop_first()[i],
        ) by {
            assert(items.drop_first()[i] == items[i + 1]);
        }
        lemma_insert_all_props(acc2, items.drop_first(), p);
    }
}

/// Reversing a well-formed store yields a well-formed store.
pub proof fn lemma_rev_store_wf(b: StoreV)
    requires
        wf_store(b),
    ensures
        wf_store(rev_store_v(b)),
{
    lemma_wf_store_class_values(b);
    let wc = |pr: (Seq<char>, Seq<char>)| wf_class_chars(pr.0) && wf_class_chars(pr.1);
    assert forall|i: int| 0 <= i < swap_pairs(b.classes).len() implies wc(
        #[trigger] swap_pairs(b.classes)[i],
    ) by {
        assert(wf_class_chars(b.classes[i].0));
    }
    lemma_insert_all_props(Seq::empty(), swap_pairs(b.classes), wc);
    let wfp = |pr: (FieldDataV, Seq<char>)| wf_field_v(pr.0) && wf_member_chars(pr.1);
    assert forall|i: int| 0 <= i < reversed_fields_v(b).len() implies wfp(
        #[trigger] reversed_fields_v(b)[i],
    ) by {
        assert(wf_field_v(b.fields[i].0));
        lemma_remap_class_wf(b.classes, b.fields[i].0.class);
    }
    lemma_insert_all_props(Seq::empty(), reversed_fields_v(b), wfp);
    let wmp = |pr: (MethodDataV, Seq<char>)| wf_method_v(pr.0) && wf_member_chars(pr.1);
    assert forall|i: int| 0 <= i < reversed_methods_v(b).len() implies wmp(
        #[trigger] reversed_methods_v(b)[i],
    ) by {
        assert(wf_method_v(b.methods[i].0));
        lemma_remap_class_wf(b.classes, b.methods[i].0.class);
        lemma_remap_descriptor_valid(b.classes, b.methods[i].0.descriptor);
    }
    lemma_insert_all_props(Seq::empty(), reversed_methods_v(b), wmp);
    let r = rev_store_v(b);
    assert forall|i: int| 0 <= i < r.classes.len() implies wf_class_chars(#[trigger] r.classes[i].0)
        && wf_class_chars(r.classes[i].1) by {
        assert(wc(r.classes[i]));
    }
    assert forall|i: int| 0 <= i < r.fields.len() implies wf_field_v(#[trigger] r.fields[i].0)
        && wf_member_chars(r.fields[i].1) by {
        assert(wfp(r.fields[i]));
    }
    assert forall|i: int| 0 <= i < r.methods.len() implies wf_method_v(#[trigger] r.methods[i].0)
        && wf_member_chars(r.methods[i].1) by {
        assert(wmp(r.methods[i]));
    }
}

fn upsert_class_entry(table: &mut Vec<(JavaClass, JavaClass)>, k: JavaClass, v: JavaClass)
    ensures
        class_table_v(final(table)@) == insert_assoc(class_table_v(old(table)@), k@, v@),
{
    proof {
        lemma_find_key(class_table_v(table@), k@);
    }
    match find_class_index(table, &k) {
        Some(i) => {
            proof {
                lemma_assoc_at(class_table_v(table@), k@, i as int);
            }
            table[i] = (k, v);
            proof {
                assert(class_table_v(table@) =~= insert_assoc(
                    class_table_v(old(table)@),
                    k@,
                    v@,
                ));
            }
        },
        None => {
            proof {
                lemma_assoc_none(class_table_v(table@), k@);
            }
            table.push((k, v));
            proof {
                assert(class_table_v(table@) =~= insert_assoc(
                    class_table_v(old(table)@),
                    k@,
                    v@,
                ));
            }
        },
    }
}

fn upsert_field_entry(table: &mut Vec<(FieldData, String)>, k: FieldData, v: String)
    ensures
        field_table_v(final(table)@) == insert_assoc(field_table_v(old(table)@), k@, v@),
{
    proof {
        lemma_find_key(field_table_v(table@), k@);
    }
    match find_field_index(table, &k) {
        Some(i) => {
            proof {
                lemma_assoc_at(field_table_v(table@), k@, i as int);
            }
            table[i] = (k, v);
            proof {
                assert(field_table_v(table@) =~= insert_assoc(
                    field_table_v(old(table)@),
                    k@,
                    v@,
                ));
            }
        },
        None => {
            proof {
                lemma_assoc_none(field_table_v(table@), k@);
            }
            table.push((k, v));
            proof {
                assert(field_table_v(table@) =~= insert_assoc(
                    field_table_v(old(table)@),
                    k@,
                    v@,
                ));
            }
        },
    }
}

fn upsert_method_entry(table: &mut Vec<(MethodData, String)>, k: MethodData, v: String)
    ensures
        method_table_v(final(table)@) == insert_assoc(method_table_v(old(table)@), k@, v@),
{
    proof {
        lemma_find_key(method_table_v(table@), k@);
    }
    match find_method_index(table, &k) {
        Some(i) => {
            proof {
                lemma_assoc_at(method_table_v(table@), k@, i as int);
            }
            table[i] = (k, v);
            proof {
                assert(method_table_v(table@) =~= insert_assoc(
                    method_table_v(old(table)@),
                    k@,
                    v@,
                ));
            }
        },
        None => {
            proof {
                lemma_assoc_none(method_table_v(table@), k@);
            }
            table.push((k, v));
            proof {
                assert(method_table_v(table@) =~= insert_assoc(
                    method_table_v(old(table)@),
                    k@,
                    v@,
                ));
            }
        },
    }
}

impl Clone for MappingsBuilder {
    fn clone(&self) -> (r: Self)
        ensures
            r@ == self@,
    {
        let mut classes: Vec<(JavaClass, JavaClass)> = Vec::new();
        let mut i: usize = 0;
        while i < self.classes.len()
            invariant
                i <= self.classes.len(),
                classes@.len() == i,
                forall|k: int|
                    0 <= k < i ==> (#[trigger] classes@[k]).0@ == self@.classes[k].0 && classes@[
                        k
                    ].1@ == self@.classes[k].1,
            decreases self.classes.len() - i,
        {
            classes.push((self.classes[i].0.clone(), self.classes[i].1.clone()));
            i = i + 1;
        }
        let mut field_names: Vec<(FieldData, String)> = Vec::new();
        let mut i: usize = 0;
        while i < self.field_names.len()
            invariant
                i <= self.field_names.len(),
                field_names@.len() == i,
                forall|k: int|
                    0 <= k < i ==> (#[trigger] field_names@[k]).0@ == self@.fields[k].0
                        && field_names@[k].1@ == self@.fields[k].1,
            decreases self.field_names.len() - i,
        {
            field_names.push((self.field_names[i].0.clone(), self.field_names[i].1.clone()));
            i = i + 1;
        }
        let mut method_names: Vec<(MethodData, String)> = Vec::new();
        let mut i: usize = 0;
        while i < self.method_names.len()
            invariant
                i <= self.method_names.len(),
                method_names@.len() == i,
                forall|k: int|
                    0 <= k < i ==> (#[trigger] method_names@[k]).0@ == self@.methods[k].0
                        && method_names@[k].1@ == self@.methods[k].1,
            decreases self.method_names.len() - i,
        {
            method_names.push((self.method_names[i].0.clone(), self.method_names[i].1.clone()));
            i = i + 1;
        }
        let r = MappingsBuilder { classes, field_names, method_names };
        proof {
            assert(r@ =~= self@);
        }
        r
    }
}

impl MappingsBuilder {
    /// Swap the direction of every table in place: renamed records
    /// become the keys, original names the values; descriptors of the
    /// new method keys are remapped through the old class table.
    pub fn reverse(&mut self)
        requires
            old(self).wf(),
        ensures
            final(self)@ == rev_store_v(old(self)@),
            final(self).wf(),
    {
        let ghost b = self@;
        let mut new_methods: Vec<(MethodData, String)> = Vec::new();
        let mut i: usize = 0;
        while i < self.method_names.len()
            invariant
                i <= self.method_names.len(),
                b == self@,
                self.wf(),
                method_table_v(new_methods@) == insert_all(
                    Seq::empty(),
                    reversed_methods_v(b).take(i as int),
                ),
            decreases self.method_names.len() - i,
        {
            proof {
                assert(wf_method_v(b.methods[i as int].0));
                lemma_wf_store_class_values(b);
            }
            let new_key = MethodData {
                class: self.get_class(&self.method_names[i].0.class),
                name: self.method_names[i].1.clone(),
                signature: self.remap_signature(&self.method_names[i].0.signature),
            };
            let orig_name = self.method_names[i].0.name.clone();
            proof {
                assert(reversed_methods_v(b)[i as int] == (new_key@, orig_name@));
            }
            upsert_method_entry(&mut new_methods, new_key, orig_name);
            proof {
                assert(reversed_methods_v(b).take(i + 1) =~= reversed_methods_v(b).take(
                    i as int,
                ).push(reversed_methods_v(b)[i as int]));
                lemma_insert_all_snoc(
                    Seq::empty(),
                    reversed_methods_v(b).take(i as int),
                    reversed_methods_v(b)[i as int],
                );
            }
            i = i + 1;
        }
        proof {
            assert(reversed_methods_v(b).take(b.methods.len() as int) =~= reversed_methods_v(b));
        }
        let mut new_fields: Vec<(FieldData, String)> = Vec::new();
        let mut i: usize = 0;
        while i < self.field_names.len()
            invariant
                i <= self.field_names.len(),
                b == self@,
                self.wf(),
                method_table_v(new_methods@) == insert_all(Seq::empty(), reversed_methods_v(b)),
                field_table_v(new_fields@) == insert_all(
                    Seq::empty(),
                    reversed_fields_v(b).take(i as int),
                ),
            decreases self.field_names.len() - i,
        {
            let new_key = FieldData {
                class: self.get_class(&self.field_names[i].0.class),
                name: self.field_names[i].1.clone(),
            };
            let orig_name = self.field_names[i].0.name.clone();
            proof {
                assert(reversed_fields_v(b)[i as int] == (new_key@, orig_name@));
            }
            upsert_field_entry(&mut new_fields, new_key, orig_name);
            proof {
                assert(reversed_fields_v(b).take(i + 1) =~= reversed_fields_v(b).take(
                    i as int,
                ).push(reversed_fields_v(b)[i as int]));
                lemma_insert_all_snoc(
                    Seq::empty(),
                    reversed_fields_v(b).take(i as int),
                    reversed_fields_v(b)[i as int],
                );
            }
            i = i + 1;
        }
        proof {
            assert(reversed_fields_v(b).take(b.fields.len() as int) =~= reversed_fields_v(b));
        }
        let mut new_classes: Vec<(JavaClass, JavaClass)> = Vec::new();
        let mut i: usize = 0;
        while i < self.classes.len()
            invariant
                i <= self.classes.len(),
                b == self@,
                method_table_v(new_methods@) == insert_all(Seq::empty(), reversed_methods_v(b)),
                field_table_v(new_fields@) == insert_all(Seq::empty(), reversed_fields_v(b)),
                class_table_v(new_classes@) == insert_all(
                    Seq::empty(),
                    swap_pairs(b.classes).take(i as int),
                ),
            decreases self.classes.len() - i,
        {
            let new_key = self.classes[i].1.clone();
            let new_value = self.classes[i].0.clone();
            proof {
                assert(swap_pairs(b.classes)[i as int] == (new_key@, new_value@));
            }
            upsert_class_entry(&mut new_classes, new_key, new_value);
            proof {
                assert(swap_pairs(b.classes).take(i + 1) =~= swap_pairs(b.classes).take(
                    i as int,
                ).push(swap_pairs(b.classes)[i as int]));
                lemma_insert_all_snoc(
                    Seq::empty(),
                    swap_pairs(b.classes).take(i as int),
                    swap_pairs(b.classes)[i as int],
                );
            }
            i = i + 1;
        }
        proof {
            assert(reversed_methods_v(b).take(b.methods.len() as int) =~= reversed_methods_v(b));
            assert(reversed_fields_v(b).take(b.fields.len() as int) =~= reversed_fields_v(b));
            assert(swap_pairs(b.classes).take(b.classes.len() as int) =~= swap_pairs(b.classes));
        }
        self.method_names = new_methods;
        self.field_names = new_fields;
        self.classes = new_classes;
        proof {
            assert(self@ =~= rev_store_v(b));
            lemma_rev_store_wf(b);
        }
    }

    /// Compose the other store onto this one: every entry of `other` is
    /// inserted after translating its original side back through a
    /// snapshot of this store reversed; an original the reverse snapshot
    /// does not know passes through unchanged.
    pub fn chain(&mut self, other: &MappingsBuilder)
        requires
            old(self).wf(),
            other.wf(),
        ensures
            final(self)@.classes == insert_all(
                old(self)@.classes,
                chained_class_items(chain_rev(old(self)@), other@.classes),
            ),
            final(self)@.fields == insert_all(
                old(self)@.fields,
                chained_field_items(chain_rev(old(self)@), other@.fields),
            ),
            final(self)@.methods == insert_all(
                old(self)@.methods,
                chained_method_items(chain_rev(old(self)@), other@.methods),
            ),
            final(self)@ == chain_image(old(self)@, other@),
            final(self).wf(),
    {
        let ghost b0 = self@;
        let ghost ob = other@;
        let mut reversed_builder = self.clone();
        reversed_builder.reverse();
        let rev = reversed_builder.snapshot();
        proof {
            assert(rev@ == chain_rev(b0));
            lemma_rev_store_wf(b0);
        }
        let ghost rs = chain_rev(b0);
        let mut i: usize = 0;
        while i < other.classes.len()
            invariant
                i <= other.classes.len(),
                ob == other@,
                rev@ == rs,
                rs == chain_rev(b0),
                self@.fields == b0.fields,
                self@.methods == b0.methods,
                self@.classes == insert_all(
                    b0.classes,
                    chained_class_items(rs, ob.classes).take(i as int),
                ),
            decreases other.classes.len() - i,
        {
            let a = match rev.try_get_class(&other.classes[i].0) {
                Some(c) => c,
                None => other.classes[i].0.clone(),
            };
            let cy = other.classes[i].1.clone();
            proof {
                assert(chained_class_items(rs, ob.classes)[i as int] == (a@, cy@));
            }
            upsert_class_entry(&mut self.classes, a, cy);
            proof {
                assert(chained_class_items(rs, ob.classes).take(i + 1) =~= chained_class_items(
                    rs,
                    ob.classes,
                ).take(i as int).push(chained_class_items(rs, ob.classes)[i as int]));
                lemma_insert_all_snoc(
                    b0.classes,
                    chained_class_items(rs, ob.classes).take(i as int),
                    chained_class_items(rs, ob.classes)[i as int],
                );
            }
            i = i + 1;
        }
        proof {
            assert(chained_class_items(rs, ob.classes).take(ob.classes.len() as int)
                =~= chained_class_items(rs, ob.classes));
        }
        let mut i: usize = 0;
        while i < other.field_names.len()
            invariant
                i <= other.field_names.len(),
                ob == other@,
                rev@ == rs,
                rs == chain_rev(b0),
                self@.methods == b0.methods,
                self@.classes == insert_all(b0.classes, chained_class_items(rs, ob.classes)),
                self@.fields == insert_all(
                    b0.fields,
                    chained_field_items(rs, ob.fields).take(i as int),
                ),
            decreases other.field_names.len() - i,
        {
            let a_field = rev.get_field(&other.field_names[i].0);
            let nm = other.field_names[i].1.clone();
            proof {
                assert(chained_field_items(rs, ob.fields)[i as int] == (a_field@, nm@));
            }
            upsert_field_entry(&mut self.field_names, a_field, nm);
            proof {
                assert(chained_field_items(rs, ob.fields).take(i + 1) =~= chained_field_items(
                    rs,
                    ob.fields,
                ).take(i as int).push(chained_field_items(rs, ob.fields)[i as int]));
                lemma_insert_all_snoc(
                    b0.fields,
                    chained_field_items(rs, ob.fields).take(i as int),
                    chained_field_items(rs, ob.fields)[i as int],
                );
            }
            i = i + 1;
        }
        proof {
            assert(chained_field_items(rs, ob.fields).take(ob.fields.len() as int)
                =~= chained_field_items(rs, ob.fields));
        }
        let mut i: usize = 0;
        while i < other.method_names.len()
            invariant
                i <= other.method_names.len(),
                ob == other@,
                other.wf(),
                rev@ == rs,
                rs == chain_rev(b0),
                rev.wf(),
                self@.classes == insert_all(b0.classes, chained_class_items(rs, ob.classes)),
                self@.fields == insert_all(b0.fields, chained_field_items(rs, ob.fields)),
                self@.methods == insert_all(
                    b0.methods,
                    chained_method_items(rs, ob.methods).take(i as int),
                ),
            decreases other.method_names.len() - i,
        {
            proof {
                assert(wf_method_v(ob.methods[i as int].0));
            }
            let a_method = rev.get_method(&other.method_names[i].0);
            let nm = other.method_names[i].1.clone();
            proof {
                assert(chained_method_items(rs, ob.methods)[i as int] == (a_method@, nm@));
            }
            upsert_method_entry(&mut self.method_names, a_method, nm);
            proof {
                assert(chained_method_items(rs, ob.methods).take(i + 1) =~= chained_method_items(
                    rs,
                    ob.methods,
                ).take(i as int).push(chained_method_items(rs, ob.methods)[i as int]));
                lemma_insert_all_snoc(
                    b0.methods,
                    chained_method_items(rs, ob.methods).take(i as int),
                    chained_method_items(rs, ob.methods)[i as int],
                );
            }
            i = i + 1;
        }
        proof {
            assert(chained_class_items(rs, ob.classes).take(ob.classes.len() as int)
                =~= chained_class_items(rs, ob.classes));
            assert(chained_field_items(rs, ob.fields).take(ob.fields.len() as int)
                =~= chained_field_items(rs, ob.fields));
            assert(chained_method_items(rs, ob.methods).take(ob.methods.len() as int)
                =~= chained_method_items(rs, ob.methods));
            lemma_chain_wf(b0, ob);
            assert(wf_store(self@));
            assert(self@ =~= chain_image(b0, ob));
        }
    }
}

/// The chained store is well formed.
pub proof fn lemma_chain_wf(b0: StoreV, ob: StoreV)
    requires
        wf_store(b0),
        wf_store(ob),
    ensures
        wf_store(
            StoreV {
                classes: insert_all(
                    b0.classes,
                    chained_class_items(chain_rev(b0), ob.classes),
                ),
                fields: insert_all(b0.fields, chained_field_items(chain_rev(b0), ob.fields)),
                methods: insert_all(
                    b0.methods,
                    chained_method_items(chain_rev(b0), ob.methods),
                ),
            },
        ),
{
    let rs = chain_rev(b0);
    lemma_rev_store_wf(b0);
    lemma_wf_store_class_values(rev_store_v(b0));
    let wc = |pr: (Seq<char>, Seq<char>)| wf_class_chars(pr.0) && wf_class_chars(pr.1);
    assert forall|i: int| 0 <= i < b0.classes.len() implies wc(#[trigger] b0.classes[i]) by {
        assert(wf_class_chars(b0.classes[i].0));
    }
    assert forall|i: int| 0 <= i < chained_class_items(rs, ob.classes).len() implies wc(
        #[trigger] chained_class_items(rs, ob.classes)[i],
    ) by {
        assert(wf_class_chars(ob.classes[i].0));
        lemma_remap_class_wf(rs.classes, ob.classes[i].0);
    }
    lemma_insert_all_props(b0.classes, chained_class_items(rs, ob.classes), wc);
    let wfp = |pr: (FieldDataV, Seq<char>)| wf_field_v(pr.0) && wf_member_chars(pr.1);
    assert forall|i: int| 0 <= i < b0.fields.len() implies wfp(#[trigger] b0.fields[i]) by {
        assert(wf_field_v(b0.fields[i].0));
    }
    assert forall|i: int| 0 <= i < chained_field_items(rs, ob.fields).len() implies wfp(
        #[trigger] chained_field_items(rs, ob.fields)[i],
    ) by {
        assert(wf_field_v(ob.fields[i].0));
        lemma_spec_get_field_wf(rev_store_v(b0), ob.fields[i].0);
    }
    lemma_insert_all_props(b0.fields, chained_field_items(rs, ob.fields), wfp);
    let wmp = |pr: (MethodDataV, Seq<char>)| wf_method_v(pr.0) && wf_member_chars(pr.1);
    assert forall|i: int| 0 <= i < b0.methods.len() implies wmp(#[trigger] b0.methods[i]) by {
        assert(wf_method_v(b0.methods[i].0));
    }
    assert forall|i: int| 0 <= i < chained_method_items(rs, ob.methods).len() implies wmp(
        #[trigger] chained_method_items(rs, ob.methods)[i],
    ) by {
        assert(wf_method_v(ob.methods[i].0));
        lemma_spec_get_method_wf(rev_store_v(b0), ob.methods[i].0);
    }
    lemma_insert_all_props(b0.methods, chained_method_items(rs, ob.methods), wmp);
    let c = StoreV {
        classes: insert_all(b0.classes, chained_class_items(rs, ob.classes)),
        fields: insert_all(b0.fields, chained_field_items(rs, ob.fields)),
        methods: insert_all(b0.methods, chained_method_items(rs, ob.methods)),
    };
    assert forall|i: int| 0 <= i < c.classes.len() implies wf_class_chars(#[trigger] c.classes[i].0)
        && wf_class_chars(c.classes[i].1) by {
        assert(wc(c.classes[i]));
    }
    assert forall|i: int| 0 <= i < c.fields.len() implies wf_field_v(#[trigger] c.fields[i].0)
        && wf_member_chars(c.fields[i].1) by {
        assert(wfp(c.fields[i]));
    }
    assert forall|i: int| 0 <= i < c.methods.len() implies wf_method_v(#[trigger] c.methods[i].0)
        && wf_member_chars(c.methods[i].1) by {
        assert(wmp(c.methods[i]));
    }
}

// ---------------------------------------------------------------------
// Transformers
// ---------------------------------------------------------------------
/// A user hook renaming classes, fields and methods; `transform`
/// applies it across a store.
pub trait MappingsTransformer {
    /// The class renaming this hook performs, if any.
    spec fn class_hook(&self, original: Seq<char>) -> Option<Seq<char>>;

    /// The field renaming, applied to the revised record.
    spec fn field_hook(&self, revised: FieldDataV) -> Option<Seq<char>>;

    /// The method renaming, applied to the revised record.
    spec fn method_hook(&self, revised: MethodDataV) -> Option<Seq<char>>;

    fn transform_class(&self, original: &JavaClass) -> (r: Option<JavaClass>)
        ensures
            r is Some <==> self.class_hook(original@) is Some,
            r matches Some(c) ==> self.class_hook(original@) == Some(c@),
    ;

    fn transform_field(&self, revised: &FieldData) -> (r: Option<String>)
        ensures
            r is Some <==> self.field_hook(revised@) is Some,
            r matches Some(n) ==> self.field_hook(revised@) == Some(n@),
    ;

    fn transform_method(&self, revised: &MethodData) -> (r: Option<String>)
        ensures
            r is Some <==> self.method_hook(revised@) is Some,
            r matches Some(n) ==> self.method_hook(revised@) == Some(n@),
    ;
}

/// The hooks keep names well formed on well-formed inputs.
pub open spec fn transformer_wf<T: MappingsTransformer>(t: &T) -> bool {
    &&& (forall|c: Seq<char>|
        wf_class_chars(c) && (#[trigger] t.class_hook(c)) is Some ==> wf_class_chars(
            t.class_hook(c)->Some_0,
        ))
    &&& (forall|f: FieldDataV|
        wf_field_v(f) && (#[trigger] t.field_hook(f)) is Some ==> wf_member_chars(
            t.field_hook(f)->Some_0,
        ))
    &&& (forall|m: MethodDataV|
        wf_method_v(m) && (#[trigger] t.method_hook(m)) is Some ==> wf_member_chars(
            t.method_hook(m)->Some_0,
        ))
}

/// One class entry after `transform`: the hook sees the renamed side.
pub open spec fn transformed_class_value<T: MappingsTransformer>(
    t: &T,
    p: (Seq<char>, Seq<char>),
) -> (Seq<char>, Seq<char>) {
    match t.class_hook(p.1) {
        Some(n) => (p.0, n),
        None => p,
    }
}

/// The revised field record a hook sees: renamed name, class remapped.
pub open spec fn revised_field_v(b: StoreV, p: (FieldDataV, Seq<char>)) -> FieldDataV {
    FieldDataV { class: remap_class_v(b.classes, p.0.class), name: p.1 }
}

/// The revised method record a hook sees.
pub open spec fn revised_method_v(b: StoreV, p: (MethodDataV, Seq<char>)) -> MethodDataV {
    MethodDataV {
        class: remap_class_v(b.classes, p.0.class),
        name: p.1,
        descriptor: remap_descriptor_v(b.classes, p.0.descriptor),
    }
}

/// One field entry after `transform`.
pub open spec fn transformed_field_value<T: MappingsTransformer>(
    b: StoreV,
    t: &T,
    p: (FieldDataV, Seq<char>),
) -> (FieldDataV, Seq<char>) {
    match t.field_hook(revised_field_v(b, p)) {
        Some(n) => (p.0, n),
        None => p,
    }
}

/// One method entry after `transform`.
pub open spec fn transformed_method_value<T: MappingsTransformer>(
    b: StoreV,
    t: &T,
    p: (MethodDataV, Seq<char>),
) -> (MethodDataV, Seq<char>) {
    match t.method_hook(revised_method_v(b, p)) {
        Some(n) => (p.0, n),
        None => p,
    }
}

impl MappingsBuilder {
    /// Apply a transformer in place: fields first, then methods (with
    /// descriptors remapped for the hook's view), then the class table,
    /// so that the class hooks cannot disturb what the member hooks saw.
    pub fn transform<T: MappingsTransformer>(&mut self, t: &T)
        requires
            old(self).wf(),
            transformer_wf(t),
        ensures
            final(self)@.classes == old(self)@.classes.map_values(
                |p: (Seq<char>, Seq<char>)| transformed_class_value(t, p),
            ),
            final(self)@.fields == old(self)@.fields.map_values(
                |p: (FieldDataV, Seq<char>)| transformed_field_value(old(self)@, t, p),
            ),
            final(self)@.methods == old(self)@.methods.map_values(
                |p: (MethodDataV, Seq<char>)| transformed_method_value(old(self)@, t, p),
            ),
            final(self).wf(),
    {
        let ghost b = self@;
        let mut i: usize = 0;
        while i < self.field_names.len()
            invariant
                i <= self.field_names.len(),
                self@.classes == b.classes,
                self@.methods == b.methods,
                self@.fields.len() == b.fields.len(),
                wf_store(b),
                forall|k: int|
                    i <= k < b.fields.len() ==> #[trigger] self@.fields[k] == b.fields[k],
                forall|k: int|
                    0 <= k < i ==> #[trigger] self@.fields[k] == transformed_field_value(
                        b,
                        t,
                        b.fields[k],
                    ),
            decreases self.field_names.len() - i,
        {
            proof {
                assert(self@.fields[i as int] == b.fields[i as int]);
            }
            let revised = FieldData {
                class: self.get_class(&self.field_names[i].0.class),
                name: self.field_names[i].1.clone(),
            };
            proof {
                assert(revised@ == revised_field_v(b, b.fields[i as int]));
            }
            match t.transform_field(&revised) {
                Some(n) => {
                    let ghost pre = self@.fields;
                    let ghost names0 = self.field_names@;
                    let ghost nv = n@;
                    let key = self.field_names[i].0.clone();
                    proof {
                        assert(key@ == b.fields[i as int].0);
                    }
                    self.field_names[i] = (key, n);
                    proof {
                        assert forall|k: int|
                            0 <= k < pre.len() && k != i as int implies #[trigger] self@.fields[k]
                            == pre[k] by {
                            assert(self.field_names@[k] == names0[k]);
                        }
                        assert(self@.fields[i as int] == (b.fields[i as int].0, nv));
                    }
                },
                None => {},
            }
            i = i + 1;
        }
        let mut i: usize = 0;
        while i < self.method_names.len()
            invariant
                i <= self.method_names.len(),
                self@.classes == b.classes,
                self@.methods.len() == b.methods.len(),
                self@.fields == b.fields.map_values(
                    |p: (FieldDataV, Seq<char>)| transformed_field_value(b, t, p),
                ),
                wf_store(b),
                forall|k: int|
                    i <= k < b.methods.len() ==> #[trigger] self@.methods[k] == b.methods[k],
                forall|k: int|
                    0 <= k < i ==> #[trigger] self@.methods[k] == transformed_method_value(
                        b,
                        t,
                        b.methods[k],
                    ),
            decreases self.method_names.len() - i,
        {
            proof {
                assert(self@.methods[i as int] == b.methods[i as int]);
                assert(wf_method_v(b.methods[i as int].0));
                lemma_wf_store_class_values(b);
            }
            let revised = MethodData {
                class: self.get_class(&self.method_names[i].0.class),
                name: self.method_names[i].1.clone(),
                signature: self.remap_signature(&self.method_names[i].0.signature),
            };
            proof {
                assert(revised@ == revised_method_v(b, b.methods[i as int]));
            }
            match t.transform_method(&revised) {
                Some(n) => {
                    let ghost pre = self@.methods;
                    let ghost names0 = self.method_names@;
                    let ghost nv = n@;
                    let key = self.method_names[i].0.clone();
                    proof {
                        assert(key@ == b.methods[i as int].0);
                    }
                    self.method_names[i] = (key, n);
                    proof {
                        assert forall|k: int|
                            0 <= k < pre.len() && k != i as int implies #[trigger] self@.methods[k]
                            == pre[k] by {
                            assert(self.method_names@[k] == names0[k]);
                        }
                        assert(self@.methods[i as int] == (b.methods[i as int].0, nv));
                    }
                },
                None => {},
            }
            i = i + 1;
        }
        let mut i: usize = 0;
        while i < self.classes.len()
            invariant
                i <= self.classes.len(),
                self@.classes.len() == b.classes.len(),
                self@.fields == b.fields.map_values(
                    |p: (FieldDataV, Seq<char>)| transformed_field_value(b, t, p),
                ),
                self@.methods == b.methods.map_values(
                    |p: (MethodDataV, Seq<char>)| transformed_method_value(b, t, p),
                ),
                forall|k: int|
                    i <= k < b.classes.len() ==> #[trigger] self@.classes[k] == b.classes[k],
                forall|k: int|
                    0 <= k < i ==> #[trigger] self@.classes[k] == transformed_class_value(
                        t,
                        b.classes[k],
                    ),
            decreases self.classes.len() - i,
        {
            proof {
                assert(self@.classes[i as int] == b.classes[i as int]);
            }
            match t.transform_class(&self.classes[i].1) {
                Some(c2) => {
                    let ghost pre = self@.classes;
                    let ghost names0 = self.classes@;
                    let ghost nv = c2@;
                    let key = self.classes[i].0.clone();
                    proof {
                        assert(key@ == b.classes[i as int].0);
                    }
                    self.classes[i] = (key, c2);
                    proof {
                        assert forall|k: int|
                            0 <= k < pre.len() && k != i as int implies #[trigger] self@.classes[k]
                            == pre[k] by {
                            assert(self.classes@[k] == names0[k]);
                        }
                        assert(self@.classes[i as int] == (b.classes[i as int].0, nv));
                    }
                },
                None => {},
            }
            i = i + 1;
        }
        proof {
            assert(self@.classes =~= b.classes.map_values(
                |p: (Seq<char>, Seq<char>)| transformed_class_value(t, p),
            ));
            lemma_transformed_wf(b, t);
            let c = StoreV {
                classes: b.classes.map_values(
                    |p: (Seq<char>, Seq<char>)| transformed_class_value(t, p),
                ),
                fields: b.fields.map_values(
                    |p: (FieldDataV, Seq<char>)| transformed_field_value(b, t, p),
                ),
                methods: b.methods.map_values(
                    |p: (MethodDataV, Seq<char>)| transformed_method_value(b, t, p),
                ),
            };
            assert(self@ =~= c);
        }
    }
}

/// The transformed store is well formed.
pub proof fn lemma_transformed_wf<T: MappingsTransformer>(b: StoreV, t: &T)
    requires
        wf_store(b),
        transformer_wf(t),
    ensures
        wf_store(
            StoreV {
                classes: b.classes.map_values(
                    |p: (Seq<char>, Seq<char>)| transformed_class_value(t, p),
                ),
                fields: b.fields.map_values(
                    |p: (FieldDataV, Seq<char>)| transformed_field_value(b, t, p),
                ),
                methods: b.methods.map_values(
                    |p: (MethodDataV, Seq<char>)| transformed_method_value(b, t, p),
                ),
            },
        ),
{
    lemma_wf_store_class_values(b);
    let c = StoreV {
        classes: b.classes.map_values(|p: (Seq<char>, Seq<char>)| transformed_class_value(t, p)),
        fields: b.fields.map_values(
            |p: (FieldDataV, Seq<char>)| transformed_field_value(b, t, p),
        ),
        methods: b.methods.map_values(
            |p: (MethodDataV, Seq<char>)| transformed_method_value(b, t, p),
        ),
    };
    assert forall|i: int| 0 <= i < c.classes.len() implies wf_class_chars(#[trigger] c.classes[i].0)
        && wf_class_chars(c.classes[i].1) by {
        assert(c.classes[i] == transformed_class_value(t, b.classes[i]));
        assert(wf_class_chars(b.classes[i].0));
    }
    assert forall|i: int, j: int|
        0 <= i < j < c.classes.len() implies (#[trigger] c.classes[i]).0 != (
    #[trigger] c.classes[j]).0 by {
        assert(c.classes[i].0 == b.classes[i].0);
        assert(c.classes[j].0 == b.classes[j].0);
        assert(b.classes[i].0 != b.classes[j].0);
    }
    assert forall|i: int| 0 <= i < c.fields.len() implies wf_field_v(#[trigger] c.fields[i].0)
        && wf_member_chars(c.fields[i].1) by {
        assert(c.fields[i] == transformed_field_value(b, t, b.fields[i]));
        assert(wf_field_v(b.fields[i].0));
        lemma_remap_class_wf(b.classes, b.fields[i].0.class);
        assert(wf_field_v(revised_field_v(b, b.fields[i])));
    }
    assert forall|i: int, j: int|
        0 <= i < j < c.fields.len() implies (#[trigger] c.fields[i]).0 != (
    #[trigger] c.fields[j]).0 by {
        assert(c.fields[i].0 == b.fields[i].0);
        assert(c.fields[j].0 == b.fields[j].0);
        assert(b.fields[i].0 != b.fields[j].0);
    }
    assert forall|i: int| 0 <= i < c.methods.len() implies wf_method_v(#[trigger] c.methods[i].0)
        && wf_member_chars(c.methods[i].1) by {
        assert(c.methods[i] == transformed_method_value(b, t, b.methods[i]));
        assert(wf_method_v(b.methods[i].0));
        lemma_remap_class_wf(b.classes, b.methods[i].0.class);
        lemma_remap_descriptor_valid(b.classes, b.methods[i].0.descriptor);
        assert(wf_method_v(revised_method_v(b, b.methods[i])));
    }
    assert forall|i: int, j: int|
        0 <= i < j < c.methods.len() implies (#[trigger] c.methods[i]).0 != (
    #[trigger] c.methods[j]).0 by {
        assert(c.methods[i].0 == b.methods[i].0);
        assert(c.methods[j].0 == b.methods[j].0);
        assert(b.methods[i].0 != b.methods[j].0);
    }
}

/// Replaces one package prefix on every class the store renames to.
#[derive(Debug)]
pub struct PackageTransformer {
    pub original: String,
    pub renamed: String,
}

impl PackageTransformer {
    /// Build a transformer replacing prefix `original` with `renamed`;
    /// a non-empty replacement of the empty prefix gains a trailing
    /// slash.
    pub fn single(original: String, renamed: String) -> (r: PackageTransformer)
        ensures
            r.original@ == original@,
            r.renamed@ == (if original@.len() == 0 && renamed@.len() > 0 {
                renamed@ + seq!['/']
            } else {
                renamed@
            }),
    {
        let mut renamed = renamed;
        let ghost r0 = renamed@;
        if original.as_str().is_empty() && !renamed.as_str().is_empty() {
            crate::names::push_char(&mut renamed, '/');
            proof {
                assert(renamed@ =~= r0 + seq!['/']);
            }
        }
        PackageTransformer { original, renamed }
    }

    /// The configured replacement is usable as the head of an internal
    /// name.
    pub open spec fn wf(&self) -> bool {
        self.renamed@.len() > 0 && (forall|i: int|
            0 <= i < self.renamed@.len() ==> !crate::names::bad_name_char(self.renamed@[i]))
    }

    /// A well-configured package transformer keeps names well formed.
    pub proof fn lemma_transformer_wf(&self)
        requires
            self.wf(),
        ensures
            transformer_wf(self),
    {
        assert forall|c: Seq<char>|
            wf_class_chars(c) && (#[trigger] self.class_hook(c)) is Some implies wf_class_chars(
            self.class_hook(c)->Some_0,
        ) by {
            let n = self.class_hook(c)->Some_0;
            let plen = self.original@.len() as int;
            assert forall|i: int| 0 <= i < n.len() implies !crate::names::bad_name_char(
                n[i],
            ) by {
                if i >= self.renamed@.len() {
                    assert(n[i] == c[plen + (i - self.renamed@.len())]);
                }
            }
        }
    }
}

/// The package replacement a [`PackageTransformer`] performs, over its
/// two configured strings: a name starting with the prefix has it
/// replaced, any other name is left alone.
pub open spec fn package_hook(prefix: Seq<char>, renamed: Seq<char>, original: Seq<char>) -> Option<
    Seq<char>,
> {
    if original.len() >= prefix.len() && original.subrange(0, prefix.len() as int) == prefix {
        Some(renamed + original.skip(prefix.len() as int))
    } else {
        None
    }
}

impl MappingsTransformer for PackageTransformer {
    open spec fn class_hook(&self, original: Seq<char>) -> Option<Seq<char>> {
        package_hook(self.original@, self.renamed@, original)
    }

    open spec fn field_hook(&self, revised: FieldDataV) -> Option<Seq<char>> {
        None
    }

    open spec fn method_hook(&self, revised: MethodDataV) -> Option<Seq<char>> {
        None
    }

    fn transform_class(&self, original: &JavaClass) -> (r: Option<JavaClass>) {
        let name = original.internal_name();
        let prefix = self.original.as_str();
        let plen = prefix.unicode_len();
        let nlen = name.unicode_len();
        if nlen < plen {
            return None;
        }
        let mut i: usize = 0;
        while i < plen
            invariant
                i <= plen,
                plen == prefix@.len(),
                nlen == name@.len(),
                plen <= nlen,
                prefix@ == self.original@,
                name@ == original@,
                forall|j: int| 0 <= j < i ==> name@[j] == prefix@[j],
            decreases plen - i,
        {
            if name.get_char(i) != prefix.get_char(i) {
                proof {
                    assert(name@.subrange(0, plen as int)[i as int] != prefix@[i as int]);
                }
                return None;
            }
            i = i + 1;
        }
        proof {
            assert(name@.subrange(0, plen as int) =~= prefix@);
        }
        let mut out = String::new();
        out.append(self.renamed.as_str());
        out.append(name.substring_char(plen, nlen));
        proof {
            assert(out@ =~= self.renamed@ + name@.skip(plen as int));
        }
        Some(JavaClass { name: out })
    }

    fn transform_field(&self, revised: &FieldData) -> (r: Option<String>) {
        None
    }

    fn transform_method(&self, revised: &MethodData) -> (r: Option<String>) {
        None
    }
}

/// `get_method` on the snapshot of a well-formed store yields a
/// well-formed method.
pub proof fn lemma_spec_get_method_wf(b: StoreV, m: MethodDataV)
    requires
        wf_store(b),
        wf_method_v(m),
    ensures
        wf_method_v(spec_get_method(snapshot_of(b), m)),
{
    lemma_snapshot_wf_values(b);
    lemma_wf_store_class_values(b);
    let s = snapshot_of(b);
    lemma_find_key(s.methods, m);
    match find_key(s.methods, m) {
        Some(i) => {
            assert(spec_get_method(s, m) == s.methods[i].1);
        },
        None => {
            lemma_remap_class_wf(b.classes, m.class);
            lemma_remap_descriptor_valid(b.classes, m.descriptor);
        },
    }
}

// ---------------------------------------------------------------------
// Laws of the store
// ---------------------------------------------------------------------
/// A key absent from the base field table is absent from the snapshot's.
pub proof fn lemma_snapshot_assoc_none_field(b: StoreV, f: FieldDataV)
    requires
        assoc(b.fields, f) is None,
    ensures
        assoc(snapshot_of(b).fields, f) is None,
{
    lemma_find_key(b.fields, f);
    assert forall|j: int| 0 <= j < snapshot_of(b).fields.len() implies (#[trigger] snapshot_of(
        b,
    ).fields[j]).0 != f by {
        assert(snapshot_of(b).fields[j].0 == b.fields[j].0);
    }
    lemma_assoc_none(snapshot_of(b).fields, f);
}

/// Implicit class remap: a field key with no explicit renaming keeps
/// its name, and only its class is remapped through the class table.
pub proof fn lemma_implicit_field_remap(b: StoreV, f: FieldDataV)
    requires
        assoc(b.fields, f) is None,
    ensures
        spec_get_field(snapshot_of(b), f) == (FieldDataV {
            class: remap_class_v(b.classes, f.class),
            name: f.name,
        }),
{
    lemma_snapshot_assoc_none_field(b, f);
}

/// Descriptor consistency: whatever method key is looked up, the
/// descriptor `get_method` returns is the key's descriptor remapped
/// through the class table.
pub proof fn lemma_descriptor_consistency(b: StoreV, m: MethodDataV)
    ensures
        spec_get_method(snapshot_of(b), m).descriptor == remap_descriptor_v(
            b.classes,
            m.descriptor,
        ),
{
    let s = snapshot_of(b);
    lemma_find_key(s.methods, m);
    match find_key(s.methods, m) {
        Some(i) => {
            assert(assoc(s.methods, m) == Some(s.methods[i].1));
            assert(s.methods[i].0 == b.methods[i].0);
            assert(s.methods[i].1.descriptor == remap_descriptor_v(
                b.classes,
                b.methods[i].0.descriptor,
            ));
            assert(s.methods[i].0 == m);
            assert(b.methods[i].0.descriptor == m.descriptor);
        },
        None => {},
    }
}

/// Reversing twice restores the class table, provided no two classes
/// are renamed to the same name.  (The member tables key their reversed
/// entries by fully remapped records, so restoring them needs the class
/// table to cover every name they use; that direction is checked by the
/// tests on concrete stores.)
pub proof fn lemma_reverse_reverse_classes(b: StoreV)
    requires
        wf_store(b),
        unique_keys(swap_pairs(b.classes)),
    ensures
        rev_store_v(rev_store_v(b)).classes == b.classes,
{
    let c1 = swap_pairs(b.classes);
    assert forall|i: int, j: int|
        0 <= i < j < (Seq::<(Seq<char>, Seq<char>)>::empty() + c1).len() implies ((
    #[trigger] (Seq::<(Seq<char>, Seq<char>)>::empty() + c1)[i]).0 != (
    #[trigger] (Seq::<(Seq<char>, Seq<char>)>::empty() + c1)[j]).0) by {
        assert((Seq::<(Seq<char>, Seq<char>)>::empty() + c1)[i] == c1[i]);
        assert((Seq::<(Seq<char>, Seq<char>)>::empty() + c1)[j] == c1[j]);
        assert(c1[i].0 != c1[j].0);
    }
    lemma_insert_all_unique(Seq::empty(), c1);
    assert(Seq::<(Seq<char>, Seq<char>)>::empty() + c1 =~= c1);
    assert(rev_store_v(b).classes == c1);
    let c2 = swap_pairs(rev_store_v(b).classes);
    assert(c2 =~= b.classes);
    assert forall|i: int, j: int|
        0 <= i < j < (Seq::<(Seq<char>, Seq<char>)>::empty() + c2).len() implies ((
    #[trigger] (Seq::<(Seq<char>, Seq<char>)>::empty() + c2)[i]).0 != (
    #[trigger] (Seq::<(Seq<char>, Seq<char>)>::empty() + c2)[j]).0) by {
        assert((Seq::<(Seq<char>, Seq<char>)>::empty() + c2)[i] == b.classes[i]);
        assert((Seq::<(Seq<char>, Seq<char>)>::empty() + c2)[j] == b.classes[j]);
        assert(b.classes[i].0 != b.classes[j].0);
    }
    lemma_insert_all_unique(Seq::empty(), c2);
    assert(Seq::<(Seq<char>, Seq<char>)>::empty() + c2 =~= c2);
    assert(rev_store_v(rev_store_v(b)).classes == c2);
}

/// Chain identity, right: chaining the empty store onto `b` leaves
/// every table unchanged.
pub proof fn lemma_chain_empty_right(b: StoreV, e: StoreV)
    requires
        e.classes.len() == 0,
        e.fields.len() == 0,
        e.methods.len() == 0,
    ensures
        insert_all(b.classes, chained_class_items(chain_rev(b), e.classes)) == b.classes,
        insert_all(b.fields, chained_field_items(chain_rev(b), e.fields)) == b.fields,
        insert_all(b.methods, chained_method_items(chain_rev(b), e.methods)) == b.methods,
{
    assert(chained_class_items(chain_rev(b), e.classes).len() == 0);
    assert(chained_field_items(chain_rev(b), e.fields).len() == 0);
    assert(chained_method_items(chain_rev(b), e.methods).len() == 0);
}

/// Remapping through an empty class table changes no type.
pub proof fn lemma_remap_type_empty(t: JavaTypeV)
    ensures
        remap_type_v(Seq::empty(), t) == t,
{
    match t {
        JavaTypeV::Primitive(_) => {},
        JavaTypeV::Class(c) => {
            assert(assoc(Seq::<(Seq<char>, Seq<char>)>::empty(), c) is None);
        },
        JavaTypeV::Array { dimensions, element } => {
            match element {
                ElementTypeV::Primitive(_) => {},
                ElementTypeV::Class(c) => {
                    assert(assoc(Seq::<(Seq<char>, Seq<char>)>::empty(), c) is None);
                },
            }
        },
    }
}

/// Remapping through an empty class table changes no descriptor.
pub proof fn lemma_remap_descriptor_empty(d: Seq<char>)
    ensures
        remap_descriptor_v(Seq::empty(), d) == d,
{
    match spec_parse_sig(d) {
        None => {},
        Some(ps) => {
            let rps = remap_sig_v(Seq::empty(), ps);
            assert forall|i: int| 0 <= i < ps.parameter_types.len() implies #[trigger] rps
                .parameter_types[i] == ps.parameter_types[i] by {
                lemma_remap_type_empty(ps.parameter_types[i]);
            }
            assert(rps.parameter_types =~= ps.parameter_types);
            lemma_remap_type_empty(ps.return_type);
            assert(rps =~= ps);
            lemma_print_parse_sig(d);
        },
    }
}

/// Chain identity, left: chaining `o` onto the empty store copies
/// `o`'s tables entry for entry; nothing is translated and, since the
/// empty store renames no class, no descriptor changes.
pub proof fn lemma_chain_empty_left(e: StoreV, o: StoreV)
    requires
        e.classes.len() == 0,
        e.fields.len() == 0,
        e.methods.len() == 0,
        wf_store(o),
    ensures
        insert_all(e.classes, chained_class_items(chain_rev(e), o.classes)) == o.classes,
        insert_all(e.fields, chained_field_items(chain_rev(e), o.fields)) == o.fields,
        insert_all(e.methods, chained_method_items(chain_rev(e), o.methods)) == o.methods,
{
    let rs = chain_rev(e);
    assert(swap_pairs(e.classes).len() == 0);
    assert(reversed_fields_v(e).len() == 0);
    assert(reversed_methods_v(e).len() == 0);
    assert(rs.classes.len() == 0);
    assert(rs.fields.len() == 0);
    assert(rs.methods.len() == 0);
    assert forall|i: int| 0 <= i < o.classes.len() implies #[trigger] chained_class_items(
        rs,
        o.classes,
    )[i] == o.classes[i] by {
        assert(assoc(rs.classes, o.classes[i].0) is None);
    }
    assert(chained_class_items(rs, o.classes) =~= o.classes);
    assert forall|i: int| 0 <= i < o.fields.len() implies #[trigger] chained_field_items(
        rs,
        o.fields,
    )[i] == o.fields[i] by {
        assert(assoc(rs.fields, o.fields[i].0) is None);
        assert(assoc(rs.classes, o.fields[i].0.class) is None);
        assert(spec_get_field(rs, o.fields[i].0) =~= o.fields[i].0);
    }
    assert(chained_field_items(rs, o.fields) =~= o.fields);
    assert forall|i: int| 0 <= i < o.methods.len() implies #[trigger] chained_method_items(
        rs,
        o.methods,
    )[i] == o.methods[i] by {
        assert(assoc(rs.methods, o.methods[i].0) is None);
        assert(assoc(rs.classes, o.methods[i].0.class) is None);
        assert(rs.classes =~= Seq::<(Seq<char>, Seq<char>)>::empty());
        lemma_remap_descriptor_empty(o.methods[i].0.descriptor);
        assert(spec_get_method(rs, o.methods[i].0) =~= o.methods[i].0);
    }
    assert(chained_method_items(rs, o.methods) =~= o.methods);
    assert forall|i: int|
        0 <= i < (e.classes + o.classes).len() implies #[trigger] (e.classes + o.classes)[i]
        == o.classes[i] by {}
    assert forall|i: int, j: int|
        0 <= i < j < (e.classes + o.classes).len() implies (#[trigger] (e.classes + o.classes)[
    i]).0 != (#[trigger] (e.classes + o.classes)[j]).0 by {
        assert(o.classes[i].0 != o.classes[j].0);
    }
    lemma_insert_all_unique(e.classes, chained_class_items(rs, o.classes));
    assert(e.classes + chained_class_items(rs, o.classes) =~= o.classes);
    assert forall|i: int, j: int|
        0 <= i < j < (e.fields + o.fields).len() implies (#[trigger] (e.fields + o.fields)[
    i]).0 != (#[trigger] (e.fields + o.fields)[j]).0 by {
        assert((e.fields + o.fields)[i] == o.fields[i]);
        assert((e.fields + o.fields)[j] == o.fields[j]);
        assert(o.fields[i].0 != o.fields[j].0);
    }
    lemma_insert_all_unique(e.fields, chained_field_items(rs, o.fields));
    assert(e.fields + chained_field_items(rs, o.fields) =~= o.fields);
    assert forall|i: int, j: int|
        0 <= i < j < (e.methods + o.methods).len() implies (#[trigger] (e.methods + o.methods)[
    i]).0 != (#[trigger] (e.methods + o.methods)[j]).0 by {
        assert((e.methods + o.methods)[i] == o.methods[i]);
        assert((e.methods + o.methods)[j] == o.methods[j]);
        assert(o.methods[i].0 != o.methods[j].0);
    }
    lemma_insert_all_unique(e.methods, chained_method_items(rs, o.methods));
    assert(e.methods + chained_method_items(rs, o.methods) =~= o.methods);
}

} // verus!
