//! The range applier: rewrite a source file through a precomputed
//! index of byte spans, each referring to a field or method whose name
//! may be mapped.
//!
//! The output equals the source outside the spans; inside each span the
//! source must hold the referenced member's name, and the mapped name
//! replaces it.

use vstd::prelude::*;
use vstd::string::StrSliceExecFns;
use vstd::string::StringExecFns;
use vstd::utf8::encode_utf8;
use vstd::multiset::Multiset;

use crate::names::{JavaClass, FieldData, FieldDataV, NameParseError, parse_qualified_name,
    parse_qualified_name_ok};
use crate::descriptor::{MethodData, MethodDataV, MethodSignature, MethodDescriptorParseError,
    valid_sig};
use crate::store::{assoc, lemma_assoc_at, lemma_find_key, MappingsSnapshot, SnapshotV};
use crate::codec::{SimpleDecoder, BinaryMappingError, dec_u32, dec_str};
use crate::text::{member_class, member_name};

verus! {

broadcast use vstd::seq_lib::group_to_multiset_ensures, vstd::multiset::group_multiset_axioms,
    vstd::multiset::lemma_multiset_empty_len;

/// A half-open byte range `[start, end)` in a file.
#[derive(Copy, Clone, Eq, PartialEq, Hash, Structural, Debug)]
pub struct FileLocation {
    pub start: u32,
    pub end: u32,
}

impl FileLocation {
    /// Whether two ranges share a byte.
    pub fn has_overlap(&self, other: FileLocation) -> (r: bool)
        ensures
            r == if self.start > other.start {
                other.end > self.start
            } else {
                self.end > other.start
            },
    {
        if self.start > other.start {
            other.end > self.start
        } else {
            self.end > other.start
        }
    }

    /// The number of bytes the range spans.
    pub fn size(&self) -> (r: u32)
        requires
            self.start <= self.end,
        ensures
            r == self.end - self.start,
    {
        self.end - self.start
    }
}

/// A span referring to a field.
#[derive(Debug)]
pub struct FieldReference {
    pub location: FileLocation,
    pub referenced_field: FieldData,
}

/// A span referring to a method.
#[derive(Debug)]
pub struct MethodReference {
    pub location: FileLocation,
    pub referenced_method: MethodData,
}

impl Clone for FieldReference {
    fn clone(&self) -> (r: Self)
        ensures
            r@ == self@,
    {
        FieldReference { location: self.location, referenced_field: self.referenced_field.clone() }
    }
}

impl Clone for MethodReference {
    fn clone(&self) -> (r: Self)
        ensures
            r@ == self@,
    {
        MethodReference {
            location: self.location,
            referenced_method: self.referenced_method.clone(),
        }
    }
}

impl View for FieldReference {
    type V = (FileLocation, FieldDataV);

    open spec fn view(&self) -> (FileLocation, FieldDataV) {
        (self.location, self.referenced_field@)
    }
}

impl View for MethodReference {
    type V = (FileLocation, MethodDataV);

    open spec fn view(&self) -> (FileLocation, MethodDataV) {
        (self.location, self.referenced_method@)
    }
}

/// A span referring to either kind of member.
#[derive(Debug)]
pub enum MemberReference {
    Field(FieldReference),
    Method(MethodReference),
}

/// Ghost image of a [`MemberReference`].
pub enum MemberRefV {
    Field((FileLocation, FieldDataV)),
    Method((FileLocation, MethodDataV)),
}

impl View for MemberReference {
    type V = MemberRefV;

    open spec fn view(&self) -> MemberRefV {
        match self {
            MemberReference::Field(f) => MemberRefV::Field(f@),
            MemberReference::Method(m) => MemberRefV::Method(m@),
        }
    }
}

impl Clone for MemberReference {
    fn clone(&self) -> (r: Self)
        ensures
            r@ == self@,
    {
        match self {
            MemberReference::Field(f) => MemberReference::Field(f.clone()),
            MemberReference::Method(m) => MemberReference::Method(m.clone()),
        }
    }
}

pub open spec fn ref_loc(m: MemberRefV) -> FileLocation {
    match m {
        MemberRefV::Field(f) => f.0,
        MemberRefV::Method(f) => f.0,
    }
}

/// The referenced member's own name.
pub open spec fn ref_name(m: MemberRefV) -> Seq<char> {
    match m {
        MemberRefV::Field(f) => f.1.name,
        MemberRefV::Method(f) => f.1.name,
    }
}

/// The name the snapshot maps the member to: the recorded renamed name,
/// or the member's own name when none is recorded.
pub open spec fn mapped_ref_name(s: SnapshotV, m: MemberRefV) -> Seq<char> {
    match m {
        MemberRefV::Field(f) => match assoc(s.fields, f.1) {
            Some(rf) => rf.name,
            None => f.1.name,
        },
        MemberRefV::Method(f) => match assoc(s.methods, f.1) {
            Some(rm) => rm.name,
            None => f.1.name,
        },
    }
}

impl MemberReference {
    /// The member's own name.
    pub fn name(&self) -> (r: &str)
        ensures
            r@ == ref_name(self@),
    {
        match self {
            MemberReference::Field(f) => f.referenced_field.name.as_str(),
            MemberReference::Method(m) => m.referenced_method.name.as_str(),
        }
    }

    /// The span the reference covers.
    pub fn location(&self) -> (r: FileLocation)
        ensures
            r == ref_loc(self@),
    {
        match self {
            MemberReference::Field(f) => f.location,
            MemberReference::Method(m) => m.location,
        }
    }
}

/// The spans of one file, with an optional content hash.
#[derive(Debug)]
pub struct FileRanges {
    pub hash: Option<Vec<u8>>,
    pub field_references: Vec<FieldReference>,
    pub method_references: Vec<MethodReference>,
}

/// A whole reference index: spans per relative path.
#[derive(Debug)]
pub struct RangeMap {
    pub files: Vec<(String, FileRanges)>,
}

impl RangeMap {
    /// The spans of one file, if the index holds it.
    pub fn find_file(&self, name: &str) -> (r: Option<&FileRanges>)
        ensures
            r is Some <==> (exists|j: int|
                0 <= j < self.files@.len() && (#[trigger] self.files@[j]).0@ == name@),
    {
        let mut i: usize = 0;
        while i < self.files.len()
            invariant
                i <= self.files@.len(),
                forall|j: int| 0 <= j < i ==> (#[trigger] self.files@[j]).0@ != name@,
            decreases self.files@.len() - i,
        {
            if self.files[i].0 == String::from_str(name) {
                return Some(&self.files[i].1);
            }
            i = i + 1;
        }
        None
    }
}

/// The first index of a reference with minimal starting offset.
pub open spec fn min_start_index(rs: Seq<MemberRefV>) -> int
    decreases rs.len(),
{
    if rs.len() <= 1 {
        0
    } else {
        let i = min_start_index(rs.drop_last());
        if ref_loc(rs.last()).start < ref_loc(rs[i]).start {
            rs.len() - 1
        } else {
            i
        }
    }
}

/// `min_start_index` names the first position attaining the minimal start.
pub proof fn lemma_min_start_index(rs: Seq<MemberRefV>)
    requires
        rs.len() > 0,
    ensures
        0 <= min_start_index(rs) < rs.len(),
        forall|j: int|
            0 <= j < rs.len() ==> ref_loc(rs[min_start_index(rs)]).start <= ref_loc(
                #[trigger] rs[j],
            ).start,
        forall|j: int|
            0 <= j < min_start_index(rs) ==> ref_loc(rs[min_start_index(rs)]).start < ref_loc(
                #[trigger] rs[j],
            ).start,
    decreases rs.len(),
{
    if rs.len() > 1 {
        lemma_min_start_index(rs.drop_last());
        assert(forall|j: int| 0 <= j < rs.len() - 1 ==> rs.drop_last()[j] == rs[j]);
    }
}

/// A position with minimal start that is strictly below every earlier
/// start is `min_start_index`.
pub proof fn lemma_first_min_unique(rs: Seq<MemberRefV>, b: int)
    requires
        0 <= b < rs.len(),
        forall|j: int|
            0 <= j < rs.len() ==> ref_loc(rs[b]).start <= ref_loc(#[trigger] rs[j]).start,
        forall|j: int| 0 <= j < b ==> ref_loc(rs[b]).start < ref_loc(#[trigger] rs[j]).start,
    ensures
        b == min_start_index(rs),
{
    lemma_min_start_index(rs);
}

/// Selection order by starting offset: the first minimal-start reference,
/// then the sort of the rest.  Equal starts keep their relative order.
pub open spec fn spec_sort_refs(rs: Seq<MemberRefV>) -> Seq<MemberRefV>
    decreases rs.len(),
{
    if rs.len() == 0 {
        rs
    } else {
        let i = if 0 <= min_start_index(rs) < rs.len() {
            min_start_index(rs)
        } else {
            0
        };
        Seq::<MemberRefV>::empty().push(rs[i]) + spec_sort_refs(rs.remove(i))
    }
}

impl FileRanges {
    /// All references, in one list ordered by starting offset; equal
    /// starts keep field references before method references, each in
    /// input order.
    pub fn sorted(&self) -> (r: Vec<MemberReference>)
        ensures
            r@.len() == self.field_references@.len() + self.method_references@.len(),
            r@.map_values(|m: MemberReference| m@) == spec_sort_refs(
                self.field_references@.map_values(|f: FieldReference| MemberRefV::Field(f@))
                    + self.method_references@.map_values(
                    |m: MethodReference| MemberRefV::Method(m@),
                ),
            ),
            forall|i: int, j: int|
                0 <= i < j < r@.len() ==> ref_loc(#[trigger] r@[i]@).start <= ref_loc(
                    #[trigger] r@[j]@,
                ).start,
            r@.map_values(|m: MemberReference| m@).to_multiset()
                == self.field_references@.map_values(
                |f: FieldReference| MemberRefV::Field(f@),
            ).to_multiset().add(
                self.method_references@.map_values(
                    |m: MethodReference| MemberRefV::Method(m@),
                ).to_multiset(),
            ),
    {

        let ghost flen = self.field_references@.len() as int;
        let mut pending: Vec<MemberReference> = Vec::new();
        let mut i: usize = 0;
        while i < self.field_references.len()
            invariant
                i <= self.field_references@.len(),
                pending@.len() == i,
                forall|k: int|
                    0 <= k < i ==> (#[trigger] pending@[k])@ == MemberRefV::Field(
                        self.field_references@[k]@,
                    ),
            decreases self.field_references@.len() - i,
        {
            pending.push(MemberReference::Field(self.field_references[i].clone()));
            i = i + 1;
        }
        let mut i: usize = 0;
        while i < self.method_references.len()
            invariant
                i <= self.method_references@.len(),
                flen == self.field_references@.len(),
                pending@.len() == flen + i,
                forall|k: int|
                    0 <= k < flen ==> (#[trigger] pending@[k])@ == MemberRefV::Field(
                        self.field_references@[k]@,
                    ),
                forall|k: int|
                    flen <= k < flen + i ==> (#[trigger] pending@[k])@ == MemberRefV::Method(
                        self.method_references@[k - flen]@,
                    ),
            decreases self.method_references@.len() - i,
        {
            pending.push(MemberReference::Method(self.method_references[i].clone()));
            i = i + 1;
        }
        proof {
            assert(pending@.map_values(|m: MemberReference| m@) =~= self.field_references@.map_values(
                |f: FieldReference| MemberRefV::Field(f@),
            ) + self.method_references@.map_values(|m: MethodReference| MemberRefV::Method(m@)));
            vstd::seq_lib::lemma_multiset_commutative(
                self.field_references@.map_values(|f: FieldReference| MemberRefV::Field(f@)),
                self.method_references@.map_values(|m: MethodReference| MemberRefV::Method(m@)),
            );
        }
        let ghost init = pending@.map_values(|m: MemberReference| m@);
        let ghost total = pending@.map_values(|m: MemberReference| m@).to_multiset();
        let mut out: Vec<MemberReference> = Vec::new();
        proof {
            assert(out@.map_values(|m: MemberReference| m@) =~= Seq::<MemberRefV>::empty());
            assert(Seq::<MemberRefV>::empty().to_multiset().len() == 0);
            assert(Seq::<MemberRefV>::empty().to_multiset() =~= Multiset::<MemberRefV>::empty());
            assert(Multiset::<MemberRefV>::empty().add(total) =~= total);
            assert(Seq::<MemberRefV>::empty() + spec_sort_refs(init) =~= spec_sort_refs(init));
        }
        while pending.len() > 0
            invariant
                out@.map_values(|m: MemberReference| m@).to_multiset().add(
                    pending@.map_values(|m: MemberReference| m@).to_multiset(),
                ) == total,
                out@.len() + pending@.len() == total.len(),
                forall|i: int, j: int|
                    0 <= i < j < out@.len() ==> ref_loc(#[trigger] out@[i]@).start <= ref_loc(
                        #[trigger] out@[j]@,
                    ).start,
                forall|i: int, j: int|
                    0 <= i < out@.len() && 0 <= j < pending@.len() ==> ref_loc(
                        #[trigger] out@[i]@,
                    ).start <= ref_loc(#[trigger] pending@[j]@).start,
                spec_sort_refs(init) == out@.map_values(|m: MemberReference| m@)
                    + spec_sort_refs(pending@.map_values(|m: MemberReference| m@)),
            decreases pending@.len(),
        {
            let mut best: usize = 0;
            let mut k: usize = 1;
            while k < pending.len()
                invariant
                    best < k <= pending@.len(),
                    forall|j: int|
                        0 <= j < k ==> ref_loc(pending@[best as int]@).start <= ref_loc(
                            #[trigger] pending@[j]@,
                        ).start,
                    forall|j: int|
                        0 <= j < best ==> ref_loc(pending@[best as int]@).start < ref_loc(
                            #[trigger] pending@[j]@,
                        ).start,
                decreases pending@.len() - k,
            {
                if pending[k].location().start < pending[best].location().start {
                    best = k;
                }
                k = k + 1;
            }
            let ghost pv = pending@.map_values(|m: MemberReference| m@);
            let ghost ov = out@.map_values(|m: MemberReference| m@);
            let ghost pseq = pending@;
            let ghost oseq = out@;
            let x = pending.remove(best);
            out.push(x);
            proof {
                assert forall|k2: int|
                    0 <= k2 < pending@.len() implies (#[trigger] pending@[k2])@ == pv.remove(
                    best as int,
                )[k2] by {
                    if k2 < best {
                        assert(pending@[k2] == pseq[k2]);
                        assert(pv.remove(best as int)[k2] == pv[k2]);
                        assert(pv[k2] == pseq[k2]@);
                    } else {
                        assert(pending@[k2] == pseq[k2 + 1]);
                        assert(pv.remove(best as int)[k2] == pv[k2 + 1]);
                        assert(pv[k2 + 1] == pseq[k2 + 1]@);
                    }
                }
                assert(pending@.map_values(|m: MemberReference| m@) =~= pv.remove(best as int));
                assert(x@ == pv[best as int]);
                assert forall|k2: int|
                    0 <= k2 < out@.len() implies (#[trigger] out@[k2])@ == ov.push(
                    pv[best as int],
                )[k2] by {
                    if k2 < oseq.len() {
                        assert(out@[k2] == oseq[k2]);
                        assert(ov[k2] == oseq[k2]@);
                    }
                }
                assert(out@.map_values(|m: MemberReference| m@) =~= ov.push(pv[best as int]));
                assert(pv.remove(best as int).to_multiset() =~= pv.to_multiset().remove(
                    pv[best as int],
                ));
                assert(ov.push(pv[best as int]).to_multiset() =~= ov.to_multiset().insert(
                    pv[best as int],
                ));
                assert(ov.to_multiset().insert(pv[best as int]).add(
                    pv.to_multiset().remove(pv[best as int]),
                ) =~= ov.to_multiset().add(pv.to_multiset()));
                assert forall|i2: int, j2: int|
                    0 <= i2 < out@.len() && 0 <= j2 < pending@.len() implies ref_loc(
                    #[trigger] out@[i2]@,
                ).start <= ref_loc(#[trigger] pending@[j2]@).start by {
                    if i2 < out@.len() - 1 {
                        assert(out@[i2]@ == ov[i2]);
                    }
                    if j2 < best {
                        assert(pending@[j2]@ == pv[j2]);
                    } else {
                        assert(pending@[j2]@ == pv[j2 + 1]);
                    }
                }
                assert forall|j2: int| 0 <= j2 < pv.len() implies ref_loc(
                    pv[best as int],
                ).start <= ref_loc(#[trigger] pv[j2]).start by {
                    assert(pv[j2] == pseq[j2]@);
                    assert(pv[best as int] == pseq[best as int]@);
                }
                assert forall|j2: int| 0 <= j2 < best as int implies ref_loc(
                    pv[best as int],
                ).start < ref_loc(#[trigger] pv[j2]).start by {
                    assert(pv[j2] == pseq[j2]@);
                    assert(pv[best as int] == pseq[best as int]@);
                }
                lemma_first_min_unique(pv, best as int);
                assert(spec_sort_refs(pv) == Seq::<MemberRefV>::empty().push(pv[best as int])
                    + spec_sort_refs(pv.remove(best as int)));
                assert(ov + (Seq::<MemberRefV>::empty().push(pv[best as int]) + spec_sort_refs(
                    pv.remove(best as int),
                )) =~= ov.push(pv[best as int]) + spec_sort_refs(pv.remove(best as int)));
            }
        }
        proof {
            assert(pending@.map_values(|m: MemberReference| m@) =~= Seq::<MemberRefV>::empty());
            assert(spec_sort_refs(init) =~= out@.map_values(|m: MemberReference| m@));
        }
        out
    }
}

// ---------------------------------------------------------------------
// Applying ranges
// ---------------------------------------------------------------------
/// Failure of applying a reference index to a file.
#[derive(Debug)]
pub enum RangeApplyError {
    /// A span starts before the previous one ended, or is inverted.
    OverlappingReference(FileLocation),
    /// A span reaches past the end of the file.
    OutOfBounds(FileLocation),
    /// The bytes in the span are not the referenced member's name.
    UnexpectedName(FileLocation),
}

/// The spans are in order, don't overlap, lie inside the file, and each
/// holds exactly the referenced member's name, starting from `pos`.
pub open spec fn apply_ok(src: Seq<u8>, rs: Seq<MemberRefV>, pos: int) -> bool
    decreases rs.len(),
{
    if rs.len() == 0 {
        true
    } else {
        let loc = ref_loc(rs[0]);
        &&& pos <= loc.start
        &&& loc.start <= loc.end
        &&& loc.end <= src.len()
        &&& src.subrange(loc.start as int, loc.end as int) == encode_utf8(ref_name(rs[0]))
        &&& apply_ok(src, rs.drop_first(), loc.end as int)
    }
}

/// The rewritten bytes from `pos` on: the source up to each span, then
/// the mapped name, then the rest.
pub open spec fn spec_apply(src: Seq<u8>, rs: Seq<MemberRefV>, s: SnapshotV, pos: int) -> Seq<u8>
    decreases rs.len(),
{
    if rs.len() == 0 {
        src.skip(pos)
    } else {
        let loc = ref_loc(rs[0]);
        src.subrange(pos, loc.start as int) + encode_utf8(mapped_ref_name(s, rs[0])) + spec_apply(
            src,
            rs.drop_first(),
            s,
            loc.end as int,
        )
    }
}

/// How many spans change: those whose mapped name differs from the
/// name in the file.
pub open spec fn spec_changed(rs: Seq<MemberRefV>, s: SnapshotV) -> int
    decreases rs.len(),
{
    if rs.len() == 0 {
        0
    } else {
        (if mapped_ref_name(s, rs[0]) != ref_name(rs[0]) {
            1int
        } else {
            0int
        }) + spec_changed(rs.drop_first(), s)
    }
}

pub proof fn lemma_spec_changed_bound(rs: Seq<MemberRefV>, s: SnapshotV)
    ensures
        0 <= spec_changed(rs, s) <= rs.len(),
    decreases rs.len(),
{
    if rs.len() > 0 {
        lemma_spec_changed_bound(rs.drop_first(), s);
    }
}

/// Append `input[from, to)` to `out`.
fn push_region(out: &mut Vec<u8>, input: &Vec<u8>, from: usize, to: usize)
    requires
        from <= to <= input@.len(),
    ensures
        final(out)@ == old(out)@ + input@.subrange(from as int, to as int),
{
    let ghost start = out@;
    let mut i: usize = from;
    while i < to
        invariant
            from <= i <= to <= input@.len(),
            out@ == start + input@.subrange(from as int, i as int),
        decreases to - i,
    {
        let b = input[i];
        out.push(b);
        proof {
            assert(out@ =~= start + input@.subrange(from as int, i + 1));
        }
        i = i + 1;
    }
    proof {
        assert(out@ =~= start + input@.subrange(from as int, to as int));
    }
}

/// Append the UTF-8 bytes of `s` to `out`.
fn push_str_bytes(out: &mut Vec<u8>, s: &str)
    ensures
        final(out)@ == old(out)@ + encode_utf8(s@),
{
    let ghost start = out@;
    let bytes = s.as_bytes();
    let mut i: usize = 0;
    while i < bytes.len()
        invariant
            i <= bytes@.len(),
            bytes@ == encode_utf8(s@),
            out@ == start + bytes@.take(i as int),
        decreases bytes@.len() - i,
    {
        let b = bytes[i];
        out.push(b);
        proof {
            assert(out@ =~= start + bytes@.take(i + 1));
        }
        i = i + 1;
    }
    proof {
        assert(bytes@.take(bytes@.len() as int) =~= bytes@);
    }
}

/// Whether `input[from, to)` holds exactly the UTF-8 bytes of `s`.
fn region_matches(input: &Vec<u8>, from: usize, to: usize, s: &str) -> (r: bool)
    requires
        from <= to <= input@.len(),
    ensures
        r == (input@.subrange(from as int, to as int) == encode_utf8(s@)),
{
    let bytes = s.as_bytes();
    if bytes.len() != to - from {
        proof {
            assert(input@.subrange(from as int, to as int).len() == to - from);
            assert(input@.subrange(from as int, to as int) != encode_utf8(s@));
        }
        return false;
    }
    let mut i: usize = 0;
    while i < bytes.len()
        invariant
            i <= bytes@.len(),
            bytes@ == encode_utf8(s@),
            bytes@.len() == to - from,
            from <= to <= input@.len(),
            forall|j: int| 0 <= j < i ==> input@[from + j] == bytes@[j],
        decreases bytes@.len() - i,
    {
        if input[from + i] != bytes[i] {
            proof {
                assert(input@.subrange(from as int, to as int)[i as int] != bytes@[i as int]);
            }
            return false;
        }
        i = i + 1;
    }
    proof {
        assert(input@.subrange(from as int, to as int) =~= bytes@);
    }
    true
}

/// Rewrites files through a mapping snapshot.
#[derive(Debug)]
pub struct RangeMapApplier<'a> {
    pub mappings: &'a MappingsSnapshot,
}

impl<'a> RangeMapApplier<'a> {
    pub fn new(mappings: &'a MappingsSnapshot) -> (r: RangeMapApplier<'a>)
        ensures
            r.mappings == mappings,
    {
        RangeMapApplier { mappings }
    }

    /// The name a reference maps to.
    fn remap_reference(&self, reference: &MemberReference) -> (r: String)
        ensures
            r@ == mapped_ref_name(self.mappings@, reference@),
    {
        match reference {
            MemberReference::Field(f) => {
                match self.mappings.try_get_field_name(&f.referenced_field) {
                    Some(n) => n,
                    None => f.referenced_field.name.clone(),
                }
            },
            MemberReference::Method(m) => {
                match self.mappings.try_get_method_name(&m.referenced_method) {
                    Some(n) => n,
                    None => m.referenced_method.name.clone(),
                }
            },
        }
    }

    /// Rewrite one file through an ordered reference list: the output
    /// equals the input outside the spans; each span must hold the
    /// referenced name and receives the mapped name; the count is the
    /// number of spans whose name changed.
    pub fn apply_sorted(&self, refs: &Vec<MemberReference>, input: &Vec<u8>) -> (r: Result<
        (Vec<u8>, usize),
        RangeApplyError,
    >)
        ensures
            r is Ok <==> apply_ok(input@, refs@.map_values(|m: MemberReference| m@), 0),
            r matches Ok((out, n)) ==> out@ == spec_apply(
                input@,
                refs@.map_values(|m: MemberReference| m@),
                self.mappings@,
                0,
            ) && n == spec_changed(refs@.map_values(|m: MemberReference| m@), self.mappings@),
    {
        let ghost rv = refs@.map_values(|m: MemberReference| m@);
        let ghost src = input@;
        let ghost snap = self.mappings@;
        let mut out: Vec<u8> = Vec::new();
        let mut pos: usize = 0;
        let mut changed: usize = 0;
        let mut i: usize = 0;
        proof {
            assert(rv.skip(0) =~= rv);
        }
        while i < refs.len()
            invariant
                i <= refs@.len(),
                rv == refs@.map_values(|m: MemberReference| m@),
                src == input@,
                snap == self.mappings@,
                pos <= src.len(),
                changed <= i,
                apply_ok(src, rv, 0) == apply_ok(src, rv.skip(i as int), pos as int),
                apply_ok(src, rv.skip(i as int), pos as int) ==> (spec_apply(src, rv, snap, 0)
                    == out@ + spec_apply(src, rv.skip(i as int), snap, pos as int)),
                changed == spec_changed(rv.take(i as int), snap),
            decreases refs@.len() - i,
        {
            proof {
                assert(rv.skip(i as int)[0] == refs@[i as int]@);
                assert(rv.skip(i as int).drop_first() =~= rv.skip(i + 1));
                assert(rv.take(i + 1) =~= rv.take(i as int).push(rv[i as int]));
                lemma_spec_changed_snoc(rv.take(i as int), rv[i as int], snap);
            }
            let loc = refs[i].location();
            if (loc.start as usize) < pos || loc.end < loc.start {
                return Err(RangeApplyError::OverlappingReference(loc));
            }
            if loc.end as usize > input.len() {
                return Err(RangeApplyError::OutOfBounds(loc));
            }
            let start = loc.start as usize;
            let end = loc.end as usize;
            if !region_matches(input, start, end, refs[i].name()) {
                return Err(RangeApplyError::UnexpectedName(loc));
            }
            push_region(&mut out, input, pos, start);
            let mapped = self.remap_reference(&refs[i]);
            push_str_bytes(&mut out, mapped.as_str());
            let own_name = match &refs[i] {
                MemberReference::Field(f) => &f.referenced_field.name,
                MemberReference::Method(m) => &m.referenced_method.name,
            };
            if !(mapped == *own_name) {
                changed = changed + 1;
            }
            pos = end;
            i = i + 1;
        }
        proof {
            assert(rv.skip(refs@.len() as int) =~= Seq::<MemberRefV>::empty());
            assert(rv.take(refs@.len() as int) =~= rv);
        }
        push_region(&mut out, input, pos, input.len());
        proof {
            assert(out@ =~= spec_apply(src, rv, snap, 0));
        }
        Ok((out, changed))
    }

    /// Rewrite one file: sort the file's references by starting
    /// offset, then apply them in that order.  Success iff the sorted
    /// spans are ordered, inside the file, and each holds its
    /// referenced name.
    pub fn apply(&self, ranges: &FileRanges, input: &Vec<u8>) -> (r: Result<
        (Vec<u8>, usize),
        RangeApplyError,
    >)
        ensures
            ({
                let rs = spec_sort_refs(
                    ranges.field_references@.map_values(|f: FieldReference| MemberRefV::Field(f@))
                        + ranges.method_references@.map_values(
                        |m: MethodReference| MemberRefV::Method(m@),
                    ),
                );
                &&& (r is Ok <==> apply_ok(input@, rs, 0))
                &&& (r matches Ok((out, n)) ==> out@ == spec_apply(input@, rs, self.mappings@, 0)
                    && n == spec_changed(rs, self.mappings@))
            }),
    {
        let refs = ranges.sorted();
        self.apply_sorted(&refs, input)
    }
}

pub proof fn lemma_spec_changed_snoc(rs: Seq<MemberRefV>, x: MemberRefV, s: SnapshotV)
    ensures
        spec_changed(rs.push(x), s) == spec_changed(rs, s) + (if mapped_ref_name(s, x) != ref_name(
            x,
        ) {
            1int
        } else {
            0int
        }),
    decreases rs.len(),
{
    if rs.len() == 0 {
        assert(rs.push(x)[0] == x);
        assert(rs.push(x).drop_first() =~= Seq::<MemberRefV>::empty());
        assert(spec_changed(rs.push(x), s) == (if mapped_ref_name(s, x) != ref_name(x) {
            1int
        } else {
            0int
        }) + spec_changed(rs.push(x).drop_first(), s));
        assert(spec_changed(rs.push(x).drop_first(), s) == 0);
        assert(spec_changed(rs, s) == 0);
    } else {
        assert(rs.push(x)[0] == rs[0]);
        assert(rs.push(x).drop_first() =~= rs.drop_first().push(x));
        lemma_spec_changed_snoc(rs.drop_first(), x, s);
        assert(spec_changed(rs.push(x), s) == (if mapped_ref_name(s, rs[0]) != ref_name(rs[0]) {
            1int
        } else {
            0int
        }) + spec_changed(rs.drop_first().push(x), s));
        assert(spec_changed(rs, s) == (if mapped_ref_name(s, rs[0]) != ref_name(rs[0]) {
            1int
        } else {
            0int
        }) + spec_changed(rs.drop_first(), s));
    }
}

// ---------------------------------------------------------------------
// Decoding references and assembling the index
// ---------------------------------------------------------------------
/// Failure of decoding one serialized reference.
#[derive(Debug)]
pub enum ReferenceDecodeError {
    Truncated,
    InvalidUtf8,
    InvalidName(NameParseError),
    InvalidDescriptor(MethodDescriptorParseError),
    TrailingBytes,
}

impl FieldReference {
    /// Decode one serialized field reference: start, end, and the
    /// qualified field name, spanning the whole buffer.
    pub fn decode_bytes(data: Vec<u8>) -> (r: Result<FieldReference, ReferenceDecodeError>)
        ensures
            r is Ok <==> (dec_u32(data@, 0) is Some && dec_u32(data@, 4) is Some && (match dec_str(
                data@,
                8,
            ) {
                Some(Ok((q, p2))) => p2 == data@.len() && parse_qualified_name_ok(q),
                _ => false,
            })),
            r matches Ok(fr) ==> (match (dec_u32(data@, 0), dec_u32(data@, 4)) {
                (Some((s0, _)), Some((e0, _))) => fr@.0.start == s0 && fr@.0.end == e0 && (match
                    dec_str(data@, 8) {
                    Some(Ok((q, p2))) => parse_qualified_name_ok(q) && fr@.1.class == member_class(
                        q,
                    ) && fr@.1.name == member_name(q) && p2 == data@.len(),
                    _ => false,
                }),
                _ => false,
            }),
    {
        let mut d = SimpleDecoder::new(data);
        let start = match d.read_u32() {
            Ok(v) => v,
            Err(_) => {
                return Err(ReferenceDecodeError::Truncated);
            },
        };
        let end = match d.read_u32() {
            Ok(v) => v,
            Err(_) => {
                return Err(ReferenceDecodeError::Truncated);
            },
        };
        let qualified = match d.read_string() {
            Ok(s) => s,
            Err(BinaryMappingError::InvalidUtf8) => {
                return Err(ReferenceDecodeError::InvalidUtf8);
            },
            Err(_) => {
                return Err(ReferenceDecodeError::Truncated);
            },
        };
        if d.remaining() != 0 {
            return Err(ReferenceDecodeError::TrailingBytes);
        }
        proof {
            crate::names::lemma_last_slash(qualified@);
        }
        let (class, name) = match parse_qualified_name(qualified.as_str()) {
            Ok(p) => p,
            Err(e) => {
                return Err(ReferenceDecodeError::InvalidName(e));
            },
        };
        Ok(
            FieldReference {
                location: FileLocation { start, end },
                referenced_field: FieldData { class, name },
            },
        )
    }
}

impl MethodReference {
    /// Decode one serialized method reference: start, end, the
    /// qualified method name and the descriptor, spanning the whole
    /// buffer.
    pub fn decode_bytes(data: Vec<u8>) -> (r: Result<MethodReference, ReferenceDecodeError>)
        ensures
            r is Ok <==> (dec_u32(data@, 0) is Some && dec_u32(data@, 4) is Some && (match dec_str(
                data@,
                8,
            ) {
                Some(Ok((q, p2))) => parse_qualified_name_ok(q) && (match dec_str(data@, p2) {
                    Some(Ok((d, p3))) => p3 == data@.len() && valid_sig(d),
                    _ => false,
                }),
                _ => false,
            })),
            r matches Ok(mr) ==> (match (dec_u32(data@, 0), dec_u32(data@, 4)) {
                (Some((s0, _)), Some((e0, _))) => mr@.0.start == s0 && mr@.0.end == e0 && (match
                    dec_str(data@, 8) {
                    Some(Ok((q, p2))) => parse_qualified_name_ok(q) && mr@.1.class == member_class(
                        q,
                    ) && mr@.1.name == member_name(q) && (match dec_str(data@, p2) {
                        Some(Ok((desc, p3))) => valid_sig(desc) && mr@.1.descriptor == desc && p3
                            == data@.len(),
                        _ => false,
                    }),
                    _ => false,
                }),
                _ => false,
            }),
    {
        let mut d = SimpleDecoder::new(data);
        let start = match d.read_u32() {
            Ok(v) => v,
            Err(_) => {
                return Err(ReferenceDecodeError::Truncated);
            },
        };
        let end = match d.read_u32() {
            Ok(v) => v,
            Err(_) => {
                return Err(ReferenceDecodeError::Truncated);
            },
        };
        let qualified = match d.read_string() {
            Ok(s) => s,
            Err(BinaryMappingError::InvalidUtf8) => {
                return Err(ReferenceDecodeError::InvalidUtf8);
            },
            Err(_) => {
                return Err(ReferenceDecodeError::Truncated);
            },
        };
        let descriptor = match d.read_string() {
            Ok(s) => s,
            Err(BinaryMappingError::InvalidUtf8) => {
                return Err(ReferenceDecodeError::InvalidUtf8);
            },
            Err(_) => {
                return Err(ReferenceDecodeError::Truncated);
            },
        };
        if d.remaining() != 0 {
            return Err(ReferenceDecodeError::TrailingBytes);
        }
        let signature = MethodSignature { descriptor };
        if let Err(e) = signature.parse() {
            return Err(ReferenceDecodeError::InvalidDescriptor(e));
        }
        proof {
            crate::names::lemma_last_slash(qualified@);
        }
        let (class, name) = match parse_qualified_name(qualified.as_str()) {
            Ok(p) => p,
            Err(e) => {
                return Err(ReferenceDecodeError::InvalidName(e));
            },
        };
        Ok(
            MethodReference {
                location: FileLocation { start, end },
                referenced_method: MethodData { class, name, signature },
            },
        )
    }
}

/// The hash table keyed by file name, in ghost form.
pub open spec fn hash_table_v(t: Seq<(String, Vec<u8>)>) -> Seq<(Seq<char>, Seq<u8>)> {
    t.map_values(|p: (String, Vec<u8>)| (p.0@, p.1@))
}

/// The field-reference table keyed by file name, in ghost form.
pub open spec fn field_table_v(t: Seq<(String, Vec<FieldReference>)>) -> Seq<
    (Seq<char>, Seq<(FileLocation, FieldDataV)>),
> {
    t.map_values(
        |p: (String, Vec<FieldReference>)| (p.0@, p.1@.map_values(|f: FieldReference| f@)),
    )
}

/// The method-reference table keyed by file name, in ghost form.
pub open spec fn method_table_v(t: Seq<(String, Vec<MethodReference>)>) -> Seq<
    (Seq<char>, Seq<(FileLocation, MethodDataV)>),
> {
    t.map_values(
        |p: (String, Vec<MethodReference>)| (p.0@, p.1@.map_values(|m: MethodReference| m@)),
    )
}

/// Whether the assembled list holds an entry for `name`.
pub open spec fn has_name(files: Seq<(String, FileRanges)>, name: Seq<char>) -> bool {
    exists|k: int| 0 <= k < files.len() && (#[trigger] files[k]).0@ == name
}

/// Whether any of the three tables names the file.
pub open spec fn name_in_tables(
    name: Seq<char>,
    hashes: Seq<(Seq<char>, Seq<u8>)>,
    fields: Seq<(Seq<char>, Seq<(FileLocation, FieldDataV)>)>,
    methods: Seq<(Seq<char>, Seq<(FileLocation, MethodDataV)>)>,
) -> bool {
    ||| exists|j: int| 0 <= j < hashes.len() && (#[trigger] hashes[j]).0 == name
    ||| exists|j: int| 0 <= j < fields.len() && (#[trigger] fields[j]).0 == name
    ||| exists|j: int| 0 <= j < methods.len() && (#[trigger] methods[j]).0 == name
}

/// An assembled entry holds exactly what the tables record under `name`:
/// the first hash listed for the file (or none), and the first field and
/// method lists (or empty ones).
pub open spec fn entry_matches(
    e: FileRanges,
    name: Seq<char>,
    hashes: Seq<(Seq<char>, Seq<u8>)>,
    fields: Seq<(Seq<char>, Seq<(FileLocation, FieldDataV)>)>,
    methods: Seq<(Seq<char>, Seq<(FileLocation, MethodDataV)>)>,
) -> bool {
    &&& (match e.hash {
        Some(h) => assoc(hashes, name) == Some(h@),
        None => assoc(hashes, name) is None,
    })
    &&& e.field_references@.map_values(|f: FieldReference| f@) == (match assoc(fields, name) {
        Some(l) => l,
        None => Seq::<(FileLocation, FieldDataV)>::empty(),
    })
    &&& e.method_references@.map_values(|m: MethodReference| m@) == (match assoc(methods, name) {
        Some(l) => l,
        None => Seq::<(FileLocation, MethodDataV)>::empty(),
    })
}

/// Assemble a reference index from its three per-file tables: every
/// file named by a hash, a field list or a method list appears exactly
/// once, carrying its hash and its references.
pub fn assemble_range_map(
    file_hashes: Vec<(String, Vec<u8>)>,
    field_references: Vec<(String, Vec<FieldReference>)>,
    method_references: Vec<(String, Vec<MethodReference>)>,
) -> (r: RangeMap)
    ensures
        forall|j: int, k: int|
            0 <= j < k < r.files@.len() ==> (#[trigger] r.files@[j]).0@ != (
            #[trigger] r.files@[k]).0@,
        forall|j: int|
            0 <= j < r.files@.len() ==> name_in_tables(
                (#[trigger] r.files@[j]).0@,
                hash_table_v(file_hashes@),
                field_table_v(field_references@),
                method_table_v(method_references@),
            ),
        forall|j: int|
            0 <= j < r.files@.len() ==> entry_matches(
                (#[trigger] r.files@[j]).1,
                r.files@[j].0@,
                hash_table_v(file_hashes@),
                field_table_v(field_references@),
                method_table_v(method_references@),
            ),
        forall|j: int|
            0 <= j < file_hashes@.len() ==> has_name(r.files@, (#[trigger] file_hashes@[j]).0@),
        forall|j: int|
            0 <= j < field_references@.len() ==> has_name(
                r.files@,
                (#[trigger] field_references@[j]).0@,
            ),
        forall|j: int|
            0 <= j < method_references@.len() ==> has_name(
                r.files@,
                (#[trigger] method_references@[j]).0@,
            ),
{
    let mut files: Vec<(String, FileRanges)> = Vec::new();
    let mut i: usize = 0;
    while i < file_hashes.len()
        invariant
            i <= file_hashes@.len(),
            forall|j: int, k: int|
                0 <= j < k < files@.len() ==> (#[trigger] files@[j]).0@ != (
                #[trigger] files@[k]).0@,
            forall|j: int|
                0 <= j < files@.len() ==> name_in_tables(
                    (#[trigger] files@[j]).0@,
                    hash_table_v(file_hashes@),
                    field_table_v(field_references@),
                    method_table_v(method_references@),
                ),
            forall|j: int|
                0 <= j < files@.len() ==> entry_matches(
                    (#[trigger] files@[j]).1,
                    files@[j].0@,
                    hash_table_v(file_hashes@),
                    field_table_v(field_references@),
                    method_table_v(method_references@),
                ),
            forall|j: int| 0 <= j < i ==> has_name(files@, (#[trigger] file_hashes@[j]).0@),
        decreases file_hashes@.len() - i,
    {
        let ghost pre = files@;
        push_file_entry(&mut files, &file_hashes[i].0, &file_hashes, &field_references,
            &method_references);
        proof {
            assert((#[trigger] hash_table_v(file_hashes@)[i as int]).0 == file_hashes@[
                i as int].0@);
            assert forall|j: int| 0 <= j <= i as int implies has_name(
                files@,
                (#[trigger] file_hashes@[j]).0@,
            ) by {
                if j < i as int {
                    lemma_has_name_extend(pre, files@, file_hashes@[j].0@);
                }
            }
            lemma_entry_props_extend(
                pre,
                files@,
                hash_table_v(file_hashes@),
                field_table_v(field_references@),
                method_table_v(method_references@),
            );
        }
        i = i + 1;
    }
    let mut i: usize = 0;
    while i < field_references.len()
        invariant
            i <= field_references@.len(),
            forall|j: int, k: int|
                0 <= j < k < files@.len() ==> (#[trigger] files@[j]).0@ != (
                #[trigger] files@[k]).0@,
            forall|j: int|
                0 <= j < files@.len() ==> name_in_tables(
                    (#[trigger] files@[j]).0@,
                    hash_table_v(file_hashes@),
                    field_table_v(field_references@),
                    method_table_v(method_references@),
                ),
            forall|j: int|
                0 <= j < files@.len() ==> entry_matches(
                    (#[trigger] files@[j]).1,
                    files@[j].0@,
                    hash_table_v(file_hashes@),
                    field_table_v(field_references@),
                    method_table_v(method_references@),
                ),
            forall|j: int| 0 <= j < file_hashes@.len() ==> has_name(files@, (#[trigger] file_hashes@[j]).0@),
            forall|j: int| 0 <= j < i ==> has_name(files@, (#[trigger] field_references@[j]).0@),
        decreases field_references@.len() - i,
    {
        let ghost pre = files@;
        push_file_entry(&mut files, &field_references[i].0, &file_hashes, &field_references,
            &method_references);
        proof {
            assert((#[trigger] field_table_v(field_references@)[i as int]).0 == field_references@[
                i as int].0@);
            assert forall|j: int| 0 <= j < file_hashes@.len() implies has_name(
                files@,
                (#[trigger] file_hashes@[j]).0@,
            ) by {
                lemma_has_name_extend(pre, files@, file_hashes@[j].0@);
            }
            assert forall|j: int| 0 <= j <= i as int implies has_name(
                files@,
                (#[trigger] field_references@[j]).0@,
            ) by {
                if j < i as int {
                    lemma_has_name_extend(pre, files@, field_references@[j].0@);
                }
            }
            lemma_entry_props_extend(
                pre,
                files@,
                hash_table_v(file_hashes@),
                field_table_v(field_references@),
                method_table_v(method_references@),
            );
        }
        i = i + 1;
    }
    let mut i: usize = 0;
    while i < method_references.len()
        invariant
            i <= method_references@.len(),
            forall|j: int, k: int|
                0 <= j < k < files@.len() ==> (#[trigger] files@[j]).0@ != (
                #[trigger] files@[k]).0@,
            forall|j: int|
                0 <= j < files@.len() ==> name_in_tables(
                    (#[trigger] files@[j]).0@,
                    hash_table_v(file_hashes@),
                    field_table_v(field_references@),
                    method_table_v(method_references@),
                ),
            forall|j: int|
                0 <= j < files@.len() ==> entry_matches(
                    (#[trigger] files@[j]).1,
                    files@[j].0@,
                    hash_table_v(file_hashes@),
                    field_table_v(field_references@),
                    method_table_v(method_references@),
                ),
            forall|j: int| 0 <= j < file_hashes@.len() ==> has_name(files@, (#[trigger] file_hashes@[j]).0@),
            forall|j: int|
                0 <= j < field_references@.len() ==> has_name(
                    files@,
                    (#[trigger] field_references@[j]).0@,
                ),
            forall|j: int| 0 <= j < i ==> has_name(files@, (#[trigger] method_references@[j]).0@),
        decreases method_references@.len() - i,
    {
        let ghost pre = files@;
        push_file_entry(&mut files, &method_references[i].0, &file_hashes, &field_references,
            &method_references);
        proof {
            assert((#[trigger] method_table_v(method_references@)[i as int]).0
                == method_references@[i as int].0@);
            assert forall|j: int| 0 <= j < file_hashes@.len() implies has_name(
                files@,
                (#[trigger] file_hashes@[j]).0@,
            ) by {
                lemma_has_name_extend(pre, files@, file_hashes@[j].0@);
            }
            assert forall|j: int| 0 <= j < field_references@.len() implies has_name(
                files@,
                (#[trigger] field_references@[j]).0@,
            ) by {
                lemma_has_name_extend(pre, files@, field_references@[j].0@);
            }
            assert forall|j: int| 0 <= j <= i as int implies has_name(
                files@,
                (#[trigger] method_references@[j]).0@,
            ) by {
                if j < i as int {
                    lemma_has_name_extend(pre, files@, method_references@[j].0@);
                }
            }
            lemma_entry_props_extend(
                pre,
                files@,
                hash_table_v(file_hashes@),
                field_table_v(field_references@),
                method_table_v(method_references@),
            );
        }
        i = i + 1;
    }
    RangeMap { files }
}

/// An entry for the name survives appending further entries.
proof fn lemma_has_name_extend(
    pre: Seq<(String, FileRanges)>,
    post: Seq<(String, FileRanges)>,
    name: Seq<char>,
)
    requires
        pre.len() <= post.len(),
        forall|j: int| 0 <= j < pre.len() ==> post[j] == pre[j],
        has_name(pre, name),
    ensures
        has_name(post, name),
{
    let k = choose|k: int| 0 <= k < pre.len() && (#[trigger] pre[k]).0@ == name;
    assert(post[k].0@ == name);
}

/// Per-entry facts survive appending further entries.
proof fn lemma_entry_props_extend(
    pre: Seq<(String, FileRanges)>,
    post: Seq<(String, FileRanges)>,
    hashes: Seq<(Seq<char>, Seq<u8>)>,
    fields: Seq<(Seq<char>, Seq<(FileLocation, FieldDataV)>)>,
    methods: Seq<(Seq<char>, Seq<(FileLocation, MethodDataV)>)>,
)
    requires
        pre.len() <= post.len(),
        forall|j: int| 0 <= j < pre.len() ==> post[j] == pre[j],
        forall|j: int|
            0 <= j < pre.len() ==> name_in_tables(
                (#[trigger] pre[j]).0@,
                hashes,
                fields,
                methods,
            ),
        forall|j: int|
            0 <= j < pre.len() ==> entry_matches(
                (#[trigger] pre[j]).1,
                pre[j].0@,
                hashes,
                fields,
                methods,
            ),
        forall|j: int|
            pre.len() <= j < post.len() ==> name_in_tables(
                (#[trigger] post[j]).0@,
                hashes,
                fields,
                methods,
            ),
        forall|j: int|
            pre.len() <= j < post.len() ==> entry_matches(
                (#[trigger] post[j]).1,
                post[j].0@,
                hashes,
                fields,
                methods,
            ),
    ensures
        forall|j: int|
            0 <= j < post.len() ==> name_in_tables(
                (#[trigger] post[j]).0@,
                hashes,
                fields,
                methods,
            ),
        forall|j: int|
            0 <= j < post.len() ==> entry_matches(
                (#[trigger] post[j]).1,
                post[j].0@,
                hashes,
                fields,
                methods,
            ),
{
    assert forall|j: int| 0 <= j < post.len() implies name_in_tables(
        (#[trigger] post[j]).0@,
        hashes,
        fields,
        methods,
    ) && entry_matches(post[j].1, post[j].0@, hashes, fields, methods) by {
        if j < pre.len() {
            assert(post[j] == pre[j]);
        }
    }
}

/// Add one file's entry, unless it is already present.  A fresh entry
/// carries the first hash and reference lists the tables record under
/// the name.
fn push_file_entry(
    files: &mut Vec<(String, FileRanges)>,
    name: &String,
    file_hashes: &Vec<(String, Vec<u8>)>,
    field_references: &Vec<(String, Vec<FieldReference>)>,
    method_references: &Vec<(String, Vec<MethodReference>)>,
)
    requires
        forall|j: int, k: int|
            0 <= j < k < old(files)@.len() ==> (#[trigger] old(files)@[j]).0@ != (
            #[trigger] old(files)@[k]).0@,
    ensures
        forall|j: int, k: int|
            0 <= j < k < final(files)@.len() ==> (#[trigger] final(files)@[j]).0@ != (
            #[trigger] final(files)@[k]).0@,
        old(files)@.len() <= final(files)@.len() <= old(files)@.len() + 1,
        forall|j: int| 0 <= j < old(files)@.len() ==> final(files)@[j] == old(files)@[j],
        has_name(final(files)@, name@),
        final(files)@.len() == old(files)@.len() + 1 ==> final(files)@.last().0@ == name@
            && entry_matches(
            final(files)@.last().1,
            name@,
            hash_table_v(file_hashes@),
            field_table_v(field_references@),
            method_table_v(method_references@),
        ),
{
    let mut i: usize = 0;
    while i < files.len()
        invariant
            i <= files@.len(),
            forall|j: int| 0 <= j < i ==> (#[trigger] files@[j]).0@ != name@,
            forall|j: int, k: int|
                0 <= j < k < files@.len() ==> (#[trigger] files@[j]).0@ != (
                #[trigger] files@[k]).0@,
            old(files) == files,
        decreases files@.len() - i,
    {
        if files[i].0 == *name {
            proof {
                assert((#[trigger] files@[i as int]).0@ == name@);
            }
            return ;
        }
        i = i + 1;
    }
    let mut hash: Option<Vec<u8>> = None;
    let mut j: usize = 0;
    while j < file_hashes.len()
        invariant
            j <= file_hashes@.len(),
            match hash {
                Some(h) => assoc(hash_table_v(file_hashes@), name@) == Some(h@),
                None => forall|k: int| 0 <= k < j ==> (#[trigger] file_hashes@[k]).0@ != name@,
            },
        decreases file_hashes@.len() - j,
    {
        if hash.is_none() && file_hashes[j].0 == *name {
            hash = Some(clone_bytes(&file_hashes[j].1));
            proof {
                assert forall|k: int| 0 <= k < j as int implies (#[trigger] hash_table_v(
                    file_hashes@,
                )[k]).0 != name@ by {
                    assert(hash_table_v(file_hashes@)[k].0 == file_hashes@[k].0@);
                }
                assert(hash_table_v(file_hashes@)[j as int] == (
                    file_hashes@[j as int].0@,
                    file_hashes@[j as int].1@,
                ));
                lemma_assoc_at(hash_table_v(file_hashes@), name@, j as int);
            }
        }
        j = j + 1;
    }
    proof {
        if hash is None {
            assert forall|k: int| 0 <= k < hash_table_v(file_hashes@).len() implies (
            #[trigger] hash_table_v(file_hashes@)[k]).0 != name@ by {
                assert(hash_table_v(file_hashes@)[k].0 == file_hashes@[k].0@);
            }
            lemma_find_key(hash_table_v(file_hashes@), name@);
        }
    }
    let mut frs: Vec<FieldReference> = Vec::new();
    let mut found_fields: bool = false;
    let mut j: usize = 0;
    while j < field_references.len()
        invariant
            j <= field_references@.len(),
            if found_fields {
                assoc(field_table_v(field_references@), name@) == Some(
                    frs@.map_values(|f: FieldReference| f@),
                )
            } else {
                frs@.len() == 0 && (forall|k: int|
                    0 <= k < j ==> (#[trigger] field_references@[k]).0@ != name@)
            },
        decreases field_references@.len() - j,
    {
        if !found_fields && field_references[j].0 == *name {
            frs = clone_field_refs(&field_references[j].1);
            found_fields = true;
            proof {
                assert forall|k: int| 0 <= k < j as int implies (#[trigger] field_table_v(
                    field_references@,
                )[k]).0 != name@ by {
                    assert(field_table_v(field_references@)[k].0 == field_references@[k].0@);
                }
                assert(field_table_v(field_references@)[j as int] == (
                    field_references@[j as int].0@,
                    field_references@[j as int].1@.map_values(|f: FieldReference| f@),
                ));
                lemma_assoc_at(field_table_v(field_references@), name@, j as int);
                assert(frs@.map_values(|f: FieldReference| f@) =~= field_references@[
                    j as int].1@.map_values(|f: FieldReference| f@));
            }
        }
        j = j + 1;
    }
    proof {
        if !found_fields {
            assert forall|k: int| 0 <= k < field_table_v(field_references@).len() implies (
            #[trigger] field_table_v(field_references@)[k]).0 != name@ by {
                assert(field_table_v(field_references@)[k].0 == field_references@[k].0@);
            }
            lemma_find_key(field_table_v(field_references@), name@);
            assert(frs@.map_values(|f: FieldReference| f@) =~= Seq::<
                (FileLocation, FieldDataV),
            >::empty());
        }
    }
    let mut mrs: Vec<MethodReference> = Vec::new();
    let mut found_methods: bool = false;
    let mut j: usize = 0;
    while j < method_references.len()
        invariant
            j <= method_references@.len(),
            if found_methods {
                assoc(method_table_v(method_references@), name@) == Some(
                    mrs@.map_values(|m: MethodReference| m@),
                )
            } else {
                mrs@.len() == 0 && (forall|k: int|
                    0 <= k < j ==> (#[trigger] method_references@[k]).0@ != name@)
            },
        decreases method_references@.len() - j,
    {
        if !found_methods && method_references[j].0 == *name {
            mrs = clone_method_refs(&method_references[j].1);
            found_methods = true;
            proof {
                assert forall|k: int| 0 <= k < j as int implies (#[trigger] method_table_v(
                    method_references@,
                )[k]).0 != name@ by {
                    assert(method_table_v(method_references@)[k].0 == method_references@[k].0@);
                }
                assert(method_table_v(method_references@)[j as int] == (
                    method_references@[j as int].0@,
                    method_references@[j as int].1@.map_values(|m: MethodReference| m@),
                ));
                lemma_assoc_at(method_table_v(method_references@), name@, j as int);
                assert(mrs@.map_values(|m: MethodReference| m@) =~= method_references@[
                    j as int].1@.map_values(|m: MethodReference| m@));
            }
        }
        j = j + 1;
    }
    proof {
        if !found_methods {
            assert forall|k: int| 0 <= k < method_table_v(method_references@).len() implies (
            #[trigger] method_table_v(method_references@)[k]).0 != name@ by {
                assert(method_table_v(method_references@)[k].0 == method_references@[k].0@);
            }
            lemma_find_key(method_table_v(method_references@), name@);
            assert(mrs@.map_values(|m: MethodReference| m@) =~= Seq::<
                (FileLocation, MethodDataV),
            >::empty());
        }
    }
    files.push(
        (
            name.clone(),
            FileRanges { hash, field_references: frs, method_references: mrs },
        ),
    );
    proof {
        assert((#[trigger] files@[files@.len() - 1]).0@ == name@);
    }
}

fn clone_bytes(v: &Vec<u8>) -> (r: Vec<u8>)
    ensures
        r@ == v@,
{
    let mut out: Vec<u8> = Vec::new();
    let mut i: usize = 0;
    while i < v.len()
        invariant
            i <= v@.len(),
            out@ == v@.take(i as int),
        decreases v@.len() - i,
    {
        let b = v[i];
        out.push(b);
        proof {
            assert(out@ =~= v@.take(i + 1));
        }
        i = i + 1;
    }
    proof {
        assert(v@.take(v@.len() as int) =~= v@);
    }
    out
}

fn clone_field_refs(v: &Vec<FieldReference>) -> (r: Vec<FieldReference>)
    ensures
        r@.len() == v@.len(),
        forall|i: int| 0 <= i < v@.len() ==> (#[trigger] r@[i])@ == v@[i]@,
{
    let mut out: Vec<FieldReference> = Vec::new();
    let mut i: usize = 0;
    while i < v.len()
        invariant
            i <= v@.len(),
            out@.len() == i,
            forall|k: int| 0 <= k < i ==> (#[trigger] out@[k])@ == v@[k]@,
        decreases v@.len() - i,
    {
        out.push(v[i].clone());
        i = i + 1;
    }
    out
}

fn clone_method_refs(v: &Vec<MethodReference>) -> (r: Vec<MethodReference>)
    ensures
        r@.len() == v@.len(),
        forall|i: int| 0 <= i < v@.len() ==> (#[trigger] r@[i])@ == v@[i]@,
{
    let mut out: Vec<MethodReference> = Vec::new();
    let mut i: usize = 0;
    while i < v.len()
        invariant
            i <= v@.len(),
            out@.len() == i,
            forall|k: int| 0 <= k < i ==> (#[trigger] out@[k])@ == v@[k]@,
        decreases v@.len() - i,
    {
        out.push(v[i].clone());
        i = i + 1;
    }
    out
}

} // verus!
