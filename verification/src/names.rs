//! Class names in JVM internal form and qualified member names.
//!
//! An internal name separates packages with `/`.  It is well formed when it
//! is non-empty and contains neither `.` (the separator of binary names)
//! nor `;` (the terminator of class references inside descriptors).

use vstd::prelude::*;
use vstd::string::StrSliceExecFns;
use vstd::string::StringExecFns;

verus! {

/// Relies on std's `String::push`: appends exactly the one character.
#[verifier::external_body]
pub(crate) fn push_char(s: &mut String, c: char)
    ensures
        final(s)@ == old(s)@.push(c),
{
    s.push(c);
}

/// A character that may not occur in a class name in internal form:
/// `.` separates packages only in binary names, and `;` terminates the
/// `L…;` class references inside descriptors, so a name holding either
/// could not be re-emitted into a descriptor.  Both are rejected
/// uniformly, the strict reading of the format.
pub open spec fn bad_name_char(c: char) -> bool {
    c == '.' || c == ';'
}

/// Well-formed class name in internal form: non-empty, without `.` or `;`.
pub open spec fn wf_class_chars(s: Seq<char>) -> bool {
    s.len() > 0 && (forall|i: int| 0 <= i < s.len() ==> !bad_name_char(s[i]))
}

/// Well-formed member (field or method) name: non-empty.
pub open spec fn wf_member_chars(s: Seq<char>) -> bool {
    s.len() > 0
}

/// Index of the last `/` in `s`, if any.
pub open spec fn last_slash(s: Seq<char>) -> Option<int>
    decreases s.len(),
{
    if s.len() == 0 {
        None
    } else if s[s.len() - 1] == '/' {
        Some(s.len() - 1)
    } else {
        last_slash(s.drop_last())
    }
}

/// `last_slash` returns the greatest index holding `/`, or `None` when
/// no character of `s` is `/`.
pub proof fn lemma_last_slash(s: Seq<char>)
    ensures
        match last_slash(s) {
            Some(i) => 0 <= i < s.len() && s[i] == '/' && (forall|j: int|
                i < j < s.len() ==> s[j] != '/'),
            None => forall|j: int| 0 <= j < s.len() ==> s[j] != '/',
        },
    decreases s.len(),
{
    if s.len() > 0 && s[s.len() - 1] != '/' {
        lemma_last_slash(s.drop_last());
        assert(forall|j: int| 0 <= j < s.len() - 1 ==> s.drop_last()[j] == s[j]);
    }
}

/// Failure of parsing an internal class name or a qualified member name.
#[derive(Copy, Clone, Debug, PartialEq, Eq, Structural)]
pub enum NameParseError {
    EmptyName,
    EmptyMemberName,
    EmptyClassName,
    MissingSeparator,
    UnexpectedDot(usize),
    UnexpectedSemicolon(usize),
}

/// A class name in JVM internal form, owned.
#[derive(Debug)]
pub struct JavaClass {
    pub name: String,
}

impl View for JavaClass {
    type V = Seq<char>;

    open spec fn view(&self) -> Seq<char> {
        self.name@
    }
}

impl Clone for JavaClass {
    fn clone(&self) -> (r: Self)
        ensures
            r == *self,
    {
        JavaClass { name: self.name.clone() }
    }
}

impl PartialEq for JavaClass {
    fn eq(&self, other: &JavaClass) -> (r: bool) {
        self.name == other.name
    }
}

impl vstd::std_specs::cmp::PartialEqSpecImpl for JavaClass {
    open spec fn obeys_eq_spec() -> bool {
        true
    }

    open spec fn eq_spec(&self, other: &JavaClass) -> bool {
        self@ == other@
    }
}

impl JavaClass {
    /// Wrap a name without checking it; the contracts of the store say
    /// where well-formedness is demanded.
    pub fn new(name: &str) -> (r: JavaClass)
        ensures
            r@ == name@,
    {
        JavaClass { name: String::from_str(name) }
    }

    /// The wrapped internal name.
    pub fn internal_name(&self) -> (r: &str)
        ensures
            r@ == self@,
    {
        self.name.as_str()
    }

    /// Parse an internal name, rejecting the empty string and any name
    /// holding `.` or `;`; the reported index is the first offender.
    /// The `;` rejection goes beyond the error kinds the format names:
    /// it is what keeps every accepted class name embeddable in a
    /// method descriptor.
    pub fn parse_internal_name(name: &str) -> (r: Result<JavaClass, NameParseError>)
        ensures
            r is Ok <==> wf_class_chars(name@),
            r matches Ok(c) ==> c@ == name@,
            name@.len() == 0 ==> r matches Err(NameParseError::EmptyClassName),
            r matches Err(NameParseError::UnexpectedDot(i)) ==> i < name@.len()
                && name@[i as int] == '.' && (forall|j: int|
                0 <= j < i ==> !bad_name_char(name@[j])),
            r matches Err(NameParseError::UnexpectedSemicolon(i)) ==> i < name@.len()
                && name@[i as int] == ';' && (forall|j: int|
                0 <= j < i ==> !bad_name_char(name@[j])),
            r is Err ==> (r matches Err(NameParseError::EmptyClassName) || (r matches Err(
                NameParseError::UnexpectedDot(_),
            )) || (r matches Err(NameParseError::UnexpectedSemicolon(_)))),
    {
        let len = name.unicode_len();
        if len == 0 {
            return Err(NameParseError::EmptyClassName);
        }
        let mut i: usize = 0;
        while i < len
            invariant
                i <= len,
                len == name@.len(),
                forall|j: int| 0 <= j < i ==> !bad_name_char(name@[j]),
            decreases len - i,
        {
            let c = name.get_char(i);
            if c == '.' {
                return Err(NameParseError::UnexpectedDot(i));
            }
            if c == ';' {
                return Err(NameParseError::UnexpectedSemicolon(i));
            }
            i = i + 1;
        }
        Ok(JavaClass { name: String::from_str(name) })
    }
}

/// Split a qualified member name at its last `/` into a class name and a
/// member name; both sides must be non-empty and the class side must be a
/// well-formed internal name.
pub fn parse_qualified_name(name: &str) -> (r: Result<(JavaClass, String), NameParseError>)
    ensures
        r is Ok <==> (match last_slash(name@) {
            Some(i) => wf_class_chars(name@.subrange(0, i)) && i + 1 < name@.len(),
            None => false,
        }),
        r matches Ok((c, m)) ==> (match last_slash(name@) {
            Some(i) => c@ == name@.subrange(0, i) && m@ == name@.subrange(
                i + 1,
                name@.len() as int,
            ) && wf_member_chars(m@),
            None => false,
        }),
        name@.len() == 0 ==> r matches Err(NameParseError::EmptyName),
        (name@.len() > 0 && last_slash(name@) is None) ==> r matches Err(
            NameParseError::MissingSeparator,
        ),
        (match last_slash(name@) {
            Some(i) => !wf_class_chars(name@.subrange(0, i)),
            None => false,
        }) ==> (r matches Err(NameParseError::EmptyClassName) || (r matches Err(
            NameParseError::UnexpectedDot(_),
        )) || (r matches Err(NameParseError::UnexpectedSemicolon(_)))),
        (match last_slash(name@) {
            Some(i) => wf_class_chars(name@.subrange(0, i)) && i + 1 == name@.len(),
            None => false,
        }) ==> r matches Err(NameParseError::EmptyMemberName),
{
    let len = name.unicode_len();
    if len == 0 {
        return Err(NameParseError::EmptyName);
    }
    let mut i: usize = 0;
    let mut last: Option<usize> = None;
    while i < len
        invariant
            i <= len,
            len == name@.len(),
            match last {
                Some(k) => k < i && name@[k as int] == '/' && (forall|j: int|
                    k < j < i ==> name@[j] != '/'),
                None => forall|j: int| 0 <= j < i ==> name@[j] != '/',
            },
        decreases len - i,
    {
        if name.get_char(i) == '/' {
            last = Some(i);
        }
        i = i + 1;
    }
    proof {
        lemma_last_slash(name@);
    }
    match last {
        None => Err(NameParseError::MissingSeparator),
        Some(k) => {
            assert(last_slash(name@) == Some(k as int));
            let class_part = name.substring_char(0, k);
            let class = JavaClass::parse_internal_name(class_part)?;
            if k + 1 == len {
                return Err(NameParseError::EmptyMemberName);
            }
            let member_part = name.substring_char(k + 1, len);
            Ok((class, String::from_str(member_part)))
        },
    }
}

/// The key of a field: owning class and field name.
#[derive(Debug)]
pub struct FieldData {
    pub class: JavaClass,
    pub name: String,
}

/// Ghost image of a `FieldData`.
#[verifier::ext_equal]
pub struct FieldDataV {
    pub class: Seq<char>,
    pub name: Seq<char>,
}

impl View for FieldData {
    type V = FieldDataV;

    open spec fn view(&self) -> FieldDataV {
        FieldDataV { class: self.class@, name: self.name@ }
    }
}

impl Clone for FieldData {
    fn clone(&self) -> (r: Self)
        ensures
            r == *self,
    {
        FieldData { class: self.class.clone(), name: self.name.clone() }
    }
}

impl PartialEq for FieldData {
    fn eq(&self, other: &FieldData) -> (r: bool) {
        self.class == other.class && self.name == other.name
    }
}

impl vstd::std_specs::cmp::PartialEqSpecImpl for FieldData {
    open spec fn obeys_eq_spec() -> bool {
        true
    }

    open spec fn eq_spec(&self, other: &FieldData) -> bool {
        self@ == other@
    }
}

/// A field key is well formed when its class name is a well-formed internal
/// name and its member name is non-empty.
pub open spec fn wf_field_v(f: FieldDataV) -> bool {
    wf_class_chars(f.class) && wf_member_chars(f.name)
}

impl FieldData {
    /// Parse a qualified field name such as `com/example/Packaged/exists`.
    pub fn parse_internal_name(name: &str) -> (r: Result<FieldData, NameParseError>)
        ensures
            r is Ok <==> parse_qualified_name_ok(name@),
            r matches Ok(f) ==> (match last_slash(name@) {
                Some(i) => f@.class == name@.subrange(0, i) && f@.name == name@.subrange(
                    i + 1,
                    name@.len() as int,
                ) && wf_field_v(f@),
                None => false,
            }),
            name@.len() == 0 ==> r matches Err(NameParseError::EmptyName),
            (name@.len() > 0 && last_slash(name@) is None) ==> r matches Err(
                NameParseError::MissingSeparator,
            ),
            (match last_slash(name@) {
                Some(i) => !wf_class_chars(name@.subrange(0, i)),
                None => false,
            }) ==> (r matches Err(NameParseError::EmptyClassName) || (r matches Err(
                NameParseError::UnexpectedDot(_),
            )) || (r matches Err(NameParseError::UnexpectedSemicolon(_)))),
            (match last_slash(name@) {
                Some(i) => wf_class_chars(name@.subrange(0, i)) && i + 1 == name@.len(),
                None => false,
            }) ==> r matches Err(NameParseError::EmptyMemberName),
    {
        let (class, member) = parse_qualified_name(name)?;
        Ok(FieldData { class, name: member })
    }
}

/// The inputs on which `parse_qualified_name` succeeds.
pub open spec fn parse_qualified_name_ok(s: Seq<char>) -> bool {
    match last_slash(s) {
        Some(i) => wf_class_chars(s.subrange(0, i)) && i + 1 < s.len(),
        None => false,
    }
}

} // verus!
