//! JVM type and method descriptors.
//!
//! The grammar is `Type = 'B'|'S'|'I'|'J'|'D'|'F'|'C'|'Z'|'V' | 'L' ClassName ';'
//! | '[' Type`, and a method descriptor is `'(' Type* ')' Type`.  Array
//! dimensions are folded into one count, so an array element is itself never
//! an array.  The spec-level parser ([`spec_parse_type`], [`spec_parse_sig`])
//! is the reference; the executable parser is proved to match it.

use vstd::prelude::*;
use vstd::string::StrSliceExecFns;
use vstd::string::StringExecFns;

use crate::names::{bad_name_char, wf_class_chars, JavaClass, NameParseError, parse_qualified_name,
    last_slash, wf_member_chars};

verus! {

/// The nine primitive JVM types, `Void` included.
#[derive(Copy, Clone, Debug, PartialEq, Eq, Hash, Structural)]
pub enum PrimitiveType {
    Byte,
    Short,
    Int,
    Long,
    Double,
    Float,
    Char,
    Boolean,
    Void,
}

/// The descriptor character of a primitive type.
pub open spec fn prim_char(p: PrimitiveType) -> char {
    match p {
        PrimitiveType::Byte => 'B',
        PrimitiveType::Short => 'S',
        PrimitiveType::Int => 'I',
        PrimitiveType::Long => 'J',
        PrimitiveType::Double => 'D',
        PrimitiveType::Float => 'F',
        PrimitiveType::Char => 'C',
        PrimitiveType::Boolean => 'Z',
        PrimitiveType::Void => 'V',
    }
}

/// The primitive type denoted by a descriptor character, if any.
pub open spec fn prim_of_char(c: char) -> Option<PrimitiveType> {
    if c == 'B' {
        Some(PrimitiveType::Byte)
    } else if c == 'S' {
        Some(PrimitiveType::Short)
    } else if c == 'I' {
        Some(PrimitiveType::Int)
    } else if c == 'J' {
        Some(PrimitiveType::Long)
    } else if c == 'D' {
        Some(PrimitiveType::Double)
    } else if c == 'F' {
        Some(PrimitiveType::Float)
    } else if c == 'C' {
        Some(PrimitiveType::Char)
    } else if c == 'Z' {
        Some(PrimitiveType::Boolean)
    } else if c == 'V' {
        Some(PrimitiveType::Void)
    } else {
        None
    }
}

pub broadcast proof fn lemma_prim_char_roundtrip(p: PrimitiveType)
    ensures
        #[trigger] prim_of_char(prim_char(p)) == Some(p),
{
}

impl PrimitiveType {
    /// The descriptor character of this primitive type.
    pub fn descriptor(&self) -> (c: char)
        ensures
            c == prim_char(*self),
    {
        match *self {
            PrimitiveType::Byte => 'B',
            PrimitiveType::Short => 'S',
            PrimitiveType::Int => 'I',
            PrimitiveType::Long => 'J',
            PrimitiveType::Double => 'D',
            PrimitiveType::Float => 'F',
            PrimitiveType::Char => 'C',
            PrimitiveType::Boolean => 'Z',
            PrimitiveType::Void => 'V',
        }
    }

    /// The primitive type denoted by `c`, if any.
    pub fn from_descriptor(c: char) -> (r: Option<PrimitiveType>)
        ensures
            r == prim_of_char(c),
    {
        match c {
            'B' => Some(PrimitiveType::Byte),
            'S' => Some(PrimitiveType::Short),
            'I' => Some(PrimitiveType::Int),
            'J' => Some(PrimitiveType::Long),
            'D' => Some(PrimitiveType::Double),
            'F' => Some(PrimitiveType::Float),
            'C' => Some(PrimitiveType::Char),
            'Z' => Some(PrimitiveType::Boolean),
            'V' => Some(PrimitiveType::Void),
            _ => None,
        }
    }
}

/// The element type of an array: a primitive or a class, never an array.
#[derive(Debug)]
pub enum ElementType {
    Primitive(PrimitiveType),
    Class(JavaClass),
}

/// Ghost image of an [`ElementType`].
pub enum ElementTypeV {
    Primitive(PrimitiveType),
    Class(Seq<char>),
}

/// A parsed JVM type.
#[derive(Debug)]
pub enum JavaType {
    Primitive(PrimitiveType),
    Array { dimensions: usize, element: ElementType },
    Class(JavaClass),
}

/// Ghost image of a [`JavaType`].
pub enum JavaTypeV {
    Primitive(PrimitiveType),
    Array { dimensions: int, element: ElementTypeV },
    Class(Seq<char>),
}

impl View for ElementType {
    type V = ElementTypeV;

    open spec fn view(&self) -> ElementTypeV {
        match self {
            ElementType::Primitive(p) => ElementTypeV::Primitive(*p),
            ElementType::Class(c) => ElementTypeV::Class(c@),
        }
    }
}

impl View for JavaType {
    type V = JavaTypeV;

    open spec fn view(&self) -> JavaTypeV {
        match self {
            JavaType::Primitive(p) => JavaTypeV::Primitive(*p),
            JavaType::Array { dimensions, element } => JavaTypeV::Array {
                dimensions: *dimensions as int,
                element: element@,
            },
            JavaType::Class(c) => JavaTypeV::Class(c@),
        }
    }
}

impl Clone for ElementType {
    fn clone(&self) -> (r: Self)
        ensures
            r == *self,
    {
        match self {
            ElementType::Primitive(p) => ElementType::Primitive(*p),
            ElementType::Class(c) => ElementType::Class(c.clone()),
        }
    }
}

impl Clone for JavaType {
    fn clone(&self) -> (r: Self)
        ensures
            r == *self,
    {
        match self {
            JavaType::Primitive(p) => JavaType::Primitive(*p),
            JavaType::Array { dimensions, element } => JavaType::Array {
                dimensions: *dimensions,
                element: element.clone(),
            },
            JavaType::Class(c) => JavaType::Class(c.clone()),
        }
    }
}

/// Well-formed element type: class names are well-formed internal names.
pub open spec fn elem_wf(e: ElementTypeV) -> bool {
    match e {
        ElementTypeV::Primitive(_) => true,
        ElementTypeV::Class(c) => wf_class_chars(c),
    }
}

/// Well-formed type: well-formed names, and at least one array dimension.
pub open spec fn type_wf(t: JavaTypeV) -> bool {
    match t {
        JavaTypeV::Primitive(_) => true,
        JavaTypeV::Array { dimensions, element } => dimensions >= 1 && elem_wf(element),
        JavaTypeV::Class(c) => wf_class_chars(c),
    }
}

/// The characters an element type prints as.
pub open spec fn elem_chars(e: ElementTypeV) -> Seq<char> {
    match e {
        ElementTypeV::Primitive(p) => seq![prim_char(p)],
        ElementTypeV::Class(c) => seq!['L'] + c + seq![';'],
    }
}

/// The characters a type prints as.
pub open spec fn type_chars(t: JavaTypeV) -> Seq<char> {
    match t {
        JavaTypeV::Primitive(p) => seq![prim_char(p)],
        JavaTypeV::Array { dimensions, element } => Seq::new(dimensions as nat, |i: int| '[')
            + elem_chars(element),
        JavaTypeV::Class(c) => seq!['L'] + c + seq![';'],
    }
}

/// The characters a parameter list prints as, without the parentheses.
pub open spec fn params_chars(ts: Seq<JavaTypeV>) -> Seq<char>
    decreases ts.len(),
{
    if ts.len() == 0 {
        Seq::empty()
    } else {
        type_chars(ts[0]) + params_chars(ts.drop_first())
    }
}

/// The characters a whole method descriptor prints as.
pub open spec fn sig_chars(ps: ParsedSigV) -> Seq<char> {
    seq!['('] + params_chars(ps.parameter_types) + seq![')'] + type_chars(ps.return_type)
}

/// Number of leading `[` characters.
pub open spec fn leading_brackets(s: Seq<char>) -> int
    decreases s.len(),
{
    if s.len() == 0 || s[0] != '[' {
        0
    } else {
        1 + leading_brackets(s.drop_first())
    }
}

pub proof fn lemma_leading_brackets(s: Seq<char>)
    ensures
        0 <= leading_brackets(s) <= s.len(),
        forall|i: int| 0 <= i < leading_brackets(s) ==> s[i] == '[',
        leading_brackets(s) < s.len() ==> s[leading_brackets(s)] != '[',
    decreases s.len(),
{
    if s.len() > 0 && s[0] == '[' {
        lemma_leading_brackets(s.drop_first());
        let d0 = leading_brackets(s.drop_first());
        assert forall|i: int| 0 <= i < d0 + 1 implies s[i] == '[' by {
            if i > 0 {
                assert(s[i] == s.drop_first()[i - 1]);
            }
        }
        if d0 + 1 < s.len() {
            assert(s[d0 + 1] == s.drop_first()[d0]);
        }
    }
}

/// Index of the first `;` of `s`, if any.
pub open spec fn find_semi(s: Seq<char>) -> Option<int>
    decreases s.len(),
{
    if s.len() == 0 {
        None
    } else if s[0] == ';' {
        Some(0)
    } else {
        match find_semi(s.drop_first()) {
            Some(i) => Some(i + 1),
            None => None,
        }
    }
}

pub proof fn lemma_find_semi(s: Seq<char>)
    ensures
        match find_semi(s) {
            Some(j) => 0 <= j < s.len() && s[j] == ';' && (forall|i: int|
                0 <= i < j ==> s[i] != ';'),
            None => forall|i: int| 0 <= i < s.len() ==> s[i] != ';',
        },
    decreases s.len(),
{
    if s.len() > 0 && s[0] != ';' {
        lemma_find_semi(s.drop_first());
        match find_semi(s.drop_first()) {
            Some(j0) => {
                assert(s[j0 + 1] == s.drop_first()[j0]);
                assert forall|i: int| 0 <= i < j0 + 1 implies s[i] != ';' by {
                    if i > 0 {
                        assert(s[i] == s.drop_first()[i - 1]);
                    }
                }
            },
            None => {
                assert forall|i: int| 0 <= i < s.len() implies s[i] != ';' by {
                    if i > 0 {
                        assert(s[i] == s.drop_first()[i - 1]);
                    }
                }
            },
        }
    }
}

/// Spec-level parse of one base (non-array) type at the head of `s`:
/// the number of characters consumed and the element denoted.
pub open spec fn spec_parse_base(s: Seq<char>) -> Option<(int, ElementTypeV)> {
    if s.len() == 0 {
        None
    } else if s[0] == 'L' {
        match find_semi(s) {
            Some(j) => if j >= 2 && wf_class_chars(s.subrange(1, j)) {
                Some((j + 1, ElementTypeV::Class(s.subrange(1, j))))
            } else {
                None
            },
            None => None,
        }
    } else {
        match prim_of_char(s[0]) {
            Some(p) => Some((1, ElementTypeV::Primitive(p))),
            None => None,
        }
    }
}

/// An element type read back as a type.
pub open spec fn elem_as_type(e: ElementTypeV) -> JavaTypeV {
    match e {
        ElementTypeV::Primitive(p) => JavaTypeV::Primitive(p),
        ElementTypeV::Class(c) => JavaTypeV::Class(c),
    }
}

/// Spec-level parse of one type at the head of `s`: the number of
/// characters consumed and the type denoted.
pub open spec fn spec_parse_type(s: Seq<char>) -> Option<(int, JavaTypeV)> {
    let d = leading_brackets(s);
    if d == s.len() {
        None
    } else {
        match spec_parse_base(s.skip(d)) {
            None => None,
            Some((n, e)) => if d == 0 {
                Some((n, elem_as_type(e)))
            } else {
                Some((d + n, JavaTypeV::Array { dimensions: d, element: e }))
            },
        }
    }
}

pub proof fn lemma_parse_base_bounds(s: Seq<char>)
    ensures
        spec_parse_base(s) matches Some((n, e)) ==> 1 <= n <= s.len() && elem_wf(e),
{
    if s.len() > 0 && s[0] == 'L' {
        lemma_find_semi(s);
    }
}

pub proof fn lemma_parse_type_bounds(s: Seq<char>)
    ensures
        spec_parse_type(s) matches Some((n, t)) ==> 1 <= n <= s.len() && type_wf(t),
{
    lemma_leading_brackets(s);
    let d = leading_brackets(s);
    if d < s.len() {
        lemma_parse_base_bounds(s.skip(d));
    }
}

/// Spec-level parse of a parameter list followed by `)`, from the head of
/// `s`: characters consumed (terminator included) and the types denoted.
pub open spec fn spec_parse_params(s: Seq<char>) -> Option<(int, Seq<JavaTypeV>)>
    decreases s.len(),
{
    if s.len() == 0 {
        None
    } else if s[0] == ')' {
        Some((1, Seq::empty()))
    } else {
        match spec_parse_type(s) {
            None => None,
            Some((n, t)) => if 1 <= n <= s.len() {
                match spec_parse_params(s.skip(n)) {
                    None => None,
                    Some((m, ts)) => Some((n + m, seq![t] + ts)),
                }
            } else {
                None
            },
        }
    }
}

pub proof fn lemma_parse_params_bounds(s: Seq<char>)
    ensures
        spec_parse_params(s) matches Some((n, ts)) ==> 1 <= n <= s.len() && (forall|i: int|
            0 <= i < ts.len() ==> type_wf(#[trigger] ts[i])),
    decreases s.len(),
{
    if s.len() > 0 && s[0] != ')' {
        lemma_parse_type_bounds(s);
        match spec_parse_type(s) {
            Some((n, t)) => {
                if 1 <= n <= s.len() {
                    lemma_parse_params_bounds(s.skip(n));
                }
            },
            None => {},
        }
    }
}

/// Ghost image of a parsed method descriptor.
#[verifier::ext_equal]
pub struct ParsedSigV {
    pub parameter_types: Seq<JavaTypeV>,
    pub return_type: JavaTypeV,
}

/// Spec-level parse of a whole method descriptor.
pub open spec fn spec_parse_sig(s: Seq<char>) -> Option<ParsedSigV> {
    if s.len() == 0 || s[0] != '(' {
        None
    } else {
        match spec_parse_params(s.skip(1)) {
            None => None,
            Some((n, params)) => {
                let rest = s.skip(1 + n);
                match spec_parse_type(rest) {
                    None => None,
                    Some((m, ret)) => if m == rest.len() {
                        Some(ParsedSigV { parameter_types: params, return_type: ret })
                    } else {
                        None
                    },
                }
            },
        }
    }
}

/// A descriptor string is valid when it parses as a method descriptor.
pub open spec fn valid_sig(s: Seq<char>) -> bool {
    spec_parse_sig(s) is Some
}

/// Failure of parsing a single type descriptor.
#[derive(Debug)]
pub enum TypeDescriptorParseError {
    EmptyDescriptor,
    UnexpectedlyLong { expected: usize, actual: usize },
    UnclosedClassDescriptor,
    InvalidStart(char),
    EmptyArray { dimensions: usize },
    /// A class reference whose name is empty or holds a forbidden
    /// character; the index points at the offender, counted from the
    /// start of the base type (the `L`).
    InvalidClassName(usize),
    InvalidElementDescriptor { dimensions: usize, cause: Box<TypeDescriptorParseError> },
}

/// The failure that parsing a base type from `s` produces, for a
/// non-empty `s` that does not start with `[`.
pub open spec fn base_err_for(s: Seq<char>, e: TypeDescriptorParseError) -> bool {
    if s[0] == 'L' {
        match find_semi(s) {
            None => e == TypeDescriptorParseError::UnclosedClassDescriptor,
            Some(j) => if j == 1 {
                e == TypeDescriptorParseError::InvalidClassName(1)
            } else {
                e matches TypeDescriptorParseError::InvalidClassName(i) && 1 <= i < j && s[
                    i as int
                ] == '.' && (forall|k: int| 1 <= k < i ==> s[k] != '.')
            },
        }
    } else {
        e == TypeDescriptorParseError::InvalidStart(s[0])
    }
}

/// The failure that parsing a type from `s` produces.
pub open spec fn type_err_for(s: Seq<char>, e: TypeDescriptorParseError) -> bool {
    let d = leading_brackets(s);
    if s.len() == 0 {
        e == TypeDescriptorParseError::EmptyDescriptor
    } else if d == s.len() {
        e matches TypeDescriptorParseError::EmptyArray { dimensions } && dimensions == s.len()
    } else if d > 0 {
        e matches TypeDescriptorParseError::InvalidElementDescriptor { dimensions, cause }
            && dimensions == d && base_err_for(s.skip(d), *cause)
    } else {
        base_err_for(s, e)
    }
}

/// Wrap a base-type failure in the array context it occurred in.
fn wrap_element_err(dimensions: usize, inner: TypeDescriptorParseError) -> (r:
    TypeDescriptorParseError)
    ensures
        dimensions == 0 ==> r == inner,
        dimensions > 0 ==> (r matches TypeDescriptorParseError::InvalidElementDescriptor {
            dimensions: dd,
            cause,
        } && dd == dimensions && *cause == inner),
{
    if dimensions == 0 {
        inner
    } else {
        TypeDescriptorParseError::InvalidElementDescriptor { dimensions, cause: Box::new(inner) }
    }
}

impl JavaType {
    /// Parse one type at the head of `descriptor`, returning how many
    /// characters it spans together with the type.
    pub fn partially_parse_descriptor(descriptor: &str) -> (r: Result<
        (usize, JavaType),
        TypeDescriptorParseError,
    >)
        ensures
            r is Ok <==> spec_parse_type(descriptor@) is Some,
            r matches Ok((n, t)) ==> spec_parse_type(descriptor@) == Some((n as int, t@)) && 1 <= n
                <= descriptor@.len(),
            r matches Err(e) ==> type_err_for(descriptor@, e),
    {
        let len = descriptor.unicode_len();
        if len == 0 {
            return Err(TypeDescriptorParseError::EmptyDescriptor);
        }
        let mut d: usize = 0;
        loop
            invariant
                d <= len,
                len == descriptor@.len(),
                forall|i: int| 0 <= i < d ==> descriptor@[i] == '[',
            ensures
                d <= len,
                len == descriptor@.len(),
                forall|i: int| 0 <= i < d ==> descriptor@[i] == '[',
                d == len || descriptor@[d as int] != '[',
            decreases len - d,
        {
            if d == len {
                break;
            }
            if descriptor.get_char(d) != '[' {
                break;
            }
            d = d + 1;
        }
        proof {
            lemma_leading_brackets(descriptor@);
        }
        assert(d == leading_brackets(descriptor@));
        if d == len {
            return Err(TypeDescriptorParseError::EmptyArray { dimensions: len });
        }
        let ghost suffix = descriptor@.skip(d as int);
        proof {
            assert forall|k: int| 0 <= k < suffix.len() implies suffix[k] == descriptor@[
                d + k
            ] by {}
            if d == 0 {
                assert(suffix =~= descriptor@);
            }
        }
        let c = descriptor.get_char(d);
        let (elen, element): (usize, ElementType) = if c == 'L' {
            let mut j: usize = d + 1;
            loop
                invariant
                    d + 1 <= j <= len,
                    len == descriptor@.len(),
                    forall|i: int| d < i < j ==> descriptor@[i] != ';',
                ensures
                    d + 1 <= j <= len,
                    len == descriptor@.len(),
                    forall|i: int| d < i < j ==> descriptor@[i] != ';',
                    j == len || descriptor@[j as int] == ';',
                decreases len - j,
            {
                if j == len {
                    break;
                }
                if descriptor.get_char(j) == ';' {
                    break;
                }
                j = j + 1;
            }
            proof {
                lemma_find_semi(suffix);
                assert forall|m: int| 0 < m < j - d implies suffix[m] != ';' by {
                    assert(suffix[m] == descriptor@[d + m]);
                }
                assert(suffix[0] == 'L');
            }
            if j == len {
                assert(find_semi(suffix) is None);
                return Err(wrap_element_err(d, TypeDescriptorParseError::UnclosedClassDescriptor));
            }
            assert(suffix[j - d as int] == ';');
            assert(find_semi(suffix) == Some(j - d as int));
            if j == d + 1 {
                return Err(wrap_element_err(d, TypeDescriptorParseError::InvalidClassName(1)));
            }
            let mut k: usize = d + 1;
            loop
                invariant
                    d + 1 <= k <= j,
                    j < len,
                    len == descriptor@.len(),
                    forall|i: int| d + 1 <= i < k ==> descriptor@[i] != '.',
                ensures
                    d + 1 <= k <= j,
                    forall|i: int| d + 1 <= i < k ==> descriptor@[i] != '.',
                    k == j || descriptor@[k as int] == '.',
                decreases j - k,
            {
                if k == j {
                    break;
                }
                if descriptor.get_char(k) == '.' {
                    break;
                }
                k = k + 1;
            }
            if k < j {
                proof {
                    let name = suffix.subrange(1, j - d as int);
                    assert(suffix[k - d as int] == descriptor@[k as int]);
                    assert(name[k - d - 1] == suffix[k - d as int]);
                    assert(bad_name_char(name[k - d - 1]));
                    assert(!wf_class_chars(name));
                    assert forall|m: int| 1 <= m < k - d implies suffix[m] != '.' by {
                        assert(suffix[m] == descriptor@[d + m]);
                    }
                }
                return Err(wrap_element_err(d, TypeDescriptorParseError::InvalidClassName(k - d)));
            }
            let name_str = descriptor.substring_char(d + 1, j);
            proof {
                assert(name_str@ =~= suffix.subrange(1, j - d as int));
                assert forall|i: int| 0 <= i < name_str@.len() implies !bad_name_char(
                    name_str@[i],
                ) by {
                    assert(name_str@[i] == descriptor@[d + 1 + i]);
                }
                assert(wf_class_chars(name_str@));
            }
            let class = JavaClass { name: String::from_str(name_str) };
            (j + 1 - d, ElementType::Class(class))
        } else {
            match PrimitiveType::from_descriptor(c) {
                Some(p) => (1, ElementType::Primitive(p)),
                None => {
                    return Err(wrap_element_err(d, TypeDescriptorParseError::InvalidStart(c)));
                },
            }
        };
        assert(spec_parse_base(suffix) == Some((elen as int, element@)));
        if d == 0 {
            let t = match element {
                ElementType::Primitive(p) => JavaType::Primitive(p),
                ElementType::Class(cl) => JavaType::Class(cl),
            };
            assert(suffix =~= descriptor@);
            Ok((elen, t))
        } else {
            Ok((d + elen, JavaType::Array { dimensions: d, element }))
        }
    }

    /// Parse a complete type descriptor: one type spanning the whole
    /// string.
    pub fn parse_descriptor(descriptor: &str) -> (r: Result<JavaType, TypeDescriptorParseError>)
        ensures
            r is Ok <==> (match spec_parse_type(descriptor@) {
                Some((n, _)) => n == descriptor@.len(),
                None => false,
            }),
            r matches Ok(t) ==> spec_parse_type(descriptor@) == Some(
                (descriptor@.len() as int, t@),
            ),
            r matches Err(e) ==> (match spec_parse_type(descriptor@) {
                Some((n, _)) => e matches TypeDescriptorParseError::UnexpectedlyLong {
                    expected,
                    actual,
                } && expected == n && actual == descriptor@.len(),
                None => type_err_for(descriptor@, e),
            }),
    {
        let len = descriptor.unicode_len();
        match JavaType::partially_parse_descriptor(descriptor) {
            Err(e) => Err(e),
            Ok((n, t)) => if n < len {
                Err(TypeDescriptorParseError::UnexpectedlyLong { expected: n, actual: len })
            } else {
                Ok(t)
            },
        }
    }

    /// Append the descriptor characters of this type to `buf`.
    pub fn write_descriptor(&self, buf: &mut String)
        ensures
            final(buf)@ == old(buf)@ + type_chars(self@),
    {
        match self {
            JavaType::Primitive(p) => {
                crate::names::push_char(buf, p.descriptor());
                assert(final(buf)@ =~= old(buf)@ + type_chars(self@));
            },
            JavaType::Class(c) => {
                let ghost buf0 = buf@;
                crate::names::push_char(buf, 'L');
                buf.append(c.internal_name());
                crate::names::push_char(buf, ';');
                assert(buf@ =~= buf0 + type_chars(self@));
            },
            JavaType::Array { dimensions, element } => {
                let ghost buf0 = buf@;
                let dims: usize = *dimensions;
                let mut i: usize = 0;
                while i < dims
                    invariant
                        i <= dims,
                        buf@ == buf0 + Seq::new(i as nat, |k: int| '['),
                    decreases dims - i,
                {
                    crate::names::push_char(buf, '[');
                    proof {
                        assert(buf@ =~= buf0 + Seq::new((i + 1) as nat, |k: int| '['));
                    }
                    i = i + 1;
                }
                element.write_descriptor(buf);
                assert(buf@ =~= buf0 + type_chars(self@));
            },
        }
    }

    /// The descriptor string of this type.
    pub fn descriptor(&self) -> (r: String)
        ensures
            r@ == type_chars(self@),
    {
        let mut result = String::new();
        self.write_descriptor(&mut result);
        result
    }
}

impl ElementType {
    /// Append the descriptor characters of this element type to `buf`.
    pub fn write_descriptor(&self, buf: &mut String)
        ensures
            final(buf)@ == old(buf)@ + elem_chars(self@),
    {
        match self {
            ElementType::Primitive(p) => {
                crate::names::push_char(buf, p.descriptor());
                assert(final(buf)@ =~= old(buf)@ + elem_chars(self@));
            },
            ElementType::Class(c) => {
                let ghost buf0 = buf@;
                crate::names::push_char(buf, 'L');
                buf.append(c.internal_name());
                crate::names::push_char(buf, ';');
                assert(buf@ =~= buf0 + elem_chars(self@));
            },
        }
    }
}

pub proof fn lemma_prim_char_facts(p: PrimitiveType)
    ensures
        prim_char(p) != 'L',
        prim_char(p) != '[',
        prim_char(p) != ')',
        prim_char(p) != ';',
        prim_of_char(prim_char(p)) == Some(p),
{
}

/// Printing an element type and parsing it back yields the element type,
/// whatever follows it.
pub proof fn lemma_parse_base_print(e: ElementTypeV, rest: Seq<char>)
    requires
        elem_wf(e),
    ensures
        spec_parse_base(elem_chars(e) + rest) == Some((elem_chars(e).len() as int, e)),
{
    let s = elem_chars(e) + rest;
    match e {
        ElementTypeV::Primitive(p) => {
            lemma_prim_char_facts(p);
            assert(s[0] == prim_char(p));
        },
        ElementTypeV::Class(c) => {
            assert(s[0] == 'L');
            lemma_find_semi(s);
            assert(s[c.len() as int + 1] == ';');
            assert forall|i: int| 0 <= i < c.len() + 1 implies s[i] != ';' by {
                if i > 0 {
                    assert(s[i] == c[i - 1]);
                    assert(!bad_name_char(c[i - 1]));
                }
            }
            assert(find_semi(s) == Some(c.len() + 1 as int));
            assert(s.subrange(1, c.len() + 1 as int) =~= c);
        },
    }
}

/// The first character a well-formed type prints as is never `)`.
pub proof fn lemma_type_chars_head(t: JavaTypeV)
    requires
        type_wf(t),
    ensures
        type_chars(t).len() >= 1,
        type_chars(t)[0] != ')',
{
    match t {
        JavaTypeV::Primitive(p) => {
            lemma_prim_char_facts(p);
        },
        JavaTypeV::Class(c) => {
            assert(type_chars(t)[0] == 'L');
        },
        JavaTypeV::Array { dimensions, element } => {
            assert(type_chars(t)[0] == '[');
        },
    }
}

/// Printing a type and parsing it back yields the type, whatever
/// follows it.
pub proof fn lemma_parse_type_print(t: JavaTypeV, rest: Seq<char>)
    requires
        type_wf(t),
    ensures
        spec_parse_type(type_chars(t) + rest) == Some((type_chars(t).len() as int, t)),
{
    let s = type_chars(t) + rest;
    lemma_leading_brackets(s);
    match t {
        JavaTypeV::Primitive(p) => {
            lemma_prim_char_facts(p);
            assert(s[0] == prim_char(p));
            assert(leading_brackets(s) == 0);
            assert(s.skip(0) =~= s);
            lemma_parse_base_print(ElementTypeV::Primitive(p), rest);
            assert(elem_chars(ElementTypeV::Primitive(p)) + rest =~= s);
        },
        JavaTypeV::Class(c) => {
            assert(s[0] == 'L');
            assert(leading_brackets(s) == 0);
            assert(s.skip(0) =~= s);
            lemma_parse_base_print(ElementTypeV::Class(c), rest);
            assert(elem_chars(ElementTypeV::Class(c)) + rest =~= s);
        },
        JavaTypeV::Array { dimensions, element } => {
            let ec = elem_chars(element);
            assert(ec.len() > 0 && ec[0] != '[') by {
                match element {
                    ElementTypeV::Primitive(p) => {
                        lemma_prim_char_facts(p);
                        assert(ec[0] == prim_char(p));
                    },
                    ElementTypeV::Class(cc) => {
                        assert(ec[0] == 'L');
                    },
                }
            }
            assert forall|i: int| 0 <= i < dimensions implies s[i] == '[' by {}
            assert(s[dimensions] == ec[0]);
            assert(leading_brackets(s) == dimensions);
            assert(s.skip(dimensions) =~= ec + rest);
            lemma_parse_base_print(element, rest);
        },
    }
}

pub proof fn lemma_params_chars_push(ts: Seq<JavaTypeV>, t: JavaTypeV)
    ensures
        params_chars(ts.push(t)) == params_chars(ts) + type_chars(t),
    decreases ts.len(),
{
    assert(ts.push(t).len() == ts.len() + 1);
    assert(params_chars(ts.push(t)) == type_chars(ts.push(t)[0]) + params_chars(
        ts.push(t).drop_first(),
    ));
    if ts.len() == 0 {
        assert(ts.push(t)[0] == t);
        assert(ts.push(t).drop_first() =~= Seq::<JavaTypeV>::empty());
        assert(params_chars(ts.push(t).drop_first()) == Seq::<char>::empty());
        assert(type_chars(t) + Seq::<char>::empty() =~= type_chars(t));
        assert(params_chars(ts) == Seq::<char>::empty());
        assert(Seq::<char>::empty() + type_chars(t) =~= type_chars(t));
    } else {
        lemma_params_chars_push(ts.drop_first(), t);
        assert(ts.push(t).drop_first() =~= ts.drop_first().push(t));
        assert(ts.push(t)[0] == ts[0]);
        assert(params_chars(ts) == type_chars(ts[0]) + params_chars(ts.drop_first()));
        assert((type_chars(ts[0]) + params_chars(ts.drop_first())) + type_chars(t) =~= type_chars(
            ts[0],
        ) + (params_chars(ts.drop_first()) + type_chars(t)));
    }
}

/// Printing a parameter list and parsing it back yields the list,
/// whatever follows the closing parenthesis.
pub proof fn lemma_parse_params_print(ts: Seq<JavaTypeV>, rest: Seq<char>)
    requires
        forall|i: int| 0 <= i < ts.len() ==> type_wf(#[trigger] ts[i]),
    ensures
        spec_parse_params(params_chars(ts) + seq![')'] + rest) == Some(
            ((params_chars(ts).len() + 1) as int, ts),
        ),
    decreases ts.len(),
{
    let s = params_chars(ts) + seq![')'] + rest;
    if ts.len() == 0 {
        assert(s[0] == ')');
        assert(Seq::<JavaTypeV>::empty() =~= ts);
    } else {
        let t0 = ts[0];
        let tc = type_chars(t0);
        let s2 = params_chars(ts.drop_first()) + seq![')'] + rest;
        assert(s =~= tc + s2);
        lemma_parse_type_print(t0, s2);
        lemma_type_chars_head(t0);
        assert(s[0] == tc[0]);
        assert(spec_parse_type(s) == Some((tc.len() as int, t0)));
        assert(s.skip(tc.len() as int) =~= s2);
        assert forall|i: int| 0 <= i < ts.drop_first().len() implies type_wf(
            #[trigger] ts.drop_first()[i],
        ) by {
            assert(ts.drop_first()[i] == ts[i + 1]);
        }
        lemma_parse_params_print(ts.drop_first(), rest);
        assert(seq![t0] + ts.drop_first() =~= ts);
    }
}

/// Printing a whole method descriptor and parsing it back yields the
/// same parsed signature.
pub proof fn lemma_parse_sig_print(ps: ParsedSigV)
    requires
        forall|i: int|
            0 <= i < ps.parameter_types.len() ==> type_wf(#[trigger] ps.parameter_types[i]),
        type_wf(ps.return_type),
    ensures
        spec_parse_sig(sig_chars(ps)) == Some(ps),
{
    let s = sig_chars(ps);
    let pc = params_chars(ps.parameter_types);
    let rc = type_chars(ps.return_type);
    assert(s[0] == '(');
    assert(s.skip(1) =~= pc + seq![')'] + rc);
    lemma_parse_params_print(ps.parameter_types, rc);
    assert(spec_parse_params(s.skip(1)) == Some(((pc.len() + 1) as int, ps.parameter_types)));
    assert(s.skip(1 + (pc.len() as int + 1)) =~= rc);
    lemma_parse_type_print(ps.return_type, Seq::<char>::empty());
    assert(rc + Seq::<char>::empty() =~= rc);
    assert(spec_parse_type(s.skip(1 + (pc.len() as int + 1))) == Some((rc.len() as int, ps.return_type)));
    assert(ParsedSigV { parameter_types: ps.parameter_types, return_type: ps.return_type } =~= ps);
}

/// All types of a valid method descriptor are well formed.
pub proof fn lemma_parse_sig_wf(s: Seq<char>)
    ensures
        spec_parse_sig(s) matches Some(ps) ==> (forall|i: int|
            0 <= i < ps.parameter_types.len() ==> type_wf(#[trigger] ps.parameter_types[i]))
            && type_wf(ps.return_type),
{
    if s.len() > 0 && s[0] == '(' {
        lemma_parse_params_bounds(s.skip(1));
        match spec_parse_params(s.skip(1)) {
            Some((n, params)) => {
                lemma_parse_type_bounds(s.skip(1 + n));
            },
            None => {},
        }
    }
}

/// A parsed type prints back as exactly the characters it was parsed
/// from.
pub proof fn lemma_print_parse_type(s: Seq<char>)
    ensures
        spec_parse_type(s) matches Some((n, t)) ==> type_chars(t) == s.subrange(0, n),
{
    match spec_parse_type(s) {
        None => {},
        Some((n, t)) => {
            lemma_leading_brackets(s);
            let d = leading_brackets(s);
            let rest = s.skip(d);
            assert forall|k: int| 0 <= k < rest.len() implies rest[k] == s[d + k] by {}
            if rest[0] == 'L' {
                lemma_find_semi(rest);
                match find_semi(rest) {
                    Some(j) => {
                        let name = rest.subrange(1, j);
                        assert(elem_chars(ElementTypeV::Class(name)) =~= rest.subrange(0, j + 1));
                        if d == 0 {
                            assert(type_chars(t) =~= s.subrange(0, n));
                        } else {
                            assert(type_chars(t) =~= s.subrange(0, n));
                        }
                    },
                    None => {},
                }
            } else {
                match prim_of_char(rest[0]) {
                    Some(p) => {
                        assert(elem_chars(ElementTypeV::Primitive(p)) =~= rest.subrange(0, 1));
                        assert(type_chars(t) =~= s.subrange(0, n));
                    },
                    None => {},
                }
            }
        },
    }
}

/// A parsed parameter list prints back as exactly the characters it was
/// parsed from, closing parenthesis included.
pub proof fn lemma_print_parse_params(s: Seq<char>)
    ensures
        spec_parse_params(s) matches Some((n, ts)) ==> params_chars(ts) + seq![')'] == s.subrange(
            0,
            n,
        ),
    decreases s.len(),
{
    if s.len() == 0 {
    } else if s[0] == ')' {
        assert(params_chars(Seq::<JavaTypeV>::empty()) + seq![')'] =~= s.subrange(0, 1));
    } else {
        match spec_parse_type(s) {
            None => {},
            Some((n0, t)) => {
                if 1 <= n0 <= s.len() {
                    lemma_print_parse_type(s);
                    lemma_print_parse_params(s.skip(n0));
                    lemma_parse_params_bounds(s.skip(n0));
                    match spec_parse_params(s.skip(n0)) {
                        None => {},
                        Some((m, ts2)) => {
                            assert(s.skip(n0).subrange(0, m) =~= s.subrange(n0, n0 + m));
                            assert(params_chars(ts2) + seq![')'] == s.subrange(n0, n0 + m));
                            assert((seq![t] + ts2).drop_first() =~= ts2);
                            assert((seq![t] + ts2)[0] == t);
                            assert(params_chars(seq![t] + ts2) == type_chars(t) + params_chars(
                                ts2,
                            ));
                            assert((type_chars(t) + params_chars(ts2)) + seq![')'] =~= type_chars(
                                t,
                            ) + (params_chars(ts2) + seq![')']));
                            assert(s.subrange(0, n0) + s.subrange(n0, n0 + m) =~= s.subrange(
                                0,
                                n0 + m,
                            ));
                        },
                    }
                }
            },
        }
    }
}

/// A parsed method descriptor prints back as exactly the string it was
/// parsed from.
pub proof fn lemma_print_parse_sig(s: Seq<char>)
    ensures
        spec_parse_sig(s) matches Some(ps) ==> sig_chars(ps) == s,
{
    match spec_parse_sig(s) {
        None => {},
        Some(ps) => {
            lemma_print_parse_params(s.skip(1));
            match spec_parse_params(s.skip(1)) {
                None => {},
                Some((n, params)) => {
                    lemma_parse_params_bounds(s.skip(1));
                    assert(s.skip(1).subrange(0, n) =~= s.subrange(1, 1 + n));
                    assert(params_chars(params) + seq![')'] == s.subrange(1, 1 + n));
                    lemma_print_parse_type(s.skip(1 + n));
                    match spec_parse_type(s.skip(1 + n)) {
                        None => {},
                        Some((m, ret)) => {
                            if m == s.skip(1 + n).len() {
                                assert(s.skip(1 + n).subrange(0, m) =~= s.skip(1 + n));
                                assert(type_chars(ret) == s.skip(1 + n));
                                assert(s[0] == '(');
                                assert(((seq!['('] + params_chars(params)) + seq![')'])
                                    + type_chars(ret) =~= seq!['('] + ((params_chars(params)
                                    + seq![')']) + type_chars(ret)));
                                assert(s.subrange(1, 1 + n) + s.skip(1 + n) =~= s.skip(1));
                                assert(seq!['('] =~= s.subrange(0, 1));
                                assert(s.subrange(0, 1) + s.skip(1) =~= s);
                                assert(sig_chars(ps) == s);
                            }
                        },
                    }
                },
            }
        },
    }
}

/// Failure of parsing a whole method descriptor.
#[derive(Debug)]
pub enum MethodDescriptorParseError {
    EmptyDescriptor,
    UnopenedDescriptor,
    UnclosedDescriptor,
    InvalidReturnType { start_index: usize, cause: TypeDescriptorParseError },
    InvalidParameterType { parameter: usize, start_index: usize, cause: TypeDescriptorParseError },
}

/// How a parameter-list suffix parse completes a parse that has already
/// consumed `pos` characters (the opening parenthesis included) and
/// accumulated `acc`.
pub open spec fn params_cont(
    acc: Seq<JavaTypeV>,
    pos: int,
    rest: Option<(int, Seq<JavaTypeV>)>,
) -> Option<(int, Seq<JavaTypeV>)> {
    match rest {
        Some((m, ts)) => Some((pos - 1 + m, acc + ts)),
        None => None,
    }
}

/// A method descriptor taken apart into parameter types and return type.
#[derive(Debug)]
pub struct ParsedMethodSignature {
    pub parameter_types: Vec<JavaType>,
    pub return_type: JavaType,
}

impl View for ParsedMethodSignature {
    type V = ParsedSigV;

    open spec fn view(&self) -> ParsedSigV {
        ParsedSigV {
            parameter_types: self.parameter_types@.map_values(|t: JavaType| t@),
            return_type: self.return_type@,
        }
    }
}

impl ParsedMethodSignature {
    /// Append the descriptor characters of this signature to `buf`.
    pub fn write_descriptor(&self, buf: &mut String)
        ensures
            final(buf)@ == old(buf)@ + sig_chars(self@),
    {
        let ghost buf0 = buf@;
        crate::names::push_char(buf, '(');
        proof {
            assert(buf@ =~= buf0 + seq!['(']);
            assert(self@.parameter_types.take(0) =~= Seq::<JavaTypeV>::empty());
        }
        let n = self.parameter_types.len();
        let mut i: usize = 0;
        while i < n
            invariant
                i <= n,
                n == self.parameter_types.len(),
                buf@ == buf0 + seq!['('] + params_chars(self@.parameter_types.take(i as int)),
            decreases n - i,
        {
            let ghost before = self@.parameter_types.take(i as int);
            self.parameter_types[i].write_descriptor(buf);
            proof {
                assert(self@.parameter_types.take(i + 1) =~= before.push(
                    self@.parameter_types[i as int],
                ));
                lemma_params_chars_push(before, self@.parameter_types[i as int]);
                assert(buf@ =~= buf0 + seq!['('] + params_chars(
                    self@.parameter_types.take(i + 1),
                ));
            }
            i = i + 1;
        }
        proof {
            assert(self@.parameter_types.take(n as int) =~= self@.parameter_types);
        }
        crate::names::push_char(buf, ')');
        self.return_type.write_descriptor(buf);
        proof {
            assert(buf@ =~= buf0 + sig_chars(self@));
        }
    }

    /// The descriptor string of this signature.
    pub fn descriptor(&self) -> (r: String)
        ensures
            r@ == sig_chars(self@),
    {
        let mut result = String::new();
        self.write_descriptor(&mut result);
        proof {
            assert(result@ =~= sig_chars(self@));
        }
        result
    }
}

/// An unparsed method descriptor string.
#[derive(Debug)]
pub struct MethodSignature {
    pub descriptor: String,
}

impl View for MethodSignature {
    type V = Seq<char>;

    open spec fn view(&self) -> Seq<char> {
        self.descriptor@
    }
}

impl Clone for MethodSignature {
    fn clone(&self) -> (r: Self)
        ensures
            r == *self,
    {
        MethodSignature { descriptor: self.descriptor.clone() }
    }
}

impl PartialEq for MethodSignature {
    fn eq(&self, other: &MethodSignature) -> (r: bool) {
        self.descriptor == other.descriptor
    }
}

/// The parameter scan runs off the end of `s`: types parse one after
/// another, no `)` is met, and the text is exhausted.
pub open spec fn params_run_off(s: Seq<char>) -> bool
    decreases s.len(),
{
    if s.len() == 0 {
        true
    } else if s[0] == ')' {
        false
    } else {
        match spec_parse_type(s) {
            Some((n, _)) => {
                let n2 = if 1 <= n <= s.len() {
                    n
                } else {
                    s.len() as int
                };
                params_run_off(s.skip(n2))
            },
            None => false,
        }
    }
}

impl vstd::std_specs::cmp::PartialEqSpecImpl for MethodSignature {
    open spec fn obeys_eq_spec() -> bool {
        true
    }

    open spec fn eq_spec(&self, other: &MethodSignature) -> bool {
        self@ == other@
    }
}

impl MethodSignature {
    /// Wrap a descriptor string without checking it.
    pub fn new(descriptor: &str) -> (r: MethodSignature)
        ensures
            r@ == descriptor@,
    {
        MethodSignature { descriptor: String::from_str(descriptor) }
    }

    /// The wrapped descriptor string.
    pub fn descriptor(&self) -> (r: &str)
        ensures
            r@ == self@,
    {
        self.descriptor.as_str()
    }

    /// Parse the descriptor as `'(' Type* ')' Type`.
    pub fn parse(&self) -> (r: Result<ParsedMethodSignature, MethodDescriptorParseError>)
        ensures
            r is Ok <==> valid_sig(self@),
            r matches Ok(ps) ==> spec_parse_sig(self@) == Some(ps@),
            self@.len() == 0 ==> r matches Err(MethodDescriptorParseError::EmptyDescriptor),
            (self@.len() > 0 && self@[0] != '(') ==> r matches Err(
                MethodDescriptorParseError::UnopenedDescriptor,
            ),
            r matches Err(MethodDescriptorParseError::InvalidParameterType {
                parameter,
                start_index,
                cause,
            }) ==> 1 <= start_index < self@.len() && type_err_for(
                self@.skip(start_index as int),
                cause,
            ),
            r matches Err(MethodDescriptorParseError::UnclosedDescriptor) <==> self@.len() > 0
                && self@[0] == '(' && params_run_off(self@.skip(1)),
            r matches Err(MethodDescriptorParseError::UnclosedDescriptor) ==> spec_parse_params(
                self@.skip(1),
            ) is None,
            r matches Err(MethodDescriptorParseError::InvalidReturnType { start_index, cause })
                ==> start_index <= self@.len() && (match spec_parse_type(
                self@.skip(start_index as int),
            ) {
                Some((n2, _)) => cause matches TypeDescriptorParseError::UnexpectedlyLong {
                    expected,
                    actual,
                } && expected == n2 && actual == self@.len() - start_index,
                None => type_err_for(self@.skip(start_index as int), cause),
            }),
    {
        let text = self.descriptor.as_str();
        let len = text.unicode_len();
        if len == 0 {
            return Err(MethodDescriptorParseError::EmptyDescriptor);
        }
        if text.get_char(0) != '(' {
            return Err(MethodDescriptorParseError::UnopenedDescriptor);
        }
        let mut pos: usize = 1;
        let mut params: Vec<JavaType> = Vec::new();
        proof {
            match spec_parse_params(text@.skip(1)) {
                Some((m, ts)) => {
                    assert(Seq::<JavaTypeV>::empty() + ts =~= ts);
                },
                None => {},
            }
        }
        loop
            invariant
                1 <= pos <= len,
                len == text@.len(),
                text@ == self@,
                text@[0] == '(',
                spec_parse_params(text@.skip(1)) == params_cont(
                    params@.map_values(|t: JavaType| t@),
                    pos as int,
                    spec_parse_params(text@.skip(pos as int)),
                ),
                params_run_off(text@.skip(1)) == params_run_off(text@.skip(pos as int)),
            ensures
                1 <= pos < len,
                len == text@.len(),
                text@[pos as int] == ')',
                spec_parse_params(text@.skip(1)) == params_cont(
                    params@.map_values(|t: JavaType| t@),
                    pos as int,
                    spec_parse_params(text@.skip(pos as int)),
                ),
                params_run_off(text@.skip(1)) == params_run_off(text@.skip(pos as int)),
            decreases len - pos,
        {
            if pos == len {
                proof {
                    assert(text@.skip(pos as int) =~= Seq::<char>::empty());
                    assert(params_run_off(text@.skip(pos as int)));
                }
                return Err(MethodDescriptorParseError::UnclosedDescriptor);
            }
            if text.get_char(pos) == ')' {
                break;
            }
            let ghost s2 = text@.skip(pos as int);
            proof {
                assert(s2[0] == text@[pos as int]);
            }
            let sub = text.substring_char(pos, len);
            proof {
                assert(sub@ =~= s2);
            }
            match JavaType::partially_parse_descriptor(sub) {
                Err(e) => {
                    proof {
                        assert(!params_run_off(s2));
                    }
                    return Err(
                        MethodDescriptorParseError::InvalidParameterType {
                            parameter: params.len(),
                            start_index: pos,
                            cause: e,
                        },
                    );
                },
                Ok((n, t)) => {
                    let ghost acc = params@.map_values(|q: JavaType| q@);
                    let ghost tv = t@;
                    params.push(t);
                    proof {
                        assert(params@.map_values(|q: JavaType| q@) =~= acc.push(tv));
                        assert(s2.skip(n as int) =~= text@.skip(pos + n));
                        assert(params_run_off(s2) == params_run_off(s2.skip(n as int)));
                        match spec_parse_params(text@.skip(pos + n)) {
                            Some((m2, ts2)) => {
                                assert(acc + (seq![tv] + ts2) =~= acc.push(tv) + ts2);
                            },
                            None => {},
                        }
                    }
                    pos = pos + n;
                },
            }
        }
        let ghost acc = params@.map_values(|q: JavaType| q@);
        proof {
            let s2 = text@.skip(pos as int);
            assert(s2[0] == ')');
            assert(!params_run_off(s2));
            assert(spec_parse_params(s2) == Some((1int, Seq::<JavaTypeV>::empty())));
            assert(acc + Seq::<JavaTypeV>::empty() =~= acc);
            assert(spec_parse_params(text@.skip(1)) == Some((pos as int, acc)));
        }
        let ret_str = text.substring_char(pos + 1, len);
        proof {
            assert(ret_str@ =~= text@.skip(1 + pos as int));
        }
        match JavaType::parse_descriptor(ret_str) {
            Err(e) => Err(MethodDescriptorParseError::InvalidReturnType {
                start_index: pos + 1,
                cause: e,
            }),
            Ok(rt) => {
                let result = ParsedMethodSignature { parameter_types: params, return_type: rt };
                proof {
                    assert(result@.parameter_types == acc);
                    assert(spec_parse_sig(self@) == Some(result@));
                }
                Ok(result)
            },
        }
    }
}

/// The key of a method: owning class, method name and descriptor.
#[derive(Debug)]
pub struct MethodData {
    pub class: JavaClass,
    pub name: String,
    pub signature: MethodSignature,
}

/// Ghost image of a `MethodData`.
#[verifier::ext_equal]
pub struct MethodDataV {
    pub class: Seq<char>,
    pub name: Seq<char>,
    pub descriptor: Seq<char>,
}

impl View for MethodData {
    type V = MethodDataV;

    open spec fn view(&self) -> MethodDataV {
        MethodDataV { class: self.class@, name: self.name@, descriptor: self.signature@ }
    }
}

impl Clone for MethodData {
    fn clone(&self) -> (r: Self)
        ensures
            r == *self,
    {
        MethodData {
            class: self.class.clone(),
            name: self.name.clone(),
            signature: self.signature.clone(),
        }
    }
}

impl PartialEq for MethodData {
    fn eq(&self, other: &MethodData) -> (r: bool) {
        self.class == other.class && self.name == other.name && self.signature == other.signature
    }
}

impl vstd::std_specs::cmp::PartialEqSpecImpl for MethodData {
    open spec fn obeys_eq_spec() -> bool {
        true
    }

    open spec fn eq_spec(&self, other: &MethodData) -> bool {
        self@ == other@
    }
}

/// A method key is well formed when its class name is a well-formed
/// internal name, its member name is non-empty, and its descriptor is a
/// valid method descriptor.
pub open spec fn wf_method_v(m: MethodDataV) -> bool {
    wf_class_chars(m.class) && wf_member_chars(m.name) && valid_sig(m.descriptor)
}

impl MethodData {
    /// Parse a qualified method name such as `a/b/C/run`, pairing it
    /// with the given signature.
    pub fn parse_internal_name(name: &str, signature: MethodSignature) -> (r: Result<
        MethodData,
        NameParseError,
    >)
        ensures
            r is Ok <==> crate::names::parse_qualified_name_ok(name@),
            r matches Ok(m) ==> (match last_slash(name@) {
                Some(i) => m@.class == name@.subrange(0, i) && m@.name == name@.subrange(
                    i + 1,
                    name@.len() as int,
                ) && m@.descriptor == signature@ && wf_class_chars(m@.class) && wf_member_chars(
                    m@.name,
                ),
                None => false,
            }),
            name@.len() == 0 ==> r matches Err(NameParseError::EmptyName),
            (name@.len() > 0 && last_slash(name@) is None) ==> r matches Err(
                NameParseError::MissingSeparator,
            ),
            (match last_slash(name@) {
                Some(i) => !wf_class_chars(name@.subrange(0, i)),
                None => false,
            }) ==> (r matches Err(NameParseError::EmptyClassName) || (r matches Err(
                NameParseError::UnexpectedDot(_),
            )) || (r matches Err(NameParseError::UnexpectedSemicolon(_)))),
            (match last_slash(name@) {
                Some(i) => wf_class_chars(name@.subrange(0, i)) && i + 1 == name@.len(),
                None => false,
            }) ==> r matches Err(NameParseError::EmptyMemberName),
    {
        let (class, member) = parse_qualified_name(name)?;
        Ok(MethodData { class, name: member, signature })
    }
}

} // verus!
