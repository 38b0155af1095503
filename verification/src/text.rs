//! Line-oriented SRG and CSRG mapping text.
//!
//! An SRG line carries a three-character tag: `CL: A B`, `FD: A/n B/m`,
//! `MD: A/n D B/m D'`, or `PK: …` (package lines, ignored by default).
//! CSRG carries no tags; the number of words selects the record.  Blank
//! lines and lines starting with `#` are ignored in both.

use vstd::prelude::*;
use vstd::string::StrSliceExecFns;
use vstd::string::StringExecFns;

use crate::names::{wf_class_chars, wf_member_chars, last_slash, JavaClass, FieldData, FieldDataV,
    NameParseError, parse_qualified_name, parse_qualified_name_ok};
use crate::descriptor::{valid_sig, MethodData, MethodDataV, MethodSignature,
    MethodDescriptorParseError};
use crate::store::{StoreV, insert_assoc, MappingsBuilder, MappingsSnapshot, SnapshotV};

verus! {

// ---------------------------------------------------------------------
// Words and lines
// ---------------------------------------------------------------------
/// The whitespace that separates words.
pub open spec fn is_space(c: char) -> bool {
    c == ' ' || c == '\t' || c == '\r' || c == '\n'
}

/// Length of the word at the head of `s`.
pub open spec fn word_len(s: Seq<char>) -> int
    decreases s.len(),
{
    if s.len() == 0 || is_space(s[0]) {
        0
    } else {
        1 + word_len(s.drop_first())
    }
}

pub proof fn lemma_word_len(s: Seq<char>)
    ensures
        0 <= word_len(s) <= s.len(),
        forall|i: int| 0 <= i < word_len(s) ==> !is_space(s[i]),
        word_len(s) < s.len() ==> is_space(s[word_len(s)]),
    decreases s.len(),
{
    if s.len() > 0 && !is_space(s[0]) {
        lemma_word_len(s.drop_first());
        let w0 = word_len(s.drop_first());
        assert forall|i: int| 0 <= i < w0 + 1 implies !is_space(s[i]) by {
            if i > 0 {
                assert(s[i] == s.drop_first()[i - 1]);
            }
        }
        if w0 + 1 < s.len() {
            assert(s[w0 + 1] == s.drop_first()[w0]);
        }
    }
}

/// The whitespace-separated words of `s`.
pub open spec fn spec_words(s: Seq<char>) -> Seq<Seq<char>>
    decreases s.len(),
{
    if s.len() == 0 {
        Seq::empty()
    } else if is_space(s[0]) {
        spec_words(s.drop_first())
    } else {
        let w = word_len(s);
        if 1 <= w <= s.len() {
            seq![s.subrange(0, w)] + spec_words(s.skip(w))
        } else {
            Seq::empty()
        }
    }
}

/// Split a line into its words.
pub fn split_words(line: &str) -> (r: Vec<String>)
    ensures
        r@.map_values(|w: String| w@) == spec_words(line@),
{
    let len = line.unicode_len();
    let mut out: Vec<String> = Vec::new();
    let mut pos: usize = 0;
    proof {
        assert(line@.skip(0) =~= line@);
        assert(out@.map_values(|w: String| w@) =~= Seq::<Seq<char>>::empty());
        assert(Seq::<Seq<char>>::empty() + spec_words(line@) =~= spec_words(line@));
    }
    while pos < len
        invariant
            pos <= len,
            len == line@.len(),
            spec_words(line@) == out@.map_values(|w: String| w@) + spec_words(
                line@.skip(pos as int),
            ),
        decreases len - pos,
    {
        let c = line.get_char(pos);
        if c == ' ' || c == '\t' || c == '\r' || c == '\n' {
            proof {
                assert(line@.skip(pos as int)[0] == line@[pos as int]);
                assert(line@.skip(pos as int).drop_first() =~= line@.skip(pos + 1));
            }
            pos = pos + 1;
        } else {
            let ghost rest = line@.skip(pos as int);
            proof {
                assert(rest[0] == line@[pos as int]);
                lemma_word_len(rest);
                assert forall|k: int| 0 <= k < rest.len() implies rest[k] == line@[
                    pos + k
                ] by {}
            }
            let mut end: usize = pos + 1;
            loop
                invariant
                    pos < end <= len,
                    len == line@.len(),
                    rest == line@.skip(pos as int),
                    forall|i: int| pos <= i < end ==> !is_space(line@[i]),
                ensures
                    pos < end <= len,
                    forall|i: int| pos <= i < end ==> !is_space(line@[i]),
                    end == len || is_space(line@[end as int]),
                decreases len - end,
            {
                if end == len {
                    break;
                }
                let c2 = line.get_char(end);
                if c2 == ' ' || c2 == '\t' || c2 == '\r' || c2 == '\n' {
                    break;
                }
                end = end + 1;
            }
            proof {
                assert forall|k: int| 0 <= k < rest.len() implies rest[k] == line@[
                    pos + k
                ] by {}
                assert(rest.len() == len - pos);
                if end < len {
                    assert(rest[end - pos as int] == line@[end as int]);
                    assert(is_space(rest[end - pos as int]));
                }
                assert forall|k: int| 0 <= k < end - pos implies !is_space(rest[k]) by {
                    assert(rest[k] == line@[pos + k]);
                }
                assert(word_len(rest) == end - pos);
            }
            let word = String::from_str(line.substring_char(pos, end));
            let ghost acc0 = out@.map_values(|w: String| w@);
            out.push(word);
            proof {
                assert(word@ =~= rest.subrange(0, end - pos as int));
                assert(rest.skip(end - pos as int) =~= line@.skip(end as int));
                assert(out@.map_values(|w: String| w@) =~= acc0.push(word@));
                assert(acc0 + (seq![word@] + spec_words(line@.skip(end as int)))
                    =~= acc0.push(word@) + spec_words(line@.skip(end as int)));
            }
            pos = end;
        }
    }
    proof {
        assert(line@.skip(len as int) =~= Seq::<char>::empty());
        assert(out@.map_values(|w: String| w@) + Seq::<Seq<char>>::empty() =~= out@.map_values(
            |w: String| w@,
        ));
    }
    out
}

/// Where the line that starts at `p` ends: the next newline, or the
/// end of the text.
pub open spec fn line_end(s: Seq<char>, p: int) -> int
    decreases s.len() - p,
{
    if p < 0 || p >= s.len() {
        s.len() as int
    } else if s[p] == '\n' {
        p
    } else {
        line_end(s, p + 1)
    }
}

pub proof fn lemma_line_end(s: Seq<char>, p: int)
    requires
        0 <= p <= s.len(),
    ensures
        p <= line_end(s, p) <= s.len(),
        line_end(s, p) < s.len() ==> s[line_end(s, p)] == '\n',
    decreases s.len() - p,
{
    if p < s.len() && s[p] != '\n' {
        lemma_line_end(s, p + 1);
    }
}

/// The lines of `s`, split at `\n`; the separators stay out of the
/// lines, and a trailing newline opens no extra line.
pub open spec fn spec_lines(s: Seq<char>, p: int) -> Seq<Seq<char>>
    decreases s.len() - p,
{
    if p < 0 || p >= s.len() {
        Seq::empty()
    } else {
        let e = line_end(s, p);
        if p <= e && e < s.len() {
            seq![s.subrange(p, e)] + spec_lines(s, e + 1)
        } else {
            seq![s.subrange(p, s.len() as int)]
        }
    }
}

/// Split a text into lines.
pub fn split_text_lines(text: &str) -> (r: Vec<String>)
    ensures
        r@.map_values(|w: String| w@) == spec_lines(text@, 0),
{
    let len = text.unicode_len();
    let mut out: Vec<String> = Vec::new();
    let mut pos: usize = 0;
    while pos < len
        invariant
            pos <= len + 1,
            len == text@.len(),
            spec_lines(text@, 0) == out@.map_values(|w: String| w@) + spec_lines(
                text@,
                pos as int,
            ),
        decreases len - pos,
    {
        proof {
            lemma_line_end(text@, pos as int);
        }
        let ghost target = line_end(text@, pos as int);
        let mut end: usize = pos;
        loop
            invariant
                pos <= end <= len,
                len == text@.len(),
                target == line_end(text@, pos as int),
                line_end(text@, end as int) == target,
            ensures
                pos <= end <= len,
                end == target,
            decreases len - end,
        {
            if end == len {
                break;
            }
            if text.get_char(end) == '\n' {
                break;
            }
            end = end + 1;
        }
        let line = String::from_str(text.substring_char(pos, end));
        let ghost acc0 = out@.map_values(|w: String| w@);
        out.push(line);
        proof {
            assert(line@ == text@.subrange(pos as int, target));
            assert(out@.map_values(|w: String| w@) =~= acc0.push(line@));
            if target < len {
                assert(acc0 + (seq![line@] + spec_lines(text@, target + 1)) =~= acc0.push(line@)
                    + spec_lines(text@, target + 1));
            } else {
                assert(spec_lines(text@, pos as int) =~= seq![line@]);
                assert(acc0 + seq![line@] =~= acc0.push(line@) + spec_lines(text@, len as int));
            }
        }
        if end < len {
            pos = end + 1;
        } else {
            pos = end;
        }
    }
    proof {
        assert(spec_lines(text@, pos as int) =~= Seq::<Seq<char>>::empty());
        assert(out@.map_values(|w: String| w@) + Seq::<Seq<char>>::empty() =~= out@.map_values(
            |w: String| w@,
        ));
    }
    out
}

/// All words are non-empty.
pub proof fn lemma_words_nonempty(s: Seq<char>)
    ensures
        forall|i: int| 0 <= i < spec_words(s).len() ==> (#[trigger] spec_words(s)[i]).len() > 0,
    decreases s.len(),
{
    if s.len() > 0 {
        if is_space(s[0]) {
            lemma_words_nonempty(s.drop_first());
            assert forall|i: int| 0 <= i < spec_words(s).len() implies (
            #[trigger] spec_words(s)[i]).len() > 0 by {
                assert(spec_words(s)[i] == spec_words(s.drop_first())[i]);
            }
        } else {
            lemma_word_len(s);
            let w = word_len(s);
            if 1 <= w <= s.len() {
                lemma_words_nonempty(s.skip(w));
                assert forall|i: int| 0 <= i < spec_words(s).len() implies (
                #[trigger] spec_words(s)[i]).len() > 0 by {
                    if i > 0 {
                        assert(spec_words(s)[i] == spec_words(s.skip(w))[i - 1]);
                    } else {
                        assert(spec_words(s)[0] == s.subrange(0, w));
                    }
                }
            }
        }
    }
}

// ---------------------------------------------------------------------
// SRG lines
// ---------------------------------------------------------------------
/// Failure of parsing a line of SRG text.
#[derive(Debug)]
pub enum SrgParseError {
    UnexpectedMappingType(String),
    UnexpectedNumWords { expected: usize, actual: usize },
    InvalidMethodDescriptor(MethodDescriptorParseError),
    InvalidName(NameParseError),
}

/// The kind of an SRG parsing failure, for contracts.
pub enum SrgErrKind {
    BadTag,
    BadArity,
    BadDescriptor,
    BadName,
}

pub open spec fn srg_err_kind(e: SrgParseError) -> SrgErrKind {
    match e {
        SrgParseError::UnexpectedMappingType(_) => SrgErrKind::BadTag,
        SrgParseError::UnexpectedNumWords { .. } => SrgErrKind::BadArity,
        SrgParseError::InvalidMethodDescriptor(_) => SrgErrKind::BadDescriptor,
        SrgParseError::InvalidName(_) => SrgErrKind::BadName,
    }
}

/// The class side of a qualified member name.
pub open spec fn member_class(s: Seq<char>) -> Seq<char> {
    s.subrange(0, last_slash(s)->Some_0)
}

/// The member side of a qualified member name.
pub open spec fn member_name(s: Seq<char>) -> Seq<char> {
    s.subrange(last_slash(s)->Some_0 + 1, s.len() as int)
}

/// What one SRG line does to a store.
pub open spec fn srg_line_effect(b: StoreV, line: Seq<char>, ignore_pk: bool) -> Result<
    StoreV,
    SrgErrKind,
> {
    if line.len() >= 3 && line.subrange(0, 3) == "MD:"@ {
        let ws = spec_words(line.skip(3));
        if ws.len() != 4 {
            Err(SrgErrKind::BadArity)
        } else if !valid_sig(ws[1]) {
            Err(SrgErrKind::BadDescriptor)
        } else if !valid_sig(ws[3]) {
            Err(SrgErrKind::BadDescriptor)
        } else if !parse_qualified_name_ok(ws[0]) {
            Err(SrgErrKind::BadName)
        } else if !parse_qualified_name_ok(ws[2]) {
            Err(SrgErrKind::BadName)
        } else {
            Ok(
                StoreV {
                    classes: b.classes,
                    fields: b.fields,
                    methods: insert_assoc(
                        b.methods,
                        MethodDataV {
                            class: member_class(ws[0]),
                            name: member_name(ws[0]),
                            descriptor: ws[1],
                        },
                        member_name(ws[2]),
                    ),
                },
            )
        }
    } else if line.len() >= 3 && line.subrange(0, 3) == "FD:"@ {
        let ws = spec_words(line.skip(3));
        if ws.len() != 2 {
            Err(SrgErrKind::BadArity)
        } else if !parse_qualified_name_ok(ws[0]) {
            Err(SrgErrKind::BadName)
        } else if !parse_qualified_name_ok(ws[1]) {
            Err(SrgErrKind::BadName)
        } else {
            Ok(
                StoreV {
                    classes: b.classes,
                    fields: insert_assoc(
                        b.fields,
                        FieldDataV { class: member_class(ws[0]), name: member_name(ws[0]) },
                        member_name(ws[1]),
                    ),
                    methods: b.methods,
                },
            )
        }
    } else if line.len() >= 3 && line.subrange(0, 3) == "CL:"@ {
        let ws = spec_words(line.skip(3));
        if ws.len() != 2 {
            Err(SrgErrKind::BadArity)
        } else if !wf_class_chars(ws[0]) {
            Err(SrgErrKind::BadName)
        } else if !wf_class_chars(ws[1]) {
            Err(SrgErrKind::BadName)
        } else {
            Ok(
                StoreV {
                    classes: insert_assoc(b.classes, ws[0], ws[1]),
                    fields: b.fields,
                    methods: b.methods,
                },
            )
        }
    } else if line.len() >= 3 && line.subrange(0, 3) == "PK:"@ {
        if ignore_pk {
            Ok(b)
        } else {
            Err(SrgErrKind::BadTag)
        }
    } else {
        let ws = spec_words(line);
        if ws.len() == 0 {
            Ok(b)
        } else if ws[0][0] == '#' {
            Ok(b)
        } else {
            Err(SrgErrKind::BadTag)
        }
    }
}

/// The effect of a sequence of SRG lines, stopping at the first bad
/// one.
pub open spec fn srg_apply_lines(b: StoreV, lines: Seq<Seq<char>>, ignore_pk: bool) -> Result<
    StoreV,
    SrgErrKind,
>
    decreases lines.len(),
{
    if lines.len() == 0 {
        Ok(b)
    } else {
        match srg_line_effect(b, lines[0], ignore_pk) {
            Err(k) => Err(k),
            Ok(b2) => srg_apply_lines(b2, lines.drop_first(), ignore_pk),
        }
    }
}

/// Reads SRG text into a store.
#[derive(Debug)]
pub struct SrgMappingsParser {
    pub builder: MappingsBuilder,
    pub ignore_package_mappings: bool,
}

impl Default for SrgMappingsParser {
    /// An empty parser; package lines are ignored, as they are part of
    /// the format but carry nothing the store holds.
    fn default() -> (r: Self)
        ensures
            r.builder@.classes.len() == 0,
            r.builder@.fields.len() == 0,
            r.builder@.methods.len() == 0,
            r.builder.wf(),
            r.ignore_package_mappings,
    {
        SrgMappingsParser { builder: MappingsBuilder::new(), ignore_package_mappings: true }
    }
}

/// Check a qualified member name at run time, returning its parts.
fn parse_member(word: &String) -> (r: Result<(JavaClass, String), NameParseError>)
    ensures
        r is Ok <==> parse_qualified_name_ok(word@),
        r matches Ok((c, m)) ==> c@ == member_class(word@) && m@ == member_name(word@)
            && wf_class_chars(c@) && wf_member_chars(m@),
{
    proof {
        crate::names::lemma_last_slash(word@);
    }
    parse_qualified_name(word.as_str())
}

impl SrgMappingsParser {
    /// Take the accumulated store.
    pub fn finish(self) -> (r: MappingsBuilder)
        ensures
            r == self.builder,
    {
        self.builder
    }

    /// Parse one line: a tagged record, a package line, a comment or a
    /// blank.
    pub fn parse_line(&mut self, line: &str) -> (r: Result<(), SrgParseError>)
        requires
            old(self).builder.wf(),
        ensures
            final(self).builder.wf(),
            final(self).ignore_package_mappings == old(self).ignore_package_mappings,
            match srg_line_effect(old(self).builder@, line@, old(self).ignore_package_mappings) {
                Ok(s) => r is Ok && final(self).builder@ == s,
                Err(k) => r matches Err(e) && srg_err_kind(e) == k && final(self).builder@ == old(
                    self,
                ).builder@,
            },
    {
        proof {
            reveal_strlit("MD:");
            reveal_strlit("FD:");
            reveal_strlit("CL:");
            reveal_strlit("PK:");
        }
        let len = line.unicode_len();
        if len >= 3 {
            let c0 = line.get_char(0);
            let c1 = line.get_char(1);
            let c2 = line.get_char(2);
            let ghost tag = line@.subrange(0, 3);
            proof {
                assert(tag[0] == line@[0] && tag[1] == line@[1] && tag[2] == line@[2]);
                assert(("MD:"@).len() == 3 && ("FD:"@).len() == 3 && ("CL:"@).len() == 3 && (
                "PK:"@).len() == 3);
            }
            if c1 == 'D' && c2 == ':' && (c0 == 'M' || c0 == 'F') {
                let data = line.substring_char(3, len);
                proof {
                    assert(data@ =~= line@.skip(3));
                }
                let words = split_words(data);
                proof {
                    lemma_words_nonempty(data@);
                }
                if c0 == 'M' {
                    proof {
                        assert(tag =~= "MD:"@);
                    }
                    if words.len() != 4 {
                        return Err(
                            SrgParseError::UnexpectedNumWords { expected: 4, actual: words.len() },
                        );
                    }
                    proof {
                        assert(words@[0]@ == spec_words(line@.skip(3))[0]);
                        assert(words@[1]@ == spec_words(line@.skip(3))[1]);
                        assert(words@[2]@ == spec_words(line@.skip(3))[2]);
                        assert(words@[3]@ == spec_words(line@.skip(3))[3]);
                    }
                    let original_signature = MethodSignature::new(words[1].as_str());
                    if let Err(e) = original_signature.parse() {
                        return Err(SrgParseError::InvalidMethodDescriptor(e));
                    }
                    let revised_signature = MethodSignature::new(words[3].as_str());
                    if let Err(e) = revised_signature.parse() {
                        return Err(SrgParseError::InvalidMethodDescriptor(e));
                    }
                    let (oc, on) = match parse_member(&words[0]) {
                        Ok(p) => p,
                        Err(e) => {
                            return Err(SrgParseError::InvalidName(e));
                        },
                    };
                    let (_rc, rn) = match parse_member(&words[2]) {
                        Ok(p) => p,
                        Err(e) => {
                            return Err(SrgParseError::InvalidName(e));
                        },
                    };
                    let key = MethodData { class: oc, name: on, signature: original_signature };
                    match self.builder.insert_method(key, rn) {
                        Ok(()) => {},
                        Err(_) => {
                            proof {
                                assert(false);
                            }
                        },
                    }
                    return Ok(());
                } else {
                    proof {
                        assert(tag =~= "FD:"@);
                    }
                    if words.len() != 2 {
                        return Err(
                            SrgParseError::UnexpectedNumWords { expected: 2, actual: words.len() },
                        );
                    }
                    proof {
                        assert(words@[0]@ == spec_words(line@.skip(3))[0]);
                        assert(words@[1]@ == spec_words(line@.skip(3))[1]);
                    }
                    let (oc, on) = match parse_member(&words[0]) {
                        Ok(p) => p,
                        Err(e) => {
                            return Err(SrgParseError::InvalidName(e));
                        },
                    };
                    let (_rc, rn) = match parse_member(&words[1]) {
                        Ok(p) => p,
                        Err(e) => {
                            return Err(SrgParseError::InvalidName(e));
                        },
                    };
                    let key = FieldData { class: oc, name: on };
                    match self.builder.insert_field(key, rn) {
                        Ok(()) => {},
                        Err(_) => {
                            proof {
                                assert(false);
                            }
                        },
                    }
                    return Ok(());
                }
            }
            if c0 == 'C' && c1 == 'L' && c2 == ':' {
                proof {
                    assert(tag =~= "CL:"@);
                }
                let data = line.substring_char(3, len);
                proof {
                    assert(data@ =~= line@.skip(3));
                }
                let words = split_words(data);
                if words.len() != 2 {
                    return Err(
                        SrgParseError::UnexpectedNumWords { expected: 2, actual: words.len() },
                    );
                }
                proof {
                    assert(words@[0]@ == spec_words(line@.skip(3))[0]);
                    assert(words@[1]@ == spec_words(line@.skip(3))[1]);
                }
                let oc = match JavaClass::parse_internal_name(words[0].as_str()) {
                    Ok(c) => c,
                    Err(e) => {
                        return Err(SrgParseError::InvalidName(e));
                    },
                };
                let rc = match JavaClass::parse_internal_name(words[1].as_str()) {
                    Ok(c) => c,
                    Err(e) => {
                        return Err(SrgParseError::InvalidName(e));
                    },
                };
                match self.builder.insert_class(oc, rc) {
                    Ok(()) => {},
                    Err(_) => {
                        proof {
                            assert(false);
                        }
                    },
                }
                return Ok(());
            }
            if c0 == 'P' && c1 == 'K' && c2 == ':' {
                proof {
                    assert(tag =~= "PK:"@);
                }
                if self.ignore_package_mappings {
                    return Ok(());
                } else {
                    return Err(SrgParseError::UnexpectedMappingType(String::from_str("PK:")));
                }
            }
            proof {
                assert(tag != "MD:"@ && tag != "FD:"@ && tag != "CL:"@ && tag != "PK:"@);
            }
        }
        let words = split_words(line);
        proof {
            lemma_words_nonempty(line@);
        }
        if words.len() == 0 {
            return Ok(());
        }
        proof {
            assert(words@[0]@ == spec_words(line@)[0]);
        }
        if words[0].as_str().get_char(0) == '#' {
            return Ok(());
        }
        let offending = words[0].clone();
        Err(SrgParseError::UnexpectedMappingType(offending))
    }

    /// Parse a whole text, line by line, stopping at the first bad
    /// line.
    pub fn parse_text(&mut self, text: &str) -> (r: Result<(), SrgParseError>)
        requires
            old(self).builder.wf(),
        ensures
            final(self).builder.wf(),
            match srg_apply_lines(
                old(self).builder@,
                spec_lines(text@, 0),
                old(self).ignore_package_mappings,
            ) {
                Ok(s) => r is Ok && final(self).builder@ == s,
                Err(k) => r matches Err(e) && srg_err_kind(e) == k,
            },
    {
        let lines = split_text_lines(text);
        let ghost all = spec_lines(text@, 0);
        let ghost ig = self.ignore_package_mappings;
        let ghost b0 = self.builder@;
        let mut i: usize = 0;
        proof {
            assert(all.skip(0) =~= all);
        }
        while i < lines.len()
            invariant
                i <= lines.len(),
                lines@.map_values(|w: String| w@) == all,
                self.builder.wf(),
                self.ignore_package_mappings == ig,
                b0 == old(self).builder@,
                ig == old(self).ignore_package_mappings,
                all == spec_lines(text@, 0),
                srg_apply_lines(b0, all, ig) == srg_apply_lines(
                    self.builder@,
                    all.skip(i as int),
                    ig,
                ),
            decreases lines.len() - i,
        {
            proof {
                assert(all.skip(i as int)[0] == lines@[i as int]@);
                assert(all.skip(i as int).drop_first() =~= all.skip(i + 1));
            }
            let ghost pre = self.builder@;
            if let Err(e) = self.parse_line(lines[i].as_str()) {
                proof {
                    assert(srg_apply_lines(pre, all.skip(i as int), ig) == srg_apply_lines(
                        b0,
                        all,
                        ig,
                    ));
                    assert(srg_apply_lines(pre, all.skip(i as int), ig) is Err);
                }
                return Err(e);
            }
            i = i + 1;
        }
        proof {
            assert(all.skip(lines.len() as int) =~= Seq::<Seq<char>>::empty());
        }
        Ok(())
    }
}

// ---------------------------------------------------------------------
// CSRG lines
// ---------------------------------------------------------------------
/// Failure of parsing a line of CSRG text.
#[derive(Debug)]
pub enum CompactSrgParseError {
    UnexpectedNumWords(usize),
    InvalidName(NameParseError),
    InvalidDescriptor(MethodDescriptorParseError),
}

/// The kind of a CSRG parsing failure, for contracts.
pub enum CsrgErrKind {
    BadArity,
    BadName,
    BadDescriptor,
}

pub open spec fn csrg_err_kind(e: CompactSrgParseError) -> CsrgErrKind {
    match e {
        CompactSrgParseError::UnexpectedNumWords(_) => CsrgErrKind::BadArity,
        CompactSrgParseError::InvalidName(_) => CsrgErrKind::BadName,
        CompactSrgParseError::InvalidDescriptor(_) => CsrgErrKind::BadDescriptor,
    }
}

/// What one CSRG line does to a store: the number of words selects
/// class, field or method.
pub open spec fn csrg_line_effect(b: StoreV, line: Seq<char>) -> Result<StoreV, CsrgErrKind> {
    let ws = spec_words(line);
    if ws.len() == 0 {
        Ok(b)
    } else if ws[0][0] == '#' {
        Ok(b)
    } else if ws.len() == 2 {
        if !wf_class_chars(ws[0]) {
            Err(CsrgErrKind::BadName)
        } else if !wf_class_chars(ws[1]) {
            Err(CsrgErrKind::BadName)
        } else {
            Ok(
                StoreV {
                    classes: insert_assoc(b.classes, ws[0], ws[1]),
                    fields: b.fields,
                    methods: b.methods,
                },
            )
        }
    } else if ws.len() == 3 {
        if !wf_class_chars(ws[0]) {
            Err(CsrgErrKind::BadName)
        } else {
            Ok(
                StoreV {
                    classes: b.classes,
                    fields: insert_assoc(
                        b.fields,
                        FieldDataV { class: ws[0], name: ws[1] },
                        ws[2],
                    ),
                    methods: b.methods,
                },
            )
        }
    } else if ws.len() == 4 {
        if !wf_class_chars(ws[0]) {
            Err(CsrgErrKind::BadName)
        } else if !valid_sig(ws[2]) {
            Err(CsrgErrKind::BadDescriptor)
        } else {
            Ok(
                StoreV {
                    classes: b.classes,
                    fields: b.fields,
                    methods: insert_assoc(
                        b.methods,
                        MethodDataV { class: ws[0], name: ws[1], descriptor: ws[2] },
                        ws[3],
                    ),
                },
            )
        }
    } else {
        Err(CsrgErrKind::BadArity)
    }
}

pub open spec fn csrg_apply_lines(b: StoreV, lines: Seq<Seq<char>>) -> Result<StoreV, CsrgErrKind>
    decreases lines.len(),
{
    if lines.len() == 0 {
        Ok(b)
    } else {
        match csrg_line_effect(b, lines[0]) {
            Err(k) => Err(k),
            Ok(b2) => csrg_apply_lines(b2, lines.drop_first()),
        }
    }
}

/// Reads CSRG text into a store.
#[derive(Debug)]
pub struct CompactSrgParser {
    pub builder: MappingsBuilder,
}

impl Default for CompactSrgParser {
    fn default() -> (r: Self)
        ensures
            r.builder@.classes.len() == 0,
            r.builder@.fields.len() == 0,
            r.builder@.methods.len() == 0,
            r.builder.wf(),
    {
        CompactSrgParser { builder: MappingsBuilder::new() }
    }
}

impl CompactSrgParser {
    /// Take the accumulated store.
    pub fn finish(self) -> (r: MappingsBuilder)
        ensures
            r == self.builder,
    {
        self.builder
    }

    /// Parse one line; the number of words selects the record.
    pub fn parse_line(&mut self, line: &str) -> (r: Result<(), CompactSrgParseError>)
        requires
            old(self).builder.wf(),
        ensures
            final(self).builder.wf(),
            match csrg_line_effect(old(self).builder@, line@) {
                Ok(s) => r is Ok && final(self).builder@ == s,
                Err(k) => r matches Err(e) && csrg_err_kind(e) == k && final(self).builder@ == old(
                    self,
                ).builder@,
            },
    {
        let words = split_words(line);
        proof {
            lemma_words_nonempty(line@);
        }
        if words.len() == 0 {
            return Ok(());
        }
        proof {
            assert(words@[0]@ == spec_words(line@)[0]);
        }
        if words[0].as_str().get_char(0) == '#' {
            return Ok(());
        }
        if words.len() == 2 {
            proof {
                assert(words@[1]@ == spec_words(line@)[1]);
            }
            let oc = match JavaClass::parse_internal_name(words[0].as_str()) {
                Ok(c) => c,
                Err(e) => {
                    return Err(CompactSrgParseError::InvalidName(e));
                },
            };
            let rc = match JavaClass::parse_internal_name(words[1].as_str()) {
                Ok(c) => c,
                Err(e) => {
                    return Err(CompactSrgParseError::InvalidName(e));
                },
            };
            match self.builder.insert_class(oc, rc) {
                Ok(()) => {},
                Err(_) => {
                    proof {
                        assert(false);
                    }
                },
            }
            Ok(())
        } else if words.len() == 3 {
            proof {
                assert(words@[1]@ == spec_words(line@)[1]);
                assert(words@[2]@ == spec_words(line@)[2]);
            }
            let oc = match JavaClass::parse_internal_name(words[0].as_str()) {
                Ok(c) => c,
                Err(e) => {
                    return Err(CompactSrgParseError::InvalidName(e));
                },
            };
            let original_name = words[1].clone();
            let revised_name = words[2].clone();
            let key = FieldData { class: oc, name: original_name };
            match self.builder.insert_field(key, revised_name) {
                Ok(()) => {},
                Err(_) => {
                    proof {
                        assert(false);
                    }
                },
            }
            Ok(())
        } else if words.len() == 4 {
            proof {
                assert(words@[1]@ == spec_words(line@)[1]);
                assert(words@[2]@ == spec_words(line@)[2]);
                assert(words@[3]@ == spec_words(line@)[3]);
            }
            let oc = match JavaClass::parse_internal_name(words[0].as_str()) {
                Ok(c) => c,
                Err(e) => {
                    return Err(CompactSrgParseError::InvalidName(e));
                },
            };
            let original_signature = MethodSignature::new(words[2].as_str());
            if let Err(e) = original_signature.parse() {
                return Err(CompactSrgParseError::InvalidDescriptor(e));
            }
            let original_name = words[1].clone();
            let revised_name = words[3].clone();
            let key = MethodData { class: oc, name: original_name, signature: original_signature };
            match self.builder.insert_method(key, revised_name) {
                Ok(()) => {},
                Err(_) => {
                    proof {
                        assert(false);
                    }
                },
            }
            Ok(())
        } else {
            Err(CompactSrgParseError::UnexpectedNumWords(words.len()))
        }
    }

    /// Parse a whole text, line by line, stopping at the first bad
    /// line.
    pub fn parse_text(&mut self, text: &str) -> (r: Result<(), CompactSrgParseError>)
        requires
            old(self).builder.wf(),
        ensures
            final(self).builder.wf(),
            match csrg_apply_lines(old(self).builder@, spec_lines(text@, 0)) {
                Ok(s) => r is Ok && final(self).builder@ == s,
                Err(k) => r matches Err(e) && csrg_err_kind(e) == k,
            },
    {
        let lines = split_text_lines(text);
        let ghost all = spec_lines(text@, 0);
        let ghost b0 = self.builder@;
        let mut i: usize = 0;
        proof {
            assert(all.skip(0) =~= all);
        }
        while i < lines.len()
            invariant
                i <= lines.len(),
                lines@.map_values(|w: String| w@) == all,
                self.builder.wf(),
                b0 == old(self).builder@,
                all == spec_lines(text@, 0),
                csrg_apply_lines(b0, all) == csrg_apply_lines(
                    self.builder@,
                    all.skip(i as int),
                ),
            decreases lines.len() - i,
        {
            proof {
                assert(all.skip(i as int)[0] == lines@[i as int]@);
                assert(all.skip(i as int).drop_first() =~= all.skip(i + 1));
            }
            let ghost pre = self.builder@;
            if let Err(e) = self.parse_line(lines[i].as_str()) {
                proof {
                    assert(csrg_apply_lines(pre, all.skip(i as int)) == csrg_apply_lines(b0, all));
                    assert(csrg_apply_lines(pre, all.skip(i as int)) is Err);
                }
                return Err(e);
            }
            i = i + 1;
        }
        proof {
            assert(all.skip(lines.len() as int) =~= Seq::<Seq<char>>::empty());
        }
        Ok(())
    }
}

// ---------------------------------------------------------------------
// SRG writer
// ---------------------------------------------------------------------
/// The text of one class line.
pub open spec fn srg_class_line(p: (Seq<char>, Seq<char>)) -> Seq<char> {
    "CL: "@ + p.0 + " "@ + p.1 + "\n"@
}

/// The text of one field line; both sides are fully qualified.
pub open spec fn srg_field_line(p: (FieldDataV, FieldDataV)) -> Seq<char> {
    "FD: "@ + p.0.class + "/"@ + p.0.name + " "@ + p.1.class + "/"@ + p.1.name + "\n"@
}

/// The text of one method line, descriptors on both sides.
pub open spec fn srg_method_line(p: (MethodDataV, MethodDataV)) -> Seq<char> {
    "MD: "@ + p.0.class + "/"@ + p.0.name + " "@ + p.0.descriptor + " "@ + p.1.class + "/"@
        + p.1.name + " "@ + p.1.descriptor + "\n"@
}

pub open spec fn srg_class_lines(cs: Seq<(Seq<char>, Seq<char>)>) -> Seq<char>
    decreases cs.len(),
{
    if cs.len() == 0 {
        Seq::empty()
    } else {
        srg_class_line(cs[0]) + srg_class_lines(cs.drop_first())
    }
}

pub open spec fn srg_field_lines(fs: Seq<(FieldDataV, FieldDataV)>) -> Seq<char>
    decreases fs.len(),
{
    if fs.len() == 0 {
        Seq::empty()
    } else {
        srg_field_line(fs[0]) + srg_field_lines(fs.drop_first())
    }
}

pub open spec fn srg_method_lines(ms: Seq<(MethodDataV, MethodDataV)>) -> Seq<char>
    decreases ms.len(),
{
    if ms.len() == 0 {
        Seq::empty()
    } else {
        srg_method_line(ms[0]) + srg_method_lines(ms.drop_first())
    }
}

/// A snapshot as SRG text: classes, then fields, then methods.
pub open spec fn spec_srg_text(s: SnapshotV) -> Seq<char> {
    srg_class_lines(s.classes) + srg_field_lines(s.fields) + srg_method_lines(s.methods)
}

pub proof fn lemma_srg_class_lines_snoc(cs: Seq<(Seq<char>, Seq<char>)>, x: (Seq<char>, Seq<char>))
    ensures
        srg_class_lines(cs.push(x)) == srg_class_lines(cs) + srg_class_line(x),
    decreases cs.len(),
{
    if cs.len() == 0 {
        assert(cs.push(x)[0] == x);
        assert(cs.push(x).drop_first() =~= Seq::<(Seq<char>, Seq<char>)>::empty());
        assert(srg_class_lines(cs.push(x)) == srg_class_line(cs.push(x)[0]) + srg_class_lines(
            cs.push(x).drop_first(),
        ));
        assert(srg_class_line(cs.push(x)[0]) == srg_class_line(x));
        assert(srg_class_line(x) + Seq::<char>::empty() =~= srg_class_line(x));
        assert(Seq::<char>::empty() + srg_class_line(x) =~= srg_class_line(x));
    } else {
        assert(cs.push(x)[0] == cs[0]);
        assert(cs.push(x).drop_first() =~= cs.drop_first().push(x));
        lemma_srg_class_lines_snoc(cs.drop_first(), x);
        assert(srg_class_lines(cs.push(x)) == srg_class_line(cs.push(x)[0]) + srg_class_lines(
            cs.push(x).drop_first(),
        ));
        assert(srg_class_line(cs.push(x)[0]) == srg_class_line(cs[0]));
        assert(srg_class_lines(cs) == srg_class_line(cs[0]) + srg_class_lines(cs.drop_first()));
        assert((srg_class_line(cs[0]) + srg_class_lines(cs.drop_first())) + srg_class_line(x)
            =~= srg_class_line(cs[0]) + (srg_class_lines(cs.drop_first()) + srg_class_line(x)));
    }
}

pub proof fn lemma_srg_field_lines_snoc(fs: Seq<(FieldDataV, FieldDataV)>, x: (FieldDataV, FieldDataV))
    ensures
        srg_field_lines(fs.push(x)) == srg_field_lines(fs) + srg_field_line(x),
    decreases fs.len(),
{
    if fs.len() == 0 {
        assert(fs.push(x)[0] == x);
        assert(fs.push(x).drop_first() =~= Seq::<(FieldDataV, FieldDataV)>::empty());
        assert(srg_field_lines(fs.push(x)) == srg_field_line(fs.push(x)[0]) + srg_field_lines(
            fs.push(x).drop_first(),
        ));
        assert(srg_field_line(fs.push(x)[0]) == srg_field_line(x));
        assert(srg_field_line(x) + Seq::<char>::empty() =~= srg_field_line(x));
        assert(Seq::<char>::empty() + srg_field_line(x) =~= srg_field_line(x));
    } else {
        assert(fs.push(x)[0] == fs[0]);
        assert(fs.push(x).drop_first() =~= fs.drop_first().push(x));
        lemma_srg_field_lines_snoc(fs.drop_first(), x);
        assert(srg_field_lines(fs.push(x)) == srg_field_line(fs.push(x)[0]) + srg_field_lines(
            fs.push(x).drop_first(),
        ));
        assert(srg_field_line(fs.push(x)[0]) == srg_field_line(fs[0]));
        assert(srg_field_lines(fs) == srg_field_line(fs[0]) + srg_field_lines(fs.drop_first()));
        assert((srg_field_line(fs[0]) + srg_field_lines(fs.drop_first())) + srg_field_line(x)
            =~= srg_field_line(fs[0]) + (srg_field_lines(fs.drop_first()) + srg_field_line(x)));
    }
}

pub proof fn lemma_srg_method_lines_snoc(
    ms: Seq<(MethodDataV, MethodDataV)>,
    x: (MethodDataV, MethodDataV),
)
    ensures
        srg_method_lines(ms.push(x)) == srg_method_lines(ms) + srg_method_line(x),
    decreases ms.len(),
{
    if ms.len() == 0 {
        assert(ms.push(x)[0] == x);
        assert(ms.push(x).drop_first() =~= Seq::<(MethodDataV, MethodDataV)>::empty());
        assert(srg_method_lines(ms.push(x)) == srg_method_line(ms.push(x)[0]) + srg_method_lines(
            ms.push(x).drop_first(),
        ));
        assert(srg_method_line(ms.push(x)[0]) == srg_method_line(x));
        assert(srg_method_line(x) + Seq::<char>::empty() =~= srg_method_line(x));
        assert(Seq::<char>::empty() + srg_method_line(x) =~= srg_method_line(x));
    } else {
        assert(ms.push(x)[0] == ms[0]);
        assert(ms.push(x).drop_first() =~= ms.drop_first().push(x));
        lemma_srg_method_lines_snoc(ms.drop_first(), x);
        assert(srg_method_lines(ms.push(x)) == srg_method_line(ms.push(x)[0]) + srg_method_lines(
            ms.push(x).drop_first(),
        ));
        assert(srg_method_line(ms.push(x)[0]) == srg_method_line(ms[0]));
        assert(srg_method_lines(ms) == srg_method_line(ms[0]) + srg_method_lines(
            ms.drop_first(),
        ));
        assert((srg_method_line(ms[0]) + srg_method_lines(ms.drop_first())) + srg_method_line(x)
            =~= srg_method_line(ms[0]) + (srg_method_lines(ms.drop_first()) + srg_method_line(x)));
    }
}

/// Writes a snapshot as SRG text.
#[derive(Debug)]
pub struct SrgEncoder<'a> {
    pub mappings: &'a MappingsSnapshot,
}

impl<'a> SrgEncoder<'a> {
    pub fn new(mappings: &'a MappingsSnapshot) -> (r: SrgEncoder<'a>)
        ensures
            r.mappings == mappings,
    {
        SrgEncoder { mappings }
    }

    /// Append every class line, then every field line, then every
    /// method line.
    pub fn write(&self, out: &mut String)
        ensures
            final(out)@ == old(out)@ + spec_srg_text(self.mappings@),
    {
        let ghost start = out@;
        let ghost sv = self.mappings@;
        let mut i: usize = 0;
        while i < self.mappings.classes.len()
            invariant
                i <= self.mappings.classes.len(),
                sv == self.mappings@,
                out@ == start + srg_class_lines(sv.classes.take(i as int)),
            decreases self.mappings.classes.len() - i,
        {
            let ghost before = out@;
            out.append("CL: ");
            out.append(self.mappings.classes[i].0.internal_name());
            out.append(" ");
            out.append(self.mappings.classes[i].1.internal_name());
            out.append("\n");
            proof {
                assert(out@ =~= before + srg_class_line(sv.classes[i as int]));
                assert(sv.classes.take(i + 1) =~= sv.classes.take(i as int).push(
                    sv.classes[i as int],
                ));
                lemma_srg_class_lines_snoc(sv.classes.take(i as int), sv.classes[i as int]);
                assert(out@ =~= start + srg_class_lines(sv.classes.take(i + 1)));
            }
            i = i + 1;
        }
        proof {
            assert(sv.classes.take(self.mappings.classes.len() as int) =~= sv.classes);
        }
        let ghost mid1 = out@;
        let mut i: usize = 0;
        while i < self.mappings.fields.len()
            invariant
                i <= self.mappings.fields.len(),
                sv == self.mappings@,
                out@ == mid1 + srg_field_lines(sv.fields.take(i as int)),
                mid1 == start + srg_class_lines(sv.classes),
            decreases self.mappings.fields.len() - i,
        {
            let ghost before = out@;
            out.append("FD: ");
            out.append(self.mappings.fields[i].0.class.internal_name());
            out.append("/");
            out.append(self.mappings.fields[i].0.name.as_str());
            out.append(" ");
            out.append(self.mappings.fields[i].1.class.internal_name());
            out.append("/");
            out.append(self.mappings.fields[i].1.name.as_str());
            out.append("\n");
            proof {
                assert(out@ =~= before + srg_field_line(sv.fields[i as int]));
                assert(sv.fields.take(i + 1) =~= sv.fields.take(i as int).push(
                    sv.fields[i as int],
                ));
                lemma_srg_field_lines_snoc(sv.fields.take(i as int), sv.fields[i as int]);
                assert(out@ =~= mid1 + srg_field_lines(sv.fields.take(i + 1)));
            }
            i = i + 1;
        }
        proof {
            assert(sv.fields.take(self.mappings.fields.len() as int) =~= sv.fields);
        }
        let ghost mid2 = out@;
        let mut i: usize = 0;
        while i < self.mappings.methods.len()
            invariant
                i <= self.mappings.methods.len(),
                sv == self.mappings@,
                out@ == mid2 + srg_method_lines(sv.methods.take(i as int)),
                mid2 == start + srg_class_lines(sv.classes) + srg_field_lines(sv.fields),
            decreases self.mappings.methods.len() - i,
        {
            let ghost before = out@;
            out.append("MD: ");
            out.append(self.mappings.methods[i].0.class.internal_name());
            out.append("/");
            out.append(self.mappings.methods[i].0.name.as_str());
            out.append(" ");
            out.append(self.mappings.methods[i].0.signature.descriptor());
            out.append(" ");
            out.append(self.mappings.methods[i].1.class.internal_name());
            out.append("/");
            out.append(self.mappings.methods[i].1.name.as_str());
            out.append(" ");
            out.append(self.mappings.methods[i].1.signature.descriptor());
            out.append("\n");
            proof {
                assert(out@ =~= before + srg_method_line(sv.methods[i as int]));
                assert(sv.methods.take(i + 1) =~= sv.methods.take(i as int).push(
                    sv.methods[i as int],
                ));
                lemma_srg_method_lines_snoc(sv.methods.take(i as int), sv.methods[i as int]);
                assert(out@ =~= mid2 + srg_method_lines(sv.methods.take(i + 1)));
            }
            i = i + 1;
        }
        proof {
            assert(sv.methods.take(self.mappings.methods.len() as int) =~= sv.methods);
            assert(out@ =~= start + spec_srg_text(sv));
        }
    }
}

} // verus!
