//! File-format selection: the full extension of a path decides how a
//! mapping file is read, and an output format decides how one is
//! written.

use vstd::prelude::*;
use vstd::string::StrSliceExecFns;
use vstd::string::StringExecFns;

use crate::store::MappingsSnapshot;
use crate::text::{SrgEncoder, spec_srg_text};
use crate::targets::find_char;
use crate::codec::{MappingsEncoder, BinaryMappingError, build_groups, groups_fit,
    spec_encode_envelope, spec_encode_body, lz4_frame_of};

verus! {

/// Everything after the first `.` of the name, or nothing.
pub fn full_extension(name: &str) -> (r: Option<String>)
    ensures
        match find_char(name@, '.') {
            Some(i) => r matches Some(e) && e@ == name@.skip(i + 1),
            None => r is None,
        },
{
    proof {
        crate::targets::lemma_find_char(name@, '.');
    }
    let len = name.unicode_len();
    let mut i: usize = 0;
    while i < len
        invariant
            i <= len,
            len == name@.len(),
            forall|j: int| 0 <= j < i ==> name@[j] != '.',
        decreases len - i,
    {
        if name.get_char(i) == '.' {
            proof {
                crate::targets::lemma_find_char(name@, '.');
            }
            let e = String::from_str(name.substring_char(i + 1, len));
            proof {
                assert(e@ =~= name@.skip(i + 1));
            }
            return Some(e);
        }
        i = i + 1;
    }
    None
}

/// The text formats a mapping file may hold.
#[derive(Copy, Clone, PartialEq, Eq, Structural, Debug)]
pub enum MappingsFileFormat {
    Srg,
    Csrg,
    Binary,
}

/// The format an extension selects: `csrg`, `srg` or `srg.dat`.
pub open spec fn spec_format_for_extension(e: Seq<char>) -> Option<MappingsFileFormat> {
    if e == "csrg"@ {
        Some(MappingsFileFormat::Csrg)
    } else if e == "srg"@ {
        Some(MappingsFileFormat::Srg)
    } else if e == "srg.dat"@ {
        Some(MappingsFileFormat::Binary)
    } else {
        None
    }
}

/// Recognize a full extension.
pub fn format_for_extension(extension: &str) -> (r: Option<MappingsFileFormat>)
    ensures
        r == spec_format_for_extension(extension@),
{
    let e = String::from_str(extension);
    if e == String::from_str("csrg") {
        Some(MappingsFileFormat::Csrg)
    } else if e == String::from_str("srg") {
        Some(MappingsFileFormat::Srg)
    } else if e == String::from_str("srg.dat") {
        Some(MappingsFileFormat::Binary)
    } else {
        None
    }
}

/// The formats mappings are written in.
#[derive(Copy, Clone, PartialEq, Eq, Structural, Debug)]
pub enum OutputFormat {
    Binary,
    Srg,
}

impl OutputFormat {
    /// Recognize a format name.
    pub fn parse(s: &str) -> (r: Option<OutputFormat>)
        ensures
            s@ == "binary"@ ==> r == Some(OutputFormat::Binary),
            s@ == "srg"@ ==> r == Some(OutputFormat::Srg),
            s@ != "binary"@ && s@ != "srg"@ ==> r is None,
    {
        proof {
            reveal_strlit("binary");
            reveal_strlit("srg");
            assert(("binary"@).len() != ("srg"@).len());
        }
        let w = String::from_str(s);
        if w == String::from_str("binary") {
            Some(OutputFormat::Binary)
        } else if w == String::from_str("srg") {
            Some(OutputFormat::Srg)
        } else {
            None
        }
    }

    /// The output extension the format uses.
    pub fn extension(&self) -> (r: &'static str)
        ensures
            *self is Binary ==> r@ == "srg.dat"@,
            *self is Srg ==> r@ == "srg"@,
    {
        match *self {
            OutputFormat::Binary => "srg.dat",
            OutputFormat::Srg => "srg",
        }
    }

    /// The bytes of the snapshot in this format: the framed binary
    /// container, or SRG text encoded as UTF-8.
    pub fn render(&self, mappings: &MappingsSnapshot) -> (r: Result<Vec<u8>, BinaryMappingError>)
        requires
            *self is Binary ==> groups_fit(build_groups(mappings@)),
        ensures
            *self is Srg ==> (r matches Ok(out) && out@ == vstd::utf8::encode_utf8(
                spec_srg_text(mappings@),
            )),
            *self is Binary ==> (r matches Ok(out) && out@ == spec_encode_envelope(
                "lz4-frame"@,
                lz4_frame_of(spec_encode_body(build_groups(mappings@))),
            )),
    {
        match *self {
            OutputFormat::Srg => {
                let mut text = String::new();
                let encoder = SrgEncoder::new(mappings);
                encoder.write(&mut text);
                let bytes = text.as_str().as_bytes();
                let mut out: Vec<u8> = Vec::new();
                let mut i: usize = 0;
                while i < bytes.len()
                    invariant
                        i <= bytes@.len(),
                        bytes@ == vstd::utf8::encode_utf8(spec_srg_text(mappings@)),
                        out@ == bytes@.take(i as int),
                    decreases bytes@.len() - i,
                {
                    let b = bytes[i];
                    out.push(b);
                    proof {
                        assert(out@ =~= bytes@.take(i + 1));
                    }
                    i = i + 1;
                }
                proof {
                    assert(bytes@.take(bytes@.len() as int) =~= bytes@);
                }
                Ok(out)
            },
            OutputFormat::Binary => {
                let encoder = MappingsEncoder::new();
                encoder.encode(mappings)
            },
        }
    }
}

} // verus!
