//! Rule files: the two kinds, and what the bytes of a file of each kind
//! hold.

use crate::binary::{decode_rules, deserialize_rules};
use crate::parse::{parse_rules, rules, ParseError};
use crate::term::{bytes_eq, rule_views, Rule, RuleView};
use vstd::prelude::*;
use vstd::utf8::valid_utf8;

verus! {

/// The kind of a rule file.
#[derive(Debug, Clone, Copy, PartialEq, Eq, Hash, Structural)]
pub enum FileKind {
    /// Rules in the text syntax, encoded as UTF-8.
    Text,
    /// Rules in the binary format.
    Binary,
}

/// Why the bytes of a file hold no rule set.
#[derive(Debug, Clone, Copy, PartialEq, Eq, Hash, Structural)]
pub enum LoadError {
    /// A text file is not valid UTF-8.
    Encoding,
    /// A text file holds a syntax error.
    Syntax(ParseError),
    /// A binary file is not the encoding of a rule set.
    Payload,
}

/// The kind of file that a file name extension stands for: `mlt` for text,
/// `mlb` for binary.
pub open spec fn kind_of(extension: Seq<u8>) -> Option<FileKind> {
    if extension == seq![109u8, 108u8, 116u8] {
        Some(FileKind::Text)
    } else if extension == seq![109u8, 108u8, 98u8] {
        Some(FileKind::Binary)
    } else {
        None
    }
}

/// The rule set that the bytes of a file of the given kind hold.
pub open spec fn loaded(kind: FileKind, bytes: Seq<u8>) -> Result<Seq<RuleView>, LoadError> {
    match kind {
        FileKind::Text => if !valid_utf8(bytes) {
            Err(LoadError::Encoding)
        } else {
            match parse_rules(bytes) {
                Ok(rs) => Ok(rs),
                Err(e) => Err(LoadError::Syntax(e)),
            }
        },
        FileKind::Binary => match decode_rules(bytes) {
            Some(rs) => Ok(rs),
            None => Err(LoadError::Payload),
        },
    }
}

/// The model of what `load` returns.
pub open spec fn loaded_view(r: Result<Vec<Rule>, LoadError>) -> Result<Seq<RuleView>, LoadError> {
    match r {
        Ok(rs) => Ok(rule_views(rs@)),
        Err(e) => Err(e),
    }
}

/// Whether the bytes are valid UTF-8. This is `core::str::from_utf8`, which
/// succeeds on the byte strings that are valid UTF-8 and on no others; that
/// its notion of validity is the one that `valid_utf8` defines is taken on
/// trust.
#[verifier::external_body]
fn is_utf8(bytes: &[u8]) -> (valid: bool)
    ensures
        valid == valid_utf8(bytes@),
{
    core::str::from_utf8(bytes).is_ok()
}

/// The kind of file that a file name extension stands for.
pub fn file_kind(extension: &[u8]) -> (kind: Option<FileKind>)
    ensures
        kind == kind_of(extension@),
{
    let text: [u8; 3] = [109, 108, 116];
    let binary: [u8; 3] = [109, 108, 98];
    if bytes_eq(extension, text.as_slice()) {
        assert(text@ =~= seq![109u8, 108u8, 116u8]);
        Some(FileKind::Text)
    } else if bytes_eq(extension, binary.as_slice()) {
        assert(binary@ =~= seq![109u8, 108u8, 98u8]);
        Some(FileKind::Binary)
    } else {
        assert(text@ =~= seq![109u8, 108u8, 116u8]);
        assert(binary@ =~= seq![109u8, 108u8, 98u8]);
        None
    }
}

/// Reads the bytes of a file of the given kind as a rule set.
pub fn load(kind: FileKind, bytes: &[u8]) -> (r: Result<Vec<Rule>, LoadError>)
    ensures
        loaded_view(r) == loaded(kind, bytes@),
{
    match kind {
        FileKind::Text => {
            if !is_utf8(bytes) {
                return Err(LoadError::Encoding);
            }
            match rules(bytes) {
                Ok(rs) => Ok(rs),
                Err(e) => Err(LoadError::Syntax(e)),
            }
        },
        FileKind::Binary => match deserialize_rules(bytes) {
            Some(rs) => Ok(rs),
            None => Err(LoadError::Payload),
        },
    }
}

} // verus!
