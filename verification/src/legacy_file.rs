//! Retiring a legacy append file while preserving its exact bytes: where
//! the bytes lie, judged from what the file's path and its staging path
//! name, and the retirement record that pins them.
use vstd::prelude::*;
use vstd::string::{StringExecFns, StringSliceAdditionalSpecFns};
use vstd::utf8::encode_utf8;
use crate::content::particle_eq;
use crate::hash::{hemera, hemera_hash};
use crate::wire::bytes_eq;
use crate::Particle;

verus! {

/// Most bytes a retirement record takes.
pub const MAX_RECORD_BYTES: usize = 8192;

/// What a path names on disk.
#[derive(Debug, Clone, Copy, PartialEq, Eq)]
pub enum PathKind {
    File,
    Directory,
    Other,
    Absent,
}

/// Where the legacy bytes lie: at the path itself, as the `source` entry of
/// the retired directory there, or as the `source` entry of the staging
/// directory.
#[derive(Debug, Clone, Copy, PartialEq, Eq)]
pub enum Place {
    Path,
    Retired,
    Staged,
}

/// Where the retirement record that pins the bytes lies, if anywhere: in the
/// staging directory or in the retired directory.
#[derive(Debug, Clone, Copy, PartialEq, Eq)]
pub enum RecordAt {
    Nowhere,
    Stage,
    Path,
}

/// Where a legacy file's bytes and record lie, and whether it is retired.
#[derive(Debug, Clone, Copy, PartialEq, Eq)]
pub struct Located {
    pub place: Place,
    pub record: RecordAt,
    pub retired: bool,
}

/// Why a legacy file cannot be loaded.
#[derive(Debug)]
pub enum LegacyError {
    Invalid(String),
}

/// Where a legacy file lies, given what its path names, whether its staging
/// path exists and whether a directory at its path holds a retirement
/// record: `Some(None)` where there is no legacy file, `None` where the
/// paths contradict each other.
pub open spec fn located(current: PathKind, staged: bool, marked: bool) -> Option<Option<Located>> {
    match current {
        PathKind::File => Some(Some(Located {
            place: Place::Path,
            record: if staged { RecordAt::Stage } else { RecordAt::Nowhere },
            retired: false,
        })),
        PathKind::Directory => if !marked {
            if staged { None } else { Some(None) }
        } else if staged {
            None
        } else {
            Some(Some(Located { place: Place::Retired, record: RecordAt::Path, retired: true }))
        },
        PathKind::Other => None,
        PathKind::Absent => if staged {
            Some(Some(Located { place: Place::Staged, record: RecordAt::Stage, retired: false }))
        } else {
            Some(None)
        },
    }
}

fn refuse(message: &str) -> (e: LegacyError)
    ensures
        e matches LegacyError::Invalid(m) && m@ == message@,
{
    LegacyError::Invalid(String::from_str(message))
}

/// Find a legacy file from what its path names, whether its staging path
/// exists and whether a directory at its path holds a retirement record. A
/// staged retirement is resumed and a retired directory names its source;
/// a plain directory holds no legacy file.
pub fn locate(current: PathKind, staged: bool, marked: bool) -> (r: Result<Option<Located>, LegacyError>)
    ensures
        match located(current, staged, marked) {
            Some(l) => r matches Ok(x) && x == l,
            None => r is Err,
        },
{
    match current {
        PathKind::File => Ok(Some(Located {
            place: Place::Path,
            record: if staged { RecordAt::Stage } else { RecordAt::Nowhere },
            retired: false,
        })),
        PathKind::Directory => {
            if !marked {
                if staged {
                    return Err(refuse("legacy path conflicts with staged retirement"));
                }
                return Ok(None);
            }
            if staged {
                return Err(refuse("both retired and staged paths exist"));
            }
            Ok(Some(Located { place: Place::Retired, record: RecordAt::Path, retired: true }))
        },
        PathKind::Other => Err(refuse("legacy source is not a regular file")),
        PathKind::Absent => {
            if staged {
                Ok(Some(Located { place: Place::Staged, record: RecordAt::Stage, retired: false }))
            } else {
                Ok(None)
            }
        },
    }
}

/// The record a retirement keeps: its schema, the kind of legacy file and
/// the Hemera digest of its bytes.
#[derive(Debug, Clone, PartialEq, Eq)]
pub struct Manifest {
    pub schema: String,
    pub kind: String,
    pub hash: Particle,
}

/// The schema of a retirement record.
pub open spec fn record_schema() -> Seq<u8> {
    "cybergraph/legacy-file-retirement/1".spec_bytes()
}

/// Two records say the same.
pub open spec fn same_record(a: &Manifest, b: &Manifest) -> bool {
    &&& encode_utf8(a.schema@) == encode_utf8(b.schema@)
    &&& encode_utf8(a.kind@) == encode_utf8(b.kind@)
    &&& a.hash == b.hash
}

/// The record that pins `bytes` of legacy file kind `kind`.
pub fn pin(kind: &str, bytes: &[u8]) -> (m: Manifest)
    ensures
        encode_utf8(m.schema@) == record_schema(),
        encode_utf8(m.kind@) == kind.spec_bytes(),
        m.hash@ == hemera_hash(bytes@),
{
    let schema = String::from_str("cybergraph/legacy-file-retirement/1");
    let k = String::from_str(kind);
    Manifest { schema, kind: k, hash: hemera(bytes) }
}

/// Whether two records say the same.
pub fn same(a: &Manifest, b: &Manifest) -> (r: bool)
    ensures
        r == same_record(a, b),
{
    let sa = a.schema.as_str();
    let sb = b.schema.as_str();
    let ka = a.kind.as_str();
    let kb = b.kind.as_str();
    bytes_eq(sa.as_bytes(), sb.as_bytes()) && bytes_eq(ka.as_bytes(), kb.as_bytes()) && particle_eq(&a.hash, &b.hash)
}

/// Whether a record read from disk is of the retirement schema.
pub fn schema_ok(m: &Manifest) -> (r: bool)
    ensures
        r == (encode_utf8(m.schema@) == record_schema()),
{
    let s = m.schema.as_str();
    let want = "cybergraph/legacy-file-retirement/1";
    bytes_eq(s.as_bytes(), want.as_bytes())
}

/// Check the bytes found against the record that pins them, where one was
/// found: the source or its kind must not have changed.
pub fn check_pinned(record: Option<&Manifest>, expected: &Manifest) -> (r: Result<(), LegacyError>)
    ensures
        r is Ok <==> (record matches Some(m) ==> same_record(m, expected)),
{
    match record {
        Some(m) => {
            if !same(m, expected) {
                return Err(refuse("legacy source or retirement kind changed"));
            }
            Ok(())
        },
        None => Ok(()),
    }
}

} // verus!
