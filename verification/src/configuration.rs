use vstd::prelude::*;
use vstd::string::StringSliceAdditionalSpecFns;
use crate::memory::SchemaStep;
use crate::orchestration::ExecutionMode;
use crate::text::{render_signed, signed_decimal};
use vstd::string::StringExecFns;

verus! {

/// Why a configuration operation was refused.
#[derive(Debug, Clone, Copy, PartialEq, Eq)]
pub enum ConfigurationError {
    InvalidId,
    InvalidRevision,
    TooLarge,
    RevisionConflict,
    UnsupportedSchema(i64),
}

impl ConfigurationError {
    /// The text shown for the error; an unsupported schema names the stored version.
    pub fn message(&self) -> (text: String)
        ensures
            text@ == match self {
                ConfigurationError::InvalidId => "Identifiant de configuration invalide"@,
                ConfigurationError::InvalidRevision => "Révision de configuration invalide"@,
                ConfigurationError::TooLarge => "Configuration trop volumineuse"@,
                ConfigurationError::RevisionConflict => "Conflit de révision : configuration existante ou modifiée"@,
                ConfigurationError::UnsupportedSchema(v) => "Version du schéma configurations non prise en charge : "@
                    + signed_decimal(*v as int),
            },
    {
        match self {
            ConfigurationError::InvalidId => String::from_str("Identifiant de configuration invalide"),
            ConfigurationError::InvalidRevision => String::from_str(
                "Révision de configuration invalide",
            ),
            ConfigurationError::TooLarge => String::from_str("Configuration trop volumineuse"),
            ConfigurationError::RevisionConflict => String::from_str(
                "Conflit de révision : configuration existante ou modifiée",
            ),
            ConfigurationError::UnsupportedSchema(v) => {
                let mut text = String::from_str(
                    "Version du schéma configurations non prise en charge : ",
                );
                let digits = render_signed(*v);
                text.append(digits.as_str());
                text
            },
        }
    }
}

/// The listing entry of a saved configuration.
#[derive(Debug)]
pub struct ConfigurationSummary {
    pub id: String,
    pub revision: i64,
    pub created_at: i64,
    pub updated_at: i64,
}

/// A saved configuration with its mode.
#[derive(Debug)]
pub struct SavedConfiguration {
    pub id: String,
    pub revision: i64,
    pub created_at: i64,
    pub updated_at: i64,
    pub mode: ExecutionMode,
}

/// Bytes allowed in a configuration identifier: ASCII letters and digits, `-` and `_`.
pub open spec fn id_byte(b: u8) -> bool {
    (48 <= b <= 57) || (65 <= b <= 90) || (97 <= b <= 122) || b == 45 || b == 95
}

/// A configuration identifier has 1 to 128 bytes, all allowed.
pub open spec fn valid_id(id: Seq<char>) -> bool {
    let bytes = vstd::utf8::encode_utf8(id);
    &&& 1 <= bytes.len() <= 128
    &&& forall|i: int| 0 <= i < bytes.len() ==> id_byte(#[trigger] bytes[i])
}

/// How a save reaches the database.
#[derive(Debug, Clone, Copy, PartialEq, Eq)]
pub enum SaveStatement {
    /// Revision 0: create the configuration, unless it exists.
    Insert,
    /// Otherwise: replace the configuration at exactly this revision.
    Update,
}

/// Largest encoded configuration, in bytes.
pub const MAX_ENCODED_BYTES: usize = 65536;

/// Configurations of one project.
pub struct ConfigurationStore;

impl ConfigurationStore {
    pub fn validate_id(id: &str) -> (r: Result<(), ConfigurationError>)
        ensures
            r is Ok <==> valid_id(id@),
            r is Err ==> r == Err::<(), ConfigurationError>(ConfigurationError::InvalidId),
    {
        let bytes = id.as_bytes();
        if bytes.len() == 0 || bytes.len() > 128 {
            return Err(ConfigurationError::InvalidId);
        }
        let mut i: usize = 0;
        while i < bytes.len()
            invariant
                bytes@ == id.spec_bytes(),
                i <= bytes@.len(),
                forall|k: int| 0 <= k < i ==> id_byte(#[trigger] bytes@[k]),
            decreases bytes@.len() - i,
        {
            let b = bytes[i];
            let allowed = (48 <= b && b <= 57) || (65 <= b && b <= 90) || (97 <= b && b <= 122) || b == 45
                || b == 95;
            if !allowed {
                return Err(ConfigurationError::InvalidId);
            }
            i = i + 1;
        }
        Ok(())
    }

    /// The checks before a save: a valid identifier and a revision that is not negative.
    /// Revision 0 creates the configuration; a positive one replaces that revision.
    pub fn check_save(id: &str, expected_revision: i64) -> (r: Result<SaveStatement, ConfigurationError>)
        ensures
            r == if !valid_id(id@) {
                Err::<SaveStatement, ConfigurationError>(ConfigurationError::InvalidId)
            } else if expected_revision < 0 {
                Err(ConfigurationError::InvalidRevision)
            } else if expected_revision == 0 {
                Ok(SaveStatement::Insert)
            } else {
                Ok(SaveStatement::Update)
            },
    {
        match Self::validate_id(id) {
            Err(e) => {
                return Err(e);
            },
            Ok(_) => {},
        }
        if expected_revision < 0 {
            return Err(ConfigurationError::InvalidRevision);
        }
        if expected_revision == 0 {
            Ok(SaveStatement::Insert)
        } else {
            Ok(SaveStatement::Update)
        }
    }

    /// An encoded configuration may hold at most 64 KiB.
    pub fn check_encoded(size: usize) -> (r: Result<(), ConfigurationError>)
        ensures
            r is Ok <==> size <= MAX_ENCODED_BYTES,
            r is Err ==> r == Err::<(), ConfigurationError>(ConfigurationError::TooLarge),
    {
        if size > MAX_ENCODED_BYTES {
            Err(ConfigurationError::TooLarge)
        } else {
            Ok(())
        }
    }

    /// A save succeeds when exactly one row changed; otherwise the revision did not match.
    pub fn save_outcome(changed: usize) -> (r: Result<(), ConfigurationError>)
        ensures
            r is Ok <==> changed == 1,
            r is Err ==> r == Err::<(), ConfigurationError>(ConfigurationError::RevisionConflict),
    {
        if changed != 1 {
            Err(ConfigurationError::RevisionConflict)
        } else {
            Ok(())
        }
    }

    /// The checks before a delete: a valid identifier and a revision of at least 1.
    pub fn check_delete(id: &str, expected_revision: i64) -> (r: Result<(), ConfigurationError>)
        ensures
            r == if !valid_id(id@) {
                Err::<(), ConfigurationError>(ConfigurationError::InvalidId)
            } else if expected_revision < 1 {
                Err(ConfigurationError::InvalidRevision)
            } else {
                Ok(())
            },
    {
        match Self::validate_id(id) {
            Err(e) => {
                return Err(e);
            },
            Ok(_) => {},
        }
        if expected_revision < 1 {
            return Err(ConfigurationError::InvalidRevision);
        }
        Ok(())
    }

    /// A delete removed the configuration when exactly one row changed.
    pub fn delete_outcome(changed: usize) -> (b: bool)
        ensures
            b == (changed == 1),
    {
        changed == 1
    }
}

/// The migration step for the configuration store, from the highest recorded schema version.
pub fn configuration_schema_step(version: Option<i64>) -> (r: Result<SchemaStep, ConfigurationError>)
    ensures
        r == match version {
            None => Ok(SchemaStep::Create),
            Some(v) => if v == 1 {
                Ok(SchemaStep::Current)
            } else {
                Err(ConfigurationError::UnsupportedSchema(v))
            },
        },
{
    match version {
        None => Ok(SchemaStep::Create),
        Some(1) => Ok(SchemaStep::Current),
        Some(v) => Err(ConfigurationError::UnsupportedSchema(v)),
    }
}

} // verus!
