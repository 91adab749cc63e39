use backend::configuration::{
    ConfigurationError, ConfigurationStore, SaveStatement, configuration_schema_step,
};
use backend::memory::SchemaStep;

#[test]
fn identifiers() {
    assert_eq!(ConfigurationStore::validate_id("team-1_A"), Ok(()));
    assert_eq!(ConfigurationStore::validate_id(""), Err(ConfigurationError::InvalidId));
    assert_eq!(ConfigurationStore::validate_id("a b"), Err(ConfigurationError::InvalidId));
    assert_eq!(ConfigurationStore::validate_id("é"), Err(ConfigurationError::InvalidId));
    assert_eq!(ConfigurationStore::validate_id(&"a".repeat(128)), Ok(()));
    assert_eq!(ConfigurationStore::validate_id(&"a".repeat(129)), Err(ConfigurationError::InvalidId));
    assert_eq!(ConfigurationError::InvalidId.message(), "Identifiant de configuration invalide");
}

#[test]
fn unsupported_schema_names_the_version() {
    assert_eq!(
        ConfigurationError::UnsupportedSchema(2).message(),
        "Version du schéma configurations non prise en charge : 2"
    );
    assert_eq!(
        ConfigurationError::UnsupportedSchema(-1).message(),
        "Version du schéma configurations non prise en charge : -1"
    );
}

#[test]
fn save_and_delete_checks() {
    assert_eq!(ConfigurationStore::check_save("a", 0), Ok(SaveStatement::Insert));
    assert_eq!(ConfigurationStore::check_save("a", 3), Ok(SaveStatement::Update));
    assert_eq!(ConfigurationStore::check_save("a", -1), Err(ConfigurationError::InvalidRevision));
    assert_eq!(ConfigurationStore::check_save("a/b", 0), Err(ConfigurationError::InvalidId));
    assert_eq!(ConfigurationStore::check_delete("a", 0), Err(ConfigurationError::InvalidRevision));
    assert_eq!(ConfigurationStore::check_delete("a", 1), Ok(()));
    assert_eq!(ConfigurationStore::check_encoded(65536), Ok(()));
    assert_eq!(ConfigurationStore::check_encoded(65537), Err(ConfigurationError::TooLarge));
    assert_eq!(ConfigurationStore::save_outcome(1), Ok(()));
    assert_eq!(ConfigurationStore::save_outcome(0), Err(ConfigurationError::RevisionConflict));
    assert!(ConfigurationStore::delete_outcome(1));
    assert!(!ConfigurationStore::delete_outcome(0));
}

#[test]
fn configuration_schema_steps() {
    assert_eq!(configuration_schema_step(None), Ok(SchemaStep::Create));
    assert_eq!(configuration_schema_step(Some(1)), Ok(SchemaStep::Current));
    assert_eq!(configuration_schema_step(Some(2)), Err(ConfigurationError::UnsupportedSchema(2)));
}
