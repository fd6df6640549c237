use cassettedb::config::{ConfigMigrator, VersionedConfig, CURRENT_CONFIG_VERSION};
use cassettedb::json::{json_eq, JsonValue};

fn obj(fields: Vec<(&str, JsonValue)>) -> JsonValue {
    JsonValue::Object(fields.into_iter().map(|(k, v)| (k.to_string(), v)).collect())
}

#[test]
fn version_zero_gains_tracing_flag() {
    let m = ConfigMigrator::new();
    let mut c = VersionedConfig { version: 0, data: obj(vec![("name", JsonValue::String("n1".into()))]) };
    assert!(m.migrate_value(&mut c).is_ok());
    assert_eq!(c.version, CURRENT_CONFIG_VERSION);
    let expected = obj(vec![
        ("name", JsonValue::String("n1".into())),
        ("tracing_enabled", JsonValue::Bool(false)),
    ]);
    assert!(json_eq(&c.data, &expected));
}

#[test]
fn existing_tracing_flag_is_kept() {
    let m = ConfigMigrator::default();
    let mut c = VersionedConfig { version: 0, data: obj(vec![("tracing_enabled", JsonValue::Bool(true))]) };
    assert!(m.migrate_value(&mut c).is_ok());
    assert_eq!(c.version, 1);
    assert!(json_eq(&c.data, &obj(vec![("tracing_enabled", JsonValue::Bool(true))])));
}

#[test]
fn current_config_is_left_alone() {
    let m = ConfigMigrator::new();
    let mut c = VersionedConfig { version: 1, data: obj(vec![]) };
    assert!(m.migrate_value(&mut c).is_ok());
    assert_eq!(c.version, 1);
    assert!(json_eq(&c.data, &obj(vec![])));
}

#[test]
fn non_object_data_is_only_stamped() {
    let m = ConfigMigrator::new();
    let mut c = VersionedConfig { version: 0, data: JsonValue::Array(vec![]) };
    assert!(m.migrate_value(&mut c).is_ok());
    assert_eq!(c.version, 1);
    assert!(json_eq(&c.data, &JsonValue::Array(vec![])));
}
