//! Versioned configuration files and their migration to the current format.
//! Reading and rewriting the files is the caller's part; what a migration
//! does to a configuration is decided here.
use vstd::prelude::*;
use crate::json::{field_of, with_field, Json, JsonValue};
use crate::text::{chars_of, push_decimal, string_of};

verus! {

/// The configuration format version this release writes.
pub const CURRENT_CONFIG_VERSION: u32 = 1;

/// A configuration: its format version and its other fields.
#[derive(Debug)]
pub struct VersionedConfig {
    pub version: u32,
    pub data: JsonValue,
}

/// The data after the migration from version 0: an object without the
/// field `tracing_enabled` gains it, set to false; anything else stays.
pub open spec fn migrated_v0(data: Json) -> Json {
    if data is Object && field_of(data, "tracing_enabled"@) is None {
        with_field(data, "tracing_enabled"@, Json::Bool(false))
    } else {
        data
    }
}

/// The migration from version 0 (see `migrated_v0`).
fn migrate_v0_to_v1(data: &mut JsonValue)
    ensures
        final(data)@ == migrated_v0(old(data)@),
{
    let is_object = match data {
        JsonValue::Object(_) => true,
        _ => false,
    };
    if is_object && data.get("tracing_enabled").is_none() {
        data.insert_field("tracing_enabled".to_string(), JsonValue::Bool(false));
    }
}

/// The migrations that bring a configuration up to the current version,
/// one per older version.
#[derive(Debug)]
pub struct ConfigMigrator {
    /// The versions that have a migration to the next one.
    migrations: Vec<u32>,
}

impl ConfigMigrator {
    /// The built-in migrations (from version 0).
    pub fn new() -> (r: Self)
        ensures
            r.registered() == seq![0u32],
    {
        let mut migrations: Vec<u32> = Vec::new();
        migrations.push(0);
        ConfigMigrator { migrations }
    }

    /// The versions that have a migration.
    pub closed spec fn registered(&self) -> Seq<u32> {
        self.migrations@
    }

    /// Brings `config` up to the current version, running the migration of
    /// each older version in turn; the configuration is left as it is when
    /// it is current already.  An error when a version on the way has no
    /// migration.
    pub fn migrate_value(&self, config: &mut VersionedConfig) -> (r: Result<(), String>)
        ensures
            old(config).version < CURRENT_CONFIG_VERSION && self.registered().contains(0u32) ==> {
                &&& r is Ok
                &&& final(config).version == CURRENT_CONFIG_VERSION
                &&& final(config).data@ == migrated_v0(old(config).data@)
            },
            old(config).version < CURRENT_CONFIG_VERSION && !self.registered().contains(0u32) ==> {
                &&& r matches Err(m) && m@ == "no migration registered for version 0"@
                &&& *final(config) == *old(config)
            },
            old(config).version >= CURRENT_CONFIG_VERSION ==> r is Ok && *final(config) == *old(config),
    {
        while config.version < CURRENT_CONFIG_VERSION
            invariant_except_break
                config.version == old(config).version,
                *config == *old(config),
            ensures
                old(config).version < CURRENT_CONFIG_VERSION ==> self.registered().contains(0u32),
                old(config).version < CURRENT_CONFIG_VERSION && self.registered().contains(0u32) ==> {
                    &&& config.version == CURRENT_CONFIG_VERSION
                    &&& config.data@ == migrated_v0(old(config).data@)
                },
                old(config).version >= CURRENT_CONFIG_VERSION ==> *config == *old(config),
            decreases CURRENT_CONFIG_VERSION - config.version,
        {
            if self.has_migration(config.version) {
                migrate_v0_to_v1(&mut config.data);
                config.version = config.version + 1;
                break;
            } else {
                let mut m = chars_of("no migration registered for version ");
                push_decimal(&mut m, config.version as u64);
                proof {
                    reveal_strlit("no migration registered for version ");
                    reveal_strlit("no migration registered for version 0");
                    assert(crate::text::digit_char(0) == '0');
                    assert(crate::text::decimal(0) == seq!['0']);
                    assert("no migration registered for version "@ + seq!['0'] =~= "no migration registered for version 0"@);
                }
                return Err(string_of(m.as_slice()));
            }
        }
        Ok(())
    }

    /// Whether version `v` has a migration.
    fn has_migration(&self, v: u32) -> (r: bool)
        ensures
            r == self.registered().contains(v),
    {
        let mut i: usize = 0;
        while i < self.migrations.len()
            invariant
                i <= self.migrations@.len(),
                forall|j: int| 0 <= j < i ==> self.migrations@[j] != v,
            decreases self.migrations.len() - i,
        {
            if self.migrations[i] == v {
                assert(self.migrations@[i as int] == v);
                return true;
            }
            i = i + 1;
        }
        false
    }
}

impl Default for ConfigMigrator {
    /// The built-in migrations (see `new`).
    fn default() -> (r: Self)
        ensures
            r.registered() == seq![0u32],
    {
        Self::new()
    }
}

} // verus!
