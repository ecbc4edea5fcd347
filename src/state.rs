//! The persisted snapshot and the choices its configuration makes.
use crate::clock::now_or_zero;
use crate::resource::{ResHash, ResourceV};
use crate::{MacrotisProviderConfig, MacrotisStateConfig};
use vstd::prelude::*;

verus! {

/// The version this library writes into every state it creates.
pub const APP_VERSION: &'static str = "0.1.0";

/// The format version of the state this library writes.
pub const STATE_VERSION: u32 = 1;

/// A durable snapshot of what was last installed.
pub struct MacrotisState {
    pub version: u32,
    pub appversion: String,
    pub serial: u64,
    pub records: ResHash,
}

impl MacrotisState {
    /// The state to save after a successful run: `records` stamped with the
    /// current format and app version and with `now` as serial.
    pub fn with_records(records: ResHash, now: u64) -> (r: MacrotisState)
        ensures
            r.version == STATE_VERSION,
            r.appversion@ == APP_VERSION@,
            r.serial == now,
            r.records == records,
    {
        MacrotisState {
            version: STATE_VERSION,
            appversion: String::from_str(APP_VERSION),
            serial: now,
            records,
        }
    }

    /// An empty state, as a first run starts with, serial set to the current time.
    pub fn new_empty() -> (r: MacrotisState)
        ensures
            r.version == STATE_VERSION,
            r.appversion@ == APP_VERSION@,
            r.records.wf(),
            r.records@ == Map::<Seq<char>, ResourceV>::empty(),
    {
        MacrotisState::with_records(ResHash::new(), now_or_zero())
    }
}

/// Why a configuration cannot be used.
#[derive(Debug, PartialEq, Eq)]
pub enum ConfigError {
    /// The local backend is chosen but no filename is given.
    MissingFilename,
    /// The object-store backend is chosen but the bucket or the key is missing.
    MissingBucketParams,
    /// The backend is neither `local` nor `s3`.
    UnknownBackend,
    /// The provider is to assume a role but no role is named.
    MissingRoleArn,
}

/// Where the state is loaded from and saved to.
pub enum StateStore {
    Local { filename: String },
    S3 { bucket: String, key: String },
}

/// A role to assume, and the session name to assume it under.
pub struct RoleSession {
    pub role_arn: String,
    pub session_name: String,
}

/// Whether both the bucket and the key of the object store are given.
pub fn check_bucket_params(conf: &MacrotisStateConfig) -> (r: bool)
    ensures
        r == (conf.bucket is Some && conf.key is Some),
{
    conf.bucket.is_some() && conf.key.is_some()
}

/// The state store that `conf` names.
pub fn state_store(conf: &MacrotisStateConfig) -> (r: Result<StateStore, ConfigError>)
    ensures
        conf.backend@ == "local"@ ==> match conf.filename {
            Some(f) => r matches Ok(StateStore::Local { filename }) && filename@ == f@,
            None => r == Err::<StateStore, ConfigError>(ConfigError::MissingFilename),
        },
        conf.backend@ == "s3"@ ==> match (conf.bucket, conf.key) {
            (Some(b), Some(k)) => r matches Ok(StateStore::S3 { bucket, key }) && bucket@ == b@
                && key@ == k@,
            _ => r == Err::<StateStore, ConfigError>(ConfigError::MissingBucketParams),
        },
        conf.backend@ != "local"@ && conf.backend@ != "s3"@ ==> r == Err::<StateStore, ConfigError>(
            ConfigError::UnknownBackend,
        ),
{
    proof {
        reveal_strlit("local");
        reveal_strlit("s3");
        assert("local"@.len() != "s3"@.len());
    }
    if conf.backend == String::from_str("local") {
        match &conf.filename {
            Some(f) => Ok(StateStore::Local { filename: f.clone() }),
            None => Err(ConfigError::MissingFilename),
        }
    } else if conf.backend == String::from_str("s3") {
        match (&conf.bucket, &conf.key) {
            (Some(b), Some(k)) => Ok(StateStore::S3 { bucket: b.clone(), key: k.clone() }),
            _ => Err(ConfigError::MissingBucketParams),
        }
    } else {
        Err(ConfigError::UnknownBackend)
    }
}

fn session_or_default(s: &Option<String>) -> (r: String)
    ensures
        r@ == match s {
            Some(x) => x@,
            None => "default"@,
        },
{
    match s {
        Some(x) => x.clone(),
        None => String::from_str("default"),
    }
}

/// The role the provider client assumes: none unless `assume_role` is set,
/// and then `role_arn` must be given; the session is named `default`
/// unless `session_name` says otherwise.
pub fn provider_role(conf: &MacrotisProviderConfig) -> (r: Result<Option<RoleSession>, ConfigError>)
    ensures
        !conf.assume_role ==> r matches Ok(None),
        conf.assume_role && conf.role_arn is None ==> r == Err::<Option<RoleSession>, ConfigError>(
            ConfigError::MissingRoleArn,
        ),
        conf.assume_role && conf.role_arn is Some ==> (r matches Ok(Some(rs)) && rs.role_arn@
            == conf.role_arn->0@ && rs.session_name@ == match conf.session_name {
            Some(x) => x@,
            None => "default"@,
        }),
{
    if !conf.assume_role {
        return Ok(None);
    }
    match &conf.role_arn {
        Some(arn) => Ok(Some(RoleSession { role_arn: arn.clone(), session_name: session_or_default(&conf.session_name) })),
        None => Err(ConfigError::MissingRoleArn),
    }
}

/// The role the state store client assumes: the one `role_arn` names, if any.
pub fn store_role(conf: &MacrotisStateConfig) -> (r: Option<RoleSession>)
    ensures
        conf.role_arn is None ==> r is None,
        conf.role_arn is Some ==> (r matches Some(rs) && rs.role_arn@ == conf.role_arn->0@
            && rs.session_name@ == match conf.session_name {
            Some(x) => x@,
            None => "default"@,
        }),
{
    match &conf.role_arn {
        Some(arn) => Some(RoleSession { role_arn: arn.clone(), session_name: session_or_default(&conf.session_name) }),
        None => None,
    }
}

} // verus!
