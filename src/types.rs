//! Plain data carried around the store: service settings, metadata,
//! audit records, policies and events.

use vstd::prelude::*;
use vstd::string::StringSliceAdditionalSpecFns;

verus! {

/// Errors of the services around the store.
#[derive(Debug)]
pub enum Error {
    Database(String),
    Cache(String),
    Config(String),
    Auth(String),
    Authorization(String),
    Validation(String),
    NotFound(String),
    AlreadyExists(String),
    Internal(String),
    PrometheusError(String),
}

/// Request parameters for listing configurations.
#[derive(Debug)]
pub struct ListConfigsRequest {
    pub namespace: Option<String>,
    pub department: Option<String>,
    pub application: Option<String>,
    pub environment: Option<String>,
    pub page_size: Option<i32>,
    pub page_number: Option<i32>,
}

/// Filter for audit records; `None` matches anything.
#[derive(Debug)]
pub struct AuditFilter {
    pub user: Option<String>,
    pub action: Option<String>,
    pub resource: Option<String>,
    pub start_time: Option<i64>,
    pub end_time: Option<i64>,
}

/// One audit record.
#[derive(Debug)]
pub struct AuditLog {
    pub id: String,
    pub user: String,
    pub action: String,
    pub resource: String,
    pub details: String,
    pub timestamp: i64,
}

/// A store of audit records, implemented by the services that keep them.
pub trait AuditService {
    /// Records an audit entry.
    fn record(&mut self, log: AuditLog) -> Result<(), Error>;

    /// One page of the records that `filter` admits, and how many it admits.
    fn get_logs(&self, filter: &AuditFilter, page_size: i32, page_number: i32) -> Result<(Vec<AuditLog>, i32), Error>;
}

/// Settings of the whole service.
#[derive(Debug)]
pub struct Config {
    pub api: ApiConfig,
    pub database: DatabaseConfig,
    pub redis: RedisConfig,
    pub raft: RaftConfig,
    pub auth: AuthConfig,
    pub monitor: MonitorConfig,
    pub audit: AuditConfig,
}

/// Settings of the request-facing endpoints.
#[derive(Debug)]
pub struct ApiConfig {
    pub host: String,
    pub port: u16,
    pub grpc_port: u16,
    pub tls: Option<TlsConfig>,
}

/// Certificate and key files.
#[derive(Debug)]
pub struct TlsConfig {
    pub cert_file: String,
    pub key_file: String,
}

/// Settings of the archival database.
#[derive(Debug)]
pub struct DatabaseConfig {
    pub host: String,
    pub port: u16,
    pub username: String,
    pub password: String,
    pub database: String,
    pub max_connections: u32,
    pub idle_timeout: u64,
}

/// Settings of the cache.
#[derive(Debug)]
pub struct RedisConfig {
    pub host: String,
    pub port: u16,
    pub password: Option<String>,
    pub database: i64,
    pub pool_size: u32,
    pub connection_timeout: u64,
}

/// Settings of a cache client.
#[derive(Debug)]
pub struct CacheConfig {
    pub host: String,
    pub port: u16,
    pub password: Option<String>,
    pub db: i32,
    pub ttl: u64,
}

/// One member of the cluster.
#[derive(Debug)]
pub struct RaftPeer {
    pub id: u64,
    pub address: String,
}

/// Settings of the consensus layer. Times are in milliseconds.
#[derive(Debug)]
pub struct RaftConfig {
    pub node_id: u64,
    pub peers: Vec<RaftPeer>,
    pub election_timeout: u64,
    pub heartbeat_interval: u64,
    pub snapshot_interval: u64,
    pub max_size_per_msg: u64,
    pub max_inflight_msgs: usize,
}

impl RaftConfig {
    /// The ids of the peers, in order.
    pub fn peer_ids(&self) -> (r: Vec<u64>)
        ensures
            r@.len() == self.peers@.len(),
            forall|k: int| 0 <= k < r@.len() ==> r@[k] == #[trigger] self.peers@[k].id,
    {
        let mut out: Vec<u64> = Vec::new();
        let mut k: usize = 0;
        while k < self.peers.len()
            invariant
                0 <= k <= self.peers@.len(),
                out@.len() == k,
                forall|j: int| 0 <= j < k ==> out@[j] == #[trigger] self.peers@[j].id,
            decreases self.peers@.len() - k,
        {
            out.push(self.peers[k].id);
            k = k + 1;
        }
        out
    }
}

/// Settings of token and password handling.
#[derive(Debug)]
pub struct AuthConfig {
    pub jwt_secret: String,
    pub token_expiration: u64,
    pub password_hash_cost: u32,
    pub rbac_model: String,
}

impl AuthConfig {
    /// An exact copy.
    pub fn copy(&self) -> (r: AuthConfig)
        ensures
            r == *self,
    {
        AuthConfig {
            jwt_secret: self.jwt_secret.clone(),
            token_expiration: self.token_expiration,
            password_hash_cost: self.password_hash_cost,
            rbac_model: self.rbac_model.clone(),
        }
    }
}

/// Settings of metrics export.
#[derive(Debug)]
pub struct MonitorConfig {
    pub metrics_port: u16,
    pub prometheus_path: String,
    pub alert_rules: String,
}

/// Settings of the audit trail files.
#[derive(Debug)]
pub struct AuditConfig {
    pub log_dir: String,
    pub max_size: u64,
    pub max_files: u32,
    pub compression: bool,
}

/// Metadata of a configuration entry as the request-facing layer shows it.
#[derive(Debug)]
pub struct ConfigMeta {
    pub id: String,
    pub name: String,
    pub namespace: String,
    pub department: String,
    pub application: String,
    pub environment: String,
    pub version: String,
    pub description: Option<String>,
    pub created_at: i64,
    pub updated_at: i64,
    pub created_by: String,
    pub updated_by: String,
}

/// One version in the history of an entry.
#[derive(Debug)]
pub struct ConfigVersion {
    pub version: String,
    pub created_at: i64,
    pub created_by: String,
    pub description: Option<String>,
}

/// Whether a policy allows or denies.
#[derive(Debug, Clone, Copy, PartialEq, Eq, Structural)]
pub enum PolicyEffect {
    Allow,
    Deny,
}

/// A role-based access rule.
#[derive(Debug)]
pub struct RbacPolicy {
    pub role: String,
    pub resource: String,
    pub action: String,
    pub effect: PolicyEffect,
}

/// Kinds of change to a configuration entry.
#[derive(Debug, Clone, Copy, PartialEq, Eq, Structural)]
pub enum ConfigEventType {
    Created,
    Updated,
    Deleted,
    Released,
    Rolled,
}

/// A change to a configuration entry, as announced to watchers.
#[derive(Debug)]
pub struct ConfigEvent {
    pub config_id: String,
    pub event_type: ConfigEventType,
    pub version: String,
    pub timestamp: i64,
    pub user: String,
}

/// Kinds of recorded change.
#[derive(Debug, Clone, Copy, PartialEq, Eq, Structural)]
pub enum ChangeType {
    Create,
    Update,
    Delete,
}

/// Kinds of content validation rule.
#[derive(Debug, Clone, Copy, PartialEq, Eq, Structural)]
pub enum ValidatorType {
    Required,
    Format,
    Range,
    Custom,
}

/// Token and password handling.
#[derive(Debug)]
pub struct Auth {
    config: AuthConfig,
}

impl Auth {
    /// Token and password handling with the given settings.
    pub fn new(config: &AuthConfig) -> (r: Result<Auth, Error>)
        ensures
            r is Ok && r->Ok_0.config() == *config,
    {
        Ok(Auth { config: config.copy() })
    }

    /// The settings.
    pub closed spec fn config(&self) -> AuthConfig {
        self.config
    }

    /// A bcrypt hash of `password` with a fresh random salt, at the
    /// configured cost; refused when the cost lies outside 4 to 31.
    pub fn hash_password(&self, password: &str) -> (r: Result<String, Error>)
        ensures
            !(4 <= self.config().password_hash_cost <= 31) ==> r is Err,
            r is Ok ==> r->Ok_0@.len() == 60 && bcrypt_verifies(password.spec_bytes(), r->Ok_0@) == Some(true),
    {
        match bcrypt_hash(password.as_bytes(), self.config.password_hash_cost) {
            Some(h) => Ok(h),
            None => Err(Error::Auth("password hashing failed".to_string())),
        }
    }

    /// Whether `password` matches the bcrypt `hash`; an error where the
    /// hash is malformed.
    pub fn verify_password(&self, password: &str, hash: &str) -> (r: Result<bool, Error>)
        ensures
            r is Ok <==> bcrypt_verifies(password.spec_bytes(), hash@) is Some,
            r is Ok ==> r->Ok_0 == bcrypt_verifies(password.spec_bytes(), hash@)->0,
    {
        match bcrypt_verify(password.as_bytes(), hash) {
            Some(b) => Ok(b),
            None => Err(Error::Auth("malformed password hash".to_string())),
        }
    }

    /// The settings.
    pub fn settings(&self) -> (r: &AuthConfig)
        ensures
            *r == self.config(),
    {
        &self.config
    }
}

/// Relies on `bcrypt::hash`: a cost outside 4 to 31 is refused; the salt
/// is random, so nothing more is known of the hash.
#[verifier::external_body]
fn bcrypt_hash(password: &[u8], cost: u32) -> (r: Option<String>)
    ensures
        !(4 <= cost <= 31) ==> r is None,
        r is Some ==> r->0@.len() == 60 && bcrypt_verifies(password@, r->0@) == Some(true),
{
    bcrypt::hash(password, cost).ok()
}

/// Whether `bcrypt` finds that `password` matches `hash`; none where the
/// hash is malformed.
pub uninterp spec fn bcrypt_verifies(password: Seq<u8>, hash: Seq<char>) -> Option<bool>;

/// Relies on `bcrypt::verify`: the answer depends on the password and the
/// hash (which carries its salt and cost) alone.
#[verifier::external_body]
fn bcrypt_verify(password: &[u8], hash: &str) -> (r: Option<bool>)
    ensures
        r == bcrypt_verifies(password@, hash@),
{
    bcrypt::verify(password, hash).ok()
}

} // verus!
