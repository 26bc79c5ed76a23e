//! Commands carried by the replicated log, and the content they hold.

use vstd::prelude::*;

verus! {

/// Supported configuration formats.
#[derive(Debug, Clone, Copy, PartialEq, Eq, Structural)]
pub enum ConfigFormat {
    Yaml,
    Properties,
    Json,
    Toml,
}

/// Configuration content with its format.
#[derive(Debug)]
pub struct ConfigContent {
    pub format: ConfigFormat,
    pub content: String,
    pub is_encrypted: bool,
}

impl ConfigContent {
    /// An exact copy.
    pub fn copy(&self) -> (r: ConfigContent)
        ensures
            r == *self,
    {
        ConfigContent { format: self.format, content: self.content.clone(), is_encrypted: self.is_encrypted }
    }
}

/// An exact copy of an optional string.
pub fn copy_opt_string(s: &Option<String>) -> (r: Option<String>)
    ensures
        r == *s,
{
    match s {
        Some(v) => Some(v.clone()),
        None => None,
    }
}

/// A mutation of the configuration store. Every field needed to replay the
/// mutation is carried, the time stamp included, so that applying a command
/// gives the same outcome on every node.
#[derive(Debug)]
pub enum RaftCommand {
    CreateConfig {
        name: String,
        namespace: String,
        department: String,
        application: String,
        environment: String,
        description: Option<String>,
        content: ConfigContent,
        created_by: String,
        timestamp: i64,
    },
    UpdateConfig {
        id: u64,
        description: Option<String>,
        content: ConfigContent,
        updated_by: String,
        timestamp: i64,
    },
    DeleteConfig {
        id: u64,
    },
}

impl RaftCommand {
    /// An exact copy.
    pub fn copy(&self) -> (r: RaftCommand)
        ensures
            r == *self,
    {
        match self {
            RaftCommand::CreateConfig {
                name,
                namespace,
                department,
                application,
                environment,
                description,
                content,
                created_by,
                timestamp,
            } => RaftCommand::CreateConfig {
                name: name.clone(),
                namespace: namespace.clone(),
                department: department.clone(),
                application: application.clone(),
                environment: environment.clone(),
                description: copy_opt_string(description),
                content: content.copy(),
                created_by: created_by.clone(),
                timestamp: *timestamp,
            },
            RaftCommand::UpdateConfig { id, description, content, updated_by, timestamp } =>
                RaftCommand::UpdateConfig {
                id: *id,
                description: copy_opt_string(description),
                content: content.copy(),
                updated_by: updated_by.clone(),
                timestamp: *timestamp,
            },
            RaftCommand::DeleteConfig { id } => RaftCommand::DeleteConfig { id: *id },
        }
    }
}

} // verus!
