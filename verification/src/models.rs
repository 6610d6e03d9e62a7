//! The build definition that a project writes down (its pipeline of steps),
//! and the context a build runs in.

use vstd::prelude::*;
use crate::env::EnvVars;

verus! {

/// A build definition: global environment variables, the steps of the pipeline,
/// and the context of the project.
pub struct BuildDefinition {
    pub env: EnvVars,
    pub pipeline: Vec<Step>,
    pub context: Context,
}

/// One step of a pipeline.
pub struct Step {
    pub name: String,
    pub image: Option<String>,
    pub run: Vec<String>,
    pub depends_on: Vec<String>,
    pub env: EnvVars,
    pub containerize: Option<Containerize>,
    pub push: Option<Push>,
}

/// Where the project lives.
pub struct Context {
    pub project_root: String,
}

/// How a step builds a container image.
pub struct Containerize {
    pub builder: Builder,
    pub file: String,
    pub context: String,
    pub image: String,
}

/// The tool that builds container images.
#[derive(Debug, Clone, Copy, PartialEq, Eq, Structural)]
pub enum Builder {
    Docker,
    Podman,
    Buildah,
}

/// Where a step pushes an artifact.
pub struct Push {
    pub artifact: String,
    pub target: PushTarget,
}

/// The kinds of push destination.
pub enum PushTarget {
    Copy { from: String, to: String },
    Nexus {
        url: String,
        repository: String,
        format: String,
        path: String,
        auth: Option<Auth>,
    },
    Storage {
        provider: StorageProvider,
        bucket: String,
        key: String,
        region: Option<String>,
        auth: Option<Auth>,
    },
}

/// Object storage providers.
#[derive(Debug, Clone, Copy, PartialEq, Eq, Structural)]
pub enum StorageProvider {
    S3,
    Minio,
    Azure,
    Gcs,
}

/// Credentials for a push destination.
pub enum Auth {
    Basic(BasicAuth),
    Mtls(MtlsAuth),
    Oauth(OAuthAuth),
}

pub struct BasicAuth {
    pub username: String,
    pub password: String,
}

pub struct MtlsAuth {
    pub cert: String,
    pub key: String,
    pub ca: String,
}

pub struct OAuthAuth {
    pub token_url: String,
    pub client_id: String,
    pub client_secret: String,
    pub scopes: Vec<String>,
}

/// The name under which a builder is written: `PODMAN`, `DOCKER` or `BUILDAH`.
pub open spec fn builder_name(b: Builder) -> Seq<char> {
    match b {
        Builder::Podman => "PODMAN"@,
        Builder::Docker => "DOCKER"@,
        Builder::Buildah => "BUILDAH"@,
    }
}

impl Builder {
    /// The builder's name, as it is displayed.
    pub fn to_string(&self) -> (res: String)
        ensures
            res@ == builder_name(*self),
    {
        match self {
            Builder::Podman => String::from_str("PODMAN"),
            Builder::Docker => String::from_str("DOCKER"),
            Builder::Buildah => String::from_str("BUILDAH"),
        }
    }
}

/// The builder written as `value`; the value must be the name of a builder.
pub fn to_build_enum(value: String) -> (res: Builder)
    requires
        value@ == "PODMAN"@ || value@ == "DOCKER"@ || value@ == "BUILDAH"@,
    ensures
        builder_name(res) == value@,
{
    if value == String::from_str("PODMAN") {
        Builder::Podman
    } else if value == String::from_str("DOCKER") {
        Builder::Docker
    } else {
        Builder::Buildah
    }
}

/// Each builder has its own name, so that reading a builder's name gives the builder back.
pub proof fn lemma_builder_name_round_trip(a: Builder, b: Builder)
    ensures
        builder_name(a) == builder_name(b) ==> a == b,
{
    reveal_strlit("PODMAN");
    reveal_strlit("DOCKER");
    reveal_strlit("BUILDAH");
    if builder_name(a) == builder_name(b) && a != b {
        assert(builder_name(a)[0] != builder_name(b)[0] || builder_name(a).len() != builder_name(b).len());
    }
}

/// A request to build the project at `path`.
pub struct BuildRequest {
    pub path: String,
}

/// What a running build knows of its project: where it lives, and the global environment.
pub struct BuildContext {
    pub base_path: String,
    pub env: EnvVars,
}

impl BuildContext {
    pub fn new(base_path: String, env: EnvVars) -> (res: Self)
        ensures
            res.base_path == base_path,
            res.env == env,
    {
        Self { base_path, env }
    }
}

} // verus!
