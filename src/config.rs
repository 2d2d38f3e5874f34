//! Broker configuration and the rules that reject invalid combinations.
use vstd::prelude::*;

verus! {

/// Largest segment size in bytes: file positions must fit in the 32-bit index.
pub const MAX_SEGMENT_SIZE: u64 = 2147483647;

/// Failures of configuration loading and validation.
#[derive(Debug, Clone, PartialEq, Eq)]
pub enum ServerConfigError {
    InvalidConfigurationProvider { provider_type: String },
    CannotLoadConfiguration,
    InvalidConfiguration,
    CacheConfigValidationFailure,
}

/// The largest size of a topic.
#[derive(Debug, Clone, Copy, PartialEq, Eq, Structural)]
pub enum MaxTopicSize {
    ServerDefault,
    Custom(u64),
    Unlimited,
}

/// How long messages are kept, in microseconds.
#[derive(Debug, Clone, Copy, PartialEq, Eq, Structural)]
pub enum IggyExpiry {
    ServerDefault,
    ExpireDuration(u64),
    NeverExpire,
}

#[derive(Debug, Clone, Copy, PartialEq, Eq, Structural)]
pub enum CompressionAlgorithm {
    Uncompressed,
    Gzip,
}

#[derive(Debug, Clone, Copy, PartialEq, Eq, Structural)]
pub enum ArchiverKind {
    Disk,
    S3,
}

#[derive(Debug, Clone, Copy, PartialEq, Eq, Structural)]
pub struct CompressionConfig {
    pub allow_override: bool,
    pub default_algorithm: CompressionAlgorithm,
}

#[derive(Debug, Clone, PartialEq)]
pub struct TelemetryConfig {
    pub enabled: bool,
    pub service_name: String,
    pub logs_endpoint: String,
    pub traces_endpoint: String,
}

#[derive(Debug, Clone, Copy, PartialEq, Eq, Structural)]
pub struct CacheConfig {
    pub enabled: bool,
    /// The cache's byte budget.
    pub size: u64,
}

#[derive(Debug, Clone, Copy, PartialEq, Eq, Structural)]
pub struct SegmentConfig {
    /// The largest size of a segment in bytes.
    pub size: u64,
    pub cache_indexes: bool,
    pub message_expiry: IggyExpiry,
}

/// An interval is in microseconds; zero means none.
#[derive(Debug, Clone, Copy, PartialEq, Eq, Structural)]
pub struct MessageSaverConfig {
    pub enabled: bool,
    pub enforce_fsync: bool,
    pub interval: u64,
}

#[derive(Debug, Clone, PartialEq)]
pub struct DiskArchiverConfig {
    pub path: String,
}

#[derive(Debug, Clone, PartialEq)]
pub struct S3ArchiverConfig {
    pub key_id: String,
    pub key_secret: String,
    pub bucket: String,
    pub endpoint: Option<String>,
    pub region: Option<String>,
    pub tmp_upload_dir: String,
}

#[derive(Debug, Clone, PartialEq)]
pub struct ArchiverConfig {
    pub enabled: bool,
    pub kind: ArchiverKind,
    pub disk: Option<DiskArchiverConfig>,
    pub s3: Option<S3ArchiverConfig>,
}

#[derive(Debug, Clone, Copy, PartialEq, Eq, Structural)]
pub struct MessagesMaintenanceConfig {
    pub archiver_enabled: bool,
    pub cleaner_enabled: bool,
    pub interval: u64,
}

#[derive(Debug, Clone, Copy, PartialEq, Eq, Structural)]
pub struct StateMaintenanceConfig {
    pub archiver_enabled: bool,
    pub overwrite: bool,
    pub interval: u64,
}

#[derive(Debug, Clone, PartialEq)]
pub struct DataMaintenanceConfig {
    pub archiver: ArchiverConfig,
    pub messages: MessagesMaintenanceConfig,
    pub state: StateMaintenanceConfig,
}

#[derive(Debug, Clone, Copy, PartialEq, Eq, Structural)]
pub struct PersonalAccessTokenConfig {
    pub max_tokens_per_user: u32,
    pub cleaner_enabled: bool,
    pub cleaner_interval: u64,
}

#[derive(Debug, Clone, Copy, PartialEq, Eq, Structural)]
pub struct TopicConfig {
    pub max_size: MaxTopicSize,
}

#[derive(Debug, Clone, PartialEq)]
pub struct SystemConfig {
    pub segment: SegmentConfig,
    pub cache: CacheConfig,
    pub compression: CompressionConfig,
    pub topic: TopicConfig,
}

#[derive(Debug, Clone, Copy, PartialEq, Eq, Structural)]
pub struct HttpConfig {
    pub enabled: bool,
    pub access_token_expiry: IggyExpiry,
}

#[derive(Debug, Clone, PartialEq)]
pub struct ServerConfig {
    pub data_maintenance: DataMaintenanceConfig,
    pub personal_access_token: PersonalAccessTokenConfig,
    pub system: SystemConfig,
    pub telemetry: TelemetryConfig,
    pub http: HttpConfig,
}

/// The outcome of a rule that has one kind of failure.
pub open spec fn verdict(ok: bool) -> Result<(), ServerConfigError> {
    if ok {
        Ok(())
    } else {
        Err(ServerConfigError::InvalidConfiguration)
    }
}

fn invalid() -> (r: Result<(), ServerConfigError>)
    ensures
        r == verdict(false),
{
    Err(ServerConfigError::InvalidConfiguration)
}

/// What `str::trim` leaves of a text: the text without leading and trailing
/// white space.
pub uninterp spec fn trimmed(s: Seq<char>) -> Seq<char>;

/// Relies on `str::trim`: the result depends on the text alone, is no longer
/// than it, and empty text stays empty.
#[verifier::external_body]
fn trim(s: &str) -> (r: &str)
    ensures
        r@ == trimmed(s@),
        r@.len() <= s@.len(),
{
    s.trim()
}

/// The text of an optional value, empty when there is none.
pub open spec fn text_or_empty(o: Option<String>) -> Seq<char> {
    match o {
        Some(s) => s@,
        None => Seq::empty(),
    }
}

fn is_blank_option(o: &Option<String>) -> (r: bool)
    ensures
        r == (text_or_empty(*o).len() == 0),
{
    match o {
        Some(s) => s.as_str().unicode_len() == 0,
        None => true,
    }
}

impl CompressionConfig {
    /// Every algorithm is accepted; compression is not applied yet.
    pub fn validate(&self) -> (r: Result<(), ServerConfigError>)
        ensures
            r == verdict(true),
    {
        Ok(())
    }
}

impl TelemetryConfig {
    pub open spec fn is_valid(&self) -> bool {
        self.enabled ==> (trimmed(self.service_name@).len() > 0 && self.logs_endpoint@.len() > 0
            && self.traces_endpoint@.len() > 0)
    }

    pub fn validate(&self) -> (r: Result<(), ServerConfigError>)
        ensures
            r == verdict(self.is_valid()),
    {
        if !self.enabled {
            return Ok(());
        }
        if trim(self.service_name.as_str()).unicode_len() == 0 {
            return invalid();
        }
        if self.logs_endpoint.as_str().unicode_len() == 0 {
            return invalid();
        }
        if self.traces_endpoint.as_str().unicode_len() == 0 {
            return invalid();
        }
        Ok(())
    }
}

impl CacheConfig {
    /// Validates the byte budget against the machine's total memory.
    pub fn validate_with_memory(&self, total_memory: u64) -> (r: Result<(), ServerConfigError>)
        ensures
            r == (if self.size > total_memory {
                Err(ServerConfigError::CacheConfigValidationFailure)
            } else {
                Ok(())
            }),
    {
        if self.size > total_memory {
            return Err(ServerConfigError::CacheConfigValidationFailure);
        }
        Ok(())
    }

    /// Validates the byte budget against this machine's total memory.
    pub fn validate(&self) -> (r: Result<(), ServerConfigError>)
        ensures
            r is Ok || r == Err::<(), ServerConfigError>(ServerConfigError::CacheConfigValidationFailure),
            self.size == 0 ==> r is Ok,
    {
        self.validate_with_memory(crate::memory::total_memory())
    }
}

impl SegmentConfig {
    pub open spec fn is_valid(&self) -> bool {
        self.size <= MAX_SEGMENT_SIZE
    }

    pub fn validate(&self) -> (r: Result<(), ServerConfigError>)
        ensures
            r == verdict(self.is_valid()),
    {
        if self.size > MAX_SEGMENT_SIZE {
            return invalid();
        }
        Ok(())
    }
}

impl MessageSaverConfig {
    pub open spec fn is_valid(&self) -> bool {
        !(self.enabled && self.interval == 0)
    }

    pub fn validate(&self) -> (r: Result<(), ServerConfigError>)
        ensures
            r == verdict(self.is_valid()),
    {
        if self.enabled && self.interval == 0 {
            return invalid();
        }
        Ok(())
    }
}

impl ArchiverConfig {
    pub open spec fn is_valid(&self) -> bool {
        self.enabled ==> match self.kind {
            ArchiverKind::Disk => match self.disk {
                Some(d) => d.path@.len() > 0,
                None => false,
            },
            ArchiverKind::S3 => match self.s3 {
                Some(s) => s.key_id@.len() > 0 && s.key_secret@.len() > 0 && (text_or_empty(
                    s.endpoint,
                ).len() > 0 || text_or_empty(s.region).len() > 0) && s.bucket@.len() > 0,
                None => false,
            },
        }
    }

    pub fn validate(&self) -> (r: Result<(), ServerConfigError>)
        ensures
            r == verdict(self.is_valid()),
    {
        if !self.enabled {
            return Ok(());
        }
        match self.kind {
            ArchiverKind::Disk => match &self.disk {
                None => invalid(),
                Some(disk) => {
                    if disk.path.as_str().unicode_len() == 0 {
                        return invalid();
                    }
                    Ok(())
                },
            },
            ArchiverKind::S3 => match &self.s3 {
                None => invalid(),
                Some(s3) => {
                    if s3.key_id.as_str().unicode_len() == 0 {
                        return invalid();
                    }
                    if s3.key_secret.as_str().unicode_len() == 0 {
                        return invalid();
                    }
                    if is_blank_option(&s3.endpoint) && is_blank_option(&s3.region) {
                        return invalid();
                    }
                    if s3.bucket.as_str().unicode_len() == 0 {
                        return invalid();
                    }
                    Ok(())
                },
            },
        }
    }
}

impl MessagesMaintenanceConfig {
    pub open spec fn is_valid(&self) -> bool {
        !(self.archiver_enabled && self.interval == 0)
    }

    pub fn validate(&self) -> (r: Result<(), ServerConfigError>)
        ensures
            r == verdict(self.is_valid()),
    {
        if self.archiver_enabled && self.interval == 0 {
            return invalid();
        }
        Ok(())
    }
}

impl StateMaintenanceConfig {
    pub open spec fn is_valid(&self) -> bool {
        !(self.archiver_enabled && self.interval == 0)
    }

    pub fn validate(&self) -> (r: Result<(), ServerConfigError>)
        ensures
            r == verdict(self.is_valid()),
    {
        if self.archiver_enabled && self.interval == 0 {
            return invalid();
        }
        Ok(())
    }
}

impl DataMaintenanceConfig {
    pub open spec fn is_valid(&self) -> bool {
        self.archiver.is_valid() && self.messages.is_valid() && self.state.is_valid()
    }

    pub fn validate(&self) -> (r: Result<(), ServerConfigError>)
        ensures
            r == verdict(self.is_valid()),
    {
        if self.archiver.validate().is_err() {
            return invalid();
        }
        if self.messages.validate().is_err() {
            return invalid();
        }
        if self.state.validate().is_err() {
            return invalid();
        }
        Ok(())
    }
}

impl PersonalAccessTokenConfig {
    pub open spec fn is_valid(&self) -> bool {
        self.max_tokens_per_user > 0 && !(self.cleaner_enabled && self.cleaner_interval == 0)
    }

    pub fn validate(&self) -> (r: Result<(), ServerConfigError>)
        ensures
            r == verdict(self.is_valid()),
    {
        if self.max_tokens_per_user == 0 {
            return invalid();
        }
        if self.cleaner_enabled && self.cleaner_interval == 0 {
            return invalid();
        }
        Ok(())
    }
}

/// The largest size of a topic in bytes; nothing for the server default.
pub open spec fn topic_size_bytes(m: MaxTopicSize) -> Option<u64> {
    match m {
        MaxTopicSize::Custom(size) => Some(size),
        MaxTopicSize::Unlimited => Some(u64::MAX),
        MaxTopicSize::ServerDefault => None,
    }
}

impl ServerConfig {
    /// The rules checked before the cache.
    pub open spec fn is_valid_before_cache(&self) -> bool {
        self.data_maintenance.is_valid() && self.personal_access_token.is_valid()
            && self.system.segment.is_valid()
    }

    /// The rules checked after the cache: telemetry, a topic size that is not
    /// the server default and holds a segment, a message expiry that is not
    /// the server default, and a token expiry that is not when HTTP is on.
    pub open spec fn is_valid_after_cache(&self) -> bool {
        &&& self.telemetry.is_valid()
        &&& topic_size_bytes(self.system.topic.max_size) is Some
        &&& self.system.segment.message_expiry != IggyExpiry::ServerDefault
        &&& self.http.enabled ==> self.http.access_token_expiry != IggyExpiry::ServerDefault
        &&& topic_size_bytes(self.system.topic.max_size)->0 >= self.system.segment.size
    }

    /// The outcome of validation on a machine with `total_memory` bytes.
    pub open spec fn validation(&self, total_memory: u64) -> Result<(), ServerConfigError> {
        if !self.is_valid_before_cache() {
            Err(ServerConfigError::InvalidConfiguration)
        } else if self.system.cache.size > total_memory {
            Err(ServerConfigError::CacheConfigValidationFailure)
        } else {
            verdict(self.is_valid_after_cache())
        }
    }

    /// Validates the whole configuration on a machine with `total_memory` bytes.
    pub fn validate_with_memory(&self, total_memory: u64) -> (r: Result<(), ServerConfigError>)
        ensures
            r == self.validation(total_memory),
    {
        if self.data_maintenance.validate().is_err() {
            return invalid();
        }
        if self.personal_access_token.validate().is_err() {
            return invalid();
        }
        if self.system.segment.validate().is_err() {
            return invalid();
        }
        if self.system.cache.validate_with_memory(total_memory).is_err() {
            return Err(ServerConfigError::CacheConfigValidationFailure);
        }
        if self.system.compression.validate().is_err() {
            return invalid();
        }
        if self.telemetry.validate().is_err() {
            return invalid();
        }
        let topic_size = match self.system.topic.max_size {
            MaxTopicSize::Custom(size) => size,
            MaxTopicSize::Unlimited => u64::MAX,
            MaxTopicSize::ServerDefault => {
                return invalid();
            },
        };
        if let IggyExpiry::ServerDefault = self.system.segment.message_expiry {
            return invalid();
        }
        if self.http.enabled {
            if let IggyExpiry::ServerDefault = self.http.access_token_expiry {
                return invalid();
            }
        }
        if topic_size < self.system.segment.size {
            return invalid();
        }
        Ok(())
    }

    /// Validates the whole configuration on this machine.
    pub fn validate(&self) -> (r: Result<(), ServerConfigError>)
        ensures
            exists|total_memory: u64| r == self.validation(total_memory),
    {
        let total_memory = crate::memory::total_memory();
        self.validate_with_memory(total_memory)
    }
}

} // verus!
