use iggy_core::archiver::DiskArchiver;
use iggy_core::config::{
    ArchiverConfig, ArchiverKind, CacheConfig, CompressionAlgorithm, CompressionConfig,
    DataMaintenanceConfig, DiskArchiverConfig, HttpConfig, IggyExpiry, MaxTopicSize,
    MessageSaverConfig, MessagesMaintenanceConfig, PersonalAccessTokenConfig, S3ArchiverConfig,
    SegmentConfig, ServerConfig, ServerConfigError, StateMaintenanceConfig, SystemConfig,
    TelemetryConfig, TopicConfig,
};
use iggy_core::samplers::{
    BinarySchema, MessageSampler, RetainedMessageBatchSampler, ServerCompatError,
};

fn server_config() -> ServerConfig {
    ServerConfig {
        data_maintenance: DataMaintenanceConfig {
            archiver: ArchiverConfig { enabled: false, kind: ArchiverKind::Disk, disk: None, s3: None },
            messages: MessagesMaintenanceConfig { archiver_enabled: false, cleaner_enabled: false, interval: 0 },
            state: StateMaintenanceConfig { archiver_enabled: false, overwrite: false, interval: 0 },
        },
        personal_access_token: PersonalAccessTokenConfig {
            max_tokens_per_user: 100,
            cleaner_enabled: true,
            cleaner_interval: 60_000_000,
        },
        system: SystemConfig {
            segment: SegmentConfig { size: 1_000_000, cache_indexes: true, message_expiry: IggyExpiry::NeverExpire },
            cache: CacheConfig { enabled: true, size: 1000 },
            compression: CompressionConfig { allow_override: false, default_algorithm: CompressionAlgorithm::Gzip },
            topic: TopicConfig { max_size: MaxTopicSize::Unlimited },
        },
        telemetry: TelemetryConfig {
            enabled: false,
            service_name: String::new(),
            logs_endpoint: String::new(),
            traces_endpoint: String::new(),
        },
        http: HttpConfig { enabled: true, access_token_expiry: IggyExpiry::ExpireDuration(3_600_000_000) },
    }
}

#[test]
fn valid_server_config() {
    let config = server_config();
    assert_eq!(config.validate_with_memory(1 << 30), Ok(()));
}

#[test]
fn cache_larger_than_memory_fails() {
    let config = server_config();
    assert_eq!(config.validate_with_memory(999), Err(ServerConfigError::CacheConfigValidationFailure));
    assert_eq!(
        CacheConfig { enabled: true, size: 10 }.validate_with_memory(9),
        Err(ServerConfigError::CacheConfigValidationFailure)
    );
    assert_eq!(CacheConfig { enabled: false, size: 0 }.validate(), Ok(()));
}

#[test]
fn server_defaults_are_rejected() {
    let mut config = server_config();
    config.system.topic.max_size = MaxTopicSize::ServerDefault;
    assert_eq!(config.validate_with_memory(1 << 30), Err(ServerConfigError::InvalidConfiguration));
    let mut config = server_config();
    config.system.segment.message_expiry = IggyExpiry::ServerDefault;
    assert_eq!(config.validate_with_memory(1 << 30), Err(ServerConfigError::InvalidConfiguration));
    let mut config = server_config();
    config.http.access_token_expiry = IggyExpiry::ServerDefault;
    assert_eq!(config.validate_with_memory(1 << 30), Err(ServerConfigError::InvalidConfiguration));
    config.http.enabled = false;
    assert_eq!(config.validate_with_memory(1 << 30), Ok(()));
}

#[test]
fn topic_smaller_than_segment_is_rejected() {
    let mut config = server_config();
    config.system.topic.max_size = MaxTopicSize::Custom(999_999);
    assert_eq!(config.validate_with_memory(1 << 30), Err(ServerConfigError::InvalidConfiguration));
    config.system.topic.max_size = MaxTopicSize::Custom(1_000_000);
    assert_eq!(config.validate_with_memory(1 << 30), Ok(()));
}

#[test]
fn segment_size_cap() {
    let at_cap = SegmentConfig { size: 2147483647, cache_indexes: false, message_expiry: IggyExpiry::NeverExpire };
    assert_eq!(at_cap.validate(), Ok(()));
    let over = SegmentConfig { size: 2147483648, cache_indexes: false, message_expiry: IggyExpiry::NeverExpire };
    assert_eq!(over.validate(), Err(ServerConfigError::InvalidConfiguration));
}

#[test]
fn telemetry_rules() {
    let mut telemetry = TelemetryConfig {
        enabled: true,
        service_name: "  ".to_string(),
        logs_endpoint: "http://l".to_string(),
        traces_endpoint: "http://t".to_string(),
    };
    assert_eq!(telemetry.validate(), Err(ServerConfigError::InvalidConfiguration));
    telemetry.service_name = " broker ".to_string();
    assert_eq!(telemetry.validate(), Ok(()));
    telemetry.traces_endpoint = String::new();
    assert_eq!(telemetry.validate(), Err(ServerConfigError::InvalidConfiguration));
    telemetry.enabled = false;
    assert_eq!(telemetry.validate(), Ok(()));
}

#[test]
fn archiver_rules() {
    let mut archiver = ArchiverConfig { enabled: true, kind: ArchiverKind::Disk, disk: None, s3: None };
    assert_eq!(archiver.validate(), Err(ServerConfigError::InvalidConfiguration));
    archiver.disk = Some(DiskArchiverConfig { path: "archive".to_string() });
    assert_eq!(archiver.validate(), Ok(()));
    archiver.kind = ArchiverKind::S3;
    let mut s3 = S3ArchiverConfig {
        key_id: "id".to_string(),
        key_secret: "secret".to_string(),
        bucket: "b".to_string(),
        endpoint: None,
        region: Some(String::new()),
        tmp_upload_dir: "tmp".to_string(),
    };
    archiver.s3 = Some(s3.clone());
    assert_eq!(archiver.validate(), Err(ServerConfigError::InvalidConfiguration));
    s3.region = Some("eu".to_string());
    archiver.s3 = Some(s3.clone());
    assert_eq!(archiver.validate(), Ok(()));
    s3.bucket = String::new();
    archiver.s3 = Some(s3);
    assert_eq!(archiver.validate(), Err(ServerConfigError::InvalidConfiguration));
}

#[test]
fn interval_and_token_rules() {
    assert_eq!(
        MessageSaverConfig { enabled: true, enforce_fsync: false, interval: 0 }.validate(),
        Err(ServerConfigError::InvalidConfiguration)
    );
    assert_eq!(MessageSaverConfig { enabled: true, enforce_fsync: false, interval: 1 }.validate(), Ok(()));
    assert_eq!(
        StateMaintenanceConfig { archiver_enabled: true, overwrite: false, interval: 0 }.validate(),
        Err(ServerConfigError::InvalidConfiguration)
    );
    assert_eq!(
        PersonalAccessTokenConfig { max_tokens_per_user: 0, cleaner_enabled: false, cleaner_interval: 0 }.validate(),
        Err(ServerConfigError::InvalidConfiguration)
    );
    let mut config = server_config();
    config.data_maintenance.messages = MessagesMaintenanceConfig { archiver_enabled: true, cleaner_enabled: false, interval: 0 };
    assert_eq!(config.validate_with_memory(1 << 30), Err(ServerConfigError::InvalidConfiguration));
    assert_eq!(CompressionConfig { allow_override: true, default_algorithm: CompressionAlgorithm::Uncompressed }.validate(), Ok(()));
}

#[test]
fn samplers_check_first_offset() {
    let sampler = MessageSampler::new(5, "0.log".to_string(), "0.index".to_string());
    assert_eq!(sampler.check_sample(0, &[]), Ok(BinarySchema::RetainedMessageSchema));
    assert_eq!(sampler.check_sample(20, &5u64.to_le_bytes()), Ok(BinarySchema::RetainedMessageSchema));
    assert_eq!(
        sampler.check_sample(20, &6u64.to_le_bytes()),
        Err(ServerCompatError::InvalidMessageOffsetFormatConversion)
    );
    assert_eq!(
        sampler.check_sample(20, &[1, 2]),
        Err(ServerCompatError::InvalidMessageFieldFormatConversionSampling)
    );
    let batches = RetainedMessageBatchSampler::new(9, "9.log".to_string(), "9.index".to_string());
    assert_eq!(batches.segment_start_offset, 9);
    assert_eq!(batches.check_sample(30, &9u64.to_le_bytes()), Ok(BinarySchema::RetainedMessageBatchSchema));
    assert_eq!(
        batches.check_sample(30, &1u64.to_le_bytes()),
        Err(ServerCompatError::InvalidBatchBaseOffsetFormatConversion)
    );
    assert_eq!(batches.check_sample(30, &[]), Err(ServerCompatError::CannotReadMessageBatchFormatConversion));
    let archiver = DiskArchiver::new(DiskArchiverConfig { path: "archive".to_string() });
    assert_eq!(archiver.config.path, "archive");
}
