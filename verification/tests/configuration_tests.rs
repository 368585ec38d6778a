use stream_pipe::configuration::{
    frame_size_or_default, Configuration, LoggingConfig, PipelineConfig, VideoConfig,
    DEFAULT_FRAME_SIZE,
};
use stream_pipe::logger::{default_level, level_or_info, LogLevel};

/// Reads a TOML text with the `config` crate and fills the library's
/// settings from its keys.
fn parse_toml(toml: &str) -> Configuration {
    let cfg = config::Config::builder()
        .add_source(config::File::from_str(toml, config::FileFormat::Toml))
        .build()
        .unwrap();
    Configuration {
        video: VideoConfig {
            url: cfg.get_string("video.url").unwrap(),
            frame_size: cfg.get_int("video.frame_size").unwrap() as usize,
        },
        pipeline: PipelineConfig {
            workers: cfg.get_int("pipeline.workers").unwrap() as usize,
        },
        logging: LoggingConfig {
            level: cfg.get_string("logging.level").unwrap(),
            log_dir: cfg.get_string("logging.log_dir").unwrap(),
        },
    }
}

fn with_level(level: &str) -> Configuration {
    Configuration {
        video: VideoConfig { url: String::from("http://example.com/video.mp4"), frame_size: 65536 },
        pipeline: PipelineConfig { workers: 1 },
        logging: LoggingConfig { level: String::from(level), log_dir: String::from("logs") },
    }
}

#[test]
fn test_configuracion_completa() {
    let cfg = parse_toml(
        r#"
        [video]
        url = "http://example.com/video.mp4"
        frame_size = 65536

        [pipeline]
        workers = 1

        [logging]
        level = "info"
        log_dir = "/var/log/stream-pipe"
    "#,
    );

    assert_eq!(cfg.video.url, "http://example.com/video.mp4");
    assert_eq!(cfg.video.frame_size, 65536);
    assert_eq!(cfg.pipeline.workers, 1);
    assert_eq!(cfg.logging.level, "info");
}

#[test]
fn test_frame_size_personalizado() {
    let cfg = parse_toml(
        r#"
        [video]
        url = "http://example.com/video.mp4"
        frame_size = 32768

        [pipeline]
        workers = 2

        [logging]
        level = "debug"
        log_dir = "logs/"
    "#,
    );

    assert_eq!(cfg.video.frame_size, 32768);
    assert_eq!(cfg.pipeline.workers, 2);
}

#[test]
fn default_level_reads_level_names() {
    assert_eq!(default_level(&with_level("error")), LogLevel::Error);
    assert_eq!(default_level(&with_level("warn")), LogLevel::Warn);
    assert_eq!(default_level(&with_level("info")), LogLevel::Info);
    assert_eq!(default_level(&with_level("debug")), LogLevel::Debug);
    assert_eq!(default_level(&with_level("trace")), LogLevel::Trace);
}

#[test]
fn default_level_ignores_case_and_accepts_numbers() {
    assert_eq!(default_level(&with_level("WARN")), LogLevel::Warn);
    assert_eq!(default_level(&with_level("Debug")), LogLevel::Debug);
    assert_eq!(default_level(&with_level("1")), LogLevel::Error);
    assert_eq!(default_level(&with_level("5")), LogLevel::Trace);
}

#[test]
fn default_level_falls_back_to_info() {
    assert_eq!(default_level(&with_level("verbose")), LogLevel::Info);
    assert_eq!(default_level(&with_level("")), LogLevel::Info);
    assert_eq!(default_level(&with_level("0")), LogLevel::Info);
    assert_eq!(default_level(&with_level("6")), LogLevel::Info);
}

#[test]
fn level_or_info_maps_numbers() {
    assert_eq!(level_or_info(None), LogLevel::Info);
    assert_eq!(level_or_info(Some(1)), LogLevel::Error);
    assert_eq!(level_or_info(Some(2)), LogLevel::Warn);
    assert_eq!(level_or_info(Some(3)), LogLevel::Info);
    assert_eq!(level_or_info(Some(4)), LogLevel::Debug);
    assert_eq!(level_or_info(Some(5)), LogLevel::Trace);
}

#[test]
fn frame_size_defaults_to_64_kib() {
    assert_eq!(DEFAULT_FRAME_SIZE, 65536);
    assert_eq!(frame_size_or_default(None), 65536);
    assert_eq!(frame_size_or_default(Some(32768)), 32768);
}

#[test]
fn missing_frame_size_takes_the_default() {
    let cfg = config::Config::builder()
        .add_source(config::File::from_str(
            "[video]\nurl = \"http://example.com/video.mp4\"\n",
            config::FileFormat::Toml,
        ))
        .build()
        .unwrap();
    let configured = cfg.get_int("video.frame_size").ok().map(|n| n as usize);
    assert_eq!(frame_size_or_default(configured), 65536);
}

#[test]
fn default_level_mixed_case_names() {
    assert_eq!(default_level(&with_level("eRRoR")), LogLevel::Error);
    assert_eq!(default_level(&with_level("TRACE")), LogLevel::Trace);
    assert_eq!(default_level(&with_level("Info")), LogLevel::Info);
}
