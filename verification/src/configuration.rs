use vstd::prelude::*;

verus! {

/// The program's settings, one section per concern.
#[derive(Debug)]
pub struct Configuration {
    /// `[video]`: where the bytes come from and how they are cut.
    pub video: VideoConfig,
    /// `[pipeline]`: how the frames are consumed.
    pub pipeline: PipelineConfig,
    /// `[logging]`: how events are recorded.
    pub logging: LoggingConfig,
}

/// The data source.
#[derive(Debug)]
pub struct VideoConfig {
    /// Address of the video to download.
    pub url: String,
    /// Number of bytes in every complete frame (`DEFAULT_FRAME_SIZE` when
    /// the setting is absent).
    pub frame_size: usize,
}

/// The frame size used when the configuration names none: 64 KiB.
pub const DEFAULT_FRAME_SIZE: usize = 65536;

/// The frame size to use: the configured one, or `DEFAULT_FRAME_SIZE` when
/// the configuration names none.
pub fn frame_size_or_default(configured: Option<usize>) -> (r: usize)
    ensures
        r == (match configured {
            Some(n) => n,
            None => DEFAULT_FRAME_SIZE,
        }),
        configured is None ==> r == 64 * 1024,
{
    match configured {
        Some(n) => n,
        None => DEFAULT_FRAME_SIZE,
    }
}

/// The processing side.
#[derive(Debug)]
pub struct PipelineConfig {
    /// Number of consumers that drain the frame queue side by side.
    pub workers: usize,
}

/// The event log.
#[derive(Debug)]
pub struct LoggingConfig {
    /// Verbosity: "error", "warn", "info", "debug" or "trace".
    pub level: String,
    /// Directory that holds the daily log files.
    pub log_dir: String,
}

} // verus!
