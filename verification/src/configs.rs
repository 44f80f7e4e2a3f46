//! Configuration of the log, and the file layout that follows from it.
//!
//! ```text
//! <base>/streams/<stream_id>/topics/<topic_id>/partitions/<partition_id>/segments/<start_offset>
//! ```
//!
//! is the common stem of a segment's three files; ids and offsets are
//! written in decimal.

use std::sync::Arc;
use vstd::prelude::*;
use vstd::string::StringExecFns;
use crate::error::LogError;

verus! {

/// The largest size of a segment's log, and so of its size threshold.
pub const MAX_SIZE_BYTES: u32 = 1000 * 1000 * 1000;

/// Options of every segment.
#[derive(Debug)]
pub struct SegmentConfig {
    /// Size in bytes at which a segment is full.
    pub size: u32,
    /// Whether a segment keeps its offset index in memory.
    pub cache_indexes: bool,
    /// Whether a segment keeps its time index in memory.
    pub cache_time_indexes: bool,
    /// Seconds after which a message expires; 0 for never.
    pub message_expiry: u32,
}

/// Options of a partition's message cache.
#[derive(Debug)]
pub struct CacheConfig {
    pub enabled: bool,
    /// The number of newest messages that a partition keeps in memory.
    pub messages_amount: u64,
}

/// Options of retention.
#[derive(Debug)]
pub struct RetentionConfig {
    /// Bytes that a topic may hold before its oldest sealed segments are
    /// deleted; 0 for no limit.
    pub max_topic_size: u64,
}

/// Everything that the log reads from its configuration.
#[derive(Debug)]
pub struct SystemConfig {
    /// The base directory.
    pub path: String,
    pub segment: SegmentConfig,
    pub cache: CacheConfig,
    pub retention: RetentionConfig,
}

/// The decimal digit `d`.
pub open spec fn digit_char(d: nat) -> char {
    if d == 0 {
        '0'
    } else if d == 1 {
        '1'
    } else if d == 2 {
        '2'
    } else if d == 3 {
        '3'
    } else if d == 4 {
        '4'
    } else if d == 5 {
        '5'
    } else if d == 6 {
        '6'
    } else if d == 7 {
        '7'
    } else if d == 8 {
        '8'
    } else {
        '9'
    }
}

/// `n` in decimal, without leading zeros.
pub open spec fn decimal(n: nat) -> Seq<char>
    decreases n,
{
    if n < 10 {
        seq![digit_char(n)]
    } else {
        decimal(n / 10).push(digit_char(n % 10))
    }
}

/// The stem of the three files of the segment that starts at `start_offset`.
pub open spec fn segment_path(
    base: Seq<char>,
    stream_id: u32,
    topic_id: u32,
    partition_id: u32,
    start_offset: u64,
) -> Seq<char> {
    base + "/streams/"@ + decimal(stream_id as nat) + "/topics/"@ + decimal(topic_id as nat)
        + "/partitions/"@ + decimal(partition_id as nat) + "/segments/"@ + decimal(
        start_offset as nat,
    )
}

fn digit_str(d: u64) -> (s: &'static str)
    requires
        d < 10,
    ensures
        s@ == seq![digit_char(d as nat)],
{
    proof {
        reveal_strlit("0");
        reveal_strlit("1");
        reveal_strlit("2");
        reveal_strlit("3");
        reveal_strlit("4");
        reveal_strlit("5");
        reveal_strlit("6");
        reveal_strlit("7");
        reveal_strlit("8");
        reveal_strlit("9");
    }
    let s = if d == 0 {
        "0"
    } else if d == 1 {
        "1"
    } else if d == 2 {
        "2"
    } else if d == 3 {
        "3"
    } else if d == 4 {
        "4"
    } else if d == 5 {
        "5"
    } else if d == 6 {
        "6"
    } else if d == 7 {
        "7"
    } else if d == 8 {
        "8"
    } else {
        "9"
    };
    assert(s@ =~= seq![digit_char(d as nat)]);
    s
}

/// Appends `n` in decimal to `text`.
pub fn push_decimal(text: &mut String, n: u64)
    ensures
        final(text)@ == old(text)@ + decimal(n as nat),
    decreases n,
{
    if n >= 10 {
        push_decimal(text, n / 10);
    }
    text.append(digit_str(n % 10));
    assert(text@ =~= old(text)@ + decimal(n as nat));
}

impl Default for SegmentConfig {
    fn default() -> (config: SegmentConfig)
        ensures
            config.size == MAX_SIZE_BYTES,
            config.cache_indexes,
            config.cache_time_indexes,
            config.message_expiry == 0,
    {
        SegmentConfig {
            size: MAX_SIZE_BYTES,
            cache_indexes: true,
            cache_time_indexes: true,
            message_expiry: 0,
        }
    }
}

impl Default for CacheConfig {
    fn default() -> (config: CacheConfig)
        ensures
            config.enabled,
            config.messages_amount == 1000,
    {
        CacheConfig { enabled: true, messages_amount: 1000 }
    }
}

impl Default for RetentionConfig {
    fn default() -> (config: RetentionConfig)
        ensures
            config.max_topic_size == 0,
    {
        RetentionConfig { max_topic_size: 0 }
    }
}

impl Default for SystemConfig {
    fn default() -> (config: SystemConfig)
        ensures
            config.path@ == "local_data"@,
            config.segment.size == MAX_SIZE_BYTES,
            config.segment.cache_indexes,
            config.segment.cache_time_indexes,
            config.segment.message_expiry == 0,
            config.cache.enabled,
            config.cache.messages_amount == 1000,
            config.retention.max_topic_size == 0,
            config.valid(),
    {
        SystemConfig {
            path: String::from_str("local_data"),
            segment: SegmentConfig::default(),
            cache: CacheConfig::default(),
            retention: RetentionConfig::default(),
        }
    }
}

impl SystemConfig {
    /// A segment's size threshold is positive and at most `MAX_SIZE_BYTES`.
    pub open spec fn valid(&self) -> bool {
        0 < self.segment.size <= MAX_SIZE_BYTES
    }

    /// Checks the values that the log depends on.
    pub fn validate(&self) -> (checked: Result<(), LogError>)
        ensures
            checked is Ok <==> self.valid(),
            checked is Err ==> checked == Err::<(), LogError>(LogError::ConfigError),
    {
        if self.segment.size == 0 || self.segment.size > MAX_SIZE_BYTES {
            Err(LogError::ConfigError)
        } else {
            Ok(())
        }
    }

    /// The expiry that new segments take from the configuration.
    pub fn message_expiry(&self) -> (expiry: Option<u32>)
        ensures
            expiry == (if self.segment.message_expiry == 0 {
                None
            } else {
                Some(self.segment.message_expiry)
            }),
    {
        if self.segment.message_expiry == 0 {
            None
        } else {
            Some(self.segment.message_expiry)
        }
    }

    /// The stem of the three files of a segment.
    pub fn get_segment_path(
        &self,
        stream_id: u32,
        topic_id: u32,
        partition_id: u32,
        start_offset: u64,
    ) -> (path: String)
        ensures
            path@ == segment_path(self.path@, stream_id, topic_id, partition_id, start_offset),
    {
        let mut path = String::from_str(self.path.as_str());
        path.append("/streams/");
        push_decimal(&mut path, stream_id as u64);
        path.append("/topics/");
        push_decimal(&mut path, topic_id as u64);
        path.append("/partitions/");
        push_decimal(&mut path, partition_id as u64);
        path.append("/segments/");
        push_decimal(&mut path, start_offset);
        path
    }
}

/// Another handle on the same configuration, as `Arc::clone` gives it: the
/// new handle points to the value that `config` points to.
#[verifier::external_body]
pub(crate) fn share(config: &Arc<SystemConfig>) -> (shared: Arc<SystemConfig>)
    ensures
        shared == *config,
{
    Arc::clone(config)
}

} // verus!
