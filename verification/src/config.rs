//! The settings of a broker.

use vstd::prelude::*;
use crate::digits::{parse_u64, parsed_u64};
use crate::text::chars_of;

verus! {

/// The settings of a broker.
#[derive(Debug, Clone)]
pub struct BrokerConfig {
    pub addr: String,
    pub wal_dir: String,
    pub segment_out_dir: String,
    pub parallelism: usize,
    pub hot_cap: usize,
    /// The manifest file, if segments are published.
    pub manifest_path: Option<String>,
    /// The shard of this broker.
    pub shard: u64,
}

/// The settings as they may be given, each as text.
#[derive(Debug, Clone)]
pub struct ConfigValues {
    pub addr: Option<String>,
    pub wal_dir: Option<String>,
    pub segment_out_dir: Option<String>,
    pub parallelism: Option<String>,
    pub hot_cap: Option<String>,
    pub manifest_path: Option<String>,
    pub shard: Option<String>,
}

/// The number of segment tasks that run side by side where none is set.
pub fn default_parallelism() -> (r: usize)
    ensures
        r == 4,
{
    4
}

/// The capacity of the hot buffer where none is set.
pub fn default_hot_cap() -> (r: usize)
    ensures
        r == 10_000,
{
    10_000
}

/// The number that a setting gives: what the text says where it is an
/// unsigned decimal that fits, else the default.
pub open spec fn number_or(value: Option<String>, default: u64, max: u64) -> u64 {
    match value {
        Some(s) => match parsed_u64(s@) {
            Some(n) => if n <= max {
                n
            } else {
                default
            },
            None => default,
        },
        None => default,
    }
}

/// The number that a setting gives.
fn parse_or(value: &Option<String>, default: u64, max: u64) -> (r: u64)
    requires
        default <= max,
    ensures
        r == number_or(*value, default, max),
        r <= max,
{
    match value {
        Some(s) => {
            let cs = chars_of(s.as_str());
            match parse_u64(&cs) {
                Some(n) => if n <= max {
                    n
                } else {
                    default
                },
                None => default,
            }
        },
        None => default,
    }
}

impl BrokerConfig {
    /// The settings that the given values make, with the default for each
    /// value that is missing or, for a number, not readable.
    pub fn from_values(v: ConfigValues) -> (r: Self)
        ensures
            r.addr@ == (match v.addr {
                Some(s) => s@,
                None => "0.0.0.0:8080"@,
            }),
            r.wal_dir@ == (match v.wal_dir {
                Some(s) => s@,
                None => "wal"@,
            }),
            r.segment_out_dir@ == (match v.segment_out_dir {
                Some(s) => s@,
                None => "segments"@,
            }),
            r.parallelism == number_or(v.parallelism, 4, usize::MAX as u64),
            r.hot_cap == number_or(v.hot_cap, 10_000, usize::MAX as u64),
            r.manifest_path == v.manifest_path,
            r.shard == number_or(v.shard, 0, u64::MAX),
    {
        let parallelism = parse_or(&v.parallelism, 4, usize::MAX as u64) as usize;
        let hot_cap = parse_or(&v.hot_cap, 10_000, usize::MAX as u64) as usize;
        let shard = parse_or(&v.shard, 0, u64::MAX);
        BrokerConfig {
            addr: match v.addr {
                Some(s) => s,
                None => "0.0.0.0:8080".to_owned(),
            },
            wal_dir: match v.wal_dir {
                Some(s) => s,
                None => "wal".to_owned(),
            },
            segment_out_dir: match v.segment_out_dir {
                Some(s) => s,
                None => "segments".to_owned(),
            },
            parallelism,
            hot_cap,
            manifest_path: v.manifest_path,
            shard,
        }
    }
}

} // verus!
