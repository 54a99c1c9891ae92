//! Service and store configuration.

use vstd::prelude::*;
use vstd::string::*;

use crate::conversion::{dec_chars, eq_ignore_ascii_case, eq_ignore_ascii_case_spec, u128_to_string};

verus! {

/// Network-facing settings of the service.
#[derive(Debug)]
pub struct ServiceConfig {
    pub ip: String,
    pub port: u16,
    pub workers: u8,
    pub dev_mode: bool,
}

impl ServiceConfig {
    /// The socket address string `ip:port`.
    pub fn bind_address(&self) -> (r: String)
        ensures
            r@ == self.ip@ + ":"@ + dec_chars(self.port as int),
    {
        let mut s = self.ip.as_str().to_owned();
        s.append(":");
        let port = u128_to_string(self.port as u128);
        s.append(port.as_str());
        proof {
            assert(s@ =~= self.ip@ + ":"@ + dec_chars(self.port as int));
        }
        s
    }

    /// Whether the service runs in development mode.
    pub fn dev_mode(&self) -> (r: bool)
        ensures
            r == self.dev_mode,
    {
        self.dev_mode
    }

    /// How many request workers to run.
    pub fn workers(&self) -> (r: usize)
        ensures
            r == self.workers as usize,
    {
        self.workers as usize
    }
}

/// How many CPUs the machine offers.
///
/// Relies on `num_cpus::get`, which its documentation promises returns
/// at least 1; beyond that the count depends on the machine.
#[verifier::external_body]
fn cpu_count() -> (r: usize)
    ensures
        r >= 1,
{
    num_cpus::get()
}

impl Default for ServiceConfig {
    /// Local development defaults: every CPU serves, on localhost port
    /// 8080.
    fn default() -> (r: Self)
        ensures
            r.ip@ == "localhost"@,
            r.port == 8080,
            r.dev_mode == true,
    {
        ServiceConfig {
            ip: "localhost".to_owned(),
            port: 8080,
            workers: #[verifier::truncate] (cpu_count() as u8),
            dev_mode: true,
        }
    }
}

/// Where a database called `name` lives on disk under the store root
/// `root`: the subdirectory named after it.
pub open spec fn path_of(root: Seq<char>, name: Seq<char>) -> Seq<char> {
    root + "/"@ + name
}

/// Tuning knobs of the storage engine, together with the store root path.
#[derive(Debug)]
pub struct RocksDbConfig {
    pub path: String,
    pub max_open_files: i32,
    pub fsync: bool,
    pub bytes_per_sync: u64,
    pub disable_data_sync: bool,
    pub optimize_for_point_lookup: u64,
    pub num_shard_bits: i32,
    pub max_write_buffer_number: i32,
    pub write_buffer_size: usize,
    pub target_file_size_base: usize,
    pub min_write_buffer_number_to_merge: i32,
    pub level_zero_stop_writes_trigger: i32,
    pub level_zero_slowdown_writes_trigger: i32,
    pub compaction_style: String,
    pub use_cache: bool,
    pub cache_defaults: bool,
    pub cache_size: usize,
    pub block_cache: usize,
    pub bloom_filter_bits_per_key: i32,
    pub bloom_filter_block_based: bool,
    pub index_type: String,
}

impl Default for RocksDbConfig {
    /// The stock tuning used when no configuration file is present.
    fn default() -> (r: Self)
        ensures
            r.path@ == "./db"@,
            r.max_open_files == -1,
            r.fsync == false,
            r.bytes_per_sync == 0,
            r.disable_data_sync == false,
            r.optimize_for_point_lookup == 1024,
            r.num_shard_bits == 6,
            r.max_write_buffer_number == 2,
            r.write_buffer_size == 0x4000000,
            r.target_file_size_base == 0x4000000,
            r.min_write_buffer_number_to_merge == 1,
            r.level_zero_stop_writes_trigger == 24,
            r.level_zero_slowdown_writes_trigger == 24,
            r.compaction_style@ == "Level"@,
            r.use_cache == true,
            r.cache_defaults == true,
            r.cache_size == 100_000,
            r.block_cache == 10_000,
            r.bloom_filter_bits_per_key == 8,
            r.bloom_filter_block_based == true,
            r.index_type@ == "HashSearch"@,
    {
        RocksDbConfig {
            path: "./db".to_owned(),
            max_open_files: -1,
            fsync: false,
            bytes_per_sync: 0,
            disable_data_sync: false,
            optimize_for_point_lookup: 1024,
            num_shard_bits: 6,
            max_write_buffer_number: 2,
            write_buffer_size: 0x4000000,
            target_file_size_base: 0x4000000,
            min_write_buffer_number_to_merge: 1,
            level_zero_stop_writes_trigger: 24,
            level_zero_slowdown_writes_trigger: 24,
            compaction_style: "Level".to_owned(),
            use_cache: true,
            cache_defaults: true,
            cache_size: 100_000,
            block_cache: 10_000,
            bloom_filter_bits_per_key: 8,
            bloom_filter_block_based: true,
            index_type: "HashSearch".to_owned(),
        }
    }
}

/// How the engine is asked to organise its compaction.
#[derive(Debug, Clone, Copy, PartialEq, Eq, Structural)]
pub enum DBCompactionStyle {
    Level,
    Universal,
    Fifo,
}

/// How the engine is asked to index its table blocks.
#[derive(Debug, Clone, Copy, PartialEq, Eq, Structural)]
pub enum BlockBasedIndexType {
    HashSearch,
    BinarySearch,
    TwoLevelIndexSearch,
}

/// The compaction style a configuration string names, ignoring ASCII
/// letter case; an unknown string falls back to the level style.
pub open spec fn compaction_style_of(s: Seq<char>) -> DBCompactionStyle {
    if eq_ignore_ascii_case_spec(s, "level"@) {
        DBCompactionStyle::Level
    } else if eq_ignore_ascii_case_spec(s, "universal"@) {
        DBCompactionStyle::Universal
    } else if eq_ignore_ascii_case_spec(s, "fifo"@) {
        DBCompactionStyle::Fifo
    } else {
        DBCompactionStyle::Level
    }
}

/// Parse the compaction style named by a configuration string.
pub fn get_compaction_style(s: &str) -> (r: DBCompactionStyle)
    ensures
        r == compaction_style_of(s@),
{
    if eq_ignore_ascii_case(s, "level") {
        DBCompactionStyle::Level
    } else if eq_ignore_ascii_case(s, "universal") {
        DBCompactionStyle::Universal
    } else if eq_ignore_ascii_case(s, "fifo") {
        DBCompactionStyle::Fifo
    } else {
        DBCompactionStyle::Level
    }
}

/// The block index type a configuration string names, ignoring ASCII
/// letter case; an unknown string falls back to hash search.
pub open spec fn index_type_of(s: Seq<char>) -> BlockBasedIndexType {
    if eq_ignore_ascii_case_spec(s, "hashsearch"@) {
        BlockBasedIndexType::HashSearch
    } else if eq_ignore_ascii_case_spec(s, "binarysearch"@) {
        BlockBasedIndexType::BinarySearch
    } else if eq_ignore_ascii_case_spec(s, "twolevelindexsearch"@) {
        BlockBasedIndexType::TwoLevelIndexSearch
    } else {
        BlockBasedIndexType::HashSearch
    }
}

/// Parse the block index type named by a configuration string.
pub fn get_index_type(s: &str) -> (r: BlockBasedIndexType)
    ensures
        r == index_type_of(s@),
{
    if eq_ignore_ascii_case(s, "hashsearch") {
        BlockBasedIndexType::HashSearch
    } else if eq_ignore_ascii_case(s, "binarysearch") {
        BlockBasedIndexType::BinarySearch
    } else if eq_ignore_ascii_case(s, "twolevelindexsearch") {
        BlockBasedIndexType::TwoLevelIndexSearch
    } else {
        BlockBasedIndexType::HashSearch
    }
}

/// Where the service looks for its log files and configuration files.
#[derive(Debug)]
pub struct PathCfg {
    pub log_path: String,
    pub config_path: String,
}

impl Default for PathCfg {
    /// Log under `./log`, configuration under `./config`.
    fn default() -> (r: Self)
        ensures
            r.log_path@ == "./log"@,
            r.config_path@ == "./config"@,
    {
        PathCfg { log_path: "./log".to_owned(), config_path: "./config".to_owned() }
    }
}

/// The store configuration handed to the database manager.
#[derive(Debug)]
pub struct DbConfig(pub RocksDbConfig);

impl DbConfig {
    /// The root directory that all databases live under.
    pub fn path(&self) -> (r: &str)
        ensures
            r@ == self.0.path@,
    {
        self.0.path.as_str()
    }

    /// The directory of the database called `db_name`.
    pub fn db_path(&self, db_name: &str) -> (r: String)
        ensures
            r@ == path_of(self.0.path@, db_name@),
    {
        let mut p = self.0.path.as_str().to_owned();
        p.append("/");
        p.append(db_name);
        p
    }
}

} // verus!
