use rocky::config::{
    get_compaction_style, get_index_type, BlockBasedIndexType, DBCompactionStyle, DbConfig,
    PathCfg, RocksDbConfig, ServiceConfig,
};
use rocky::errors::{ApiError, ErrorCtx};

#[test]
fn should_build_db_paths() {
    let cfg = DbConfig(RocksDbConfig::default());
    assert_eq!("./db", cfg.path());
    assert_eq!("./db/test_db", cfg.db_path("test_db"));
    assert_eq!("./db/root", cfg.db_path("root"));
}

#[test]
fn should_use_stock_engine_defaults() {
    let cfg = RocksDbConfig::default();
    assert_eq!("./db", cfg.path);
    assert_eq!(-1, cfg.max_open_files);
    assert!(!cfg.fsync);
    assert_eq!(2, cfg.max_write_buffer_number);
    assert_eq!(0x4000000, cfg.write_buffer_size);
    assert_eq!("Level", cfg.compaction_style);
    assert_eq!("HashSearch", cfg.index_type);
    assert_eq!(24, cfg.level_zero_stop_writes_trigger);
}

#[test]
fn should_build_bind_address() {
    let cfg = ServiceConfig {
        ip: "localhost".to_string(),
        port: 8080,
        workers: 4,
        dev_mode: true,
    };
    assert_eq!("localhost:8080", cfg.bind_address());
    assert!(cfg.dev_mode());
    assert_eq!(4, cfg.workers());
}

#[test]
fn should_default_service_config() {
    let cfg = ServiceConfig::default();
    assert_eq!("localhost:8080", cfg.bind_address());
    assert!(cfg.dev_mode());
}

#[test]
fn should_default_paths() {
    let cfg = PathCfg::default();
    assert_eq!("./log", cfg.log_path);
    assert_eq!("./config", cfg.config_path);
}

#[test]
fn should_parse_compaction_style() {
    assert_eq!(DBCompactionStyle::Level, get_compaction_style("Level"));
    assert_eq!(DBCompactionStyle::Level, get_compaction_style("level"));
    assert_eq!(
        DBCompactionStyle::Universal,
        get_compaction_style("UNIVERSAL")
    );
    assert_eq!(DBCompactionStyle::Fifo, get_compaction_style("Fifo"));
    assert_eq!(DBCompactionStyle::Level, get_compaction_style("bogus"));
}

#[test]
fn should_parse_index_type() {
    assert_eq!(BlockBasedIndexType::HashSearch, get_index_type("HashSearch"));
    assert_eq!(
        BlockBasedIndexType::BinarySearch,
        get_index_type("binarysearch")
    );
    assert_eq!(
        BlockBasedIndexType::TwoLevelIndexSearch,
        get_index_type("TwoLevelIndexSearch")
    );
    assert_eq!(BlockBasedIndexType::HashSearch, get_index_type("unknown"));
}

#[test]
fn should_render_not_found_messages() {
    let e = ApiError::from_not_found("/test_db");
    assert_eq!(
        "This is not the path you're looking for, path = \"/test_db\".",
        e.message()
    );
    assert_eq!("Not found", ApiError::not_found_generic().message());
}

#[test]
fn should_render_validation_context() {
    let e = ErrorCtx::Validation("bad name".to_string());
    assert_eq!("Validation error: bad name", e.to_message());
}
