use optdbg::cli::{
    benchmark_config, converted_path, improvement_line, improvement_percent, table_path,
    table_stem, TimeoutTime,
};
use optdbg::duration::Duration;
use optdbg::float::encoding::Float64;

fn parsed(text: &str) -> Result<Duration, &'static str> {
    TimeoutTime::from_str(text).map(|t| t.0)
}

#[test]
fn timeouts_are_a_number_and_a_unit() {
    assert_eq!(parsed("5s"), Ok(Duration::from_secs(5)));
    assert_eq!(parsed("2m"), Ok(Duration::from_secs(120)));
    assert_eq!(parsed("1h"), Ok(Duration::from_secs(3600)));
    assert_eq!(parsed("007s"), Ok(Duration::from_secs(7)));
    assert_eq!(parsed("18446744073709551615s"), Ok(Duration::from_secs(u64::MAX)));
}

#[test]
fn timeouts_of_another_form_are_refused() {
    assert_eq!(parsed(""), Err("bad number"));
    assert_eq!(parsed("s"), Err("bad number"));
    assert_eq!(parsed("-5s"), Err("bad number"));
    assert_eq!(parsed("18446744073709551616s"), Err("bad number"));
    assert_eq!(parsed("²s"), Err("bad number"));
    assert_eq!(parsed("5"), Err("bad suffix"));
    assert_eq!(parsed("5d"), Err("bad suffix"));
    assert_eq!(parsed("5ms"), Err("bad suffix"));
    assert_eq!(parsed("5 s"), Err("bad suffix"));
    assert_eq!(parsed("5s5"), Err("bad suffix"));
}

#[test]
fn arguments_change_the_defaults() {
    let cfg = benchmark_config(true, None);
    assert!(cfg.fast);
    assert_eq!(cfg.timeout, None);
    assert_eq!(cfg.num_runs, 3);
    let cfg = benchmark_config(false, TimeoutTime::from_str("9s").ok());
    assert!(!cfg.fast);
    assert_eq!(cfg.timeout, Some(Duration::from_secs(9)));
    assert_eq!(cfg.overlap_threshold, Float64::from_bits(0.5f64.to_bits()));
}

#[test]
fn improvements_are_percentages() {
    let slow = Duration::from_millis(8000);
    let fast = Duration::from_millis(6000);
    let percent = improvement_percent(slow, fast).unwrap();
    assert_eq!(f64::from_bits(percent.to_bits()), 25.0);
    assert_eq!(improvement_line("Caching", percent), "Caching improved performance by 25.00%");
    let worse = improvement_percent(fast, slow).unwrap();
    assert_eq!(f64::from_bits(worse.to_bits()), (6.0 - 8.0) / 6.0 * 100.0);
    assert_eq!(improvement_line("It", worse), "It improved performance by -33.33%");
    assert!(improvement_percent(Duration::from_secs(0), fast).is_none());
}

#[test]
fn tables_have_their_places() {
    assert_eq!(table_path("./tpch-data", "part"), "./tpch-data/part.parquet");
    assert_eq!(table_stem("part.tbl"), "part");
    assert_eq!(table_stem(".tbl"), "");
    assert_eq!(converted_path("/data/part.tbl"), "/data/part.parquet");
    assert_eq!(converted_path("/dätå/é.tbl"), "/dätå/é.parquet");
}
