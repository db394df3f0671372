use cerebro_gateway::telemetry::build_memory_info;
use cerebro_gateway::telemetry::clean_output;
use cerebro_gateway::telemetry::count_numeric;
use cerebro_gateway::telemetry::current_timestamp_ms;
use cerebro_gateway::telemetry::is_all_digits;
use cerebro_gateway::telemetry::parse_meminfo;
use cerebro_gateway::telemetry::parse_uptime;
use cerebro_gateway::telemetry::split_tokens;
use cerebro_gateway::telemetry::system_time_to_millis;
use cerebro_gateway::strutil::parse_u64;

#[test]
fn meminfo_parses_the_standard_table() {
    let contents = "MemTotal:       16384256 kB\n\
                    MemFree:         1024000 kB\n\
                    MemAvailable:    8192000 kB\n\
                    Buffers:          512000 kB\n\
                    SwapTotal:       2097152 kB\n\
                    SwapFree:        2097152 kB\n";
    let (total, free, available, swap_total, swap_free) = parse_meminfo(contents).unwrap();
    assert_eq!(total, 16384256 * 1024);
    assert_eq!(free, 1024000 * 1024);
    assert_eq!(available, 8192000 * 1024);
    assert_eq!(swap_total, 2097152 * 1024);
    assert_eq!(swap_free, 2097152 * 1024);
}

#[test]
fn meminfo_without_total_is_none() {
    assert!(parse_meminfo("MemFree: 5 kB\n").is_none());
    assert!(parse_meminfo("").is_none());
    assert!(parse_meminfo("MemTotal: junk kB\n").is_none());
}

#[test]
fn meminfo_later_lines_overwrite() {
    let contents = "MemTotal: 1 kB\nMemTotal: 2 kB\n";
    let (total, ..) = parse_meminfo(contents).unwrap();
    assert_eq!(total, 2 * 1024);
}

#[test]
fn memory_info_uses_available_as_free() {
    let m = build_memory_info(Some((100, 30, 60, 50, 20)));
    assert_eq!(m.total, 100);
    assert_eq!(m.free, 60);
    assert_eq!(m.used, 40);
    assert_eq!(m.swap_total, 50);
    assert_eq!(m.swap_used, 30);
}

#[test]
fn memory_info_falls_back_to_free() {
    let m = build_memory_info(Some((100, 30, 0, 0, 0)));
    assert_eq!(m.free, 30);
    assert_eq!(m.used, 70);
}

#[test]
fn memory_info_missing_sample_is_zero() {
    let m = build_memory_info(None);
    assert_eq!(m.total, 0);
    assert_eq!(m.used, 0);
    assert_eq!(m.free, 0);
}

#[test]
fn uptime_takes_whole_seconds() {
    assert_eq!(parse_uptime("12345.67 99999.99\n"), Some(12345));
    assert_eq!(parse_uptime("7 8"), Some(7));
    assert_eq!(parse_uptime(""), None);
    assert_eq!(parse_uptime(".5"), None);
    assert_eq!(parse_uptime("abc"), None);
}

#[test]
fn digit_names_are_counted() {
    assert!(is_all_digits("12345"));
    assert!(!is_all_digits("12a45"));
    let names: Vec<String> = ["1", "22", "self", "333", "cpuinfo"]
        .iter()
        .map(|s| s.to_string())
        .collect();
    assert_eq!(count_numeric(&names), 3);
}

#[test]
fn tokens_split_on_separators() {
    let toks = split_tokens("a  b\tc", " \t");
    assert_eq!(toks, vec!["a", "b", "c"]);
    assert!(split_tokens("   ", " ").is_empty());
}

#[test]
fn decimal_parse_bounds() {
    assert_eq!(parse_u64("0"), Some(0));
    assert_eq!(parse_u64("0123"), Some(123));
    assert_eq!(parse_u64("18446744073709551615"), Some(u64::MAX));
    assert_eq!(parse_u64("18446744073709551616"), None);
    assert_eq!(parse_u64(""), None);
    assert_eq!(parse_u64("12x"), None);
}

#[test]
fn outputs_are_trimmed() {
    assert_eq!(clean_output("  myhost \n"), Some("myhost".to_string()));
    assert_eq!(clean_output("\n\t  "), None);
    assert_eq!(clean_output(""), None);
}

#[test]
fn epoch_millis_from_parts() {
    assert_eq!(system_time_to_millis(None), None);
    assert_eq!(system_time_to_millis(Some((1, 500000000))), Some(1500));
    assert_eq!(system_time_to_millis(Some((0, 999999))), Some(0));
}

#[test]
fn clock_reads_forward_of_epoch() {
    assert!(current_timestamp_ms() > 0);
}
