use cerebro_gateway::metrics::parse_metrics_line;
use cerebro_gateway::metrics::render_metrics_line;
use cerebro_gateway::metrics::tail_metrics_lines;
use cerebro_gateway::metrics::MetricsRecord;

fn record(timestamp: u64, mode: &str, success: bool) -> MetricsRecord {
    MetricsRecord {
        timestamp,
        mode: mode.to_string(),
        provider: "local".to_string(),
        latency_ms: None,
        tokens_in: None,
        tokens_out: None,
        success,
    }
}

#[test]
fn render_minimal_record() {
    let line = render_metrics_line(&record(5, "chat", true));
    assert_eq!(line, "{\"timestamp\":5,\"mode\":\"chat\",\"provider\":\"local\",\"success\":true}");
}

#[test]
fn render_full_record() {
    let rec = MetricsRecord {
        timestamp: 1700000000123,
        mode: "edit".to_string(),
        provider: "remote".to_string(),
        latency_ms: Some(250),
        tokens_in: Some(12),
        tokens_out: Some(34),
        success: false,
    };
    let line = render_metrics_line(&rec);
    assert_eq!(
        line,
        "{\"timestamp\":1700000000123,\"mode\":\"edit\",\"provider\":\"remote\",\
         \"latencyMs\":250,\"tokensIn\":12,\"tokensOut\":34,\"success\":false}"
    );
}

#[test]
fn render_escapes_specials() {
    let rec = MetricsRecord {
        timestamp: 1,
        mode: "a\"b\\c".to_string(),
        provider: "x\ny\tz".to_string(),
        latency_ms: None,
        tokens_in: None,
        tokens_out: None,
        success: true,
    };
    let line = render_metrics_line(&rec);
    assert!(!line.contains('\n'));
    assert!(line.contains("a\\\"b\\\\c"));
    assert!(line.contains("x\\ny\\tz"));
}

#[test]
fn parse_inverts_render() {
    let rec = MetricsRecord {
        timestamp: 42,
        mode: "mo\"de\n".to_string(),
        provider: "pr\\ov".to_string(),
        latency_ms: Some(9),
        tokens_in: None,
        tokens_out: Some(77),
        success: true,
    };
    let line = render_metrics_line(&rec);
    let back = parse_metrics_line(&line).expect("rendered line must parse");
    assert_eq!(back.timestamp, rec.timestamp);
    assert_eq!(back.mode, rec.mode);
    assert_eq!(back.provider, rec.provider);
    assert_eq!(back.latency_ms, rec.latency_ms);
    assert_eq!(back.tokens_in, rec.tokens_in);
    assert_eq!(back.tokens_out, rec.tokens_out);
    assert_eq!(back.success, rec.success);
}

#[test]
fn parse_rejects_corrupt_lines() {
    assert!(parse_metrics_line("").is_none());
    assert!(parse_metrics_line("not json").is_none());
    assert!(parse_metrics_line("{\"timestamp\":}").is_none());
    assert!(parse_metrics_line("{\"timestamp\":5,\"mode\":\"m\"").is_none());
    assert!(parse_metrics_line("{\"timestamp\":5,\"mode\":\"m\",\"provider\":\"p\",\"success\":yes}").is_none());
}

#[test]
fn tail_keeps_last_two_in_order() {
    let lines: Vec<String> = (1..=5u64)
        .map(|i| render_metrics_line(&record(i, "chat", true)))
        .collect();
    let tail = tail_metrics_lines(&lines, Some(2));
    assert_eq!(tail.len(), 2);
    assert_eq!(tail[0].timestamp, 4);
    assert_eq!(tail[1].timestamp, 5);
}

#[test]
fn tail_skips_corrupted_line() {
    let mut lines: Vec<String> = vec![
        render_metrics_line(&record(1, "a", true)),
        "{\"broken".to_string(),
        render_metrics_line(&record(3, "c", false)),
    ];
    lines.push(String::new());
    let tail = tail_metrics_lines(&lines, None);
    assert_eq!(tail.len(), 2);
    assert_eq!(tail[0].timestamp, 1);
    assert_eq!(tail[1].timestamp, 3);
    assert!(!tail[1].success);
}

#[test]
fn tail_default_limit_is_twenty() {
    let lines: Vec<String> = (0..30u64)
        .map(|i| render_metrics_line(&record(i, "m", true)))
        .collect();
    let tail = tail_metrics_lines(&lines, None);
    assert_eq!(tail.len(), 20);
    assert_eq!(tail[0].timestamp, 10);
    assert_eq!(tail[19].timestamp, 29);
}

#[test]
fn tail_limit_zero_is_empty() {
    let lines = vec![render_metrics_line(&record(1, "m", true))];
    assert!(tail_metrics_lines(&lines, Some(0)).is_empty());
}
