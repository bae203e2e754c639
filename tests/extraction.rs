use logplot::logrecord::{BlockBuilder, ConfigError, LogParser, LogRecordField, LogRecordType, LogRecordsConfig, ParsedBlock};
use std::sync::Arc;

fn samples(block: &ParsedBlock, name: &str) -> Vec<(i64, i64)> {
    let idx = block.field_names().iter().position(|n| n == name).expect("field declared");
    block.field_samples(idx)
}

fn cpu_config(coef: Option<i64>, ylim: Option<Vec<i64>>) -> Arc<LogRecordsConfig> {
    let mut rt = LogRecordType::new("cpu", r"t=(?P<ts>[0-9.]+) usage=(?P<usage>[0-9.]+)").ok().unwrap();
    rt.add_field("usage", Some(1), Some("line"), coef, ylim);
    let mut conf = LogRecordsConfig::new("test".to_string());
    conf.insert(rt);
    Arc::new(conf)
}

fn lines(ls: &[&str]) -> Vec<String> {
    ls.iter().map(|s| s.to_string()).collect()
}

#[test]
fn cpu_usage_scenario() {
    let mut parser = LogParser::new(cpu_config(Some(1_000_000), None));
    let (b1, n1) = parser.parse(&lines(&["t=1.0 usage=50\n"])).unwrap();
    assert_eq!(n1, 1);
    assert_eq!(samples(&b1, "usage"), vec![(0, 50_000_000)]);
    // the block is stamped with its largest relative timestamp: 1.0 - 1.0
    assert_eq!(b1.get_ts(), 0);
    let (b2, n2) = parser.parse(&lines(&["t=2.0 usage=75\n"])).unwrap();
    assert_eq!(n2, 1);
    assert_eq!(samples(&b2, "usage"), vec![(1_000_000, 75_000_000)]);
    assert_eq!(b2.get_ts(), 1_000_000);
}

#[test]
fn value_scaled_then_clamped() {
    // coefficient 2, clamp to [0, 120]
    let mut parser = LogParser::new(cpu_config(Some(2_000_000), Some(vec![0, 120_000_000])));
    let (b, _) = parser.parse(&lines(&["t=10 usage=50\n", "t=11 usage=70\n"])).unwrap();
    assert_eq!(samples(&b, "usage"), vec![(0, 100_000_000), (1_000_000, 120_000_000)]);
    assert_eq!(b.get_ts(), 1_000_000);
}

#[test]
fn no_match_gives_no_block() {
    let mut parser = LogParser::new(cpu_config(None, None));
    assert!(parser.parse(&lines(&["nothing here\n"])).is_none());
    assert!(parser.parse(&lines(&[])).is_none());
}

#[test]
fn baseline_is_first_timestamp_ever() {
    let mut parser = LogParser::new(cpu_config(None, None));
    parser.parse(&lines(&["t=100.5 usage=1\n"])).unwrap();
    let (b, _) = parser.parse(&lines(&["t=103 usage=2\n"])).unwrap();
    assert_eq!(samples(&b, "usage"), vec![(2_500_000, 2_000_000)]);
}

#[test]
fn unparseable_field_is_skipped() {
    let mut rt = LogRecordType::new("m", r"t=(?P<ts>\S+) v=(?P<v>\S+) w=(?P<w>\S+)").ok().unwrap();
    rt.add_field("v", None, None, None, None);
    rt.add_field("w", None, None, None, None);
    let mut conf = LogRecordsConfig::new("t".to_string());
    conf.insert(rt);
    let mut parser = LogParser::new(Arc::new(conf));
    let (b, n) = parser.parse(&lines(&["t=5 v=abc w=7\n"])).unwrap();
    assert_eq!(n, 1);
    assert_eq!(samples(&b, "v"), vec![]);
    assert_eq!(samples(&b, "w"), vec![(0, 7_000_000)]);
}

#[test]
fn fallback_counter_without_timestamps() {
    let mut rt = LogRecordType::new("plain", r"value=(?P<value>[0-9]+)").ok().unwrap();
    rt.add_field("value", None, None, None, None);
    let mut conf = LogRecordsConfig::new("t".to_string());
    conf.insert(rt);
    let mut parser = LogParser::new(Arc::new(conf));
    let (b0, _) = parser.parse(&lines(&["value=3\n"])).unwrap();
    assert_eq!(b0.get_ts(), 0);
    assert_eq!(samples(&b0, "value"), vec![(0, 3_000_000)]);
    let (b1, _) = parser.parse(&lines(&["value=4\n"])).unwrap();
    assert_eq!(b1.get_ts(), 1_000_000);
    assert!(parser.parse(&lines(&["nope\n"])).is_none());
    let (b2, _) = parser.parse(&lines(&["value=5\n"])).unwrap();
    assert_eq!(b2.get_ts(), 2_000_000);
}

#[test]
fn time_ts_group_is_used_when_no_ts() {
    let mut rt = LogRecordType::new("clock", r"at (?P<time_ts>\S+) load=(?P<load>\S+)").ok().unwrap();
    rt.add_field("load", None, None, None, None);
    rt.add_field("time_ts", None, None, None, None);
    let mut conf = LogRecordsConfig::new("t".to_string());
    conf.insert(rt);
    let mut parser = LogParser::new(Arc::new(conf));
    let (b, _) = parser.parse(&lines(&["at 01:00:00 load=1\n", "at 01:00:30.5 load=2\n"])).unwrap();
    assert_eq!(samples(&b, "load"), vec![(0, 1_000_000), (30_500_000, 2_000_000)]);
    // the timestamp group is declared but never read as a field
    assert_eq!(samples(&b, "time_ts"), vec![]);
    assert_eq!(b.get_ts(), 30_500_000);
}

#[test]
fn several_record_types_match_one_line() {
    let mut a = LogRecordType::new("a", r"t=(?P<ts>\S+) x=(?P<x>\S+)").ok().unwrap();
    a.add_field("x", None, None, None, None);
    let mut b = LogRecordType::new("b", r"t=(?P<ts>\S+) .*y=(?P<y>\S+)").ok().unwrap();
    b.add_field("y", None, None, None, None);
    let mut conf = LogRecordsConfig::new("t".to_string());
    conf.insert(a);
    conf.insert(b);
    let mut parser = LogParser::new(Arc::new(conf));
    let (blk, n) = parser.parse(&lines(&["t=1 x=2 y=3\n"])).unwrap();
    // one line, matched by two record types, counts once
    assert_eq!(n, 1);
    assert_eq!(blk.field_names().clone(), vec!["x".to_string(), "y".to_string()]);
    assert_eq!(samples(&blk, "x"), vec![(0, 2_000_000)]);
    assert_eq!(samples(&blk, "y"), vec![(0, 3_000_000)]);
}

#[test]
fn invalid_pattern_is_an_error() {
    let r = LogRecordType::new("bad", "foo(bar");
    assert!(matches!(r, Err(ConfigError::InvalidPattern(_))));
}

#[test]
fn add_field_replaces_same_name() {
    let mut rt = LogRecordType::new("r", r"(?P<ts>\d+) (?P<v>\d+)").ok().unwrap();
    rt.add_field("v", None, None, Some(2_000_000), None);
    rt.add_field("v", Some(2), None, Some(3_000_000), None);
    assert_eq!(rt.fields().len(), 1);
    assert_eq!(rt.fields()[0].coef, Some(3_000_000));
    assert_eq!(rt.fields()[0].axis, Some(2));
    assert_eq!(rt.name(), "r");
}

#[test]
fn field_value_defaults() {
    let f = LogRecordField::new("v".to_string(), None, Some("dots"), None, Some(vec![1, 2, 3]));
    // no coefficient means one unit; a limit list that is not a pair is not a range
    assert_eq!(f.value_of(-7_000_000), -7_000_000);
    assert_eq!(f.style, Some("dots".to_string()));
}

#[test]
fn block_copy_and_stamp() {
    let mut b = ParsedBlock::new();
    assert_eq!(b.get_ts(), 0);
    b.set_ts(42);
    let c = b.duplicate();
    assert_eq!(c.get_ts(), 42);
    assert!(c.field_names().is_empty());
}

fn texts(v: &[Option<&str>]) -> Vec<Option<String>> {
    v.iter().map(|o| o.map(|s| s.to_string())).collect()
}

fn cpu_type() -> LogRecordType {
    let mut rt = LogRecordType::new("cpu", r"t=(?P<ts>\S+) usage=(?P<usage>\S+)").ok().unwrap();
    rt.add_field("usage", None, None, Some(1_000_000), None);
    rt
}

#[test]
fn builder_takes_given_captures() {
    let rt = cpu_type();
    assert_eq!(rt.group_names().clone(), vec!["ts".to_string(), "time_ts".to_string(), "usage".to_string()]);
    let mut b = BlockBuilder::new(None);
    b.begin_line();
    b.add_match(&rt, &texts(&[Some("1.0"), None, Some("50")]));
    b.end_line();
    assert_eq!(b.baseline(), Some(1_000_000));
    b.begin_line();
    b.add_match(&rt, &texts(&[Some("2.0"), None, Some("75")]));
    b.end_line();
    assert!(b.matched());
    let ts = b.stamp(0);
    assert_eq!(ts, 1_000_000);
    let (blk, n) = b.into_block(ts);
    assert_eq!(n, 2);
    assert_eq!(samples(&blk, "usage"), vec![(0, 50_000_000), (1_000_000, 75_000_000)]);
}

#[test]
fn builder_uses_duration_text_and_existing_baseline() {
    let rt = cpu_type();
    let mut b = BlockBuilder::new(Some(60_000_000));
    b.add_match(&rt, &texts(&[None, Some("00:01:30"), Some("2.5")]));
    assert_eq!(b.baseline(), Some(60_000_000));
    let (blk, _) = b.into_block(0);
    assert_eq!(samples(&blk, "usage"), vec![(30_000_000, 2_500_000)]);
}

#[test]
fn builder_without_timestamp_uses_counter() {
    let rt = cpu_type();
    let mut b = BlockBuilder::new(Some(5_000_000));
    // two matches on one line count as one line
    b.begin_line();
    b.add_match(&rt, &texts(&[None, None, Some("4")]));
    b.add_match(&rt, &texts(&[None, None, Some("x")]));
    b.end_line();
    assert_eq!(b.lines_matched(), 1);
    // a sample without a timestamp is placed at raw 0, relative to the baseline
    assert_eq!(b.stamp(3), 3_000_000);
    let (blk, n) = b.into_block(3_000_000);
    assert_eq!(n, 1);
    assert_eq!(samples(&blk, "usage"), vec![(-5_000_000, 4_000_000)]);
}

#[test]
fn builder_empty_has_no_match() {
    let b = BlockBuilder::new(None);
    assert!(!b.matched());
    assert_eq!(b.baseline(), None);
}

#[test]
fn count_is_lines_matched_not_matches() {
    let mut a = LogRecordType::new("a", r"t=(?P<ts>\S+) x=(?P<x>\S+)").ok().unwrap();
    a.add_field("x", None, None, None, None);
    let mut b = LogRecordType::new("b", r"t=(?P<ts>\S+)").ok().unwrap();
    b.add_field("ts", None, None, None, None);
    let mut conf = LogRecordsConfig::new("t".to_string());
    conf.insert(a);
    conf.insert(b);
    let mut parser = LogParser::new(Arc::new(conf));
    let (_, n) = parser.parse(&lines(&["t=1 x=2\n", "nothing\n", "t=2\n", "t=3 x=4\n"])).unwrap();
    assert_eq!(n, 3);
}

#[test]
fn line_without_match_is_not_counted() {
    let mut b = BlockBuilder::new(None);
    b.begin_line();
    b.end_line();
    assert_eq!(b.lines_matched(), 0);
}

#[test]
fn field_value_with_exponent() {
    let mut conf = LogRecordsConfig::new("t".to_string());
    conf.insert(cpu_type());
    let mut parser = LogParser::new(Arc::new(conf));
    let (b, _) = parser.parse(&lines(&["t=1e1 usage=5e-1\n"])).unwrap();
    assert_eq!(samples(&b, "usage"), vec![(0, 500_000)]);
}
