use logplot::config::{load_records, record_from_entry, PlotEntry, RecordEntry};
use logplot::logrecord::ConfigError;
use logplot::once::Once;

fn plot(name: &str, coef: Option<&str>, ylim: Option<Vec<&str>>, axis: Option<i64>) -> PlotEntry {
    PlotEntry {
        name: Some(name.to_string()),
        axis,
        style: None,
        coef: coef.map(|c| c.to_string()),
        ylim: ylim.map(|v| v.iter().map(|s| s.to_string()).collect()),
    }
}

fn entry(name: Option<&str>, regex: Option<&str>, plots: Option<Vec<PlotEntry>>) -> RecordEntry {
    RecordEntry {
        name: name.map(|s| s.to_string()),
        regex: regex.map(|s| s.to_string()),
        plots,
    }
}

#[test]
fn entry_builds_record_type() {
    let e = entry(
        Some("cpu"),
        Some(r"t=(?P<ts>\S+) usage=(?P<usage>\S+)"),
        Some(vec![plot("usage", Some("1.5"), Some(vec!["0", "100"]), Some(2))]),
    );
    let rt = record_from_entry(&e).ok().unwrap().unwrap();
    assert_eq!(rt.name(), "cpu");
    assert_eq!(rt.fields().len(), 1);
    let f = &rt.fields()[0];
    assert_eq!(f.name, "usage");
    assert_eq!(f.coef, Some(1_500_000));
    assert_eq!(f.ylim, Some(vec![0, 100_000_000]));
    assert_eq!(f.axis, Some(2));
}

#[test]
fn axis_out_of_range_is_dropped() {
    let e = entry(Some("r"), Some("(?P<ts>x)"), Some(vec![plot("v", None, None, Some(300))]));
    let rt = record_from_entry(&e).ok().unwrap().unwrap();
    assert_eq!(rt.fields()[0].axis, None);
}

#[test]
fn entry_without_name_or_pattern_is_skipped() {
    assert!(matches!(record_from_entry(&entry(None, Some("x"), Some(vec![]))), Ok(None)));
    assert!(matches!(record_from_entry(&entry(Some("n"), None, Some(vec![]))), Ok(None)));
}

#[test]
fn entry_errors() {
    assert!(matches!(
        record_from_entry(&entry(Some("n"), Some("a("), Some(vec![]))),
        Err(ConfigError::InvalidPattern(_))
    ));
    assert!(matches!(
        record_from_entry(&entry(Some("n"), Some("a"), None)),
        Err(ConfigError::MissingPlots(_))
    ));
    assert!(matches!(
        record_from_entry(&entry(Some("n"), Some("a"), Some(vec![plot("v", Some("x1"), None, None)]))),
        Err(ConfigError::InvalidNumber(_))
    ));
    assert!(matches!(
        record_from_entry(&entry(Some("n"), Some("a"), Some(vec![plot("v", None, Some(vec!["1", "z"]), None)]))),
        Err(ConfigError::InvalidNumber(_))
    ));
}

#[test]
fn records_loaded_in_order_with_replacement() {
    let es = vec![
        entry(Some("a"), Some("(?P<ts>a)"), Some(vec![plot("x", None, None, None)])),
        entry(Some("b"), Some("(?P<ts>b)"), Some(vec![])),
        entry(Some("a"), Some("(?P<ts>c)"), Some(vec![plot("y", None, None, None)])),
    ];
    let conf = load_records("title".to_string(), &es).ok().unwrap();
    assert_eq!(conf.title(), "title");
    let names: Vec<&str> = conf.records().iter().map(|r| r.name()).collect();
    assert_eq!(names, vec!["a", "b"]);
    assert_eq!(conf.records()[0].fields()[0].name, "y");
}

#[test]
fn first_bad_entry_stops_loading() {
    let es = vec![
        entry(Some("a"), Some("(?P<ts>a)"), Some(vec![])),
        entry(Some("b"), Some("b("), Some(vec![])),
    ];
    assert!(matches!(load_records("t".to_string(), &es), Err(ConfigError::InvalidPattern(_))));
}

#[test]
fn timer_due_only_after_period() {
    let t = Once::new(5_000);
    assert!(!t.is_due(5_000));
    assert!(t.is_due(5_001));
    let mut long = Once::new(3_600_000);
    assert!(!long.once());
}

#[test]
fn plot_style_axis_and_limits_are_kept() {
    let mut p = plot("load", None, Some(vec!["1", "2", "3"]), Some(255));
    p.style = Some("dashed".to_string());
    let e = entry(Some("r"), Some("(?P<ts>x)"), Some(vec![p]));
    let rt = record_from_entry(&e).ok().unwrap().unwrap();
    let f = &rt.fields()[0];
    assert_eq!(f.axis, Some(255));
    assert_eq!(f.style, Some("dashed".to_string()));
    assert_eq!(f.ylim, Some(vec![1_000_000, 2_000_000, 3_000_000]));
    assert_eq!(f.coef, None);
}
