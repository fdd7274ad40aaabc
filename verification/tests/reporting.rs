use substringcounter::report::aggregate_results;
use substringcounter::report::Report;

#[test]
fn empty_scan_yields_empty_report() {
    let report = aggregate_results(Vec::new());
    assert_eq!(report.len(), 0);
    assert_eq!(report.into_pairs(), Vec::new());
}

#[test]
fn insert_records_and_replaces() {
    let mut report = Report::new();
    report.insert(String::from("a.txt"), 3);
    report.insert(String::from("b.txt"), 7);
    assert_eq!(report.len(), 2);
    assert_eq!(report.get(&String::from("a.txt")), Some(3));
    assert_eq!(report.get(&String::from("b.txt")), Some(7));
    assert_eq!(report.get(&String::from("c.txt")), None);

    report.insert(String::from("a.txt"), 11);
    assert_eq!(report.len(), 2);
    assert_eq!(report.get(&String::from("a.txt")), Some(11));
}

#[test]
fn failed_file_absent_from_report() {
    let results = vec![
        (String::from("ok.txt"), Some(5)),
        (String::from("denied.txt"), None),
        (String::from("other.txt"), Some(0)),
    ];
    let report = aggregate_results(results);
    assert_eq!(report.len(), 2);
    assert_eq!(report.get(&String::from("ok.txt")), Some(5));
    assert_eq!(report.get(&String::from("denied.txt")), None);
    assert_eq!(report.get(&String::from("other.txt")), Some(0));
}

#[test]
fn aggregation_is_order_independent() {
    let forward = vec![
        (String::from("a.txt"), Some(1)),
        (String::from("b.txt"), Some(2)),
        (String::from("c.txt"), None),
        (String::from("d.txt"), Some(4)),
    ];
    let mut backward = forward.clone();
    backward.reverse();

    let first = aggregate_results(forward);
    let second = aggregate_results(backward);
    assert_eq!(first.len(), second.len());

    let mut first_pairs = first.into_pairs();
    let mut second_pairs = second.into_pairs();
    first_pairs.sort();
    second_pairs.sort();
    assert_eq!(first_pairs, second_pairs);
}

#[test]
fn merge_result_keeps_failures_out() {
    let mut report = Report::new();
    report.merge_result(String::from("x"), Some(2));
    report.merge_result(String::from("y"), None);
    assert_eq!(report.len(), 1);
    assert_eq!(report.get(&String::from("x")), Some(2));
    assert_eq!(report.get(&String::from("y")), None);
}
