use ads_search::workload::{
    parse_query_workload, parse_records, parse_update_workload, record_keyword_count, total_keyword_pairs,
    total_update_keyword_pairs, update_keyword_count, upload_batches, InputRecord, UpdateRecord, WorkloadError,
};

#[test]
fn records_skip_comments_blanks_and_short_lines() {
    let text = "\u{feff}# header\r\nf1, alpha ,beta\r\n\n  f2,,gamma,\nonlyfid\n,\nf3,delta";
    let (records, skipped) = parse_records(text);
    let records = records.unwrap();
    assert_eq!(records.len(), 3);
    assert_eq!(records[0].fid, "f1");
    assert_eq!(records[0].keywords, vec!["alpha", "beta"]);
    assert_eq!(records[1].fid, "f2");
    assert_eq!(records[1].keywords, vec!["gamma"]);
    assert_eq!(records[2].fid, "f3");
    assert_eq!(records[2].keywords, vec!["delta"]);
    assert_eq!(skipped, vec![5, 6]);
}

#[test]
fn records_need_at_least_one() {
    let (records, skipped) = parse_records("# nothing\n\nlonely\n");
    assert_eq!(records.err(), Some(WorkloadError::NoRecords));
    assert_eq!(skipped, vec![3]);
    assert_eq!(parse_records("").0.err(), Some(WorkloadError::NoRecords));
}

#[test]
fn queries_are_trimmed_lines() {
    let q = parse_query_workload("  a AND b \n#skip\n\u{feff}\u{feff}c\n\n").unwrap();
    assert_eq!(q, vec!["a AND b", "c"]);
    assert_eq!(parse_query_workload(" \n# x").err(), Some(WorkloadError::NoQueries));
}

#[test]
fn updates_are_three_fields() {
    let u = parse_update_workload("# fid,old,new\nf1, a , b\nf2,c,d\n").unwrap();
    assert_eq!(u.len(), 2);
    assert_eq!(u[0].fid, "f1");
    assert_eq!(u[0].old_keywords, vec!["a"]);
    assert_eq!(u[0].new_keywords, vec!["b"]);
    assert_eq!(u[1].new_keywords, vec!["d"]);
}

#[test]
fn bad_update_line_is_named() {
    let r = parse_update_workload("f1,a,b\n\nf2,a,\nf3,a,b,c\n");
    assert_eq!(r.err(), Some(WorkloadError::InvalidUpdate(3)));
    assert_eq!(parse_update_workload("f1,a").err(), Some(WorkloadError::InvalidUpdate(1)));
    assert_eq!(parse_update_workload("#only\n").err(), Some(WorkloadError::NoUpdates));
}

fn rec(fid: &str, kws: &[&str]) -> InputRecord {
    InputRecord { fid: fid.to_string(), keywords: kws.iter().map(|k| k.to_string()).collect() }
}

#[test]
fn keyword_pairs_count_each_records_distinct_keywords() {
    let records = vec![rec("f1", &["a", "b", "a"]), rec("f2", &[]), rec("f3", &["c"])];
    assert_eq!(record_keyword_count(&records[0].keywords), 2);
    assert_eq!(total_keyword_pairs(&records), 3);
}

#[test]
fn uploads_go_in_batches_of_the_given_size() {
    let records: Vec<_> = (0..5).map(|i| rec(&format!("f{i}"), &["k"])).collect();
    let batches = upload_batches(records, 2);
    let sizes: Vec<usize> = batches.iter().map(|b| b.len()).collect();
    assert_eq!(sizes, vec![2, 2, 1]);
    assert_eq!(batches[2][0].fid, "f4");
    let one_each = upload_batches(vec![rec("a", &[]), rec("b", &[])], 0);
    assert_eq!(one_each.len(), 2);
    assert!(upload_batches(Vec::new(), 3).is_empty());
}

#[test]
fn update_pairs_count_old_and_new_keywords_once() {
    let s = |v: &[&str]| v.iter().map(|k| k.to_string()).collect::<Vec<String>>();
    assert_eq!(update_keyword_count(&s(&["a", "b"]), &s(&["b", "c", "c"])), 3);
    let updates = vec![
        UpdateRecord { fid: "f1".to_string(), old_keywords: s(&["a"]), new_keywords: s(&["a"]) },
        UpdateRecord { fid: "f2".to_string(), old_keywords: s(&[]), new_keywords: s(&["x", "y"]) },
    ];
    assert_eq!(total_update_keyword_pairs(&updates), 3);
}
