use flows_back::ingest::consume_lines_and_update_db;
use flows_back::ingest::read_records;
use flows_back::model::AccessInfo;
use flows_back::store::Store;

fn record(time: &str, domain: Option<&str>) -> AccessInfo {
    AccessInfo {
        id: 0,
        time: time.to_string(),
        src_port: Some(5000),
        src_ip: Some("192.168.1.5".to_string()),
        dst_port: domain.map(|_| 443),
        dst_domain: domain.map(|d| d.to_string()),
        state: Some("accepted".to_string()),
        protocol: domain.map(|_| "tcp".to_string()),
        tag: None,
    }
}

#[test]
fn update_database_reports_attempted_count() {
    let mut store = Store::new();
    let batch = vec![
        record("2024-3-5 10:11:12", Some("a.com")),
        record("2024-3-5 10:11:12", Some("a.com")),
        record("2024-3-5 10:11:13", Some("b.com")),
    ];
    let n = store.update_database(&batch);
    assert_eq!(n, 3);
    assert_eq!(store.len(), 2);
}

#[test]
fn update_database_is_idempotent() {
    let mut store = Store::new();
    let batch = vec![
        record("2024-3-5 10:11:12", Some("a.com")),
        record("2024-3-5 10:11:13", Some("b.com")),
        record("2024-3-5 10:11:14", None),
    ];
    let n1 = store.update_database(&batch);
    let after_first = store.len();
    let n2 = store.update_database(&batch);
    assert_eq!(n1, 3);
    assert_eq!(n2, 3);
    assert_eq!(store.len(), after_first);
    assert_eq!(after_first, 3);
}

#[test]
fn top_domains_orders_by_count_descending() {
    let mut store = Store::new();
    let batch = vec![
        record("2024-3-5 10:00:01", Some("a.com")),
        record("2024-3-5 10:00:02", Some("b.com")),
        record("2024-3-5 10:00:03", Some("a.com")),
        record("2024-3-5 10:00:04", Some("c.com")),
        record("2024-3-5 10:00:05", Some("a.com")),
        record("2024-3-5 10:00:06", Some("c.com")),
        record("2024-3-5 10:00:07", None),
    ];
    store.update_database(&batch);
    let top = store.get_top_10_domain_statistics(10);
    assert_eq!(top.len(), 3);
    assert_eq!(top[0].domain, "a.com");
    assert_eq!(top[0].count, 3);
    assert_eq!(top[1].domain, "c.com");
    assert_eq!(top[1].count, 2);
    assert_eq!(top[2].domain, "b.com");
    assert_eq!(top[2].count, 1);

    let top2 = store.get_top_10_domain_statistics(2);
    assert_eq!(top2.len(), 2);
    assert_eq!(top2[0].domain, "a.com");
    assert_eq!(top2[1].domain, "c.com");
}

#[test]
fn top_domain_counts_sum_to_rows_with_domains() {
    let mut store = Store::new();
    let batch = vec![
        record("2024-3-5 10:00:01", Some("a.com")),
        record("2024-3-5 10:00:02", Some("b.com")),
        record("2024-3-5 10:00:03", Some("a.com")),
        record("2024-3-5 10:00:04", None),
        record("2024-3-5 10:00:05", Some("c.com")),
    ];
    let n = batch.len();
    store.update_database(&batch);
    let top = store.get_top_10_domain_statistics(n);
    let sum: u64 = top.iter().map(|s| s.count).sum();
    assert_eq!(sum, 4);
}

#[test]
fn day_counts_zero_fill_invalid_and_omit_empty_days() {
    let mut store = Store::new();
    let batch = vec![record("2024-3-5 10:11:12", Some("a.com"))];
    store.update_database(&batch);
    let dates: Vec<String> = vec![
        "2024-3-5".to_string(),
        "2024-3-4".to_string(),
        "2024-3-3".to_string(),
    ];
    let days = store.get_days_statistics(&dates);
    assert_eq!(days.len(), 1);
    assert_eq!(days[0].date_name, "2024-3-5");
    assert_eq!(days[0].domain_count, 1);

    let mixed: Vec<String> = vec!["asdf".to_string(), "2024-3-5".to_string()];
    let days2 = store.get_days_statistics(&mixed);
    assert_eq!(days2.len(), 2);
    assert_eq!(days2[0].date_name, "asdf");
    assert_eq!(days2[0].domain_count, 0);
    assert_eq!(days2[1].date_name, "2024-3-5");
    assert_eq!(days2[1].domain_count, 1);
}

#[test]
fn ingestion_cycle_drains_and_persists() {
    let mut store = Store::new();
    let lines: Vec<String> = vec![
        "2024/03/05 10:11:12 192.168.1.5:5000 accepted tcp:example.com:443".to_string(),
        "not a line".to_string(),
        "2024/03/05 10:11:12 192.168.1.5:5000 accepted tcp:example.com:443".to_string(),
    ];
    let n = consume_lines_and_update_db(&mut store, &lines);
    assert_eq!(n, 2);
    assert_eq!(store.len(), 1);

    let empty: Vec<String> = vec![];
    let n2 = consume_lines_and_update_db(&mut store, &empty);
    assert_eq!(n2, 0);
    assert_eq!(store.len(), 1);
}

#[test]
fn extracted_records_survive_round_trip_through_store() {
    let lines: Vec<String> = vec![
        "2024/03/05 10:11:12 192.168.1.5:5000 accepted tcp:example.com:443".to_string(),
        "2024/03/05 10:11:13 192.168.1.6:5001 accepted tcp:other.net:80".to_string(),
    ];
    let batch = read_records(&lines);
    let mut store = Store::new();
    store.update_database(&batch);
    let top = store.get_top_10_domain_statistics(batch.len());
    let sum: u64 = top.iter().map(|s| s.count).sum();
    assert_eq!(sum, 2);
    assert_eq!(top.len(), 2);
}
