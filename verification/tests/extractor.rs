use flows_back::dates::parse_date;
use flows_back::ingest::read_records;
use flows_back::model::AccessInfo;
use flows_back::read_logs::read_access_info_from_line;

#[test]
fn test_parse_date() {
    let cases: Vec<(&str, bool, i32, i32, i32)> = vec![
        ("1212-12-01", true, 1212, 12, 1),
        ("2021-12-01", true, 2021, 12, 1),
        ("12-01-1234", false, 0, 0, 0),
        ("asdf", false, 0, 0, 0),
    ];

    for c in cases.into_iter() {
        match parse_date(c.0) {
            Some(ymd) => {
                assert_eq!(c.2, ymd.0);
                assert_eq!(c.3, ymd.1);
                assert_eq!(c.4, ymd.2)
            }
            None => {
                assert_eq!(c.1, false);
            }
        }
    }
}

#[test]
fn parse_date_finds_earliest_match() {
    assert_eq!(parse_date("x 2021-12-013 y"), Some((2021, 12, 1)));
    assert_eq!(parse_date("2021-3-4"), Some((2021, 3, 4)));
    assert_eq!(parse_date("2021-123-4"), None);
    assert_eq!(parse_date(""), None);
}

#[test]
fn accepted_line_with_destination() {
    let r = read_access_info_from_line("2024/03/05 10:11:12 192.168.1.5:5000 accepted tcp:example.com:443")
        .expect("line should match");
    assert_eq!(r.time, "2024-3-5 10:11:12");
    assert_eq!(r.src_ip.as_deref(), Some("192.168.1.5"));
    assert_eq!(r.src_port, Some(5000));
    assert_eq!(r.state.as_deref(), Some("accepted"));
    assert_eq!(r.protocol.as_deref(), Some("tcp"));
    assert_eq!(r.dst_domain.as_deref(), Some("example.com"));
    assert_eq!(r.dst_port, Some(443));
    assert_eq!(r.tag, None);
    assert_eq!(r.id, 0);
}

#[test]
fn rejected_line_without_destination() {
    let r = read_access_info_from_line("2024/03/05 10:11:12 192.168.1.5:5000 rejected connection refused")
        .expect("line should match");
    assert_eq!(r.state.as_deref(), Some("rejected"));
    assert_eq!(r.protocol, None);
    assert_eq!(r.dst_domain, None);
    assert_eq!(r.dst_port, None);
    assert_eq!(r.time, "2024-3-5 10:11:12");
}

#[test]
fn garbage_line_yields_nothing() {
    assert!(read_access_info_from_line("garbage not a log line").is_none());
}

#[test]
fn tagged_line_carries_label() {
    let r = read_access_info_from_line(
        "access_log_edge7 2024/12/31 23:59:58 10.0.0.1:65535 accepted udp:a-b.c0.net:53 extra",
    )
    .expect("line should match");
    assert_eq!(r.tag.as_deref(), Some("edge7"));
    assert_eq!(r.time, "2024-12-31 23:59:58");
    assert_eq!(r.src_port, Some(65535));
    assert_eq!(r.protocol.as_deref(), Some("udp"));
    assert_eq!(r.dst_domain.as_deref(), Some("a-b.c0.net"));
    assert_eq!(r.dst_port, Some(53));
}

#[test]
fn single_digit_month_and_day_stay_unpadded() {
    let r = read_access_info_from_line("2024/1/9 01:02:03 1.2.3.4:80 accepted note")
        .expect("line should match");
    assert_eq!(r.time, "2024-1-9 01:02:03");
    let r2 = read_access_info_from_line("2024/10/05 01:02:03 1.2.3.4:80 accepted note")
        .expect("line should match");
    assert_eq!(r2.time, "2024-10-5 01:02:03");
}

#[test]
fn long_port_run_keeps_first_five_digits() {
    let r = read_access_info_from_line("2024/03/05 10:11:12 1.2.3.4:80 accepted tcp:foo:1234567")
        .expect("line should match");
    assert_eq!(r.dst_port, Some(12345));
}

#[test]
fn malformed_destination_becomes_plain_trailer() {
    let r = read_access_info_from_line("2024/03/05 10:11:12 1.2.3.4:80 rejected tcp:foo.bar")
        .expect("line should match");
    assert_eq!(r.protocol, None);
    assert_eq!(r.dst_domain, None);
    assert_eq!(r.dst_port, None);
}

#[test]
fn truncated_lines_yield_nothing() {
    assert!(read_access_info_from_line("2024/03/05 10:11:12 1.2.3.4:80 accepted").is_none());
    assert!(read_access_info_from_line("2024/03/05 10:11:12 1.2.3.4:80 accepted ").is_none());
    assert!(read_access_info_from_line("2024/03/05 10:11:12 1234.5.6.7:80 accepted x").is_none());
    assert!(read_access_info_from_line("2024/123/05 10:11:12 1.2.3.4:80 accepted x").is_none());
    assert!(read_access_info_from_line("").is_none());
}

#[test]
fn tab_separates_fields_too() {
    let r = read_access_info_from_line("2024/03/05\t10:11:12\t1.2.3.4:80\taccepted\tx")
        .expect("line should match");
    assert_eq!(r.time, "2024-3-5 10:11:12");
}

#[test]
fn state_token_must_end_at_a_separator() {
    assert!(read_access_info_from_line("2024/03/05 10:11:12 1.2.3.4:80 acceptedly x").is_none());
    assert!(read_access_info_from_line("2024/03/05 10:11:12 1.2.3.4:80 denied x").is_none());
}

#[test]
fn bare_tag_marker_is_no_line() {
    assert!(read_access_info_from_line("access_log_ 2024/03/05 10:11:12 1.2.3.4:80 accepted x")
        .is_none());
    assert!(read_access_info_from_line("access_log_x2024/03/05 10:11:12 1.2.3.4:80 accepted x")
        .is_none());
}

#[test]
fn batch_extraction_keeps_order_and_drops_failures() {
    let lines: Vec<String> = vec![
        "2024/03/05 10:11:12 192.168.1.5:5000 accepted tcp:example.com:443".to_string(),
        "garbage not a log line".to_string(),
        "2024/03/05 10:11:13 192.168.1.6:5001 rejected connection refused".to_string(),
    ];
    let batch: Vec<AccessInfo> = read_records(&lines);
    assert_eq!(batch.len(), 2);
    assert_eq!(batch[0].src_ip.as_deref(), Some("192.168.1.5"));
    assert_eq!(batch[1].src_ip.as_deref(), Some("192.168.1.6"));
}

#[test]
fn empty_drain_yields_empty_batch() {
    let lines: Vec<String> = vec![];
    let batch = read_records(&lines);
    assert!(batch.is_empty());
}
