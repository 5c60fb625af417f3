use tolls::analytics::AnalyticsEngine;
use tolls::data_models::{CallRecord, ProcessedCallRecord};

fn record(
    direction: &str,
    remote: &str,
    start: &str,
    end: &str,
    seconds: u32,
    target: &str,
    source: &str,
) -> ProcessedCallRecord {
    let call = CallRecord {
        message_direction: direction.to_string(),
        remote_number: remote.to_string(),
        start_time: start.to_string(),
        end_time: end.to_string(),
        length_of_call: seconds,
    };
    ProcessedCallRecord::from_call_record(&call, target, source).expect("timestamps parse")
}

#[test]
fn empty_set_yields_zeroes_and_absences() {
    let a = AnalyticsEngine::generate_analytics(&Vec::new());
    assert_eq!(a.total_calls, 0);
    assert_eq!(a.incoming_calls, 0);
    assert_eq!(a.outgoing_calls, 0);
    assert_eq!(a.total_duration_seconds, 0);
    assert_eq!(a.average_call_duration_centiseconds, 0);
    assert_eq!(a.unique_numbers, 0);
    assert!(a.most_frequent_numbers.is_empty());
    assert!(a.longest_call.is_none());
    assert!(a.shortest_call.is_none());
    assert!(a.date_range.is_none());
    assert!(a.common_contacts.is_empty());
    assert_eq!(a.calls_by_hour.len(), 24);
}

#[test]
fn direction_split_and_average() {
    let records = vec![
        record("Incoming", "111", "2023-01-15T10:30:00Z", "2023-01-15T10:35:00Z", 300, "A", "f1"),
        record("INCOMING", "222", "2023-01-15T11:00:00Z", "2023-01-15T11:01:00Z", 60, "A", "f1"),
        record("missed", "111", "2023-01-16T09:00:00Z", "2023-01-16T09:00:00Z", 0, "A", "f1"),
    ];
    let a = AnalyticsEngine::generate_analytics(&records);
    assert_eq!(a.total_calls, 3);
    assert_eq!(a.incoming_calls, 2);
    assert_eq!(a.outgoing_calls, 1);
    assert_eq!(a.incoming_calls + a.outgoing_calls, a.total_calls);
    assert_eq!(a.total_duration_seconds, 360);
    // floor(360 * 100 / 3) centiseconds.
    assert_eq!(a.average_call_duration_centiseconds, 12000);
    assert_eq!(a.unique_numbers, 2);
}

#[test]
fn longest_first_on_ties_and_shortest_skips_zero() {
    let records = vec![
        record("in", "1", "2023-01-15T10:00:00Z", "2023-01-15T10:01:00Z", 60, "A", "f"),
        record("in", "2", "2023-01-15T11:00:00Z", "2023-01-15T11:01:00Z", 60, "A", "f"),
        record("in", "3", "2023-01-15T12:00:00Z", "2023-01-15T12:00:00Z", 0, "A", "f"),
        record("in", "4", "2023-01-15T13:00:00Z", "2023-01-15T13:00:05Z", 5, "A", "f"),
    ];
    let a = AnalyticsEngine::generate_analytics(&records);
    let longest = a.longest_call.expect("present");
    assert_eq!(longest.remote_number, "1");
    let shortest = a.shortest_call.expect("present");
    assert_eq!(shortest.remote_number, "4");
    assert_eq!(shortest.length_of_call, 5);
}

#[test]
fn shortest_absent_when_all_zero() {
    let records = vec![
        record("in", "1", "2023-01-15T10:00:00Z", "2023-01-15T10:00:00Z", 0, "A", "f"),
        record("out", "2", "2023-01-15T11:00:00Z", "2023-01-15T11:00:00Z", 0, "A", "f"),
    ];
    let a = AnalyticsEngine::generate_analytics(&records);
    assert!(a.shortest_call.is_none());
    assert!(a.longest_call.is_some());
}

#[test]
fn frequency_ranking_caps_at_ten() {
    let mut records = Vec::new();
    for i in 0..12u32 {
        records.push(record(
            "in",
            &format!("55500000{:02}", i),
            "2023-01-15T10:00:00Z",
            "2023-01-15T10:01:00Z",
            60,
            "A",
            "f",
        ));
    }
    // One number three more times: it must rank first.
    for _ in 0..3 {
        records.push(record(
            "in",
            "5550000007",
            "2023-01-15T12:00:00Z",
            "2023-01-15T12:01:00Z",
            60,
            "A",
            "f",
        ));
    }
    let a = AnalyticsEngine::generate_analytics(&records);
    assert_eq!(a.unique_numbers, 12);
    assert_eq!(a.most_frequent_numbers.len(), 10);
    assert_eq!(a.most_frequent_numbers[0].0, "5550000007");
    assert_eq!(a.most_frequent_numbers[0].1, 4);
    for w in a.most_frequent_numbers.windows(2) {
        assert!(w[0].1 >= w[1].1);
    }
}

#[test]
fn histograms_by_day_and_hour() {
    let records = vec![
        record("in", "1", "2023-01-15T10:30:00Z", "2023-01-15T10:31:00Z", 60, "A", "f"),
        record("in", "2", "2023-01-15T10:59:00Z", "2023-01-15T11:00:00Z", 60, "A", "f"),
        record("in", "3", "2023-01-16T23:45:00Z", "2023-01-16T23:46:00Z", 60, "A", "f"),
    ];
    let a = AnalyticsEngine::generate_analytics(&records);
    assert_eq!(a.calls_by_day.len(), 2);
    assert_eq!(a.calls_by_day[0], ("2023-01-15".to_string(), 2));
    assert_eq!(a.calls_by_day[1], ("2023-01-16".to_string(), 1));
    assert_eq!(a.calls_by_hour.len(), 24);
    assert_eq!(a.calls_by_hour[10], 2);
    assert_eq!(a.calls_by_hour[23], 1);
    assert_eq!(a.calls_by_hour[0], 0);
}

#[test]
fn date_range_spans_min_and_max() {
    let records = vec![
        record("in", "1", "2023-01-16T23:45:00Z", "2023-01-16T23:46:00Z", 60, "A", "f"),
        record("in", "2", "2023-01-15T10:30:00Z", "2023-01-15T10:31:00Z", 60, "A", "f"),
        record("in", "3", "2023-01-15T18:00:00Z", "2023-01-15T18:01:00Z", 60, "A", "f"),
    ];
    let a = AnalyticsEngine::generate_analytics(&records);
    let (lo, hi) = a.date_range.expect("present");
    assert_eq!(lo.day, 15);
    assert_eq!(lo.hour, 10);
    assert_eq!(hi.day, 16);
    assert_eq!(hi.hour, 23);
}

#[test]
fn common_contact_across_two_targets() {
    let records = vec![
        record("in", "5551234567", "2023-01-15T10:00:00Z", "2023-01-15T10:01:00Z", 60, "A", "fa"),
        record("in", "5551234567", "2023-01-15T11:00:00Z", "2023-01-15T11:01:00Z", 60, "B", "fb"),
        record("in", "5559999999", "2023-01-15T12:00:00Z", "2023-01-15T12:01:00Z", 60, "C", "fc"),
    ];
    let a = AnalyticsEngine::generate_analytics(&records);
    assert_eq!(a.common_contacts.len(), 1);
    let c = &a.common_contacts[0];
    assert_eq!(c.number, "5551234567");
    assert_eq!(c.target_numbers, vec!["A".to_string(), "B".to_string()]);
    assert_eq!(c.count, 2);
}

#[test]
fn single_target_yields_no_common_contacts() {
    let records = vec![
        record("in", "5551234567", "2023-01-15T10:00:00Z", "2023-01-15T10:01:00Z", 60, "A", "f"),
        record("in", "5551234567", "2023-01-15T11:00:00Z", "2023-01-15T11:01:00Z", 60, "A", "f"),
        record("out", "5559999999", "2023-01-15T12:00:00Z", "2023-01-15T12:01:00Z", 60, "A", "f"),
    ];
    let a = AnalyticsEngine::generate_analytics(&records);
    assert!(a.common_contacts.is_empty());
}

#[test]
fn contacts_sorted_by_count_then_number() {
    let mut records = Vec::new();
    // 5550000002 appears under three targets, 5550000001 and 5550000003
    // under two each: the three-target number first, then ties by number.
    for (num, targets) in [
        ("5550000003", vec!["A", "B"]),
        ("5550000002", vec!["A", "B", "C"]),
        ("5550000001", vec!["B", "C"]),
    ] {
        for t in targets {
            records.push(record(
                "in",
                num,
                "2023-01-15T10:00:00Z",
                "2023-01-15T10:01:00Z",
                60,
                t,
                "f",
            ));
        }
    }
    let a = AnalyticsEngine::generate_analytics(&records);
    let numbers: Vec<&str> = a.common_contacts.iter().map(|c| c.number.as_str()).collect();
    assert_eq!(numbers, vec!["5550000002", "5550000001", "5550000003"]);
    assert_eq!(a.common_contacts[0].count, 3);
}

#[test]
fn targets_and_files_deduplicated_in_order() {
    let records = vec![
        record("in", "1", "2023-01-15T10:00:00Z", "2023-01-15T10:01:00Z", 60, "B", "f2"),
        record("in", "2", "2023-01-15T11:00:00Z", "2023-01-15T11:01:00Z", 60, "A", "f1"),
        record("in", "3", "2023-01-15T12:00:00Z", "2023-01-15T12:01:00Z", 60, "B", "f2"),
        record("in", "4", "2023-01-15T13:00:00Z", "2023-01-15T13:01:00Z", 60, "", "f1"),
    ];
    let a = AnalyticsEngine::generate_analytics(&records);
    assert_eq!(a.target_numbers, vec!["B".to_string(), "A".to_string()]);
    assert_eq!(a.files_processed, vec!["f2".to_string(), "f1".to_string()]);
}

#[test]
fn report_carries_the_computed_numbers() {
    let records = vec![
        record("Incoming", "5551234567", "2023-01-15T10:30:00Z", "2023-01-15T10:35:00Z", 300, "A", "fa"),
        record("outgoing", "5551234567", "2023-01-16T23:45:00Z", "2023-01-16T23:46:00Z", 60, "B", "fb"),
    ];
    let a = AnalyticsEngine::generate_analytics(&records);
    let report = AnalyticsEngine::generate_summary_report(&a, &records);
    assert!(report.starts_with("=== TELECOMMUNICATION DATA ANALYSIS ===\n\n"));
    assert!(report.contains("Total Calls: 2\n"));
    assert!(report.contains("Incoming Calls: 1\n"));
    assert!(report.contains("Outgoing Calls: 1\n"));
    assert!(report.contains("Unique Phone Numbers: 1\n"));
    assert!(report.contains("Total Duration: 6.00 minutes\n"));
    assert!(report.contains("Average Call Duration: 3.00 minutes\n"));
    assert!(report.contains("Longest Call: 300 seconds (5.00 minutes) to 5551234567 on 2023-01-15\n"));
    assert!(report.contains("Shortest Call: 60 seconds to 5551234567 on 2023-01-16\n"));
    assert!(report.contains("Date Range: 2023-01-15 to 2023-01-16\n"));
    assert!(report.contains("1. 5551234567 (2 calls)\n"));
    assert!(report.contains("- A: 1 calls\n"));
    assert!(report.contains("- B: 1 calls\n"));
    assert!(report.contains("- 5551234567: appears in 2 target numbers (A, B)\n"));
    assert!(report.contains("2023-01-15: 1 calls\n"));
    assert!(report.contains("10:00: 1 calls\n"));
    assert!(report.contains("23:00: 1 calls\n"));
    assert!(report.contains("=== CALLS BY DAY ==="));
    assert!(report.contains("=== CALLS BY HOUR ==="));
}

#[test]
fn report_for_empty_set_has_no_extreme_lines() {
    let a = AnalyticsEngine::generate_analytics(&Vec::new());
    let report = AnalyticsEngine::generate_summary_report(&a, &Vec::new());
    assert!(report.contains("Total Calls: 0\n"));
    assert!(!report.contains("Longest Call"));
    assert!(!report.contains("Shortest Call"));
    assert!(!report.contains("Date Range"));
}
