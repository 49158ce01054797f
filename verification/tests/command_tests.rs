use rehearsal_planner::command::{best_slots_report, parse_command, query_for, users_report, AppCommand, SlotFilter};
use rehearsal_planner::domain::{RankedSlot, SimpleDate, TimeSlot};

fn date(s: &str) -> SimpleDate {
    SimpleDate::try_from(s).unwrap()
}

#[test]
fn parse_command_rejects_best_zero() {
    assert!(parse_command("BEST 0").is_err());
}

#[test]
fn parse_command_rejects_reversed_between_dates() {
    assert!(parse_command("BEST 3 BETWEEN 2026-07-15 12:00 AND 2026-07-13 10:00").is_err());
}

#[test]
fn parse_command_reads_each_form() {
    assert!(matches!(parse_command("DONE"), Ok(AppCommand::Exit)));
    assert!(matches!(parse_command("  LIST  "), Ok(AppCommand::ListUsers)));
    match parse_command("BEST 3") {
        Ok(AppCommand::GetBestSlots { n: 3, filter: None }) => {}
        _ => panic!("expected BEST 3"),
    }
    match parse_command("BEST 2 AFTER 2026-07-13 10:00") {
        Ok(AppCommand::GetBestSlots { n: 2, filter: Some(SlotFilter::After(d)) }) => {
            assert_eq!(d, date("2026-07-13 10:00"))
        }
        _ => panic!("expected AFTER"),
    }
    match parse_command("BEST 2 BEFORE 2026-07-13 10:00") {
        Ok(AppCommand::GetBestSlots { n: 2, filter: Some(SlotFilter::Before(d)) }) => {
            assert_eq!(d, date("2026-07-13 10:00"))
        }
        _ => panic!("expected BEFORE"),
    }
    match parse_command("BEST 1 BETWEEN 2026-07-13 10:00 AND 2026-07-13 10:00") {
        Ok(AppCommand::GetBestSlots { n: 1, filter: Some(SlotFilter::Between(a, b)) }) => {
            assert_eq!(a, b)
        }
        _ => panic!("expected BETWEEN"),
    }
    match parse_command("alice 2026-07-13 10:00 2026-07-13\t12:00") {
        Ok(AppCommand::AddSlot { user, start, end }) => {
            assert_eq!(user, "alice");
            assert_eq!(start, date("2026-07-13 10:00"));
            assert_eq!(end, date("2026-07-13 12:00"));
        }
        _ => panic!("expected a slot"),
    }
}

#[test]
fn parse_command_error_messages() {
    assert_eq!(parse_command("   ").err().unwrap(), "No input provided");
    assert_eq!(parse_command("BEST").err().unwrap(), "Usage: BEST <n> [FILTER]");
    assert_eq!(parse_command("BEST x").err().unwrap(), "Invalid number for N");
    assert_eq!(parse_command("BEST 0").err().unwrap(), "N must be greater than 0");
    assert_eq!(
        parse_command("BEST 3 BETWEEN 2026-07-15 12:00 AND 2026-07-13 10:00").err().unwrap(),
        "BETWEEN start date must be before or equal to end date"
    );
    assert_eq!(
        parse_command("BEST 3 AFTER 2026-07-15").err().unwrap(),
        "Invalid filter. Use AFTER <date>, BEFORE <date>, or BETWEEN <d1> AND <d2>"
    );
    assert_eq!(
        parse_command("alice bob").err().unwrap(),
        "Invalid input. Use: <username> <start> <end>, LIST, BEST <n> [FILTER], or DONE"
    );
    assert_eq!(
        parse_command("alice 2026-07-13 10:00 2026-13-13 12:00").err().unwrap(),
        "Date values are out of valid range"
    );
    assert_eq!(
        parse_command("BEST 2 AFTER 2026-07-13 1:0").err().unwrap(),
        "Date must be in format YYYY-MM-DD HH:MM"
    );
}

#[test]
fn query_for_each_filter() {
    let a = date("2026-07-13 10:00");
    let b = date("2026-07-14 10:00");
    let q = query_for(4, None);
    assert_eq!((q.top_n, q.start_after, q.end_before), (Some(4), None, None));
    let q = query_for(4, Some(SlotFilter::After(a)));
    assert_eq!((q.top_n, q.start_after, q.end_before), (Some(4), Some(a), None));
    let q = query_for(4, Some(SlotFilter::Before(b)));
    assert_eq!((q.top_n, q.start_after, q.end_before), (Some(4), None, Some(b)));
    let q = query_for(4, Some(SlotFilter::Between(a, b)));
    assert_eq!((q.top_n, q.start_after, q.end_before), (Some(4), Some(a), Some(b)));
}

#[test]
fn best_slots_report_lines() {
    assert_eq!(
        best_slots_report(&[]),
        vec!["\nNo overlapping rehearsal slots found for these criteria.".to_string()]
    );
    let r = vec![
        RankedSlot {
            slot: TimeSlot::new(date("2026-07-13 11:00"), date("2026-07-13 12:00")).unwrap(),
            attendance: 12,
        },
        RankedSlot {
            slot: TimeSlot::new(date("2026-07-13 09:05"), date("2026-07-13 10:00")).unwrap(),
            attendance: 1,
        },
    ];
    assert_eq!(
        best_slots_report(&r),
        vec![
            "\nTop 2 best rehearsal slots:".to_string(),
            "1. 2026-07-13 11:00 to 2026-07-13 12:00 (Attendance: 12 users)".to_string(),
            "2. 2026-07-13 09:05 to 2026-07-13 10:00 (Attendance: 1 users)".to_string(),
            String::new(),
        ]
    );
}

#[test]
fn users_report_lines() {
    assert_eq!(users_report(&[]), "No users currently in the system.");
    assert_eq!(users_report(&["Alice".to_string()]), "Current users: Alice");
    assert_eq!(
        users_report(&["Alice".to_string(), "Bob".to_string(), "Carol".to_string()]),
        "Current users: Alice, Bob, Carol"
    );
}
