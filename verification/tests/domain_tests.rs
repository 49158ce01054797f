use rehearsal_planner::domain::{
    find_best_availabilities, validate_user_id, SimpleDate, SlotQuery, TimeSlot,
};

fn date(s: &str) -> SimpleDate {
    SimpleDate::try_from(s).unwrap()
}

#[test]
fn test_requirement_1_attendance_count() {
    let slots1 = vec![TimeSlot::new(date("2026-07-13 10:00"), date("2026-07-13 12:00")).unwrap()];
    let slots2 = vec![TimeSlot::new(date("2026-07-13 11:00"), date("2026-07-13 13:00")).unwrap()];
    let results = find_best_availabilities(vec![slots1.as_slice(), slots2.as_slice()]);

    assert_eq!(results[0].attendance, 2);
    assert_eq!(results[0].slot.start, date("2026-07-13 11:00"));
    assert_eq!(results[0].slot.end, date("2026-07-13 12:00"));
}

#[test]
fn test_requirement_2_ranking_attendance() {
    let slots1 = vec![TimeSlot::new(date("2026-07-13 10:00"), date("2026-07-13 11:00")).unwrap()];
    let slots2 = vec![TimeSlot::new(date("2026-07-13 10:00"), date("2026-07-13 11:00")).unwrap()];
    let slots3 = vec![TimeSlot::new(date("2026-07-13 12:00"), date("2026-07-13 13:00")).unwrap()];
    let results = find_best_availabilities(vec![slots1.as_slice(), slots2.as_slice(), slots3.as_slice()]);
    assert_eq!(results[0].attendance, 2);
    assert_eq!(results[1].attendance, 1);
}

#[test]
fn test_requirement_3_ranking_time() {
    let slots1 = vec![TimeSlot::new(date("2026-07-13 10:00"), date("2026-07-13 11:00")).unwrap()];
    let slots2 = vec![TimeSlot::new(date("2026-07-13 12:00"), date("2026-07-13 13:00")).unwrap()];
    let results = find_best_availabilities(vec![slots1.as_slice(), slots2.as_slice()]);
    assert_eq!(results[0].slot.start, date("2026-07-13 10:00"));
    assert_eq!(results[1].slot.start, date("2026-07-13 12:00"));
}

#[test]
fn test_requirement_4_top_n() {
    let slots1 = vec![
        TimeSlot::new(date("2026-07-13 10:00"), date("2026-07-13 11:00")).unwrap(),
        TimeSlot::new(date("2026-07-13 12:00"), date("2026-07-13 13:00")).unwrap(),
        TimeSlot::new(date("2026-07-13 14:00"), date("2026-07-13 15:00")).unwrap(),
    ];
    let results = find_best_availabilities(vec![slots1.as_slice()]);
    assert_eq!(results.len(), 3);
}

#[test]
fn test_date_filtering() {
    let slots1 = vec![
        TimeSlot::new(date("2026-07-13 10:00"), date("2026-07-13 12:00")).unwrap(),
        TimeSlot::new(date("2026-07-15 10:00"), date("2026-07-15 12:00")).unwrap(),
    ];

    let results = find_best_availabilities(vec![slots1.as_slice()]);
    assert_eq!(results.len(), 2);
}

#[test]
fn test_validate_user_id_rejects_reserved_and_pipe() {
    assert!(validate_user_id("Alice").is_ok());
    assert_eq!(
        validate_user_id("BEST"),
        Err("Username cannot be a reserved command (DONE, LIST, BEST)")
    );
    assert_eq!(
        validate_user_id("ali|ce"),
        Err("Username cannot contain '|'")
    );
}

#[test]
fn validate_user_id_rejects_empty_and_other_commands() {
    assert_eq!(validate_user_id(""), Err("Username cannot be empty"));
    assert_eq!(
        validate_user_id("DONE"),
        Err("Username cannot be a reserved command (DONE, LIST, BEST)")
    );
    assert_eq!(
        validate_user_id("LIST"),
        Err("Username cannot be a reserved command (DONE, LIST, BEST)")
    );
    assert!(validate_user_id("best").is_ok());
    assert!(validate_user_id("BESTS").is_ok());
    assert_eq!(validate_user_id("|"), Err("Username cannot contain '|'"));
}

#[test]
fn date_parsing_errors() {
    assert_eq!(
        SimpleDate::from_str("2026-07-13 10:0"),
        Err("Date must be in format YYYY-MM-DD HH:MM")
    );
    assert_eq!(
        SimpleDate::from_str("2026-07-13T10:00"),
        Err("Invalid date format. Use YYYY-MM-DD HH:MM")
    );
    assert_eq!(
        SimpleDate::from_str("2026-07-1x 10:00"),
        Err("Date contains non-digit characters")
    );
    assert_eq!(
        SimpleDate::from_str("99999-7-13 10:00"),
        Err("Year is out of valid range")
    );
    assert_eq!(
        SimpleDate::from_str("2026-13-13 10:00"),
        Err("Date values are out of valid range")
    );
    assert_eq!(
        SimpleDate::from_str("2026-07-13 24:00"),
        Err("Date values are out of valid range")
    );
    assert_eq!(
        SimpleDate::from_str("2026-07-00 10:00"),
        Err("Date values are out of valid range")
    );
    // Sixteen bytes, but not sixteen characters.
    assert_eq!(
        SimpleDate::from_str("2026-07-13 10:é"),
        Err("Date contains non-digit characters")
    );
}

#[test]
fn date_parsing_accepts_what_str_parse_accepts() {
    // Fields need not have their usual width, and a `+` sign is allowed.
    let d = SimpleDate::from_str("2026-7-13 10:000").unwrap();
    assert_eq!(d.to_string(), "2026-07-13 10:00");
    let d = SimpleDate::from_str("+026-07-13 10:00").unwrap();
    assert_eq!(d.to_string(), "0026-07-13 10:00");
}

#[test]
fn date_text_round_trip() {
    for text in ["2026-07-13 10:00", "0001-01-01 00:00", "9999-12-31 23:59"] {
        let d = date(text);
        assert_eq!(d.to_string(), text);
        assert_eq!(SimpleDate::from_str(&d.to_string()), Ok(d));
    }
}

#[test]
fn date_order() {
    assert!(date("2026-07-13 10:00").is_before(&date("2026-07-13 10:01")));
    assert!(date("2025-12-31 23:59").is_before(&date("2026-01-01 00:00")));
    assert!(!date("2026-07-13 10:00").is_before(&date("2026-07-13 10:00")));
    assert!(!date("2026-08-01 00:00").is_before(&date("2026-07-31 23:59")));
}

#[test]
fn time_slot_requires_start_before_end() {
    let a = date("2026-07-13 10:00");
    let b = date("2026-07-13 12:00");
    assert!(TimeSlot::new(a, b).is_ok());
    assert_eq!(TimeSlot::new(b, a), Err("Start date must be before end date"));
    assert_eq!(TimeSlot::new(a, a), Err("Start date must be before end date"));
}

#[test]
fn ranking_splits_overlaps_into_windows() {
    let alice = vec![TimeSlot::new(date("2026-07-13 10:00"), date("2026-07-13 14:00")).unwrap()];
    let bob = vec![TimeSlot::new(date("2026-07-13 11:00"), date("2026-07-13 12:00")).unwrap()];
    let carol = vec![TimeSlot::new(date("2026-07-13 11:30"), date("2026-07-13 13:00")).unwrap()];
    let r = find_best_availabilities(vec![alice.as_slice(), bob.as_slice(), carol.as_slice()]);
    let got: Vec<(String, String, usize)> = r
        .iter()
        .map(|x| (x.slot.start.to_string(), x.slot.end.to_string(), x.attendance))
        .collect();
    assert_eq!(
        got,
        vec![
            ("2026-07-13 11:30".to_string(), "2026-07-13 12:00".to_string(), 3),
            ("2026-07-13 11:00".to_string(), "2026-07-13 11:30".to_string(), 2),
            ("2026-07-13 12:00".to_string(), "2026-07-13 13:00".to_string(), 2),
            ("2026-07-13 10:00".to_string(), "2026-07-13 11:00".to_string(), 1),
            ("2026-07-13 13:00".to_string(), "2026-07-13 14:00".to_string(), 1),
        ]
    );
}

#[test]
fn ranking_of_nothing_is_empty() {
    assert!(find_best_availabilities(vec![]).is_empty());
    let none: Vec<TimeSlot> = vec![];
    assert!(find_best_availabilities(vec![none.as_slice()]).is_empty());
}

#[test]
fn ranking_skips_gaps() {
    let alice = vec![
        TimeSlot::new(date("2026-07-13 10:00"), date("2026-07-13 11:00")).unwrap(),
        TimeSlot::new(date("2026-07-13 12:00"), date("2026-07-13 13:00")).unwrap(),
    ];
    let r = find_best_availabilities(vec![alice.as_slice()]);
    assert_eq!(r.len(), 2);
    assert!(r.iter().all(|x| x.slot.start != date("2026-07-13 11:00")));
}

#[test]
fn slot_query_builders() {
    let q = SlotQuery::new();
    assert!(q.top_n.is_none() && q.start_after.is_none() && q.end_before.is_none());
    let q = SlotQuery::new()
        .with_top_n(3)
        .with_start_after(date("2026-07-13 10:00"))
        .with_end_before(date("2026-07-14 10:00"));
    assert_eq!(q.top_n, Some(3));
    assert_eq!(q.start_after, Some(date("2026-07-13 10:00")));
    assert_eq!(q.end_before, Some(date("2026-07-14 10:00")));
    let d = SlotQuery::default();
    assert!(d.top_n.is_none());
}

#[test]
fn ranking_ignores_order_of_users_and_slots() {
    let alice = vec![
        TimeSlot::new(date("2026-07-13 10:00"), date("2026-07-13 14:00")).unwrap(),
        TimeSlot::new(date("2026-07-14 09:00"), date("2026-07-14 10:00")).unwrap(),
    ];
    let alice_reordered = vec![alice[1], alice[0]];
    let bob = vec![TimeSlot::new(date("2026-07-13 11:00"), date("2026-07-13 12:00")).unwrap()];
    let carol = vec![TimeSlot::new(date("2026-07-13 11:30"), date("2026-07-14 09:30")).unwrap()];
    let a = find_best_availabilities(vec![alice.as_slice(), bob.as_slice(), carol.as_slice()]);
    let b = find_best_availabilities(vec![carol.as_slice(), alice_reordered.as_slice(), bob.as_slice()]);
    assert_eq!(a, b);
}

#[test]
fn date_order_follows_text_order() {
    let texts = [
        "2025-12-31 23:59",
        "2026-01-01 00:00",
        "2026-07-13 09:05",
        "2026-07-13 10:00",
        "2026-10-01 00:00",
    ];
    for a in texts {
        for b in texts {
            assert_eq!(date(a).cmp(&date(b)), a.cmp(b));
            assert_eq!(date(a).is_before(&date(b)), a < b);
        }
        assert_eq!(date(a).to_string(), a);
    }
    assert_eq!(SimpleDate::from_str("2026-07-13 09:05").unwrap().to_string(), "2026-07-13 09:05");
}
