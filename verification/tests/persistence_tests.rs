use rehearsal_planner::domain::{SimpleDate, TimeSlot, UserAvailability};
use rehearsal_planner::persistence::{
    add_slot_for_user, format_record, parse_availabilities, parse_record, serialize_availabilities,
};

fn date(s: &str) -> SimpleDate {
    SimpleDate::try_from(s).unwrap()
}

fn slot(a: &str, b: &str) -> TimeSlot {
    TimeSlot::new(date(a), date(b)).unwrap()
}

#[test]
fn test_requirement_5_save_load_cycle() {
    let original_data = vec![
        UserAvailability {
            user_id: "Alice".to_string(),
            free_slots: vec![
                slot("2026-07-13 10:00", "2026-07-13 12:00"),
                slot("2026-07-13 18:00", "2026-07-13 20:00"),
            ],
        },
        UserAvailability {
            user_id: "Bob".to_string(),
            free_slots: vec![slot("2026-07-13 11:00", "2026-07-13 13:00")],
        },
    ];

    let text = serialize_availabilities(&original_data);
    let loaded_data = parse_availabilities(&text);

    assert_eq!(loaded_data.len(), 2);
    let alice = loaded_data.iter().find(|u| u.user_id == "Alice").expect("Alice not found");
    let bob = loaded_data.iter().find(|u| u.user_id == "Bob").expect("Bob not found");
    assert_eq!(alice.free_slots.len(), 2);
    assert_eq!(bob.free_slots.len(), 1);
    assert_eq!(alice.free_slots, original_data[0].free_slots);
    assert_eq!(bob.free_slots, original_data[1].free_slots);
}

#[test]
fn empty_store_text_loads_nothing() {
    assert!(parse_availabilities("").is_empty());
}

#[test]
fn test_requirement_7_malformed_data() {
    let text = "Alice|2026-07-13 10:00|2026-07-13 12:00\n\
                Bob|2026-07-13 10:00\n\
                Charlie|not-a-date|2026-07-13 12:00\n\
                Alice|2026-07-13 18:00|2026-07-13 20:00\n";
    let loaded = parse_availabilities(text);
    assert_eq!(loaded.len(), 1);
    let alice = loaded.iter().find(|u| u.user_id == "Alice").unwrap();
    assert_eq!(alice.free_slots.len(), 2);
}

#[test]
fn saved_slots_read_back() {
    let mut users: Vec<UserAvailability> = Vec::new();
    add_slot_for_user(&mut users, "Alice", slot("2026-07-13 10:00", "2026-07-13 12:00"));
    add_slot_for_user(&mut users, "Bob", slot("2026-07-14 10:00", "2026-07-14 12:00"));
    let loaded = parse_availabilities(&serialize_availabilities(&users));
    assert_eq!(loaded.len(), 2);
    let mut users = loaded;
    add_slot_for_user(&mut users, "Alice", slot("2026-07-15 10:00", "2026-07-15 12:00"));
    let loaded = parse_availabilities(&serialize_availabilities(&users));
    let alice = loaded.iter().find(|u| u.user_id == "Alice").unwrap();
    assert_eq!(alice.free_slots.len(), 2);
}

#[test]
fn records_are_written_and_read() {
    let s = slot("2026-07-13 10:00", "2026-07-13 12:00");
    let line = format_record("Alice", &s);
    assert_eq!(line, "Alice|2026-07-13 10:00|2026-07-13 12:00");
    let chars: Vec<char> = line.chars().collect();
    assert_eq!(parse_record(&chars), Some(("Alice".to_string(), s)));
    let reversed: Vec<char> = "Alice|2026-07-13 12:00|2026-07-13 10:00".chars().collect();
    assert_eq!(parse_record(&reversed), None);
    let extra: Vec<char> = "Alice|2026-07-13 10:00|2026-07-13 12:00|x".chars().collect();
    assert_eq!(parse_record(&extra), None);
}

#[test]
fn store_text_handles_crlf_and_blank_lines() {
    let text = "Alice|2026-07-13 10:00|2026-07-13 12:00\r\n\r\n   \nBob|2026-07-13 11:00|2026-07-13 13:00";
    let loaded = parse_availabilities(text);
    assert_eq!(loaded.len(), 2);
    assert_eq!(loaded[0].user_id, "Alice");
    assert_eq!(loaded[1].user_id, "Bob");
    // A `\r` that no `\n` follows stays, and spoils the date.
    let loaded = parse_availabilities("Alice|2026-07-13 10:00|2026-07-13 12:00\r");
    assert!(loaded.is_empty());
}

#[test]
fn serialized_text_is_one_line_per_slot() {
    let users = vec![UserAvailability {
        user_id: "Alice".to_string(),
        free_slots: vec![
            slot("2026-07-13 10:00", "2026-07-13 12:00"),
            slot("2026-07-14 10:00", "2026-07-14 12:00"),
        ],
    }];
    assert_eq!(
        serialize_availabilities(&users),
        "Alice|2026-07-13 10:00|2026-07-13 12:00\nAlice|2026-07-14 10:00|2026-07-14 12:00\n"
    );
}
