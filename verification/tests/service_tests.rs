use rehearsal_planner::domain::{SimpleDate, SlotQuery, TimeSlot, UserAvailability, RankedSlot};
use rehearsal_planner::persistence::{add_slot_for_user, AvailabilityRepository};
use rehearsal_planner::service::{apply_slot_query, sorted_user_ids, RehearsalService, ServiceError};
use std::cell::RefCell;
use std::io;

fn date(s: &str) -> SimpleDate {
    SimpleDate::try_from(s).unwrap()
}

struct MockRepository {
    data: RefCell<Vec<UserAvailability>>,
}

impl MockRepository {
    fn with_users(users: Vec<UserAvailability>) -> Self {
        Self {
            data: RefCell::new(users),
        }
    }
}

impl AvailabilityRepository for MockRepository {
    fn load_all(&self) -> io::Result<Vec<UserAvailability>> {
        Ok(self.data.borrow().clone())
    }

    fn save_all(&self, availabilities: &[UserAvailability]) -> io::Result<()> {
        *self.data.borrow_mut() = availabilities.to_vec();
        Ok(())
    }

    fn save_slot(&self, user_id: &str, slot: TimeSlot) -> io::Result<()> {
        let mut availabilities = self.load_all()?;
        add_slot_for_user(&mut availabilities, user_id, slot);
        self.save_all(&availabilities)
    }
}

struct FailingRepository;

impl AvailabilityRepository for FailingRepository {
    fn load_all(&self) -> io::Result<Vec<UserAvailability>> {
        Err(io::Error::new(io::ErrorKind::Other, "unavailable"))
    }

    fn save_all(&self, _availabilities: &[UserAvailability]) -> io::Result<()> {
        Err(io::Error::new(io::ErrorKind::Other, "unavailable"))
    }

    fn save_slot(&self, _user_id: &str, _slot: TimeSlot) -> io::Result<()> {
        Err(io::Error::new(io::ErrorKind::Other, "unavailable"))
    }
}

fn sample_users() -> Vec<UserAvailability> {
    vec![
        UserAvailability {
            user_id: "Alice".to_string(),
            free_slots: vec![
                TimeSlot::new(date("2026-07-13 10:00"), date("2026-07-13 12:00")).unwrap(),
                TimeSlot::new(date("2026-07-15 10:00"), date("2026-07-15 12:00")).unwrap(),
            ],
        },
        UserAvailability {
            user_id: "Bob".to_string(),
            free_slots: vec![
                TimeSlot::new(date("2026-07-13 11:00"), date("2026-07-13 13:00")).unwrap(),
            ],
        },
    ]
}

#[test]
fn test_requirement_4_top_n_limits_results() {
    let service = RehearsalService::new(MockRepository::with_users(sample_users()));
    let query = SlotQuery::new().with_top_n(1);
    let results = service.get_best_slots(query).expect("query failed");

    assert_eq!(results.len(), 1);
    assert_eq!(results[0].attendance, 2);
}

#[test]
fn test_filter_after_date() {
    let service = RehearsalService::new(MockRepository::with_users(sample_users()));
    let query = SlotQuery::new()
        .with_top_n(10)
        .with_start_after(date("2026-07-15 00:00"));
    let results = service.get_best_slots(query).expect("query failed");

    assert_eq!(results.len(), 1);
    assert_eq!(results[0].slot.start, date("2026-07-15 10:00"));
}

#[test]
fn test_filter_before_date() {
    let service = RehearsalService::new(MockRepository::with_users(sample_users()));
    let query = SlotQuery::new()
        .with_top_n(10)
        .with_end_before(date("2026-07-13 12:00"));
    let results = service.get_best_slots(query).expect("query failed");

    assert!(!results.is_empty());
    assert!(results.iter().all(|r| r.slot.end <= date("2026-07-13 12:00")));
}

#[test]
fn test_filter_between_dates() {
    let service = RehearsalService::new(MockRepository::with_users(sample_users()));
    let query = SlotQuery::new()
        .with_top_n(10)
        .with_start_after(date("2026-07-13 11:00"))
        .with_end_before(date("2026-07-13 12:00"));
    let results = service.get_best_slots(query).expect("query failed");

    assert_eq!(results.len(), 1);
    assert_eq!(results[0].slot.start, date("2026-07-13 11:00"));
    assert_eq!(results[0].slot.end, date("2026-07-13 12:00"));
}

#[test]
fn test_add_slot_rejects_invalid_username() {
    let mut service = RehearsalService::new(MockRepository::with_users(vec![]));
    let start = date("2026-07-13 10:00");
    let end = date("2026-07-13 12:00");

    let err = service
        .add_slot("BEST".to_string(), start, end)
        .expect_err("expected validation error");
    assert!(matches!(err, ServiceError::Validation(_)));
}

#[test]
fn add_slot_rejects_reversed_slot_and_keeps_valid_one() {
    let mut service = RehearsalService::new(MockRepository::with_users(vec![]));
    let a = date("2026-07-13 10:00");
    let b = date("2026-07-13 12:00");
    match service.add_slot("Alice".to_string(), b, a) {
        Err(ServiceError::Validation(m)) => assert_eq!(m, "Start date must be before end date"),
        _ => panic!("expected a validation error"),
    }
    assert!(service.get_all_users().unwrap().is_empty());
    service.add_slot("Alice".to_string(), a, b).unwrap();
    service.add_slot("Bob".to_string(), a, b).unwrap();
    service.add_slot("Alice".to_string(), date("2026-07-14 10:00"), date("2026-07-14 12:00")).unwrap();
    assert_eq!(service.get_all_users().unwrap(), vec!["Alice".to_string(), "Bob".to_string()]);
    let best = service.get_best_slots(SlotQuery::new()).unwrap();
    assert_eq!(best[0].attendance, 2);
    assert_eq!(best.len(), 2);
}

#[test]
fn store_failures_are_reported() {
    let mut service = RehearsalService::new(FailingRepository);
    assert!(matches!(service.get_best_slots(SlotQuery::new()), Err(ServiceError::Io(_))));
    assert!(matches!(service.get_all_users(), Err(ServiceError::Io(_))));
    let a = date("2026-07-13 10:00");
    let b = date("2026-07-13 12:00");
    assert!(matches!(service.add_slot("Alice".to_string(), a, b), Err(ServiceError::Io(_))));
    assert!(matches!(service.add_slot("".to_string(), a, b), Err(ServiceError::Validation("Username cannot be empty"))));
}

#[test]
fn user_ids_are_sorted() {
    let users: Vec<UserAvailability> = ["carol", "Bob", "alice", "Bob", "Álvaro"]
        .iter()
        .map(|n| UserAvailability { user_id: n.to_string(), free_slots: vec![] })
        .collect();
    let sorted = sorted_user_ids(&users);
    let mut expected: Vec<String> = users.iter().map(|u| u.user_id.clone()).collect();
    expected.sort();
    assert_eq!(sorted, expected);
}

#[test]
fn query_keeps_order_and_limit() {
    let slot = |a: &str, b: &str, n: usize| RankedSlot {
        slot: TimeSlot::new(date(a), date(b)).unwrap(),
        attendance: n,
    };
    let ranked = vec![
        slot("2026-07-13 11:00", "2026-07-13 12:00", 3),
        slot("2026-07-14 09:00", "2026-07-14 10:00", 2),
        slot("2026-07-12 09:00", "2026-07-12 10:00", 2),
        slot("2026-07-15 09:00", "2026-07-15 10:00", 1),
    ];
    let q = SlotQuery::new().with_start_after(date("2026-07-13 00:00")).with_top_n(2);
    let r = apply_slot_query(ranked.clone(), &q);
    assert_eq!(r, vec![ranked[0].clone(), ranked[1].clone()]);
    let q = SlotQuery::new().with_end_before(date("2026-07-14 10:00"));
    let r = apply_slot_query(ranked.clone(), &q);
    assert_eq!(r, vec![ranked[0].clone(), ranked[1].clone(), ranked[2].clone()]);
    let q = SlotQuery::new().with_top_n(0);
    assert!(apply_slot_query(ranked.clone(), &q).is_empty());
    assert_eq!(apply_slot_query(ranked.clone(), &SlotQuery::new()), ranked);
}

#[test]
fn service_error_messages() {
    assert_eq!(
        ServiceError::Validation("Username cannot be empty").message(),
        "Username cannot be empty"
    );
    let e = ServiceError::Io(io::Error::new(io::ErrorKind::Other, "disk full"));
    assert_eq!(e.message(), "Storage error: disk full");
}
