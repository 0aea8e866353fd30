use ii_delegation::origins::{
    update_latest_delegation_origins, LatestDelegationOrigins, DAY_NS, ORIGIN_TTL_NS,
};

fn record(origins: &mut LatestDelegationOrigins, capacity: u64, origin: &str, now: u64) {
    update_latest_delegation_origins(origins, capacity, origin.to_string(), now);
}

fn names(origins: &LatestDelegationOrigins) -> Vec<(String, u64)> {
    origins.entries()
}

#[test]
fn a_new_registry_is_empty() {
    let origins = LatestDelegationOrigins::new();
    assert_eq!(origins.len(), 0);
    assert_eq!(origins.timestamp_of(&"https://a.com".to_string()), None);
    assert_eq!(names(&origins), Vec::<(String, u64)>::new());
}

#[test]
fn the_ttl_is_thirty_days() {
    assert_eq!(DAY_NS, 24 * 60 * 60 * 1_000_000_000);
    assert_eq!(ORIGIN_TTL_NS, 2_592_000_000_000_000);
}

#[test]
fn recording_adds_an_origin_with_its_timestamp() {
    let mut origins = LatestDelegationOrigins::new();
    record(&mut origins, 10, "https://a.com", 100);
    record(&mut origins, 10, "https://b.com", 200);
    assert_eq!(origins.len(), 2);
    assert_eq!(origins.timestamp_of(&"https://a.com".to_string()), Some(100));
    assert_eq!(origins.timestamp_of(&"https://b.com".to_string()), Some(200));
    assert_eq!(origins.timestamp_of(&"https://c.com".to_string()), None);
    assert_eq!(
        names(&origins),
        vec![("https://a.com".to_string(), 100), ("https://b.com".to_string(), 200)]
    );
}

#[test]
fn recording_a_tracked_origin_updates_its_timestamp() {
    let mut origins = LatestDelegationOrigins::new();
    record(&mut origins, 10, "https://a.com", 100);
    record(&mut origins, 10, "https://b.com", 200);
    record(&mut origins, 10, "https://a.com", 300);
    assert_eq!(origins.len(), 2);
    assert_eq!(
        names(&origins),
        vec![("https://a.com".to_string(), 300), ("https://b.com".to_string(), 200)]
    );
}

#[test]
fn with_capacity_two_the_two_most_recent_of_three_origins_stay() {
    let mut origins = LatestDelegationOrigins::new();
    record(&mut origins, 2, "https://first.com", 1_000);
    record(&mut origins, 2, "https://second.com", 2_000);
    record(&mut origins, 2, "https://third.com", 3_000);
    assert_eq!(origins.len(), 2);
    assert_eq!(origins.timestamp_of(&"https://first.com".to_string()), None);
    assert_eq!(origins.timestamp_of(&"https://second.com".to_string()), Some(2_000));
    assert_eq!(origins.timestamp_of(&"https://third.com".to_string()), Some(3_000));
}

#[test]
fn touching_the_oldest_origin_saves_it_from_eviction() {
    let mut origins = LatestDelegationOrigins::new();
    record(&mut origins, 2, "https://first.com", 1_000);
    record(&mut origins, 2, "https://second.com", 2_000);
    record(&mut origins, 2, "https://first.com", 3_000);
    record(&mut origins, 2, "https://third.com", 4_000);
    assert_eq!(
        names(&origins),
        vec![("https://first.com".to_string(), 3_000), ("https://third.com".to_string(), 4_000)]
    );
}

#[test]
fn only_one_origin_is_evicted_per_call() {
    let mut origins = LatestDelegationOrigins::new();
    record(&mut origins, 5, "https://a.com", 1);
    record(&mut origins, 5, "https://b.com", 2);
    record(&mut origins, 5, "https://c.com", 3);
    record(&mut origins, 1, "https://d.com", 4);
    assert_eq!(origins.len(), 3);
    assert_eq!(origins.timestamp_of(&"https://a.com".to_string()), None);
    record(&mut origins, 1, "https://d.com", 5);
    assert_eq!(origins.len(), 2);
    assert_eq!(origins.timestamp_of(&"https://b.com".to_string()), None);
}

#[test]
fn of_two_oldest_origins_the_first_recorded_is_evicted() {
    let mut origins = LatestDelegationOrigins::new();
    record(&mut origins, 3, "https://a.com", 7);
    record(&mut origins, 3, "https://b.com", 7);
    record(&mut origins, 3, "https://c.com", 7);
    record(&mut origins, 3, "https://d.com", 7);
    assert_eq!(
        names(&origins),
        vec![
            ("https://b.com".to_string(), 7),
            ("https://c.com".to_string(), 7),
            ("https://d.com".to_string(), 7)
        ]
    );
}

#[test]
fn with_capacity_zero_nothing_stays() {
    let mut origins = LatestDelegationOrigins::new();
    record(&mut origins, 0, "https://a.com", 7);
    assert_eq!(origins.len(), 0);
}

#[test]
fn an_origin_recorded_31_days_ago_is_dropped_by_the_next_call() {
    let mut origins = LatestDelegationOrigins::new();
    record(&mut origins, 10, "https://old.com", 5);
    record(&mut origins, 10, "https://new.com", 5 + 31 * DAY_NS);
    assert_eq!(origins.timestamp_of(&"https://old.com".to_string()), None);
    assert_eq!(names(&origins), vec![("https://new.com".to_string(), 5 + 31 * DAY_NS)]);
}

#[test]
fn an_origin_of_exactly_thirty_days_stays_and_an_older_one_is_dropped() {
    let mut origins = LatestDelegationOrigins::new();
    record(&mut origins, 10, "https://old.com", 1_000);
    record(&mut origins, 10, "https://new.com", 1_000 + ORIGIN_TTL_NS);
    assert_eq!(origins.timestamp_of(&"https://old.com".to_string()), Some(1_000));
    assert_eq!(origins.len(), 2);
    record(&mut origins, 10, "https://new.com", 1_000 + ORIGIN_TTL_NS + 1);
    assert_eq!(origins.timestamp_of(&"https://old.com".to_string()), None);
    assert_eq!(origins.len(), 1);
}

#[test]
fn an_origin_recorded_at_zero_is_still_there_after_exactly_thirty_days() {
    let mut origins = LatestDelegationOrigins::new();
    record(&mut origins, 10, "https://old.com", 0);
    record(&mut origins, 10, "https://new.com", 2_592_000_000_000_000);
    assert_eq!(
        origins.entries(),
        vec![
            ("https://old.com".to_string(), 0),
            ("https://new.com".to_string(), 2_592_000_000_000_000)
        ]
    );
}

#[test]
fn an_origin_with_a_timestamp_ahead_of_the_clock_stays() {
    let mut origins = LatestDelegationOrigins::new();
    record(&mut origins, 10, "https://ahead.com", 9_000);
    record(&mut origins, 10, "https://now.com", 1_000);
    assert_eq!(origins.timestamp_of(&"https://ahead.com".to_string()), Some(9_000));
    assert_eq!(origins.len(), 2);
}

#[test]
fn stale_origins_go_before_the_capacity_is_applied() {
    let mut origins = LatestDelegationOrigins::new();
    record(&mut origins, 2, "https://old.com", 0);
    record(&mut origins, 2, "https://mid.com", 10 * DAY_NS);
    record(&mut origins, 2, "https://new.com", 35 * DAY_NS);
    assert_eq!(
        names(&origins),
        vec![
            ("https://mid.com".to_string(), 10 * DAY_NS),
            ("https://new.com".to_string(), 35 * DAY_NS)
        ]
    );
}
