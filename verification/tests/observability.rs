#![allow(unused_imports, unused_mut, unused_variables, dead_code)]
use ahash::{AHashMap, AHashSet};
use sqlitegraph::observability::{happens_before_analysis, HappensBeforeResult, Operation, TraceEvent, VectorClock};

fn ob_empty_json() -> serde_json::Value {
    serde_json::Value::Object(serde_json::Map::new())
}

fn ob_json_field(key: &str, value: i64) -> serde_json::Value {
    let mut map = serde_json::Map::new();
    map.insert(key.to_string(), serde_json::Value::from(value));
    serde_json::Value::Object(map)
}


// Helper: Create a simple trace event
fn ob_make_event(
    event_id: i64,
    thread_id: i64,
    operation: Operation,
    memory_location: i64,
    vc_clocks: Vec<(i64, u64)>,
) -> TraceEvent {
    let mut vc = VectorClock::new();
    for (tid, clock) in vc_clocks {
        vc.set(tid, clock);
    }
    TraceEvent::new(event_id, thread_id, operation, memory_location, vc)
}

// Vector Clock Tests

#[test]
fn test_vector_clock_new() {
    // Scenario: New vector clock is empty
    // Expected: No clocks set, is_empty returns true
    let vc = VectorClock::new();
    assert!(vc.is_empty(), "New vector clock should be empty");
    assert_eq!(vc.len(), 0, "Length should be 0");
    assert_eq!(vc.get(1), 0, "Missing thread should return 0");
}

#[test]
fn test_vector_clock_increment() {
    // Scenario: Increment thread's clock
    // Expected: Clock value increases by 1
    let mut vc = VectorClock::new();
    vc.increment(1);
    assert_eq!(vc.get(1), 1, "First increment should set to 1");
    assert!(!vc.is_empty(), "Should not be empty after increment");

    vc.increment(1);
    assert_eq!(vc.get(1), 2, "Second increment should set to 2");

    vc.increment(2);
    assert_eq!(vc.get(1), 2, "Thread 1 should still be 2");
    assert_eq!(vc.get(2), 1, "Thread 2 should be 1");
}

#[test]
fn test_vector_clock_incremented() {
    // Scenario: Create incremented copy
    // Expected: Returns new clock with thread incremented
    let vc1 = VectorClock::new().incremented(5);
    assert_eq!(vc1.get(5), 1, "Thread 5 should be 1");
    assert_eq!(vc1.get(1), 0, "Thread 1 should be 0");
}

#[test]
fn test_vector_clock_happens_before_simple() {
    // Scenario: Simple happens-before relationship
    // Clock A: {1: 1}, Clock B: {1: 2}
    // Expected: A happens-before B (A < B for thread 1)
    let mut vc_a = VectorClock::new();
    vc_a.increment(1);

    let mut vc_b = VectorClock::new();
    vc_b.increment(1);
    vc_b.increment(1);

    assert!(vc_a.happens_before(&vc_b), "A should happen-before B");
    assert!(!vc_b.happens_before(&vc_a), "B should not happen-before A");
}

#[test]
fn test_vector_clock_happens_before_partial_order() {
    // Scenario: Partial order across multiple threads
    // Clock A: {1: 1, 2: 0}, Clock B: {1: 1, 2: 1}
    // Expected: A happens-before B (B has progressed on thread 2)
    let mut vc_a = VectorClock::new();
    vc_a.increment(1);

    let mut vc_b = VectorClock::new();
    vc_b.increment(1);
    vc_b.increment(2);

    assert!(
        vc_a.happens_before(&vc_b),
        "A should happen-before B (progressed on thread 2)"
    );
    assert!(!vc_b.happens_before(&vc_a), "B should not happen-before A");
}

#[test]
fn test_vector_clock_happens_before_equal() {
    // Scenario: Equal vector clocks
    // Expected: Neither happens-before the other (need strict < for at least one)
    let mut vc_a = VectorClock::new();
    vc_a.increment(1);

    let mut vc_b = VectorClock::new();
    vc_b.increment(1);

    assert!(
        !vc_a.happens_before(&vc_b),
        "Equal clocks should not satisfy happens-before (need strict <)"
    );
    assert!(
        !vc_b.happens_before(&vc_a),
        "Equal clocks should not satisfy happens-before (need strict <)"
    );
}

#[test]
fn test_vector_clock_happens_before_empty() {
    // Scenario: Empty clock compared to non-empty
    // Expected: Empty clock happens-before non-empty (0 <= n for all)
    let vc_empty = VectorClock::new();
    let vc_nonempty = VectorClock::new().incremented(1);

    assert!(
        vc_empty.happens_before(&vc_nonempty),
        "Empty clock should happen-before non-empty"
    );
    assert!(
        !vc_nonempty.happens_before(&vc_empty),
        "Non-empty should not happen-before empty"
    );
}

#[test]
fn test_vector_clock_is_concurrent() {
    // Scenario: Concurrent clocks
    // Clock A: {1: 1}, Clock B: {2: 1}
    // Expected: Concurrent (neither <= the other)
    let vc_a = VectorClock::new().incremented(1);
    let vc_b = VectorClock::new().incremented(2);

    assert!(vc_a.is_concurrent(&vc_b), "Clocks should be concurrent");
    assert!(vc_b.is_concurrent(&vc_a), "Concurrency should be symmetric");
}

#[test]
fn test_vector_clock_is_concurrent_complex() {
    // Scenario: Complex concurrency
    // Clock A: {1: 2, 2: 1}, Clock B: {1: 1, 2: 2}
    // Expected: Concurrent (A > B on thread 1, A < B on thread 2)
    let mut vc_a = VectorClock::new();
    vc_a.increment(1);
    vc_a.increment(1);
    vc_a.increment(2);

    let mut vc_b = VectorClock::new();
    vc_b.increment(1);
    vc_b.increment(2);
    vc_b.increment(2);

    assert!(
        vc_a.is_concurrent(&vc_b),
        "Should be concurrent (different ordering per thread)"
    );
}

#[test]
fn test_vector_clock_is_concurrent_ordered() {
    // Scenario: Ordered clocks are not concurrent
    // Clock A: {1: 1}, Clock B: {1: 2}
    // Expected: Not concurrent (A happens-before B)
    let vc_a = VectorClock::new().incremented(1);
    let mut vc_b = VectorClock::new();
    vc_b.increment(1);
    vc_b.increment(1);

    assert!(
        !vc_a.is_concurrent(&vc_b),
        "Ordered clocks should not be concurrent"
    );
    assert!(
        !vc_b.is_concurrent(&vc_a),
        "Ordered clocks should not be concurrent"
    );
}

#[test]
fn test_vector_clock_merge() {
    // Scenario: Merge two clocks
    // Clock A: {1: 1, 2: 0}, Clock B: {1: 0, 2: 1}
    // Expected: A after merge = {1: 1, 2: 1} (element-wise max)
    let mut vc_a = VectorClock::new();
    vc_a.increment(1);

    let vc_b = VectorClock::new().incremented(2);

    vc_a.merge(&vc_b);

    assert_eq!(vc_a.get(1), 1, "Thread 1 should be max(1, 0) = 1");
    assert_eq!(vc_a.get(2), 1, "Thread 2 should be max(0, 1) = 1");
}

#[test]
fn test_vector_clock_merge_existing() {
    // Scenario: Merge updates existing values
    // Clock A: {1: 1}, Clock B: {1: 3}
    // Expected: A after merge = {1: 3} (max)
    let mut vc_a = VectorClock::new();
    vc_a.increment(1);

    let mut vc_b = VectorClock::new();
    vc_b.increment(1);
    vc_b.increment(1);
    vc_b.increment(1);

    vc_a.merge(&vc_b);

    assert_eq!(vc_a.get(1), 3, "Thread 1 should be max(1, 3) = 3");
}

#[test]
fn test_vector_clock_merge_empty_into_nonempty() {
    // Scenario: Merge empty clock into non-empty
    // Expected: Non-empty clock unchanged
    let mut vc = VectorClock::new();
    vc.increment(1);
    let original = vc.clone();

    vc.merge(&VectorClock::new());

    assert_eq!(vc.get(1), original.get(1), "Clock should be unchanged");
}

#[test]
fn test_vector_clock_merge_empty_into_empty() {
    // Scenario: Merge empty clock into empty clock
    // Expected: Both remain empty
    let mut vc = VectorClock::new();
    vc.merge(&VectorClock::new());
    assert!(vc.is_empty());
}

// Trace Event Tests

#[test]
fn test_trace_event_new() {
    // Scenario: Create trace event
    // Expected: All fields set correctly
    let vc = VectorClock::new().incremented(1);
    let event = TraceEvent::new(10, 5, Operation::Read, 100, vc.clone());

    assert_eq!(event.event_id, 10);
    assert_eq!(event.thread_id, 5);
    assert_eq!(event.operation, Operation::Read);
    assert_eq!(event.memory_location, 100);
    assert_eq!(event.vector_clock.get(1), 1);
}

#[test]
fn test_trace_event_with_thread() {
    // Scenario: Create trace event with convenience method
    // Expected: Vector clock automatically set
    let event = TraceEvent::with_thread(1, 5, Operation::Write, 100);

    assert_eq!(event.event_id, 1);
    assert_eq!(event.thread_id, 5);
    assert_eq!(event.operation, Operation::Write);
    assert_eq!(event.memory_location, 100);
    assert_eq!(event.vector_clock.get(5), 1);
}

// Happens-Before Analysis Tests

#[test]
fn test_happens_before_empty() {
    // Scenario: Empty trace
    // Expected: Empty result, no conflicts
    let events: Vec<TraceEvent> = vec![];
    let result =
        happens_before_analysis(&events).expect("Analysis should succeed on empty trace");

    assert_eq!(result.total_events, 0);
    assert_eq!(result.conflicts_detected, 0);
    assert!(result.concurrent_pairs.is_empty());
    assert!(!result.has_races());
}

#[test]
fn test_happens_before_single_event() {
    // Scenario: Single event trace
    // Expected: No pairs to compare, no conflicts
    let events = vec![TraceEvent::with_thread(1, 1, Operation::Write, 100)];
    let result = happens_before_analysis(&events).expect("Analysis should succeed");

    assert_eq!(result.total_events, 1);
    assert_eq!(result.conflicts_detected, 0);
    assert!(!result.has_races());
}

#[test]
fn test_happens_before_single_thread() {
    // Scenario: All events from same thread (ordered by clock)
    // Expected: No concurrent events (single thread is totally ordered)
    let events = vec![
        TraceEvent::with_thread(1, 1, Operation::Write, 100),
        ob_make_event(2, 1, Operation::Read, 100, vec![(1, 2)]),
        ob_make_event(3, 1, Operation::Write, 100, vec![(1, 3)]),
    ];

    let result = happens_before_analysis(&events).expect("Analysis should succeed");

    assert_eq!(result.total_events, 3);
    assert_eq!(result.conflicts_detected, 0);
    assert!(!result.has_races());
}

#[test]
fn test_happens_before_concurrent_writes() {
    // Scenario: Two threads write to same location concurrently
    // Expected: One concurrent pair detected
    let events = vec![
        TraceEvent::with_thread(1, 1, Operation::Write, 100),
        TraceEvent::with_thread(2, 2, Operation::Write, 100),
    ];

    let result = happens_before_analysis(&events).expect("Analysis should succeed");

    assert_eq!(result.total_events, 2);
    assert_eq!(result.conflicts_detected, 1);
    assert!(result.has_races());

    let (event_a, event_b) = &result.concurrent_pairs[0];
    assert_eq!(event_a.thread_id, 1);
    assert_eq!(event_b.thread_id, 2);
    assert_eq!(event_a.memory_location, 100);
    assert_eq!(event_b.memory_location, 100);
}

#[test]
fn test_happens_before_read_write_conflict() {
    // Scenario: Concurrent read and write to same location
    // Expected: One concurrent pair detected (read-write race)
    let events = vec![
        TraceEvent::with_thread(1, 1, Operation::Read, 100),
        TraceEvent::with_thread(2, 2, Operation::Write, 100),
    ];

    let result = happens_before_analysis(&events).expect("Analysis should succeed");

    assert_eq!(result.conflicts_detected, 1);
    assert!(result.has_races());
}

#[test]
fn test_happens_before_read_only_no_race() {
    // Scenario: Two threads read same location concurrently
    // Expected: No race detected (read-only is safe)
    let events = vec![
        TraceEvent::with_thread(1, 1, Operation::Read, 100),
        TraceEvent::with_thread(2, 2, Operation::Read, 100),
    ];

    let result = happens_before_analysis(&events).expect("Analysis should succeed");

    assert_eq!(result.conflicts_detected, 0);
    assert!(!result.has_races());
}

#[test]
fn test_happens_before_ordered_events() {
    // Scenario: Events from same thread are ordered
    // Thread 1: event 1 then event 2 (clock: 1 then 2)
    // Expected: No concurrent pairs (happens-before relationship)
    let events = vec![
        TraceEvent::with_thread(1, 1, Operation::Write, 100),
        ob_make_event(2, 1, Operation::Write, 100, vec![(1, 2)]),
    ];

    let result = happens_before_analysis(&events).expect("Analysis should succeed");

    assert_eq!(result.conflicts_detected, 0);
    assert!(!result.has_races());
}

#[test]
fn test_happens_before_different_locations() {
    // Scenario: Concurrent writes to different locations
    // Expected: No race detected (different memory locations)
    let events = vec![
        TraceEvent::with_thread(1, 1, Operation::Write, 100),
        TraceEvent::with_thread(2, 2, Operation::Write, 200),
    ];

    let result = happens_before_analysis(&events).expect("Analysis should succeed");

    assert_eq!(result.conflicts_detected, 0);
    assert!(!result.has_races());
}

#[test]
fn test_happens_before_multiple_locations() {
    // Scenario: Multiple memory locations with mixed access patterns
    // Location 100: concurrent writes (race)
    // Location 200: same thread (no race)
    // Location 300: read-only (no race)
    let events = vec![
        TraceEvent::with_thread(1, 1, Operation::Write, 100),
        TraceEvent::with_thread(2, 2, Operation::Write, 100),
        TraceEvent::with_thread(1, 1, Operation::Write, 200),
        ob_make_event(4, 1, Operation::Write, 200, vec![(1, 2)]),
        TraceEvent::with_thread(2, 2, Operation::Read, 300),
        ob_make_event(6, 1, Operation::Read, 300, vec![(1, 1)]),
    ];

    let result = happens_before_analysis(&events).expect("Analysis should succeed");

    assert_eq!(result.total_events, 6);
    assert_eq!(
        result.conflicts_detected, 1,
        "Should detect 1 race at location 100"
    );
    assert!(result.has_races());

    let raced = result.raced_locations();
    assert!(raced.contains(&100));
    assert!(!raced.contains(&200));
    assert!(!raced.contains(&300));
}

#[test]
fn test_happens_before_synchronized_threads() {
    // Scenario: Synchronized threads (vector clocks merged)
    // Thread 1 writes, syncs, thread 2 writes
    // Expected: No race (happens-before due to synchronization)
    let events = vec![
        TraceEvent::with_thread(1, 1, Operation::Write, 100),
        // After sync: both threads know about each other
        ob_make_event(2, 1, Operation::Write, 100, vec![(1, 2), (2, 1)]),
        ob_make_event(3, 2, Operation::Write, 100, vec![(1, 2), (2, 2)]),
    ];

    let result = happens_before_analysis(&events).expect("Analysis should succeed");

    assert_eq!(
        result.conflicts_detected, 0,
        "Synchronized access should not race"
    );
    assert!(!result.has_races());
}

#[test]
fn test_happens_before_three_threads() {
    // Scenario: Three threads accessing same location
    // Expected: Multiple concurrent pairs detected
    let events = vec![
        TraceEvent::with_thread(1, 1, Operation::Write, 100),
        TraceEvent::with_thread(2, 2, Operation::Write, 100),
        TraceEvent::with_thread(3, 3, Operation::Write, 100),
    ];

    let result = happens_before_analysis(&events).expect("Analysis should succeed");

    // All three threads are concurrent with each other
    // Pairs: (1,2), (1,3), (2,3) = 3 pairs
    assert_eq!(result.conflicts_detected, 3);
    assert!(result.has_races());
}

#[test]
fn test_happens_before_result_raced_locations() {
    // Scenario: Multiple locations with races
    // Expected: raced_locations returns unique locations
    let events = vec![
        TraceEvent::with_thread(1, 1, Operation::Write, 100),
        TraceEvent::with_thread(2, 2, Operation::Write, 100),
        TraceEvent::with_thread(1, 1, Operation::Write, 200),
        TraceEvent::with_thread(2, 2, Operation::Write, 200),
        TraceEvent::with_thread(1, 1, Operation::Write, 300),
        TraceEvent::with_thread(2, 2, Operation::Write, 300),
    ];

    let result = happens_before_analysis(&events).expect("Analysis should succeed");

    let locations = result.raced_locations();
    assert_eq!(locations.len(), 3);
    assert!(locations.contains(&100));
    assert!(locations.contains(&200));
    assert!(locations.contains(&300));
}

#[test]
fn test_operation_display() {
    // Scenario: Display operation types
    // Expected: Read displays as "R", Write as "W"
    assert_eq!(Operation::Read.to_string(), "R");
    assert_eq!(Operation::Write.to_string(), "W");
}
