use heartbeat_agg::agg::{dead_ranges, duration_dead, duration_live, live_at, live_ranges, HeartbeatAgg};
use heartbeat_agg::api::{heartbeat_final, heartbeat_rollup_trans, heartbeat_trans};
use heartbeat_agg::trans::HeartbeatTransState;

fn agg_from(heartbeats: &[i64], start: i64, length: i64, liveness: i64) -> HeartbeatAgg {
    let mut state: Option<HeartbeatTransState> = None;
    for &h in heartbeats {
        state = heartbeat_trans(state, h, start, length, liveness);
    }
    heartbeat_final(state).unwrap()
}

#[test]
fn test_heartbeat_trans_state() {
    let mut state = HeartbeatTransState::new(0, 500, 10);
    state.insert(100);
    state.insert(200);
    state.insert(250);
    state.insert(220);
    state.insert(210);
    state.insert(300);

    assert_eq!(state.get_buffer().len(), 6);

    state.process_batch();
    assert_eq!(state.get_buffer().len(), 0);

    assert_eq!(
        state.get_liveness().as_slice(),
        &[(100, 110), (200, 230), (250, 260), (300, 310)]
    );

    state.insert(400);
    state.insert(350);
    state.process_batch();

    assert_eq!(
        state.get_liveness().as_slice(),
        &[(100, 110), (200, 230), (250, 260), (300, 310), (350, 360), (400, 410)]
    );

    state.insert(80);
    state.insert(190);
    state.insert(210);
    state.insert(230);
    state.insert(240);
    state.insert(310);
    state.insert(395);
    state.insert(408);
    state.process_batch();

    assert_eq!(
        state.get_liveness().as_slice(),
        &[(80, 90), (100, 110), (190, 260), (300, 320), (350, 360), (395, 418)]
    );
}

const MINUTE: i64 = 60_000;
const HOUR: i64 = 3_600_000;

// The two-hour corpus: twenty heartbeats in milliseconds from the window
// start.
fn two_hour_heartbeats() -> Vec<i64> {
    vec![
        2 * MINUTE + 20_000,
        10 * MINUTE,
        17 * MINUTE,
        30 * MINUTE,
        35 * MINUTE,
        40 * MINUTE,
        35 * MINUTE,
        40 * MINUTE,
        40 * MINUTE,
        50 * MINUTE + 30_000,
        60 * MINUTE,
        68 * MINUTE,
        78 * MINUTE,
        88 * MINUTE,
        98 * MINUTE + 1_000,
        100 * MINUTE,
        100 * MINUTE + 1_000,
        110 * MINUTE + 1_000,
        117 * MINUTE,
        119 * MINUTE + 50_000,
    ]
}

#[test]
fn test_heartbeat_agg() {
    let agg = agg_from(&two_hour_heartbeats(), 0, 2 * HOUR, 10 * MINUTE);

    assert_eq!(
        live_ranges(&agg).as_slice(),
        &[
            (2 * MINUTE + 20_000, 27 * MINUTE),
            (30 * MINUTE, 50 * MINUTE),
            (50 * MINUTE + 30_000, 98 * MINUTE),
            (98 * MINUTE + 1_000, 120 * MINUTE),
        ]
    );

    assert_eq!(
        dead_ranges(&agg).as_slice(),
        &[
            (0, 2 * MINUTE + 20_000),
            (27 * MINUTE, 30 * MINUTE),
            (50 * MINUTE, 50 * MINUTE + 30_000),
            (98 * MINUTE, 98 * MINUTE + 1_000),
        ]
    );

    // 01:54:09 live, 00:05:51 dead.
    assert_eq!(duration_live(&agg), 114 * MINUTE + 9_000);
    assert_eq!(duration_dead(&agg), 5 * MINUTE + 51_000);
}

#[test]
fn test_live_at() {
    let agg = agg_from(&two_hour_heartbeats(), 0, 2 * HOUR, 10 * MINUTE);

    assert!(!live_at(&agg, MINUTE)); // outside ranges
    assert!(live_at(&agg, 5 * MINUTE)); // inside ranges
    assert!(live_at(&agg, 30 * MINUTE)); // first instant of a range
    assert!(!live_at(&agg, 98 * MINUTE)); // last instant of a range
    assert!(!live_at(&agg, 121 * MINUTE)); // outside the aggregate
}

#[test]
fn test_heartbeat_rollup() {
    let first = agg_from(
        &[
            2 * MINUTE + 20_000,
            10 * MINUTE,
            17 * MINUTE,
            30 * MINUTE,
            35 * MINUTE,
            40 * MINUTE,
            50 * MINUTE + 30_000,
        ],
        0,
        HOUR,
        10 * MINUTE,
    );
    let second = agg_from(
        &[35 * MINUTE, 40 * MINUTE, 40 * MINUTE, 68 * MINUTE, 78 * MINUTE],
        30 * MINUTE,
        HOUR,
        10 * MINUTE,
    );
    let third = agg_from(
        &[
            60 * MINUTE,
            88 * MINUTE,
            98 * MINUTE + 1_000,
            100 * MINUTE,
            100 * MINUTE + 1_000,
            110 * MINUTE + 1_000,
            117 * MINUTE,
            119 * MINUTE + 50_000,
        ],
        HOUR,
        HOUR,
        10 * MINUTE,
    );

    let state = heartbeat_rollup_trans(None, Some(first));
    let state = heartbeat_rollup_trans(state, Some(second));
    let state = heartbeat_rollup_trans(state, Some(third));
    let agg = heartbeat_final(state).unwrap();

    assert_eq!(
        dead_ranges(&agg).as_slice(),
        &[
            (0, 2 * MINUTE + 20_000),
            (27 * MINUTE, 30 * MINUTE),
            (50 * MINUTE, 50 * MINUTE + 30_000),
            (98 * MINUTE, 98 * MINUTE + 1_000),
        ]
    );
}

#[test]
fn test_rollup_none_cases() {
    assert!(heartbeat_rollup_trans(None, None).is_none());
    assert!(heartbeat_final(None).is_none());

    let agg = agg_from(&[100], 0, 500, 10);
    let state = heartbeat_rollup_trans(None, Some(agg));
    let kept = heartbeat_rollup_trans(state, None).unwrap();
    assert_eq!(kept.get_liveness().as_slice(), &[(100, 110)]);
}

#[test]
fn test_rollup_round_trip() {
    let agg = agg_from(&[100, 200, 250, 220, 210, 300], 0, 500, 10);
    let starts = agg.interval_starts.clone();
    let ends = agg.interval_ends.clone();

    let state = heartbeat_rollup_trans(None, Some(agg));
    let back = heartbeat_final(state).unwrap();

    assert_eq!(back.interval_starts, starts);
    assert_eq!(back.interval_ends, ends);
    assert_eq!(back.start_time, 0);
    assert_eq!(back.end_time, 500);
    assert_eq!(back.interval_len, 10);
}

#[test]
fn test_insert_order_irrelevant() {
    let a = agg_from(&[100, 200, 250, 220, 210, 300], 0, 500, 10);
    let b = agg_from(&[300, 210, 220, 250, 200, 100], 0, 500, 10);
    assert_eq!(a.interval_starts, b.interval_starts);
    assert_eq!(a.interval_ends, b.interval_ends);
}

#[test]
fn test_durations_partition_window() {
    let agg = agg_from(&[100, 200, 250, 220, 210, 300], 0, 500, 10);
    assert_eq!(duration_live(&agg), 60);
    assert_eq!(duration_dead(&agg), 440);
    assert_eq!(duration_live(&agg) + duration_dead(&agg), 500);
}

#[test]
fn test_empty_aggregate_queries() {
    let agg = HeartbeatAgg {
        start_time: 0,
        end_time: 500,
        interval_len: 10,
        interval_starts: Vec::new(),
        interval_ends: Vec::new(),
    };
    assert_eq!(dead_ranges(&agg).as_slice(), &[(0, 500)]);
    assert_eq!(live_ranges(&agg).len(), 0);
    assert_eq!(duration_live(&agg), 0);
    assert_eq!(duration_dead(&agg), 500);
    assert!(!live_at(&agg, 100));
}

#[test]
fn test_touching_intervals_coalesce() {
    let agg = agg_from(&[100, 110], 0, 500, 10);
    assert_eq!(live_ranges(&agg).as_slice(), &[(100, 120)]);

    // One instant apart: the runs stay separate.
    let gap = agg_from(&[100, 111], 0, 500, 10);
    assert_eq!(live_ranges(&gap).as_slice(), &[(100, 110), (111, 121)]);
}

#[test]
fn test_window_edges() {
    // A heartbeat exactly at the window start is accepted; the final
    // interval is clamped to the window end.
    let agg = agg_from(&[0, 495], 0, 500, 10);
    assert_eq!(live_ranges(&agg).as_slice(), &[(0, 10), (495, 500)]);
    assert!(live_at(&agg, 0));
    assert!(!live_at(&agg, 500));
}

#[test]
fn test_buffer_flush_on_overflow() {
    let mut state = HeartbeatTransState::new(0, 100_000, 5);
    for i in 0..1001i64 {
        state.insert(i * 10);
    }
    // The thousand-and-first insert consolidated the buffer first.
    assert_eq!(state.get_buffer().len(), 1);
    assert_eq!(state.get_liveness().len(), 1000);
    state.process_batch();
    assert_eq!(state.get_liveness().len(), 1001);
    assert_eq!(state.get_liveness()[0], (0, 5));
    assert_eq!(state.get_liveness()[1000], (10_000, 10_005));
}

#[test]
fn test_combine_merges_states() {
    let mut a = HeartbeatTransState::new(0, 500, 10);
    a.insert(100);
    a.insert(300);
    let mut b = HeartbeatTransState::new(0, 500, 10);
    b.insert(105);
    b.insert(200);
    a.combine(b);
    assert_eq!(a.get_liveness().as_slice(), &[(100, 115), (200, 210), (300, 310)]);
}

#[test]
fn test_containment() {
    // Every inserted heartbeat lies inside one of the live intervals.
    let agg = agg_from(&two_hour_heartbeats(), 0, 2 * HOUR, 10 * MINUTE);
    for &h in &two_hour_heartbeats() {
        assert!(live_at(&agg, h));
    }
}

#[test]
fn test_rollup_associative() {
    let a_hbs = [100i64, 200, 250];
    let b_hbs = [220i64, 210];
    let c_hbs = [300i64, 400];
    let make = |hbs: &[i64]| agg_from(hbs, 0, 500, 10);

    // Left grouping: ((a + b) + c).
    let st = heartbeat_rollup_trans(None, Some(make(&a_hbs)));
    let st = heartbeat_rollup_trans(st, Some(make(&b_hbs)));
    let st = heartbeat_rollup_trans(st, Some(make(&c_hbs)));
    let left = heartbeat_final(st).unwrap();

    // Right grouping: (a + (b + c)).
    let st = heartbeat_rollup_trans(None, Some(make(&b_hbs)));
    let st = heartbeat_rollup_trans(st, Some(make(&c_hbs)));
    let bc = heartbeat_final(st).unwrap();
    let st = heartbeat_rollup_trans(None, Some(make(&a_hbs)));
    let st = heartbeat_rollup_trans(st, Some(bc));
    let right = heartbeat_final(st).unwrap();

    assert_eq!(left.interval_starts, right.interval_starts);
    assert_eq!(left.interval_ends, right.interval_ends);
}

#[test]
fn test_batching_transparent() {
    // Flushing the buffer at different points never changes the result.
    let heartbeats = [100i64, 200, 250, 220, 210, 300, 80, 190, 240];
    let mut eager = HeartbeatTransState::new(0, 500, 10);
    let mut lazy = HeartbeatTransState::new(0, 500, 10);
    for (i, &h) in heartbeats.iter().enumerate() {
        eager.insert(h);
        if i % 2 == 0 {
            eager.process_batch();
        }
        lazy.insert(h);
    }
    eager.process_batch();
    lazy.process_batch();
    assert_eq!(eager.get_liveness(), lazy.get_liveness());
}
