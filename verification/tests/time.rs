use iced_futures::time::{every, Duration, Every, Instant};

const MS: u128 = 1_000_000;

fn at(millis: u128) -> Instant {
    Instant { nanos: millis * MS }
}

#[test]
fn durations_are_counted_in_nanoseconds() {
    assert_eq!(Duration::from_millis(250), Duration { nanos: 250_000_000 });
    assert_eq!(Duration::from_secs(2), Duration { nanos: 2_000_000_000 });
    assert_eq!(Duration::from_millis(u64::MAX).nanos, u64::MAX as u128 * 1_000_000);
    assert_eq!(Duration::from_secs(u64::MAX).nanos, u64::MAX as u128 * 1_000_000_000);
    assert_eq!(Duration::from_millis(0), Duration { nanos: 0 });
}

#[test]
fn first_tick_is_due_one_period_after_the_start() {
    let interval = Every(Duration::from_millis(250)).stream(at(1000));
    assert_eq!(interval.deadline(), Some(at(1250)));
    assert_eq!(interval.period(), Duration::from_millis(250));
}

#[test]
fn nothing_is_delivered_before_the_deadline() {
    let mut interval = Every(Duration::from_millis(250)).stream(at(0));
    assert_eq!(interval.tick(at(0)), None);
    assert_eq!(interval.tick(at(249)), None);
    assert_eq!(interval.deadline(), Some(at(250)));
    assert_eq!(interval.tick(Instant { nanos: 250 * MS - 1 }), None);
    assert_eq!(interval.tick(at(250)), Some(at(250)));
}

#[test]
fn ticks_follow_one_another_at_one_period() {
    let mut interval = Every(Duration::from_millis(250)).stream(at(0));
    let mut ticks = Vec::new();
    for now in [250, 500, 750, 1000] {
        ticks.push(interval.tick(at(now)));
    }
    assert_eq!(ticks, vec![Some(at(250)), Some(at(500)), Some(at(750)), Some(at(1000))]);
    assert_eq!(interval.deadline(), Some(at(1250)));
}

#[test]
fn a_late_poll_delivers_the_tick_that_was_due() {
    let mut interval = Every(Duration::from_millis(250)).stream(at(0));
    assert_eq!(interval.tick(at(260)), Some(at(250)));
    assert_eq!(interval.deadline(), Some(at(500)));
    assert_eq!(interval.tick(at(499)), None);
    assert_eq!(interval.tick(at(749)), Some(at(500)));
    assert_eq!(interval.deadline(), Some(at(750)));
}

#[test]
fn a_tick_is_delivered_once() {
    let mut interval = Every(Duration::from_millis(250)).stream(at(0));
    assert_eq!(interval.tick(at(250)), Some(at(250)));
    assert_eq!(interval.tick(at(250)), None);
    assert_eq!(interval.tick(at(300)), None);
}

#[test]
fn ticks_are_at_least_one_period_apart() {
    let period = 250 * MS;
    let mut interval = Every(Duration { nanos: period }).stream(at(0));
    let mut last: Option<Instant> = None;
    let mut now: u128 = 0;
    let mut delivered = 0;
    for step in 0..2000u128 {
        now += (step * 104_729_017) % (3 * period / 2);
        if let Some(tick) = interval.tick(Instant { nanos: now }) {
            assert!(tick.nanos <= now);
            assert_eq!(tick.nanos % period, 0);
            assert!(tick.nanos >= period);
            if let Some(before) = last {
                assert!(tick.nanos - before.nanos >= period);
            }
            last = Some(tick);
            delivered += 1;
        }
    }
    assert!(delivered > 100);
}

#[test]
fn missed_ticks_are_skipped() {
    let mut interval = Every(Duration::from_millis(100)).stream(at(0));
    assert_eq!(interval.tick(at(100)), Some(at(100)));
    // The consumer stalls for three and a half periods.
    assert_eq!(interval.tick(at(450)), None);
    assert_eq!(interval.deadline(), Some(at(500)));
    assert_eq!(interval.tick(at(499)), None);
    assert_eq!(interval.tick(at(500)), Some(at(500)));
    assert_eq!(interval.tick(at(500)), None);
    assert_eq!(interval.tick(at(600)), Some(at(600)));
}

#[test]
fn a_poll_on_a_later_boundary_moves_past_it() {
    let mut interval = Every(Duration::from_millis(100)).stream(at(0));
    assert_eq!(interval.tick(at(300)), None);
    assert_eq!(interval.deadline(), Some(at(400)));
    assert_eq!(interval.tick(at(400)), Some(at(400)));
}

#[test]
fn a_poll_one_whole_period_late_misses_the_tick() {
    let mut interval = Every(Duration::from_millis(100)).stream(at(0));
    assert_eq!(interval.tick(Instant { nanos: 200 * MS - 1 }), Some(at(100)));
    let mut interval = Every(Duration::from_millis(100)).stream(at(0));
    assert_eq!(interval.tick(at(200)), None);
    assert_eq!(interval.deadline(), Some(at(300)));
}

#[test]
fn time_may_run_backwards_without_a_tick() {
    let mut interval = Every(Duration::from_millis(100)).stream(at(1000));
    assert_eq!(interval.tick(at(0)), None);
    assert_eq!(interval.deadline(), Some(at(1100)));
}

#[test]
fn the_source_ends_where_time_ends() {
    let start = Instant { nanos: u128::MAX - 150 };
    let mut interval = Every(Duration { nanos: 100 }).stream(start);
    assert_eq!(interval.deadline(), Some(Instant { nanos: u128::MAX - 50 }));
    assert_eq!(interval.tick(Instant { nanos: u128::MAX - 50 }), Some(Instant { nanos: u128::MAX - 50 }));
    assert_eq!(interval.deadline(), None);
    assert_eq!(interval.tick(Instant { nanos: u128::MAX }), None);
    assert_eq!(interval.deadline(), None);
}

#[test]
fn a_source_that_cannot_fire_has_ended_from_the_start() {
    let interval = Every(Duration { nanos: 100 }).stream(Instant { nanos: u128::MAX - 50 });
    assert_eq!(interval.deadline(), None);
    let mut interval = interval;
    assert_eq!(interval.tick(Instant { nanos: u128::MAX }), None);
}

#[test]
fn a_missed_tick_near_the_end_of_time_ends_the_source() {
    let mut interval = Every(Duration { nanos: 100 }).stream(Instant { nanos: u128::MAX - 350 });
    assert_eq!(interval.deadline(), Some(Instant { nanos: u128::MAX - 250 }));
    assert_eq!(interval.tick(Instant { nanos: u128::MAX - 20 }), None);
    assert_eq!(interval.deadline(), None);
}

#[test]
fn the_shortest_period_ticks_every_nanosecond() {
    let mut interval = Every(Duration { nanos: 1 }).stream(Instant { nanos: 0 });
    assert_eq!(interval.tick(Instant { nanos: 1 }), Some(Instant { nanos: 1 }));
    assert_eq!(interval.tick(Instant { nanos: 2 }), Some(Instant { nanos: 2 }));
    assert_eq!(interval.tick(Instant { nanos: 10 }), None);
    assert_eq!(interval.deadline(), Some(Instant { nanos: 11 }));
}

#[test]
fn every_keeps_the_duration() {
    let recipes = every(Duration::from_millis(250)).into_recipes();
    assert_eq!(recipes.len(), 1);
    assert_eq!(recipes[0].0, Duration::from_millis(250));
}

#[test]
fn every_accepts_an_empty_duration() {
    let recipes = every(Duration { nanos: 0 }).into_recipes();
    assert_eq!(recipes, vec![Every(Duration { nanos: 0 })]);
}
