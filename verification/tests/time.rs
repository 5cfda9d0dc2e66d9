//! Spans and points of time, held against the standard library's.
use brutal_quic::time::{Duration, Instant};

fn pairs() -> Vec<(u64, u32)> {
    let mut pairs = vec![
        (0, 0),
        (0, 1),
        (0, 100_000_000),
        (0, 999_999_999),
        (1, 0),
        (3, 141_592_653),
        (86_400, 5),
        (u64::MAX, 999_999_999),
    ];
    let mut state: u64 = 9;
    for i in 0..500 {
        state = state.wrapping_mul(6364136223846793005).wrapping_add(1442695040888963407);
        pairs.push((state >> (i % 64), (state >> 20) as u32 % 1_000_000_000));
    }
    pairs
}

#[test]
fn durations_are_those_of_the_standard_library() {
    for (secs, nanos) in pairs() {
        let ours = Duration::from_parts(secs, nanos);
        let theirs = std::time::Duration::new(secs, nanos);
        assert_eq!(ours.as_secs(), theirs.as_secs());
        assert_eq!(ours.as_nanos(), theirs.as_nanos());
        assert_eq!(ours.as_seconds().to_bits(), theirs.as_secs_f64().to_bits());
        assert_eq!(Duration::from_nanos(secs).as_nanos(), std::time::Duration::from_nanos(secs).as_nanos());
        assert_eq!(Duration::from_millis(secs).as_nanos(), std::time::Duration::from_millis(secs).as_nanos());
    }
}

#[test]
fn spans_between_points_do_not_run_backwards() {
    let all = pairs();
    for window in all.windows(2) {
        let (a, b) = (window[0], window[1]);
        let (x, y) = (Duration::from_parts(a.0, a.1), Duration::from_parts(b.0, b.1));
        let span = Instant::after_origin(x).saturating_duration_since(Instant::after_origin(y));
        let expected = std::time::Duration::new(a.0, a.1).saturating_sub(std::time::Duration::new(b.0, b.1));
        assert_eq!(span.as_nanos(), expected.as_nanos());
    }
}
