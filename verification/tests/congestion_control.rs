//! The Brutal congestion controller and the bandwidth parser.
use brutal_quic::binary64::Binary64;
use brutal_quic::congestion_control::{parse_bandwidth_bps, BrutalConfig, BrutalController};
use brutal_quic::time::{Duration, Instant};
use std::sync::Arc;

fn number(x: f64) -> Binary64 {
    Binary64::from_bits(x.to_bits())
}

fn value(x: Binary64) -> f64 {
    f64::from_bits(x.to_bits())
}

fn at(secs: u64) -> Instant {
    Instant::after_origin(Duration::from_parts(secs, 0))
}

#[test]
fn test_parse_bandwidth() {
    assert_eq!(parse_bandwidth_bps("100m").unwrap(), 100 * 1024 * 1024);
    assert_eq!(parse_bandwidth_bps("1.5g").unwrap(), (1.5 * 1024.0 * 1024.0 * 1024.0) as u64);
    assert_eq!(parse_bandwidth_bps("30k").unwrap(), 30 * 1024);
    assert_eq!(parse_bandwidth_bps("1000000").unwrap(), 1_000_000);
    assert_eq!(parse_bandwidth_bps("512K").unwrap(), 512 * 1024);
    assert!(parse_bandwidth_bps("").is_err());
    assert!(parse_bandwidth_bps("abc").is_err());
    assert!(parse_bandwidth_bps("-1m").is_err());
    assert!(parse_bandwidth_bps("0m").is_err());
}

#[test]
fn test_brutal_config_default() {
    let config = BrutalConfig::default();
    assert_eq!(config.default_bandwidth_bps, 1_000_000);
    assert_eq!(config.min_window, 16 * 1024);
    assert!((value(config.cwnd_gain) - 1.25).abs() < f64::EPSILON);
}

#[test]
fn test_brutal_config_builder() {
    let config = BrutalConfig::new(100_000_000) // 100 Mbps
        .with_cwnd_gain(number(1.5))
        .with_ack_compensate(true)
        .with_min_window(32 * 1024);

    assert_eq!(config.default_bandwidth_bps, 100_000_000);
    assert!((value(config.cwnd_gain) - 1.5).abs() < f64::EPSILON);
    assert!(config.enable_ack_rate_compensation);
    assert_eq!(config.min_window, 32 * 1024);
}

#[test]
fn test_brutal_controller_basic() {
    let config = Arc::new(BrutalConfig::new(100 * 1024 * 1024)); // 100 Mbps
    let now = at(0);
    let ctrl = BrutalController::new(config, now, 1200);

    let initial = ctrl.initial_window();
    assert!(initial > 0);

    let window = ctrl.window();
    assert!(window > 0);
    assert_eq!(window, initial);
}

#[test]
fn test_brutal_controller_factory() {
    let config = Arc::new(BrutalConfig::new(50 * 1024 * 1024)); // 50 Mbps
    let now = at(0);
    let mut ctrl = BrutalController::new(config.clone(), now, 1200);

    ctrl.on_sent(now, 1000, 1);
    ctrl.on_congestion_event(now, now, false, 500);

    let window = ctrl.window();
    assert!(window > 0);
    // Brutal should NOT reduce cwnd on congestion event
    assert_eq!(window, ctrl.initial_window());
}

#[test]
fn test_brutal_no_cwnd_reduction_on_loss() {
    let config = Arc::new(BrutalConfig::new(100 * 1024 * 1024)); // 100 Mbps
    let now = at(0);
    let mut ctrl = BrutalController::new(config, now, 1200);

    let initial_cwnd = ctrl.window();
    ctrl.on_sent(now, 10000, 1);
    ctrl.on_congestion_event(now, now, false, 10000);

    // Brutal should NOT reduce cwnd on loss
    assert_eq!(ctrl.window(), initial_cwnd);
    assert_eq!(ctrl.bytes_in_flight(), 0);
}

/// The window as floating-point arithmetic gives it.
fn float_window(config: &BrutalConfig, rtt: std::time::Duration, ack_rate: f64, mtu: u64) -> u64 {
    let rate = if config.enable_ack_rate_compensation {
        ack_rate.max(value(config.min_ack_rate))
    } else {
        1.0
    };
    let bps = config.default_bandwidth_bps as f64;
    let cwnd = (bps * rtt.as_secs_f64() * value(config.cwnd_gain) / rate / 8.0) as u64;
    cwnd.max(config.min_window).max(mtu)
}

fn millis(n: u64) -> Duration {
    Duration::from_millis(n)
}

#[test]
fn windows_are_bandwidth_times_delay() {
    let config = BrutalConfig::new(100 * 1024 * 1024);
    let ctrl = BrutalController::new(Arc::new(config), at(0), 1200);
    assert_eq!(ctrl.window(), 1_638_400);
    let slow = BrutalController::new(Arc::new(BrutalConfig::new(1)), at(0), 1200);
    assert_eq!(slow.window(), 16 * 1024);
    let tiny = BrutalConfig::new(1).with_min_window(100);
    assert_eq!(BrutalController::new(Arc::new(tiny), at(0), 1200).window(), 1200);
    let wild = BrutalConfig::new(u64::MAX).with_cwnd_gain(number(f64::MAX));
    assert_eq!(BrutalController::new(Arc::new(wild), at(0), 1200).window(), u64::MAX);
    let broken = BrutalConfig::new(1000).with_cwnd_gain(number(f64::NAN));
    assert_eq!(BrutalController::new(Arc::new(broken), at(0), 1200).window(), 16 * 1024);
}

#[test]
fn windows_are_those_of_floating_point_arithmetic() {
    let mut state: u64 = 1;
    for _ in 0..300 {
        state = state.wrapping_mul(6364136223846793005).wrapping_add(1442695040888963407);
        let bps = state >> (state >> 59);
        let gain = 0.5 + (state >> 40 & 0xff) as f64 / 77.0;
        let rtt_ms = 1 + (state >> 20) % 900;
        let mut config = BrutalConfig::new(bps).with_cwnd_gain(number(gain));
        config.initial_rtt = millis(rtt_ms);
        let ctrl = BrutalController::new(Arc::new(config), at(0), 1200);
        let rtt = std::time::Duration::from_millis(rtt_ms);
        assert_eq!(ctrl.window(), float_window(&config, rtt, 1.0, 1200));
    }
}

#[test]
fn compensation_starts_from_a_full_ack_rate() {
    let plain = BrutalConfig::new(100 * 1024 * 1024).with_cwnd_gain(number(1.25));
    let compensated = plain.with_ack_compensate(true);
    let a = BrutalController::new(Arc::new(plain), at(0), 1200);
    let b = BrutalController::new(Arc::new(compensated), at(0), 1200);
    assert_eq!(a.window(), 1_638_400);
    assert_eq!(b.window(), 1_638_400);
}

/// Sends, acknowledges and loses packets of 1000 bytes.
fn exchange(ctrl: &mut BrutalController, now: Instant, acked: u64, lost: u64) {
    ctrl.on_sent(now, 1000 * (acked + lost), 1);
    if acked > 0 {
        ctrl.on_ack_with_rtt(1000 * acked, millis(100));
    }
    ctrl.on_congestion_event(now, now, false, 1000 * lost);
    assert!(ctrl.can_end_acks(now));
    ctrl.on_end_acks(now, 0, false, None);
}

#[test]
fn compensation_divides_by_the_measured_ack_rate() {
    let config = BrutalConfig::new(100_000_000).with_ack_compensate(true);
    let mut ctrl = BrutalController::new(Arc::new(config), at(0), 1000);
    let rtt = std::time::Duration::from_millis(100);
    exchange(&mut ctrl, at(1), 90, 10);
    assert_eq!(ctrl.window(), float_window(&config, rtt, 0.9, 1000));
    assert_eq!(ctrl.window(), 1_736_111);
    // The rate is held to its minimum.
    exchange(&mut ctrl, at(1), 0, 100);
    assert_eq!(ctrl.window(), float_window(&config, rtt, 0.45, 1000));
    assert_eq!(ctrl.window(), (100_000_000.0 * 0.1 * 1.25 / 0.8 / 8.0) as u64);
    assert_eq!(ctrl.bytes_in_flight(), 0);
}

#[test]
fn few_packets_do_not_count() {
    let config = BrutalConfig::new(100_000_000).with_ack_compensate(true);
    let mut ctrl = BrutalController::new(Arc::new(config), at(0), 1000);
    exchange(&mut ctrl, at(1), 40, 9);
    assert_eq!(ctrl.window(), 1_562_500);
    exchange(&mut ctrl, at(1), 0, 1);
    assert_eq!(ctrl.window(), (100_000_000.0 * 0.1 * 1.25 / 0.8 / 8.0) as u64);
}

#[test]
fn packets_count_for_five_seconds() {
    let config = BrutalConfig::new(100_000_000).with_ack_compensate(true);
    let mut ctrl = BrutalController::new(Arc::new(config), at(100), 1000);
    let rtt = std::time::Duration::from_millis(100);
    exchange(&mut ctrl, at(103), 90, 10);
    exchange(&mut ctrl, at(107), 100, 0);
    assert_eq!(ctrl.window(), float_window(&config, rtt, 190.0 / 200.0, 1000));
    exchange(&mut ctrl, at(108), 0, 0);
    assert_eq!(ctrl.window(), float_window(&config, rtt, 1.0, 1000));
}

#[test]
fn losses_leave_the_window_alone_with_compensation_too() {
    let config = BrutalConfig::new(100_000_000).with_ack_compensate(true);
    let mut ctrl = BrutalController::new(Arc::new(config), at(0), 1000);
    let window = ctrl.window();
    ctrl.on_sent(at(0), 500_000, 1);
    ctrl.on_congestion_event(at(0), at(0), true, 400_000);
    assert_eq!(ctrl.window(), window);
    assert_eq!(ctrl.bytes_in_flight(), 100_000);
}

#[test]
fn the_rtt_is_smoothed_by_eighths() {
    let config = BrutalConfig::new(100_000_000);
    let mut ctrl = BrutalController::new(Arc::new(config), at(0), 1000);
    ctrl.on_ack_with_rtt(0, millis(80));
    ctrl.on_ack_with_rtt(0, millis(160));
    // The window follows at the end of the round.
    assert_eq!(ctrl.window(), 1_562_500);
    ctrl.on_end_acks(at(0), 0, false, Some(3));
    let rtt = std::time::Duration::from_nanos((7 * 80_000_000 + 160_000_000) / 8);
    assert_eq!(rtt, std::time::Duration::from_millis(90));
    assert_eq!(ctrl.window(), float_window(&config, rtt, 1.0, 1000));
    assert_eq!(ctrl.window(), 1_406_250);
}

#[test]
fn the_mtu_bounds_the_window() {
    let config = BrutalConfig::new(1).with_min_window(10);
    let mut ctrl = BrutalController::new(Arc::new(config), at(0), 1200);
    assert_eq!(ctrl.window(), 1200);
    ctrl.on_mtu_update(1452);
    assert_eq!(ctrl.window(), 1452);
    ctrl.on_mtu_update(0);
    assert_eq!(ctrl.window(), 10);
    // Without an MTU every byte is a packet.
    assert!(ctrl.can_ack(u64::MAX));
    ctrl.on_ack_with_rtt(u64::MAX, millis(1));
    assert!(!ctrl.can_ack(1));
    assert!(ctrl.can_ack(0));
    assert!(ctrl.can_lose(u64::MAX));
    ctrl.on_congestion_event(at(0), at(0), false, 1);
    assert!(!ctrl.can_lose(u64::MAX));
    assert!(!ctrl.can_end_acks(at(0)));
}

#[test]
fn bytes_in_flight_saturate() {
    let mut ctrl = BrutalController::new(Arc::new(BrutalConfig::default()), at(0), 1200);
    ctrl.on_sent(at(0), u64::MAX, 1);
    ctrl.on_sent(at(0), 5, 2);
    assert_eq!(ctrl.bytes_in_flight(), u64::MAX);
    ctrl.on_congestion_event(at(0), at(0), false, 7);
    assert_eq!(ctrl.bytes_in_flight(), u64::MAX - 7);
    let mut other = BrutalController::new(Arc::new(BrutalConfig::default()), at(0), 1200);
    other.on_sent(at(0), 5, 1);
    other.on_ack_with_rtt(9, millis(1));
    assert_eq!(other.bytes_in_flight(), 0);
}

#[test]
fn copies_go_on_by_themselves() {
    let mut ctrl = BrutalController::new(Arc::new(BrutalConfig::default()), at(0), 1200);
    ctrl.on_sent(at(0), 100, 1);
    let copy = ctrl.clone();
    ctrl.on_sent(at(0), 100, 2);
    assert_eq!(copy.bytes_in_flight(), 100);
    assert_eq!(ctrl.bytes_in_flight(), 200);
    assert_eq!(copy.window(), ctrl.window());
}

#[test]
fn default_settings_of_the_controller() {
    let config = BrutalConfig::default();
    assert_eq!(config.initial_rtt.as_nanos(), 100_000_000);
    assert_eq!(value(config.min_ack_rate), 0.8);
    assert_eq!(config.min_sample_count, 50);
    assert!(!config.enable_ack_rate_compensation);
}

#[test]
fn bandwidths_are_read_with_and_without_suffix() {
    for (text, bps) in [
        ("1m", 1_048_576),
        ("1G", 1 << 30),
        ("1g", 1 << 30),
        ("2M", 2 << 20),
        (" 30k\n", 30 << 10),
        ("\u{3000}7\u{2003}", 7),
        ("+1.5k", 1536),
        (".5K", 512),
        ("5.k", 5120),
        ("1e3", 1000),
        ("1E-1k", 102),
        ("0.4", 0),
        ("9007199254740993", 9007199254740992),
        ("18446744073709551615", u64::MAX),
        ("99999999999g", u64::MAX),
        ("infk", u64::MAX),
        ("1e400k", u64::MAX),
        ("nank", 0),
    ] {
        assert_eq!(parse_bandwidth_bps(text), Ok(bps), "{text:?}");
    }
}

#[test]
fn bandwidth_errors_say_what_is_wrong() {
    for (text, message) in [
        ("", "empty bandwidth string"),
        (" \t", "empty bandwidth string"),
        ("abc", "invalid bandwidth suffix in: abc"),
        (" 5x ", "invalid bandwidth suffix in:  5x "),
        ("5\u{212a}", "invalid bandwidth suffix in: 5\u{212a}"),
        ("inf", "invalid bandwidth suffix in: inf"),
        ("1e", "invalid bandwidth suffix in: 1e"),
        ("k", "invalid bandwidth number \"\": cannot parse float from empty string"),
        ("abck", "invalid bandwidth number \"abc\": invalid float literal"),
        ("1 k", "invalid bandwidth number \"1 \": invalid float literal"),
        ("1kk", "invalid bandwidth number \"1k\": invalid float literal"),
        ("x1", "invalid bandwidth number \"x1\": invalid float literal"),
        ("-1m", "bandwidth must be positive, got -1"),
        ("-1.50k", "bandwidth must be positive, got -1.5"),
        ("0m", "bandwidth must be positive, got 0"),
        ("-0", "bandwidth must be positive, got -0"),
        ("1e-400k", "bandwidth must be positive, got 0"),
        ("-infg", "bandwidth must be positive, got -inf"),
        ("-0.1", "bandwidth must be positive, got -0.1"),
        ("-1e21", "bandwidth must be positive, got -1000000000000000000000"),
    ] {
        assert_eq!(parse_bandwidth_bps(text), Err(message.to_string()), "{text:?}");
    }
}

/// The bandwidth as the standard library's floating-point numbers give it.
fn float_bandwidth(input: &str) -> Result<u64, String> {
    let s = input.trim();
    if s.is_empty() {
        return Err("empty bandwidth string".to_string());
    }
    let (digits, factor) = match s.as_bytes().last().copied() {
        Some(b'K') | Some(b'k') => (&s[..s.len() - 1], 1024f64),
        Some(b'M') | Some(b'm') => (&s[..s.len() - 1], 1024f64 * 1024f64),
        Some(b'G') | Some(b'g') => (&s[..s.len() - 1], 1024f64 * 1024f64 * 1024f64),
        Some(b'0'..=b'9') => (s, 1f64),
        _ => return Err(format!("invalid bandwidth suffix in: {input}")),
    };
    let number: f64 = match digits.parse::<f64>() {
        Ok(number) => number,
        Err(e) => return Err(format!("invalid bandwidth number \"{digits}\": {e}")),
    };
    if number <= 0.0 {
        return Err(format!("bandwidth must be positive, got {number}"));
    }
    Ok((number * factor) as u64)
}

#[test]
fn bandwidths_are_those_of_floating_point_numbers() {
    let mut state: u64 = 21;
    let alphabet = ['0', '1', '5', '9', '.', 'e', '-', '+', ' ', 'k', 'M', 'G', 'n', '7'];
    for i in 0..1200 {
        let mut text = String::new();
        for _ in 0..(1 + i % 7) {
            state = state.wrapping_mul(6364136223846793005).wrapping_add(1442695040888963407);
            text.push(alphabet[(state >> 40) as usize % alphabet.len()]);
        }
        assert_eq!(parse_bandwidth_bps(&text), float_bandwidth(&text), "{text:?}");
    }
}

#[test]
fn white_space_around_a_bandwidth_is_that_of_unicode() {
    for c in '\0'..=char::MAX {
        let text = format!("{c}1k{c}");
        assert_eq!(parse_bandwidth_bps(&text).is_ok(), c.is_whitespace(), "{c:?}");
    }
}

#[test]
fn whole_bandwidths_are_exact() {
    for n in [1u64, 9, 10, 1_000_000, 123_456_789, (1 << 53) - 1, 1 << 53, (1 << 53) + 2, 1 << 63] {
        assert_eq!(parse_bandwidth_bps(&n.to_string()), Ok(n));
        assert_eq!(parse_bandwidth_bps(&format!("{n}k")), Ok(n.saturating_mul(1024)));
        assert_eq!(parse_bandwidth_bps(&format!("{n}M")), Ok(n.saturating_mul(1 << 20)));
        assert_eq!(parse_bandwidth_bps(&format!("{n}g")), Ok(n.saturating_mul(1 << 30)));
    }
}

#[test]
fn windows_grow_with_bandwidth_and_rtt() {
    let window = |bps: u64, rtt: Duration| {
        let mut config = BrutalConfig::new(bps);
        config.initial_rtt = rtt;
        BrutalController::new(Arc::new(config), at(0), 1200).window()
    };
    let spans = [
        Duration::from_nanos(0),
        millis(20),
        Duration::from_parts(0, 999_999_999),
        Duration::from_parts(1, 0),
        Duration::from_parts((1 << 53) + 1, 999_999_999),
        Duration::from_parts((1 << 53) + 2, 0),
        Duration::from_parts(u64::MAX, 999_999_999),
    ];
    let mut last = 0;
    for span in spans {
        assert!(window(1_000_000, span) >= last);
        last = window(1_000_000, span);
        assert!(window(2_000_000, span) >= last);
    }
    assert_eq!(window(8_000_000, Duration::from_parts(1, 0)), 1_250_000);
    assert_eq!(window(16_000_000, Duration::from_parts(1, 0)), 2_500_000);
}

#[test]
fn a_rate_of_nothing_is_held_to_the_minimum() {
    // Without packets and with no least sample the rate is 0 / 0.
    let mut config = BrutalConfig::new(100_000_000).with_ack_compensate(true);
    config.min_sample_count = 0;
    let mut ctrl = BrutalController::new(Arc::new(config), at(0), 1000);
    ctrl.on_end_acks(at(0), 0, false, None);
    assert_eq!(ctrl.window(), (100_000_000.0 * 0.1 * 1.25 / 0.8 / 8.0) as u64);
}

#[test]
fn packets_are_counted_generously() {
    let config = BrutalConfig::new(100_000_000).with_ack_compensate(true);
    let rtt = std::time::Duration::from_millis(100);
    let mut ctrl = BrutalController::new(Arc::new(config), at(0), 1000);
    // 1001 bytes are two packets, 100 bytes are one.
    for _ in 0..48 {
        ctrl.on_ack_with_rtt(1001, millis(100));
    }
    for _ in 0..4 {
        ctrl.on_congestion_event(at(0), at(0), false, 100);
    }
    ctrl.on_end_acks(at(0), 0, false, None);
    assert_eq!(ctrl.window(), float_window(&config, rtt, 0.96, 1000));
    // The batch was counted once.
    ctrl.on_end_acks(at(0), 0, false, None);
    assert_eq!(ctrl.window(), float_window(&config, rtt, 0.96, 1000));
}

#[test]
fn windows_grow_with_the_gain() {
    let window = |gain: f64| {
        let config = BrutalConfig::new(8_000_000).with_cwnd_gain(number(gain));
        BrutalController::new(Arc::new(config), at(0), 1200).window()
    };
    let gains = [-1.0, -0.0, 0.0, 0.5, 1.0, 1.25, 2.0, 1e300, f64::INFINITY];
    for pair in gains.windows(2) {
        assert!(window(pair[0]) <= window(pair[1]), "{pair:?}");
    }
    assert_eq!(window(1.0), 100_000);
    assert_eq!(window(2.0), 200_000);
}

#[test]
fn windows_widen_as_fewer_packets_arrive() {
    let config = BrutalConfig::new(100_000_000).with_ack_compensate(true);
    let window = |lost: u64| {
        let mut ctrl = BrutalController::new(Arc::new(config), at(0), 1000);
        exchange(&mut ctrl, at(0), 100 - lost, lost);
        ctrl.window()
    };
    for lost in 0..100 {
        assert!(window(lost) <= window(lost + 1));
    }
    assert_eq!(window(0), 1_562_500);
    assert_eq!(window(20), window(90));
}

#[test]
fn rounds_count_in_the_five_seconds_to_the_last() {
    let config = BrutalConfig::new(100_000_000).with_ack_compensate(true);
    let rtt = std::time::Duration::from_millis(100);
    let rounds = [(0, 90, 10), (0, 95, 5), (2, 80, 0), (4, 99, 1), (6, 50, 7), (9, 60, 3), (20, 70, 0)];
    let mut ctrl = BrutalController::new(Arc::new(config), at(0), 1000);
    for (i, (second, acked, lost)) in rounds.iter().enumerate() {
        exchange(&mut ctrl, at(*second), *acked, *lost);
        let counted = rounds[..=i].iter().filter(|round| round.0 + 4 >= *second);
        let (ack, all) = counted.fold((0, 0), |sum, round| (sum.0 + round.1, sum.1 + round.1 + round.2));
        let rate = ack as f64 / all as f64;
        assert_eq!(ctrl.window(), float_window(&config, rtt, rate, 1000), "{second}");
    }
    // Nothing was lost in the last five seconds.
    assert_eq!(ctrl.window(), 1_562_500);
}
