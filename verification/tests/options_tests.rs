use turnhammer::options::{Decision, Opt, OptError};

/// The limits in double precision.
fn beyond(pps: u32, conns: usize, size: usize, duration: u64) -> bool {
    let bits = (pps as u64) * (conns as u64) * (size as u64 + 40) * 2 * 8;
    let mbps = bits as f64 / 1000.0 / 1000.0;
    let traffic = mbps * (duration as f64) / 9.0;
    mbps > 50.0 || traffic > 100.0
}

fn opt(pps: u32, conns: usize, size: usize, duration: u64) -> Opt {
    Opt {
        packets_per_second: pps,
        num_connections: conns,
        packet_size: size,
        duration,
        ..Opt::default()
    }
}

#[test]
fn defaults() {
    let o = Opt::default();
    assert_eq!(
        (o.num_connections, o.packet_size, o.packets_per_second, o.duration),
        (1, 100, 5, 5)
    );
    assert_eq!((o.delay_after_stopping_sender, o.delay_between_allocations), (3, 2000));
    assert!(!o.only_calc && !o.force && !o.video_override && !o.audio_override && !o.json_mode);
    assert_eq!(o.bits_per_second(), 11_200);
    assert_eq!(o.decide(), Decision::Run);
    assert_eq!(o.total_packets(), 25);
    assert_eq!(o.receive_seconds(), 8);
    assert_eq!(o.run_seconds(), 9);
}

#[test]
fn audio_call_on_200_connections() {
    let mut o = Opt { audio_override: true, num_connections: 200, duration: 120, ..Opt::default() };
    assert_eq!(o.apply_overrides(), Ok(()));
    assert_eq!((o.packets_per_second, o.packet_size), (16, 192));
    assert_eq!(o.bits_per_second(), 11_878_400);
    let mbps = o.bits_per_second() as f64 / 1000.0 / 1000.0;
    assert_eq!(format!("{:.3}", mbps), "11.878");
    assert_eq!(format!("{:.3}", mbps * 120.0 / 9.0), "158.379");
    assert_eq!(o.total_packets(), 384_000);
    assert_eq!(o.decide(), Decision::Refuse);
    o.force = true;
    assert_eq!(o.decide(), Decision::Run);
}

#[test]
fn video_call() {
    let mut o = Opt { video_override: true, ..Opt::default() };
    assert_eq!(o.apply_overrides(), Ok(()));
    assert_eq!((o.packets_per_second, o.packet_size), (90, 960));
    let once = o;
    assert_eq!(o.apply_overrides(), Ok(()));
    assert_eq!(o, once);
}

#[test]
fn no_override_changes_nothing() {
    let mut o = opt(3, 4, 5, 6);
    assert_eq!(o.apply_overrides(), Ok(()));
    assert_eq!(o, opt(3, 4, 5, 6));
}

#[test]
fn audio_and_video_at_once() {
    let mut o = Opt { video_override: true, audio_override: true, ..Opt::default() };
    let before = o;
    assert_eq!(o.apply_overrides(), Err(OptError::AudioAndVideo));
    assert_eq!(o, before);
    assert_eq!(OptError::AudioAndVideo.message(), "Both --audio and --video is meaningless");
    assert_eq!(
        OptError::TooLarge.message(),
        "Refusing to run test of that scale. Use --force to override."
    );
}

#[test]
fn only_calculating_wins() {
    let o = Opt { only_calc: true, force: true, ..opt(1000, 1000, 1000, 1000) };
    assert_eq!(o.decide(), Decision::CalculateOnly);
    assert!(o.announces_load());
    assert!(!Opt { json_mode: true, ..o }.announces_load());
    assert!(Opt { json_mode: true, ..Opt::default() }.announces_load());
}

#[test]
fn limits_at_their_edges() {
    // 50 megabits per second
    assert!(!opt(3125, 1, 960, 1).exceeds_limits());
    assert!(opt(3125, 1, 961, 1).exceeds_limits());
    // 100 megabytes
    assert!(!opt(5, 5, 1210, 1800).exceeds_limits());
    assert!(opt(5, 5, 1210, 1801).exceeds_limits());
}

#[test]
fn limits_agree_with_double_precision() {
    // every load and duration that come to exactly 100 megabytes
    let whole: u64 = 56_250_000;
    let mut equal = 0;
    for m in 1..=whole {
        if whole % m != 0 {
            continue;
        }
        if m < 40 {
            continue;
        }
        let duration = whole / m;
        let size = (m - 40) as usize;
        equal += 1;
        for d in [duration - 1, duration, duration + 1] {
            assert_eq!(opt(1, 1, size, d).exceeds_limits(), beyond(1, 1, size, d), "{} {}", m, d);
        }
    }
    assert!(equal > 100);
    assert!(opt(1, 1, 0, 1_406_250).exceeds_limits());
    assert!(opt(2, 1, 0, 703_125).exceeds_limits());
    assert!(opt(1, 1, 40, 703_125).exceeds_limits());
    for pps in [0u32, 1, 5, 16, 90, 1000, 100_000] {
        for conns in [0usize, 1, 7, 200, 5000] {
            for size in [0usize, 16, 100, 192, 960, 1400, 65_000] {
                for d in [0u64, 1, 5, 120, 3600, 1 << 40, u64::MAX] {
                    assert_eq!(
                        opt(pps, conns, size, d).exceeds_limits(),
                        beyond(pps, conns, size, d)
                    );
                }
            }
        }
    }
}

#[test]
fn larger_tests_exceed_too() {
    let small = opt(100, 100, 600, 1000);
    assert!(small.exceeds_limits());
    assert!(opt(101, 100, 600, 1000).exceeds_limits());
    assert!(opt(100, 100, 600, 1001).exceeds_limits());
    assert!(opt(101, 107, 1200, 3000).exceeds_limits());
}

#[test]
fn figures_that_do_not_fit() {
    let o = Opt::default();
    assert_eq!(o.checked_bits_per_second(), Some(11_200));
    assert_eq!(opt(1, 1, usize::MAX, 1).checked_bits_per_second(), None);
    assert_eq!(opt(0, 1, usize::MAX, 1).checked_bits_per_second(), None);
    assert_eq!(opt(0, usize::MAX, 0, 1).checked_bits_per_second(), Some(0));
    assert_eq!(opt(u32::MAX, 1 << 40, 0, 1).checked_bits_per_second(), None);
    assert_eq!(o.checked_total_packets(), Some(25));
    assert_eq!(opt(u32::MAX, 1, 0, 1 << 33).checked_total_packets(), None);
    assert_eq!(opt(u32::MAX, 0, 0, 1 << 33).checked_total_packets(), None);
    assert_eq!(opt(1, 1, 0, u64::MAX).checked_total_packets(), Some(u64::MAX));
    assert_eq!(o.checked_receive_seconds(), Some(8));
    assert_eq!(opt(1, 1, 0, u64::MAX - 2).checked_receive_seconds(), None);
    assert_eq!(opt(1, 1, 0, u64::MAX - 3).checked_receive_seconds(), Some(u64::MAX));
    assert_eq!(o.checked_run_seconds(), Some(9));
    assert_eq!(opt(1, 1, 0, u64::MAX - 3).checked_run_seconds(), None);
    assert_eq!(opt(1, 1, 0, u64::MAX - 4).checked_run_seconds(), Some(u64::MAX));
}
