use vivoh_quic_dash::timestamp::{format_timestamp, timestamp_millis};

fn float_millis(ticks: u64, timescale: u32) -> u64 {
    let seconds = ticks as f64 / timescale as f64;
    (seconds * 1000.0).round() as u64
}

#[test]
fn millis_agree_with_doubles() {
    let mut x: u64 = 0x9E37_79B9_7F4A_7C15;
    let mut i: u64 = 0;
    while i < 200_000 {
        x ^= x << 13;
        x ^= x >> 7;
        x ^= x << 17;
        let ticks = x >> (i % 64);
        let timescale = ((x.wrapping_mul(0x2545_F491_4F6C_DD1D)) >> 32) as u32 >> ((i / 64) % 32);
        assert_eq!(timestamp_millis(ticks, timescale), float_millis(ticks, timescale));
        i += 1;
    }
}

#[test]
fn millis_at_half_ticks_agree_with_doubles() {
    let mut ticks: u64 = 15;
    while ticks < 3_000_000 {
        assert_eq!(timestamp_millis(ticks, 30_000), float_millis(ticks, 30_000));
        ticks += 30;
    }
}

#[test]
fn timestamp_at_extremes() {
    let mut i: u64 = 0;
    while i < 70 {
        let ticks = u64::MAX - i;
        assert_eq!(timestamp_millis(ticks, 1), float_millis(ticks, 1));
        assert_eq!(timestamp_millis(ticks, u32::MAX), float_millis(ticks, u32::MAX));
        assert_eq!(timestamp_millis(ticks, 44_100), float_millis(ticks, 44_100));
        assert_eq!(timestamp_millis(i, u32::MAX), float_millis(i, u32::MAX));
        i += 1;
    }
    assert_eq!(timestamp_millis(0, 0), 0);
    assert_eq!(timestamp_millis(7, 0), u64::MAX);
}

#[test]
fn timestamp_text() {
    assert_eq!(format_timestamp(0, 30_000), "00:00:00.000");
    assert_eq!(format_timestamp(30_000, 30_000), "00:00:01.000");
    assert_eq!(format_timestamp(30_000 * 3661 + 15_000, 30_000), "01:01:01.500");
    assert_eq!(format_timestamp(30_000 * 3600 * 123, 30_000), "123:00:00.000");
    assert_eq!(format_timestamp(1, 0), "5124095576030:25:51.615");
}

#[test]
fn later_ticks_are_not_shown_earlier() {
    for timescale in [1u32, 3, 1_000, 30_000, 44_100, 90_000, u32::MAX] {
        for bits in 0..64u32 {
            let base = 1u64 << bits;
            let mut last = timestamp_millis(base.saturating_sub(40), timescale);
            for step in 0..80u64 {
                let ticks = base.saturating_sub(40).saturating_add(step);
                let now = timestamp_millis(ticks, timescale);
                assert!(last <= now, "{ticks} at {timescale}");
                last = now;
            }
        }
    }
}

#[test]
fn fields_of_the_clock_add_up() {
    for ticks in [0u64, 1, 14, 15, 29_999, 30_000, 107_999_999, 3_599_999_985, u64::MAX / 7] {
        let text = format_timestamp(ticks, 30_000);
        let fields: Vec<u64> = text.split([':', '.']).map(|f| f.parse().unwrap()).collect();
        assert_eq!(fields.len(), 4);
        assert_eq!(
            3_600_000 * fields[0] + 60_000 * fields[1] + 1000 * fields[2] + fields[3],
            timestamp_millis(ticks, 30_000)
        );
    }
}

#[test]
fn doubled_clock_shows_the_same_time() {
    for ticks in [0u64, 1, 7, 12_345, 0x1F_FFFF_FFFF_FFFF, u64::MAX / 2] {
        for timescale in [0u32, 1, 3, 30_000, 44_100, u32::MAX / 2] {
            assert_eq!(
                timestamp_millis(2 * ticks, 2 * timescale),
                timestamp_millis(ticks, timescale)
            );
        }
    }
}
