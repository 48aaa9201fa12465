use oxide_boot::abi::{Framebuffer, Options, PixelFormat};
use oxide_boot::console::{
    capture_timestamp, format_timestamp_prefix, init, write_decimal, write_fixed_width_decimal,
    ConsoleInitError, ConsoleStorage, History, LineBuffer, LineSlot, Timestamp,
    HISTORY_CAPACITY, MAX_LINE_CHARS,
};
use oxide_boot::framebuffer::draw::FramebufferColor;
use oxide_boot::options::{debug_enabled, diagnostics_enabled, quiet_enabled};
use oxide_boot::time::{
    init_tsc_monotonic, monotonic_nanos, monotonic_ticks, MonotonicClock, MonotonicInitError,
};

fn record(width: u32, height: u32) -> Framebuffer {
    Framebuffer {
        base_address: 0x1000,
        buffer_size: (width as u64) * (height as u64) * 4,
        width,
        height,
        pixels_per_scanline: width,
        pixel_format: PixelFormat::Bgr,
    }
}

#[test]
fn test_options_flags() {
    let flags = oxide_boot::options::init(Options { debug: 1, quiet: 0 });
    assert!(debug_enabled(&flags));
    assert!(!quiet_enabled(&flags));
    assert!(diagnostics_enabled(&flags));

    let flags = oxide_boot::options::init(Options { debug: 0, quiet: 1 });
    assert!(!debug_enabled(&flags));
    assert!(quiet_enabled(&flags));
    assert!(!diagnostics_enabled(&flags));

    let flags = oxide_boot::options::init(Options { debug: 1, quiet: 1 });
    assert!(debug_enabled(&flags));
    assert!(quiet_enabled(&flags));
    assert!(!diagnostics_enabled(&flags));

    let flags = oxide_boot::options::init(Options { debug: 0, quiet: 0 });
    assert!(!debug_enabled(&flags));
    assert!(!quiet_enabled(&flags));
    assert!(!diagnostics_enabled(&flags));
}

#[test]
fn any_nonzero_option_byte_means_on() {
    let flags = oxide_boot::options::init(Options { debug: 0x80, quiet: 2 });
    assert!(debug_enabled(&flags));
    assert!(quiet_enabled(&flags));
    assert_eq!(Options::default(), Options { debug: 0, quiet: 0 });
}

#[test]
fn decimal_digits_are_written_highest_first() {
    let mut out = vec![b'>'];
    assert_eq!(write_decimal(&mut out, 0), 1);
    assert_eq!(write_decimal(&mut out, 907), 3);
    assert_eq!(write_decimal(&mut out, u64::MAX), 20);
    assert_eq!(out, b">090718446744073709551615".to_vec());
    let mut fixed = Vec::new();
    assert_eq!(write_fixed_width_decimal(&mut fixed, 42, 6), 6);
    assert_eq!(write_fixed_width_decimal(&mut fixed, 1_234_567, 3), 3);
    assert_eq!(write_fixed_width_decimal(&mut fixed, 9, 0), 0);
    assert_eq!(fixed, b"000042567".to_vec());
}

#[test]
fn timestamp_prefix_shows_seconds_and_microseconds() {
    let nanos = Timestamp { value: 12_345_678_901, is_nanos: true };
    assert_eq!(format_timestamp_prefix(nanos), b"[12.345678] ".to_vec());
    let ticks = Timestamp { value: 12_345_678_901, is_nanos: false };
    assert_eq!(format_timestamp_prefix(ticks), b"[12345678901] ".to_vec());
    let zero = Timestamp { value: 0, is_nanos: true };
    assert_eq!(format_timestamp_prefix(zero), b"[0.000000] ".to_vec());
    let longest = Timestamp { value: u64::MAX, is_nanos: false };
    assert_eq!(format_timestamp_prefix(longest).len(), 23);
}

#[test]
fn clock_counts_ticks_and_nanoseconds() {
    let clock = MonotonicClock::from_tsc(Some(2_000_000_000), 1_000);
    assert_eq!(clock.elapsed_ticks(5_000), 4_000);
    assert_eq!(clock.elapsed_ticks(999), u64::MAX);
    assert_eq!(clock.nanoseconds_since_start(5_000), Some(2_000));
    let slow = MonotonicClock::from_tsc(Some(1), 0);
    assert_eq!(slow.nanoseconds_since_start(18_446_744_073), Some(18_446_744_073_000_000_000));
    assert_eq!(slow.nanoseconds_since_start(18_446_744_074), None);
    let unknown = MonotonicClock::from_tsc(None, 0);
    assert_eq!(unknown.nanoseconds_since_start(5), None);
    let broken = MonotonicClock { baseline_ticks: 0, frequency_hz: Some(0) };
    assert_eq!(broken.nanoseconds_since_start(5), None);
}

#[test]
fn clock_is_set_up_once() {
    assert_eq!(
        init_tsc_monotonic(&None, Some(3_000), 77),
        Ok(MonotonicClock { baseline_ticks: 77, frequency_hz: Some(3_000) })
    );
    assert_eq!(
        init_tsc_monotonic(&None, None, 77),
        Ok(MonotonicClock { baseline_ticks: 77, frequency_hz: None })
    );
    assert_eq!(
        init_tsc_monotonic(&None, Some(0), 77),
        Err(MonotonicInitError::InvalidFrequency { requested_hz: 0 })
    );
    let installed = Some(MonotonicClock { baseline_ticks: 1, frequency_hz: None });
    assert_eq!(
        init_tsc_monotonic(&installed, Some(0), 77),
        Err(MonotonicInitError::AlreadyInitialized)
    );
    assert_eq!(monotonic_ticks(&installed, 11), Some(10));
    assert_eq!(monotonic_nanos(&installed, 11), None);
    assert_eq!(monotonic_ticks(&None, 11), None);
    assert_eq!(monotonic_nanos(&None, 11), None);
}

#[test]
fn timestamps_prefer_nanoseconds() {
    let known = Some(MonotonicClock { baseline_ticks: 100, frequency_hz: Some(1_000_000) });
    assert_eq!(capture_timestamp(&known, 1_100), Timestamp { value: 1_000_000, is_nanos: true });
    let unknown = Some(MonotonicClock { baseline_ticks: 100, frequency_hz: None });
    assert_eq!(capture_timestamp(&unknown, 1_100), Timestamp { value: 1_000, is_nanos: false });
    assert_eq!(capture_timestamp(&None, 1_100), Timestamp { value: 0, is_nanos: false });
}

#[test]
fn line_buffer_holds_160_bytes() {
    let mut line = LineBuffer::new();
    line.extend_from_slice(&[b'x'; 100]);
    line.push(b'y');
    line.extend_from_slice(&[b'z'; 100]);
    assert_eq!(line.len(), MAX_LINE_CHARS);
    line.push(b'!');
    assert_eq!(line.len(), 160);
    assert_eq!(line.as_slice()[100], b'y');
    assert_eq!(line.as_slice()[159], b'z');
    line.clear();
    assert_eq!(line.len(), 0);
}

#[test]
fn line_slot_keeps_the_start_of_a_line_and_zeroes_the_rest() {
    let mut slot = LineSlot::empty();
    let stamp = Timestamp { value: 5, is_nanos: true };
    slot.write(stamp, &[7u8; 200]);
    assert_eq!(slot.len, 160);
    assert!(slot.data.iter().all(|&b| b == 7));
    slot.write(stamp, b"abc");
    assert_eq!(slot.len, 3);
    assert_eq!(slot.timestamp, stamp);
    assert_eq!(&slot.data[..3], b"abc");
    assert!(slot.data[3..].iter().all(|&b| b == 0));
}

#[test]
fn history_keeps_the_last_lines() {
    let mut history = History::new(vec![LineSlot::empty(); 3]);
    for i in 0..5u64 {
        history.push(Timestamp { value: i, is_nanos: false }, &[i as u8; 2]);
        assert_eq!(history.len(), (i as usize + 1).min(3));
    }
    let mut none = History::new(Vec::new());
    none.push(Timestamp { value: 1, is_nanos: false }, b"lost");
    assert_eq!(none.len(), 0);
    assert_eq!(ConsoleStorage::required_bytes(), 128 * 184);
    assert_eq!(ConsoleStorage::new().into_slots().len(), HISTORY_CAPACITY);
}

#[test]
fn console_puts_the_time_in_front_of_each_line() {
    let fb = record(320, 100);
    let mut pixels = vec![0u32; 320 * 100];
    let mut console =
        init(false, fb, &mut pixels, FramebufferColor::white(), ConsoleStorage::new()).unwrap();
    assert_eq!(console.history_len(), 0);
    let now = Timestamp { value: 1_500_000_000, is_nanos: true };
    console.handle_str(&mut pixels, b"hi", now).unwrap();
    assert_eq!(console.current_line(), b"[1.500000] HI");
    assert_eq!(console.history_len(), 0);
    let later = Timestamp { value: 9_000_000_000, is_nanos: true };
    console.handle_str(&mut pixels, b" there\nnext", later).unwrap();
    assert_eq!(console.history_len(), 1);
    assert_eq!(console.current_line(), b"[9.000000] NEXT");
    console.handle_byte(&mut pixels, b'\r', later).unwrap();
    assert_eq!(console.current_line(), b"");
    assert_eq!(console.history_len(), 1);
    console.handle_byte(&mut pixels, b'\n', later).unwrap();
    assert_eq!(console.history_len(), 2);
    assert!(pixels.iter().any(|&p| p == 0xffff_ffff));
}

#[test]
fn console_wraps_lines_at_the_last_column() {
    // Forty columns: the time takes eleven of them.
    let fb = record(320, 100);
    let mut pixels = vec![0u32; 320 * 100];
    let mut console =
        init(false, fb, &mut pixels, FramebufferColor::white(), ConsoleStorage::new()).unwrap();
    let now = Timestamp { value: 0, is_nanos: true };
    console.handle_str(&mut pixels, &[b'x'; 29], now).unwrap();
    assert_eq!(console.history_len(), 0);
    assert_eq!(console.current_line().len(), 40);
    console.handle_byte(&mut pixels, b'y', now).unwrap();
    assert_eq!(console.history_len(), 1);
    assert_eq!(console.current_line(), b"[0.000000] Y");
}

#[test]
fn console_is_refused_without_room_or_twice() {
    let mut pixels = vec![0u32; 320 * 100];
    assert_eq!(
        init(true, record(320, 100), &mut pixels, FramebufferColor::white(), ConsoleStorage::new())
            .err(),
        Some(ConsoleInitError::AlreadyInitialized)
    );
    assert_eq!(
        init(false, record(320, 20), &mut pixels, FramebufferColor::white(), ConsoleStorage::new())
            .err(),
        Some(ConsoleInitError::FramebufferUnavailable)
    );
    let mut short = vec![0u32; 320 * 50];
    assert_eq!(
        init(false, record(320, 100), &mut short, FramebufferColor::white(), ConsoleStorage::new())
            .err(),
        Some(ConsoleInitError::FramebufferUnavailable)
    );
    assert!(short.iter().all(|&p| p == 0));
}
