use jelly_engine::{palette_code, parse_hex, FrameLimiter, HtmlColorConversionError, Time, TimingSystem};

#[test]
fn hex_color_parses_channels() {
    assert_eq!(parse_hex("#1D2B53"), Ok((0x1d, 0x2b, 0x53)));
    assert_eq!(parse_hex("#ff004d"), Ok((255, 0, 77)));
    assert_eq!(parse_hex("#000000"), Ok((0, 0, 0)));
}

#[test]
fn hex_color_errors() {
    assert_eq!(parse_hex(""), Err(HtmlColorConversionError::InvalidStringLength));
    assert_eq!(parse_hex("123456"), Err(HtmlColorConversionError::MissingHash));
    assert_eq!(parse_hex("#12"), Err(HtmlColorConversionError::InvalidStringLength));
    assert_eq!(parse_hex("#12G456"), Err(HtmlColorConversionError::InvalidCharacter));
    assert_eq!(parse_hex("#1234567"), Err(HtmlColorConversionError::InvalidStringLength));
    assert_eq!(parse_hex("#1x"), Err(HtmlColorConversionError::InvalidCharacter));
}

#[test]
fn frame_limiter_divides_a_second() {
    let l = FrameLimiter::new(60);
    assert_eq!(l.fps, 60);
    assert_eq!(l.frame_duration, 16_666_666);
    assert_eq!(FrameLimiter::default(), l);
    assert_eq!(FrameLimiter::new(1).frame_duration, 1_000_000_000);
}

#[test]
fn time_starts_at_one_second() {
    assert_eq!(Time::new().delta, 1_000_000_000);
}

#[test]
fn timing_without_limiter_never_sleeps() {
    let mut t = TimingSystem::new(100);
    assert_eq!(t.sleep_needed(150), None);
    assert_eq!(t.finish(150, None), 50);
    assert_eq!(t.last_call, 150);
}

#[test]
fn timing_with_limiter_sleeps_out_the_frame() {
    let mut t = TimingSystem::new(0).with_limiter(FrameLimiter::new(100));
    t.init(1_000);
    assert_eq!(t.sleep_needed(4_001_000), Some(6_000_000));
    assert_eq!(t.finish(4_001_000, Some(10_001_000)), 14_000_000);
    assert_eq!(t.last_call, 10_001_000);
    assert_eq!(t.sleep_needed(30_001_000), None);
}

#[test]
fn palette_names_map_to_codes() {
    assert_eq!(palette_code("red"), Some("#FF004D"));
    assert_eq!(palette_code("light_peach"), Some("#FFCCAA"));
    assert_eq!(palette_code("black"), Some("#000000"));
    assert_eq!(palette_code("purple"), None);
    assert_eq!(palette_code(""), None);
    assert_eq!(parse_hex(palette_code("blue").unwrap()), Ok((0x29, 0xad, 0xff)));
}
