use dexopt_status::display::{centre_padding, frame_padding, is_emphasised, status_tone, Tone};

#[test]
fn tones_follow_the_status() {
    assert_eq!(status_tone("speed-profile"), Tone::Green);
    assert_eq!(status_tone("speed"), Tone::Green);
    assert_eq!(status_tone("verify"), Tone::Yellow);
    assert_eq!(status_tone("quicken"), Tone::Blue);
    assert_eq!(status_tone("run-from-apk"), Tone::Red);
    assert_eq!(status_tone("error"), Tone::Red);
    assert_eq!(status_tone("everything"), Tone::Magenta);
    assert_eq!(status_tone("unknown"), Tone::White);
    assert_eq!(status_tone("speed "), Tone::White);
}

#[test]
fn only_error_is_emphasised() {
    assert!(is_emphasised("error"));
    assert!(!is_emphasised("errors"));
    assert!(!is_emphasised("verify"));
}

#[test]
fn frame_is_at_least_forty_wide() {
    assert_eq!(frame_padding(10), (40, 15, 15));
    assert_eq!(frame_padding(11), (40, 14, 15));
    assert_eq!(frame_padding(36), (40, 2, 2));
    assert_eq!(frame_padding(50), (54, 2, 2));
}

#[test]
fn centring_rounds_the_left_half_down() {
    assert_eq!(centre_padding(47, 23), (12, 12));
    assert_eq!(centre_padding(47, 17), (15, 15));
    assert_eq!(centre_padding(10, 3), (3, 4));
    assert_eq!(centre_padding(5, 5), (0, 0));
}

#[test]
fn record_lines_align_on_their_first_colon() {
    let analyzer = dexopt_status::dump::Analyzer::new(
        "[p]\n arm: [status=verify]\n arm64: [status=speed] a:b\n",
    );
    let infos = analyzer.get_info("p").unwrap();
    let width = dexopt_status::display::record_colon_width(infos);
    assert_eq!(width, 5);
    assert_eq!(
        dexopt_status::display::align_record_line(&infos[0].raw_line, width),
        "arm  : [status=verify]"
    );
    assert_eq!(
        dexopt_status::display::align_record_line(&infos[1].raw_line, width),
        "arm64: [status=speed] a:b"
    );
    assert_eq!(dexopt_status::display::align_record_line("no colon", 9), "no colon");
    assert_eq!(dexopt_status::display::align_record_line("long:x", 2), "long:x");
}
