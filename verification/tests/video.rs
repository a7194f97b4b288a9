use vellum::keys::Key;
use vellum::video::{
    fmt_mmss, frame_step, poster_dims, probe_dims, scaled_dims, target_w, video_key, FrameStep,
    VideoCmd,
};

#[test]
fn probe_frame_size() {
    assert_eq!(probe_dims(b"1920\n1080\n30/1\n5.0\n"), (1920, 1080));
    assert_eq!(probe_dims(b" 640 \nx\n"), (640, 720));
    assert_eq!(probe_dims(b""), (1280, 720));
}

#[test]
fn playback_sizes() {
    assert_eq!(scaled_dims(800, 1920, 1080), (800, 450));
    assert_eq!(scaled_dims(100, 1920, 1080), (160, 90));
    assert_eq!(scaled_dims(2001, 0, 0), (1000, 562));
    assert_eq!(scaled_dims(801, 1000, 1), (800, 2));
}

#[test]
fn poster_sizes() {
    assert_eq!(poster_dims(1000, 563), (900, 506));
    assert_eq!(poster_dims(800, 1), (800, 2));
}

#[test]
fn terminal_width() {
    assert_eq!(target_w(Some((0, 100))), 800);
    assert_eq!(target_w(Some((1200, 10))), 1200);
    assert_eq!(target_w(None), 800);
}

#[test]
fn clock_text() {
    assert_eq!(fmt_mmss(0), "00:00");
    assert_eq!(fmt_mmss(65), "01:05");
    assert_eq!(fmt_mmss(6000), "100:00");
}

#[test]
fn keys_to_commands() {
    assert!(video_key(Key::Char('q')) == VideoCmd::Quit);
    assert!(video_key(Key::Char(' ')) == VideoCmd::Toggle);
    assert!(video_key(Key::Right) == VideoCmd::SeekSecs(5));
    assert!(video_key(Key::Char('j')) == VideoCmd::SeekSecs(-30));
    assert!(video_key(Key::Char(',')) == VideoCmd::SeekFrames(-1));
    assert!(video_key(Key::End) == VideoCmd::End);
    assert!(video_key(Key::Char('z')) == VideoCmd::Nothing);
}

#[test]
fn decoder_state_to_player_step() {
    assert!(frame_step(true, 5, 4, true) == FrameStep::Stop);
    assert!(frame_step(false, 5, 4, true) == FrameStep::Show);
    assert!(frame_step(false, 4, 4, true) == FrameStep::Wait);
    assert!(frame_step(false, 5, 4, false) == FrameStep::Wait);
}
