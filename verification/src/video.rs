//! The video viewer's integer logic: frame sizes for playback and posters,
//! the probe's frame size, clock text and key commands. Timing, positions
//! and rates are floating point and stand outside, with ffmpeg.
use vstd::prelude::*;
use crate::keys::Key;
use crate::text::{lines_spec, lossy_text, parse_usize, parse_usize_spec, push_char, push_decimal, decimal, split_lines, trim, trimmed, chars_of, utf8_lossy};

verus! {

/// Widest playback frame, in pixels.
pub const MAX_PLAY_W: u32 = 1000;

/// What `str::parse::<u32>` yields for these characters.
pub open spec fn parse_u32_spec(s: Seq<char>) -> Option<u32> {
    match parse_usize_spec(s) {
        Some(v) => if v <= u32::MAX { Some(v as u32) } else { None },
        None => None,
    }
}

/// The frame size in ffprobe's report (width and height on its first two
/// lines), each defaulting (to 1280 by 720) where its line is missing or does
/// not parse.
pub open spec fn probe_dims_spec(out: Seq<u8>) -> (u32, u32) {
    let ls = lines_spec(lossy_text(out));
    let w = if ls.len() > 0 { parse_u32_spec(trim(ls[0])) } else { None };
    let h = if ls.len() > 1 { parse_u32_spec(trim(ls[1])) } else { None };
    (
        match w {
            Some(x) => x,
            None => 1280,
        },
        match h {
            Some(x) => x,
            None => 720,
        },
    )
}

fn parse_u32_line(l: &String) -> (r: Option<u32>)
    ensures
        r == parse_u32_spec(trim(l@)),
{
    let v = chars_of(l.as_str());
    let t = trimmed(v.as_slice());
    match parse_usize(t.as_slice()) {
        Some(x) => if x <= 4294967295 { Some(x as u32) } else { None },
        None => None,
    }
}

/// The frame size in ffprobe's report.
pub fn probe_dims(out: &[u8]) -> (r: (u32, u32))
    ensures
        r == probe_dims_spec(out@),
{
    let text = utf8_lossy(out);
    let ls = split_lines(text.as_str());
    let w = if ls.len() > 0 { parse_u32_line(&ls[0]) } else { None };
    let h = if ls.len() > 1 { parse_u32_line(&ls[1]) } else { None };
    (
        match w {
            Some(x) => x,
            None => 1280,
        },
        match h {
            Some(x) => x,
            None => 720,
        },
    )
}

/// `x` rounded down to even.
pub open spec fn even(x: u32) -> u32 {
    (x - x % 2) as u32
}

/// Playback frame size: the target width within 160 to `MAX_PLAY_W`, the
/// height keeping the video's aspect (a 16:9 guess when its width is zero,
/// the quotient cut to 32 bits as a cast does), at least two, both even.
pub open spec fn scaled_dims_spec(target_w: u32, vw: u32, vh: u32) -> (u32, u32) {
    let w: u32 = if target_w < 160 { 160 } else if target_w > 1000 { 1000 } else { target_w };
    let h: u32 = if vw > 0 { ((w as int * vh as int) / vw as int) as u32 } else { (w * 9 / 16) as u32 };
    (even(w), even(if h < 2 { 2 } else { h }))
}

/// Playback frame size for a terminal `target_w` pixels wide and a video of
/// `vw` by `vh`.
pub fn scaled_dims(target_w: u32, vw: u32, vh: u32) -> (r: (u32, u32))
    ensures
        r == scaled_dims_spec(target_w, vw, vh),
        r.0 % 2 == 0 && 160 <= r.0 <= 1000,
        r.1 % 2 == 0 && r.1 >= 2,
{
    let w: u32 = if target_w < 160 { 160 } else if target_w > MAX_PLAY_W { MAX_PLAY_W } else { target_w };
    assert(w as int * vh as int <= 1000 * 4294967295) by (nonlinear_arith)
        requires
            w <= 1000,
            vh <= 4294967295,
    ;
    let h: u32 = if vw > 0 { ((w as u64 * vh as u64) / vw as u64) as u32 } else { w * 9 / 16 };
    let h2: u32 = if h < 2 { 2 } else { h };
    (w - w % 2, h2 - h2 % 2)
}

/// A poster frame at most 900 pixels wide: a wider frame is scaled down
/// (height cut to even), and the height is at least two.
pub open spec fn poster_dims_spec(w: u32, h: u32) -> (u32, u32) {
    let (w2, h2) = if w > 900 { (900u32, even(((900 * h as int) / w as int) as u32)) } else { (w, h) };
    (w2, if h2 < 2 { 2 } else { h2 })
}

/// Size of a poster frame from a playback frame size.
pub fn poster_dims(w: u32, h: u32) -> (r: (u32, u32))
    ensures
        r == poster_dims_spec(w, h),
        r.0 <= 900 || r.0 == w,
        r.1 >= 2,
{
    let (w2, h2) = if w > 900 {
        let x = ((900u64 * h as u64) / w as u64) as u32;
        (900u32, x - x % 2)
    } else {
        (w, h)
    };
    (w2, if h2 < 2 { 2 } else { h2 })
}

/// Target width in pixels: the terminal's pixel width, or eight per column
/// when it reports none; 800 when the size is unknown.
pub open spec fn target_w_spec(size: Option<(u16, u16)>) -> u32 {
    match size {
        Some((px, cols)) => if px > 0 { px as u32 } else { (cols * 8) as u32 },
        None => 800,
    }
}

/// Target width in pixels, from the terminal's (pixel width, columns).
pub fn target_w(size: Option<(u16, u16)>) -> (w: u32)
    ensures
        w == target_w_spec(size),
{
    match size {
        Some((px, cols)) => if px > 0 { px as u32 } else { cols as u32 * 8 },
        None => 800,
    }
}

/// `n` in decimal, at least two digits.
pub open spec fn two_digits(n: nat) -> Seq<char> {
    if n < 10 { seq!['0'] + decimal(n) } else { decimal(n) }
}

/// A clock reading `mm:ss` of whole seconds (minutes may run past 99).
pub open spec fn mmss_spec(secs: u64) -> Seq<char> {
    two_digits((secs / 60) as nat) + seq![':'] + two_digits((secs % 60) as nat)
}

/// A clock reading of whole seconds.
pub fn fmt_mmss(secs: u64) -> (s: String)
    ensures
        s@ == mmss_spec(secs),
{
    let mut s = String::new();
    let m = secs / 60;
    let r = secs % 60;
    if m < 10 {
        push_char(&mut s, '0');
    }
    push_decimal(&mut s, m);
    push_char(&mut s, ':');
    if r < 10 {
        push_char(&mut s, '0');
    }
    push_decimal(&mut s, r);
    assert(s@ =~= mmss_spec(secs));
    s
}

/// What a key asks of the player.
#[derive(Clone, Copy, PartialEq, Eq, Structural)]
pub enum VideoCmd {
    Nothing,
    Quit,
    /// Pause, or play from the current position.
    Toggle,
    /// Seek by this many seconds.
    SeekSecs(i32),
    /// Seek by this many frames of the playback rate.
    SeekFrames(i32),
    /// Seek to the start.
    Start,
    /// Seek to one second before the end.
    End,
}

/// The command for a key.
pub open spec fn video_key_spec(k: Key) -> VideoCmd {
    if k == Key::Char('q') || k == Key::Esc {
        VideoCmd::Quit
    } else if k == Key::Char(' ') {
        VideoCmd::Toggle
    } else if k == Key::Right || k == Key::Char('l') {
        VideoCmd::SeekSecs(5i32)
    } else if k == Key::Left || k == Key::Char('h') {
        VideoCmd::SeekSecs(-5 as i32)
    } else if k == Key::Up || k == Key::Char('k') {
        VideoCmd::SeekSecs(30i32)
    } else if k == Key::Down || k == Key::Char('j') {
        VideoCmd::SeekSecs(-30 as i32)
    } else if k == Key::Char('.') {
        VideoCmd::SeekFrames(1i32)
    } else if k == Key::Char(',') {
        VideoCmd::SeekFrames(-1 as i32)
    } else if k == Key::Char('g') || k == Key::Home {
        VideoCmd::Start
    } else if k == Key::Char('G') || k == Key::End {
        VideoCmd::End
    } else {
        VideoCmd::Nothing
    }
}

/// The command for a key.
pub fn video_key(k: Key) -> (c: VideoCmd)
    ensures
        c == video_key_spec(k),
{
    if k == Key::Char('q') || k == Key::Esc {
        VideoCmd::Quit
    } else if k == Key::Char(' ') {
        VideoCmd::Toggle
    } else if k == Key::Right || k == Key::Char('l') {
        VideoCmd::SeekSecs(5)
    } else if k == Key::Left || k == Key::Char('h') {
        VideoCmd::SeekSecs(-5)
    } else if k == Key::Up || k == Key::Char('k') {
        VideoCmd::SeekSecs(30)
    } else if k == Key::Down || k == Key::Char('j') {
        VideoCmd::SeekSecs(-30)
    } else if k == Key::Char('.') {
        VideoCmd::SeekFrames(1)
    } else if k == Key::Char(',') {
        VideoCmd::SeekFrames(-1)
    } else if k == Key::Char('g') || k == Key::Home {
        VideoCmd::Start
    } else if k == Key::Char('G') || k == Key::End {
        VideoCmd::End
    } else {
        VideoCmd::Nothing
    }
}


/// What the player does with the decoder's latest state while playing.
#[derive(Clone, Copy, PartialEq, Eq, Structural)]
pub enum FrameStep {
    /// Nothing new.
    Wait,
    /// Show the decoder's newest frame and take its position and generation.
    Show,
    /// The stream ended: stop playing.
    Stop,
}

/// The decoder ended the stream, or it holds a frame of a generation other
/// than the one shown.
pub open spec fn frame_step_spec(ended: bool, generation: u64, shown: u64, has_frame: bool) -> FrameStep {
    if ended {
        FrameStep::Stop
    } else if generation != shown && has_frame {
        FrameStep::Show
    } else {
        FrameStep::Wait
    }
}

/// What to do with the decoder's latest state.
pub fn frame_step(ended: bool, generation: u64, shown: u64, has_frame: bool) -> (s: FrameStep)
    ensures
        s == frame_step_spec(ended, generation, shown, has_frame),
{
    if ended {
        FrameStep::Stop
    } else if generation != shown && has_frame {
        FrameStep::Show
    } else {
        FrameStep::Wait
    }
}

} // verus!
