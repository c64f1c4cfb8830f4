use ruzik::player::{contains_chars, decide_frame, is_supported_audio};
use ruzik::plugin::State;

#[test]
fn supported_extensions() {
    assert!(is_supported_audio("assets/test.mp3"));
    assert!(is_supported_audio("/music/a.flac"));
    assert!(is_supported_audio("x.wav"));
    assert!(is_supported_audio("voice.opus"));
    assert!(is_supported_audio("track.ogg"));
}

#[test]
fn unsupported_paths() {
    assert!(!is_supported_audio("notes.txt"));
    assert!(!is_supported_audio(""));
    assert!(!is_supported_audio("song.MP3"));
    assert!(!is_supported_audio("mp3"));
    assert!(!is_supported_audio(".mp"));
}

#[test]
fn extension_anywhere_in_path_counts() {
    assert!(is_supported_audio("backup.mp3.old"));
    assert!(is_supported_audio("dir.ogg/readme"));
    assert!(is_supported_audio("ünïcode/ß.wav"));
}

#[test]
fn contains_chars_cases() {
    let text: Vec<char> = "abcabd".chars().collect();
    assert!(contains_chars(&text, &vec!['a', 'b', 'd']));
    assert!(contains_chars(&text, &vec![]));
    assert!(!contains_chars(&text, &vec!['b', 'd', 'a']));
    assert!(!contains_chars(&vec![], &vec!['a']));
}

#[test]
fn frame_without_events_keeps_state() {
    let d = decide_frame(false, None, false);
    assert!(!d.load_dropped && !d.pause_stream && !d.paused);
    let d = decide_frame(true, None, false);
    assert!(!d.load_dropped && d.pause_stream && d.paused);
}

#[test]
fn space_toggles_after_the_stream_call() {
    let d = decide_frame(false, None, true);
    assert!(!d.pause_stream && d.paused);
    let e = decide_frame(d.paused, None, true);
    assert!(e.pause_stream && !e.paused);
}

#[test]
fn supported_drop_loads_and_unpauses() {
    let d = decide_frame(true, Some("new.flac"), false);
    assert!(d.load_dropped && !d.pause_stream && !d.paused);
    let d = decide_frame(true, Some("new.flac"), true);
    assert!(d.load_dropped && !d.pause_stream && d.paused);
}

#[test]
fn unsupported_drop_is_ignored() {
    let d = decide_frame(true, Some("cover.png"), false);
    assert!(!d.load_dropped && d.pause_stream && d.paused);
}

#[test]
fn state_holds_window_flag() {
    let s = State { window_closed: true };
    assert!(s.window_closed);
}
