//! What the player does in a frame: which dropped files it loads, and whether
//! the stream plays or pauses.

use vstd::prelude::*;

verus! {

/// Whether `pattern` occurs in `text` starting at index `start`.
pub open spec fn occurs_at(text: Seq<char>, pattern: Seq<char>, start: int) -> bool {
    &&& 0 <= start
    &&& start + pattern.len() <= text.len()
    &&& text.subrange(start, start + pattern.len()) == pattern
}

/// Whether `pattern` occurs anywhere in `text`.
pub open spec fn contains_text(text: Seq<char>, pattern: Seq<char>) -> bool {
    exists|start: int| occurs_at(text, pattern, start)
}

/// Whether `path` names a file the player loads: it contains one of
/// `.mp3`, `.flac`, `.wav`, `.opus` or `.ogg`.
pub open spec fn is_supported_audio_spec(path: Seq<char>) -> bool {
    ||| contains_text(path, seq!['.', 'm', 'p', '3'])
    ||| contains_text(path, seq!['.', 'f', 'l', 'a', 'c'])
    ||| contains_text(path, seq!['.', 'w', 'a', 'v'])
    ||| contains_text(path, seq!['.', 'o', 'p', 'u', 's'])
    ||| contains_text(path, seq!['.', 'o', 'g', 'g'])
}

/// A path is supported exactly when one of the texts `.mp3`, `.flac`,
/// `.wav`, `.opus`, `.ogg` occurs in it.
pub proof fn lemma_supported_audio_patterns(path: Seq<char>)
    ensures
        is_supported_audio_spec(path) == (contains_text(path, ".mp3"@) || contains_text(
            path,
            ".flac"@,
        ) || contains_text(path, ".wav"@) || contains_text(path, ".opus"@) || contains_text(
            path,
            ".ogg"@,
        )),
{
    reveal_strlit(".mp3");
    reveal_strlit(".flac");
    reveal_strlit(".wav");
    reveal_strlit(".opus");
    reveal_strlit(".ogg");
    assert(".mp3"@ =~= seq!['.', 'm', 'p', '3']);
    assert(".flac"@ =~= seq!['.', 'f', 'l', 'a', 'c']);
    assert(".wav"@ =~= seq!['.', 'w', 'a', 'v']);
    assert(".opus"@ =~= seq!['.', 'o', 'p', 'u', 's']);
    assert(".ogg"@ =~= seq!['.', 'o', 'g', 'g']);
}

/// A text that appears inside another, after any prefix and before any
/// suffix, is found in it; a text longer than another is not.
pub proof fn lemma_contains_text_placed(prefix: Seq<char>, pattern: Seq<char>, suffix: Seq<char>)
    ensures
        contains_text(prefix + pattern + suffix, pattern),
        pattern.len() > prefix.len() ==> !contains_text(prefix, pattern),
{
    let t = prefix + pattern + suffix;
    assert(t.subrange(prefix.len() as int, (prefix.len() + pattern.len()) as int) =~= pattern);
    assert(occurs_at(t, pattern, prefix.len() as int));
}

/// The characters of `s`, in order.
fn chars_of(s: &str) -> (chars: Vec<char>)
    ensures
        chars@ == s@,
{
    broadcast use vstd::string::axiom_spec_iter;

    let mut chars: Vec<char> = Vec::new();
    for c in it: s.chars()
        invariant
            chars@.len() == it.index(),
            forall|i: int| 0 <= i < it.index() ==> chars@[i] == it.seq()[i],
    {
        chars.push(c);
    }
    assert(chars@ =~= s@);
    chars
}

/// Whether `pattern` occurs in `text` at index `start`.
fn matches_at(text: &Vec<char>, pattern: &Vec<char>, start: usize) -> (found: bool)
    requires
        start + pattern@.len() <= text@.len(),
    ensures
        found == occurs_at(text@, pattern@, start as int),
{
    let mut k: usize = 0;
    while k < pattern.len()
        invariant
            start + pattern@.len() <= text.len(),
            k <= pattern@.len(),
            forall|j: int| 0 <= j < k ==> text@[start + j] == pattern@[j],
        decreases pattern@.len() - k,
    {
        if text[start + k] != pattern[k] {
            assert(text@.subrange(start as int, start + pattern@.len())[k as int] != pattern@[k as int]);
            return false;
        }
        k = k + 1;
    }
    assert(text@.subrange(start as int, start + pattern@.len()) =~= pattern@);
    true
}

/// Whether `pattern` occurs anywhere in `text`.
pub fn contains_chars(text: &Vec<char>, pattern: &Vec<char>) -> (found: bool)
    ensures
        found == contains_text(text@, pattern@),
{
    if pattern.len() > text.len() {
        return false;
    }
    if pattern.len() == 0 {
        assert(text@.subrange(0, 0) =~= pattern@);
        assert(occurs_at(text@, pattern@, 0));
        return true;
    }
    let last = text.len() - pattern.len();
    let mut i: usize = 0;
    while i <= last
        invariant
            last + pattern@.len() == text.len(),
            pattern@.len() > 0,
            i <= last + 1,
            forall|j: int| 0 <= j < i ==> !occurs_at(text@, pattern@, j),
        decreases last + 1 - i,
    {
        if matches_at(text, pattern, i) {
            return true;
        }
        i = i + 1;
    }
    false
}

/// Whether the player loads the file at `path`: it does when the path
/// contains `.mp3`, `.flac`, `.wav`, `.opus` or `.ogg`.
pub fn is_supported_audio(path: &str) -> (supported: bool)
    ensures
        supported == is_supported_audio_spec(path@),
        supported == (contains_text(path@, ".mp3"@) || contains_text(path@, ".flac"@)
            || contains_text(path@, ".wav"@) || contains_text(path@, ".opus"@) || contains_text(
            path@,
            ".ogg"@,
        )),
{
    proof {
        lemma_supported_audio_patterns(path@);
    }
    let text = chars_of(path);
    let mp3 = vec!['.', 'm', 'p', '3'];
    let flac = vec!['.', 'f', 'l', 'a', 'c'];
    let wav = vec!['.', 'w', 'a', 'v'];
    let opus = vec!['.', 'o', 'p', 'u', 's'];
    let ogg = vec!['.', 'o', 'g', 'g'];
    contains_chars(&text, &mp3) || contains_chars(&text, &flac) || contains_chars(&text, &wav)
        || contains_chars(&text, &opus) || contains_chars(&text, &ogg)
}


/// What the player does in one frame, and whether it is paused afterwards.
pub struct FrameDecision {
    /// Stop the current track and load, attach and play the dropped file.
    pub load_dropped: bool,
    /// Pause the stream for this frame (else resume it).
    pub pause_stream: bool,
    /// Whether the player is paused when the frame ends.
    pub paused: bool,
}

/// The decisions of one frame of the player. `paused` is the state at the
/// start of the frame, `dropped_path` the first path of the files dropped
/// this frame, if any, and `space_pressed` whether the space key went down.
///
/// A dropped file that the player accepts is loaded and unpauses the player;
/// the stream is then paused or resumed by that state; the space key toggles
/// the pause for the next frame.
pub fn decide_frame(paused: bool, dropped_path: Option<&str>, space_pressed: bool) -> (decision:
    FrameDecision)
    ensures
        decision.load_dropped == (dropped_path matches Some(path) && is_supported_audio_spec(
            path@,
        )),
        decision.pause_stream == (paused && !decision.load_dropped),
        decision.paused == (decision.pause_stream != space_pressed),
{
    let load_dropped = match dropped_path {
        Some(path) => is_supported_audio(path),
        None => false,
    };
    let mut pause = paused;
    if load_dropped {
        pause = false;
    }
    let pause_stream = pause;
    if space_pressed {
        pause = !pause;
    }
    FrameDecision { load_dropped, pause_stream, paused: pause }
}

} // verus!
