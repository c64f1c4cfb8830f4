# ruzik

A music visualiser: it plays an audio file, keeps a window of the newest
samples the audio thread hands it, transforms them into a spectrum and draws
the spectrum as bars. Dropping another audio file on the window plays that
one; the space key pauses.

- `src/` is the verified library:
  - `music`: the bounded window of samples and how a block is recorded into it;
  - `plugin::music`: the same window with one frame of channel samples per position;
  - `plugin::fft`: padding to a power of two and the radix-2 transform, generic
    over the arithmetic of its values (`Butterfly`);
  - `player`: which dropped files are played, and the pause decisions of a frame.
- `app/` is the program around it: the window, audio device and drawing, the
  locks shared with the audio thread, and the floating-point arithmetic.
- `tests/` exercises the library on concrete values.
