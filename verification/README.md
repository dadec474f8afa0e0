# dictate

The rules of a dictation tool for Wayland desktops, verified with Verus.

Captured audio is cut into frames, a voice activity detector judges each frame,
and the frames are put together to utterances. Each utterance is packed as a WAV
file, transcribed elsewhere, and its text is collected, typed and shown.

- `src/` is the verified library.
  - `pcm`, `wav`: samples as bytes, utterances as WAV files.
  - `segmenter`, `utterances`: from judged frames to utterances, and what holds of
    every stream of frames.
  - `vad`, `stream`: from bytes to judged frames, and what holds of every stream of
    bytes.
  - `dictation`, `dictation_trace`: one dictation as a state machine, and what holds
    of every run of it.
  - `transcript`, `output`, `text`: collecting text and turning it into key strokes.
  - `overlay`, `canvas`: the bar on the screen and its pixels.
  - `audio`, `evdev`, `ipc`, `sound`, `tray`: choosing how to capture, watching for a
    key, messages, sounds and the tray icon.
- `app/` is the code around it: devices, sockets, files and the screen.
- `tests/` runs the library.

What the library takes on trust stands in `vad` (the detector of `webrtc_vad`),
`wav` (the writer of `hound`), `canvas` (the byte order of the machine) and `text`
(making a `String` from a `&str`); each such item says what it claims.
