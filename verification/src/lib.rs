//! Dictation: the rules that turn captured audio into utterances, utterances
//! into text, and text into key strokes, an overlay and a tray icon.

pub mod audio;
pub mod canvas;
pub mod dictation;
pub mod dictation_trace;
pub mod evdev;
pub mod ipc;
pub mod output;
pub mod overlay;
pub mod pcm;
pub mod segmenter;
pub mod sound;
pub mod stream;
pub mod text;
pub mod transcript;
pub mod tray;
pub mod utterances;
pub mod vad;
pub mod wav;
