use dictate::dictation::{Action, Dictation, Event};
use dictate::pcm::pcm_bytes;
use dictate::segmenter::FRAME_SAMPLES;
use dictate::vad::{VadError, VadSession};

fn buzzing(frames: usize) -> Vec<i16> {
    (0..frames * FRAME_SAMPLES)
        .map(|i| {
            let t = i as f64 / 16000.0;
            let mut s = 0.0;
            for k in 1..20 {
                s += (2.0 * std::f64::consts::PI * 140.0 * k as f64 * t).sin() / k as f64;
            }
            (s * 6000.0) as i16
        })
        .collect()
}

fn talk() -> Vec<u8> {
    let hush = vec![0i16; 60 * FRAME_SAMPLES];
    pcm_bytes(&[hush.clone(), buzzing(30), hush.clone(), buzzing(30), hush].concat())
}

fn audio(chunk: &[u8]) -> Event {
    Event::Audio {
        chunk: chunk.to_vec(),
        stopped: false,
    }
}

fn begin(enter: bool, mode: &str) -> Dictation {
    Dictation::new(16000, enter, mode).ok().unwrap()
}

/// The utterances that a session finds in the bytes.
fn found(bytes: &[u8]) -> Vec<Vec<i16>> {
    let mut session = VadSession::new(16000).ok().unwrap();
    session.feed(bytes);
    let mut out = Vec::new();
    while let Some(u) = session.next_utterance() {
        out.push(u);
    }
    out.extend(session.flush());
    out
}

#[test]
fn a_dictation_from_start_to_end() {
    let bytes = talk();
    let mut d = begin(true, "type");
    let mut saved = Vec::new();
    let mut typed = String::new();
    let texts = ["Hello", "world"];
    let mut action = d.handle(audio(&bytes)).unwrap();
    let ending = loop {
        let event = match action {
            Action::Listen => Event::AudioEnded,
            Action::Save(u) => {
                saved.push(u);
                Event::Saved(true)
            }
            Action::Transcribe => {
                Event::Transcribed(Some(texts[saved.len() - 1].to_string()))
            }
            Action::Deliver(delivery) => {
                assert_eq!(delivery.full, d.text());
                typed.push_str(&delivery.typed.unwrap());
                Event::Delivered
            }
            Action::Discard => Event::Discarded,
            Action::Finish(ending) => break ending,
        };
        action = d.handle(event).unwrap();
    };
    assert_eq!(saved, found(&bytes));
    assert_eq!(saved.len(), 2);
    assert_eq!(d.text(), "Hello world");
    assert_eq!(typed, "Hello world ");
    assert!(ending.press_enter);
    assert_eq!(ending.history, "Hello world");
    assert!(d.handle(audio(&bytes)).is_none());
    assert!(d.handle(Event::AudioEnded).is_none());
    assert!(d.handle(Event::Discarded).is_none());
}

#[test]
fn an_utterance_that_could_not_be_stored_is_passed_over() {
    let mut d = begin(false, "type");
    assert!(matches!(d.handle(audio(&talk())), Some(Action::Save(_))));
    assert!(matches!(d.handle(Event::Saved(false)), Some(Action::Save(_))));
    assert!(matches!(d.handle(Event::Saved(false)), Some(Action::Listen)));
    assert!(matches!(d.handle(Event::AudioEnded), Some(Action::Finish(e)) if e.history.is_empty() && !e.press_enter));
}

#[test]
fn a_failed_or_empty_transcription_is_only_cleared_away() {
    for outcome in [None, Some(String::new())] {
        let mut d = begin(true, "type");
        assert!(matches!(d.handle(audio(&talk())), Some(Action::Save(_))));
        assert!(matches!(d.handle(Event::Saved(true)), Some(Action::Transcribe)));
        assert!(matches!(d.handle(Event::Transcribed(outcome)), Some(Action::Discard)));
        assert_eq!(d.text(), "");
        assert!(matches!(d.handle(Event::Discarded), Some(Action::Save(_))));
    }
}

#[test]
fn clipboard_mode_types_nothing() {
    let mut d = begin(true, "clipboard");
    d.handle(audio(&talk()));
    d.handle(Event::Saved(true));
    let action = d.handle(Event::Transcribed(Some("text".to_string())));
    assert!(matches!(action, Some(Action::Deliver(x)) if x.full == "text" && x.typed.is_none()));
}

#[test]
fn stopping_drops_the_chunk_and_keeps_the_open_utterance() {
    let mut d = begin(false, "type");
    let bytes = pcm_bytes(&buzzing(40));
    assert!(matches!(d.handle(audio(&bytes)), Some(Action::Listen)));
    let action = d.handle(Event::Audio {
        chunk: talk(),
        stopped: true,
    });
    let want = found(&bytes);
    assert_eq!(want.len(), 1);
    assert!(matches!(action, Some(Action::Save(u)) if u == want[0]));
    assert!(matches!(d.handle(Event::Saved(true)), Some(Action::Transcribe)));
    assert!(matches!(d.handle(Event::Transcribed(Some("last".to_string()))), Some(Action::Deliver(_))));
    assert!(matches!(d.handle(Event::Delivered), Some(Action::Discard)));
    assert!(matches!(d.handle(Event::Discarded), Some(Action::Finish(e)) if e.history == "last"));
}

#[test]
fn an_event_out_of_turn_changes_nothing() {
    let mut d = begin(false, "type");
    assert!(d.handle(Event::Saved(true)).is_none());
    assert!(d.handle(Event::Transcribed(Some("x".to_string()))).is_none());
    assert!(d.handle(Event::Delivered).is_none());
    assert!(d.handle(Event::Discarded).is_none());
    assert_eq!(d.text(), "");
    d.handle(audio(&talk()));
    assert!(d.handle(audio(&talk())).is_none());
    assert!(d.handle(Event::AudioEnded).is_none());
    assert!(matches!(d.handle(Event::Saved(true)), Some(Action::Transcribe)));
}

#[test]
fn a_dictation_needs_16_khz() {
    assert_eq!(
        Dictation::new(48000, false, "type").err(),
        Some(VadError::SampleRate(48000))
    );
}
