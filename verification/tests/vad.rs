use dictate::pcm::pcm_bytes;
use dictate::segmenter::{Segmenter, FRAME_SAMPLES};
use dictate::vad::{VadError, VadSession, VoiceDetector};
use webrtc_vad::{SampleRate, Vad, VadMode};

/// `frames` frames of a buzz that a detector takes for voice.
fn buzz(frames: usize) -> Vec<i16> {
    (0..frames * FRAME_SAMPLES)
        .map(|i| {
            let t = i as f64 / 16000.0;
            let mut s = 0.0;
            for k in 1..20 {
                s += (2.0 * std::f64::consts::PI * 140.0 * k as f64 * t).sin() / k as f64;
            }
            let swell = 0.6 + 0.4 * (2.0 * std::f64::consts::PI * 4.0 * t).sin();
            (s * swell * 6000.0) as i16
        })
        .collect()
}

fn hush(frames: usize) -> Vec<i16> {
    vec![0; frames * FRAME_SAMPLES]
}

fn speech() -> Vec<i16> {
    [hush(20), buzz(30), hush(60), buzz(12), hush(50), buzz(15)].concat()
}

/// What the detector and the segmenter make of the samples, frame by frame.
fn expected(samples: &[i16]) -> (Vec<Vec<i16>>, Option<Vec<i16>>) {
    let mut vad = Vad::new_with_rate_and_mode(SampleRate::Rate16kHz, VadMode::Aggressive);
    let mut segmenter = Segmenter::new();
    let mut out = Vec::new();
    for chunk in samples.chunks_exact(FRAME_SAMPLES) {
        let mut frame = [0i16; FRAME_SAMPLES];
        frame.copy_from_slice(chunk);
        out.extend(segmenter.step(&frame, vad.is_voice_segment(chunk).unwrap()));
    }
    let rest = segmenter.flush();
    (out, rest)
}

fn utterances(session: &mut VadSession) -> Vec<Vec<i16>> {
    let mut out = Vec::new();
    while let Some(u) = session.next_utterance() {
        out.push(u);
    }
    out
}

#[test]
fn the_detector_decides_as_its_crate_does() {
    let samples = speech();
    let mut vad = Vad::new_with_rate_and_mode(SampleRate::Rate16kHz, VadMode::Aggressive);
    let mut detector = VoiceDetector::new();
    let mut voiced = 0;
    let mut silent = 0;
    for frame in samples.chunks_exact(FRAME_SAMPLES) {
        let want = vad.is_voice_segment(frame).unwrap();
        assert_eq!(detector.is_voice_segment(frame), want);
        if want {
            voiced += 1;
        } else {
            silent += 1;
        }
    }
    assert!(voiced > 20, "{}", voiced);
    assert!(silent > 20, "{}", silent);
}

#[test]
fn a_frame_of_another_length_counts_as_silent() {
    let samples = buzz(10);
    let mut detector = VoiceDetector::new();
    let mut other = VoiceDetector::new();
    for frame in samples.chunks_exact(FRAME_SAMPLES) {
        assert!(!other.is_voice_segment(&frame[..479]));
        assert_eq!(other.is_voice_segment(frame), detector.is_voice_segment(frame));
    }
    assert!(detector.is_voice_segment(&samples[..160]));
}

#[test]
fn a_session_needs_16_khz() {
    assert!(VadSession::new(16000).is_ok());
    let error = VadSession::new(44100).err().unwrap();
    assert_eq!(error, VadError::SampleRate(44100));
    assert_eq!(
        error.message(),
        "VAD requires 16kHz sample rate, got 44100Hz"
    );
    assert!(VadSession::new(0).is_err());
}

#[test]
fn a_session_cuts_a_stream_into_utterances() {
    let samples = speech();
    let (want, rest) = expected(&samples);
    assert_eq!(want.len(), 2);
    assert!(rest.is_some());
    let mut session = VadSession::new(16000).ok().unwrap();
    session.feed(&pcm_bytes(&samples));
    assert_eq!(utterances(&mut session), want);
    assert_eq!(session.next_utterance(), None);
    assert_eq!(session.flush(), rest);
    assert_eq!(session.flush(), None);
}

#[test]
fn chunking_makes_no_difference() {
    let samples = speech();
    let bytes = pcm_bytes(&samples);
    let (want, rest) = expected(&samples);
    for size in [1, 7, 959, 960, 961, 4096, 100_000] {
        let mut session = VadSession::new(16000).ok().unwrap();
        let mut out = Vec::new();
        for chunk in bytes.chunks(size) {
            session.feed(chunk);
            out.extend(utterances(&mut session));
        }
        assert_eq!(out, want);
        assert_eq!(session.flush(), rest);
    }
}

#[test]
fn less_than_a_frame_waits() {
    let mut session = VadSession::new(16000).ok().unwrap();
    session.feed(&[1; 959]);
    assert_eq!(session.next_utterance(), None);
    session.feed(&[]);
    assert_eq!(session.next_utterance(), None);
    assert_eq!(session.flush(), None);
}

#[test]
fn an_utterance_is_an_unbroken_stretch_of_the_stream() {
    let samples = speech();
    let (want, _) = expected(&samples);
    for u in want {
        let found = (0..samples.len() / FRAME_SAMPLES)
            .any(|i| samples[i * FRAME_SAMPLES..].starts_with(&u));
        assert!(found);
    }
}
