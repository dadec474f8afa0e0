use dictate::segmenter::{
    Segmenter, FRAME_SAMPLES, MIN_SPEECH_SAMPLES, PRE_SPEECH_FRAMES, SILENCE_THRESHOLD,
};

fn frame(n: usize) -> [i16; FRAME_SAMPLES] {
    [n as i16; FRAME_SAMPLES]
}

/// The numbers of the frames that an utterance is made of.
fn numbers(utterance: &[i16]) -> Vec<usize> {
    assert_eq!(utterance.len() % FRAME_SAMPLES, 0);
    utterance
        .chunks(FRAME_SAMPLES)
        .map(|c| {
            assert!(c.iter().all(|&s| s == c[0]));
            c[0] as usize
        })
        .collect()
}

/// Hears frames `0..`, one for each mark: `v` is voiced, anything else is not.
/// Gives the frames at which utterances ended, and their frames.
fn hear(s: &mut Segmenter, marks: &str) -> Vec<(usize, Vec<usize>)> {
    let mut out = Vec::new();
    for (n, mark) in marks.chars().enumerate() {
        if let Some(u) = s.step(&frame(n), mark == 'v') {
            out.push((n, numbers(&u)));
        }
    }
    out
}

fn quiet(n: usize) -> String {
    "-".repeat(n)
}

#[test]
fn silence_makes_no_utterance() {
    let mut s = Segmenter::new();
    assert_eq!(hear(&mut s, &quiet(200)), vec![]);
    assert_eq!(s.flush(), None);
}

#[test]
fn single_voiced_frames_make_no_utterance() {
    let mut s = Segmenter::new();
    assert_eq!(hear(&mut s, &"v-".repeat(100)), vec![]);
    assert_eq!(s.flush(), None);
}

#[test]
fn speech_takes_a_few_earlier_frames_with_it() {
    let mut s = Segmenter::new();
    let marks = quiet(20) + "vvv" + &quiet(SILENCE_THRESHOLD);
    let out = hear(&mut s, &marks);
    // Voice is certain at frame 21; five earlier frames go with it.
    let expected: Vec<usize> = (21 - PRE_SPEECH_FRAMES..23 + SILENCE_THRESHOLD).collect();
    assert_eq!(out, vec![(22 + SILENCE_THRESHOLD, expected)]);
    assert_eq!(s.flush(), None);
}

#[test]
fn speech_at_the_start_takes_what_there_is() {
    let mut s = Segmenter::new();
    let out = hear(&mut s, &("vv".to_string() + &quiet(SILENCE_THRESHOLD)));
    assert_eq!(
        out,
        vec![(1 + SILENCE_THRESHOLD, (0..2 + SILENCE_THRESHOLD).collect())]
    );
}

#[test]
fn voice_within_the_silence_keeps_an_utterance_open() {
    let mut s = Segmenter::new();
    let marks = "vv".to_string()
        + &quiet(SILENCE_THRESHOLD - 1)
        + "v"
        + &quiet(SILENCE_THRESHOLD - 1)
        + "v"
        + &quiet(SILENCE_THRESHOLD);
    let n = marks.len();
    assert_eq!(hear(&mut s, &marks), vec![(n - 1, (0..n).collect())]);
}

#[test]
fn the_next_utterance_takes_nothing_from_the_one_before() {
    let mut s = Segmenter::new();
    let one = "vv".to_string() + &quiet(SILENCE_THRESHOLD);
    let n = one.len();
    let marks = one.clone() + "-" + &one;
    let out = hear(&mut s, &marks);
    assert_eq!(
        out,
        vec![
            (n - 1, (0..n).collect()),
            (2 * n, (n..2 * n + 1).collect())
        ]
    );
}

#[test]
fn an_open_utterance_comes_out_at_the_end_where_it_is_long_enough() {
    let enough = MIN_SPEECH_SAMPLES / FRAME_SAMPLES;
    let mut s = Segmenter::new();
    assert_eq!(hear(&mut s, &"v".repeat(enough - 1)), vec![]);
    assert_eq!(s.flush(), None);
    let mut s = Segmenter::new();
    assert_eq!(hear(&mut s, &"v".repeat(enough)), vec![]);
    assert_eq!(numbers(&s.flush().unwrap()), (0..enough).collect::<Vec<usize>>());
    assert_eq!(s.flush(), None);
}

#[test]
fn thresholds_in_milliseconds() {
    let ms = |samples: usize| samples * 1000 / 16000;
    assert_eq!(ms(FRAME_SAMPLES), 30);
    assert_eq!(ms(SILENCE_THRESHOLD * FRAME_SAMPLES), 810);
    assert_eq!(ms(MIN_SPEECH_SAMPLES), 300);
    assert_eq!(ms(PRE_SPEECH_FRAMES * FRAME_SAMPLES), 150);
}

#[test]
fn an_utterance_ended_by_silence_is_never_dropped() {
    let mut s = Segmenter::new();
    let out = hear(&mut s, &("vv".to_string() + &quiet(SILENCE_THRESHOLD)));
    assert!(out[0].1.len() * FRAME_SAMPLES >= MIN_SPEECH_SAMPLES);
    assert!(SILENCE_THRESHOLD * FRAME_SAMPLES >= MIN_SPEECH_SAMPLES);
}
