//! Cutting a stream of classified audio frames into utterances.
//!
//! Speech starts when enough frames in a row carry voice, takes a short run of
//! earlier frames with it, and ends after a long enough run of silent frames.

use std::collections::VecDeque;

use vstd::prelude::*;

verus! {

/// Samples in a frame: 30 ms at 16 kHz.
pub const FRAME_SAMPLES: usize = 480;

/// Silent frames in a row that end an utterance: 810 ms.
pub const SILENCE_THRESHOLD: usize = 27;

/// Samples below which an utterance is dropped: 300 ms at 16 kHz.
pub const MIN_SPEECH_SAMPLES: usize = 4800;

/// Frames kept from before the start of speech: 150 ms.
pub const PRE_SPEECH_FRAMES: usize = 5;

/// Voiced frames in a row that start an utterance.
pub const DEBOUNCE_FRAMES: usize = 2;

/// What a segmenter holds between two frames.
pub struct SegmenterState {
    /// Whether an utterance is open.
    pub active: bool,
    /// The silent frames in a row at the end of the open utterance.
    pub silence: nat,
    /// The voiced frames in a row that counted towards the start of speech.
    pub voice: nat,
    /// The samples of the open utterance.
    pub speech: Seq<i16>,
    /// The last frames heard while no utterance is open.
    pub pre: Seq<Seq<i16>>,
}

/// The state before the first frame and after each utterance.
pub open spec fn idle() -> SegmenterState {
    SegmenterState {
        active: false,
        silence: 0,
        voice: 0,
        speech: Seq::empty(),
        pre: Seq::empty(),
    }
}

/// The last `n` elements of `s`, or all of them where there are fewer.
pub open spec fn last_n<A>(s: Seq<A>, n: nat) -> Seq<A> {
    if s.len() <= n {
        s
    } else {
        s.skip(s.len() - n)
    }
}

/// Whether a frame with this decision starts an utterance.
pub open spec fn opens(s: SegmenterState, voice: bool) -> bool {
    !s.active && voice && s.voice + 1 >= DEBOUNCE_FRAMES
}

/// Whether a frame with this decision ends the open utterance.
pub open spec fn closes(s: SegmenterState, voice: bool) -> bool {
    s.active && !voice && s.silence + 1 >= SILENCE_THRESHOLD
}

/// The state after one more frame.
pub open spec fn after_frame(s: SegmenterState, frame: Seq<i16>, voice: bool) -> SegmenterState {
    if opens(s, voice) {
        SegmenterState {
            active: true,
            silence: 0,
            voice: s.voice + 1,
            speech: s.speech + s.pre.flatten() + frame,
            pre: Seq::empty(),
        }
    } else if closes(s, voice) {
        idle()
    } else if s.active {
        SegmenterState {
            silence: if voice {
                0
            } else {
                s.silence + 1
            },
            speech: s.speech + frame,
            ..s
        }
    } else {
        SegmenterState {
            voice: if voice {
                s.voice + 1
            } else {
                0
            },
            pre: last_n(s.pre.push(frame), PRE_SPEECH_FRAMES as nat),
            ..s
        }
    }
}

/// An utterance that is over, where it is long enough to keep.
pub open spec fn kept(speech: Seq<i16>) -> Option<Seq<i16>> {
    if speech.len() >= MIN_SPEECH_SAMPLES {
        Some(speech)
    } else {
        None
    }
}

/// The utterance that a frame completes, if it completes one.
pub open spec fn completed(s: SegmenterState, frame: Seq<i16>, voice: bool) -> Option<Seq<i16>> {
    if closes(s, voice) {
        kept(s.speech + frame)
    } else {
        None
    }
}

/// What holds of every state that a segmenter reaches.
pub open spec fn reachable_shape(s: SegmenterState) -> bool {
    &&& s.pre.len() <= PRE_SPEECH_FRAMES
    &&& forall|i: int| 0 <= i < s.pre.len() ==> (#[trigger] s.pre[i]).len() == FRAME_SAMPLES
    &&& if s.active {
        &&& s.silence < SILENCE_THRESHOLD
        &&& s.voice == DEBOUNCE_FRAMES
        &&& s.pre.len() == 0
        &&& s.speech.len() >= FRAME_SAMPLES * (s.silence + 1)
    } else {
        &&& s.silence == 0
        &&& s.voice < DEBOUNCE_FRAMES
        &&& s.speech.len() == 0
    }
}

/// Turns classified frames into utterances.
pub struct Segmenter {
    speech_active: bool,
    silence_count: usize,
    voice_count: usize,
    speech_samples: Vec<i16>,
    pre_buffer: VecDeque<[i16; FRAME_SAMPLES]>,
}

impl View for Segmenter {
    type V = SegmenterState;

    closed spec fn view(&self) -> SegmenterState {
        SegmenterState {
            active: self.speech_active,
            silence: self.silence_count as nat,
            voice: self.voice_count as nat,
            speech: self.speech_samples@,
            pre: frames_view(self.pre_buffer@),
        }
    }
}

/// The samples of each frame.
spec fn frames_view(frames: Seq<[i16; FRAME_SAMPLES]>) -> Seq<Seq<i16>> {
    frames.map_values(|f: [i16; FRAME_SAMPLES]| f@)
}

/// Appends a slice of samples.
fn append_samples(samples: &mut Vec<i16>, more: &[i16])
    ensures
        final(samples)@ == old(samples)@ + more@,
{
    let ghost before = samples@;
    samples.extend_from_slice(more);
    assert(samples@ =~= before + more@);
}

impl Segmenter {
    /// The segmenter's invariant.
    pub open spec fn wf(&self) -> bool {
        reachable_shape(self@)
    }

    /// A segmenter that has heard nothing.
    pub fn new() -> (s: Segmenter)
        ensures
            s.wf(),
            s@ == idle(),
    {
        let s = Segmenter {
            speech_active: false,
            silence_count: 0,
            voice_count: 0,
            speech_samples: Vec::new(),
            pre_buffer: VecDeque::new(),
        };
        assert(s@.pre =~= idle().pre);
        s
    }

    /// Keeps a frame for the case that speech starts soon.
    fn remember(&mut self, frame: &[i16; FRAME_SAMPLES])
        requires
            old(self)@.pre.len() <= PRE_SPEECH_FRAMES,
        ensures
            final(self)@ == (SegmenterState {
                pre: last_n(old(self)@.pre.push(frame@), PRE_SPEECH_FRAMES as nat),
                ..old(self)@
            }),
    {
        let ghost before = self@.pre;
        self.pre_buffer.push_back(*frame);
        assert(self@.pre =~= before.push(frame@));
        if self.pre_buffer.len() > PRE_SPEECH_FRAMES {
            let _ = self.pre_buffer.pop_front();
            assert(self@.pre =~= before.push(frame@).skip(1));
        }
    }

    /// Moves the remembered frames to the front of the utterance.
    fn recall(&mut self)
        ensures
            final(self)@ == (SegmenterState {
                speech: old(self)@.speech + old(self)@.pre.flatten(),
                pre: Seq::empty(),
                ..old(self)@
            }),
    {
        let ghost speech = self.speech_samples@;
        let ghost pre = self@.pre;
        let mut i: usize = 0;
        assert(pre.take(0).flatten() =~= Seq::<i16>::empty());
        assert(speech + pre.take(0).flatten() =~= speech);
        while i < self.pre_buffer.len()
            invariant
                i <= self.pre_buffer@.len(),
                frames_view(self.pre_buffer@) == pre,
                self.pre_buffer == old(self).pre_buffer,
                self.speech_active == old(self).speech_active,
                self.silence_count == old(self).silence_count,
                self.voice_count == old(self).voice_count,
                self.speech_samples@ == speech + pre.take(i as int).flatten(),
            decreases self.pre_buffer@.len() - i,
        {
            let frame: [i16; FRAME_SAMPLES] = self.pre_buffer[i];
            append_samples(&mut self.speech_samples, &frame);
            proof {
                let so_far = pre.take(i as int);
                assert(pre.take(i + 1) =~= so_far.push(frame@));
                so_far.lemma_flatten_push(frame@);
                assert(speech + so_far.flatten() + frame@ =~= speech + (so_far.flatten() + frame@));
            }
            i = i + 1;
        }
        assert(pre.take(i as int) =~= pre);
        self.pre_buffer.clear();
        assert(self@.pre =~= Seq::empty());
    }

    /// Takes the utterance out and goes back to waiting for speech.
    fn take_speech(&mut self) -> (speech: Vec<i16>)
        ensures
            speech@ == old(self)@.speech,
            final(self)@ == idle(),
    {
        let mut speech: Vec<i16> = Vec::new();
        std::mem::swap(&mut speech, &mut self.speech_samples);
        self.speech_active = false;
        self.silence_count = 0;
        self.voice_count = 0;
        self.pre_buffer.clear();
        assert(self@.pre =~= idle().pre);
        assert(self@.speech =~= idle().speech);
        speech
    }

    /// Hears one frame, with the decision whether it carries voice, and gives
    /// the utterance that it completes.
    pub fn step(&mut self, frame: &[i16; FRAME_SAMPLES], is_voice: bool) -> (utterance: Option<
        Vec<i16>,
    >)
        requires
            old(self).wf(),
        ensures
            final(self).wf(),
            final(self)@ == after_frame(old(self)@, frame@, is_voice),
            match utterance {
                Some(u) => completed(old(self)@, frame@, is_voice) == Some(u@),
                None => completed(old(self)@, frame@, is_voice) is None,
            },
    {
        if !self.speech_active {
            if is_voice {
                self.voice_count = self.voice_count + 1;
                if self.voice_count >= DEBOUNCE_FRAMES {
                    self.speech_active = true;
                    self.silence_count = 0;
                    self.recall();
                    append_samples(&mut self.speech_samples, frame);
                } else {
                    self.remember(frame);
                }
            } else {
                self.voice_count = 0;
                self.remember(frame);
            }
            None
        } else {
            append_samples(&mut self.speech_samples, frame);
            if is_voice {
                self.silence_count = 0;
                None
            } else {
                self.silence_count = self.silence_count + 1;
                if self.silence_count >= SILENCE_THRESHOLD {
                    let speech: Vec<i16> = self.take_speech();
                    if speech.len() >= MIN_SPEECH_SAMPLES {
                        Some(speech)
                    } else {
                        None
                    }
                } else {
                    None
                }
            }
        }
    }

    /// Ends the utterance that is open, and gives it where it is long enough.
    pub fn flush(&mut self) -> (utterance: Option<Vec<i16>>)
        ensures
            final(self).wf(),
            final(self)@ == idle(),
            match utterance {
                Some(u) => kept(old(self)@.speech) == Some(u@),
                None => kept(old(self)@.speech) is None,
            },
            match utterance {
                Some(u) => u@ == old(self)@.speech && u@.len() >= MIN_SPEECH_SAMPLES,
                None => old(self)@.speech.len() < MIN_SPEECH_SAMPLES,
            },
    {
        let speech: Vec<i16> = self.take_speech();
        if speech.len() >= MIN_SPEECH_SAMPLES {
            Some(speech)
        } else {
            None
        }
    }
}

/// An utterance that is over is kept whole or not at all: it is dropped if and
/// only if it has fewer than 4800 samples.
pub proof fn lemma_kept_whole(speech: Seq<i16>)
    ensures
        kept(speech) is None <==> speech.len() < 4800,
        kept(speech) is Some ==> kept(speech) == Some(speech),
{
}

/// The lengths in milliseconds, at 16000 samples in a second: a frame is 30 long,
/// silence ends an utterance after 810, an utterance is kept from 300 on, and 150
/// are kept from before its start.
pub proof fn lemma_lengths_in_milliseconds()
    ensures
        FRAME_SAMPLES * 1000 == 30 * 16000,
        SILENCE_THRESHOLD * FRAME_SAMPLES * 1000 == 810 * 16000,
        MIN_SPEECH_SAMPLES * 1000 == 300 * 16000,
        PRE_SPEECH_FRAMES * FRAME_SAMPLES * 1000 == 150 * 16000,
        DEBOUNCE_FRAMES == 2,
{
    assert(SILENCE_THRESHOLD * FRAME_SAMPLES == 12960) by (nonlinear_arith)
        requires
            SILENCE_THRESHOLD == 27,
            FRAME_SAMPLES == 480,
    ;
    assert(PRE_SPEECH_FRAMES * FRAME_SAMPLES == 2400) by (nonlinear_arith)
        requires
            PRE_SPEECH_FRAMES == 5,
            FRAME_SAMPLES == 480,
    ;
}

} // verus!
