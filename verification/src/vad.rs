//! Voice activity detection on a stream of PCM bytes.
//!
//! Bytes come in chunks of any length. They are cut into frames, the detector
//! decides for each frame whether it carries voice, and the segmenter turns the
//! decisions into utterances.

use vstd::prelude::*;
use webrtc_vad::Vad;

use crate::pcm::{read_sample, samples_of};
use crate::segmenter::{
    after_frame, completed, idle, kept, Segmenter, SegmenterState, FRAME_SAMPLES,
    MIN_SPEECH_SAMPLES,
};
use crate::text::{decimal, decimal_text};

verus! {

/// Bytes in a frame.
pub const FRAME_BYTES: usize = FRAME_SAMPLES * 2;

/// The sample rate that detection works at.
pub const DETECTION_RATE: u32 = 16000;

/// The sample rates that the detector takes.
#[derive(Debug, Clone, Copy, PartialEq, Eq, Structural)]
pub enum DetectorRate {
    Rate8kHz,
    Rate16kHz,
    Rate32kHz,
    Rate48kHz,
}

impl DetectorRate {
    /// The rate in samples per millisecond.
    pub open spec fn per_ms(self) -> int {
        match self {
            DetectorRate::Rate8kHz => 8,
            DetectorRate::Rate16kHz => 16,
            DetectorRate::Rate32kHz => 32,
            DetectorRate::Rate48kHz => 48,
        }
    }
}

/// How much the detector leans towards calling a frame silent.
#[derive(Debug, Clone, Copy, PartialEq, Eq, Structural)]
pub enum DetectorMode {
    Quality,
    LowBitrate,
    Aggressive,
    VeryAggressive,
}

impl DetectorMode {
    /// The mode's place in the order from the least to the most aggressive.
    pub open spec fn level(self) -> int {
        match self {
            DetectorMode::Quality => 0,
            DetectorMode::LowBitrate => 1,
            DetectorMode::Aggressive => 2,
            DetectorMode::VeryAggressive => 3,
        }
    }
}

/// The detector of the `webrtc_vad` crate.
#[verifier::external_type_specification]
#[verifier::external_body]
pub struct ExVad(Vad);

/// The frames that a detector has judged, in order.
pub uninterp spec fn judged(vad: Vad) -> Seq<Seq<i16>>;

/// What a detector was made with: samples per millisecond, and the level of its mode.
pub uninterp spec fn made_with(vad: Vad) -> (int, int);

/// Whether a detector that works at `per_ms` samples per millisecond and at
/// mode `level`, and that has judged the frames `before`, calls `frame` voiced.
pub uninterp spec fn voiced(
    per_ms: int,
    level: int,
    before: Seq<Seq<i16>>,
    frame: Seq<i16>,
) -> bool;

/// Whether a frame of `len` samples has a length that the detector takes: 10, 20
/// or 30 milliseconds.
pub open spec fn frame_len_ok(per_ms: int, len: int) -> bool {
    len == 10 * per_ms || len == 20 * per_ms || len == 30 * per_ms
}

/// `webrtc_vad::Vad::new_with_rate_and_mode`: a detector with this rate and
/// mode that has judged nothing.
#[verifier::external_body]
fn new_vad(rate: DetectorRate, mode: DetectorMode) -> (vad: Vad)
    ensures
        judged(vad) == Seq::<Seq<i16>>::empty(),
        made_with(vad) == (rate.per_ms(), mode.level()),
{
    let rate = match rate {
        DetectorRate::Rate8kHz => webrtc_vad::SampleRate::Rate8kHz,
        DetectorRate::Rate16kHz => webrtc_vad::SampleRate::Rate16kHz,
        DetectorRate::Rate32kHz => webrtc_vad::SampleRate::Rate32kHz,
        DetectorRate::Rate48kHz => webrtc_vad::SampleRate::Rate48kHz,
    };
    let mode = match mode {
        DetectorMode::Quality => webrtc_vad::VadMode::Quality,
        DetectorMode::LowBitrate => webrtc_vad::VadMode::LowBitrate,
        DetectorMode::Aggressive => webrtc_vad::VadMode::Aggressive,
        DetectorMode::VeryAggressive => webrtc_vad::VadMode::VeryAggressive,
    };
    Vad::new_with_rate_and_mode(rate, mode)
}

/// `webrtc_vad::Vad::is_voice_segment`: fails on a frame of the wrong length,
/// and the detector stays as it was; else judges the frame. It indexes the first
/// sample, so there must be one.
#[verifier::external_body]
fn judge(vad: &mut Vad, frame: &[i16]) -> (r: Result<bool, ()>)
    requires
        frame@.len() > 0,
    ensures
        made_with(*final(vad)) == made_with(*old(vad)),
        match r {
            Ok(v) => {
                &&& frame_len_ok(made_with(*old(vad)).0, frame@.len() as int)
                &&& v == voiced(
                    made_with(*old(vad)).0,
                    made_with(*old(vad)).1,
                    judged(*old(vad)),
                    frame@,
                )
                &&& judged(*final(vad)) == judged(*old(vad)).push(frame@)
            },
            Err(()) => {
                &&& !frame_len_ok(made_with(*old(vad)).0, frame@.len() as int)
                &&& judged(*final(vad)) == judged(*old(vad))
            },
        },
{
    vad.is_voice_segment(frame)
}

/// A detector at 16 kHz in aggressive mode.
pub struct VoiceDetector {
    vad: Vad,
}

/// Whether the detector, having judged the frames `before`, calls `frame` voiced.
pub open spec fn is_voice(before: Seq<Seq<i16>>, frame: Seq<i16>) -> bool {
    voiced(DetectorRate::Rate16kHz.per_ms(), DetectorMode::Aggressive.level(), before, frame)
}

impl VoiceDetector {
    /// The frames that the detector has judged.
    pub closed spec fn frames(&self) -> Seq<Seq<i16>> {
        judged(self.vad)
    }

    /// The detector's invariant: its rate and mode.
    pub closed spec fn wf(&self) -> bool {
        made_with(self.vad) == (
            DetectorRate::Rate16kHz.per_ms(),
            DetectorMode::Aggressive.level(),
        )
    }

    /// A detector that has judged nothing.
    pub fn new() -> (d: VoiceDetector)
        ensures
            d.wf(),
            d.frames() == Seq::<Seq<i16>>::empty(),
    {
        VoiceDetector { vad: new_vad(DetectorRate::Rate16kHz, DetectorMode::Aggressive) }
    }

    /// Judges a frame. One of a length that the detector does not take counts as
    /// silent, and the detector does not notice it.
    pub fn is_voice_segment(&mut self, samples: &[i16]) -> (r: bool)
        requires
            old(self).wf(),
            samples@.len() > 0,
        ensures
            final(self).wf(),
            if frame_len_ok(DetectorRate::Rate16kHz.per_ms(), samples@.len() as int) {
                &&& r == is_voice(old(self).frames(), samples@)
                &&& final(self).frames() == old(self).frames().push(samples@)
            } else {
                &&& !r
                &&& final(self).frames() == old(self).frames()
            },
    {
        match judge(&mut self.vad, samples) {
            Ok(v) => v,
            Err(()) => false,
        }
    }
}

/// Reads the first frame of `buf` into `frame`.
pub fn decode_frame(buf: &[u8], frame: &mut [i16; FRAME_SAMPLES])
    requires
        buf@.len() >= FRAME_BYTES,
    ensures
        final(frame)@ == samples_of(buf@.take(FRAME_BYTES as int)),
{
    let ghost want = samples_of(buf@.take(FRAME_BYTES as int));
    let mut i: usize = 0;
    while i < FRAME_SAMPLES
        invariant
            i <= FRAME_SAMPLES,
            buf@.len() >= FRAME_BYTES,
            want == samples_of(buf@.take(FRAME_BYTES as int)),
            forall|j: int| 0 <= j < i ==> frame@[j] == want[j],
        decreases FRAME_SAMPLES - i,
    {
        frame[i] = read_sample(buf[2 * i], buf[2 * i + 1]);
        i = i + 1;
    }
    assert(frame@ =~= want);
}

/// Why detection cannot start.
#[derive(Debug, Clone, Copy, PartialEq, Eq, Structural)]
pub enum VadError {
    /// The audio has another sample rate than the one detection works at.
    SampleRate(u32),
}

impl VadError {
    /// The error in words.
    pub open spec fn words(self) -> Seq<char> {
        match self {
            VadError::SampleRate(rate) => "VAD requires 16kHz sample rate, got "@ + decimal(
                rate as nat,
            ) + "Hz"@,
        }
    }

    /// The error in words.
    pub fn message(&self) -> (r: String)
        ensures
            r@ == self.words(),
    {
        match self {
            VadError::SampleRate(rate) => {
                let mut r: String = "VAD requires 16kHz sample rate, got ".into();
                r.append(decimal_text(*rate).as_str());
                r.append("Hz");
                r
            },
        }
    }
}

/// What a session holds between two frames.
pub struct SessionState {
    /// The frames judged so far.
    pub judged: Seq<Seq<i16>>,
    /// The bytes that have come in and have not been cut into frames.
    pub pending: Seq<u8>,
    /// The segmenter's state.
    pub segmenter: SegmenterState,
}

/// The state at the start of a session.
pub open spec fn fresh() -> SessionState {
    SessionState { judged: Seq::empty(), pending: Seq::empty(), segmenter: idle() }
}

/// The first frame of the pending bytes.
pub open spec fn next_frame(s: SessionState) -> Seq<i16> {
    samples_of(s.pending.take(FRAME_BYTES as int))
}

/// The state after a chunk of bytes has come in.
pub open spec fn fed(s: SessionState, chunk: Seq<u8>) -> SessionState {
    SessionState { pending: s.pending + chunk, ..s }
}

/// The state after the first pending frame has been dealt with.
pub open spec fn after_next(s: SessionState) -> SessionState {
    let frame = next_frame(s);
    SessionState {
        judged: s.judged.push(frame),
        pending: s.pending.skip(FRAME_BYTES as int),
        segmenter: after_frame(s.segmenter, frame, is_voice(s.judged, frame)),
    }
}

/// The utterance that the first pending frame completes, if it completes one.
pub open spec fn completed_next(s: SessionState) -> Option<Seq<i16>> {
    let frame = next_frame(s);
    completed(s.segmenter, frame, is_voice(s.judged, frame))
}

/// Deals with pending frames until one completes an utterance or none is left.
pub open spec fn scan(s: SessionState) -> (SessionState, Option<Seq<i16>>)
    decreases s.pending.len(),
{
    if s.pending.len() < FRAME_BYTES {
        (s, None)
    } else if completed_next(s) is Some {
        (after_next(s), completed_next(s))
    } else {
        scan(after_next(s))
    }
}

/// Voice activity detection over one recording.
pub struct VadSession {
    detector: VoiceDetector,
    buf: Vec<u8>,
    segmenter: Segmenter,
}

impl View for VadSession {
    type V = SessionState;

    closed spec fn view(&self) -> SessionState {
        SessionState {
            judged: self.detector.frames(),
            pending: self.buf@,
            segmenter: self.segmenter@,
        }
    }
}

impl VadSession {
    /// The session's invariant.
    pub closed spec fn wf(&self) -> bool {
        self.detector.wf() && self.segmenter.wf()
    }

    /// Starts a session on audio of this sample rate.
    pub fn new(sample_rate: u32) -> (r: Result<VadSession, VadError>)
        ensures
            match r {
                Ok(session) => sample_rate == DETECTION_RATE && session.wf() && session@ == fresh(),
                Err(e) => sample_rate != DETECTION_RATE && e == VadError::SampleRate(sample_rate),
            },
    {
        if sample_rate != DETECTION_RATE {
            return Err(VadError::SampleRate(sample_rate));
        }
        let session = VadSession {
            detector: VoiceDetector::new(),
            buf: Vec::new(),
            segmenter: Segmenter::new(),
        };
        assert(session@.pending =~= fresh().pending);
        Ok(session)
    }

    /// Takes in a chunk of bytes.
    pub fn feed(&mut self, chunk: &[u8])
        requires
            old(self).wf(),
        ensures
            final(self).wf(),
            final(self)@ == fed(old(self)@, chunk@),
    {
        let ghost before = self.buf@;
        self.buf.extend_from_slice(chunk);
        assert(self.buf@ =~= before + chunk@);
    }

    /// Deals with what has come in until an utterance is complete; gives `None`
    /// when less than a frame is left.
    pub fn next_utterance(&mut self) -> (utterance: Option<Vec<i16>>)
        requires
            old(self).wf(),
        ensures
            final(self).wf(),
            final(self)@ == scan(old(self)@).0,
            match utterance {
                Some(u) => scan(old(self)@).1 == Some(u@),
                None => scan(old(self)@).1 is None,
            },
    {
        let mut frame: [i16; FRAME_SAMPLES] = [0; FRAME_SAMPLES];
        while self.buf.len() >= FRAME_BYTES
            invariant
                self.wf(),
                scan(self@) == scan(old(self)@),
            decreases self.buf@.len(),
        {
            let ghost before = self@;
            decode_frame(&self.buf, &mut frame);
            let rest: Vec<u8> = self.buf.split_off(FRAME_BYTES);
            self.buf = rest;
            let is_voice: bool = self.detector.is_voice_segment(&frame);
            let utterance: Option<Vec<i16>> = self.segmenter.step(&frame, is_voice);
            assert(self@.pending =~= before.pending.skip(FRAME_BYTES as int));
            assert(self@ == after_next(before));
            if utterance.is_some() {
                return utterance;
            }
        }
        None
    }

    /// Ends the utterance that is open, and gives it where it is long enough.
    pub fn flush(&mut self) -> (utterance: Option<Vec<i16>>)
        requires
            old(self).wf(),
        ensures
            final(self).wf(),
            final(self)@ == (SessionState { segmenter: idle(), ..old(self)@ }),
            match utterance {
                Some(u) => kept(old(self)@.segmenter.speech) == Some(u@),
                None => kept(old(self)@.segmenter.speech) is None,
            },
            match utterance {
                Some(u) => u@ == old(self)@.segmenter.speech && u@.len() >= MIN_SPEECH_SAMPLES,
                None => old(self)@.segmenter.speech.len() < MIN_SPEECH_SAMPLES,
            },
    {
        self.segmenter.flush()
    }
}

/// The detector works at 16 samples in a millisecond and at level 2 of 0 to 3, and
/// takes frames of 160, 320 or 480 samples.
pub proof fn lemma_how_the_detector_works(before: Seq<Seq<i16>>, frame: Seq<i16>, len: int)
    ensures
        is_voice(before, frame) == voiced(16, 2, before, frame),
        frame_len_ok(DetectorRate::Rate16kHz.per_ms(), len) <==> len == 160 || len == 320 || len
            == 480,
        FRAME_BYTES == 960,
        DETECTION_RATE == 16000,
{
}

/// Rates in samples in a millisecond, and modes from the least to the most
/// aggressive.
pub proof fn lemma_rates_and_modes(per_ms: int, len: int)
    ensures
        DetectorRate::Rate8kHz.per_ms() == 8,
        DetectorRate::Rate16kHz.per_ms() == 16,
        DetectorRate::Rate32kHz.per_ms() == 32,
        DetectorRate::Rate48kHz.per_ms() == 48,
        DetectorMode::Quality.level() == 0,
        DetectorMode::LowBitrate.level() == 1,
        DetectorMode::Aggressive.level() == 2,
        DetectorMode::VeryAggressive.level() == 3,
        frame_len_ok(per_ms, len) <==> len == 10 * per_ms || len == 20 * per_ms || len == 30
            * per_ms,
{
}

/// A session starts with nothing judged, nothing pending and no utterance open;
/// bytes that come in stand behind those that are pending, and nothing else
/// changes.
pub proof fn lemma_bytes_come_in(s: SessionState, chunk: Seq<u8>)
    ensures
        fresh().judged.len() == 0,
        fresh().pending.len() == 0,
        !fresh().segmenter.active,
        fresh().segmenter.speech.len() == 0,
        fresh().segmenter.pre.len() == 0,
        fed(s, chunk).pending == s.pending + chunk,
        fed(s, chunk).judged == s.judged,
        fed(s, chunk).segmenter == s.segmenter,
{
}

/// The message names the rate in decimal.
pub proof fn lemma_vad_error_in_words(rate: u32)
    ensures
        VadError::SampleRate(rate).words() == "VAD requires 16kHz sample rate, got "@ + decimal(
            rate as nat,
        ) + "Hz"@,
{
}

} // verus!
