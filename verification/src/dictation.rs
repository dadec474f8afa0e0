//! One dictation from its first audio to its last text.
//!
//! A dictation alternates between work that is done elsewhere (receiving audio,
//! storing an utterance, transcribing it, handing its text out) and decisions.
//! The decisions are made here: each event leads to the next thing to do.

use vstd::prelude::*;

use crate::output::typed;
use crate::segmenter::{idle, kept};
use crate::text::trimmed;
use crate::transcript::{clipboard_only, joined, Delivery, Ending, Transcript};
use crate::vad::{fed, fresh, scan, SessionState, VadError, VadSession, DETECTION_RATE};

verus! {

/// What a dictation waits for.
#[derive(Debug, Clone, Copy, PartialEq, Eq, Structural)]
pub enum Phase {
    /// Audio.
    Listening,
    /// An utterance to be stored.
    Saving,
    /// An utterance to be transcribed.
    Transcribing,
    /// Text to be handed out.
    Delivering,
    /// A stored utterance to be removed.
    Discarding,
    /// Nothing more.
    Done,
}

/// Something that has happened.
pub enum Event {
    /// Audio has come in; `stopped` tells whether the user has stopped the
    /// dictation meanwhile.
    Audio { chunk: Vec<u8>, stopped: bool },
    /// There will be no more audio.
    AudioEnded,
    /// The utterance has been stored, or could not be.
    Saved(bool),
    /// The utterance has been transcribed, or could not be.
    Transcribed(Option<String>),
    /// The text has been handed out.
    Delivered,
    /// The stored utterance has been removed.
    Discarded,
}

/// Something to be done.
pub enum Action {
    /// Wait for audio.
    Listen,
    /// Store this utterance.
    Save(Vec<i16>),
    /// Transcribe the stored utterance.
    Transcribe,
    /// Hand text out.
    Deliver(Delivery),
    /// Remove the stored utterance.
    Discard,
    /// Wind up; there is nothing more to do.
    Finish(Ending),
}

/// What an action amounts to.
pub enum ActionView {
    Listen,
    Save(Seq<i16>),
    Transcribe,
    /// All the text so far, and what to type.
    Deliver(Seq<char>, Option<Seq<char>>),
    Discard,
    /// Whether to press Enter, and the line for the history.
    Finish(bool, Seq<char>),
}

impl View for Action {
    type V = ActionView;

    open spec fn view(&self) -> ActionView {
        match self {
            Action::Listen => ActionView::Listen,
            Action::Save(samples) => ActionView::Save(samples@),
            Action::Transcribe => ActionView::Transcribe,
            Action::Deliver(d) => ActionView::Deliver(
                d.full@,
                match d.typed {
                    Some(t) => Some(t@),
                    None => None,
                },
            ),
            Action::Discard => ActionView::Discard,
            Action::Finish(e) => ActionView::Finish(e.press_enter, e.history@),
        }
    }
}

/// The state of a dictation.
pub struct DictationView {
    pub phase: Phase,
    /// Whether the utterance in hand is the last one.
    pub last: bool,
    pub session: SessionState,
    pub transcript: Seq<char>,
    /// Whether Enter is wanted at the end.
    pub enter: bool,
    pub output_mode: Seq<char>,
}

/// The state at the start of a dictation.
pub open spec fn start(enter: bool, output_mode: Seq<char>) -> DictationView {
    DictationView {
        phase: Phase::Listening,
        last: false,
        session: fresh(),
        transcript: Seq::empty(),
        enter,
        output_mode,
    }
}

/// The end of a dictation: the history gets the text without the white space
/// around it, and Enter is pressed where it is wanted and text was typed.
pub open spec fn ended(v: DictationView) -> (DictationView, ActionView) {
    let history = trimmed(v.transcript);
    (
        DictationView { phase: Phase::Done, ..v },
        ActionView::Finish(v.enter && !clipboard_only(v.output_mode) && history.len() > 0, history),
    )
}

/// Going on once nothing is in hand: with the next utterance, by waiting for
/// audio, or to the end.
pub open spec fn resumed(v: DictationView) -> (DictationView, ActionView) {
    if v.last {
        ended(v)
    } else {
        let session = scan(v.session).0;
        match scan(v.session).1 {
            Some(u) => (
                DictationView { phase: Phase::Saving, session, ..v },
                ActionView::Save(u),
            ),
            None => (
                DictationView { phase: Phase::Listening, session, ..v },
                ActionView::Listen,
            ),
        }
    }
}

/// No more audio counts: the utterance that is open is the last one, where it is
/// long enough.
pub open spec fn wound_up(v: DictationView) -> (DictationView, ActionView) {
    let session = SessionState { segmenter: idle(), ..v.session };
    match kept(v.session.segmenter.speech) {
        Some(u) => (
            DictationView { phase: Phase::Saving, last: true, session, ..v },
            ActionView::Save(u),
        ),
        None => ended(DictationView { last: true, session, ..v }),
    }
}

/// Whether an event is one that the dictation waits for.
pub open spec fn awaited(v: DictationView, event: Event) -> bool {
    match event {
        Event::Audio { .. } => v.phase == Phase::Listening,
        Event::AudioEnded => v.phase == Phase::Listening,
        Event::Saved(_) => v.phase == Phase::Saving,
        Event::Transcribed(_) => v.phase == Phase::Transcribing,
        Event::Delivered => v.phase == Phase::Delivering,
        Event::Discarded => v.phase == Phase::Discarding,
    }
}

/// The piece of text that an event brings; empty where it brings none.
pub open spec fn piece_of(event: Event) -> Seq<char> {
    match event {
        Event::Transcribed(Some(piece)) => piece@,
        _ => Seq::empty(),
    }
}

/// The state after an event that was waited for, and what is to be done next.
pub open spec fn next(v: DictationView, event: Event) -> (DictationView, ActionView) {
    match event {
        Event::Audio { chunk, stopped } => if stopped {
            wound_up(v)
        } else {
            resumed(DictationView { session: fed(v.session, chunk@), ..v })
        },
        Event::AudioEnded => wound_up(v),
        Event::Saved(true) => (
            DictationView { phase: Phase::Transcribing, ..v },
            ActionView::Transcribe,
        ),
        Event::Saved(false) => resumed(v),
        Event::Transcribed(_) => {
            let piece = piece_of(event);
            if piece.len() > 0 {
                let transcript = joined(v.transcript, piece);
                (
                    DictationView { phase: Phase::Delivering, transcript, ..v },
                    ActionView::Deliver(
                        transcript,
                        if clipboard_only(v.output_mode) {
                            None
                        } else {
                            Some(typed(piece))
                        },
                    ),
                )
            } else {
                (DictationView { phase: Phase::Discarding, ..v }, ActionView::Discard)
            }
        },
        Event::Delivered => (DictationView { phase: Phase::Discarding, ..v }, ActionView::Discard),
        Event::Discarded => resumed(v),
    }
}

/// One dictation.
pub struct Dictation {
    phase: Phase,
    last: bool,
    session: VadSession,
    transcript: Transcript,
    enter: bool,
    output_mode: String,
}

impl View for Dictation {
    type V = DictationView;

    closed spec fn view(&self) -> DictationView {
        DictationView {
            phase: self.phase,
            last: self.last,
            session: self.session@,
            transcript: self.transcript@,
            enter: self.enter,
            output_mode: self.output_mode@,
        }
    }
}

impl Dictation {
    /// The dictation's invariant.
    pub closed spec fn wf(&self) -> bool {
        self.session.wf()
    }

    /// Starts a dictation on audio of this sample rate; what is to be done first
    /// is to wait for audio.
    pub fn new(sample_rate: u32, enter: bool, output_mode: &str) -> (r: Result<Dictation, VadError>)
        ensures
            match r {
                Ok(d) => {
                    &&& sample_rate == DETECTION_RATE
                    &&& d.wf()
                    &&& d@ == start(enter, output_mode@)
                },
                Err(e) => sample_rate != DETECTION_RATE && e == VadError::SampleRate(sample_rate),
            },
    {
        match VadSession::new(sample_rate) {
            Ok(session) => Ok(
                Dictation {
                    phase: Phase::Listening,
                    last: false,
                    session,
                    transcript: Transcript::new(),
                    enter,
                    output_mode: output_mode.to_owned(),
                },
            ),
            Err(e) => Err(e),
        }
    }

    /// The text so far.
    pub fn text(&self) -> (r: &str)
        ensures
            r@ == self@.transcript,
    {
        self.transcript.text()
    }

    /// Ends the dictation.
    fn end(&mut self) -> (action: Action)
        requires
            old(self).wf(),
        ensures
            final(self).wf(),
            (final(self)@, action@) == ended(old(self)@),
    {
        self.phase = Phase::Done;
        Action::Finish(self.transcript.ending(self.enter, self.output_mode.as_str()))
    }

    /// Goes on once nothing is in hand.
    fn resume(&mut self) -> (action: Action)
        requires
            old(self).wf(),
        ensures
            final(self).wf(),
            (final(self)@, action@) == resumed(old(self)@),
    {
        if self.last {
            self.end()
        } else {
            match self.session.next_utterance() {
                Some(samples) => {
                    self.phase = Phase::Saving;
                    Action::Save(samples)
                },
                None => {
                    self.phase = Phase::Listening;
                    Action::Listen
                },
            }
        }
    }

    /// Goes on to the last utterance, or to the end.
    fn wind_up(&mut self) -> (action: Action)
        requires
            old(self).wf(),
        ensures
            final(self).wf(),
            (final(self)@, action@) == wound_up(old(self)@),
    {
        self.last = true;
        match self.session.flush() {
            Some(samples) => {
                self.phase = Phase::Saving;
                Action::Save(samples)
            },
            None => self.end(),
        }
    }

    /// Takes note of an event and says what is to be done next. An event that is
    /// not waited for changes nothing and asks for nothing.
    pub fn handle(&mut self, event: Event) -> (action: Option<Action>)
        requires
            old(self).wf(),
        ensures
            final(self).wf(),
            match action {
                None => !awaited(old(self)@, event) && final(self)@ == old(self)@,
                Some(a) => awaited(old(self)@, event) && (final(self)@, a@) == next(
                    old(self)@,
                    event,
                ),
            },
    {
        match event {
            Event::Audio { chunk, stopped } => {
                if self.phase != Phase::Listening {
                    return None;
                }
                if stopped {
                    Some(self.wind_up())
                } else {
                    self.session.feed(&chunk);
                    Some(self.resume())
                }
            },
            Event::AudioEnded => {
                if self.phase != Phase::Listening {
                    return None;
                }
                Some(self.wind_up())
            },
            Event::Saved(stored) => {
                if self.phase != Phase::Saving {
                    return None;
                }
                if stored {
                    self.phase = Phase::Transcribing;
                    Some(Action::Transcribe)
                } else {
                    Some(self.resume())
                }
            },
            Event::Transcribed(piece) => {
                if self.phase != Phase::Transcribing {
                    return None;
                }
                let delivery: Option<Delivery> = match &piece {
                    Some(piece) => self.transcript.add_piece(
                        piece.as_str(),
                        self.output_mode.as_str(),
                    ),
                    None => None,
                };
                match delivery {
                    Some(d) => {
                        self.phase = Phase::Delivering;
                        Some(Action::Deliver(d))
                    },
                    None => {
                        self.phase = Phase::Discarding;
                        Some(Action::Discard)
                    },
                }
            },
            Event::Delivered => {
                if self.phase != Phase::Delivering {
                    return None;
                }
                self.phase = Phase::Discarding;
                Some(Action::Discard)
            },
            Event::Discarded => {
                if self.phase != Phase::Discarding {
                    return None;
                }
                Some(self.resume())
            },
        }
    }
}

/// What a dictation waits for: audio or its end while it listens, and else the
/// outcome of what it asked for last, and nothing when it is done.
pub proof fn lemma_what_is_awaited(v: DictationView, event: Event)
    ensures
        awaited(v, event) <==> match v.phase {
            Phase::Listening => event is Audio || event is AudioEnded,
            Phase::Saving => event is Saved,
            Phase::Transcribing => event is Transcribed,
            Phase::Delivering => event is Delivered,
            Phase::Discarding => event is Discarded,
            Phase::Done => false,
        },
{
}

/// A dictation starts by listening, without audio and without text, and knows what
/// it was asked for.
pub proof fn lemma_how_a_dictation_starts(enter: bool, output_mode: Seq<char>)
    ensures
        ({
            let v = start(enter, output_mode);
            &&& v.phase == Phase::Listening
            &&& !v.last
            &&& v.transcript.len() == 0
            &&& v.enter == enter
            &&& v.output_mode == output_mode
            &&& v.session.pending.len() == 0
            &&& v.session.judged.len() == 0
            &&& !v.session.segmenter.active
            &&& v.session.segmenter.speech.len() == 0
        }),
{
}

/// What was asked for at the start never changes; the text changes only when a
/// piece that is not empty has been transcribed, and then the piece is added to it;
/// and audio that counts is put behind the audio at hand.
pub proof fn lemma_what_an_event_changes(v: DictationView, event: Event)
    requires
        awaited(v, event),
    ensures
        ({
            let w = next(v, event).0;
            &&& w.enter == v.enter
            &&& w.output_mode == v.output_mode
            &&& match event {
                Event::Transcribed(Some(piece)) => w.transcript == if piece@.len() > 0 {
                    joined(v.transcript, piece@)
                } else {
                    v.transcript
                },
                _ => w.transcript == v.transcript,
            }
            &&& match event {
                Event::Audio { chunk, stopped } => !stopped && !v.last ==> {
                    &&& !w.last
                    &&& w.session == scan(
                        SessionState { pending: v.session.pending + chunk@, ..v.session },
                    ).0
                },
                Event::AudioEnded => true,
                _ => w.last == v.last,
            }
        }),
{
}

/// An utterance that was stored is transcribed. Its text, where it has any, is
/// handed out: all the text so far, and the piece to be typed unless text goes to
/// the clipboard only. Then, and also where there is no text, what was stored is
/// removed.
pub proof fn lemma_what_becomes_of_an_utterance(v: DictationView, piece: String)
    ensures
        next(v, Event::Saved(true)).1 == ActionView::Transcribe,
        next(v, Event::Saved(true)).0.phase == Phase::Transcribing,
        next(v, Event::Transcribed(None)).1 == ActionView::Discard,
        next(v, Event::Transcribed(None)).0.phase == Phase::Discarding,
        piece@.len() == 0 ==> next(v, Event::Transcribed(Some(piece))).1 == ActionView::Discard,
        piece@.len() > 0 ==> next(v, Event::Transcribed(Some(piece))).1 == ActionView::Deliver(
            joined(v.transcript, piece@),
            if v.output_mode == "clipboard"@ {
                None
            } else {
                Some(typed(piece@))
            },
        ),
        piece@.len() > 0 ==> next(v, Event::Transcribed(Some(piece))).0.phase == Phase::Delivering,
        piece@.len() == 0 ==> next(v, Event::Transcribed(Some(piece))).0.phase == Phase::Discarding,
        next(v, Event::Delivered).1 == ActionView::Discard,
        next(v, Event::Delivered).0.phase == Phase::Discarding,
{
}

/// Once an utterance is removed or could not be stored, or audio has come in, the
/// dictation goes on: after the last utterance to the end, and else with the next
/// utterance that is found, or by listening where none is.
pub proof fn lemma_how_a_dictation_goes_on(v: DictationView, chunk: Vec<u8>)
    ensures
        next(v, Event::Saved(false)) == next(v, Event::Discarded),
        v.last ==> next(v, Event::Discarded).1 is Finish && next(v, Event::Discarded).0.phase
            == Phase::Done,
        !v.last ==> match scan(v.session).1 {
            Some(u) => next(v, Event::Discarded).1 == ActionView::Save(u) && next(
                v,
                Event::Discarded,
            ).0.phase == Phase::Saving,
            None => next(v, Event::Discarded).1 == ActionView::Listen && next(
                v,
                Event::Discarded,
            ).0.phase == Phase::Listening,
        },
        !v.last ==> next(v, Event::Audio { chunk, stopped: false }) == next(
            DictationView {
                session: SessionState { pending: v.session.pending + chunk@, ..v.session },
                ..v
            },
            Event::Discarded,
        ),
{
}

/// When the user stops, or no audio is left, audio that comes with the stop does
/// not count. The open utterance is stored whole, as the last one, where it has at
/// least 4800 samples; where it has fewer the dictation ends.
pub proof fn lemma_how_a_dictation_stops(v: DictationView, chunk: Vec<u8>)
    ensures
        next(v, Event::Audio { chunk, stopped: true }) == next(v, Event::AudioEnded),
        next(v, Event::AudioEnded).0.last,
        v.session.segmenter.speech.len() >= 4800 ==> next(v, Event::AudioEnded).1
            == ActionView::Save(v.session.segmenter.speech) && next(v, Event::AudioEnded).0.phase
            == Phase::Saving,
        v.session.segmenter.speech.len() < 4800 ==> next(v, Event::AudioEnded).1 is Finish && next(
            v,
            Event::AudioEnded,
        ).0.phase == Phase::Done,
{
}

/// At the end the history gets the text without the white space around it, and
/// Enter is pressed if and only if it was asked for, there is such text, and the
/// output mode is not the clipboard.
pub proof fn lemma_how_a_dictation_ends(v: DictationView, event: Event)
    requires
        awaited(v, event),
        next(v, event).1 is Finish,
    ensures
        next(v, event).1 == ActionView::Finish(
            v.enter && v.output_mode != "clipboard"@ && trimmed(v.transcript).len() > 0,
            trimmed(v.transcript),
        ),
        next(v, event).0.phase == Phase::Done,
        next(v, event).0.transcript == v.transcript,
{
}

} // verus!
