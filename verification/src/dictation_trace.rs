//! What a dictation has done after any run of events.

use vstd::prelude::*;

use crate::dictation::{
    awaited, lemma_how_a_dictation_ends, lemma_what_an_event_changes, next, piece_of, resumed,
    start, wound_up, ActionView, DictationView, Event, Phase,
};
use crate::output::typed;
use crate::pcm::samples_of;
use crate::segmenter::kept;
use crate::stream::{
    drained, heard_in, if_any, lemma_draining_early_changes_nothing, lemma_frame_offsets,
    lemma_frames_are_samples, lemma_how_a_stream_is_cut, lemma_scan_until_none,
    lemma_session_cuts_stream, lemma_stream_frames_are_full, lemma_what_is_open, utterances_from,
    Cut,
};
use crate::text::{lemma_trimmed, trimmed};
use crate::transcript::{
    collected, key_strokes, lemma_clipboard_only, lemma_typing_follows_text,
};
use crate::utterances::{state_after, voiced_pair};
use crate::vad::{after_next, completed_next, fed, fresh, scan, SessionState, FRAME_BYTES};

verus! {

/// What has become of a dictation.
pub struct Trace {
    /// Its state.
    pub now: DictationView,
    /// The audio that it took in.
    pub audio: Seq<u8>,
    /// The utterances that it had stored.
    pub saved: Seq<Seq<i16>>,
    /// The pieces of text that came back.
    pub pieces: Seq<Seq<char>>,
}

/// The audio that an event adds to a dictation.
pub open spec fn audio_of(event: Event) -> Seq<u8> {
    match event {
        Event::Audio { chunk, stopped: false } => chunk@,
        _ => Seq::empty(),
    }
}

/// The utterance that an action stores.
pub open spec fn saved_by(action: ActionView) -> Option<Seq<i16>> {
    match action {
        ActionView::Save(u) => Some(u),
        _ => None,
    }
}

/// A trace with one more event.
pub open spec fn extended(t: Trace, event: Event) -> Trace {
    if awaited(t.now, event) {
        Trace {
            now: next(t.now, event).0,
            audio: t.audio + audio_of(event),
            saved: t.saved + if_any(saved_by(next(t.now, event).1)),
            pieces: if piece_of(event).len() > 0 {
                t.pieces.push(piece_of(event))
            } else {
                t.pieces
            },
        }
    } else {
        t
    }
}

/// The trace of a dictation that these events happened to.
pub open spec fn trace(enter: bool, output_mode: Seq<char>, events: Seq<Event>) -> Trace
    decreases events.len(),
{
    if events.len() == 0 {
        Trace {
            now: start(enter, output_mode),
            audio: Seq::empty(),
            saved: Seq::empty(),
            pieces: Seq::empty(),
        }
    } else {
        extended(trace(enter, output_mode, events.drop_last()), events.last())
    }
}

/// How what was stored relates to the audio: while audio may still come, the
/// utterances that were stored and those still to be found in the bytes at hand
/// are those of the audio; after that, all of them have been stored, and behind
/// them the one that was open at the end, where it was long enough.
spec fn saved_matches_audio(t: Trace) -> bool {
    let all = drained(fed(fresh(), t.audio));
    if t.now.last {
        t.saved == all.1 + if_any(kept(all.0.segmenter.speech))
    } else {
        &&& all == (drained(t.now.session).0, t.saved + drained(t.now.session).1)
        &&& t.now.phase == Phase::Listening ==> t.now.session.pending.len() < FRAME_BYTES
        &&& t.now.phase != Phase::Done
    }
}

/// Going on keeps the relation between what was stored and the audio.
proof fn lemma_resumed(t: Trace, v: DictationView, audio: Seq<u8>)
    requires
        t.now.last == v.last,
        !v.last ==> drained(fed(fresh(), audio)) == (
            drained(v.session).0,
            t.saved + drained(v.session).1,
        ),
        v.last ==> audio == t.audio && saved_matches_audio(t),
    ensures
        saved_matches_audio(
            Trace {
                now: resumed(v).0,
                audio,
                saved: t.saved + if_any(saved_by(resumed(v).1)),
                pieces: t.pieces,
            },
        ),
{
    let u = saved_by(resumed(v).1);
    if v.last {
        assert(t.saved + if_any(u) =~= t.saved);
    } else {
        lemma_scan_until_none(v.session);
        let after = drained(scan(v.session).0).1;
        match scan(v.session).1 {
            Some(x) => {
                assert(t.saved + (seq![x] + after) =~= (t.saved + seq![x]) + after);
            },
            None => {
                assert(t.saved + if_any(u) =~= t.saved);
                assert(t.saved + drained(v.session).1 =~= t.saved);
            },
        }
    }
}

/// Winding up stores the utterance that is open, where it is long enough.
proof fn lemma_wound_up(t: Trace)
    requires
        saved_matches_audio(t),
        t.now.phase == Phase::Listening,
        !t.now.last,
    ensures
        saved_matches_audio(
            Trace {
                now: wound_up(t.now).0,
                audio: t.audio,
                saved: t.saved + if_any(saved_by(wound_up(t.now).1)),
                pieces: t.pieces,
            },
        ),
{
    assert(t.saved + drained(t.now.session).1 =~= t.saved);
    assert(drained(t.now.session).0 == t.now.session);
    assert(saved_by(wound_up(t.now).1) == kept(t.now.session.segmenter.speech));
}

/// One event keeps the relation between what was stored and the audio.
proof fn lemma_extended(t: Trace, event: Event)
    requires
        saved_matches_audio(t),
        t.now.last ==> t.now.phase != Phase::Listening,
    ensures
        saved_matches_audio(extended(t, event)),
        extended(t, event).now.last ==> extended(t, event).now.phase != Phase::Listening,
{
    if awaited(t.now, event) {
        let a = next(t.now, event).1;
        let e = extended(t, event);
        assert(t.audio + Seq::<u8>::empty() =~= t.audio);
        assert(t.saved + Seq::<Seq<i16>>::empty() =~= t.saved);
        match event {
            Event::Audio { chunk, stopped } => {
                if stopped {
                    lemma_wound_up(t);
                } else {
                    let v = DictationView { session: fed(t.now.session, chunk@), ..t.now };
                    let session = t.now.session;
                    assert(drained(session) == (session, Seq::<Seq<i16>>::empty()));
                    assert(t.saved + Seq::<Seq<i16>>::empty() =~= t.saved);
                    lemma_draining_early_changes_nothing(fed(fresh(), t.audio), chunk@);
                    assert(fed(fed(fresh(), t.audio), chunk@).pending =~= fed(
                        fresh(),
                        t.audio + chunk@,
                    ).pending);
                    lemma_resumed(t, v, t.audio + chunk@);
                }
            },
            Event::AudioEnded => {
                lemma_wound_up(t);
            },
            Event::Saved(stored) => {
                if !stored {
                    lemma_resumed(t, t.now, t.audio);
                }
            },
            Event::Discarded => {
                lemma_resumed(t, t.now, t.audio);
            },
            _ => {},
        }
    }
}

/// The relation holds of every trace.
proof fn lemma_trace(enter: bool, output_mode: Seq<char>, events: Seq<Event>)
    ensures
        saved_matches_audio(trace(enter, output_mode, events)),
        trace(enter, output_mode, events).now.last ==> trace(
            enter,
            output_mode,
            events,
        ).now.phase != Phase::Listening,
    decreases events.len(),
{
    if events.len() == 0 {
        let t = trace(enter, output_mode, events);
        assert(fed(fresh(), t.audio).pending =~= fresh().pending);
        assert(t.saved + drained(t.now.session).1 =~= Seq::<Seq<i16>>::empty());
    } else {
        lemma_trace(enter, output_mode, events.drop_last());
        lemma_extended(trace(enter, output_mode, events.drop_last()), events.last());
    }
}

/// While a dictation waits for audio, it has stored exactly the utterances of the
/// audio so far, in order, and has made of that audio what a session makes of it
/// in one go.
pub proof fn lemma_every_utterance_is_saved(
    enter: bool,
    output_mode: Seq<char>,
    events: Seq<Event>,
)
    requires
        trace(enter, output_mode, events).now.phase == Phase::Listening,
    ensures
        ({
            let t = trace(enter, output_mode, events);
            &&& t.saved == drained(fed(fresh(), t.audio)).1
            &&& t.now.session == drained(fed(fresh(), t.audio)).0
        }),
{
    lemma_trace(enter, output_mode, events);
    let t = trace(enter, output_mode, events);
    assert(t.saved + drained(t.now.session).1 =~= t.saved);
}

/// When a dictation is over, it has stored the utterances of its audio, in
/// order, and behind them the one that was open at the end, where it was long
/// enough.
pub proof fn lemma_last_utterance_is_saved(enter: bool, output_mode: Seq<char>, events: Seq<Event>)
    requires
        trace(enter, output_mode, events).now.phase == Phase::Done,
    ensures
        ({
            let t = trace(enter, output_mode, events);
            let all = drained(fed(fresh(), t.audio));
            t.saved == all.1 + if_any(kept(all.0.segmenter.speech))
        }),
{
    lemma_trace(enter, output_mode, events);
}

/// The text of a dictation is that of the pieces that came back, in order; empty
/// ones do not count.
pub proof fn lemma_text_is_collected(enter: bool, output_mode: Seq<char>, events: Seq<Event>)
    ensures
        ({
            let t = trace(enter, output_mode, events);
            &&& t.now.transcript == collected(t.pieces)
            &&& forall|i: int| 0 <= i < t.pieces.len() ==> (#[trigger] t.pieces[i]).len() > 0
        }),
    decreases events.len(),
{
    if events.len() > 0 {
        lemma_text_is_collected(enter, output_mode, events.drop_last());
        let before = trace(enter, output_mode, events.drop_last());
        let event = events.last();
        if awaited(before.now, event) && piece_of(event).len() > 0 {
            let pieces = before.pieces.push(piece_of(event));
            assert(pieces.drop_last() =~= before.pieces);
            assert(pieces.last() == piece_of(event));
        }
    }
}

/// What a dictation types is its text, with a space behind it.
pub proof fn lemma_typed_text(enter: bool, output_mode: Seq<char>, events: Seq<Event>)
    requires
        trace(enter, output_mode, events).pieces.len() > 0,
    ensures
        ({
            let t = trace(enter, output_mode, events);
            key_strokes(t.pieces) == typed(t.now.transcript)
        }),
{
    lemma_text_is_collected(enter, output_mode, events);
    lemma_typing_follows_text(trace(enter, output_mode, events).pieces);
}

/// A dictation that is over stays so: no event is waited for any more.
pub proof fn lemma_done_is_final(v: DictationView, event: Event)
    requires
        v.phase == Phase::Done,
    ensures
        !awaited(v, event),
{
}

/// After the last audio none is waited for again.
pub proof fn lemma_no_audio_after_the_last(
    enter: bool,
    output_mode: Seq<char>,
    events: Seq<Event>,
    event: Event,
)
    requires
        trace(enter, output_mode, events).now.last,
        event is Audio || event is AudioEnded,
    ensures
        !awaited(trace(enter, output_mode, events).now, event),
{
    lemma_trace(enter, output_mode, events);
}

/// How many steps an utterance in hand may still take.
pub open spec fn steps_left(phase: Phase) -> nat {
    match phase {
        Phase::Listening => 0,
        Phase::Saving => 4,
        Phase::Transcribing => 3,
        Phase::Delivering => 2,
        Phase::Discarding => 1,
        Phase::Done => 0,
    }
}

/// Looking for an utterance uses bytes up and never adds any.
proof fn lemma_scan_uses_bytes(s: SessionState)
    ensures
        scan(s).0.pending.len() <= s.pending.len(),
        scan(s).1 is Some ==> scan(s).0.pending.len() < s.pending.len(),
    decreases s.pending.len(),
{
    if s.pending.len() >= FRAME_BYTES && completed_next(s) is None {
        lemma_scan_uses_bytes(after_next(s));
    }
}

/// A dictation does not go round in circles: every event between two chunks of
/// audio takes the utterance in hand a step further, or uses up bytes that were
/// pending.
pub proof fn lemma_dictation_makes_progress(v: DictationView, event: Event)
    requires
        awaited(v, event),
        v.phase != Phase::Listening,
    ensures
        ({
            let w = next(v, event).0;
            ||| w.session.pending.len() < v.session.pending.len()
            ||| w.session.pending.len() == v.session.pending.len() && steps_left(w.phase)
                < steps_left(v.phase)
        }),
{
    lemma_scan_uses_bytes(v.session);
}

/// What a dictation has asked for, in order.
pub open spec fn actions(enter: bool, output_mode: Seq<char>, events: Seq<Event>) -> Seq<ActionView>
    decreases events.len(),
{
    if events.len() == 0 {
        Seq::empty()
    } else {
        let before = actions(enter, output_mode, events.drop_last());
        let v = trace(enter, output_mode, events.drop_last()).now;
        if awaited(v, events.last()) {
            before.push(next(v, events.last()).1)
        } else {
            before
        }
    }
}

/// How what was asked for relates to the state of a dictation.
spec fn actions_match(
    enter: bool,
    output_mode: Seq<char>,
    asked: Seq<ActionView>,
    t: Trace,
) -> bool {
    &&& t.now.enter == enter
    &&& t.now.output_mode == output_mode
    &&& forall|i: int|
        0 <= i < asked.len() && #[trigger] asked[i] is Deliver ==> (asked[i]->Deliver_1 is Some
            <==> output_mode != "clipboard"@)
    &&& t.pieces.len() > 0 ==> exists|i: int| 0 <= i < asked.len() && #[trigger] asked[i] is Deliver
    &&& forall|i: int|
        0 <= i < asked.len() && #[trigger] asked[i] is Finish ==> {
            &&& i == asked.len() - 1
            &&& t.now.phase == Phase::Done
            &&& asked[i]->Finish_1 == trimmed(t.now.transcript)
            &&& asked[i]->Finish_0 == (enter && output_mode != "clipboard"@ && trimmed(
                t.now.transcript,
            ).len() > 0)
        }
}

/// The relation between what was asked for and the state always holds.
proof fn lemma_actions(enter: bool, output_mode: Seq<char>, events: Seq<Event>)
    ensures
        actions_match(
            enter,
            output_mode,
            actions(enter, output_mode, events),
            trace(enter, output_mode, events),
        ),
    decreases events.len(),
{
    if events.len() > 0 {
        let short = events.drop_last();
        let event = events.last();
        lemma_actions(enter, output_mode, short);
        let before = trace(enter, output_mode, short);
        let v = before.now;
        if awaited(v, event) {
            lemma_what_an_event_changes(v, event);
            if next(v, event).1 is Finish {
                lemma_how_a_dictation_ends(v, event);
            }
            let old = actions(enter, output_mode, short);
            let asked = actions(enter, output_mode, events);
            let t = trace(enter, output_mode, events);
            let n = old.len() as int;
            assert(asked[n] == next(v, event).1);
            assert forall|i: int| 0 <= i < n implies #[trigger] asked[i] == old[i] by {}
            assert forall|i: int| 0 <= i < asked.len() && #[trigger] asked[i] is Finish implies i
                == n by {
                if i < n {
                    assert(old[i] is Finish);
                }
            }
            assert forall|i: int| 0 <= i < asked.len() && #[trigger] asked[i] is Deliver implies (
            asked[i]->Deliver_1 is Some <==> output_mode != "clipboard"@) by {
                if i < n {
                    assert(old[i] is Deliver);
                }
            }
            if t.pieces.len() > 0 {
                if before.pieces.len() > 0 {
                    let i = choose|i: int| 0 <= i < old.len() && #[trigger] old[i] is Deliver;
                    assert(asked[i] is Deliver);
                } else {
                    assert(asked[n] is Deliver);
                }
            }
        }
    }
}

/// When a dictation ends, whatever has happened to it: the history is the text of
/// the pieces that came back, without the white space around it. Enter is pressed
/// if and only if it was asked for at the start, there is such text, and something
/// was typed. And in the output mode for the clipboard nothing is ever typed and
/// Enter is never pressed.
pub proof fn lemma_enter_follows_typing(
    enter: bool,
    output_mode: Seq<char>,
    events: Seq<Event>,
    i: int,
)
    requires
        0 <= i < actions(enter, output_mode, events).len(),
        actions(enter, output_mode, events)[i] is Finish,
    ensures
        ({
            let asked = actions(enter, output_mode, events);
            let pressed = asked[i]->Finish_0;
            let history = asked[i]->Finish_1;
            let text = collected(trace(enter, output_mode, events).pieces);
            let typed_something = exists|j: int|
                0 <= j < i && #[trigger] asked[j] is Deliver && asked[j]->Deliver_1 is Some;
            &&& history == trimmed(text)
            &&& pressed <==> enter && history.len() > 0 && typed_something
            &&& output_mode == seq!['c', 'l', 'i', 'p', 'b', 'o', 'a', 'r', 'd'] ==> !pressed
                && !typed_something
            &&& i == asked.len() - 1
        }),
{
    let asked = actions(enter, output_mode, events);
    let t = trace(enter, output_mode, events);
    lemma_actions(enter, output_mode, events);
    lemma_text_is_collected(enter, output_mode, events);
    lemma_clipboard_only(output_mode);
    if trimmed(t.now.transcript).len() > 0 {
        if t.pieces.len() == 0 {
            assert(collected(t.pieces) =~= Seq::<char>::empty());
            let bounds = lemma_trimmed(collected(t.pieces));
            assert(false);
        }
        let j = choose|j: int| 0 <= j < asked.len() && #[trigger] asked[j] is Deliver;
        assert(j != i);
        assert(asked[j]->Deliver_1 is Some <==> output_mode != "clipboard"@);
    }
}

/// What a dictation has stored when it is over, in terms of the bytes that it was
/// given: for each utterance that silence ended the samples of all its frames, and
/// behind them, where an utterance was open at the end and is at least ten frames
/// long, the samples of all its frames up to the last whole frame. Nothing else is
/// stored.
pub proof fn lemma_what_a_dictation_stores(
    enter: bool,
    output_mode: Seq<char>,
    events: Seq<Event>,
) -> (r: (Seq<Cut>, (int, int, int)))
    requires
        trace(enter, output_mode, events).now.phase == Phase::Done,
    ensures
        ({
            let t = trace(enter, output_mode, events);
            let heard = heard_in(t.audio);
            let n = (t.audio.len() / 960) as int;
            let (cuts, (done, first, onset)) = r;
            let open = exists|i: int| done < i < n && #[trigger] voiced_pair(heard, i);
            &&& heard.len() == n
            &&& done == if cuts.len() == 0 {
                0
            } else {
                cuts.last().end
            }
            &&& utterances_from(heard, 0).len() == cuts.len()
            &&& t.saved.len() == cuts.len() + if open && n - first >= 10 {
                1int
            } else {
                0int
            }
            &&& forall|k: int|
                0 <= k < cuts.len() ==> {
                    let cut = #[trigger] cuts[k];
                    &&& 0 <= cut.first < cut.end <= n
                    &&& t.saved[k] == samples_of(
                        t.audio.subrange(960 * cut.first, 960 * cut.end),
                    )
                }
            &&& open ==> {
                &&& 0 <= done <= first <= onset < n
                &&& voiced_pair(heard, onset)
                &&& forall|i: int| done < i < onset ==> !#[trigger] voiced_pair(heard, i)
                &&& first == onset - 5 || (first == done && done >= onset - 5)
            }
            &&& open && n - first >= 10 ==> t.saved.last() == samples_of(
                t.audio.subrange(960 * first, 960 * n),
            )
        }),
{
    let t = trace(enter, output_mode, events);
    let bytes = t.audio;
    let heard = heard_in(bytes);
    let n = heard.len() as int;
    lemma_last_utterance_is_saved(enter, output_mode, events);
    lemma_session_cuts_stream(bytes);
    lemma_stream_frames_are_full(bytes);
    lemma_frame_offsets(bytes, n);
    let cuts = lemma_how_a_stream_is_cut(heard);
    let open = lemma_what_is_open(heard);
    let (done, first, onset) = open;
    let s = state_after(heard);
    let ended = utterances_from(heard, 0);
    assert(t.saved == ended + if_any(kept(s.speech)));
    assert forall|k: int| 0 <= k < cuts.len() implies {
        let cut = #[trigger] cuts[k];
        &&& 0 <= cut.first < cut.end <= n
        &&& t.saved[k] == samples_of(bytes.subrange(960 * cut.first, 960 * cut.end))
    } by {
        let cut = cuts[k];
        assert(t.saved[k] == ended[k]);
        lemma_frame_offsets(bytes, cut.first);
        lemma_frame_offsets(bytes, cut.end);
        lemma_frames_are_samples(bytes, cut.first, cut.end);
    }
    if s.active {
        assert(voiced_pair(heard, onset));
        lemma_frame_offsets(bytes, first);
        lemma_frames_are_samples(bytes, first, n);
    }
    (cuts, open)
}

} // verus!
