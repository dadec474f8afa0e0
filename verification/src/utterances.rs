//! What a whole stream of classified frames is cut into.

use vstd::prelude::*;

use crate::segmenter::{
    after_frame, closes, completed, idle, last_n, reachable_shape, SegmenterState, FRAME_SAMPLES,
    PRE_SPEECH_FRAMES, SILENCE_THRESHOLD,
};

verus! {

/// A frame, with the decision whether it carries voice.
pub struct HeardFrame {
    pub samples: Seq<i16>,
    pub voice: bool,
}

/// The state of a segmenter that has heard these frames and no others.
pub open spec fn state_after(heard: Seq<HeardFrame>) -> SegmenterState
    decreases heard.len(),
{
    if heard.len() == 0 {
        idle()
    } else {
        after_frame(state_after(heard.drop_last()), heard.last().samples, heard.last().voice)
    }
}

/// Whether the last of these frames ends an utterance.
pub open spec fn ends_utterance(heard: Seq<HeardFrame>) -> bool {
    heard.len() > 0 && closes(state_after(heard.drop_last()), heard.last().voice)
}

/// The utterance that the last of these frames completes, if it completes one.
pub open spec fn utterance_at(heard: Seq<HeardFrame>) -> Option<Seq<i16>>
    recommends
        heard.len() > 0,
{
    completed(state_after(heard.drop_last()), heard.last().samples, heard.last().voice)
}

/// How many frames had been heard when the last utterance ended; zero before that.
pub open spec fn last_end(heard: Seq<HeardFrame>) -> int
    decreases heard.len(),
{
    if heard.len() == 0 {
        0
    } else if ends_utterance(heard) {
        heard.len() as int
    } else {
        last_end(heard.drop_last())
    }
}

/// The frames from `from` up to `to`, each as its samples.
pub open spec fn frames_between(heard: Seq<HeardFrame>, from: int, to: int) -> Seq<Seq<i16>> {
    heard.subrange(from, to).map_values(|h: HeardFrame| h.samples)
}

/// Whether frame `i` and the one before it both carry voice.
pub open spec fn voiced_pair(heard: Seq<HeardFrame>, i: int) -> bool {
    heard[i - 1].voice && heard[i].voice
}

/// Whether no frame from `from` up to `to` carries voice.
pub open spec fn quiet(heard: Seq<HeardFrame>, from: int, to: int) -> bool {
    forall|i: int| from <= i < to ==> !(#[trigger] heard[i]).voice
}

/// Where an utterance begins that speech at frame `onset` opens: a few frames
/// earlier, but not before the end of the utterance before it.
pub open spec fn first_frame(heard: Seq<HeardFrame>, onset: int) -> int {
    if onset - PRE_SPEECH_FRAMES > last_end(heard) {
        onset - PRE_SPEECH_FRAMES
    } else {
        last_end(heard)
    }
}

/// Whether an utterance is open that frame `onset` opened: `onset` is the first
/// frame since the last utterance that is voiced after a voiced frame, and no
/// run of silent frames since then has been long enough to end it.
pub open spec fn open_since(heard: Seq<HeardFrame>, onset: int) -> bool {
    let n = heard.len() as int;
    &&& last_end(heard) < onset < n
    &&& voiced_pair(heard, onset)
    &&& forall|i: int| last_end(heard) < i < onset ==> !#[trigger] voiced_pair(heard, i)
    &&& forall|m: int|
        onset + SILENCE_THRESHOLD < m <= n ==> !#[trigger] quiet(heard, m - SILENCE_THRESHOLD, m)
}

/// Whether no utterance is open: since the last one no two frames in a row
/// carried voice.
pub open spec fn waiting(heard: Seq<HeardFrame>) -> bool {
    forall|i: int|
        last_end(heard) < i < heard.len() ==> !#[trigger] voiced_pair(heard, i)
}

/// Dropping the last frame changes nothing about the frames before it.
pub(crate) proof fn lemma_quiet_prefix(heard: Seq<HeardFrame>, from: int, to: int)
    requires
        0 <= from,
        to < heard.len(),
    ensures
        quiet(heard, from, to) == quiet(heard.drop_last(), from, to),
{
    let short = heard.drop_last();
    assert forall|i: int| from <= i < to implies heard[i] == #[trigger] short[i] by {}
    if quiet(heard, from, to) {
        assert forall|i: int| from <= i < to implies !(#[trigger] short[i]).voice by {
            assert(!heard[i].voice);
        }
    }
    if quiet(short, from, to) {
        assert forall|i: int| from <= i < to implies !(#[trigger] heard[i]).voice by {
            assert(!short[i].voice);
        }
    }
}

/// How the state of a segmenter reads off the frames it has heard, where frame
/// `onset` opened the utterance that is open.
spec fn matches_open(heard: Seq<HeardFrame>, onset: int) -> bool {
    let s = state_after(heard);
    let n = heard.len() as int;
    &&& s.active
    &&& open_since(heard, onset)
    &&& s.speech == frames_between(heard, first_frame(heard, onset), n).flatten()
    &&& s.pre.len() == 0
    &&& s.silence < SILENCE_THRESHOLD
    &&& onset < n - s.silence
    &&& heard[n - s.silence - 1].voice
    &&& quiet(heard, n - s.silence, n)
}

/// How the state of a segmenter reads off the frames it has heard, where no
/// utterance is open.
spec fn matches_waiting(heard: Seq<HeardFrame>) -> bool {
    let s = state_after(heard);
    let n = heard.len() as int;
    let e = last_end(heard);
    &&& !s.active
    &&& waiting(heard)
    &&& s.speech.len() == 0
    &&& s.silence == 0
    &&& s.voice == (if n > e && heard[n - 1].voice {
        1nat
    } else {
        0nat
    })
    &&& s.pre == frames_between(
        heard,
        if n - PRE_SPEECH_FRAMES > e {
            n - PRE_SPEECH_FRAMES
        } else {
            e
        },
        n,
    )
}

/// Every history reads in one of the two ways; gives the frame that opened the
/// utterance where one is open.
proof fn lemma_reading(heard: Seq<HeardFrame>) -> (onset: int)
    ensures
        0 <= last_end(heard) <= heard.len(),
        state_after(heard).active ==> matches_open(heard, onset),
        !state_after(heard).active ==> matches_waiting(heard),
    decreases heard.len(),
{
    let n = heard.len() as int;
    if n == 0 {
        assert(state_after(heard).pre =~= frames_between(heard, 0, 0));
        0
    } else {
        let short = heard.drop_last();
        let last = heard.last();
        let before = state_after(short);
        let s = state_after(heard);
        let e = last_end(short);
        let onset = lemma_reading(short);
        assert forall|i: int| 0 <= i < n - 1 implies #[trigger] heard[i] == short[i] by {}
        assert forall|i: int| 0 < i < n - 1 implies #[trigger] voiced_pair(heard, i) == voiced_pair(
            short,
            i,
        ) by {
            assert(heard[i] == short[i] && heard[i - 1] == short[i - 1]);
        }
        if ends_utterance(heard) {
            assert(s == idle());
            assert(s.pre =~= frames_between(heard, n, n));
            assert(waiting(heard));
            0
        } else {
            assert(last_end(heard) == e);
            if before.active {
                lemma_still_open(heard, onset);
                onset
            } else if s.active {
                lemma_opened(heard);
                n - 1
            } else {
                lemma_still_waiting(heard);
                0
            }
        }
    }
}

/// One more frame for an open utterance.
proof fn lemma_still_open(heard: Seq<HeardFrame>, onset: int)
    requires
        heard.len() > 0,
        matches_open(heard.drop_last(), onset),
        !ends_utterance(heard),
        0 <= last_end(heard.drop_last()) < heard.len(),
    ensures
        matches_open(heard, onset),
{
    let n = heard.len() as int;
    let short = heard.drop_last();
    let last = heard.last();
    let before = state_after(short);
    let s = state_after(heard);
    let start = first_frame(short, onset);
    assert(heard[n - 1] == last);
    assert(first_frame(heard, onset) == start);
    let old_frames = frames_between(short, start, n - 1);
    assert(frames_between(heard, start, n) =~= old_frames.push(last.samples));
    old_frames.lemma_flatten_push(last.samples);
    assert(s.speech == frames_between(heard, start, n).flatten());
    assert(voiced_pair(heard, onset) == voiced_pair(short, onset));
    assert forall|i: int| last_end(heard) < i < onset implies !#[trigger] voiced_pair(heard, i) by {
        assert(!voiced_pair(short, i));
    }
    if last.voice {
        assert(quiet(heard, n, n));
    } else {
        assert(s.silence == before.silence + 1);
        assert forall|i: int| n - s.silence <= i < n implies !(#[trigger] heard[i]).voice by {
            if i < n - 1 {
                assert(heard[i] == short[i]);
            }
        }
        assert(heard[n - s.silence - 1] == short[(n - 1) - before.silence - 1]);
    }
    assert forall|m: int| onset + SILENCE_THRESHOLD < m <= n implies !#[trigger] quiet(
        heard,
        m - SILENCE_THRESHOLD,
        m,
    ) by {
        if m < n {
            lemma_quiet_prefix(heard, m - SILENCE_THRESHOLD, m);
            assert(!quiet(short, m - SILENCE_THRESHOLD, m));
        } else if quiet(heard, m - SILENCE_THRESHOLD, m) {
            let j = n - s.silence - 1;
            assert(m - SILENCE_THRESHOLD <= j < m);
            assert(heard[j].voice);
        }
    }
}

/// The frame that opens an utterance.
proof fn lemma_opened(heard: Seq<HeardFrame>)
    requires
        heard.len() > 0,
        matches_waiting(heard.drop_last()),
        state_after(heard).active,
        !ends_utterance(heard),
        0 <= last_end(heard.drop_last()) < heard.len(),
    ensures
        matches_open(heard, heard.len() - 1),
{
    let n = heard.len() as int;
    let short = heard.drop_last();
    let last = heard.last();
    let before = state_after(short);
    let s = state_after(heard);
    let e = last_end(short);
    let onset = n - 1;
    assert(heard[n - 1] == last);
    assert(last.voice && before.voice == 1);
    assert(n - 1 > e && short[n - 2].voice);
    assert(heard[n - 2] == short[n - 2]);
    assert(voiced_pair(heard, onset));
    let start = first_frame(heard, onset);
    assert(frames_between(heard, start, n) =~= before.pre.push(last.samples));
    before.pre.lemma_flatten_push(last.samples);
    assert(s.speech =~= before.pre.flatten() + last.samples);
    assert forall|i: int| last_end(heard) < i < onset implies !#[trigger] voiced_pair(heard, i) by {
        assert(heard[i] == short[i] && heard[i - 1] == short[i - 1]);
        assert(!voiced_pair(short, i));
    }
    assert(quiet(heard, n, n));
}

/// One more frame while no utterance is open.
proof fn lemma_still_waiting(heard: Seq<HeardFrame>)
    requires
        heard.len() > 0,
        matches_waiting(heard.drop_last()),
        !state_after(heard).active,
        !ends_utterance(heard),
        0 <= last_end(heard.drop_last()) < heard.len(),
    ensures
        matches_waiting(heard),
{
    let n = heard.len() as int;
    let short = heard.drop_last();
    let last = heard.last();
    let before = state_after(short);
    let s = state_after(heard);
    let e = last_end(short);
    assert(heard[n - 1] == last);
    assert forall|i: int| last_end(heard) < i < n implies !#[trigger] voiced_pair(heard, i) by {
        if i < n - 1 {
            assert(heard[i] == short[i] && heard[i - 1] == short[i - 1]);
            assert(!voiced_pair(short, i));
        } else if heard[n - 1].voice {
            assert(before.voice == 0);
            assert(heard[n - 2] == short[n - 2]);
        }
    }
    let old_start = if n - 1 - PRE_SPEECH_FRAMES > e {
        n - 1 - PRE_SPEECH_FRAMES
    } else {
        e
    };
    let start = if n - PRE_SPEECH_FRAMES > e {
        n - PRE_SPEECH_FRAMES
    } else {
        e
    };
    assert(before.pre == frames_between(short, old_start, n - 1));
    assert(s.pre =~= frames_between(heard, start, n));
}

/// Every frame has the length that the detector takes.
pub open spec fn full_frames(heard: Seq<HeardFrame>) -> bool {
    forall|i: int| 0 <= i < heard.len() ==> (#[trigger] heard[i]).samples.len() == FRAME_SAMPLES
}

/// Whatever is heard, the segmenter's invariant holds.
pub proof fn lemma_shape_always_holds(heard: Seq<HeardFrame>)
    requires
        full_frames(heard),
    ensures
        reachable_shape(state_after(heard)),
    decreases heard.len(),
{
    if heard.len() > 0 {
        let short = heard.drop_last();
        let last = heard.last();
        assert(full_frames(short)) by {
            assert forall|i: int| 0 <= i < short.len() implies (#[trigger] short[i]).samples.len()
                == FRAME_SAMPLES by {
                assert(heard[i] == short[i]);
            }
        }
        assert(heard[heard.len() - 1].samples.len() == FRAME_SAMPLES);
        lemma_shape_always_holds(short);
        lemma_shape_kept(state_after(short), last.samples, last.voice);
    }
}

/// One frame keeps the segmenter's invariant.
pub proof fn lemma_shape_kept(s: SegmenterState, frame: Seq<i16>, voice: bool)
    requires
        reachable_shape(s),
        frame.len() == FRAME_SAMPLES,
    ensures
        reachable_shape(after_frame(s, frame, voice)),
{
    let next = after_frame(s, frame, voice);
    assert forall|i: int| 0 <= i < next.pre.len() implies (#[trigger] next.pre[i]).len()
        == FRAME_SAMPLES by {
        let pushed = s.pre.push(frame);
        assert(next.pre == Seq::<Seq<i16>>::empty() || next.pre == last_n(
            pushed,
            PRE_SPEECH_FRAMES as nat,
        ) || next.pre == s.pre);
    }
}

/// An utterance that ends by silence is never dropped: the silence that ends it
/// is by itself longer than the shortest utterance that is kept.
pub proof fn lemma_ended_utterance_is_kept(s: SegmenterState, frame: Seq<i16>, voice: bool)
    requires
        reachable_shape(s),
        frame.len() == FRAME_SAMPLES,
        closes(s, voice),
    ensures
        completed(s, frame, voice) == Some(s.speech + frame),
{
}

/// At every moment either an utterance is open, and one frame opened it, or no
/// two frames in a row have carried voice since the last one; and while none is
/// open there is nothing to give out.
pub proof fn lemma_open_or_waiting(heard: Seq<HeardFrame>)
    ensures
        0 <= last_end(heard) <= heard.len(),
        state_after(heard).active == !waiting(heard),
        state_after(heard).active == exists|onset: int| open_since(heard, onset),
        waiting(heard) ==> state_after(heard).speech.len() == 0,
{
    let onset = lemma_reading(heard);
    if state_after(heard).active {
        assert(open_since(heard, onset));
        assert(voiced_pair(heard, onset));
    } else {
        assert forall|i: int| !open_since(heard, i) by {
            if open_since(heard, i) {
                assert(voiced_pair(heard, i));
            }
        }
    }
}

/// Only one frame can have opened the open utterance.
pub proof fn lemma_one_onset(heard: Seq<HeardFrame>, a: int, b: int)
    requires
        open_since(heard, a),
        open_since(heard, b),
    ensures
        a == b,
{
    assert(voiced_pair(heard, a) && voiced_pair(heard, b));
}

/// An open utterance is an unbroken stretch of the stream: it holds the samples
/// of every frame from its first one up to now, each once and in order.
pub proof fn lemma_open_utterance_is_unbroken(heard: Seq<HeardFrame>, onset: int)
    requires
        open_since(heard, onset),
    ensures
        state_after(heard).speech == frames_between(
            heard,
            first_frame(heard, onset),
            heard.len() as int,
        ).flatten(),
{
    let found = lemma_reading(heard);
    lemma_open_or_waiting(heard);
    lemma_one_onset(heard, found, onset);
}

/// An open utterance ends at the frame that completes a long enough run of
/// silent frames, and at no other. What comes out is the unbroken stretch from
/// the first frame of the utterance to that frame.
pub proof fn lemma_utterance_end(heard: Seq<HeardFrame>, onset: int)
    requires
        full_frames(heard),
        heard.len() > 0,
        open_since(heard.drop_last(), onset),
    ensures
        ends_utterance(heard) == (onset < heard.len() - SILENCE_THRESHOLD && quiet(
            heard,
            heard.len() - SILENCE_THRESHOLD,
            heard.len() as int,
        )),
        utterance_at(heard) == if ends_utterance(heard) {
            Some(
                frames_between(
                    heard,
                    first_frame(heard.drop_last(), onset),
                    heard.len() as int,
                ).flatten(),
            )
        } else {
            None
        },
{
    let n = heard.len() as int;
    let short = heard.drop_last();
    let last = heard.last();
    let before = state_after(short);
    let found = lemma_reading(short);
    lemma_open_or_waiting(short);
    lemma_one_onset(short, found, onset);
    assert(matches_open(short, onset));
    assert(heard[n - 1] == last);
    let from = n - SILENCE_THRESHOLD;
    if ends_utterance(heard) {
        assert forall|i: int| from <= i < n implies !(#[trigger] heard[i]).voice by {
            if i < n - 1 {
                assert(heard[i] == short[i]);
            }
        }
        assert(full_frames(short)) by {
            assert forall|i: int| 0 <= i < short.len() implies (#[trigger] short[i]).samples.len()
                == FRAME_SAMPLES by {
                assert(heard[i] == short[i]);
            }
        }
        lemma_shape_always_holds(short);
        lemma_ended_utterance_is_kept(before, last.samples, last.voice);
        let start = first_frame(short, onset);
        let old_frames = frames_between(short, start, n - 1);
        assert(frames_between(heard, start, n) =~= old_frames.push(last.samples));
        old_frames.lemma_flatten_push(last.samples);
    } else if onset < from && quiet(heard, from, n) {
        assert(!last.voice);
        let j = (n - 1) - before.silence - 1;
        assert(short[j].voice && heard[j] == short[j]);
        assert(from <= j < n);
        assert(!heard[j].voice);
    }
}

/// While no utterance is open no frame completes one.
pub proof fn lemma_nothing_ends_while_waiting(heard: Seq<HeardFrame>)
    requires
        heard.len() > 0,
        waiting(heard.drop_last()),
    ensures
        !ends_utterance(heard),
        utterance_at(heard) is None,
{
    lemma_open_or_waiting(heard.drop_last());
}

/// Silence alone never makes an utterance.
pub proof fn lemma_silence_makes_nothing(heard: Seq<HeardFrame>)
    requires
        quiet(heard, 0, heard.len() as int),
    ensures
        last_end(heard) == 0,
        !state_after(heard).active,
        heard.len() > 0 ==> utterance_at(heard) is None,
    decreases heard.len(),
{
    if heard.len() > 0 {
        let short = heard.drop_last();
        assert(!heard[heard.len() - 1].voice);
        lemma_quiet_prefix(heard, 0, heard.len() - 1);
        lemma_silence_makes_nothing(short);
    }
}

/// Where the last utterance ended can only move forward.
proof fn lemma_last_end_moves_forward(heard: Seq<HeardFrame>, k: int)
    requires
        0 <= k <= heard.len(),
        ends_utterance(heard.take(k)),
    ensures
        k <= last_end(heard),
    decreases heard.len(),
{
    if k == heard.len() {
        assert(heard.take(k) =~= heard);
    } else {
        assert(heard.drop_last().take(k) =~= heard.take(k));
        lemma_last_end_moves_forward(heard.drop_last(), k);
    }
}

/// Utterances do not overlap: one that ends later begins behind the end of those
/// before it.
pub proof fn lemma_utterances_do_not_overlap(heard: Seq<HeardFrame>, k: int, onset: int)
    requires
        0 <= k <= heard.len(),
        ends_utterance(heard.take(k)),
        open_since(heard, onset),
    ensures
        k <= first_frame(heard, onset) <= onset,
{
    lemma_last_end_moves_forward(heard, k);
}

/// Every utterance is an unbroken stretch of the stream.
pub proof fn lemma_utterance_is_unbroken(heard: Seq<HeardFrame>) -> (from: int)
    requires
        full_frames(heard),
        heard.len() > 0,
        utterance_at(heard) is Some,
    ensures
        0 <= from <= heard.len(),
        utterance_at(heard) == Some(frames_between(heard, from, heard.len() as int).flatten()),
{
    let short = heard.drop_last();
    lemma_open_or_waiting(short);
    let onset = choose|onset: int| open_since(short, onset);
    lemma_utterance_end(heard, onset);
    first_frame(short, onset)
}

/// What the words mean: two voiced frames are a frame that is voiced after a
/// voiced one, a quiet stretch has no voiced frame, a full frame has 480 samples,
/// and the frames between two points are all frames there.
pub proof fn lemma_words_on_frames(heard: Seq<HeardFrame>, from: int, to: int, i: int)
    requires
        0 <= from <= to <= heard.len(),
        0 < i < heard.len(),
    ensures
        voiced_pair(heard, i) <==> heard[i - 1].voice && heard[i].voice,
        quiet(heard, from, to) && from <= i < to ==> !heard[i].voice,
        quiet(heard, from, to) || exists|j: int| from <= j < to && (#[trigger] heard[j]).voice,
        full_frames(heard) ==> heard[i].samples.len() == 480,
        full_frames(heard) || exists|j: int|
            0 <= j < heard.len() && (#[trigger] heard[j]).samples.len() != 480,
        frames_between(heard, from, to).len() == to - from,
        from <= i < to ==> frames_between(heard, from, to)[i - from] == heard[i].samples,
{
}

} // verus!
