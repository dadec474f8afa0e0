//! What a session makes of a whole stream of bytes, however it was chunked.

use vstd::prelude::*;

use crate::pcm::{bytes_of, lemma_part_survives_bytes, lemma_value_of_a_sample, samples_of};
use crate::segmenter::{idle, kept, FRAME_SAMPLES, PRE_SPEECH_FRAMES, SILENCE_THRESHOLD};
use crate::utterances::{
    ends_utterance, first_frame, frames_between, full_frames, last_end, lemma_open_or_waiting,
    lemma_open_utterance_is_unbroken, lemma_quiet_prefix, lemma_utterance_end,
    lemma_utterance_is_unbroken, open_since, quiet, state_after, utterance_at, voiced_pair,
    HeardFrame,
};
use crate::vad::{
    after_next, completed_next, fed, fresh, is_voice, next_frame, scan, voiced, SessionState,
    FRAME_BYTES,
};

verus! {

/// A sequence with the value of an option, or with nothing.
pub open spec fn if_any<A>(o: Option<A>) -> Seq<A> {
    match o {
        Some(a) => seq![a],
        None => Seq::empty(),
    }
}

/// The state once all pending frames have been dealt with, and the utterances
/// that came out on the way.
pub open spec fn drained(s: SessionState) -> (SessionState, Seq<Seq<i16>>)
    decreases s.pending.len(),
{
    if s.pending.len() < FRAME_BYTES {
        (s, Seq::empty())
    } else {
        let rest = drained(after_next(s));
        (rest.0, if_any(completed_next(s)) + rest.1)
    }
}

/// Asking for utterances until there is none gives all of them, in order.
pub proof fn lemma_scan_until_none(s: SessionState)
    ensures
        drained(s) == match scan(s).1 {
            None => (scan(s).0, Seq::<Seq<i16>>::empty()),
            Some(u) => (drained(scan(s).0).0, seq![u] + drained(scan(s).0).1),
        },
        scan(s).1 is None ==> scan(s).0.pending.len() < FRAME_BYTES,
    decreases s.pending.len(),
{
    if s.pending.len() >= FRAME_BYTES && completed_next(s) is None {
        lemma_scan_until_none(after_next(s));
        let rest = drained(after_next(s));
        assert(if_any(completed_next(s)) + rest.1 =~= rest.1);
    }
}

/// More bytes behind those that are pending do not change how the first frame
/// is dealt with.
proof fn lemma_next_ignores_later_bytes(s: SessionState, more: Seq<u8>)
    requires
        s.pending.len() >= FRAME_BYTES,
    ensures
        completed_next(fed(s, more)) == completed_next(s),
        after_next(fed(s, more)) == fed(after_next(s), more),
{
    assert(fed(s, more).pending.take(FRAME_BYTES as int) =~= s.pending.take(FRAME_BYTES as int));
    assert(fed(s, more).pending.skip(FRAME_BYTES as int) =~= s.pending.skip(FRAME_BYTES as int)
        + more);
}

/// It does not matter when bytes are dealt with: draining before more bytes come
/// in and again after it gives the same state and the same utterances as
/// draining once at the end.
pub proof fn lemma_draining_early_changes_nothing(s: SessionState, more: Seq<u8>)
    ensures
        drained(fed(s, more)) == (
            drained(fed(drained(s).0, more)).0,
            drained(s).1 + drained(fed(drained(s).0, more)).1,
        ),
    decreases s.pending.len(),
{
    let tail = drained(fed(drained(s).0, more));
    if s.pending.len() < FRAME_BYTES {
        assert(Seq::<Seq<i16>>::empty() + tail.1 =~= tail.1);
    } else {
        lemma_next_ignores_later_bytes(s, more);
        lemma_draining_early_changes_nothing(after_next(s), more);
        let first = if_any(completed_next(s));
        assert(first + (drained(after_next(s)).1 + tail.1) =~= first + drained(after_next(s)).1
            + tail.1);
    }
}

/// How a stream is chunked does not matter: two chunks in a row give what they
/// give as one.
pub proof fn lemma_chunking_does_not_matter(s: SessionState, a: Seq<u8>, b: Seq<u8>)
    ensures
        drained(fed(s, a + b)) == (
            drained(fed(drained(fed(s, a)).0, b)).0,
            drained(fed(s, a)).1 + drained(fed(drained(fed(s, a)).0, b)).1,
        ),
{
    lemma_draining_early_changes_nothing(fed(s, a), b);
    assert(fed(fed(s, a), b).pending =~= fed(s, a + b).pending);
}

/// Frame `i` of a stream.
pub open spec fn frame_at(bytes: Seq<u8>, i: int) -> Seq<i16> {
    samples_of(bytes.subrange(FRAME_BYTES * i, FRAME_BYTES * (i + 1)))
}

/// The first `n` frames of a stream.
pub open spec fn first_frames(bytes: Seq<u8>, n: int) -> Seq<Seq<i16>> {
    Seq::new(n as nat, |i: int| frame_at(bytes, i))
}

/// The whole frames of a stream, each with the detector's decision on it.
pub open spec fn heard_in(bytes: Seq<u8>) -> Seq<HeardFrame> {
    Seq::new(
        bytes.len() / FRAME_BYTES as nat,
        |i: int|
            HeardFrame {
                samples: frame_at(bytes, i),
                voice: is_voice(first_frames(bytes, i), frame_at(bytes, i)),
            },
    )
}

/// The utterances that the frames from `n` on complete.
pub open spec fn utterances_from(heard: Seq<HeardFrame>, n: nat) -> Seq<Seq<i16>>
    decreases heard.len() - n,
{
    if n >= heard.len() {
        Seq::empty()
    } else {
        if_any(utterance_at(heard.take(n as int + 1))) + utterances_from(heard, n + 1)
    }
}

/// The state of a session that has dealt with the first `n` frames of a stream.
spec fn state_at(bytes: Seq<u8>, n: int) -> SessionState {
    SessionState {
        judged: first_frames(bytes, n),
        pending: bytes.skip(FRAME_BYTES * n),
        segmenter: state_after(heard_in(bytes).take(n)),
    }
}

/// Where frames begin, in numbers.
pub(crate) proof fn lemma_frame_offsets(bytes: Seq<u8>, n: int)
    ensures
        FRAME_BYTES * n == 960 * n,
        FRAME_BYTES * (n + 1) == 960 * n + 960,
        heard_in(bytes).len() == bytes.len() / 960,
{
    assert(FRAME_BYTES == 960);
    assert(FRAME_BYTES * (n + 1) == FRAME_BYTES * n + FRAME_BYTES) by (nonlinear_arith);
    assert(FRAME_BYTES * n == 960 * n) by (nonlinear_arith)
        requires
            FRAME_BYTES == 960,
    ;
}

/// Dealing with one more frame of a stream.
proof fn lemma_one_frame(bytes: Seq<u8>, n: int)
    requires
        0 <= n < heard_in(bytes).len(),
    ensures
        state_at(bytes, n).pending.len() >= FRAME_BYTES,
        after_next(state_at(bytes, n)) == state_at(bytes, n + 1),
        completed_next(state_at(bytes, n)) == utterance_at(heard_in(bytes).take(n + 1)),
{
    let s = state_at(bytes, n);
    let heard = heard_in(bytes);
    lemma_frame_offsets(bytes, n);
    assert(960 * n + 960 <= bytes.len());
    assert(s.pending.take(FRAME_BYTES as int) =~= bytes.subrange(
        FRAME_BYTES * n,
        FRAME_BYTES * (n + 1),
    ));
    assert(next_frame(s) == frame_at(bytes, n));
    assert(s.pending.skip(FRAME_BYTES as int) =~= bytes.skip(FRAME_BYTES * (n + 1)));
    assert(s.judged.push(frame_at(bytes, n)) =~= first_frames(bytes, n + 1));
    assert(heard.take(n + 1).drop_last() =~= heard.take(n));
    assert(heard.take(n + 1).last() == heard[n]);
}

/// Dealing with the rest of a stream.
proof fn lemma_rest_of_stream(bytes: Seq<u8>, n: int)
    requires
        0 <= n <= heard_in(bytes).len(),
    ensures
        drained(state_at(bytes, n)) == (
            state_at(bytes, heard_in(bytes).len() as int),
            utterances_from(heard_in(bytes), n as nat),
        ),
    decreases heard_in(bytes).len() - n,
{
    lemma_frame_offsets(bytes, n);
    if n < heard_in(bytes).len() {
        lemma_one_frame(bytes, n);
        lemma_rest_of_stream(bytes, n + 1);
    }
}

/// A session cuts a stream as the segmenter cuts its frames: once the stream has
/// been dealt with, every whole frame has been judged, the bytes behind the last
/// whole frame are pending, the segmenter has heard exactly the frames of the
/// stream with the detector's decisions, and the utterances that came out are
/// those that these frames complete.
pub proof fn lemma_session_cuts_stream(bytes: Seq<u8>)
    ensures
        drained(fed(fresh(), bytes)).0.judged == first_frames(
            bytes,
            heard_in(bytes).len() as int,
        ),
        drained(fed(fresh(), bytes)).0.pending == bytes.skip(
            FRAME_BYTES * (bytes.len() / FRAME_BYTES as nat),
        ),
        drained(fed(fresh(), bytes)).0.segmenter == state_after(heard_in(bytes)),
        drained(fed(fresh(), bytes)).1 == utterances_from(heard_in(bytes), 0),
{
    let heard = heard_in(bytes);
    let start = state_at(bytes, 0);
    assert(heard.take(0) =~= Seq::<HeardFrame>::empty());
    assert(state_after(heard.take(0)) == idle());
    assert(start.judged =~= fresh().judged);
    assert(start.pending =~= fed(fresh(), bytes).pending);
    lemma_rest_of_stream(bytes, 0);
    assert(heard.take(heard.len() as int) =~= heard);
}

/// The frames of a stream have the length that the detector takes.
pub proof fn lemma_stream_frames_are_full(bytes: Seq<u8>)
    ensures
        full_frames(heard_in(bytes)),
{
    assert forall|i: int| 0 <= i < heard_in(bytes).len() implies (#[trigger] heard_in(
        bytes,
    )[i]).samples.len() == FRAME_SAMPLES by {
        lemma_frame_offsets(bytes, i);
    }
}

/// Frames in a row are the samples of the bytes that they were cut from.
pub(crate) proof fn lemma_frames_are_samples(bytes: Seq<u8>, from: int, to: int)
    requires
        0 <= from <= to <= heard_in(bytes).len(),
    ensures
        frames_between(heard_in(bytes), from, to).flatten() == samples_of(
            bytes.subrange(FRAME_BYTES * from, FRAME_BYTES * to),
        ),
    decreases to - from,
{
    lemma_frame_offsets(bytes, from);
    let heard = heard_in(bytes);
    let frames = frames_between(heard, from, to);
    if from == to {
        assert(frames.flatten() =~= Seq::<i16>::empty());
        assert(samples_of(bytes.subrange(FRAME_BYTES * from, FRAME_BYTES * to)) =~= Seq::empty());
    } else {
        lemma_frame_offsets(bytes, to - 1);
        lemma_frame_offsets(bytes, to);
        lemma_frames_are_samples(bytes, from, to - 1);
        let before = frames_between(heard, from, to - 1);
        assert(frames =~= before.push(frame_at(bytes, to - 1)));
        before.lemma_flatten_push(frame_at(bytes, to - 1));
        let head = bytes.subrange(960 * from, 960 * (to - 1));
        let tail = bytes.subrange(960 * (to - 1), 960 * to);
        let whole = bytes.subrange(960 * from, 960 * to);
        assert(samples_of(head) + samples_of(tail) =~= samples_of(whole));
    }
}

/// Whether `u` is what a stretch of a stream's bytes holds, from a frame to a frame.
pub open spec fn is_stretch_of(bytes: Seq<u8>, u: Seq<i16>, from: int, to: int) -> bool {
    &&& 0 <= from <= to <= heard_in(bytes).len()
    &&& u == samples_of(bytes.subrange(FRAME_BYTES * from, FRAME_BYTES * to))
}

/// The frames up to a point of a stream, seen on their own.
proof fn lemma_frames_of_prefix(heard: Seq<HeardFrame>, n: int, from: int)
    requires
        0 <= from <= n <= heard.len(),
    ensures
        frames_between(heard.take(n), from, n) == frames_between(heard, from, n),
{
    assert(frames_between(heard.take(n), from, n) =~= frames_between(heard, from, n));
}

/// Every utterance that a session finds in a stream is an unbroken stretch of it:
/// no sample in it is lost, doubled, changed or moved.
pub proof fn lemma_utterances_are_stretches(bytes: Seq<u8>, n: nat, k: int)
    requires
        0 <= k < utterances_from(heard_in(bytes), n).len(),
    ensures
        exists|from: int, to: int|
            is_stretch_of(bytes, utterances_from(heard_in(bytes), n)[k], from, to),
    decreases heard_in(bytes).len() - n,
{
    let heard = heard_in(bytes);
    let prefix = heard.take(n as int + 1);
    let first = if_any(utterance_at(prefix));
    if k < first.len() {
        let u = first[k];
        lemma_stream_frames_are_full(bytes);
        assert(full_frames(prefix)) by {
            assert forall|i: int| 0 <= i < prefix.len() implies (#[trigger] prefix[i]).samples.len()
                == FRAME_SAMPLES by {
                assert(prefix[i] == heard[i]);
            }
        }
        let from = lemma_utterance_is_unbroken(prefix);
        lemma_frames_of_prefix(heard, n as int + 1, from);
        lemma_frames_are_samples(bytes, from, n as int + 1);
        assert(is_stretch_of(bytes, u, from, n as int + 1));
        assert(utterances_from(heard, n)[k] == u);
    } else {
        let k2 = k - first.len();
        lemma_utterances_are_stretches(bytes, n + 1, k2);
        assert(utterances_from(heard, n)[k] == utterances_from(heard, n + 1)[k2]);
    }
}

/// What is captured is what is heard: in a stream that captured samples were laid
/// out as, a stretch of the stream is that stretch of the samples.
pub proof fn lemma_captured_samples_are_heard(
    samples: Seq<i16>,
    u: Seq<i16>,
    from: int,
    to: int,
)
    requires
        is_stretch_of(bytes_of(samples), u, from, to),
    ensures
        0 <= FRAME_SAMPLES * from <= FRAME_SAMPLES * to <= samples.len(),
        u == samples.subrange(FRAME_SAMPLES * from, FRAME_SAMPLES * to),
{
    let bytes = bytes_of(samples);
    lemma_frame_offsets(bytes, from);
    lemma_frame_offsets(bytes, to);
    assert(FRAME_SAMPLES * from == 480 * from && FRAME_SAMPLES * to == 480 * to)
        by (nonlinear_arith)
        requires
            FRAME_SAMPLES == 480,
    ;
    lemma_part_survives_bytes(samples, 480 * from, 480 * to);
}

/// What a stream holds frame by frame: 480 samples of two bytes each, with the
/// lower byte first, and the decision of a detector that has judged the frames
/// before it.
pub proof fn lemma_what_is_heard(bytes: Seq<u8>, i: int, j: int)
    requires
        0 <= i,
        960 * i + 960 <= bytes.len(),
        0 <= j < 480,
    ensures
        heard_in(bytes).len() == bytes.len() / 960,
        ({
            let heard = heard_in(bytes)[i];
            let at = 960 * i + 2 * j;
            let value = bytes[at] + 256 * bytes[at + 1];
            &&& heard.samples.len() == 480
            &&& heard.samples[j] == value || heard.samples[j] == value - 65536
            &&& heard.voice == voiced(
                16,
                2,
                Seq::new(i as nat, |m: int| heard_in(bytes)[m].samples),
                heard.samples,
            )
        }),
{
    lemma_frame_offsets(bytes, i);
    let part = bytes.subrange(960 * i, 960 * i + 960);
    assert(frame_at(bytes, i) == samples_of(part));
    lemma_value_of_a_sample(part, j);
    assert(part[2 * j] == bytes[960 * i + 2 * j]);
    assert(part[2 * j + 1] == bytes[960 * i + 2 * j + 1]);
    assert(first_frames(bytes, i) =~= Seq::new(
        i as nat,
        |m: int| heard_in(bytes)[m].samples,
    ));
}

/// Where the utterance in front of an utterance ended, where the utterance itself
/// begins, which frame opened it, and where it ended.
pub struct Cut {
    pub done: int,
    pub first: int,
    pub onset: int,
    pub end: int,
}

/// Whether an utterance was cut out rightly.
spec fn is_cut(heard: Seq<HeardFrame>, cut: Cut) -> bool {
    &&& 0 <= cut.done < cut.onset < cut.end - SILENCE_THRESHOLD
    &&& cut.end <= heard.len()
    &&& voiced_pair(heard, cut.onset)
    &&& forall|i: int| cut.done < i < cut.onset ==> !#[trigger] voiced_pair(heard, i)
    &&& quiet(heard, cut.end - SILENCE_THRESHOLD, cut.end)
    &&& forall|m: int|
        cut.onset + SILENCE_THRESHOLD < m < cut.end ==> !#[trigger] quiet(
            heard,
            m - SILENCE_THRESHOLD,
            m,
        )
    &&& cut.first == if cut.onset - PRE_SPEECH_FRAMES > cut.done {
        cut.onset - PRE_SPEECH_FRAMES
    } else {
        cut.done
    }
}

/// Whether each utterance comes behind the one in front of it, and the last one
/// ended at `end`.
spec fn in_a_row(cuts: Seq<Cut>, end: int) -> bool {
    &&& cuts.len() > 0 ==> cuts[0].done == 0
    &&& forall|j: int, k: int|
        0 <= j && k == j + 1 && k < cuts.len() ==> (#[trigger] cuts[k]).done == (
        #[trigger] cuts[j]).end
    &&& end == if cuts.len() == 0 {
        0
    } else {
        cuts.last().end
    }
}

/// One more frame does not change what was cut out before.
proof fn lemma_cut_stays(heard: Seq<HeardFrame>, cut: Cut)
    requires
        heard.len() > 0,
        is_cut(heard.drop_last(), cut),
    ensures
        is_cut(heard, cut),
        frames_between(heard, cut.first, cut.end) == frames_between(
            heard.drop_last(),
            cut.first,
            cut.end,
        ),
{
    let short = heard.drop_last();
    assert forall|i: int| 0 <= i < short.len() implies #[trigger] heard[i] == short[i] by {}
    assert(voiced_pair(heard, cut.onset) == voiced_pair(short, cut.onset));
    assert forall|i: int| cut.done < i < cut.onset implies !#[trigger] voiced_pair(heard, i) by {
        assert(!voiced_pair(short, i));
        assert(heard[i] == short[i] && heard[i - 1] == short[i - 1]);
    }
    lemma_quiet_prefix(heard, cut.end - SILENCE_THRESHOLD, cut.end);
    assert forall|m: int| cut.onset + SILENCE_THRESHOLD < m < cut.end implies !#[trigger] quiet(
        heard,
        m - SILENCE_THRESHOLD,
        m,
    ) by {
        lemma_quiet_prefix(heard, m - SILENCE_THRESHOLD, m);
        assert(!quiet(short, m - SILENCE_THRESHOLD, m));
    }
    assert(frames_between(heard, cut.first, cut.end) =~= frames_between(short, cut.first, cut.end));
}

/// One more frame adds the utterance that it completes, if it completes one.
proof fn lemma_one_more_utterance(heard: Seq<HeardFrame>, n: nat)
    requires
        n < heard.len(),
    ensures
        utterances_from(heard, n) == utterances_from(heard.drop_last(), n) + if_any(
            utterance_at(heard),
        ),
    decreases heard.len() - n,
{
    let short = heard.drop_last();
    let new = if_any(utterance_at(heard));
    if n == heard.len() - 1 {
        assert(heard.take(n as int + 1) =~= heard);
        assert(utterances_from(heard, n + 1) =~= Seq::<Seq<i16>>::empty());
        assert(utterances_from(short, n) =~= Seq::<Seq<i16>>::empty());
        assert(new + Seq::<Seq<i16>>::empty() =~= Seq::<Seq<i16>>::empty() + new);
    } else {
        lemma_one_more_utterance(heard, n + 1);
        assert(heard.take(n as int + 1) =~= short.take(n as int + 1));
        let first = if_any(utterance_at(short.take(n as int + 1)));
        assert(first + (utterances_from(short, n + 1) + new) =~= (first + utterances_from(
            short,
            n + 1,
        )) + new);
    }
}

/// The utterance that the last frame ends was cut out rightly.
proof fn lemma_new_cut(heard: Seq<HeardFrame>) -> (cut: Cut)
    requires
        full_frames(heard),
        ends_utterance(heard),
    ensures
        is_cut(heard, cut),
        cut.done == last_end(heard.drop_last()),
        cut.end == heard.len(),
        utterance_at(heard) == Some(frames_between(heard, cut.first, cut.end).flatten()),
{
    let n = heard.len() as int;
    let short = heard.drop_last();
    lemma_open_or_waiting(short);
    let onset = choose|onset: int| open_since(short, onset);
    lemma_utterance_end(heard, onset);
    let cut = Cut { done: last_end(short), first: first_frame(short, onset), onset, end: n };
    assert forall|i: int| 0 <= i < n - 1 implies #[trigger] heard[i] == short[i] by {}
    assert(voiced_pair(heard, onset) == voiced_pair(short, onset));
    assert forall|i: int| last_end(short) < i < onset implies !#[trigger] voiced_pair(heard, i) by {
        assert(!voiced_pair(short, i));
        assert(heard[i] == short[i] && heard[i - 1] == short[i - 1]);
    }
    assert forall|m: int| onset + SILENCE_THRESHOLD < m < n implies !#[trigger] quiet(
        heard,
        m - SILENCE_THRESHOLD,
        m,
    ) by {
        lemma_quiet_prefix(heard, m - SILENCE_THRESHOLD, m);
        assert(!quiet(short, m - SILENCE_THRESHOLD, m));
    }
    cut
}

/// Where the utterances of a stream were cut out.
proof fn lemma_cuts(heard: Seq<HeardFrame>) -> (cuts: Seq<Cut>)
    requires
        full_frames(heard),
    ensures
        forall|k: int| 0 <= k < cuts.len() ==> is_cut(heard, #[trigger] cuts[k]),
        in_a_row(cuts, last_end(heard)),
        utterances_from(heard, 0).len() == cuts.len(),
        forall|k: int|
            0 <= k < cuts.len() ==> utterances_from(heard, 0)[k] == frames_between(
                heard,
                (#[trigger] cuts[k]).first,
                cuts[k].end,
            ).flatten(),
    decreases heard.len(),
{
    if heard.len() == 0 {
        Seq::empty()
    } else {
        let short = heard.drop_last();
        assert forall|i: int| 0 <= i < short.len() implies (#[trigger] short[i]).samples.len()
            == FRAME_SAMPLES by {
            assert(heard[i] == short[i]);
        }
        let before = lemma_cuts(short);
        lemma_one_more_utterance(heard, 0);
        let old = utterances_from(short, 0);
        assert forall|k: int| 0 <= k < before.len() implies {
            &&& is_cut(heard, #[trigger] before[k])
            &&& old[k] == frames_between(heard, before[k].first, before[k].end).flatten()
        } by {
            lemma_cut_stays(heard, before[k]);
        }
        if ends_utterance(heard) {
            let cut = lemma_new_cut(heard);
            let cuts = before.push(cut);
            let all = utterances_from(heard, 0);
            assert(all =~= old.push(frames_between(heard, cut.first, cut.end).flatten()));
            assert forall|k: int| 0 <= k < cuts.len() implies {
                &&& is_cut(heard, #[trigger] cuts[k])
                &&& all[k] == frames_between(heard, cuts[k].first, cuts[k].end).flatten()
            } by {
                if k < before.len() {
                    assert(cuts[k] == before[k]);
                }
            }
            assert forall|j: int, k: int| 0 <= j && k == j + 1 && k < cuts.len() implies (
            #[trigger] cuts[k]).done == (#[trigger] cuts[j]).end by {
                assert(cuts[j] == before[j]);
                if k < before.len() {
                    assert(cuts[k] == before[k]);
                }
            }
            cuts
        } else {
            assert(utterance_at(heard) is None);
            assert(utterances_from(heard, 0) =~= old);
            before
        }
    }
}

/// Frames in a row have as many samples as they are frames times 480.
proof fn lemma_samples_in_frames(heard: Seq<HeardFrame>, from: int, to: int)
    requires
        full_frames(heard),
        0 <= from <= to <= heard.len(),
    ensures
        frames_between(heard, from, to).flatten().len() == 480 * (to - from),
    decreases to - from,
{
    let frames = frames_between(heard, from, to);
    if from == to {
        assert(frames.flatten() =~= Seq::<i16>::empty());
    } else {
        lemma_samples_in_frames(heard, from, to - 1);
        let before = frames_between(heard, from, to - 1);
        assert(heard[to - 1].samples.len() == FRAME_SAMPLES);
        assert(frames =~= before.push(heard[to - 1].samples));
        before.lemma_flatten_push(heard[to - 1].samples);
    }
}

/// How a stream of full frames is cut, from beginning to end. An utterance is
/// opened by the first frame since the one before it that is voiced after a voiced
/// frame. It begins five frames before that, but not before the one in front of it
/// ended. It ends with the first 27 silent frames in a row behind the frame that
/// opened it. What comes out is the samples of all its frames, in order, and
/// nothing else comes out.
pub proof fn lemma_how_a_stream_is_cut(heard: Seq<HeardFrame>) -> (cuts: Seq<Cut>)
    requires
        full_frames(heard),
    ensures
        utterances_from(heard, 0).len() == cuts.len(),
        cuts.len() > 0 ==> cuts[0].done == 0,
        forall|j: int, k: int|
            0 <= j && k == j + 1 && k < cuts.len() ==> (#[trigger] cuts[k]).done == (
            #[trigger] cuts[j]).end,
        last_end(heard) == if cuts.len() == 0 {
            0
        } else {
            cuts.last().end
        },
        forall|k: int|
            0 <= k < cuts.len() ==> {
                let cut = #[trigger] cuts[k];
                &&& 0 <= cut.done <= cut.first <= cut.onset
                &&& cut.done < cut.onset
                &&& cut.onset + 27 < cut.end <= heard.len()
                &&& voiced_pair(heard, cut.onset)
                &&& forall|i: int| cut.done < i < cut.onset ==> !#[trigger] voiced_pair(heard, i)
                &&& cut.first == cut.onset - 5 || (cut.first == cut.done && cut.done >= cut.onset
                    - 5)
                &&& quiet(heard, cut.end - 27, cut.end)
                &&& forall|m: int|
                    cut.onset + 27 < m < cut.end ==> !#[trigger] quiet(heard, m - 27, m)
                &&& utterances_from(heard, 0)[k] == heard.subrange(cut.first, cut.end).map_values(
                    |h: HeardFrame| h.samples,
                ).flatten()
            },
{
    let cuts = lemma_cuts(heard);
    assert forall|k: int| 0 <= k < cuts.len() implies {
        let cut = #[trigger] cuts[k];
        &&& 0 <= cut.done <= cut.first <= cut.onset
        &&& cut.done < cut.onset
        &&& cut.onset + 27 < cut.end <= heard.len()
        &&& voiced_pair(heard, cut.onset)
        &&& forall|i: int| cut.done < i < cut.onset ==> !#[trigger] voiced_pair(heard, i)
        &&& cut.first == cut.onset - 5 || (cut.first == cut.done && cut.done >= cut.onset - 5)
        &&& quiet(heard, cut.end - 27, cut.end)
        &&& forall|m: int|
            cut.onset + 27 < m < cut.end ==> !#[trigger] quiet(heard, m - 27, m)
    } by {
        let cut = cuts[k];
        assert(is_cut(heard, cut));
        assert forall|m: int| cut.onset + 27 < m < cut.end implies !#[trigger] quiet(
            heard,
            m - 27,
            m,
        ) by {
            assert(!quiet(heard, m - SILENCE_THRESHOLD, m));
        }
    }
    cuts
}

/// What is open at the end of a stream of full frames whose last utterance ended
/// at `done`: an utterance is open if and only if two frames in a row have been
/// voiced since. It holds the samples of every frame from five frames before the
/// second of these, but not from before `done`, up to the last frame heard. And
/// that whole stretch is what is kept when the stream stops, unless it is shorter
/// than ten frames, when nothing is.
pub proof fn lemma_what_is_open(heard: Seq<HeardFrame>) -> (open: (int, int, int))
    requires
        full_frames(heard),
    ensures
        ({
            let (done, first, onset) = open;
            let s = state_after(heard);
            let n = heard.len() as int;
            let stretch = heard.subrange(first, n).map_values(
                |h: HeardFrame| h.samples,
            ).flatten();
            &&& done == last_end(heard)
            &&& 0 <= done <= n
            &&& s.active ==> {
                &&& done <= first <= onset < n
                &&& done < onset
                &&& voiced_pair(heard, onset)
                &&& forall|i: int| done < i < onset ==> !#[trigger] voiced_pair(heard, i)
                &&& first == onset - 5 || (first == done && done >= onset - 5)
                &&& s.speech == stretch
                &&& s.speech.len() == 480 * (n - first)
                &&& n - first >= 10 ==> kept(s.speech) == Some(stretch)
                &&& n - first < 10 ==> kept(s.speech) is None
            }
            &&& !s.active ==> {
                &&& forall|i: int| done < i < n ==> !#[trigger] voiced_pair(heard, i)
                &&& s.speech.len() == 0
                &&& kept(s.speech) is None
            }
        }),
{
    let s = state_after(heard);
    let n = heard.len() as int;
    let done = last_end(heard);
    lemma_open_or_waiting(heard);
    if s.active {
        let onset = choose|onset: int| open_since(heard, onset);
        let first = first_frame(heard, onset);
        lemma_open_utterance_is_unbroken(heard, onset);
        lemma_samples_in_frames(heard, first, n);
        (done, first, onset)
    } else {
        (done, 0, 0)
    }
}

} // verus!
