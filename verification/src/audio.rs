//! Choosing how to capture audio, and holding captured samples until they are
//! written.

use vstd::prelude::*;

use crate::pcm::{bytes_of, pcm_bytes};

verus! {

/// The sample rate that is asked for.
pub const SAMPLE_RATE: u32 = 16000;

/// The most channels that are captured.
pub const CHANNELS: u16 = 1;

/// How a device delivers samples.
#[derive(Debug, Clone, Copy, PartialEq, Eq, Structural)]
pub enum SampleFormat {
    /// As 32-bit floating point numbers.
    F32,
    /// In some other way.
    Other,
}

/// A range of configurations that a device supports.
#[derive(Debug, Clone, Copy, PartialEq, Eq, Structural)]
pub struct SupportedConfig {
    pub channels: u16,
    pub sample_format: SampleFormat,
    pub min_sample_rate: u32,
    pub max_sample_rate: u32,
}

/// A configuration to capture audio with.
#[derive(Debug, Clone, Copy, PartialEq, Eq, Structural)]
pub struct AudioConfig {
    /// Which of the supported ranges is used.
    pub config: usize,
    /// The sample rate out of that range.
    pub sample_rate: u32,
}

/// Why audio cannot be captured.
#[derive(Debug, Clone, Copy, PartialEq, Eq, Structural)]
pub enum AudioError {
    /// There is no input device.
    NoInputDevice,
    /// The device supports no configuration that can be used.
    NoSuitableConfig,
}

impl AudioError {
    /// The error in words.
    pub open spec fn words(self) -> Seq<char> {
        match self {
            AudioError::NoInputDevice => "no input device"@,
            AudioError::NoSuitableConfig => "no suitable audio config"@,
        }
    }

    /// The error in words.
    pub fn message(&self) -> (r: &'static str)
        ensures
            r@ == self.words(),
    {
        match self {
            AudioError::NoInputDevice => "no input device",
            AudioError::NoSuitableConfig => "no suitable audio config",
        }
    }
}

/// The distance between two numbers.
pub open spec fn distance(a: int, b: int) -> int {
    if a < b {
        b - a
    } else {
        a - b
    }
}

impl SupportedConfig {
    /// Whether the range can be used at all.
    pub open spec fn suitable(self) -> bool {
        self.channels <= CHANNELS && self.sample_format == SampleFormat::F32
    }

    /// Whether the range has the sample rate that is asked for.
    pub open spec fn has_rate(self) -> bool {
        self.min_sample_rate <= SAMPLE_RATE <= self.max_sample_rate
    }

    /// How far the range is from the sample rate that is asked for. The ends of
    /// the range are taken as signed numbers.
    pub open spec fn mismatch(self) -> int {
        if self.has_rate() {
            0
        } else {
            let low = distance(self.min_sample_rate as i32 as int, SAMPLE_RATE as int);
            let high = distance(self.max_sample_rate as i32 as int, SAMPLE_RATE as int);
            if low < high {
                low
            } else {
                high
            }
        }
    }

    /// Whether the distance of the range can be computed with signed numbers.
    pub open spec fn measurable(self) -> bool {
        self.suitable() && !self.has_rate() ==> {
            &&& distance(self.min_sample_rate as i32 as int, SAMPLE_RATE as int) <= i32::MAX
            &&& distance(self.max_sample_rate as i32 as int, SAMPLE_RATE as int) <= i32::MAX
        }
    }

    /// The sample rate to use out of the range: the one that is asked for, or else
    /// that one brought down to the end of the range and then up to its start.
    pub open spec fn rate(self) -> u32 {
        let capped = if self.max_sample_rate < SAMPLE_RATE {
            self.max_sample_rate
        } else {
            SAMPLE_RATE
        };
        if self.has_rate() {
            SAMPLE_RATE
        } else if self.min_sample_rate > capped {
            self.min_sample_rate
        } else {
            capped
        }
    }

    /// Whether the distance of the range can be computed with signed numbers.
    pub fn is_measurable(&self) -> (r: bool)
        ensures
            r == self.measurable(),
    {
        if !self.is_suitable() || self.contains_rate() {
            return true;
        }
        let low: i64 = self.min_sample_rate as i32 as i64 - SAMPLE_RATE as i64;
        let high: i64 = self.max_sample_rate as i32 as i64 - SAMPLE_RATE as i64;
        low >= -(i32::MAX as i64) && high >= -(i32::MAX as i64)
    }

    /// Whether the range can be used at all.
    fn is_suitable(&self) -> (r: bool)
        ensures
            r == self.suitable(),
    {
        self.channels <= CHANNELS && self.sample_format == SampleFormat::F32
    }

    /// Whether the range has the sample rate that is asked for.
    fn contains_rate(&self) -> (r: bool)
        ensures
            r == self.has_rate(),
    {
        SAMPLE_RATE >= self.min_sample_rate && SAMPLE_RATE <= self.max_sample_rate
    }

    /// How far the range is from the sample rate that is asked for.
    fn rate_mismatch(&self) -> (r: i32)
        requires
            self.suitable(),
            self.measurable(),
        ensures
            r == self.mismatch(),
    {
        if self.contains_rate() {
            0
        } else {
            let low: i32 = gap(self.min_sample_rate as i32, SAMPLE_RATE as i32);
            let high: i32 = gap(self.max_sample_rate as i32, SAMPLE_RATE as i32);
            if low < high {
                low
            } else {
                high
            }
        }
    }

    /// The sample rate to use out of the range.
    pub fn chosen_rate(&self) -> (r: u32)
        ensures
            r == self.rate(),
    {
        if self.contains_rate() {
            SAMPLE_RATE
        } else {
            let capped: u32 = if self.max_sample_rate < SAMPLE_RATE {
                self.max_sample_rate
            } else {
                SAMPLE_RATE
            };
            if self.min_sample_rate > capped {
                self.min_sample_rate
            } else {
                capped
            }
        }
    }
}

/// The distance between two numbers.
fn gap(a: i32, b: i32) -> (r: i32)
    requires
        b >= 0,
        distance(a as int, b as int) <= i32::MAX,
    ensures
        r == distance(a as int, b as int),
{
    if a < b {
        b - a
    } else {
        a - b
    }
}

/// Whether range `i` is the first of those that are nearest to the sample rate
/// that is asked for.
pub open spec fn first_nearest(configs: Seq<SupportedConfig>, i: int) -> bool {
    &&& 0 <= i < configs.len()
    &&& configs[i].suitable()
    &&& forall|j: int|
        0 <= j < configs.len() && #[trigger] configs[j].suitable() ==> configs[i].mismatch()
            <= configs[j].mismatch()
    &&& forall|j: int|
        0 <= j < i && #[trigger] configs[j].suitable() ==> configs[i].mismatch()
            < configs[j].mismatch()
}

/// Chooses how to capture audio: in the first of the suitable ranges that are
/// nearest to the sample rate that is asked for.
pub fn get_audio_config(configs: &[SupportedConfig]) -> (r: Result<AudioConfig, AudioError>)
    requires
        forall|i: int| 0 <= i < configs@.len() ==> (#[trigger] configs@[i]).measurable(),
    ensures
        match r {
            Ok(c) => {
                &&& first_nearest(configs@, c.config as int)
                &&& c.sample_rate == configs@[c.config as int].rate()
                &&& configs@[c.config as int].channels <= CHANNELS
                &&& configs@[c.config as int].sample_format == SampleFormat::F32
            },
            Err(e) => {
                &&& e == AudioError::NoSuitableConfig
                &&& forall|i: int|
                    0 <= i < configs@.len() ==> !(#[trigger] configs@[i]).suitable()
                &&& forall|i: int|
                    0 <= i < configs@.len() ==> (#[trigger] configs@[i]).channels > CHANNELS
                        || configs@[i].sample_format != SampleFormat::F32
            },
        },
{
    let mut best: Option<usize> = None;
    let mut i: usize = 0;
    while i < configs.len()
        invariant
            i <= configs@.len(),
            forall|j: int| 0 <= j < configs@.len() ==> (#[trigger] configs@[j]).measurable(),
            match best {
                Some(b) => b < i && first_nearest(configs@.take(i as int), b as int),
                None => forall|j: int| 0 <= j < i ==> !(#[trigger] configs@[j]).suitable(),
            },
        decreases configs@.len() - i,
    {
        let ghost seen = configs@.take(i as int);
        let ghost more = configs@.take(i + 1);
        assert(forall|j: int| 0 <= j < i ==> #[trigger] seen[j] == configs@[j]);
        assert(forall|j: int| 0 <= j <= i ==> #[trigger] more[j] == configs@[j]);
        if configs[i].is_suitable() {
            let closer: bool = match best {
                Some(b) => {
                    assert(seen[b as int].suitable());
                    configs[i].rate_mismatch() < configs[b].rate_mismatch()
                },
                None => true,
            };
            proof {
                match best {
                    Some(b) => {
                        assert(seen[b as int] == configs@[b as int]);
                        assert forall|j: int| 0 <= j < i && (#[trigger] more[j]).suitable() implies
                            configs@[b as int].mismatch() <= more[j].mismatch() by {
                            assert(seen[j] == more[j]);
                        }
                        assert forall|j: int| 0 <= j < b && (#[trigger] more[j]).suitable() implies
                            configs@[b as int].mismatch() < more[j].mismatch() by {
                            assert(seen[j] == more[j]);
                        }
                    },
                    None => {},
                }
            }
            if closer {
                best = Some(i);
            }
        } else {
            proof {
                match best {
                    Some(b) => {
                        assert(seen[b as int] == configs@[b as int]);
                        assert forall|j: int|
                            0 <= j < more.len() && (#[trigger] more[j]).suitable() implies
                            more[b as int].mismatch() <= more[j].mismatch() by {
                            assert(seen[j] == more[j]);
                        }
                        assert forall|j: int| 0 <= j < b && (#[trigger] more[j]).suitable() implies
                            more[b as int].mismatch() < more[j].mismatch() by {
                            assert(seen[j] == more[j]);
                        }
                    },
                    None => {},
                }
            }
        }
        i = i + 1;
    }
    assert(configs@.take(i as int) =~= configs@);
    match best {
        Some(b) => Ok(AudioConfig { config: b, sample_rate: configs[b].chosen_rate() }),
        None => Err(AudioError::NoSuitableConfig),
    }
}

/// The sample rate that is used lies in its range and is the nearest there to
/// the one that is asked for.
pub proof fn lemma_rate_is_nearest(c: SupportedConfig, other: int)
    requires
        c.min_sample_rate <= other <= c.max_sample_rate,
    ensures
        c.min_sample_rate <= c.rate() <= c.max_sample_rate,
        distance(c.rate() as int, SAMPLE_RATE as int) <= distance(other, SAMPLE_RATE as int),
{
}

/// Where sample rates fit in signed numbers, no suitable range has a rate that
/// is nearer to the one that is asked for than the rate that is used.
pub proof fn lemma_chosen_rate_is_nearest_of_all(
    configs: Seq<SupportedConfig>,
    i: int,
    j: int,
    other: int,
)
    requires
        first_nearest(configs, i),
        0 <= j < configs.len(),
        configs[j].suitable(),
        configs[j].min_sample_rate <= other <= configs[j].max_sample_rate <= i32::MAX,
        configs[i].min_sample_rate <= configs[i].max_sample_rate <= i32::MAX,
    ensures
        distance(configs[i].rate() as int, SAMPLE_RATE as int) <= distance(
            other,
            SAMPLE_RATE as int,
        ),
{
    assert(configs[i].mismatch() <= configs[j].mismatch());
}

/// What is sent of a block of captured samples: their bytes, or nothing once
/// capturing has been stopped.
pub fn chunk_of(samples: &[i16], stopped: bool) -> (r: Option<Vec<u8>>)
    ensures
        match r {
            Some(bytes) => !stopped && bytes@ == bytes_of(samples@),
            None => stopped,
        },
{
    if stopped {
        None
    } else {
        Some(pcm_bytes(samples))
    }
}

/// The samples of a recording that have been captured and not yet written.
pub struct RecordBuffer {
    samples: Vec<i16>,
}

impl View for RecordBuffer {
    type V = Seq<i16>;

    closed spec fn view(&self) -> Seq<i16> {
        self.samples@
    }
}

impl RecordBuffer {
    /// A buffer without samples.
    pub fn new() -> (b: RecordBuffer)
        ensures
            b@ == Seq::<i16>::empty(),
    {
        RecordBuffer { samples: Vec::new() }
    }

    /// Takes in captured samples, unless the recording has been stopped.
    pub fn capture(&mut self, samples: &[i16], stopped: bool)
        ensures
            final(self)@ == if stopped {
                old(self)@
            } else {
                old(self)@ + samples@
            },
            !stopped ==> final(self)@ == left_after(old(self)@, RecordEvent::Captured(samples@)),
    {
        if !stopped {
            let ghost before = self.samples@;
            self.samples.extend_from_slice(samples);
            assert(self.samples@ =~= before + samples@);
        }
    }

    /// Hands out what is there, for writing.
    pub fn drain(&mut self) -> (samples: Vec<i16>)
        ensures
            samples@ == old(self)@,
            final(self)@ == Seq::<i16>::empty(),
            samples@ == written_by(old(self)@, RecordEvent::Written),
            final(self)@ == left_after(old(self)@, RecordEvent::Written),
    {
        let mut samples: Vec<i16> = Vec::new();
        std::mem::swap(&mut samples, &mut self.samples);
        assert(self.samples@ =~= Seq::empty());
        samples
    }
}

/// Something that happens to a recording.
pub enum RecordEvent {
    /// Samples are captured before the recording is stopped.
    Captured(Seq<i16>),
    /// What is there is written.
    Written,
}

/// What an event leaves in the buffer, out of what was there.
pub open spec fn left_after(left: Seq<i16>, event: RecordEvent) -> Seq<i16> {
    match event {
        RecordEvent::Captured(samples) => left + samples,
        RecordEvent::Written => Seq::empty(),
    }
}

/// What an event writes, out of what was in the buffer.
pub open spec fn written_by(left: Seq<i16>, event: RecordEvent) -> Seq<i16> {
    match event {
        RecordEvent::Captured(_) => Seq::empty(),
        RecordEvent::Written => left,
    }
}

/// The samples that these events captured.
pub open spec fn captured(events: Seq<RecordEvent>) -> Seq<i16>
    decreases events.len(),
{
    if events.len() == 0 {
        Seq::empty()
    } else {
        match events.last() {
            RecordEvent::Captured(samples) => captured(events.drop_last()) + samples,
            RecordEvent::Written => captured(events.drop_last()),
        }
    }
}

/// The samples that these events wrote, and those that are still there.
pub open spec fn written_and_left(events: Seq<RecordEvent>) -> (Seq<i16>, Seq<i16>)
    decreases events.len(),
{
    if events.len() == 0 {
        (Seq::empty(), Seq::empty())
    } else {
        let before = written_and_left(events.drop_last());
        (before.0 + written_by(before.1, events.last()), left_after(before.1, events.last()))
    }
}

/// No sample of a recording is lost, doubled or moved: what was written and what
/// is still there, in this order, is what was captured; and when the last thing
/// that happens is a write, all of it has been written.
pub proof fn lemma_recording_is_complete(events: Seq<RecordEvent>)
    ensures
        written_and_left(events).0 + written_and_left(events).1 == captured(events),
        events.len() > 0 && events.last() is Written ==> written_and_left(events).0 == captured(
            events,
        ),
    decreases events.len(),
{
    if events.len() > 0 {
        lemma_recording_is_complete(events.drop_last());
        let before = written_and_left(events.drop_last());
        match events.last() {
            RecordEvent::Captured(samples) => {
                assert(before.0 + Seq::<i16>::empty() =~= before.0);
                assert(before.0 + (before.1 + samples) =~= (before.0 + before.1) + samples);
            },
            RecordEvent::Written => {
                assert((before.0 + before.1) + Seq::<i16>::empty() =~= before.0 + before.1);
            },
        }
    } else {
        assert(Seq::<i16>::empty() + Seq::<i16>::empty() =~= Seq::<i16>::empty());
    }
}

/// What a recording does next.
#[derive(Debug, Clone, Copy, PartialEq, Eq, Structural)]
pub enum RecordStep {
    /// Waits a while, and then writes what is there.
    Wait,
    /// Writes what is there for the last time, and closes the file.
    Finish,
}

/// What a recording does next: it goes on until it has been stopped.
pub open spec fn step_for(stopped: bool) -> RecordStep {
    if stopped {
        RecordStep::Finish
    } else {
        RecordStep::Wait
    }
}

/// What a recording does next: it goes on until it has been stopped.
pub fn record_step(stopped: bool) -> (r: RecordStep)
    ensures
        r == step_for(stopped),
{
    if stopped {
        RecordStep::Finish
    } else {
        RecordStep::Wait
    }
}

/// One round of a recording, which ends with a write.
pub struct Round {
    /// Whether the recording had been stopped when the round began.
    pub stopped: bool,
    /// What was captured since the write before.
    pub captured: Seq<i16>,
}

/// Whether one of these rounds is the last one of the recording.
pub open spec fn finished(rounds: Seq<Round>) -> bool {
    exists|i: int| 0 <= i < rounds.len() && step_for((#[trigger] rounds[i]).stopped) is Finish
}

/// What happens to a recording in these rounds; no round comes after the one that
/// finishes it.
pub open spec fn recording(rounds: Seq<Round>) -> Seq<RecordEvent>
    decreases rounds.len(),
{
    if rounds.len() == 0 {
        Seq::empty()
    } else {
        let before = recording(rounds.drop_last());
        if finished(rounds.drop_last()) {
            before
        } else {
            before.push(RecordEvent::Captured(rounds.last().captured)).push(RecordEvent::Written)
        }
    }
}

/// What was captured in these rounds.
pub open spec fn captured_in(rounds: Seq<Round>) -> Seq<i16>
    decreases rounds.len(),
{
    if rounds.len() == 0 {
        Seq::empty()
    } else {
        captured_in(rounds.drop_last()) + rounds.last().captured
    }
}

/// While a recording goes on, and in the round that finishes it, all that was
/// captured has been written at the end of the round.
proof fn lemma_rounds_are_written(rounds: Seq<Round>)
    requires
        rounds.len() > 0 ==> !finished(rounds.drop_last()),
    ensures
        written_and_left(recording(rounds)).0 == captured_in(rounds),
        written_and_left(recording(rounds)).1 == Seq::<i16>::empty(),
    decreases rounds.len(),
{
    if rounds.len() > 0 {
        let short = rounds.drop_last();
        if short.len() > 0 && finished(short.drop_last()) {
            let i = choose|i: int|
                0 <= i < short.drop_last().len() && step_for(
                    (#[trigger] short.drop_last()[i]).stopped,
                ) is Finish;
            assert(step_for(short[i].stopped) is Finish);
        }
        lemma_rounds_are_written(short);
        let before = recording(short);
        let heard = before.push(RecordEvent::Captured(rounds.last().captured));
        let done = heard.push(RecordEvent::Written);
        assert(heard.drop_last() =~= before);
        assert(done.drop_last() =~= heard);
        assert(Seq::<i16>::empty() + rounds.last().captured =~= rounds.last().captured);
        assert(written_and_left(heard).1 == rounds.last().captured);
        assert(written_and_left(heard).0 =~= captured_in(short));
    }
}

/// After the round that finishes a recording nothing happens to it.
proof fn lemma_nothing_after_finish(rounds: Seq<Round>, i: int)
    requires
        0 <= i < rounds.len(),
        step_for(rounds[i].stopped) is Finish,
    ensures
        recording(rounds) == recording(rounds.take(i + 1)),
    decreases rounds.len(),
{
    if i == rounds.len() - 1 {
        assert(rounds.take(i + 1) =~= rounds);
    } else {
        let short = rounds.drop_last();
        assert(short[i] == rounds[i]);
        assert(finished(short));
        lemma_nothing_after_finish(short, i);
        assert(short.take(i + 1) =~= rounds.take(i + 1));
    }
}

/// A stopped recording is complete: it ends with the first round that began after
/// the stop, and then everything that was captured until that round's write has
/// been written, in order, and nothing is left.
pub proof fn lemma_stopped_recording_is_complete(rounds: Seq<Round>, i: int)
    requires
        0 <= i < rounds.len(),
        rounds[i].stopped,
        forall|j: int| 0 <= j < i ==> !(#[trigger] rounds[j]).stopped,
    ensures
        recording(rounds) == recording(rounds.take(i + 1)),
        recording(rounds).last() is Written,
        captured(recording(rounds)) == captured_in(rounds.take(i + 1)),
        written_and_left(recording(rounds)) == (
            captured_in(rounds.take(i + 1)),
            Seq::<i16>::empty(),
        ),
{
    let all = rounds.take(i + 1);
    let short = all.drop_last();
    assert(forall|j: int| 0 <= j < short.len() ==> #[trigger] short[j] == rounds[j]);
    assert(!finished(short));
    lemma_nothing_after_finish(rounds, i);
    lemma_rounds_are_written(all);
    lemma_recording_is_complete(recording(rounds));
}

/// The range that is used is a mono range of floating point samples, and a range
/// is used whenever there is one of these.
pub proof fn lemma_chosen_range_is_mono(configs: Seq<SupportedConfig>, i: int)
    ensures
        first_nearest(configs, i) ==> 0 <= i < configs.len() && configs[i].channels <= 1
            && configs[i].sample_format == SampleFormat::F32,
        0 <= i < configs.len() ==> (configs[i].suitable() <==> configs[i].channels <= 1
            && configs[i].sample_format == SampleFormat::F32),
{
}

/// The sample rate that is used lies between 16000 and every other rate of its
/// range, so none is nearer; in a range whose ends are the wrong way round it is
/// the first of the two.
pub proof fn lemma_rate_in_its_range(c: SupportedConfig, other: int)
    ensures
        c.min_sample_rate <= c.max_sample_rate ==> c.min_sample_rate <= c.rate()
            <= c.max_sample_rate,
        c.min_sample_rate <= other <= c.max_sample_rate ==> other <= c.rate() <= 16000 || 16000
            <= c.rate() <= other,
        c.min_sample_rate > c.max_sample_rate ==> c.rate() == c.min_sample_rate,
{
}

/// Where sample rates fit in signed numbers: no rate of a suitable range is nearer
/// to 16000 than the one that is used, and all rates of the suitable ranges in
/// front of the one that is used are farther away.
pub proof fn lemma_no_range_is_nearer(configs: Seq<SupportedConfig>, i: int, j: int, other: int)
    requires
        first_nearest(configs, i),
        0 <= j < configs.len(),
        configs[j].channels <= 1,
        configs[j].sample_format == SampleFormat::F32,
        configs[j].min_sample_rate <= other <= configs[j].max_sample_rate <= 0x7FFF_FFFF,
        configs[i].min_sample_rate <= configs[i].max_sample_rate <= 0x7FFF_FFFF,
    ensures
        ({
            let rate = configs[i].rate() as int;
            let near = if rate < 16000 {
                16000 - rate
            } else {
                rate - 16000
            };
            let far = if other < 16000 {
                16000 - other
            } else {
                other - 16000
            };
            &&& near <= far
            &&& j < i ==> near < far
        }),
{
    assert(configs[j].suitable());
    assert(configs[i].mismatch() <= configs[j].mismatch());
    if j < i {
        assert(configs[i].mismatch() < configs[j].mismatch());
    }
}

/// How near a range is, whatever its ends: at no distance where it has 16000, and
/// else at the smaller of the distances of its two ends, taken as signed numbers.
pub proof fn lemma_how_near_a_range_is(c: SupportedConfig)
    ensures
        ({
            let low = c.min_sample_rate as i32 - 16000;
            let high = c.max_sample_rate as i32 - 16000;
            let inside = c.min_sample_rate <= 16000 <= c.max_sample_rate;
            &&& inside ==> c.mismatch() == 0
            &&& !inside ==> {
                &&& c.mismatch() == low || c.mismatch() == -low || c.mismatch() == high
                    || c.mismatch() == -high
                &&& 0 <= c.mismatch()
                &&& c.mismatch() <= low || c.mismatch() <= -low
                &&& c.mismatch() <= high || c.mismatch() <= -high
            }
            &&& c.measurable() <==> inside || c.channels > 1 || c.sample_format
                != SampleFormat::F32 || (low >= -0x7FFF_FFFF && high >= -0x7FFF_FFFF)
        }),
{
}

/// The range that is used is as near as any suitable one, and nearer than those in
/// front of it.
pub proof fn lemma_first_of_the_nearest(configs: Seq<SupportedConfig>, i: int, j: int)
    requires
        first_nearest(configs, i),
        0 <= j < configs.len(),
        configs[j].channels <= 1,
        configs[j].sample_format == SampleFormat::F32,
    ensures
        configs[i].mismatch() <= configs[j].mismatch(),
        j < i ==> configs[i].mismatch() < configs[j].mismatch(),
{
    assert(configs[j].suitable());
}

} // verus!
