//! Packing an utterance as a WAV file for transcription.

use std::io::Cursor;

use vstd::prelude::*;

use crate::pcm::{
    bytes_of, high_byte, le16, le32, lemma_samples_survive_bytes, low_byte, samples_of,
};

verus! {

/// Channels of a packed utterance.
pub const CHANNELS: u16 = 1;

/// Bits in a sample of a packed utterance.
pub const BITS_PER_SAMPLE: u16 = 16;

/// Bytes in front of the samples of a WAV file.
pub const HEADER_BYTES: usize = 44;

/// The header of a PCM WAV file, with the two lengths that it states: that of
/// what follows the first eight bytes, and that of the samples.
pub open spec fn wav_header(
    channels: int,
    sample_rate: int,
    bits: int,
    riff_len: int,
    data_len: int,
) -> Seq<u8> {
    let block = channels * (bits / 8);
    seq![0x52u8, 0x49, 0x46, 0x46]  // RIFF
     + le32(riff_len) + seq![0x57u8, 0x41, 0x56, 0x45]  // WAVE
     + seq![0x66u8, 0x6D, 0x74, 0x20]  // fmt
     + le32(16) + le16(1) + le16(channels) + le32(sample_rate) + le32(sample_rate * block) + le16(
        block,
    ) + le16(bits) + seq![0x64u8, 0x61, 0x74, 0x61]  // data
     + le32(data_len)
}

/// A file's bytes with the two lengths in its header set to what they are.
pub open spec fn with_lengths(file: Seq<u8>) -> Seq<u8> {
    file.take(4) + le32(file.len() - 8) + file.subrange(8, 40) + le32(file.len() - HEADER_BYTES)
        + file.skip(HEADER_BYTES as int)
}

/// The WAV file that holds `samples`.
pub open spec fn wav_file(channels: int, sample_rate: int, bits: int, samples: Seq<i16>) -> Seq<
    u8,
> {
    let data = bytes_of(samples);
    wav_header(channels, sample_rate, bits, data.len() + HEADER_BYTES - 8, data.len() as int)
        + data
}

/// A `hound::WavWriter` that writes 16-bit integer samples into a vector of
/// bytes. The writer is generic over `std::io` traits, so it is held here as a
/// whole.
#[verifier::external_body]
pub struct WavStream<'a> {
    writer: hound::WavWriter<Cursor<&'a mut Vec<u8>>>,
}

/// An error of the `hound` crate.
#[verifier::external_type_specification]
#[verifier::external_body]
pub struct ExHoundError(hound::Error);

/// The bytes that a stream has written so far.
pub uninterp spec fn stream_bytes(stream: WavStream) -> Seq<u8>;

/// The bytes that the vector under a stream holds once the stream is gone. A
/// stream borrows its vector, and what the vector will hold at the end of a
/// mutable borrow belongs to the borrow from its start.
pub uninterp spec fn stream_result(stream: WavStream) -> Seq<u8>;

/// Whether `hound::WavWriter::new` succeeds on an empty vector, with integer
/// samples and this many channels, samples in a second and bits in a sample.
pub uninterp spec fn header_written(
    channels: u16,
    sample_rate: u32,
    bits_per_sample: u16,
) -> bool;

/// Whether `hound::WavWriter::write_sample` succeeds on this sample once these
/// bytes have been written.
pub uninterp spec fn sample_written(written: Seq<u8>, sample: i16) -> bool;

/// Whether `hound::WavWriter::finalize` succeeds once these bytes have been
/// written.
pub uninterp spec fn lengths_written(written: Seq<u8>) -> bool;

/// `hound::WavWriter::new`, with integer samples, on a cursor over `sink`: on
/// success the header has been written, with both of its lengths zero, and what
/// the stream leaves behind will be found in `sink`. Whether it succeeds has a
/// name, as it depends on the arguments alone: the bytes go into memory. That it
/// always does is not claimed, which rests on the cursor of the standard library.
#[verifier::external_body]
fn open_stream<'a>(
    sink: &'a mut Vec<u8>,
    channels: u16,
    sample_rate: u32,
    bits_per_sample: u16,
) -> (r: Result<WavStream<'a>, hound::Error>)
    requires
        old(sink)@.len() == 0,
        1 <= channels <= 2,
        bits_per_sample == 16,
        sample_rate > 0,
        sample_rate * channels * 2 <= u32::MAX,
    ensures
        r is Ok == header_written(channels, sample_rate, bits_per_sample),
        r matches Ok(stream) ==> {
            &&& stream_bytes(stream) == wav_header(
                channels as int,
                sample_rate as int,
                bits_per_sample as int,
                0,
                0,
            )
            &&& stream_result(stream) == final(sink)@
        },
{
    let sample_format = hound::SampleFormat::Int;
    let spec = hound::WavSpec { channels, sample_rate, bits_per_sample, sample_format };
    hound::WavWriter::new(Cursor::new(sink), spec).map(|writer| WavStream { writer })
}

/// `hound::WavWriter::write_sample` on a 16-bit sample: on success its low and
/// its high byte have been added. It counts the bytes in a `u32`, so there must
/// be room in the count. Whether it succeeds depends on the sample and on what has
/// been written, and has a name, as above.
#[verifier::external_body]
fn write_sample(stream: &mut WavStream, sample: i16) -> (r: Result<(), hound::Error>)
    requires
        stream_bytes(*old(stream)).len() - HEADER_BYTES + 2 <= u32::MAX,
    ensures
        r is Ok == sample_written(stream_bytes(*old(stream)), sample),
        r is Ok ==> stream_bytes(*final(stream)) == stream_bytes(*old(stream)).push(
            low_byte(sample),
        ).push(high_byte(sample)),
        stream_result(*final(stream)) == stream_result(*old(stream)),
{
    stream.writer.write_sample(sample)
}

/// `hound::WavWriter::finalize`: on success the two lengths in the header have
/// been set and nothing else of what was written has changed. The file's length
/// is computed in a `u32`, so it must fit. Whether it succeeds depends on what has
/// been written, and has a name, as above.
#[verifier::external_body]
fn finish_stream(stream: WavStream) -> (r: Result<(), hound::Error>)
    requires
        HEADER_BYTES <= stream_bytes(stream).len(),
        stream_bytes(stream).len() - 8 <= u32::MAX,
    ensures
        r is Ok == lengths_written(stream_bytes(stream)),
        r is Ok ==> stream_result(stream) == with_lengths(stream_bytes(stream)),
{
    stream.writer.finalize()
}

/// The step at which an utterance could not be packed.
#[derive(Debug, Clone, Copy, PartialEq, Eq, Structural)]
pub enum WavError {
    Header,
    Sample,
    Finish,
}

/// What is written before the samples, while their number is not known.
pub open spec fn first_header(sample_rate: u32) -> Seq<u8> {
    wav_header(CHANNELS as int, sample_rate as int, BITS_PER_SAMPLE as int, 0, 0)
}

/// Whether the writer takes sample `i`, with all samples before it written.
pub open spec fn taken(samples: Seq<i16>, sample_rate: u32, i: int) -> bool {
    sample_written(first_header(sample_rate) + bytes_of(samples.take(i)), samples[i])
}

/// The first step at which the writer refuses to pack the samples, if there is
/// one.
pub open spec fn refused_at(samples: Seq<i16>, sample_rate: u32) -> Option<WavError> {
    if !header_written(CHANNELS, sample_rate, BITS_PER_SAMPLE) {
        Some(WavError::Header)
    } else if exists|i: int| 0 <= i < samples.len() && !#[trigger] taken(samples, sample_rate, i) {
        Some(WavError::Sample)
    } else if !lengths_written(first_header(sample_rate) + bytes_of(samples)) {
        Some(WavError::Finish)
    } else {
        None
    }
}

/// One more sample adds its two bytes.
proof fn lemma_bytes_of_push(samples: Seq<i16>, s: i16)
    ensures
        bytes_of(samples.push(s)) == bytes_of(samples).push(low_byte(s)).push(high_byte(s)),
{
    assert(bytes_of(samples.push(s)) =~= bytes_of(samples).push(low_byte(s)).push(high_byte(s)));
}

/// Setting the lengths in a header that was written without them.
proof fn lemma_with_lengths(channels: int, sample_rate: int, bits: int, data: Seq<u8>)
    ensures
        with_lengths(wav_header(channels, sample_rate, bits, 0, 0) + data) == wav_header(
            channels,
            sample_rate,
            bits,
            data.len() + HEADER_BYTES - 8,
            data.len() as int,
        ) + data,
        wav_header(channels, sample_rate, bits, 0, 0).len() == HEADER_BYTES,
{
    let file = wav_header(channels, sample_rate, bits, 0, 0) + data;
    let done = wav_header(
        channels,
        sample_rate,
        bits,
        data.len() + HEADER_BYTES - 8,
        data.len() as int,
    ) + data;
    assert(file.len() == HEADER_BYTES + data.len());
    assert(with_lengths(file) =~= done);
}

/// Packs samples as a mono WAV file. It fails where the writer does, and only
/// there, with the step at which it did.
pub fn encode_wav(samples: &[i16], sample_rate: u32) -> (r: Result<Vec<u8>, WavError>)
    requires
        sample_rate > 0,
        sample_rate * 2 <= u32::MAX,
        samples@.len() * 2 + HEADER_BYTES - 8 <= u32::MAX,
    ensures
        match r {
            Ok(file) => {
                &&& refused_at(samples@, sample_rate) is None
                &&& file@ == wav_file(
                    CHANNELS as int,
                    sample_rate as int,
                    BITS_PER_SAMPLE as int,
                    samples@,
                )
            },
            Err(step) => refused_at(samples@, sample_rate) == Some(step),
        },
{
    let mut file: Vec<u8> = Vec::new();
    let mut stream = match open_stream(&mut file, CHANNELS, sample_rate, BITS_PER_SAMPLE) {
        Ok(stream) => stream,
        Err(_) => return Err(WavError::Header),
    };
    let ghost result = stream_result(stream);
    let ghost header = first_header(sample_rate);
    proof {
        lemma_with_lengths(
            CHANNELS as int,
            sample_rate as int,
            BITS_PER_SAMPLE as int,
            bytes_of(samples@),
        );
        assert(header + bytes_of(samples@.take(0)) =~= header);
    }
    let mut i: usize = 0;
    while i < samples.len()
        invariant
            i <= samples@.len(),
            samples@.len() * 2 + HEADER_BYTES - 8 <= u32::MAX,
            header == first_header(sample_rate),
            header.len() == HEADER_BYTES,
            header_written(CHANNELS, sample_rate, BITS_PER_SAMPLE),
            forall|j: int| 0 <= j < i ==> #[trigger] taken(samples@, sample_rate, j),
            stream_bytes(stream) == header + bytes_of(samples@.take(i as int)),
            stream_result(stream) == result,
        decreases samples@.len() - i,
    {
        let ghost fits = taken(samples@, sample_rate, i as int);
        match write_sample(&mut stream, samples[i]) {
            Ok(()) => {},
            Err(_) => {
                assert(!fits);
                return Err(WavError::Sample)
            },
        }
        proof {
            let so_far = samples@.take(i as int);
            let s = samples@[i as int];
            assert(samples@.take(i + 1) =~= so_far.push(s));
            lemma_bytes_of_push(so_far, s);
            assert(stream_bytes(stream) =~= header + bytes_of(so_far.push(s)));
        }
        i = i + 1;
    }
    assert(samples@.take(i as int) =~= samples@);
    match finish_stream(stream) {
        Ok(()) => Ok(file),
        Err(_) => Err(WavError::Finish),
    }
}

/// What stands behind the header of a file is all that was put there.
proof fn lemma_data_stays(header: Seq<u8>, data: Seq<u8>)
    ensures
        (header + data).skip(header.len() as int) == data,
{
    assert((header + data).skip(header.len() as int) =~= data);
}

/// A packed utterance is as long as its header and two bytes for each sample,
/// and the samples can be read back from behind the header.
pub proof fn lemma_wav_file_holds_samples(
    channels: int,
    sample_rate: int,
    bits: int,
    samples: Seq<i16>,
)
    ensures
        wav_file(channels, sample_rate, bits, samples).len() == HEADER_BYTES + 2 * samples.len(),
        samples_of(wav_file(channels, sample_rate, bits, samples).skip(HEADER_BYTES as int))
            == samples,
{
    let data = bytes_of(samples);
    let riff_len = data.len() + HEADER_BYTES - 8;
    let header = wav_header(channels, sample_rate, bits, riff_len, data.len() as int);
    lemma_header_back(channels, sample_rate, bits, riff_len, data.len() as int);
    lemma_data_stays(header, data);
    lemma_samples_survive_bytes(samples);
}

/// The number that two bytes of a file hold, lowest first.
pub open spec fn number16(file: Seq<u8>, at: int) -> int {
    file[at] + 0x100 * file[at + 1]
}

/// The number that four bytes of a file hold, lowest first.
pub open spec fn number32(file: Seq<u8>, at: int) -> int {
    number16(file, at) + 0x1_0000 * number16(file, at + 2)
}

/// A number of two bytes can be read where its bytes stand.
proof fn lemma_number16_at(file: Seq<u8>, at: int, n: int)
    requires
        0 <= at,
        at + 2 <= file.len(),
        file.subrange(at, at + 2) == le16(n),
        0 <= n < 0x1_0000,
    ensures
        number16(file, at) == n,
{
    let part = file.subrange(at, at + 2);
    assert(part[0] == file[at] && part[1] == file[at + 1]);
    assert(n / 256 % 256 == n / 256);
}

/// A number of four bytes can be read where its bytes stand.
proof fn lemma_number32_at(file: Seq<u8>, at: int, n: int)
    requires
        0 <= at,
        at + 4 <= file.len(),
        file.subrange(at, at + 4) == le32(n),
        0 <= n < 0x1_0000_0000,
    ensures
        number32(file, at) == n,
{
    let part = file.subrange(at, at + 4);
    assert(file.subrange(at, at + 2) =~= part.subrange(0, 2));
    assert(file.subrange(at + 2, at + 4) =~= part.subrange(2, 4));
    assert(le32(n).subrange(0, 2) =~= le16(n % 0x1_0000));
    assert(le32(n).subrange(2, 4) =~= le16(n / 0x1_0000));
    lemma_number16_at(file, at, n % 0x1_0000);
    lemma_number16_at(file, at + 2, n / 0x1_0000);
}

/// What stands in the first half of a header.
proof fn lemma_header_front(
    channels: int,
    sample_rate: int,
    bits: int,
    riff_len: int,
    data_len: int,
)
    ensures
        ({
            let header = wav_header(channels, sample_rate, bits, riff_len, data_len);
            &&& header.subrange(0, 4) == seq![0x52u8, 0x49, 0x46, 0x46]
            &&& header.subrange(4, 8) == le32(riff_len)
            &&& header.subrange(8, 16) == seq![0x57u8, 0x41, 0x56, 0x45, 0x66, 0x6D, 0x74, 0x20]
            &&& header.subrange(16, 20) == le32(16)
            &&& header.subrange(20, 22) == le16(1)
            &&& header.subrange(22, 24) == le16(channels)
        }),
{
    let header = wav_header(channels, sample_rate, bits, riff_len, data_len);
    assert(header.subrange(0, 4) =~= seq![0x52u8, 0x49, 0x46, 0x46]);
    assert(header.subrange(4, 8) =~= le32(riff_len));
    assert(header.subrange(8, 16) =~= seq![0x57u8, 0x41, 0x56, 0x45, 0x66, 0x6D, 0x74, 0x20]);
    assert(header.subrange(16, 20) =~= le32(16));
    assert(header.subrange(20, 22) =~= le16(1));
    assert(header.subrange(22, 24) =~= le16(channels));
}

/// What stands in the second half of a header.
proof fn lemma_header_back(
    channels: int,
    sample_rate: int,
    bits: int,
    riff_len: int,
    data_len: int,
)
    ensures
        ({
            let header = wav_header(channels, sample_rate, bits, riff_len, data_len);
            &&& header.len() == HEADER_BYTES
            &&& header.subrange(24, 28) == le32(sample_rate)
            &&& header.subrange(34, 36) == le16(bits)
            &&& header.subrange(36, 40) == seq![0x64u8, 0x61, 0x74, 0x61]
            &&& header.subrange(40, 44) == le32(data_len)
        }),
{
    let header = wav_header(channels, sample_rate, bits, riff_len, data_len);
    assert(header.subrange(24, 28) =~= le32(sample_rate));
    assert(header.subrange(34, 36) =~= le16(bits));
    assert(header.subrange(36, 40) =~= seq![0x64u8, 0x61, 0x74, 0x61]);
    assert(header.subrange(40, 44) =~= le32(data_len));
}

/// What stands in the front of a file stands there whatever follows.
proof fn lemma_front_stays(header: Seq<u8>, data: Seq<u8>, from: int, to: int)
    requires
        0 <= from <= to <= header.len(),
    ensures
        (header + data).subrange(from, to) == header.subrange(from, to),
{
    assert((header + data).subrange(from, to) =~= header.subrange(from, to));
}

/// A packed utterance can be read back: its header holds the format of integer
/// samples, the number of channels, the sample rate, the bits in a sample and both
/// lengths, and it is longer than an empty one by two bytes for each sample.
pub proof fn lemma_wav_file_can_be_read(
    channels: int,
    sample_rate: int,
    bits: int,
    samples: Seq<i16>,
)
    requires
        0 <= channels < 0x1_0000,
        0 <= sample_rate < 0x1_0000_0000,
        0 <= bits < 0x1_0000,
        2 * samples.len() + HEADER_BYTES - 8 < 0x1_0000_0000,
    ensures
        ({
            let file = wav_file(channels, sample_rate, bits, samples);
            &&& file.subrange(0, 4) == seq![0x52u8, 0x49, 0x46, 0x46]
            &&& number32(file, 4) == file.len() - 8
            &&& file.subrange(8, 16) == seq![0x57u8, 0x41, 0x56, 0x45, 0x66, 0x6D, 0x74, 0x20]
            &&& number32(file, 16) == 16
            &&& number16(file, 20) == 1
            &&& number16(file, 22) == channels
            &&& number32(file, 24) == sample_rate
            &&& number16(file, 34) == bits
            &&& file.subrange(36, 40) == seq![0x64u8, 0x61, 0x74, 0x61]
            &&& number32(file, 40) == 2 * samples.len()
            &&& samples_of(file.skip(HEADER_BYTES as int)) == samples
            &&& file.len() - wav_file(channels, sample_rate, bits, Seq::empty()).len() == 2
                * samples.len()
        }),
{
    let file = wav_file(channels, sample_rate, bits, samples);
    let data = bytes_of(samples);
    let data_len = data.len() as int;
    let riff_len = data_len + HEADER_BYTES - 8;
    let header = wav_header(channels, sample_rate, bits, riff_len, data_len);
    lemma_wav_file_holds_samples(channels, sample_rate, bits, samples);
    lemma_wav_file_holds_samples(channels, sample_rate, bits, Seq::empty());
    lemma_header_front(channels, sample_rate, bits, riff_len, data_len);
    lemma_header_back(channels, sample_rate, bits, riff_len, data_len);
    lemma_front_stays(header, data, 0, 4);
    lemma_front_stays(header, data, 4, 8);
    lemma_front_stays(header, data, 8, 16);
    lemma_front_stays(header, data, 16, 20);
    lemma_front_stays(header, data, 20, 22);
    lemma_front_stays(header, data, 22, 24);
    lemma_front_stays(header, data, 24, 28);
    lemma_front_stays(header, data, 34, 36);
    lemma_front_stays(header, data, 36, 40);
    lemma_front_stays(header, data, 40, 44);
    lemma_number32_at(file, 4, riff_len);
    lemma_number32_at(file, 16, 16);
    lemma_number16_at(file, 20, 1);
    lemma_number16_at(file, 22, channels);
    lemma_number32_at(file, 24, sample_rate);
    lemma_number16_at(file, 34, bits);
    lemma_number32_at(file, 40, data_len);
}

/// A packed utterance, byte by byte: the marks of the format, both lengths, one
/// channel of integer samples of sixteen bits at the given rate, and then the
/// samples and nothing else.
pub proof fn lemma_packed_utterance(samples: Seq<i16>, sample_rate: int)
    requires
        0 <= sample_rate,
        2 * sample_rate < 0x1_0000_0000,
        2 * samples.len() + 36 < 0x1_0000_0000,
    ensures
        ({
            let file = wav_file(CHANNELS as int, sample_rate, BITS_PER_SAMPLE as int, samples);
            let n = 2 * samples.len();
            &&& file.len() == 44 + n
            &&& file.subrange(0, 4) == seq![0x52u8, 0x49, 0x46, 0x46]
            &&& file[4] + 0x100 * file[5] + 0x1_0000 * file[6] + 0x100_0000 * file[7] == 36 + n
            &&& file.subrange(8, 16) == seq![0x57u8, 0x41, 0x56, 0x45, 0x66, 0x6D, 0x74, 0x20]
            &&& file.subrange(16, 24) == seq![16u8, 0, 0, 0, 1, 0, 1, 0]
            &&& file[24] + 0x100 * file[25] + 0x1_0000 * file[26] + 0x100_0000 * file[27]
                == sample_rate
            &&& file[28] + 0x100 * file[29] + 0x1_0000 * file[30] + 0x100_0000 * file[31] == 2
                * sample_rate
            &&& file.subrange(32, 40) == seq![2u8, 0, 16, 0, 0x64, 0x61, 0x74, 0x61]
            &&& file[40] + 0x100 * file[41] + 0x1_0000 * file[42] + 0x100_0000 * file[43] == n
            &&& file.skip(44) == bytes_of(samples)
        }),
{
    let data = bytes_of(samples);
    let n = data.len() as int;
    let header = wav_header(1, sample_rate, 16, 36 + n, n);
    let file = wav_file(CHANNELS as int, sample_rate, BITS_PER_SAMPLE as int, samples);
    lemma_wav_file_can_be_read(1, sample_rate, 16, samples);
    lemma_header_back(1, sample_rate, 16, 36 + n, n);
    lemma_header_rates(sample_rate, 36 + n, n);
    lemma_data_stays(header, data);
    lemma_front_stays(header, data, 16, 24);
    lemma_front_stays(header, data, 28, 32);
    lemma_front_stays(header, data, 32, 40);
    lemma_number32_at(file, 28, 2 * sample_rate);
}

/// What the rest of the header of a mono file holds.
proof fn lemma_header_rates(sample_rate: int, riff_len: int, data_len: int)
    ensures
        ({
            let header = wav_header(1, sample_rate, 16, riff_len, data_len);
            &&& header.subrange(16, 24) == seq![16u8, 0, 0, 0, 1, 0, 1, 0]
            &&& header.subrange(28, 32) == le32(2 * sample_rate)
            &&& header.subrange(32, 40) == seq![2u8, 0, 16, 0, 0x64, 0x61, 0x74, 0x61]
        }),
{
    let header = wav_header(1, sample_rate, 16, riff_len, data_len);
    let block = 1int * (16int / 8);
    assert(block == 2);
    assert(sample_rate * block == 2 * sample_rate);
    assert(header.subrange(16, 24) =~= seq![16u8, 0, 0, 0, 1, 0, 1, 0]);
    assert(header.subrange(28, 32) =~= le32(2 * sample_rate));
    assert(header.subrange(32, 40) =~= seq![2u8, 0, 16, 0, 0x64, 0x61, 0x74, 0x61]);
}

/// Packing fails where the writer refuses the header, a sample or the end, and
/// nowhere else: neither the samples nor their number nor the rate make it fail.
pub proof fn lemma_only_the_writer_refuses(samples: Seq<i16>, sample_rate: u32)
    ensures
        refused_at(samples, sample_rate) is None <==> {
            let header = wav_header(1, sample_rate as int, 16, 0, 0);
            &&& header_written(1, sample_rate, 16)
            &&& forall|i: int|
                0 <= i < samples.len() ==> sample_written(
                    header + bytes_of(#[trigger] samples.take(i)),
                    samples[i],
                )
            &&& lengths_written(header + bytes_of(samples))
        },
        refused_at(samples, sample_rate) == Some(WavError::Header) <==> !header_written(
            1,
            sample_rate,
            16,
        ),
        refused_at(samples, sample_rate) == Some(WavError::Finish) ==> !lengths_written(
            wav_header(1, sample_rate as int, 16, 0, 0) + bytes_of(samples),
        ),
        refused_at(samples, sample_rate) == Some(WavError::Sample) <==> {
            let header = wav_header(1, sample_rate as int, 16, 0, 0);
            &&& header_written(1, sample_rate, 16)
            &&& exists|i: int|
                0 <= i < samples.len() && !sample_written(
                    header + bytes_of(#[trigger] samples.take(i)),
                    samples[i],
                )
        },
{
    let header = wav_header(1, sample_rate as int, 16, 0, 0);
    if forall|i: int|
        0 <= i < samples.len() ==> sample_written(
            header + bytes_of(#[trigger] samples.take(i)),
            samples[i],
        ) {
        assert forall|i: int| 0 <= i < samples.len() implies #[trigger] taken(
            samples,
            sample_rate,
            i,
        ) by {
            let before = samples.take(i);
        }
    } else {
        let i = choose|i: int|
            0 <= i < samples.len() && !sample_written(
                header + bytes_of(#[trigger] samples.take(i)),
                samples[i],
            );
        assert(!taken(samples, sample_rate, i));
    }
}

} // verus!
