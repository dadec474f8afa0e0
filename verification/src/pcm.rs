//! Little-endian 16-bit PCM: the byte layout that captured audio travels in.

use vstd::prelude::*;

verus! {

/// The two bytes of a number, lowest first.
pub open spec fn le16(n: int) -> Seq<u8> {
    seq![(n % 256) as u8, (n / 256 % 256) as u8]
}

/// The four bytes of a number, lowest first.
pub open spec fn le32(n: int) -> Seq<u8> {
    le16(n % 0x1_0000) + le16(n / 0x1_0000)
}

/// The two's complement value of `s`, as a number below 65536.
pub open spec fn unsigned_value(s: i16) -> int {
    if s < 0 {
        s + 0x1_0000
    } else {
        s as int
    }
}

/// The low byte of a sample.
pub open spec fn low_byte(s: i16) -> u8 {
    (unsigned_value(s) % 256) as u8
}

/// The high byte of a sample.
pub open spec fn high_byte(s: i16) -> u8 {
    (unsigned_value(s) / 256) as u8
}

/// The sample that a low and a high byte stand for.
pub open spec fn sample_of(low: u8, high: u8) -> i16 {
    let value = low + 256 * high;
    if value < 0x8000 {
        value as i16
    } else {
        (value - 0x1_0000) as i16
    }
}

/// The bytes of a run of samples: each sample as its low and then its high byte.
pub open spec fn bytes_of(samples: Seq<i16>) -> Seq<u8> {
    Seq::new(
        2 * samples.len(),
        |i: int|
            if i % 2 == 0 {
                low_byte(samples[i / 2])
            } else {
                high_byte(samples[i / 2])
            },
    )
}

/// The samples that a run of bytes holds; an odd byte at the end is left out.
pub open spec fn samples_of(bytes: Seq<u8>) -> Seq<i16> {
    Seq::new(bytes.len() / 2, |i: int| sample_of(bytes[2 * i], bytes[2 * i + 1]))
}

/// Reads one sample from its two bytes.
pub fn read_sample(low: u8, high: u8) -> (s: i16)
    ensures
        s == sample_of(low, high),
{
    let value: i32 = low as i32 + 256 * high as i32;
    if value < 0x8000 {
        value as i16
    } else {
        (value - 0x1_0000) as i16
    }
}

/// Lays samples out as bytes, low byte first.
pub fn pcm_bytes(samples: &[i16]) -> (bytes: Vec<u8>)
    ensures
        bytes@ == bytes_of(samples@),
{
    let mut bytes: Vec<u8> = Vec::new();
    let mut i: usize = 0;
    while i < samples.len()
        invariant
            i <= samples@.len(),
            bytes@ == bytes_of(samples@.take(i as int)),
        decreases samples@.len() - i,
    {
        let s: i16 = samples[i];
        let value: i32 = if s < 0 { s as i32 + 0x1_0000 } else { s as i32 };
        bytes.push((value % 256) as u8);
        bytes.push((value / 256) as u8);
        i = i + 1;
        assert(bytes@ =~= bytes_of(samples@.take(i as int)));
    }
    assert(samples@.take(i as int) =~= samples@);
    bytes
}

/// Reading back what was laid out gives the samples again.
pub proof fn lemma_samples_survive_bytes(samples: Seq<i16>)
    ensures
        samples_of(bytes_of(samples)) == samples,
{
    let bytes = bytes_of(samples);
    assert forall|i: int| 0 <= i < samples.len() implies #[trigger] samples_of(bytes)[i]
        == samples[i] by {
        assert((2 * i) / 2 == i && (2 * i + 1) / 2 == i);
        assert(bytes[2 * i] == low_byte(samples[i]));
        assert(bytes[2 * i + 1] == high_byte(samples[i]));
    }
    assert(samples_of(bytes) =~= samples);
}

/// Reading back a part of what was laid out gives that part of the samples.
pub proof fn lemma_part_survives_bytes(samples: Seq<i16>, from: int, to: int)
    requires
        0 <= from <= to <= samples.len(),
    ensures
        samples_of(bytes_of(samples).subrange(2 * from, 2 * to)) == samples.subrange(from, to),
{
    lemma_bytes_of_part(samples, from, to);
    lemma_samples_survive_bytes(samples.subrange(from, to));
}

/// The bytes of a part of the samples are a part of their bytes.
proof fn lemma_bytes_of_part(samples: Seq<i16>, from: int, to: int)
    requires
        0 <= from <= to <= samples.len(),
    ensures
        bytes_of(samples).subrange(2 * from, 2 * to) == bytes_of(samples.subrange(from, to)),
{
    let part = samples.subrange(from, to);
    let cut = bytes_of(samples).subrange(2 * from, 2 * to);
    assert(cut.len() == bytes_of(part).len());
    assert forall|i: int| 0 <= i < cut.len() implies #[trigger] cut[i] == bytes_of(part)[i] by {
        assert((2 * from + i) / 2 == from + i / 2);
        assert((2 * from + i) % 2 == i % 2);
        assert(part[i / 2] == samples[from + i / 2]);
    }
    assert(cut =~= bytes_of(part));
}

/// Laying out what was read gives the bytes again, where they are whole samples.
pub proof fn lemma_bytes_survive_samples(bytes: Seq<u8>)
    requires
        bytes.len() % 2 == 0,
    ensures
        bytes_of(samples_of(bytes)) == bytes,
{
    let samples = samples_of(bytes);
    assert forall|i: int| 0 <= i < bytes.len() implies #[trigger] bytes_of(samples)[i]
        == bytes[i] by {
        let k = i / 2;
        assert(0 <= k < samples.len());
        assert(samples[k] == sample_of(bytes[2 * k], bytes[2 * k + 1]));
        assert(i == 2 * k || i == 2 * k + 1);
    }
    assert(bytes_of(samples) =~= bytes);
}

/// A sample in two bytes: the second counts 256 times as much as the first, and a
/// negative sample is laid out as the number that is greater by 65536.
pub proof fn lemma_layout_of_a_sample(samples: Seq<i16>, i: int)
    requires
        0 <= i < samples.len(),
    ensures
        bytes_of(samples).len() == 2 * samples.len(),
        bytes_of(samples)[2 * i] + 256 * bytes_of(samples)[2 * i + 1] == if samples[i] < 0 {
            samples[i] + 65536
        } else {
            samples[i] as int
        },
{
    assert((2 * i) / 2 == i && (2 * i + 1) / 2 == i);
    assert(bytes_of(samples)[2 * i] == low_byte(samples[i]));
    assert(bytes_of(samples)[2 * i + 1] == high_byte(samples[i]));
}

/// A sample from two bytes: it is the number that they hold, or that number less
/// 65536, whichever is a sample.
pub proof fn lemma_value_of_a_sample(bytes: Seq<u8>, i: int)
    requires
        0 <= i,
        2 * i + 2 <= bytes.len(),
    ensures
        samples_of(bytes).len() == bytes.len() / 2,
        ({
            let value = bytes[2 * i] + 256 * bytes[2 * i + 1];
            samples_of(bytes)[i] == value || samples_of(bytes)[i] == value - 65536
        }),
{
}

/// The same of one sample by itself.
pub proof fn lemma_value_of_two_bytes(low: u8, high: u8)
    ensures
        sample_of(low, high) == low + 256 * high || sample_of(low, high) == low + 256 * high
            - 65536,
{
}

/// Numbers are laid out with the lowest byte first.
pub proof fn lemma_number_layout(n: int)
    requires
        0 <= n < 0x1_0000_0000,
    ensures
        le32(n).len() == 4,
        le32(n)[0] + 0x100 * le32(n)[1] + 0x1_0000 * le32(n)[2] + 0x100_0000 * le32(n)[3] == n,
        le16(n).len() == 2,
        n < 0x1_0000 ==> le16(n)[0] + 0x100 * le16(n)[1] == n,
{
    let low = n % 0x1_0000;
    let high = n / 0x1_0000;
    let b = le32(n);
    assert(b[0] == low % 256 && b[1] == low / 256 % 256);
    assert(b[2] == high % 256 && b[3] == high / 256 % 256);
    assert(low / 256 % 256 == low / 256 && high / 256 % 256 == high / 256);
}

} // verus!
