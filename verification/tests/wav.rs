use std::io::Cursor;

use dictate::pcm::pcm_bytes;
use dictate::wav::encode_wav;

#[test]
fn a_packed_utterance_byte_by_byte() {
    let file = encode_wav(&[1, -2, 300], 16000).unwrap();
    let expected: Vec<u8> = [
        &b"RIFF"[..],
        &[42, 0, 0, 0],
        &b"WAVEfmt "[..],
        &[16, 0, 0, 0, 1, 0, 1, 0],
        &[0x80, 0x3E, 0, 0, 0x00, 0x7D, 0, 0, 2, 0, 16, 0],
        &b"data"[..],
        &[6, 0, 0, 0],
        &[1, 0, 0xFE, 0xFF, 0x2C, 0x01],
    ]
    .concat();
    assert_eq!(file, expected);
}

#[test]
fn packed_samples_can_be_read_back() {
    let samples: Vec<i16> = (0..5000).map(|i| (i * 7919 % 65536 - 32768) as i16).collect();
    let file = encode_wav(&samples, 22050).unwrap();
    assert_eq!(file.len(), 44 + 2 * samples.len());
    assert_eq!(file[44..].to_vec(), pcm_bytes(&samples));
    let mut reader = hound::WavReader::new(Cursor::new(file)).unwrap();
    assert_eq!(reader.spec().channels, 1);
    assert_eq!(reader.spec().sample_rate, 22050);
    assert_eq!(reader.spec().bits_per_sample, 16);
    let read: Vec<i16> = reader.samples::<i16>().map(|s| s.unwrap()).collect();
    assert_eq!(read, samples);
}

#[test]
fn an_empty_utterance_is_a_bare_header() {
    let file = encode_wav(&[], 16000).unwrap();
    assert_eq!(file.len(), 44);
    assert_eq!(file[4..8].to_vec(), vec![36, 0, 0, 0]);
    assert_eq!(file[40..44].to_vec(), vec![0, 0, 0, 0]);
}

#[test]
fn a_header_holds_what_was_packed() {
    let samples = [7i16; 300];
    let file = encode_wav(&samples, 0x7FFF_FFFF).unwrap();
    let number = |at: usize, n: usize| {
        file[at..at + n]
            .iter()
            .rev()
            .fold(0u32, |sum, b| sum * 256 + *b as u32)
    };
    assert_eq!(number(4, 4) as usize, file.len() - 8);
    assert_eq!(number(16, 4), 16);
    assert_eq!(number(20, 2), 1);
    assert_eq!(number(22, 2), 1);
    assert_eq!(number(24, 4), 0x7FFF_FFFF);
    assert_eq!(number(34, 2), 16);
    assert_eq!(number(40, 4), 600);
    assert_eq!(file.len() - encode_wav(&[], 0x7FFF_FFFF).unwrap().len(), 600);
}
