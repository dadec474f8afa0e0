use dictate::pcm::{pcm_bytes, read_sample};
use dictate::segmenter::FRAME_SAMPLES;
use dictate::vad::{decode_frame, FRAME_BYTES};

#[test]
fn samples_are_laid_out_low_byte_first() {
    assert_eq!(
        pcm_bytes(&[0, 1, -1, 258, i16::MIN, i16::MAX]),
        vec![0, 0, 1, 0, 0xFF, 0xFF, 2, 1, 0, 0x80, 0xFF, 0x7F]
    );
    assert_eq!(pcm_bytes(&[]), Vec::<u8>::new());
}

#[test]
fn layout_agrees_with_the_machine_independent_one_for_every_sample() {
    for s in i16::MIN..=i16::MAX {
        let bytes = pcm_bytes(&[s]);
        assert_eq!(bytes, s.to_le_bytes().to_vec());
        assert_eq!(read_sample(bytes[0], bytes[1]), s);
    }
}

#[test]
fn a_frame_is_read_from_the_front() {
    let samples: Vec<i16> = (0..FRAME_SAMPLES as i32 + 7).map(|i| (i * 137 - 30000) as i16).collect();
    let mut bytes = pcm_bytes(&samples);
    bytes.push(0xAB);
    let mut frame = [0i16; FRAME_SAMPLES];
    decode_frame(&bytes, &mut frame);
    assert_eq!(frame.to_vec(), samples[..FRAME_SAMPLES].to_vec());
    assert_eq!(FRAME_BYTES, 960);
}
