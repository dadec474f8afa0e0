use dictate::audio::{
    chunk_of, get_audio_config, record_step, AudioConfig, AudioError, RecordBuffer, RecordStep,
    SampleFormat, SupportedConfig,
};

fn config(channels: u16, format: SampleFormat, min: u32, max: u32) -> SupportedConfig {
    SupportedConfig {
        channels,
        sample_format: format,
        min_sample_rate: min,
        max_sample_rate: max,
    }
}

fn mono(min: u32, max: u32) -> SupportedConfig {
    config(1, SampleFormat::F32, min, max)
}

#[test]
fn a_range_with_the_wanted_rate_is_used_at_that_rate() {
    let configs = [mono(44100, 48000), mono(8000, 48000)];
    assert_eq!(
        get_audio_config(&configs),
        Ok(AudioConfig {
            config: 1,
            sample_rate: 16000
        })
    );
}

#[test]
fn the_ends_of_a_range_belong_to_it() {
    assert_eq!(mono(16000, 48000).chosen_rate(), 16000);
    assert_eq!(mono(8000, 16000).chosen_rate(), 16000);
}

#[test]
fn the_nearest_range_is_used_at_its_nearest_end() {
    let configs = [mono(44100, 48000), mono(8000, 11025), mono(22050, 22050)];
    assert_eq!(
        get_audio_config(&configs),
        Ok(AudioConfig {
            config: 1,
            sample_rate: 11025
        })
    );
    let configs = [mono(44100, 48000), mono(22050, 44100)];
    assert_eq!(
        get_audio_config(&configs),
        Ok(AudioConfig {
            config: 1,
            sample_rate: 22050
        })
    );
}

#[test]
fn the_first_of_equally_near_ranges_is_used() {
    let configs = [mono(48000, 48000), mono(17000, 20000), mono(8000, 15000)];
    assert_eq!(
        get_audio_config(&configs),
        Ok(AudioConfig {
            config: 1,
            sample_rate: 17000
        })
    );
}

#[test]
fn stereo_and_other_formats_are_not_suitable() {
    let configs = [
        config(2, SampleFormat::F32, 16000, 16000),
        config(1, SampleFormat::Other, 16000, 16000),
    ];
    let error = get_audio_config(&configs).unwrap_err();
    assert_eq!(error, AudioError::NoSuitableConfig);
    assert_eq!(error.message(), "no suitable audio config");
    assert_eq!(
        get_audio_config(&[]),
        Err(AudioError::NoSuitableConfig)
    );
    let configs = [
        config(2, SampleFormat::F32, 16000, 16000),
        config(0, SampleFormat::F32, 96000, 96000),
    ];
    assert_eq!(
        get_audio_config(&configs),
        Ok(AudioConfig {
            config: 1,
            sample_rate: 96000
        })
    );
}

#[test]
fn a_missing_device_has_its_own_message() {
    assert_eq!(AudioError::NoInputDevice.message(), "no input device");
}

#[test]
fn rates_beyond_signed_numbers_count_as_negative() {
    assert!(mono(1, u32::MAX).is_measurable());
    assert_eq!(mono(1, u32::MAX).chosen_rate(), 16000);
    // The upper end counts as -1, at a distance of 16001.
    let configs = [mono(40000, u32::MAX), mono(33000, 33000)];
    assert!(configs[0].is_measurable());
    assert_eq!(
        get_audio_config(&configs),
        Ok(AudioConfig {
            config: 0,
            sample_rate: 40000
        })
    );
    assert!(!mono(0x8000_0000, u32::MAX).is_measurable());
    assert!(!mono(0x8000_0000 + 16000, u32::MAX).is_measurable());
    assert!(mono(0x8000_0000 + 16001, u32::MAX).is_measurable());
    assert!(config(2, SampleFormat::F32, 0x8000_0000, u32::MAX).is_measurable());
}

#[test]
fn a_backward_range_is_used_at_its_start() {
    assert_eq!(mono(9000, 8000).chosen_rate(), 9000);
    assert_eq!(mono(20000, 18000).chosen_rate(), 20000);
}

#[test]
fn nothing_captured_is_lost_or_doubled() {
    let mut buffer = RecordBuffer::new();
    let mut written: Vec<i16> = Vec::new();
    buffer.capture(&[1, 2], false);
    buffer.capture(&[3], false);
    written.extend(buffer.drain());
    assert_eq!(written, vec![1, 2, 3]);
    assert_eq!(buffer.drain(), Vec::<i16>::new());
    buffer.capture(&[], false);
    buffer.capture(&[-4, 5], false);
    buffer.capture(&[6], true);
    written.extend(buffer.drain());
    assert_eq!(written, vec![1, 2, 3, -4, 5]);
}

#[test]
fn nothing_is_sent_once_capturing_is_stopped() {
    assert_eq!(chunk_of(&[1, -2, 300], false), Some(vec![1, 0, 0xFE, 0xFF, 0x2C, 1]));
    assert_eq!(chunk_of(&[], false), Some(vec![]));
    assert_eq!(chunk_of(&[1, -2, 300], true), None);
    assert_eq!(chunk_of(&[], true), None);
}

#[test]
fn a_recording_writes_once_more_after_the_stop() {
    let rounds: [(bool, Vec<i16>); 4] = [
        (false, vec![1, 2]),
        (false, vec![]),
        (true, vec![3]),
        (true, vec![4]),
    ];
    let mut buffer = RecordBuffer::new();
    let mut written: Vec<i16> = Vec::new();
    let mut steps = 0;
    for (stopped, samples) in rounds {
        let step = record_step(stopped);
        buffer.capture(&samples, false);
        written.extend(buffer.drain());
        steps += 1;
        if step == RecordStep::Finish {
            break;
        }
    }
    assert_eq!(record_step(false), RecordStep::Wait);
    assert_eq!(steps, 3);
    assert_eq!(written, vec![1, 2, 3]);
    assert_eq!(buffer.drain(), Vec::<i16>::new());
}
