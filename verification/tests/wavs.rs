use std::io::Cursor;

use occule::codec::{Codec, CodecError};
use occule::wav::lsb::{bytes_of_samples, check_data_region, copy_sample_data, decode_samples,
    encode_samples, read_samples, to_sample_bytes, to_sample_values, LsbCodec, SampleFormat,
    WavLayout};
use occule::wav::samples::{decode, encode, encode_byte, read_bit, read_group};

fn int_file(bits: u16, channels: u16, samples: &[i32]) -> Vec<u8> {
    let spec = hound::WavSpec {
        channels,
        sample_rate: 8000,
        bits_per_sample: bits,
        sample_format: hound::SampleFormat::Int,
    };
    let mut out = Vec::new();
    let mut writer = hound::WavWriter::new(Cursor::new(&mut out), spec).unwrap();
    for sample in samples {
        writer.write_sample(*sample).unwrap();
    }
    writer.finalize().unwrap();
    out
}

fn float_file(samples: &[f32]) -> Vec<u8> {
    let spec = hound::WavSpec {
        channels: 1,
        sample_rate: 44100,
        bits_per_sample: 32,
        sample_format: hound::SampleFormat::Float,
    };
    let mut out = Vec::new();
    let mut writer = hound::WavWriter::new(Cursor::new(&mut out), spec).unwrap();
    for sample in samples {
        writer.write_sample(*sample).unwrap();
    }
    writer.finalize().unwrap();
    out
}

fn int_samples(bytes: &[u8]) -> Vec<i32> {
    let mut reader = hound::WavReader::new(Cursor::new(bytes)).unwrap();
    reader.samples::<i32>().map(|s| s.unwrap()).collect()
}

fn float_samples(bytes: &[u8]) -> Vec<f32> {
    let mut reader = hound::WavReader::new(Cursor::new(bytes)).unwrap();
    reader.samples::<f32>().map(|s| s.unwrap()).collect()
}

fn ramp(count: usize, modulus: i32, offset: i32) -> Vec<i32> {
    (0..count as i32).map(|i| (i * 37) % modulus - offset).collect()
}

#[test]
fn wav_16_bit_round_trip() {
    let carrier = int_file(16, 2, &ramp(400, 60000, 30000));
    let payload = b"sixteen bits".to_vec();
    let encoded = LsbCodec.encode(&carrier, &payload).unwrap();
    let (carrier_back, decoded) = LsbCodec.decode(&encoded).unwrap();
    assert_eq!(decoded, payload);
    assert_eq!(carrier_back, encoded);
    let spec = hound::WavReader::new(Cursor::new(&encoded[..])).unwrap().spec();
    assert_eq!((spec.channels, spec.sample_rate, spec.bits_per_sample), (2, 8000, 16));
    assert_eq!(spec.sample_format, hound::SampleFormat::Int);
}

#[test]
fn wav_16_bit_changes_only_bit_eight() {
    let samples = ramp(400, 60000, 30000);
    let carrier = int_file(16, 1, &samples);
    let encoded = LsbCodec.encode(&carrier, &[0xFF, 0x00, 0xA5]).unwrap();
    let written = int_samples(&encoded);
    assert_eq!(written.len(), samples.len());
    for (new, old) in written.iter().zip(samples.iter()) {
        assert_eq!(new & !0x100, old & !0x100);
    }
    assert_eq!(&written[56..], &samples[56..]);
}

#[test]
fn wav_header_and_payload_bits_are_exact() {
    let carrier = int_file(16, 1, &[0; 48]);
    let encoded = LsbCodec.encode(&carrier, &[0xA5]).unwrap();
    let bits: Vec<i32> = int_samples(&encoded).iter().map(|s| s >> 8).collect();
    let mut expected = vec![0, 0, 0, 0, 0, 1, 0, 1];
    expected.extend(vec![0; 24]);
    expected.extend(vec![1, 0, 1, 0, 0, 1, 0, 1]);
    expected.extend(vec![0; 8]);
    assert_eq!(bits, expected);
}

#[test]
fn wav_32_bit_round_trip() {
    let samples: Vec<i32> = (0..200).map(|i| i * 10_000_019 - 1_000_000_000).collect();
    let carrier = int_file(32, 1, &samples);
    let payload: Vec<u8> = (0..21).map(|i| (i * 11) as u8).collect();
    let encoded = LsbCodec.encode(&carrier, &payload).unwrap();
    let written = int_samples(&encoded);
    for (new, old) in written.iter().zip(samples.iter()) {
        assert_eq!(new & !0x100, old & !0x100);
    }
    let (_, decoded) = LsbCodec.decode(&encoded).unwrap();
    assert_eq!(decoded, payload);
}

#[test]
fn wav_8_bit_round_trip_in_bit_zero() {
    let samples = ramp(100, 256, 128);
    let carrier = int_file(8, 1, &samples);
    let payload = vec![0x12, 0x34, 0x56];
    let encoded = LsbCodec.encode(&carrier, &payload).unwrap();
    let written = int_samples(&encoded);
    for (new, old) in written.iter().zip(samples.iter()) {
        assert_eq!(new & !1, old & !1);
    }
    assert_eq!(&written[56..], &samples[56..]);
    let (_, decoded) = LsbCodec.decode(&encoded).unwrap();
    assert_eq!(decoded, payload);
}

#[test]
fn wav_float_round_trip() {
    let samples: Vec<f32> = (0..120).map(|i| (i as f32 / 60.0 - 1.0) * 0.9).collect();
    let carrier = float_file(&samples);
    let payload = vec![0xCA, 0xFE, 0x00, 0xFF];
    let encoded = LsbCodec.encode(&carrier, &payload).unwrap();
    let spec = hound::WavReader::new(Cursor::new(&encoded[..])).unwrap().spec();
    assert_eq!(spec.sample_format, hound::SampleFormat::Float);
    assert_eq!(spec.bits_per_sample, 32);
    let written = float_samples(&encoded);
    assert_eq!(written.len(), samples.len());
    for (new, old) in written.iter().zip(samples.iter()) {
        assert_eq!(new.to_bits() & !0x100, old.to_bits() & !0x100);
    }
    assert_eq!(&written[64..], &samples[64..]);
    let (_, decoded) = LsbCodec.decode(&encoded).unwrap();
    assert_eq!(decoded, payload);
}

#[test]
fn wav_empty_payload_round_trip() {
    let carrier = int_file(16, 1, &ramp(40, 1000, 500));
    let encoded = LsbCodec.encode(&carrier, &[]).unwrap();
    let (_, decoded) = LsbCodec.decode(&encoded).unwrap();
    assert!(decoded.is_empty());
}

#[test]
fn wav_capacity_is_eight_samples_per_byte() {
    let carrier = int_file(16, 1, &[0; 56]);
    assert!(LsbCodec.encode(&carrier, &[1, 2, 3]).is_ok());
    match LsbCodec.encode(&carrier, &[1, 2, 3, 4]) {
        Err(CodecError::DataInvalid(message)) => assert_eq!(message, "Payload Too Big for Carrier"),
        other => panic!("unexpected result: {:?}", other),
    }
    let short = int_file(16, 1, &[0; 31]);
    assert!(matches!(LsbCodec.encode(&short, &[]), Err(CodecError::DataInvalid(_))));
    let (_, decoded) = LsbCodec.decode(&LsbCodec.encode(&carrier, &[1, 2, 3]).unwrap()).unwrap();
    assert_eq!(decoded, vec![1, 2, 3]);
}

#[test]
fn wav_rejects_other_bit_depths() {
    let carrier = int_file(24, 1, &[0; 64]);
    assert!(matches!(LsbCodec.encode(&carrier, &[1]), Err(CodecError::DataInvalid(_))));
    assert!(matches!(LsbCodec.decode(&carrier), Err(CodecError::DataNotEncoded)));
}

#[test]
fn wav_reports_unreadable_carrier() {
    assert!(matches!(LsbCodec.encode(b"not a wav", &[1]), Err(CodecError::DependencyError(_))));
    assert!(matches!(LsbCodec.decode(b"not a wav"), Err(CodecError::DependencyError(_))));
    assert!(matches!(LsbCodec.decode(&[]), Err(CodecError::DependencyError(_))));
}

#[test]
fn wav_reports_missing_sample_data() {
    let mut carrier = int_file(16, 1, &[0; 64]);
    carrier.truncate(carrier.len() - 10);
    assert!(matches!(LsbCodec.encode(&carrier, &[1]), Err(CodecError::DependencyError(_))));
    assert!(matches!(LsbCodec.decode(&carrier), Err(CodecError::DependencyError(_))));
}

#[test]
fn wav_decode_of_plain_carrier_is_not_encoded() {
    let silence = int_file(16, 1, &[0; 64]);
    assert!(matches!(LsbCodec.decode(&silence), Err(CodecError::DataNotEncoded)));
    let loud = int_file(16, 1, &[0x0100; 64]);
    assert!(matches!(LsbCodec.decode(&loud), Err(CodecError::DataNotEncoded)));
    let short = int_file(16, 1, &[0; 8]);
    assert!(matches!(LsbCodec.decode(&short), Err(CodecError::DataNotEncoded)));
}

#[test]
fn wav_layout_helpers() {
    let carrier = int_file(16, 2, &[1, -2, 3, -4]);
    let layout = WavLayout {
        channels: 2,
        sample_rate: 8000,
        bits_per_sample: 16,
        sample_format: SampleFormat::Int,
        sample_count: 4,
        data_start: 44,
    };
    assert_eq!(layout.sample_width(), Some(2));
    assert!(layout.writable(2));
    assert!(check_data_region(&carrier, &layout, 2));
    assert_eq!(copy_sample_data(&carrier, &layout, 2), vec![1, 0, 0xFE, 0xFF, 3, 0, 0xFC, 0xFF]);
    let moved = WavLayout { data_start: 43, ..layout };
    assert!(!check_data_region(&carrier, &moved, 2));
    let longer = WavLayout { sample_count: 5, ..layout };
    assert!(!check_data_region(&carrier, &longer, 2));
    let still = WavLayout { sample_rate: 0, ..layout };
    assert!(!still.writable(2));
    let huge = WavLayout { sample_count: u32::MAX / 2, ..layout };
    assert!(!huge.writable(2));
    let float = WavLayout { sample_format: SampleFormat::Float, ..layout };
    assert_eq!(float.sample_width(), None);
    let float32 = WavLayout { bits_per_sample: 32, ..float };
    assert_eq!(float32.sample_width(), Some(4));
    assert_eq!(WavLayout { bits_per_sample: 8, ..layout }.sample_width(), Some(1));
    assert_eq!(WavLayout { bits_per_sample: 24, ..layout }.sample_width(), None);
    assert_eq!(bytes_of_samples(7, 4), 28);
    assert_eq!(bytes_of_samples(u32::MAX, 4), 4 * (u32::MAX as u64));
}

#[test]
fn wav_encode_and_decode_samples_with_a_layout() {
    let carrier = int_file(16, 1, &[0; 40]);
    let layout = WavLayout {
        channels: 1,
        sample_rate: 8000,
        bits_per_sample: 16,
        sample_format: SampleFormat::Int,
        sample_count: 40,
        data_start: 44,
    };
    let encoded = encode_samples(&carrier, &layout, &[0x80]).unwrap();
    assert_eq!(int_samples(&encoded)[32], 0x100);
    assert_eq!(decode_samples(&encoded, &layout).unwrap(), vec![0x80]);
    let unsupported = WavLayout { bits_per_sample: 24, ..layout };
    assert!(matches!(encode_samples(&carrier, &unsupported, &[]), Err(CodecError::DataInvalid(_))));
    assert!(matches!(decode_samples(&carrier, &unsupported), Err(CodecError::DataNotEncoded)));
}

#[test]
fn sample_values_are_signed() {
    assert_eq!(to_sample_values(&[0x00, 0x80, 0xFF, 0x7F], 1), vec![-128, 0, 127, -1]);
    assert_eq!(
        to_sample_values(&[0x00, 0x00, 0xFF, 0x7F, 0x00, 0x80, 0xFF, 0xFF, 9], 2),
        vec![0, 32767, -32768, -1]
    );
    assert_eq!(
        to_sample_values(&[0x78, 0x56, 0x34, 0x12, 0x00, 0x00, 0x00, 0x80, 0xFF, 0xFF, 0xFF, 0xFF], 4),
        vec![0x1234_5678, i32::MIN, -1]
    );
    assert_eq!(to_sample_values(&[0x00, 0x00, 0x80, 0x3F], 4), vec![1.0f32.to_bits() as i32]);
}

#[test]
fn samples_encode_byte_and_read_group() {
    let mut data = vec![0xFF; 32];
    encode_byte(&mut data, 2, 1, 0b1010_0101);
    let mut expected = vec![0xFF; 16];
    for bit in [1u8, 0, 1, 0, 0, 1, 0, 1] {
        expected.push(0xFF);
        expected.push(0xFE | bit);
    }
    assert_eq!(data, expected);
    assert_eq!(read_group(&data, 2, 1), 0b1010_0101);
    assert_eq!(read_group(&data, 2, 0), 0xFF);
    assert_eq!(read_bit(&data, 2, 9), 0);
    assert_eq!(read_bit(&data, 2, 8), 1);
}

#[test]
fn samples_encode_and_decode_all_widths() {
    for width in [1usize, 2, 4] {
        let mut data: Vec<u8> = (0..width * 8 * 7).map(|i| (i * 29 % 256) as u8).collect();
        let before = data.clone();
        assert!(encode(&mut data, width, &[0xDE, 0xAD, 0x42]).is_ok());
        let carrying = if width == 1 { 0 } else { 1 };
        for (at, (new, old)) in data.iter().zip(before.iter()).enumerate() {
            if at % width == carrying {
                assert_eq!(new & 0xFE, old & 0xFE);
            } else {
                assert_eq!(new, old);
            }
        }
        assert_eq!(decode(&data, width).unwrap(), vec![0xDE, 0xAD, 0x42]);
        let mut small = before[..width * 8 * 6].to_vec();
        assert!(matches!(
            encode(&mut small, width, &[0xDE, 0xAD, 0x42]),
            Err(CodecError::DataInvalid(_))
        ));
        assert_eq!(small, &before[..width * 8 * 6]);
    }
}

#[test]
fn samples_decode_checks_the_header() {
    assert!(matches!(decode(&[0; 31], 1), Err(CodecError::DataNotEncoded)));
    assert!(matches!(decode(&[0; 64], 1), Err(CodecError::DataNotEncoded)));
    let mut three = vec![0u8; 64];
    three[6] = 1;
    three[7] = 1;
    assert!(matches!(decode(&three, 1), Err(CodecError::DataNotEncoded)));
    let mut four = vec![0u8; 32];
    four[5] = 1;
    assert_eq!(decode(&four, 1).unwrap(), Vec::<u8>::new());
    let mut five = vec![0u8; 39];
    five[5] = 1;
    five[7] = 1;
    assert!(matches!(decode(&five, 1), Err(CodecError::DataNotEncoded)));
    five.push(1);
    assert_eq!(decode(&five, 1).unwrap(), vec![1]);
}

#[test]
fn sample_bytes_are_little_endian() {
    assert_eq!(to_sample_bytes(&vec![-128, 0, 127, -1], 1), Some(vec![0x00, 0x80, 0xFF, 0x7F]));
    assert_eq!(
        to_sample_bytes(&vec![0, 32767, -32768, -1, 0x1234], 2),
        Some(vec![0x00, 0x00, 0xFF, 0x7F, 0x00, 0x80, 0xFF, 0xFF, 0x34, 0x12])
    );
    assert_eq!(
        to_sample_bytes(&vec![0x1234_5678, i32::MIN, -1, i32::MAX], 4),
        Some(vec![
            0x78, 0x56, 0x34, 0x12, 0x00, 0x00, 0x00, 0x80, 0xFF, 0xFF, 0xFF, 0xFF, 0xFF, 0xFF, 0xFF,
            0x7F
        ])
    );
    assert_eq!(to_sample_bytes(&vec![], 2), Some(vec![]));
    assert_eq!(to_sample_bytes(&vec![0, 128], 1), None);
    assert_eq!(to_sample_bytes(&vec![-129], 1), None);
    assert_eq!(to_sample_bytes(&vec![32768], 2), None);
    assert_eq!(to_sample_bytes(&vec![-32769], 2), None);
}

#[test]
fn sample_bytes_and_values_are_inverse() {
    for (width, values) in [
        (1usize, vec![-128, -1, 0, 1, 127]),
        (2, vec![-32768, -257, -1, 0, 255, 256, 32767]),
        (4, vec![i32::MIN, -65537, -1, 0, 65536, 0x0102_0304, i32::MAX]),
    ] {
        let bytes = to_sample_bytes(&values, width).unwrap();
        assert_eq!(bytes.len(), values.len() * width);
        assert_eq!(to_sample_values(&bytes, width), values);
    }
}

#[test]
fn read_samples_of_integer_and_float_files() {
    let carrier = int_file(16, 1, &[1, -2, 0x0102]);
    let layout = WavLayout {
        channels: 1,
        sample_rate: 8000,
        bits_per_sample: 16,
        sample_format: SampleFormat::Int,
        sample_count: 3,
        data_start: 44,
    };
    assert_eq!(read_samples(&carrier, &layout, 2).unwrap(), vec![1, 0, 0xFE, 0xFF, 0x02, 0x01]);
    let other_count = WavLayout { sample_count: 4, ..layout };
    assert!(matches!(
        read_samples(&carrier, &other_count, 2),
        Err(CodecError::DependencyError(_))
    ));
    assert!(matches!(read_samples(&carrier, &layout, 1), Err(CodecError::DependencyError(_))));
    let eight = int_file(8, 1, &[-128, 0, 127]);
    let layout = WavLayout { bits_per_sample: 8, ..layout };
    assert_eq!(read_samples(&eight, &layout, 1).unwrap(), vec![0x00, 0x80, 0xFF]);
    let floats = float_file(&[1.0, -2.0]);
    let start = floats.len() as u64 - 8;
    let layout = WavLayout {
        channels: 1,
        sample_rate: 44100,
        bits_per_sample: 32,
        sample_format: SampleFormat::Float,
        sample_count: 2,
        data_start: start,
    };
    assert_eq!(
        read_samples(&floats, &layout, 4).unwrap(),
        vec![0x00, 0x00, 0x80, 0x3F, 0x00, 0x00, 0x00, 0xC0]
    );
    let moved = WavLayout { data_start: start - 1, ..layout };
    assert!(matches!(read_samples(&floats, &moved, 4), Err(CodecError::DependencyError(_))));
}

#[test]
fn wav_float_reports_missing_sample_data() {
    let samples: Vec<f32> = (0..64).map(|i| i as f32 / 64.0).collect();
    let mut carrier = float_file(&samples);
    carrier.truncate(carrier.len() - 10);
    assert!(matches!(LsbCodec.encode(&carrier, &[1]), Err(CodecError::DependencyError(_))));
    assert!(matches!(LsbCodec.decode(&carrier), Err(CodecError::DependencyError(_))));
}

#[test]
fn wav_integer_samples_in_wider_containers_are_refused() {
    let mut carrier = b"RIFF".to_vec();
    carrier.extend_from_slice(&(36u32 + 256).to_le_bytes());
    carrier.extend_from_slice(b"WAVEfmt ");
    carrier.extend_from_slice(&16u32.to_le_bytes());
    carrier.extend_from_slice(&1u16.to_le_bytes());
    carrier.extend_from_slice(&1u16.to_le_bytes());
    carrier.extend_from_slice(&8000u32.to_le_bytes());
    carrier.extend_from_slice(&32000u32.to_le_bytes());
    carrier.extend_from_slice(&4u16.to_le_bytes());
    carrier.extend_from_slice(&16u16.to_le_bytes());
    carrier.extend_from_slice(b"data");
    carrier.extend_from_slice(&256u32.to_le_bytes());
    carrier.extend_from_slice(&[0u8; 256]);
    let reader = hound::WavReader::new(Cursor::new(&carrier[..])).unwrap();
    assert_eq!((reader.spec().bits_per_sample, reader.len()), (16, 64));
    assert!(matches!(LsbCodec.encode(&carrier, &[1]), Err(CodecError::DependencyError(_))));
    assert!(matches!(LsbCodec.decode(&carrier), Err(CodecError::DependencyError(_))));
}
