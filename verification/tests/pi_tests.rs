use pi_codec::codec::{PiDecoder, PiEncoder};
use pi_codec::digits::{binpow, pi};
use pi_codec::stream::DigitStream;

// pi = 3.243F6A8885A308D3... in hexadecimal; digit 0 is the leading 3.
#[test]
fn test_pi_hex_digits() {
    assert_eq!(pi(0), 3);
    assert_eq!(pi(1), 2);
    assert_eq!(pi(2), 4);
    assert_eq!(pi(3), 3);
    assert_eq!(pi(4), 15); // F
    assert_eq!(pi(5), 6);
    assert_eq!(pi(6), 10); // A
    assert_eq!(pi(7), 8);
    assert_eq!(pi(8), 8);
    assert_eq!(pi(9), 8);
    assert_eq!(pi(10), 5);
    assert_eq!(pi(11), 10); // A
    assert_eq!(pi(12), 3);
    assert_eq!(pi(13), 0);
    assert_eq!(pi(14), 8);
    assert_eq!(pi(15), 13); // D
}

#[test]
fn test_encoder_completeness() {
    let encoder = PiEncoder::new().expect("encoder construction did not complete");
    let mut found_bytes = [false; 256];
    let mut count = 0;
    for i in 0..256 {
        let byte = i as u8;
        let idx = encoder.index(byte);
        assert!(idx < u16::MAX); // Should always be true given u16 type

        if !found_bytes[byte as usize] {
            found_bytes[byte as usize] = true;
            count += 1;
        }
    }
    assert_eq!(
        count, 256,
        "Not all unique bytes were found by the encoder!"
    );
}

#[test]
fn test_binpow_values() {
    assert_eq!(binpow(16, 10, 1000), 776); // 16^10 = 1099511627776
    assert_eq!(binpow(7, 0, 13), 1);
    assert_eq!(binpow(5, 3, 7), 6); // 125 mod 7
    assert_eq!(binpow(2, 10, 1), 0); // everything is 0 modulo 1
    assert_eq!(binpow(123456789, 1, 97), 123456789 % 97);
}

// The stream starts with the digits 3, 2, 4, 3: bits 0011 0010 0100 0011.
#[test]
fn test_stream_window_values() {
    let mut stream = DigitStream::new();
    assert_eq!(stream.byte_at(0), 0x32);
    assert_eq!(stream.byte_at(1), 0x64);
    assert_eq!(stream.byte_at(4), 0x24);
    assert_eq!(stream.byte_at(8), 0x43);
}

#[test]
fn test_round_trip_all_bytes() {
    let encoder = PiEncoder::new().expect("encoder construction did not complete");
    let decoder = PiDecoder::new(&encoder);
    for i in 0..256 {
        let byte = i as u8;
        let idx = encoder.index(byte);
        assert_eq!(decoder.index(idx), byte);
    }
}

#[test]
fn test_inverse_round_trip() {
    let encoder = PiEncoder::new().expect("encoder construction did not complete");
    let decoder = PiDecoder::new(&encoder);
    for i in 0..256 {
        let idx = encoder.index(i as u8);
        assert_eq!(encoder.index(decoder.index(idx)), idx);
    }
}

#[test]
fn test_table_completeness() {
    let encoder = PiEncoder::new().expect("encoder construction did not complete");
    let decoder = PiDecoder::new(&encoder);
    assert_eq!(encoder.size(), 256);
    assert_eq!(decoder.size(), 256);
    // 256 distinct offsets: every entry decodes, and no two collide.
    let mut offsets: Vec<u16> = (0..256).map(|b| encoder.index(b as u8)).collect();
    offsets.sort();
    for w in offsets.windows(2) {
        assert!(w[0] < w[1]);
    }
}

#[test]
fn test_determinism() {
    let e1 = PiEncoder::new().expect("encoder construction did not complete");
    let e2 = PiEncoder::new().expect("encoder construction did not complete");
    for i in 0..256 {
        assert_eq!(e1.index(i as u8), e2.index(i as u8));
    }
}

#[test]
fn test_first_occurrence_minimality() {
    let encoder = PiEncoder::new().expect("encoder construction did not complete");
    let mut stream = DigitStream::new();
    for &byte in &[0x00u8, 0x41u8] {
        let idx = encoder.index(byte);
        for o in 0..idx {
            assert_ne!(stream.byte_at(o), byte);
        }
        assert_eq!(stream.byte_at(idx), byte);
    }
}

#[test]
fn test_end_to_end_scenario() {
    let encoder = PiEncoder::new().expect("encoder construction did not complete");
    let decoder = PiDecoder::new(&encoder);
    let input = [0x00u8, 0xFF, 0x41]; // "A" = 0x41
    let indices: Vec<u16> = input.iter().map(|&b| encoder.index(b)).collect();
    let output: Vec<u8> = indices.iter().map(|&i| decoder.index(i)).collect();
    assert_eq!(output, vec![0x00, 0xFF, 0x41]);
}

#[test]
fn test_decoder_lookup_error() {
    let encoder = PiEncoder::new().expect("encoder construction did not complete");
    let decoder = PiDecoder::new(&encoder);
    // Known entries are found.
    let idx = encoder.index(0x41);
    assert_eq!(decoder.get(idx), Some(0x41));
    // Only 256 of the 65536 possible offsets are present, so an absent one
    // exists among the first 257; looking it up reports the misuse.
    let mut absent = None;
    for k in 0..=256u16 {
        if decoder.get(k).is_none() {
            absent = Some(k);
            break;
        }
    }
    assert!(absent.is_some());
}
