use rans::b64_decoder::{B64RansDecSymbol, B64RansDecoder};
use rans::b64_encoder::{B64RansEncSymbol, B64RansEncoder};
use rans::byte_decoder::{ByteRansDecSymbol, ByteRansDecoder};
use rans::byte_encoder::{ByteRansEncSymbol, ByteRansEncoder};
use rans::mut_cow::MutCow;
use rans::{RansDecSymbol, RansDecoder, RansEncSymbol, RansEncoder, RansEncoderMulti};

#[test]
fn byte_round_trip_every_scale() {
    for scale_bits in 1..=12u32 {
        let half = 1u32 << (scale_bits - 1);
        let low = ByteRansEncSymbol::new(0, half, scale_bits);
        let high = ByteRansEncSymbol::new(half, half, scale_bits);

        let mut encoder = ByteRansEncoder::new(1024);
        for i in 0..50 {
            if i % 3 == 0 {
                encoder.put(&low);
            } else {
                encoder.put(&high);
            }
        }
        encoder.flush();

        let mut decoder = ByteRansDecoder::new(MutCow::from(encoder.data().to_vec()));
        let dec_low = ByteRansDecSymbol::new(0, half);
        let dec_high = ByteRansDecSymbol::new(half, half);
        for i in (0..50).rev() {
            let slot = decoder.get(scale_bits);
            if i % 3 == 0 {
                assert!(slot < half, "scale_bits {}, position {}", scale_bits, i);
                decoder.advance(&dec_low, scale_bits);
            } else {
                assert!(slot >= half, "scale_bits {}, position {}", scale_bits, i);
                decoder.advance(&dec_high, scale_bits);
            }
        }
    }
}

#[test]
fn b64_round_trip_every_scale() {
    for scale_bits in 1..=16u32 {
        let half = 1u32 << (scale_bits - 1);
        let low = B64RansEncSymbol::new(0, half, scale_bits);
        let high = B64RansEncSymbol::new(half, half, scale_bits);

        let mut encoder = B64RansEncoder::new(1024);
        for i in 0..50 {
            if i % 3 == 0 {
                encoder.put(&low);
            } else {
                encoder.put(&high);
            }
        }
        encoder.flush();

        let mut decoder = B64RansDecoder::new(MutCow::from(encoder.data().to_vec()));
        let dec_low = B64RansDecSymbol::new(0, half);
        let dec_high = B64RansDecSymbol::new(half, half);
        for i in (0..50).rev() {
            let slot = decoder.get(scale_bits);
            if i % 3 == 0 {
                assert!(slot < half, "scale_bits {}, position {}", scale_bits, i);
                decoder.advance(&dec_low, scale_bits);
            } else {
                assert!(slot >= half, "scale_bits {}, position {}", scale_bits, i);
                decoder.advance(&dec_high, scale_bits);
            }
        }
    }
}

#[test]
fn byte_round_trip_min_freq_extremes() {
    let scale_bits = 8u32;
    let table = 1u32 << scale_bits;
    // A frequency-1 symbol at each end of the cumulative range, and one
    // bulk symbol between them.
    let first = ByteRansEncSymbol::new(0, 1, scale_bits);
    let middle = ByteRansEncSymbol::new(1, table - 2, scale_bits);
    let last = ByteRansEncSymbol::new(table - 1, 1, scale_bits);

    let mut encoder = ByteRansEncoder::new(1024);
    let pattern = [0usize, 2, 0, 1, 2, 2, 0, 1, 0, 2];
    for &p in pattern.iter() {
        match p {
            0 => encoder.put(&first),
            1 => encoder.put(&middle),
            _ => encoder.put(&last),
        }
    }
    encoder.flush();

    let mut decoder = ByteRansDecoder::new(MutCow::from(encoder.data().to_vec()));
    let dec_first = ByteRansDecSymbol::new(0, 1);
    let dec_middle = ByteRansDecSymbol::new(1, table - 2);
    let dec_last = ByteRansDecSymbol::new(table - 1, 1);
    for &p in pattern.iter().rev() {
        let slot = decoder.get(scale_bits);
        match p {
            0 => {
                assert_eq!(slot, 0);
                decoder.advance(&dec_first, scale_bits);
            },
            1 => {
                assert!(slot >= 1 && slot < table - 1);
                decoder.advance(&dec_middle, scale_bits);
            },
            _ => {
                assert_eq!(slot, table - 1);
                decoder.advance(&dec_last, scale_bits);
            },
        }
    }
}

#[test]
fn b64_round_trip_min_freq_extremes() {
    let scale_bits = 16u32;
    let table = 1u32 << scale_bits;
    let first = B64RansEncSymbol::new(0, 1, scale_bits);
    let middle = B64RansEncSymbol::new(1, table - 2, scale_bits);
    let last = B64RansEncSymbol::new(table - 1, 1, scale_bits);

    let mut encoder = B64RansEncoder::new(1024);
    let pattern = [0usize, 2, 0, 1, 2, 2, 0, 1, 0, 2];
    for &p in pattern.iter() {
        match p {
            0 => encoder.put(&first),
            1 => encoder.put(&middle),
            _ => encoder.put(&last),
        }
    }
    encoder.flush();

    let mut decoder = B64RansDecoder::new(MutCow::from(encoder.data().to_vec()));
    let dec_first = B64RansDecSymbol::new(0, 1);
    let dec_middle = B64RansDecSymbol::new(1, table - 2);
    let dec_last = B64RansDecSymbol::new(table - 1, 1);
    for &p in pattern.iter().rev() {
        let slot = decoder.get(scale_bits);
        match p {
            0 => {
                assert_eq!(slot, 0);
                decoder.advance(&dec_first, scale_bits);
            },
            1 => {
                assert!(slot >= 1 && slot < table - 1);
                decoder.advance(&dec_middle, scale_bits);
            },
            _ => {
                assert_eq!(slot, table - 1);
                decoder.advance(&dec_last, scale_bits);
            },
        }
    }
}
