use rans::byte_decoder::{ByteRansDecSymbol, ByteRansDecoder, ByteRansDecoderMulti};
use rans::byte_encoder::{ByteRansEncSymbol, ByteRansEncoder, ByteRansEncoderMulti};
use rans::mut_cow::MutCow;
use rans::{RansDecSymbol, RansDecoder, RansDecoderMulti, RansEncSymbol, RansEncoder,
    RansEncoderMulti};

#[test]
fn byte_encoder_test_encode_nothing() {
    let encoder = ByteRansEncoder::new(1024);

    assert!(encoder.data().is_empty());
}

#[test]
fn byte_encoder_test_encode_empty_data() {
    let mut encoder = ByteRansEncoder::new(1024);
    encoder.flush();

    assert_eq!(encoder.data(), [0, 0, 128, 0]);
}

#[test]
fn byte_encoder_test_encode_and_reset() {
    let mut encoder = ByteRansEncoder::new(1024);
    let symbol1 = ByteRansEncSymbol::new(0, 2, 2);
    let symbol2 = ByteRansEncSymbol::new(2, 2, 2);

    encoder.put(&symbol1);
    encoder.flush();
    assert_eq!(encoder.data(), [0, 0, 0, 1]);

    encoder.reset();

    encoder.put(&symbol2);
    encoder.flush();
    assert_eq!(encoder.data(), [2, 0, 0, 1]);
}

#[test]
fn byte_encoder_test_encode_two_symbols() {
    let mut encoder = ByteRansEncoder::new(1024);
    let symbol1 = ByteRansEncSymbol::new(0, 2, 2);
    let symbol2 = ByteRansEncSymbol::new(2, 2, 2);

    encoder.put(&symbol1);
    encoder.put(&symbol2);
    encoder.flush();

    assert_eq!(encoder.data(), [2, 0, 0, 2]);
}

#[test]
fn byte_encoder_test_encode_symbols_clone() {
    let mut encoder = ByteRansEncoder::new(1024);
    let symbol1 = ByteRansEncSymbol::new(0, 2, 2);
    let symbol2 = ByteRansEncSymbol::new(2, 2, 2);

    encoder.put(&symbol1.clone());
    encoder.put(&symbol2.clone());
    encoder.flush();

    assert_eq!(encoder.data(), [2, 0, 0, 2]);
}

fn byte_symbols() -> Vec<ByteRansEncSymbol> {
    vec![
        ByteRansEncSymbol::new(0, 3, 8),
        ByteRansEncSymbol::new(3, 10, 8),
        ByteRansEncSymbol::new(13, 58, 8),
        ByteRansEncSymbol::new(71, 34, 8),
        ByteRansEncSymbol::new(105, 41, 8),
        ByteRansEncSymbol::new(146, 17, 8),
        ByteRansEncSymbol::new(163, 55, 8),
        ByteRansEncSymbol::new(218, 38, 8),
    ]
}

const SYMBOL_SEQUENCE: [usize; 32] = [
    1, 2, 3, 4, 5, 6, 7, 8, 3, 3, 3, 3, 3, 5, 4, 3, 4, 3, 7, 8, 8, 6, 5, 3, 4, 7, 6, 7, 7, 3, 4,
    5,
];

#[test]
fn byte_encoder_test_encode_more_data() {
    let mut encoder = ByteRansEncoder::new(1024);
    let symbols = byte_symbols();

    for &index in SYMBOL_SEQUENCE.iter() {
        encoder.put(&symbols[index - 1]);
    }
    encoder.flush();

    assert_eq!(
        encoder.data(),
        [106, 184, 212, 0, 84, 205, 93, 162, 171, 34, 28, 50, 161, 66, 2]
    );
}

#[test]
fn byte_encoder_test_encode_interleaved() {
    let mut encoder = ByteRansEncoderMulti::<2>::new(1024);
    let symbol1 = ByteRansEncSymbol::new(0, 4, 4);
    let symbol2 = ByteRansEncSymbol::new(4, 4, 4);
    let symbol3 = ByteRansEncSymbol::new(8, 4, 4);
    let symbol4 = ByteRansEncSymbol::new(12, 4, 4);

    encoder.put_at(0, &symbol1);
    encoder.put_at(1, &symbol1);
    encoder.put_at(0, &symbol1);
    encoder.put_at(1, &symbol2);
    encoder.put_at(0, &symbol1);
    encoder.put_at(1, &symbol3);
    encoder.put_at(0, &symbol1);
    encoder.put_at(1, &symbol4);
    encoder.flush_all();

    assert_eq!(encoder.data(), [12, 0, 128, 0, 0, 0, 128, 0, 24, 0]);
}

#[test]
fn byte_decoder_test_decode_empty() {
    let mut decoder = ByteRansDecoder::new(MutCow::from(vec![0, 0, 128, 0]));

    assert_eq!(decoder.get(2), 0);
}

#[test]
fn byte_decoder_test_decode_two_symbols() {
    let mut decoder = ByteRansDecoder::new(MutCow::from(vec![2, 0, 0, 2]));
    let symbol1 = ByteRansDecSymbol::new(0, 2);
    let symbol2 = ByteRansDecSymbol::new(2, 2);

    let cum_freq = decoder.get(2);
    assert_eq!(cum_freq, 2);
    decoder.advance(&symbol2, 2);
    let cum_freq = decoder.get(2);
    assert_eq!(cum_freq, 0);
    decoder.advance(&symbol1, 2);
}

#[test]
fn byte_decoder_test_decode_symbols_clone() {
    let mut decoder = ByteRansDecoder::new(MutCow::from(vec![2, 0, 0, 2]));
    let symbol1 = ByteRansDecSymbol::new(0, 2);
    let symbol2 = ByteRansDecSymbol::new(2, 2);

    let cum_freq = decoder.get(2);
    assert_eq!(cum_freq, 2);
    decoder.advance(&symbol2.clone(), 2);
    let cum_freq = decoder.get(2);
    assert_eq!(cum_freq, 0);
    decoder.advance(&symbol1.clone(), 2);
}

fn byte_dec_symbols() -> Vec<ByteRansDecSymbol> {
    vec![
        ByteRansDecSymbol::new(0, 3),
        ByteRansDecSymbol::new(3, 10),
        ByteRansDecSymbol::new(13, 58),
        ByteRansDecSymbol::new(71, 34),
        ByteRansDecSymbol::new(105, 41),
        ByteRansDecSymbol::new(146, 17),
        ByteRansDecSymbol::new(163, 55),
        ByteRansDecSymbol::new(218, 38),
    ]
}

fn find_symbol(symbols: &[ByteRansDecSymbol], cum_freq: u32) -> usize {
    for (i, symbol) in symbols.iter().enumerate() {
        if cum_freq < symbol.cum_freq() + symbol.freq() {
            return i;
        }
    }
    panic!("Invalid symbol frequency");
}

#[test]
fn byte_decoder_test_decode_more_data() {
    let mut data = [
        106, 184, 212, 0, 84, 205, 93, 162, 171, 34, 28, 50, 161, 66, 2,
    ];
    let mut decoder = ByteRansDecoder::new(MutCow::from(&mut data[..]));
    let symbols = byte_dec_symbols();

    let mut expected: Vec<usize> = SYMBOL_SEQUENCE.iter().map(|&i| i - 1).collect();
    expected.reverse();

    for (i, &expected_index) in expected.iter().enumerate() {
        let cum_freq = decoder.get(8);
        let actual_index = find_symbol(&symbols, cum_freq);
        assert_eq!(
            symbols[actual_index].cum_freq(),
            symbols[expected_index].cum_freq(),
            "Invalid symbol at position {} (decoded cumulative frequency: {})",
            i,
            cum_freq
        );
        decoder.advance(&symbols[expected_index], 8);
    }
}

#[test]
fn byte_decoder_test_decode_interleaved() {
    let mut data = [12, 0, 128, 0, 0, 0, 128, 0, 24, 0];
    let mut decoder = ByteRansDecoderMulti::<2>::new(MutCow::from(&mut data[..]));
    let symbol1 = ByteRansDecSymbol::new(0, 4);
    let symbol2 = ByteRansDecSymbol::new(4, 4);
    let symbol3 = ByteRansDecSymbol::new(8, 4);
    let symbol4 = ByteRansDecSymbol::new(12, 4);

    assert_eq!(decoder.get_at(0, 4), 12);
    assert_eq!(decoder.get_at(1, 4), 0);
    decoder.advance_step_at(0, &symbol4, 4);
    decoder.advance_step_at(1, &symbol1, 4);
    decoder.renorm_all();
    assert_eq!(decoder.get_at(0, 4), 8);
    assert_eq!(decoder.get_at(1, 4), 0);
    decoder.advance_step_at(0, &symbol3, 4);
    decoder.advance_step_at(1, &symbol1, 4);
    decoder.renorm_all();
    assert_eq!(decoder.get_at(0, 4), 4);
    assert_eq!(decoder.get_at(1, 4), 0);
    decoder.advance_step_at(0, &symbol2, 4);
    decoder.advance_step_at(1, &symbol1, 4);
    decoder.renorm_all();
    assert_eq!(decoder.get_at(0, 4), 0);
    assert_eq!(decoder.get_at(1, 4), 0);
    decoder.advance_step_at(0, &symbol1, 4);
    decoder.advance_step_at(1, &symbol1, 4);
    decoder.renorm_all();
}

#[test]
fn byte_encoder_len_and_is_empty_track_the_stream() {
    let mut encoder = ByteRansEncoder::new(1024);
    assert!(encoder.is_empty());
    assert_eq!(encoder.len(), 0);
    encoder.flush();
    assert!(!encoder.is_empty());
    assert_eq!(encoder.len(), 4);
}

#[test]
fn byte_reset_matches_fresh_encoder() {
    let mut encoder = ByteRansEncoder::new(1024);
    let fresh = ByteRansEncoder::new(1024);
    let symbol1 = ByteRansEncSymbol::new(0, 2, 2);

    encoder.put(&symbol1);
    encoder.flush();
    encoder.reset();

    assert_eq!(encoder.data(), fresh.data());
    encoder.flush();
    assert_eq!(encoder.data(), [0, 0, 128, 0]);
}

#[test]
fn byte_three_channel_interleaved() {
    let mut encoder = ByteRansEncoderMulti::<3>::new(1024);
    let symbol_a = ByteRansEncSymbol::new(0, 4, 4);
    let symbol_b = ByteRansEncSymbol::new(4, 4, 4);
    let symbol_c = ByteRansEncSymbol::new(8, 4, 4);

    encoder.put_at(0, &symbol_a);
    encoder.put_at(1, &symbol_b);
    encoder.put_at(2, &symbol_c);
    encoder.flush_all();

    assert_eq!(encoder.data(), [8, 0, 0, 2, 4, 0, 0, 2, 0, 0, 0, 2]);

    // The decoder reads the flushed states back in ascending order, which
    // reverses the channel numbering: decoder channel 0 sees encoder
    // channel 2.
    let mut decoder =
        ByteRansDecoderMulti::<3>::new(MutCow::from(encoder.data().to_vec()));
    let dec_a = ByteRansDecSymbol::new(0, 4);
    let dec_b = ByteRansDecSymbol::new(4, 4);
    let dec_c = ByteRansDecSymbol::new(8, 4);

    assert_eq!(decoder.get_at(0, 4), 8);
    assert_eq!(decoder.get_at(1, 4), 4);
    assert_eq!(decoder.get_at(2, 4), 0);
    decoder.advance_at(0, &dec_c, 4);
    decoder.advance_at(1, &dec_b, 4);
    decoder.advance_at(2, &dec_a, 4);
}

#[test]
fn byte_encoder_test_has_debug_output() {
    let encoder = ByteRansEncoder::new(1024);
    assert!(!format!("{:?}", encoder).is_empty());
}
