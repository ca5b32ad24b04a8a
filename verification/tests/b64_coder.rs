use rans::b64_decoder::{B64RansDecSymbol, B64RansDecoder, B64RansDecoderMulti};
use rans::b64_encoder::{B64RansEncSymbol, B64RansEncoder, B64RansEncoderMulti};
use rans::mut_cow::MutCow;
use rans::{RansDecSymbol, RansDecoder, RansDecoderMulti, RansEncSymbol, RansEncoder,
    RansEncoderMulti};

#[test]
fn b64_encoder_test_encode_nothing() {
    let encoder = B64RansEncoder::new(1024);

    assert!(encoder.data().is_empty());
}

#[test]
fn b64_encoder_test_encode_empty_data() {
    let mut encoder = B64RansEncoder::new(1024);
    encoder.flush();

    assert_eq!(encoder.data(), [0, 0, 0, 128, 0, 0, 0, 0]);
}

#[test]
fn b64_encoder_test_encode_and_reset() {
    let mut encoder = B64RansEncoder::new(1024);
    let symbol1 = B64RansEncSymbol::new(0, 2, 2);
    let symbol2 = B64RansEncSymbol::new(2, 2, 2);

    encoder.put(&symbol1);
    encoder.flush();
    assert_eq!(encoder.data(), [0, 0, 0, 0, 1, 0, 0, 0]);

    encoder.reset();

    encoder.put(&symbol2);
    encoder.flush();
    assert_eq!(encoder.data(), [2, 0, 0, 0, 1, 0, 0, 0]);
}

#[test]
fn b64_encoder_test_encode_two_symbols() {
    let mut encoder = B64RansEncoder::new(1024);
    let symbol1 = B64RansEncSymbol::new(0, 2, 2);
    let symbol2 = B64RansEncSymbol::new(2, 2, 2);

    encoder.put(&symbol1);
    encoder.put(&symbol2);
    encoder.flush();

    assert_eq!(encoder.data(), [2, 0, 0, 0, 2, 0, 0, 0]);
}

#[test]
fn b64_encoder_test_encode_symbols_clone() {
    let mut encoder = B64RansEncoder::new(1024);
    let symbol1 = B64RansEncSymbol::new(0, 2, 2);
    let symbol2 = B64RansEncSymbol::new(2, 2, 2);

    encoder.put(&symbol1.clone());
    encoder.put(&symbol2.clone());
    encoder.flush();

    assert_eq!(encoder.data(), [2, 0, 0, 0, 2, 0, 0, 0]);
}

fn b64_symbols() -> Vec<B64RansEncSymbol> {
    vec![
        B64RansEncSymbol::new(0, 3, 8),
        B64RansEncSymbol::new(3, 10, 8),
        B64RansEncSymbol::new(13, 58, 8),
        B64RansEncSymbol::new(71, 34, 8),
        B64RansEncSymbol::new(105, 41, 8),
        B64RansEncSymbol::new(146, 17, 8),
        B64RansEncSymbol::new(163, 55, 8),
        B64RansEncSymbol::new(218, 38, 8),
    ]
}

const SYMBOL_SEQUENCE: [usize; 32] = [
    1, 2, 3, 4, 5, 6, 7, 8, 3, 3, 3, 3, 3, 5, 4, 3, 4, 3, 7, 8, 8, 6, 5, 3, 4, 7, 6, 7, 7, 3, 4,
    5,
];

#[test]
fn b64_encoder_test_encode_more_data() {
    let mut encoder = B64RansEncoder::new(1024);
    let symbols = b64_symbols();

    for &index in SYMBOL_SEQUENCE.iter() {
        encoder.put(&symbols[index - 1]);
    }
    encoder.flush();

    assert_eq!(
        encoder.data(),
        [122, 27, 118, 146, 40, 184, 212, 0, 147, 60, 144, 230, 24, 137, 205, 128]
    );
}

#[test]
fn b64_encoder_test_encode_interleaved() {
    let mut encoder = B64RansEncoderMulti::<2>::new(1024);
    let symbol1 = B64RansEncSymbol::new(0, 4, 4);
    let symbol2 = B64RansEncSymbol::new(4, 4, 4);
    let symbol3 = B64RansEncSymbol::new(8, 4, 4);
    let symbol4 = B64RansEncSymbol::new(12, 4, 4);

    encoder.put_at(0, &symbol1);
    encoder.put_at(1, &symbol1);
    encoder.put_at(0, &symbol1);
    encoder.put_at(1, &symbol2);
    encoder.put_at(0, &symbol1);
    encoder.put_at(1, &symbol3);
    encoder.put_at(0, &symbol1);
    encoder.put_at(1, &symbol4);
    encoder.flush_all();

    assert_eq!(
        encoder.data(),
        [108, 0, 0, 0, 128, 0, 0, 0, 0, 0, 0, 0, 128, 0, 0, 0]
    );
}

#[test]
fn b64_decoder_test_decode_empty() {
    let mut decoder = B64RansDecoder::new(MutCow::from(vec![0, 0, 0, 128, 0, 0, 0, 0]));

    assert_eq!(decoder.get(2), 0);
}

#[test]
fn b64_decoder_test_decode_two_symbols() {
    let mut decoder = B64RansDecoder::new(MutCow::from(vec![2, 0, 0, 0, 2, 0, 0, 0]));
    let symbol1 = B64RansDecSymbol::new(0, 2);
    let symbol2 = B64RansDecSymbol::new(2, 2);

    let cum_freq = decoder.get(2);
    assert_eq!(cum_freq, 2);
    decoder.advance(&symbol2, 2);
    let cum_freq = decoder.get(2);
    assert_eq!(cum_freq, 0);
    decoder.advance(&symbol1, 2);
}

#[test]
fn b64_decoder_test_decode_symbols_clone() {
    let mut decoder = B64RansDecoder::new(MutCow::from(vec![2, 0, 0, 0, 2, 0, 0, 0]));
    let symbol1 = B64RansDecSymbol::new(0, 2);
    let symbol2 = B64RansDecSymbol::new(2, 2);

    let cum_freq = decoder.get(2);
    assert_eq!(cum_freq, 2);
    decoder.advance(&symbol2.clone(), 2);
    let cum_freq = decoder.get(2);
    assert_eq!(cum_freq, 0);
    decoder.advance(&symbol1.clone(), 2);
}

fn b64_dec_symbols() -> Vec<B64RansDecSymbol> {
    vec![
        B64RansDecSymbol::new(0, 3),
        B64RansDecSymbol::new(3, 10),
        B64RansDecSymbol::new(13, 58),
        B64RansDecSymbol::new(71, 34),
        B64RansDecSymbol::new(105, 41),
        B64RansDecSymbol::new(146, 17),
        B64RansDecSymbol::new(163, 55),
        B64RansDecSymbol::new(218, 38),
    ]
}

fn find_symbol(symbols: &[B64RansDecSymbol], cum_freq: u32) -> usize {
    for (i, symbol) in symbols.iter().enumerate() {
        if cum_freq < symbol.cum_freq() + symbol.freq() {
            return i;
        }
    }
    panic!("Invalid symbol frequency");
}

#[test]
fn b64_decoder_test_decode_more_data() {
    let mut data = [
        122, 27, 118, 146, 40, 184, 212, 0, 147, 60, 144, 230, 24, 137, 205, 128,
    ];
    let mut decoder = B64RansDecoder::new(MutCow::from(&mut data[..]));
    let symbols = b64_dec_symbols();

    let mut expected: Vec<usize> = SYMBOL_SEQUENCE.iter().map(|&i| i - 1).collect();
    expected.reverse();

    for (i, &expected_index) in expected.iter().enumerate() {
        let cum_freq = decoder.get(8);
        let actual_index = find_symbol(&symbols, cum_freq);
        assert_eq!(
            symbols[actual_index].cum_freq(),
            symbols[expected_index].cum_freq(),
            "Invalid symbol at position {} (decoded cumulative frequency: {})",
            i,
            cum_freq
        );
        decoder.advance(&symbols[expected_index], 8);
    }
}

#[test]
fn b64_decoder_test_decode_interleaved() {
    let mut data = [108, 0, 0, 0, 128, 0, 0, 0, 0, 0, 0, 0, 128, 0, 0, 0];
    let mut decoder = B64RansDecoderMulti::<2>::new(MutCow::from(&mut data[..]));
    let symbol1 = B64RansDecSymbol::new(0, 4);
    let symbol2 = B64RansDecSymbol::new(4, 4);
    let symbol3 = B64RansDecSymbol::new(8, 4);
    let symbol4 = B64RansDecSymbol::new(12, 4);

    assert_eq!(decoder.get_at(0, 4), 12);
    assert_eq!(decoder.get_at(1, 4), 0);
    decoder.advance_step_at(0, &symbol4, 4);
    decoder.advance_step_at(1, &symbol1, 4);
    decoder.renorm_all();
    assert_eq!(decoder.get_at(0, 4), 8);
    assert_eq!(decoder.get_at(1, 4), 0);
    decoder.advance_step_at(0, &symbol3, 4);
    decoder.advance_step_at(1, &symbol1, 4);
    decoder.renorm_all();
    assert_eq!(decoder.get_at(0, 4), 4);
    assert_eq!(decoder.get_at(1, 4), 0);
    decoder.advance_step_at(0, &symbol2, 4);
    decoder.advance_step_at(1, &symbol1, 4);
    decoder.renorm_all();
    assert_eq!(decoder.get_at(0, 4), 0);
    assert_eq!(decoder.get_at(1, 4), 0);
    decoder.advance_step_at(0, &symbol1, 4);
    decoder.advance_step_at(1, &symbol1, 4);
    decoder.renorm_all();
}

#[test]
fn b64_reset_matches_fresh_encoder() {
    let mut encoder = B64RansEncoder::new(1024);
    let fresh = B64RansEncoder::new(1024);
    let symbol1 = B64RansEncSymbol::new(0, 2, 2);

    encoder.put(&symbol1);
    encoder.flush();
    encoder.reset();

    assert_eq!(encoder.data(), fresh.data());
    encoder.flush();
    assert_eq!(encoder.data(), [0, 0, 0, 128, 0, 0, 0, 0]);
}

#[test]
fn b64_decoder_test_has_debug_output() {
    let decoder = B64RansDecoder::new(MutCow::from(vec![0, 0, 0, 128, 0, 0, 0, 0]));
    assert!(!format!("{:?}", decoder).is_empty());
}
