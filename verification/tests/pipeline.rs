use std::time::Duration;
use tricklezip::bitstream::BitWriter;
use tricklezip::deflate::{DeflateState, InflateState};
use tricklezip::huffman::HuffmanCoder;
use tricklezip::lz77::{Lz77Encoder, Token};
use tricklezip::{
    compress, decompress, CompressionConfig, CompressionLevel, TrickleCompressor, TrickleDecompressor,
    TrickleError,
};

fn config(window_size: usize, max_lazy_match: usize, max_chain_length: usize) -> CompressionConfig {
    CompressionConfig { level: CompressionLevel::balanced(), window_size, max_lazy_match, max_chain_length }
}

fn squeeze(input: &[u8]) -> Vec<u8> {
    let mut output = vec![0u8; input.len() * 2 + 16];
    let n = compress(input, &mut output).unwrap();
    output.truncate(n);
    output
}

fn unsqueeze(stream: &[u8], room: usize) -> Vec<u8> {
    let mut output = vec![0u8; room];
    let n = decompress(stream, &mut output).unwrap();
    output.truncate(n);
    output
}

fn tokens_of(e: &mut Lz77Encoder, slices: &[&[u8]]) -> Vec<Token> {
    let mut tokens = Vec::new();
    for s in slices {
        tokens.extend(e.encode(s).unwrap());
    }
    tokens
}

fn sample(len: usize) -> Vec<u8> {
    let mut data = Vec::new();
    let mut x: u32 = 12345;
    for i in 0..len {
        x = x.wrapping_mul(1103515245).wrapping_add(12345);
        // Few distinct values and stretches that repeat, so that matches occur.
        let b = if i % 7 < 3 { 0xFF } else { ((x >> 16) % 5) as u8 + 250 };
        data.push(b);
    }
    data
}

#[test]
fn level_is_capped_at_nine() {
    assert_eq!(CompressionLevel::new(4).value(), 4);
    assert_eq!(CompressionLevel::new(9).value(), 9);
    assert_eq!(CompressionLevel::new(200).value(), 9);
    assert_eq!(CompressionLevel::none().value(), 0);
    assert_eq!(CompressionLevel::fast().value(), 1);
    assert_eq!(CompressionLevel::balanced().value(), 6);
    assert_eq!(CompressionLevel::best().value(), 9);
}

#[test]
fn default_configuration() {
    let c = CompressionConfig::default();
    assert_eq!(c.level.value(), 6);
    assert_eq!(c.window_size, 32768);
    assert_eq!(c.max_lazy_match, 258);
    assert_eq!(c.max_chain_length, 256);
    let d = TrickleCompressor::default();
    assert_eq!(d.config().window_size, 32768);
    assert_eq!(d.stats().bytes_processed, 0);
}

#[test]
fn bits_are_packed_low_bit_first() {
    let mut w = BitWriter::new();
    assert_eq!(w.buffer_info(), (0, 0));
    w.write_bits(0b101, 3).unwrap();
    assert_eq!(w.buffer_info(), (0b101, 3));
    w.write_bits(0b11111, 5).unwrap();
    assert_eq!(w.buffer_info(), (0, 0));
    w.write_bits(0x3ff, 10).unwrap();
    assert_eq!(w.buffer_info(), (0b11, 2));
    let mut out = [0u8; 8];
    let n = w.write_to_buffer(&[], &mut out).unwrap();
    assert_eq!(n, 3);
    assert_eq!(&out[..3], &[0b1111_1101, 0xff, 0b11]);
    assert_eq!(w.buffer_info(), (0, 0));
}

#[test]
fn bits_above_the_width_are_dropped() {
    let mut w = BitWriter::new();
    w.write_bits(0xffff_ffff, 4).unwrap();
    w.write_bits(0, 4).unwrap();
    let mut out = [0u8; 2];
    assert_eq!(w.write_to_buffer(&[], &mut out), Ok(1));
    assert_eq!(out[0], 0x0f);
}

#[test]
fn full_width_field_crosses_bytes() {
    let mut w = BitWriter::new();
    w.write_bits(1, 1).unwrap();
    w.write_bits(0xdead_beef, 32).unwrap();
    assert_eq!(w.buffer_info(), (1, 1));
    let mut out = [0u8; 8];
    assert_eq!(w.write_to_buffer(&[], &mut out), Ok(5));
    let v: u64 = 1 | (0xdead_beefu64 << 1);
    assert_eq!(&out[..5], &v.to_le_bytes()[..5]);
}

#[test]
fn too_wide_a_field_is_refused() {
    let mut w = BitWriter::new();
    w.write_bits(1, 2).unwrap();
    assert_eq!(w.write_bits(0, 33), Err(TrickleError::InvalidData));
    assert_eq!(w.buffer_info(), (1, 2));
}

#[test]
fn flush_always_forces_out_a_byte() {
    let mut w = BitWriter::new();
    w.write_byte(0xab).unwrap();
    w.write_bits(1, 1).unwrap();
    assert_eq!(w.flush(), Ok(()));
    assert_eq!(w.buffer_info(), (0, 0));
    // Nothing is pending now: a second flush forces out a byte of zeros.
    assert_eq!(w.flush(), Ok(()));
    assert_eq!(w.buffer_info(), (0, 0));
    let mut out = [9u8; 4];
    assert_eq!(w.write_to_buffer(&[], &mut out), Ok(3));
    assert_eq!(out, [0xab, 0x01, 0x00, 9]);
    let mut fresh = BitWriter::new();
    fresh.flush().unwrap();
    assert_eq!(fresh.write_to_buffer(&[7], &mut out), Ok(2));
    assert_eq!(&out[..2], &[0x00, 7]);
}

#[test]
fn write_to_buffer_needs_room_and_can_be_tried_again() {
    let mut w = BitWriter::new();
    w.write_bits(0b11, 2).unwrap();
    let mut small = [7u8; 2];
    assert_eq!(w.write_to_buffer(&[1, 2], &mut small), Err(TrickleError::InsufficientOutput));
    assert_eq!(small, [7, 7]);
    assert_eq!(w.buffer_info(), (0b11, 2));
    let mut large = [7u8; 4];
    assert_eq!(w.write_to_buffer(&[1, 2], &mut large), Ok(3));
    assert_eq!(large, [0b111, 0b1000, 0, 7]);
}

#[test]
fn repeated_bytes_become_a_match() {
    let mut e = Lz77Encoder::new(32768, 258, 256);
    let tokens = tokens_of(&mut e, &[b"AAAAAAAAAA"]);
    assert_eq!(tokens, vec![Token::Literal(b'A'), Token::Match { length: 9, distance: 1 }]);
}

#[test]
fn a_match_reaches_into_an_earlier_slice() {
    let mut e = Lz77Encoder::new(32768, 258, 256);
    let first = e.encode(b"abcdef").unwrap();
    assert_eq!(first, b"abcdef".iter().map(|b| Token::Literal(*b)).collect::<Vec<Token>>());
    let second = e.encode(b"abcdef").unwrap();
    assert_eq!(second, vec![Token::Match { length: 6, distance: 6 }]);
    assert_eq!(e.encode(b"").unwrap(), Vec::<Token>::new());
    assert_eq!(e.encode(b"fa").unwrap(), vec![Token::Literal(b'f'), Token::Literal(b'a')]);
}

#[test]
fn every_position_gets_a_token() {
    let mut e = Lz77Encoder::new(32768, 258, 256);
    assert_eq!(
        e.encode(b"xyz").unwrap(),
        vec![Token::Literal(b'x'), Token::Literal(b'y'), Token::Literal(b'z')]
    );
    // The three bytes are in the window now.
    assert_eq!(e.encode(b"xyz").unwrap(), vec![Token::Match { length: 3, distance: 3 }]);
    let data = sample(1500);
    for (w, l, c) in [(32768usize, 258usize, 256usize), (64, 20, 8), (5, 3, 300), (0, 258, 256), (100, 258, 0)] {
        for step in [1usize, 19, 258, 700, 1500] {
            let mut e = Lz77Encoder::new(w, l, c);
            let mut seen: Vec<u8> = Vec::new();
            for slice in data.chunks(step) {
                let at = seen.len();
                for t in e.encode(slice).unwrap() {
                    match t {
                        Token::Literal(b) => seen.push(b),
                        Token::Match { length, distance } => {
                            assert!(3 <= length && length <= l && length <= 258);
                            assert!(1 <= distance && distance <= w && distance <= seen.len());
                            for _ in 0..length {
                                seen.push(seen[seen.len() - distance]);
                            }
                        },
                    }
                }
                assert_eq!(&seen[at..], slice);
            }
            assert_eq!(seen, data);
        }
    }
}





#[test]
fn a_longer_match_one_byte_later_wins() {
    let mut e = Lz77Encoder::new(32768, 258, 256);
    let tokens = tokens_of(&mut e, &[b"abcXbcdefYabcdef"]);
    let n = tokens.len();
    assert_eq!(tokens[n - 2], Token::Literal(b'a'));
    assert_eq!(tokens[n - 1], Token::Match { length: 5, distance: 7 });
}

#[test]
fn the_nearest_of_equal_matches_is_taken() {
    let mut e = Lz77Encoder::new(32768, 258, 256);
    let tokens = tokens_of(&mut e, &[b"abc-abc-abc"]);
    assert_eq!(tokens[4], Token::Match { length: 7, distance: 4 });
    assert_eq!(tokens.len(), 5);
}

#[test]
fn short_repeats_stay_literals() {
    let mut e = Lz77Encoder::new(32768, 258, 256);
    let tokens = tokens_of(&mut e, &[b"abXab"]);
    assert_eq!(tokens.len(), 5);
    assert!(tokens.iter().all(|t| matches!(t, Token::Literal(_))));
}

#[test]
fn no_window_or_no_probes_gives_literals_only() {
    for (w, c) in [(0usize, 256usize), (32768, 0)] {
        let mut e = Lz77Encoder::new(w, 258, c);
        let tokens = tokens_of(&mut e, &[b"AAAAAAAAAAAAAAAA", b"AAAA"]);
        assert_eq!(tokens.len(), 20);
        assert!(tokens.iter().all(|t| *t == Token::Literal(b'A')));
    }
}

#[test]
fn matches_keep_to_the_window_and_the_length_limit() {
    let mut e = Lz77Encoder::new(4, 5, 256);
    let tokens = tokens_of(&mut e, &[b"abcdefgh_abcdefgh"]);
    assert!(tokens.iter().all(|t| matches!(t, Token::Literal(_))));
    let mut e = Lz77Encoder::new(4, 5, 256);
    let tokens = tokens_of(&mut e, &[b"xxxxxxxxxx", b"xxxxxxxxxx"]);
    let mut behind = 0usize;
    for t in tokens.iter() {
        match t {
            Token::Literal(_) => behind += 1,
            Token::Match { length, distance } => {
                assert!(3 <= *length && *length <= 5);
                assert!(1 <= *distance && *distance <= 4 && *distance <= behind);
                behind += *length;
            },
        }
    }
    assert_eq!(behind, 20);
    assert_eq!(tokens[1], Token::Match { length: 5, distance: 1 });
}

#[test]
fn evicted_bytes_are_out_of_reach() {
    let mut e = Lz77Encoder::new(4, 258, 256);
    let tokens = tokens_of(&mut e, &[b"abcdefgh", b"abcd", b"abcd"]);
    assert_eq!(tokens.len(), 13);
    assert!(tokens[..12].iter().all(|t| matches!(t, Token::Literal(_))));
    assert_eq!(tokens[12], Token::Match { length: 4, distance: 4 });
}



#[test]
fn codewords_of_the_fixed_table() {
    let c = HuffmanCoder::new();
    assert_eq!(c.encode_tokens(&[]).unwrap(), Vec::<u8>::new());
    assert_eq!(c.encode_tokens(&[Token::Literal(0x41)]).unwrap(), vec![0x41]);
    assert_eq!(c.encode_tokens(&[Token::Literal(0xFF)]).unwrap(), vec![0xFF, 0x00]);
    assert_eq!(
        c.encode_tokens(&[Token::Match { length: 3, distance: 1 }]).unwrap(),
        vec![0xFF, 0x02, 0, 0, 0]
    );
    assert_eq!(
        c.encode_tokens(&[Token::Literal(1), Token::Match { length: 258, distance: 65536 }]).unwrap(),
        vec![1, 0xFF, 0x02, 255, 0xFF, 0xFF]
    );
    assert_eq!(
        c.encode_tokens(&[Token::Match { length: 10, distance: 300 }]).unwrap(),
        vec![0xFF, 0x02, 7, 43, 1]
    );
    assert_eq!(c.end_marker(), vec![0xFF, 0x01]);
}

#[test]
fn a_unit_ends_with_the_end_codeword() {
    let c = HuffmanCoder::new();
    assert_eq!(c.encode(&[]).unwrap(), vec![0xFF, 0x01]);
    assert_eq!(c.encode(&[Token::Literal(0x41)]).unwrap(), vec![0x41, 0xFF, 0x01]);
    assert_eq!(
        c.encode(&[Token::Literal(0xFF), Token::Match { length: 10, distance: 300 }]).unwrap(),
        vec![0xFF, 0x00, 0xFF, 0x02, 7, 43, 1, 0xFF, 0x01]
    );
    let unit = c.encode(&[Token::Literal(b'A'), Token::Match { length: 9, distance: 1 }]).unwrap();
    assert_eq!(unit, squeeze(b"AAAAAAAAAA"));
    assert_eq!(unsqueeze(&unit, 10), b"AAAAAAAAAA".to_vec());
}

#[test]
fn tokens_without_a_codeword_are_refused() {
    let c = HuffmanCoder::new();
    for t in [
        Token::Match { length: 2, distance: 1 },
        Token::Match { length: 259, distance: 1 },
        Token::Match { length: 3, distance: 0 },
        Token::Match { length: 3, distance: 65537 },
    ] {
        assert_eq!(c.encode(&[Token::Literal(0), t]), Err(TrickleError::InvalidData));
        assert_eq!(c.encode_tokens(&[Token::Literal(0), t]), Err(TrickleError::InvalidData));
    }
}

#[test]
fn hello_scenario() {
    let input = b"Hello, world! This is a test string for compression.";
    let mut output = vec![0u8; 128];
    let mut c = TrickleCompressor::new();
    let (consumed, written, finished) = c.compress_trickle(input, &mut output, true).unwrap();
    assert_eq!(consumed, input.len());
    assert!(written > 0);
    assert!(finished);
    assert_eq!(c.stats().bytes_processed, input.len());
    assert_eq!(c.stats().bytes_output, written);
    assert_eq!(unsqueeze(&output[..written], 128), input.to_vec());
}

#[test]
fn empty_input_gives_the_end_codeword() {
    let mut output = vec![9u8; 8];
    let mut c = TrickleCompressor::new();
    assert_eq!(c.compress_trickle(b"", &mut output, true), Ok((0, 2, true)));
    assert_eq!(output, vec![0xFF, 0x01, 9, 9, 9, 9, 9, 9]);
    assert_eq!(unsqueeze(&output[..2], 4), Vec::<u8>::new());
}

#[test]
fn ten_equal_bytes_shrink() {
    let stream = squeeze(b"AAAAAAAAAA");
    assert_eq!(stream, vec![b'A', 0xFF, 0x02, 6, 0, 0, 0xFF, 0x01]);
    assert!(stream.len() < 10);
    assert_eq!(unsqueeze(&stream, 10), b"AAAAAAAAAA".to_vec());
}

#[test]
fn a_finished_session_does_nothing() {
    let mut c = TrickleCompressor::new();
    let mut output = vec![0u8; 32];
    c.compress_trickle(b"abc", &mut output, true).unwrap();
    let before = c.stats();
    let mut more = vec![5u8; 4];
    assert_eq!(c.compress_trickle(b"xyz", &mut more, false), Ok((0, 0, true)));
    assert_eq!(more, vec![5u8; 4]);
    assert_eq!(c.stats().bytes_processed, before.bytes_processed);
    assert_eq!(c.stats().bytes_output, before.bytes_output);
    let mut none: [u8; 0] = [];
    assert_eq!(c.compress_trickle(b"xyz", &mut none, true), Ok((0, 0, true)));
}

#[test]
fn no_room_is_an_error_and_changes_nothing() {
    let mut c = TrickleCompressor::new();
    let mut output = vec![0u8; 32];
    assert_eq!(c.compress_trickle(b"abcabcabc", &mut output, false), Ok((9, 0, false)));
    let before = c.stats();
    let mut none: [u8; 0] = [];
    assert_eq!(c.compress_trickle(b"abcabc", &mut none, false), Err(TrickleError::InsufficientOutput));
    assert_eq!(c.compress_trickle(b"a", &mut none, true), Err(TrickleError::InsufficientOutput));
    assert_eq!(c.stats().bytes_processed, before.bytes_processed);
    assert_eq!(c.stats().bytes_output, before.bytes_output);
    let mut short = vec![0u8; 9];
    assert_eq!(c.compress_trickle(b"abcabc", &mut short, true), Err(TrickleError::InsufficientOutput));
    assert_eq!(short, vec![0u8; 9]);
    assert_eq!(c.stats().bytes_processed, 9);
    // The same slice goes through afterwards as if the failed calls had not been made.
    let mut again = vec![0u8; 32];
    let (consumed, written, finished) = c.compress_trickle(b"abcabc", &mut again, true).unwrap();
    assert_eq!((consumed, finished), (6, true));
    assert_eq!(&again[..written], &[b'a', b'b', b'c', 0xFF, 0x02, 9, 2, 0, 0xFF, 0x01]);
    assert_eq!(c.stats().bytes_processed, 15);
    assert_eq!(c.stats().bytes_output, 10);
}

#[test]
fn an_empty_slice_needs_no_room() {
    let mut c = TrickleCompressor::new();
    let mut none: [u8; 0] = [];
    assert_eq!(c.compress_trickle(b"", &mut none, false), Ok((0, 0, false)));
    assert_eq!(c.compress_trickle(b"", &mut none, true), Err(TrickleError::InsufficientOutput));
    let mut two = [0u8; 2];
    assert_eq!(c.compress_trickle(b"", &mut two, true), Ok((0, 2, true)));
}

#[test]
fn a_buffer_one_byte_short_is_refused() {
    let stream = squeeze(b"AAAAAAAAAA");
    let mut short = vec![3u8; stream.len() - 1];
    assert_eq!(compress(b"AAAAAAAAAA", &mut short), Err(TrickleError::InsufficientOutput));
    assert_eq!(short, vec![3u8; stream.len() - 1]);
    let mut exact = vec![3u8; stream.len()];
    assert_eq!(compress(b"AAAAAAAAAA", &mut exact), Ok(stream.len()));
}

#[test]
fn slices_of_literals_give_the_single_call_stream() {
    let data = sample(300);
    for cfg in [config(0, 258, 256), config(32768, 258, 0)] {
        let mut whole = vec![0u8; 1024];
        let mut one = TrickleCompressor::with_config(cfg);
        let (_, total, _) = one.compress_trickle(&data, &mut whole, true).unwrap();
        for cut in [0usize, 1, 7, 150, 299, 300] {
            let mut c = TrickleCompressor::with_config(cfg);
            let mut parts = vec![0u8; 1024];
            let (_, a, f) = c.compress_trickle(&data[..cut], &mut parts, false).unwrap();
            assert!(!f);
            let mut rest = vec![0u8; 1024];
            let (_, b, f) = c.compress_trickle(&data[cut..], &mut rest, true).unwrap();
            assert!(f);
            parts.truncate(a);
            parts.extend_from_slice(&rest[..b]);
            assert_eq!(parts, whole[..total].to_vec());
        }
    }
}

#[test]
fn slices_that_split_no_match_give_the_single_call_stream() {
    let a = b"abcdefgh";
    let b = b"abcdefgh";
    let mut whole = Vec::new();
    whole.extend_from_slice(a);
    whole.extend_from_slice(b);
    let single = squeeze(&whole);
    let mut c = TrickleCompressor::new();
    let mut first = vec![0u8; 64];
    let (_, n1, _) = c.compress_trickle(a, &mut first, false).unwrap();
    let mut second = vec![0u8; 64];
    let (_, n2, _) = c.compress_trickle(b, &mut second, true).unwrap();
    first.truncate(n1);
    first.extend_from_slice(&second[..n2]);
    assert_eq!(first, single);
    assert_eq!(c.stats().bytes_processed, 16);
    assert_eq!(c.stats().bytes_output, single.len());
}

#[test]
fn slices_give_the_stream_of_one_call() {
    let data = sample(2000);
    for cfg in [config(32768, 258, 256), config(300, 17, 40), config(32768, 2, 256)] {
        let mut whole = vec![0u8; 2 * data.len() + 8];
        let mut one = TrickleCompressor::with_config(cfg);
        let (_, total, _) = one.compress_trickle(&data, &mut whole, true).unwrap();
        whole.truncate(total);
        for step in [1usize, 3, 64, 777, 2000] {
            let mut c = TrickleCompressor::with_config(cfg);
            let mut stream = Vec::new();
            let mut at = 0;
            while at < data.len() {
                let end = (at + step).min(data.len());
                let mut out = vec![0u8; 2 * (step + 300) + 8];
                let (consumed, written, finished) =
                    c.compress_trickle(&data[at..end], &mut out, end == data.len()).unwrap();
                assert_eq!(consumed, end - at);
                assert_eq!(finished, end == data.len());
                stream.extend_from_slice(&out[..written]);
                at = end;
            }
            assert_eq!(c.stats().bytes_processed, data.len());
            assert_eq!(c.stats().bytes_output, stream.len());
            assert_eq!(stream, whole);
            assert_eq!(unsqueeze(&stream, data.len()), data);
        }
    }
}

#[test]
fn round_trip() {
    let mut inputs: Vec<Vec<u8>> = vec![
        Vec::new(),
        vec![0xFF],
        vec![0xFF; 700],
        b"AAAAAAAAAA".to_vec(),
        b"Hello, world! This is a test string for compression.".to_vec(),
        (0..=255u8).collect(),
        sample(5000),
    ];
    let mut long = Vec::new();
    for i in 0..400u32 {
        long.extend_from_slice(b"the quick brown fox ");
        long.push((i % 251) as u8);
    }
    inputs.push(long);
    for input in inputs {
        let stream = squeeze(&input);
        assert_eq!(unsqueeze(&stream, input.len()), input);
    }
}

#[test]
fn repetitive_input_shrinks() {
    let input = vec![b'z'; 1000];
    let stream = squeeze(&input);
    assert_eq!(stream.len(), 1 + 5 * 4 + 2);
}

#[test]
fn reset_starts_a_new_session() {
    let mut c = TrickleCompressor::with_config(config(1024, 100, 32));
    let mut out = vec![0u8; 64];
    let (_, first, _) = c.compress_trickle(b"abcabcabcabc", &mut out, true).unwrap();
    let first_stream = out[..first].to_vec();
    c.reset();
    assert_eq!(c.stats().bytes_processed, 0);
    assert_eq!(c.stats().bytes_output, 0);
    assert_eq!(c.config().window_size, 1024);
    let mut again = vec![0u8; 64];
    let (consumed, written, finished) = c.compress_trickle(b"abcabcabcabc", &mut again, true).unwrap();
    assert_eq!((consumed, finished), (12, true));
    assert_eq!(again[..written].to_vec(), first_stream);
}

#[test]
fn a_spent_budget_stops_before_any_work() {
    let mut c = TrickleCompressor::new();
    let input = vec![b'q'; 4096];
    let mut out = vec![1u8; 8192];
    assert_eq!(c.compress_within(&input, &mut out, true, 0, 0), Err(TrickleError::TimeoutExceeded));
    assert_eq!(c.compress_within(&input, &mut out, true, 5, 5), Err(TrickleError::TimeoutExceeded));
    assert_eq!(c.compress_within(&input, &mut out, true, 9, 5), Err(TrickleError::TimeoutExceeded));
    assert_eq!(c.stats().bytes_processed, 0);
    assert_eq!(c.stats().bytes_output, 0);
    assert_eq!(out, vec![1u8; 8192]);
    assert_eq!(c.compress_timed(&input, &mut out, true, Duration::ZERO), Err(TrickleError::TimeoutExceeded));
    assert_eq!(c.stats().bytes_processed, 0);
    let (consumed, _, finished) = c.compress_within(&input, &mut out, true, 4, 5).unwrap();
    assert_eq!((consumed, finished), (4096, true));
    assert_eq!(c.stats().bytes_processed, 4096);
}

#[test]
fn deflate_state_counts_across_slices() {
    let mut s = DeflateState::new(&config(32768, 1, 256));
    let mut out = vec![0u8; 16];
    assert_eq!(s.compress_chunk(b"ab", &mut out, false), Ok((2, 1, false)));
    assert_eq!(out[0], b'a');
    assert_eq!(s.compress_chunk(b"", &mut out, false), Ok((0, 0, false)));
    assert_eq!(s.compress_chunk(b"\xff", &mut out, true), Ok((1, 5, true)));
    assert_eq!(&out[..5], &[b'b', 0xFF, 0x00, 0xFF, 0x01]);
    assert_eq!(s.stats().bytes_processed, 3);
    assert_eq!(s.stats().bytes_output, 6);
    assert_eq!(s.compress_chunk(b"zz", &mut out, true), Ok((0, 0, true)));
    let mut s = DeflateState::new(&CompressionConfig::default());
    assert_eq!(s.compress_chunk(b"ab", &mut out, false), Ok((2, 0, false)));
    assert_eq!(s.compress_chunk(b"c", &mut out, true), Ok((1, 5, true)));
    assert_eq!(&out[..5], &[b'a', b'b', b'c', 0xFF, 0x01]);
}

#[test]
fn streams_are_read_piece_by_piece() {
    let mut s = InflateState::new();
    let mut out = vec![0u8; 4];
    assert_eq!(s.decompress_chunk(b"abc", &mut out), Ok((3, 3, true)));
    assert_eq!(&out[..3], b"abc");
    let mut out = vec![0u8; 8];
    assert_eq!(s.decompress_chunk(&[0xFF, 0x02, 2, 2, 0, 0xFF, 0x01, b'x'], &mut out), Ok((7, 5, true)));
    assert_eq!(&out[..5], b"abcab");
    assert_eq!(s.decompress_chunk(b"more", &mut out), Ok((0, 0, true)));
}

#[test]
fn a_full_buffer_stops_the_reader_between_codewords() {
    let stream = squeeze(b"AAAAAAAAAA");
    let mut d = TrickleDecompressor::new();
    let mut out = vec![0u8; 4];
    assert_eq!(d.decompress_trickle(&stream, &mut out), Ok((1, 1, false)));
    let mut out = vec![0u8; 9];
    assert_eq!(d.decompress_trickle(&stream[1..], &mut out), Ok((7, 9, true)));
    assert_eq!(out, vec![b'A'; 9]);
    d.reset();
    let mut out = vec![0u8; 10];
    assert_eq!(d.decompress_trickle(&stream, &mut out), Ok((8, 10, true)));
    let mut short = vec![0u8; 9];
    assert_eq!(decompress(&stream, &mut short), Err(TrickleError::InsufficientOutput));
    let mut none: [u8; 0] = [];
    assert_eq!(decompress(b"a", &mut none), Err(TrickleError::InsufficientOutput));
    assert_eq!(decompress(b"", &mut none), Ok(0));
    let fresh = TrickleDecompressor::default();
    let _ = fresh;
}

#[test]
fn broken_streams_are_told_apart() {
    let mut out = vec![0u8; 64];
    assert_eq!(decompress(&[0xFF], &mut out), Err(TrickleError::InsufficientInput));
    assert_eq!(decompress(&[b'a', 0xFF, 0x02, 0, 0], &mut out), Err(TrickleError::InsufficientInput));
    assert_eq!(decompress(&[0xFF, 0x03], &mut out), Err(TrickleError::InvalidData));
    assert_eq!(decompress(&[0xFF, 0x02, 0, 0, 0], &mut out), Err(TrickleError::InvalidData));
    assert_eq!(decompress(&[b'a', 0xFF, 0x02, 0, 1, 0], &mut out), Err(TrickleError::InvalidData));
    let mut d = TrickleDecompressor::new();
    let mut first = vec![0u8; 4];
    d.decompress_trickle(b"ab", &mut first).unwrap();
    assert_eq!(d.decompress_trickle(&[b'c', 0xFF, 0x02, 0, 9, 0], &mut out), Err(TrickleError::InvalidData));
    // The failed call left the session where it was.
    assert_eq!(d.decompress_trickle(&[0xFF, 0x02, 0, 1, 0], &mut out), Ok((5, 3, true)));
    assert_eq!(&out[..3], b"aba");
}

#[test]
fn no_codeword_begins_another() {
    let c = HuffmanCoder::new();
    let mut tokens = vec![
        Token::Literal(0),
        Token::Literal(1),
        Token::Literal(2),
        Token::Literal(0xFE),
        Token::Literal(0xFF),
        Token::Match { length: 3, distance: 1 },
        Token::Match { length: 3, distance: 2 },
        Token::Match { length: 4, distance: 1 },
        Token::Match { length: 3, distance: 257 },
        Token::Match { length: 258, distance: 65536 },
    ];
    for d in [255usize, 256, 512, 513] {
        tokens.push(Token::Match { length: 5, distance: d });
    }
    let mut words: Vec<Vec<u8>> = tokens.iter().map(|t| c.encode_tokens(&[*t]).unwrap()).collect();
    words.push(c.end_marker());
    for (i, a) in words.iter().enumerate() {
        for (j, b) in words.iter().enumerate() {
            if i != j {
                assert!(!b.starts_with(a), "{:?} begins {:?}", a, b);
            }
        }
    }
}

#[test]
fn a_cut_inside_a_run_changes_nothing() {
    let single = squeeze(b"AAAAAAAAAA");
    let mut c = TrickleCompressor::new();
    let mut first = vec![0u8; 32];
    let (_, n1, _) = c.compress_trickle(b"AAAAA", &mut first, false).unwrap();
    let mut second = vec![0u8; 32];
    let (_, n2, _) = c.compress_trickle(b"AAAAA", &mut second, true).unwrap();
    first.truncate(n1);
    first.extend_from_slice(&second[..n2]);
    assert_eq!(first, single);
    assert_eq!(unsqueeze(&first, 10), b"AAAAAAAAAA".to_vec());
}
