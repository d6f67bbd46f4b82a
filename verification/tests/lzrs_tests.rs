use lzrs::archive::LZRSArchiveBuilder;
use lzrs::args::{validate_args, CompressingMode, LZRSArgs};
use lzrs::dearchive::{compose_entries, decompress_file_payloads, extract_archive, IntoBytes};
use lzrs::error::LzrsError;
use lzrs::lz77;
use lzrs::lz77::Lz77Token;
use lzrs::lz78;
use lzrs::lz78::Lz78Token;
use lzrs::obfuscate::xor_bytes;

fn lz77_round_trip(data: &[u8]) -> Vec<u8> {
    let tokens = lz77::compress(data, 256, 64);
    lz77::decompress(&tokens).expect("encoder-produced stream must decode")
}

fn lz78_round_trip(data: &[u8]) -> Vec<u8> {
    let tokens = lz78::compress(data);
    lz78::decompress(&tokens).expect("encoder-produced stream must decode")
}

#[test]
fn sliding_window_round_trip_repeated_run() {
    // 10 x 'a' with window and lookahead well above 10
    let data = b"aaaaaaaaaa";
    let tokens = lz77::compress(data, 256, 64);
    assert_eq!(
        tokens,
        vec![
            Lz77Token { distance: 0, length: 0, literal: b'a' },
            Lz77Token { distance: 1, length: 8, literal: b'a' },
        ]
    );
    let out = lz77::decompress(&tokens).unwrap();
    assert_eq!(out, data.to_vec());
}

#[test]
fn incremental_dictionary_round_trip_alternating() {
    let data = b"abababab";
    let tokens = lz78::compress(data);
    assert_eq!(
        tokens,
        vec![
            Lz78Token { prefix_index: 0, symbol: b'a' },
            Lz78Token { prefix_index: 0, symbol: b'b' },
            Lz78Token { prefix_index: 1, symbol: b'b' },
            Lz78Token { prefix_index: 3, symbol: b'a' },
            Lz78Token { prefix_index: 0, symbol: b'b' },
        ]
    );
    let out = lz78::decompress(&tokens).unwrap();
    assert_eq!(out, data.to_vec());
}

#[test]
fn equally_long_matches_prefer_the_smallest_distance() {
    // with lookahead 1, distances 1..=3 all reach a length-1 match at the
    // third cursor position; the smallest distance must win
    let data = b"aaaaa";
    let tokens = lz77::compress(data, 256, 1);
    assert_eq!(
        tokens,
        vec![
            Lz77Token { distance: 0, length: 0, literal: b'a' },
            Lz77Token { distance: 1, length: 1, literal: b'a' },
            Lz77Token { distance: 1, length: 1, literal: b'a' },
        ]
    );
    assert_eq!(lz77::decompress(&tokens).unwrap(), data.to_vec());
}

#[test]
fn round_trips_on_assorted_inputs() {
    let samples: Vec<Vec<u8>> = vec![
        vec![],
        vec![0u8],
        b"hello world".to_vec(),
        b"abcabcabcabcabc".to_vec(),
        (0u8..=255u8).collect(),
        vec![7u8; 1000],
        b"the quick brown fox jumps over the lazy dog".repeat(5),
    ];
    for s in samples {
        assert_eq!(lz77_round_trip(&s), s);
        assert_eq!(lz78_round_trip(&s), s);
    }
}

#[test]
fn sliding_window_never_reaches_before_output_start() {
    let data = b"abcabcabcxyzxyzxyz";
    let tokens = lz77::compress(data, 256, 64);
    let mut produced: usize = 0;
    for t in &tokens {
        if t.length > 0 {
            assert!(t.distance as usize >= 1);
            assert!(t.distance as usize <= produced);
        }
        produced += t.length as usize + 1;
    }
}

#[test]
fn incremental_dictionary_assigns_sequential_indices() {
    // every prefix index must already be defined: prefix <= position
    let data = b"mississippi river runs";
    let tokens = lz78::compress(data);
    for (k, t) in tokens.iter().enumerate() {
        assert!(t.prefix_index as usize <= k);
    }
    assert_eq!(lz78::decompress(&tokens).unwrap(), data.to_vec());
}

#[test]
fn obfuscation_is_an_involution() {
    for salt in 1u8..=255u8 {
        let data: Vec<u8> = (0u8..=255u8).collect();
        let once = xor_bytes(&data, salt);
        let twice = xor_bytes(&once, salt);
        assert_eq!(twice, data);
        if salt != 0 {
            assert_ne!(once, data);
        }
    }
}

#[test]
fn token_wire_forms_round_trip() {
    let toks77 = vec![
        Lz77Token { distance: 0, length: 0, literal: 42 },
        Lz77Token { distance: 513, length: 7, literal: 0 },
        Lz77Token { distance: 65535, length: 65535, literal: 255 },
    ];
    let bytes = toks77.to_bytes();
    assert_eq!(bytes.len(), 15);
    assert_eq!(lz77::lz77_tokens_from_bytes(&bytes).unwrap(), toks77);

    let toks78 = vec![
        Lz78Token { prefix_index: 0, symbol: 1 },
        Lz78Token { prefix_index: u64::MAX, symbol: 200 },
    ];
    let bytes = toks78.to_bytes();
    assert_eq!(bytes.len(), 18);
    assert_eq!(lz78::lz78_tokens_from_bytes(&bytes).unwrap(), toks78);
}

#[test]
fn wire_form_rejects_partial_token() {
    assert_eq!(
        lz77::lz77_tokens_from_bytes(&[0, 0, 0]),
        Err(LzrsError::TruncatedInput)
    );
    assert_eq!(
        lz78::lz78_tokens_from_bytes(&[1, 2, 3, 4]),
        Err(LzrsError::TruncatedInput)
    );
}

#[test]
fn sliding_window_decoder_rejects_bad_distance() {
    let bad = vec![Lz77Token { distance: 5, length: 2, literal: 0 }];
    assert_eq!(lz77::decompress(&bad), Err(LzrsError::FormatError));
}

#[test]
fn incremental_dictionary_decoder_rejects_bad_prefix() {
    let bad = vec![Lz78Token { prefix_index: 3, symbol: 0 }];
    assert_eq!(lz78::decompress(&bad), Err(LzrsError::FormatError));
}

fn build_two_file_container(mode: CompressingMode) -> Vec<u8> {
    let mut builder = LZRSArchiveBuilder::new();
    builder.set_compression_method(mode);
    assert!(builder.add_file(b"a.txt".to_vec(), b"hello", mode));
    assert!(builder.add_file(b"b.txt".to_vec(), b"world", mode));
    builder.write_bytes()
}

#[test]
fn container_round_trip_two_files() {
    let bytes = build_two_file_container(CompressingMode::LZ78);
    let (salt, method, entries) = compose_entries(&bytes).unwrap();
    assert!((1u8..=255u8).contains(&salt));
    assert_eq!(method, 78);
    assert_eq!(entries.len(), 2);
    assert_eq!(entries[0].file_name, b"a.txt".to_vec());
    assert_eq!(entries[1].file_name, b"b.txt".to_vec());
    assert_eq!(entries[0].original_size, 5);
    assert_eq!(entries[1].original_size, 5);
    let out = decompress_file_payloads(&bytes, &entries, salt, method).unwrap();
    assert_eq!(out.len(), 2);
    assert_eq!(out[0].name, b"a.txt".to_vec());
    assert_eq!(out[0].contents, b"hello".to_vec());
    assert_eq!(out[1].name, b"b.txt".to_vec());
    assert_eq!(out[1].contents, b"world".to_vec());
}

#[test]
fn container_round_trip_both_algorithms() {
    for mode in [CompressingMode::LZ77, CompressingMode::LZ78] {
        let bytes = build_two_file_container(mode);
        let out = extract_archive(&bytes).unwrap();
        assert_eq!(out.len(), 2);
        assert_eq!(out[0].contents, b"hello".to_vec());
        assert_eq!(out[1].contents, b"world".to_vec());
    }
}

#[test]
fn entry_offsets_follow_header_and_predecessors() {
    let bytes = build_two_file_container(CompressingMode::LZ78);
    let (_, _, entries) = compose_entries(&bytes).unwrap();
    // header: 17 fixed bytes + two records of 32 + 5 name bytes
    let header_size = 17 + (32 + 5) + (32 + 5);
    assert_eq!(entries[0].data_offset, header_size);
    assert_eq!(
        entries[1].data_offset,
        header_size + entries[0].compressed_size
    );
}

#[test]
fn corrupted_signature_is_a_format_error() {
    let mut bytes = build_two_file_container(CompressingMode::LZ78);
    for b in bytes.iter_mut().take(4) {
        *b ^= 0xFF;
    }
    assert_eq!(compose_entries(&bytes).map(|_| ()), Err(LzrsError::FormatError));
    assert_eq!(extract_archive(&bytes).map(|_| ()), Err(LzrsError::FormatError));
}

#[test]
fn short_input_is_rejected() {
    assert_eq!(extract_archive(&[]).map(|_| ()), Err(LzrsError::FormatError));
    let bytes = build_two_file_container(CompressingMode::LZ77);
    assert_eq!(
        extract_archive(&bytes[..10]).map(|_| ()),
        Err(LzrsError::TruncatedInput)
    );
}

#[test]
fn unknown_algorithm_id_is_rejected() {
    let mut bytes = build_two_file_container(CompressingMode::LZ78);
    let salt = bytes[4];
    // overwrite the obfuscated algorithm id with 99
    bytes[5] = 99u8 ^ salt;
    bytes[6] = salt;
    bytes[7] = salt;
    bytes[8] = salt;
    assert_eq!(
        extract_archive(&bytes).map(|_| ()),
        Err(LzrsError::UnsupportedAlgorithm)
    );
}

#[test]
fn invalid_name_text_is_a_format_error() {
    let mut builder = LZRSArchiveBuilder::new();
    builder.set_compression_method(CompressingMode::LZ78);
    assert!(builder.add_file(vec![0xFF, 0xFE], b"data", CompressingMode::LZ78));
    let bytes = builder.write_bytes();
    assert_eq!(compose_entries(&bytes).map(|_| ()), Err(LzrsError::FormatError));
}

#[test]
fn empty_container_round_trips() {
    let mut builder = LZRSArchiveBuilder::new();
    builder.set_compression_method(CompressingMode::LZ77);
    let bytes = builder.write_bytes();
    assert_eq!(bytes.len(), 17);
    let out = extract_archive(&bytes).unwrap();
    assert!(out.is_empty());
}

#[test]
fn argument_validation() {
    let ok = LZRSArgs {
        method: CompressingMode::LZ78,
        compress: true,
        decompress: false,
        output: None,
        files: vec!["a".to_string()],
    };
    assert_eq!(validate_args(&ok), Ok(()));

    let both = LZRSArgs {
        method: CompressingMode::LZ78,
        compress: true,
        decompress: true,
        output: None,
        files: vec!["a".to_string()],
    };
    assert_eq!(validate_args(&both), Err(LzrsError::InvalidArguments));

    let none = LZRSArgs {
        method: CompressingMode::LZ77,
        compress: true,
        decompress: false,
        output: None,
        files: vec![],
    };
    assert_eq!(validate_args(&none), Err(LzrsError::InvalidArguments));

    let multi_decompress = LZRSArgs {
        method: CompressingMode::LZ77,
        compress: false,
        decompress: true,
        output: None,
        files: vec!["a".to_string(), "b".to_string()],
    };
    assert_eq!(validate_args(&multi_decompress), Err(LzrsError::InvalidArguments));
}
