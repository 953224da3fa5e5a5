use prefix_codec::compressor::{build_tree, compress, count_uses};
use prefix_codec::decompressor::decompress;
use prefix_codec::error::CodecError;

#[test]
fn test_compression_decompression() {
    let inputs: Vec<Vec<u8>> = vec![
        b"".to_vec(),
        b"a".to_vec(),
        b"aaaa".to_vec(),
        b"hello world".to_vec(),
    ];

    for input in inputs {
        assert_eq!(decompress(compress(&input)), Ok(input));
    }
}

#[test]
fn test_empty_input_minimal_artifact() {
    let artifact = compress(&[]);
    assert_eq!(artifact, Vec::<u8>::new());
    assert_eq!(decompress(artifact), Ok(Vec::new()));
}

#[test]
fn test_hello_world_frequency_table() {
    let uses = count_uses(b"hello world");
    // count-major, byte-tiebreak, both descending
    assert_eq!(
        uses,
        vec![
            (3, b'l'),
            (2, b'o'),
            (1, b'w'),
            (1, b'r'),
            (1, b'h'),
            (1, b'e'),
            (1, b'd'),
            (1, b' '),
        ]
    );
}

#[test]
fn test_hello_world_tree_has_eight_leaves() {
    let uses = count_uses(b"hello world");
    assert_eq!(uses.len(), 8);
    let tree = build_tree(&uses);
    let mut n_leaves = 0;
    let mut it = tree.leaves();
    while let Some(_leaf) = it.next() {
        n_leaves += 1;
    }
    assert_eq!(n_leaves, 8);
}

#[test]
fn test_longer_round_trips() {
    let mut wide = Vec::new();
    for i in 0..2048u32 {
        wide.push((i % 256) as u8);
        wide.push((i % 7) as u8);
        wide.push((i % 31) as u8);
    }
    let inputs: Vec<Vec<u8>> = vec![
        vec![0u8],
        vec![255u8; 300],
        b"the quick brown fox jumps over the lazy dog".to_vec(),
        wide,
    ];
    for input in inputs {
        assert_eq!(decompress(compress(&input)), Ok(input));
    }
}

#[test]
fn test_exact_artifact_bytes() {
    // b"ab": table [(1, b'b'), (1, b'a')]; tree (a, b); codes a=[F], b=[T];
    // 24 bits in all, no padding: 000 0 1 01100001 1 01100010 0 1,
    // packed least significant bit first
    let artifact = compress(b"ab");
    assert_eq!(artifact, vec![208, 176, 145]);
    assert_eq!(decompress(artifact), Ok(b"ab".to_vec()));
}

#[test]
fn test_padding_bits_ignored() {
    // the decoder honours the declared padding count and never reads the
    // padding bits themselves, zero or not
    for input in [b"a".to_vec(), b"aaaa".to_vec(), b"hello world".to_vec()] {
        let mut artifact = compress(&input);
        let declared = artifact[0] & 7;
        assert!(declared > 0, "these inputs all leave a padded tail");
        let last = artifact.len() - 1;
        artifact[last] |= 0xFFu8 << (8 - declared);
        assert_eq!(decompress(artifact), Ok(input));
    }
}

#[test]
fn test_truncated_stream() {
    // one octet of zeros: padding 0, then an unfinished run of branch tags
    assert_eq!(
        decompress(vec![0x00]),
        Err(CodecError::TruncatedStream)
    );
}

#[test]
fn test_malformed_one_leaf_tree() {
    // padding 4; a single-leaf tree carrying byte 65; four zero bits of padding
    assert_eq!(
        decompress(vec![44, 8]),
        Err(CodecError::MalformedTree)
    );
}

#[test]
fn test_payload_overrun() {
    // padding 7; the tree ((1,2),3); one payload bit that ends mid-descent
    assert_eq!(
        decompress(vec![39, 96, 192, 192, 0]),
        Err(CodecError::PayloadOverrun)
    );
}
