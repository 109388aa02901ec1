use bytehound::lz4_stream::{
    chunk_length, compressed_chunks, decode_chunk, known_kind, uncompressed_chunk, ChunkError, CHUNK_SIZE,
};

/// Splits a stream of compressed chunks back into their decoded data.
fn decode_all(mut bytes: &[u8]) -> Vec<u8> {
    let mut out = Vec::new();
    while !bytes.is_empty() {
        let kind = bytes[0];
        assert!(known_kind(kind));
        let length = chunk_length(&bytes[1..5]) as usize;
        let payload = &bytes[5..5 + length];
        out.extend(decode_chunk(kind, payload).unwrap());
        bytes = &bytes[5 + length..];
    }
    out
}

#[test]
fn stored_chunks_carry_their_length() {
    assert_eq!(uncompressed_chunk(&[1, 2, 3]), vec![2, 3, 0, 0, 0, 1, 2, 3]);
    assert_eq!(chunk_length(&[0x01, 0x02, 0x00, 0x00]), 0x201);
}

#[test]
fn compressed_chunks_decode_to_the_data() {
    let data: Vec<u8> = (0..1000u32).map(|i| (i % 7) as u8).collect();
    let chunks = compressed_chunks(&data).unwrap();
    assert_eq!(chunks[0], 1);
    assert!(chunks.len() < data.len());
    assert_eq!(decode_all(&chunks), data);
}

#[test]
fn long_data_is_split_into_chunks() {
    let data: Vec<u8> = (0..(CHUNK_SIZE + 10)).map(|i| (i % 251) as u8).collect();
    let chunks = compressed_chunks(&data).unwrap();
    let first = chunk_length(&chunks[1..5]) as usize;
    assert_eq!(chunks[5 + first], 1);
    assert_eq!(decode_all(&chunks), data);
    assert!(compressed_chunks(&[]).unwrap().is_empty());
}

#[test]
fn bad_chunks_are_refused() {
    assert!(!known_kind(7));
    assert_eq!(decode_chunk(7, &[1, 2, 3]), Err(ChunkError::UnexpectedKind));
    assert_eq!(decode_chunk(1, &[0xf0]), Err(ChunkError::Decompression));
}
