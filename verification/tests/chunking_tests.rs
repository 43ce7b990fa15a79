use ya_ok_core::transport::chunking::{
    checksum, ChunkReassembler, ChunkedMessage, ReassemblyError, MAX_CHUNK_SIZE,
};

#[test]
fn chunk_and_reassemble_small_payload() {
    let payload = b"Hello, world!";
    let chunks = ChunkedMessage::chunk_payload("msg1".into(), payload);

    assert_eq!(chunks.len(), 1);
    assert_eq!(chunks[0].total_chunks, 1);
    assert!(chunks[0].verify_checksum());

    let mut reassembler = ChunkReassembler::new();
    let result = reassembler.add_chunk(chunks[0].clone(), 0).unwrap();

    assert_eq!(result, Some(payload.to_vec()));
}

#[test]
fn chunk_and_reassemble_large_payload() {
    let payload = vec![42u8; MAX_CHUNK_SIZE * 3 + 100];
    let chunks = ChunkedMessage::chunk_payload("msg2".into(), &payload);

    assert_eq!(chunks.len(), 4);
    assert_eq!(chunks[0].total_chunks, 4);

    let mut reassembler = ChunkReassembler::new();

    assert_eq!(reassembler.add_chunk(chunks[2].clone(), 0).unwrap(), None);
    assert_eq!(reassembler.add_chunk(chunks[0].clone(), 0).unwrap(), None);
    assert_eq!(reassembler.add_chunk(chunks[3].clone(), 0).unwrap(), None);
    let result = reassembler.add_chunk(chunks[1].clone(), 0).unwrap();

    assert_eq!(result, Some(payload));
}

#[test]
fn reassemble_fails_on_checksum_mismatch() {
    let chunk = ChunkedMessage {
        message_id: "msg3".into(),
        chunk_index: 0,
        total_chunks: 1,
        data: vec![1, 2, 3],
        checksum: Some(999999),
    };

    let mut reassembler = ChunkReassembler::new();
    let result = reassembler.add_chunk(chunk, 0);

    assert!(matches!(result, Err(ReassemblyError::ChecksumMismatch)));
}

#[test]
fn cleanup_expired_removes_old_assemblies() {
    let mut reassembler = ChunkReassembler::new();

    let chunk = ChunkedMessage {
        message_id: "msg4".into(),
        chunk_index: 0,
        total_chunks: 3,
        data: vec![1, 2, 3],
        checksum: Some(crc32fast::hash(&[1, 2, 3])),
    };

    reassembler.add_chunk(chunk, 5_000).unwrap();
    assert_eq!(reassembler.pending_count(), 1);

    let expired = reassembler.cleanup_expired(5_000);
    assert_eq!(expired, 0);
}

#[test]
fn checksum_is_crc32() {
    assert_eq!(checksum(b"123456789"), 0xCBF4_3926);
    assert_eq!(checksum(b""), 0);
}

#[test]
fn empty_payload_is_one_empty_chunk() {
    let chunks = ChunkedMessage::chunk_payload("e".into(), &[]);
    assert_eq!(chunks.len(), 1);
    assert_eq!(chunks[0].chunk_index, 0);
    assert_eq!(chunks[0].total_chunks, 1);
    assert!(chunks[0].data.is_empty());
    assert_eq!(chunks[0].checksum, Some(0));
    let mut reassembler = ChunkReassembler::new();
    assert_eq!(reassembler.add_chunk(chunks[0].clone(), 1).unwrap(), Some(Vec::new()));
    assert_eq!(reassembler.pending_count(), 0);
}

#[test]
fn payload_of_a_whole_number_of_chunks() {
    let payload: Vec<u8> = (0..2400u32).map(|i| (i % 251) as u8).collect();
    let chunks = ChunkedMessage::chunk_payload("w".into(), &payload);
    assert_eq!(chunks.len(), 2);
    assert_eq!(chunks[0].data.len(), 1200);
    assert_eq!(chunks[1].data.len(), 1200);
    assert_eq!(chunks[1].chunk_index, 1);
}

#[test]
fn shuffled_chunks_give_the_payload() {
    let payload: Vec<u8> = (0..100_000u32).map(|i| (i * 7 % 256) as u8).collect();
    let chunks = ChunkedMessage::chunk_payload("big".into(), &payload);
    assert_eq!(chunks.len(), 84);
    let mut order: Vec<usize> = (0..chunks.len()).collect();
    let mut seed: u64 = 0x1234_5678;
    for i in (1..order.len()).rev() {
        seed = seed.wrapping_mul(6364136223846793005).wrapping_add(1442695040888963407);
        let j = (seed >> 33) as usize % (i + 1);
        order.swap(i, j);
    }
    let mut reassembler = ChunkReassembler::new();
    let mut last = None;
    for (n, &k) in order.iter().enumerate() {
        let r = reassembler.add_chunk(chunks[k].clone(), n as u64).unwrap();
        if n + 1 < order.len() {
            assert_eq!(r, None);
        } else {
            last = r;
        }
    }
    assert_eq!(last, Some(payload));
    assert_eq!(reassembler.pending_count(), 0);
}

#[test]
fn chunk_without_checksum_is_taken() {
    let chunk = ChunkedMessage {
        message_id: "n".into(),
        chunk_index: 0,
        total_chunks: 1,
        data: vec![9, 9],
        checksum: None,
    };
    let mut reassembler = ChunkReassembler::new();
    assert_eq!(reassembler.add_chunk(chunk, 0).unwrap(), Some(vec![9, 9]));
}

#[test]
fn chunk_index_must_be_below_the_total() {
    let chunk = ChunkedMessage {
        message_id: "i".into(),
        chunk_index: 2,
        total_chunks: 2,
        data: vec![],
        checksum: None,
    };
    let mut reassembler = ChunkReassembler::new();
    assert_eq!(reassembler.add_chunk(chunk, 0), Err(ReassemblyError::InvalidChunkIndex));
    assert_eq!(reassembler.pending_count(), 0);
}

#[test]
fn another_total_forgets_the_payload() {
    let mut reassembler = ChunkReassembler::new();
    let first = ChunkedMessage {
        message_id: "x".into(),
        chunk_index: 0,
        total_chunks: 3,
        data: vec![1],
        checksum: None,
    };
    let second = ChunkedMessage {
        message_id: "x".into(),
        chunk_index: 1,
        total_chunks: 4,
        data: vec![2],
        checksum: None,
    };
    assert_eq!(reassembler.add_chunk(first, 0).unwrap(), None);
    assert_eq!(reassembler.add_chunk(second, 0), Err(ReassemblyError::InconsistentMetadata));
    assert_eq!(reassembler.pending_count(), 0);
}

#[test]
fn same_chunk_twice_counts_once() {
    let payload = vec![5u8; 2000];
    let chunks = ChunkedMessage::chunk_payload("d".into(), &payload);
    let mut reassembler = ChunkReassembler::new();
    assert_eq!(reassembler.add_chunk(chunks[0].clone(), 0).unwrap(), None);
    assert_eq!(reassembler.add_chunk(chunks[0].clone(), 0).unwrap(), None);
    assert_eq!(reassembler.add_chunk(chunks[1].clone(), 0).unwrap(), Some(payload));
}

#[test]
fn unfinished_payload_is_forgotten_after_thirty_seconds() {
    let mut reassembler = ChunkReassembler::new();
    let chunk = ChunkedMessage {
        message_id: "t".into(),
        chunk_index: 0,
        total_chunks: 2,
        data: vec![1],
        checksum: None,
    };
    reassembler.add_chunk(chunk, 1_000).unwrap();
    assert_eq!(reassembler.cleanup_expired(30_999), 0);
    assert_eq!(reassembler.cleanup_expired(31_000), 1);
    assert_eq!(reassembler.cleanup_expired(31_000), 0);
    assert_eq!(reassembler.pending_count(), 0);
}
