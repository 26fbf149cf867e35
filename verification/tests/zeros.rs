use kindlefill_core::zeros::{ZeroStream, CHUNK};

fn drain(len: u64) -> (u64, usize) {
    let mut s = ZeroStream::new(len);
    let mut total: u64 = 0;
    let mut chunks: usize = 0;
    while let Some(chunk) = s.next_chunk() {
        assert!(chunk.iter().all(|&b| b == 0), "must be zero-filled");
        total += chunk.len() as u64;
        chunks += 1;
        assert_eq!(s.remaining(), len - total);
    }
    (total, chunks)
}

#[test]
fn yields_exactly_the_requested_length() {
    // The declared size must match the bytes sent, or the device rejects the object.
    let chunk: u64 = CHUNK as u64;
    let lens: [u64; 6] = [0, 1, 4096, chunk, chunk + 1, 5 * chunk];
    for len in lens {
        let (total, _) = drain(len);
        assert_eq!(total, len, "length mismatch for {len}");
    }
}

#[test]
fn chunks_the_stream_rather_than_buffering_it_whole() {
    let (_, chunks) = drain(5 * CHUNK as u64);
    assert_eq!(chunks, 5);
    let (_, chunks) = drain(5 * CHUNK as u64 + 1);
    assert_eq!(chunks, 6);
}

#[test]
fn small_streams_do_not_allocate_a_full_block() {
    let s = ZeroStream::new(512);
    assert_eq!(s.block_len(), 512);
    assert_eq!(ZeroStream::new(0).block_len(), 1);
    assert_eq!(ZeroStream::new(u64::MAX).block_len(), CHUNK);
}

#[test]
fn a_chunk_is_a_prefix_of_the_block() {
    let mut s = ZeroStream::new(CHUNK as u64 + 10);
    assert_eq!(s.next_chunk().unwrap().len(), CHUNK);
    assert_eq!(s.next_chunk().unwrap().len(), 10);
    assert!(s.next_chunk().is_none());
    assert_eq!(s.block_len(), CHUNK);
}
