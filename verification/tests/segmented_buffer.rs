//! The pooled segmented buffer: write and read passes, backpressure, and
//! pool accounting.

use logdna_client::segment_pool::SegmentPool;
use logdna_client::segmented_buffer::SegmentedBuf;
use logdna_client::segmented_buffer::SegmentedPoolBufBuilder;
use logdna_client::segmented_buffer::SegmentedPoolBufError;

fn sample_bytes(n: usize) -> Vec<u8> {
    let mut v = Vec::new();
    let mut x: u32 = 7;
    for _ in 0..n {
        x = x.wrapping_mul(1103515245).wrapping_add(12345);
        v.push((x >> 16) as u8);
    }
    v
}

#[test]
fn write_read_round_trip_arbitrary_splits() {
    let inp = sample_bytes(10000);
    let mut buf = SegmentedPoolBufBuilder::new()
        .segment_size(256)
        .initial_capacity(1024)
        .build();
    // write in awkward split sizes
    let mut at = 0;
    let mut step = 1;
    while at < inp.len() {
        let end = (at + step).min(inp.len());
        let n = buf.write(&inp[at..end]).expect("write");
        assert_eq!(n, end - at);
        at = end;
        step = step * 2 % 509 + 1;
    }
    assert_eq!(buf.len(), inp.len());
    // a fresh byte-by-byte cursor sees exactly the written bytes
    let mut it = buf.iter();
    let mut got = Vec::new();
    while let Some(b) = it.next(&buf) {
        got.push(b);
    }
    assert_eq!(got, inp);
    assert_eq!(buf.to_vec(), inp);
}

#[test]
fn reader_cursors_are_independent() {
    let mut sb = SegmentedBuf::with_segment_size(4);
    let mut pool = SegmentPool::new(4, 4, 16);
    for _ in 0..4 {
        let c = pool.try_acquire().expect("chunk");
        sb.attach(c);
    }
    let written = sb.write(b"abcdefghij");
    assert_eq!(written, 10);
    assert_eq!(sb.len(), 10);
    let mut r1 = sb.reader();
    let mut r2 = sb.reader();
    assert_eq!(r1.next(&sb), Some(b'a'));
    assert_eq!(r1.next(&sb), Some(b'b'));
    // the second cursor still starts at the beginning
    assert_eq!(r2.next(&sb), Some(b'a'));
    let rest = r1.read_to_end(&sb);
    assert_eq!(rest, b"cdefghij".to_vec());
    assert_eq!(r1.next(&sb), None);
}

#[test]
fn reset_read_reproduces_the_same_bytes() {
    let inp = sample_bytes(3000);
    let mut buf = SegmentedPoolBufBuilder::new()
        .segment_size(128)
        .initial_capacity(256)
        .build();
    buf.write(&inp).expect("write");
    let first_pass = buf.read_to_end();
    assert_eq!(first_pass, inp);
    assert_eq!(buf.remaining(), 0);
    // rewinding any number of times always reproduces the first full read
    buf.reset_read();
    buf.reset_read();
    let second_pass = buf.read_to_end();
    assert_eq!(second_pass, first_pass);
    buf.reset_read();
    let third_pass = buf.read_to_end();
    assert_eq!(third_pass, first_pass);
}

#[test]
fn chunk_and_advance_walk_the_content() {
    let inp = sample_bytes(700);
    let mut buf = SegmentedPoolBufBuilder::new()
        .segment_size(64)
        .initial_capacity(64)
        .build();
    buf.write(&inp).expect("write");
    let mut got = Vec::new();
    while buf.remaining() > 0 {
        // with bytes unread, the active segment's suffix is never empty
        let piece = buf.chunk().to_vec();
        assert!(!piece.is_empty());
        let n = piece.len();
        got.extend_from_slice(&piece);
        buf.advance(n);
    }
    assert_eq!(got, inp);
}

#[test]
fn buffer_full_at_the_ceiling_keeps_written_bytes() {
    let inp = sample_bytes(100 * 1024);
    let mut buf = SegmentedPoolBufBuilder::new()
        .segment_size(2048)
        .initial_capacity(4096)
        .max_capacity(Some(8192))
        .build();
    let res = buf.write(&inp);
    assert_eq!(res, Err(SegmentedPoolBufError::BufferFull));
    // bytes up to the point of failure remain valid and counted
    assert_eq!(buf.len(), 8192);
    assert_eq!(buf.to_vec(), inp[..8192].to_vec());
}

#[test]
fn writes_within_the_ceiling_succeed() {
    let inp = sample_bytes(8192);
    let mut buf = SegmentedPoolBufBuilder::new()
        .segment_size(2048)
        .initial_capacity(4096)
        .max_capacity(Some(8192))
        .build();
    assert_eq!(buf.write(&inp), Ok(8192));
    assert_eq!(buf.to_vec(), inp);
}

#[test]
fn duplicate_and_clone_copy_the_data() {
    let inp = sample_bytes(5000);
    let mut buf = SegmentedPoolBufBuilder::new()
        .segment_size(512)
        .initial_capacity(512)
        .build();
    buf.write(&inp).expect("write");
    let empty = buf.duplicate();
    assert_eq!(empty.len(), 0);
    let copy = buf.clone_buf();
    assert_eq!(copy.to_vec(), inp);
    // the copy is a full data copy, not a reference: the source is intact
    assert_eq!(buf.to_vec(), inp);
}

#[test]
fn write_to_segmented_bool_buf_no_garbage_in_pool() {
    let inp = vec![0u8; 16384];
    let serialization_buf_reserve_segments = 100;
    let initial_pool_size = 2048;
    let segment_size = 256;

    let mut buf = SegmentedPoolBufBuilder::new()
        .segment_size(segment_size)
        .initial_capacity(initial_pool_size)
        .build();

    // no more chunks than necessary were allocated up front
    let base_total = buf.pool_total_allocated();
    assert!(buf.pool_live() > 0);
    assert!(buf.pool_live() <= initial_pool_size / segment_size + 1);

    buf.write(&inp).expect("write");

    let mut it = buf.iter();
    let mut i = 0;
    while let Some(b) = it.next(&buf) {
        assert_eq!(b, inp[i]);
        i += 1;
    }
    assert_eq!(i, inp.len());

    // never more chunks than were needed to hold the total elements
    assert!(
        buf.pool_total_allocated() - base_total
            <= std::cmp::max(
                inp.len() / segment_size + 1,
                initial_pool_size / segment_size + 1
            )
    );

    let mut count = 0;
    while count < serialization_buf_reserve_segments * segment_size + 1 {
        count += inp.len();
        buf.write(&inp).expect("write");
    }

    // dropping the writer hands everything back; the pool retains at most
    // its reserve of idle chunks and counts nothing as outstanding
    let pool = buf.into_pool();
    assert_eq!(pool.outstanding_count(), 0);
    assert!(pool.idle_count() <= serialization_buf_reserve_segments);
}

#[test]
fn pool_counters_account_for_every_chunk() {
    let mut pool = SegmentPool::new(64, 3, 8);
    assert_eq!(pool.idle_count(), 3);
    assert_eq!(pool.outstanding_count(), 0);
    assert_eq!(pool.total_allocated_count(), 3);

    let a = pool.try_acquire().expect("chunk");
    let b = pool.try_acquire().expect("chunk");
    assert_eq!(pool.outstanding_count(), 2);
    assert_eq!(pool.idle_count(), 1);
    assert_eq!(pool.max_outstanding_count(), 2);

    pool.release(a);
    assert_eq!(pool.outstanding_count(), 1);
    assert_eq!(pool.idle_count(), 2);
    pool.release(b);
    assert_eq!(pool.outstanding_count(), 0);
    assert_eq!(pool.idle_count(), 3);
    // the historical maximum stays
    assert_eq!(pool.max_outstanding_count(), 2);

    // expansion creates idle chunks up to the reserve bound
    pool.expand().expect("expand");
    assert_eq!(pool.idle_count(), 4);
    assert_eq!(pool.total_allocated_count(), 4);
}

#[test]
fn released_chunks_beyond_the_reserve_are_discarded() {
    let mut pool = SegmentPool::new(16, 2, 2);
    let a = pool.try_acquire().expect("chunk");
    let b = pool.try_acquire().expect("chunk");
    pool.expand().expect("expand");
    pool.expand().expect("expand");
    assert_eq!(pool.idle_count(), 2);
    // the idle set stands at its bound: returned chunks are discarded
    pool.release(a);
    pool.release(b);
    assert_eq!(pool.idle_count(), 2);
    assert_eq!(pool.outstanding_count(), 0);
}

#[test]
fn empty_writes_and_empty_buffers() {
    let mut buf = SegmentedPoolBufBuilder::new()
        .segment_size(32)
        .initial_capacity(32)
        .build();
    assert_eq!(buf.len(), 0);
    assert_eq!(buf.write(&[]), Ok(0));
    assert_eq!(buf.len(), 0);
    assert_eq!(buf.to_vec(), Vec::<u8>::new());
    assert_eq!(buf.remaining(), 0);
    buf.advance(0);
    let mut it = buf.iter();
    assert_eq!(it.next(&buf), None);
}

#[test]
fn a_write_that_exactly_fills_the_segments() {
    let mut buf = SegmentedPoolBufBuilder::new()
        .segment_size(16)
        .initial_capacity(16)
        .build();
    let inp = sample_bytes(64);
    assert_eq!(buf.write(&inp), Ok(64));
    assert_eq!(buf.len(), 64);
    assert_eq!(buf.write(&inp), Ok(64));
    assert_eq!(buf.len(), 128);
    let mut both = inp.clone();
    both.extend_from_slice(&inp);
    assert_eq!(buf.to_vec(), both);
}
