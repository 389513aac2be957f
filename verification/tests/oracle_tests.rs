use ncd_predict::error::NcdError;
use ncd_predict::oracle::size_of_outcome;
use ncd_predict::oracle::CompressorSlot;
use ncd_predict::oracle::DeflateOutcome;
use ncd_predict::oracle::DeflateStatus;
use ncd_predict::pool::compressed_size;
use ncd_predict::pool::current_worker;
use ncd_predict::pool::worker_position;
use ncd_predict::pool::CompressorPool;

#[test]
fn empty_input_has_size_zero() {
    let mut slot = CompressorSlot::new(100);
    assert_eq!(slot.measure(b""), Ok(0));
    let mut pool = CompressorPool::new(4, 100);
    assert_eq!(pool.compressed_size_at(0, b""), Ok(0));
    assert_eq!(compressed_size(&mut pool, b""), Ok(0));
}

#[test]
fn empty_input_has_size_zero_even_without_room() {
    let mut slot = CompressorSlot::new(0);
    assert_eq!(slot.measure(b""), Ok(0));
    assert_eq!(slot.measure(b"a"), Err(NcdError::CompressionOverflow));
}

#[test]
fn sizes_of_short_inputs() {
    let mut slot = CompressorSlot::new(100);
    assert_eq!(slot.measure(b"a"), Ok(9));
    assert_eq!(slot.measure(b"ab"), Ok(10));
    assert_eq!(slot.measure(b"abc"), Ok(11));
    assert_eq!(slot.measure(b"abc abc"), Ok(15));
    assert_eq!(slot.measure(b"hello"), Ok(13));
    assert_eq!(slot.measure(b"the quick brown fox jumps over the lazy dog"), Ok(54));
}

#[test]
fn size_is_the_length_of_the_zlib_stream() {
    let input = b"hello hello hello hello";
    let reference = miniz_oxide::deflate::compress_to_vec_zlib(input, 4);
    let mut slot = CompressorSlot::new(100);
    assert_eq!(slot.measure(input), Ok(reference.len() as u64));
}

#[test]
fn measuring_twice_gives_the_same_size() {
    let mut slot = CompressorSlot::new(100);
    let first = slot.measure(b"abcabcabcabc");
    let second = slot.measure(b"abcabcabcabc");
    assert_eq!(first, Ok(13));
    assert_eq!(second, first);
}

#[test]
fn earlier_calls_leave_no_trace() {
    let mut used = CompressorSlot::new(100);
    let _ = used.measure(b"something else entirely, and rather long");
    let _ = used.measure(b"abc");
    let _ = used.measure(&[7u8; 400]);
    let mut fresh = CompressorSlot::new(100);
    assert_eq!(used.measure(b"hello world"), fresh.measure(b"hello world"));
}

#[test]
fn every_slot_gives_the_same_size() {
    let mut pool = CompressorPool::new(3, 100);
    let a = pool.compressed_size_at(0, b"hello world");
    let b = pool.compressed_size_at(1, b"hello world");
    let c = pool.compressed_size_at(2, b"hello world");
    let d = pool.compressed_size_at(7, b"hello world");
    assert!(a.is_ok());
    assert_eq!(a, b);
    assert_eq!(a, c);
    assert_eq!(a, d);
}

#[test]
fn overflow_is_reported_not_truncated() {
    let mut slot = CompressorSlot::new(12);
    assert_eq!(slot.measure(b"abcd"), Ok(12));
    assert_eq!(slot.measure(b"abcde"), Err(NcdError::CompressionOverflow));
    let mut incompressible = Vec::new();
    let mut x: u32 = 12345;
    for _ in 0..400 {
        x = x.wrapping_mul(1664525).wrapping_add(1013904223);
        incompressible.push((x >> 24) as u8);
    }
    let mut reference = CompressorSlot::new(100);
    assert_eq!(reference.measure(&incompressible), Err(NcdError::CompressionOverflow));
}

#[test]
fn a_larger_buffer_recovers_from_overflow() {
    let mut small = CompressorPool::new(1, 12);
    assert_eq!(small.compressed_size_at(0, b"abcde"), Err(NcdError::CompressionOverflow));
    let mut large = CompressorPool::new(1, 64);
    assert_eq!(large.compressed_size_at(0, b"abcde"), Ok(13));
}

#[test]
fn slot_still_works_after_an_overflow() {
    let mut slot = CompressorSlot::new(12);
    assert_eq!(slot.measure(b"abcdefghijklmnopqrstuvwxyz"), Err(NcdError::CompressionOverflow));
    assert_eq!(slot.measure(b"abc"), Ok(11));
}

#[test]
fn slot_reports_its_buffer_length() {
    let slot = CompressorSlot::new(37);
    assert_eq!(slot.buffer_len(), 37);
}

#[test]
fn outcome_counts_only_when_complete() {
    let done = DeflateOutcome { status: DeflateStatus::Done, consumed: 5, produced: 13 };
    assert_eq!(size_of_outcome(done, 5), Ok(13));
    assert_eq!(size_of_outcome(done, 6), Err(NcdError::CompressionOverflow));
    let okay = DeflateOutcome { status: DeflateStatus::Okay, consumed: 5, produced: 12 };
    assert_eq!(size_of_outcome(okay, 5), Err(NcdError::CompressionOverflow));
    let failed = DeflateOutcome { status: DeflateStatus::PutBufFailed, consumed: 5, produced: 0 };
    assert_eq!(size_of_outcome(failed, 5), Err(NcdError::CompressionOverflow));
    let refused = DeflateOutcome { status: DeflateStatus::BadParam, consumed: 0, produced: 0 };
    assert_eq!(size_of_outcome(refused, 0), Err(NcdError::CompressionOverflow));
}

#[test]
fn pool_reports_its_shape() {
    let pool = CompressorPool::new(5, 100);
    assert_eq!(pool.len(), 5);
    assert_eq!(pool.buffer_capacity(), 100);
}

#[test]
fn a_leased_slot_is_not_to_be_had_twice() {
    let mut pool = CompressorPool::new(2, 100);
    let slot = pool.lease(0).unwrap();
    assert_eq!(pool.lease(0).err(), Some(NcdError::ResourcePoolExhausted));
    assert_eq!(pool.lease(2).err(), Some(NcdError::ResourcePoolExhausted));
    assert_eq!(pool.compressed_size_at(4, b"abc"), Err(NcdError::ResourcePoolExhausted));
    assert_eq!(pool.compressed_size_at(1, b"abc"), Ok(11));
    pool.release(0, slot);
    assert_eq!(pool.compressed_size_at(0, b"abc"), Ok(11));
}

#[test]
fn a_leased_slot_measures_and_goes_back() {
    let mut pool = CompressorPool::new(1, 100);
    let mut slot = pool.lease(3).unwrap();
    assert_eq!(slot.buffer_len(), 100);
    assert_eq!(slot.measure(b"hello"), Ok(13));
    pool.release(3, slot);
    assert!(pool.lease(0).is_ok());
}

#[test]
fn a_pool_without_slots_is_exhausted() {
    let mut pool = CompressorPool::new(0, 100);
    assert_eq!(pool.len(), 0);
    assert_eq!(pool.lease(0).err(), Some(NcdError::ResourcePoolExhausted));
    assert_eq!(pool.compressed_size_at(0, b"abc"), Err(NcdError::ResourcePoolExhausted));
    assert_eq!(compressed_size(&mut pool, b"abc"), Err(NcdError::ResourcePoolExhausted));
}

#[test]
fn slot_comes_back_after_a_failed_measurement() {
    let mut pool = CompressorPool::new(1, 4);
    assert_eq!(pool.compressed_size_at(0, b"hello"), Err(NcdError::CompressionOverflow));
    assert_eq!(pool.compressed_size_at(0, b"hello"), Err(NcdError::CompressionOverflow));
    assert!(pool.lease(0).is_ok());
}

#[test]
fn compressed_size_on_the_calling_thread() {
    let mut pool = CompressorPool::new(32, 100);
    assert_eq!(compressed_size(&mut pool, b"abc"), Ok(11));
    assert_eq!(compressed_size(&mut pool, b"abc"), Ok(11));
}

#[test]
fn outside_a_thread_pool_the_worker_is_zero() {
    assert_eq!(current_worker(), 0);
}

#[test]
fn inside_a_thread_pool_the_worker_is_the_thread_index() {
    let pool = rayon::ThreadPoolBuilder::new().num_threads(3).build().unwrap();
    let seen = pool.install(|| (current_worker(), rayon::current_thread_index()));
    assert_eq!(Some(seen.0), seen.1);
    assert!(seen.0 < 3);
}

#[test]
fn thread_index_gives_the_worker_position() {
    assert_eq!(worker_position(None), 0);
    assert_eq!(worker_position(Some(0)), 0);
    assert_eq!(worker_position(Some(5)), 5);
    assert_eq!(worker_position(Some(usize::MAX)), usize::MAX);
}
