use scull::device::{ScullDevice, ScullError, SeekFrom};
use scull::{BLOCK_SIZE, MAX_ROWS};

#[test]
fn fresh_device_is_empty() {
    let d = ScullDevice::new();
    assert_eq!(d.capacity(), 0);
}

#[test]
fn find_block_reports_full_capacity() {
    let mut d = ScullDevice::new();
    assert_eq!(d.find_block(0), Ok(BLOCK_SIZE));
    assert_eq!(d.find_block(2), Ok(BLOCK_SIZE));
    assert_eq!(d.capacity(), 3 * BLOCK_SIZE);
    // materializing an existing row again changes nothing
    assert_eq!(d.find_block(1), Ok(BLOCK_SIZE));
    assert_eq!(d.capacity(), 3 * BLOCK_SIZE);
}

#[test]
fn find_block_past_addressable_range_is_out_of_memory() {
    let mut d = ScullDevice::new();
    assert_eq!(d.find_block(MAX_ROWS), Err(ScullError::OutOfMemory));
    assert_eq!(d.find_block(usize::MAX), Err(ScullError::OutOfMemory));
    assert_eq!(d.capacity(), 0);
}

#[test]
fn untouched_bytes_read_as_zero() {
    let mut d = ScullDevice::new();
    let got = d.read(5, 100).unwrap();
    assert_eq!(got, vec![0u8; 5]);
    // the read materialized the row
    assert_eq!(d.capacity(), BLOCK_SIZE);
}

#[test]
fn write_then_untouched_row_bytes_are_zero() {
    let mut d = ScullDevice::new();
    assert_eq!(d.write(&[7, 8, 9], 50), Ok(3));
    // before the written range
    assert_eq!(d.read(50, 0).unwrap(), vec![0u8; 50]);
    // the written range itself
    assert_eq!(d.read(3, 50).unwrap(), vec![7, 8, 9]);
    // after the written range, up to the end of the block
    let tail = d.read(BLOCK_SIZE, 53).unwrap();
    assert_eq!(tail.len(), BLOCK_SIZE - 53);
    assert!(tail.iter().all(|&b| b == 0));
}

#[test]
fn write_is_idempotent() {
    let mut once = ScullDevice::new();
    let mut twice = ScullDevice::new();
    let data = [1u8, 2, 3, 4, 5];
    assert_eq!(once.write(&data, 10), Ok(5));
    assert_eq!(twice.write(&data, 10), Ok(5));
    assert_eq!(twice.write(&data, 10), Ok(5));
    let a = once.read(BLOCK_SIZE, 0).unwrap();
    let b = twice.read(BLOCK_SIZE, 0).unwrap();
    assert_eq!(a, b);
    assert_eq!(once.capacity(), twice.capacity());
}

#[test]
fn write_read_round_trip() {
    let mut d = ScullDevice::new();
    let data: Vec<u8> = (0..200u16).map(|x| (x % 251) as u8).collect();
    assert_eq!(d.write(&data, 1000), Ok(200));
    assert_eq!(d.read(200, 1000).unwrap(), data);
}

#[test]
fn round_trip_at_block_end() {
    let mut d = ScullDevice::new();
    // exactly fills the tail of block 0
    let data = vec![0xABu8; 96];
    assert_eq!(d.write(&data, BLOCK_SIZE - 96), Ok(96));
    assert_eq!(d.read(96, BLOCK_SIZE - 96).unwrap(), data);
}

#[test]
fn one_call_stops_at_the_block_boundary() {
    let mut d = ScullDevice::new();
    let data: Vec<u8> = (0..=BLOCK_SIZE).map(|x| (x % 256) as u8).collect();
    assert_eq!(data.len(), BLOCK_SIZE + 1);
    // only a full block moves in one call
    assert_eq!(d.write(&data, 0), Ok(BLOCK_SIZE));
    // the next block's first byte is still untouched
    assert_eq!(d.read(1, BLOCK_SIZE).unwrap(), vec![0u8]);
    // the follow-up call at the boundary moves the remaining byte
    assert_eq!(d.write(&data[BLOCK_SIZE..], BLOCK_SIZE), Ok(1));
    assert_eq!(d.read(1, BLOCK_SIZE).unwrap(), vec![data[BLOCK_SIZE]]);
    assert_eq!(d.read(BLOCK_SIZE, 0).unwrap(), &data[..BLOCK_SIZE]);
}

#[test]
fn oversized_write_is_clamped_to_the_block() {
    let mut d = ScullDevice::new();
    let data = vec![5u8; 5000];
    assert_eq!(d.write(&data, 0), Ok(4096));
    // the caller finishes the job at the boundary
    assert_eq!(d.write(&data[4096..], 4096), Ok(904));
    assert_eq!(d.read(904, 4096).unwrap(), vec![5u8; 904]);
}

#[test]
fn seek_start_sets_the_cursor() {
    let mut d = ScullDevice::new();
    assert_eq!(d.seek(SeekFrom::Start(123)), Ok(123));
    // a relative seek by zero is a no-op reporting the unchanged cursor
    assert_eq!(d.seek(SeekFrom::Current(0)), Ok(123));
    assert_eq!(d.seek(SeekFrom::Start(0)), Ok(0));
    assert_eq!(d.seek(SeekFrom::Current(0)), Ok(0));
}

#[test]
fn seek_current_moves_relative() {
    let mut d = ScullDevice::new();
    assert_eq!(d.seek(SeekFrom::Start(100)), Ok(100));
    assert_eq!(d.seek(SeekFrom::Current(25)), Ok(125));
    assert_eq!(d.seek(SeekFrom::Current(-25)), Ok(100));
    // driving the cursor below zero saturates at zero
    assert_eq!(d.seek(SeekFrom::Current(-500)), Ok(0));
}

#[test]
fn seek_end_uses_the_logical_size() {
    let mut d = ScullDevice::new();
    assert_eq!(d.seek(SeekFrom::End(0)), Ok(0));
    assert_eq!(d.write(&[1], 0), Ok(1));
    // one touched row counts as a whole block
    assert_eq!(d.seek(SeekFrom::End(0)), Ok(BLOCK_SIZE));
    assert_eq!(d.seek(SeekFrom::End(-100)), Ok(BLOCK_SIZE - 100));
    // seeking back past the start saturates at zero
    assert_eq!(d.seek(SeekFrom::End(-(BLOCK_SIZE as isize) - 1)), Ok(0));
}

#[test]
fn cursor_participates_in_offset_resolution() {
    let mut d = ScullDevice::new();
    assert_eq!(d.seek(SeekFrom::Start(4096)), Ok(4096));
    assert_eq!(d.write(&[9], 0), Ok(1));
    // row 1 is materialized, so two blocks exist
    assert_eq!(d.capacity(), 2 * BLOCK_SIZE);
    assert_eq!(d.read(1, 0).unwrap(), vec![9]);
    // the same byte is visible from a rewound cursor at the absolute offset
    assert_eq!(d.seek(SeekFrom::Start(0)), Ok(0));
    assert_eq!(d.read(1, 4096).unwrap(), vec![9]);
}

#[test]
fn session_scenario() {
    let mut d = ScullDevice::new();
    assert_eq!(d.write(&[1, 2, 3], 0), Ok(3));
    let got = d.read(10, 0).unwrap();
    // the transfer is clamped only at the block boundary: all ten requested
    // bytes exist, the unwritten tail reading as zero
    assert_eq!(got, vec![1, 2, 3, 0, 0, 0, 0, 0, 0, 0]);
    assert_eq!(d.seek(SeekFrom::Start(4096)), Ok(4096));
    assert_eq!(d.write(&[9], 0), Ok(1));
    assert_eq!(d.seek(SeekFrom::End(0)), Ok(8192));
}

#[test]
fn offset_overflow_is_invalid() {
    let mut d = ScullDevice::new();
    assert_eq!(d.seek(SeekFrom::Start(usize::MAX)), Ok(usize::MAX));
    assert_eq!(d.write(&[1], 1), Err(ScullError::InvalidOffset));
    assert_eq!(d.read(1, 1), Err(ScullError::InvalidOffset));
    assert_eq!(d.capacity(), 0);
}

#[test]
fn unaddressable_row_is_out_of_memory() {
    let mut d = ScullDevice::new();
    // the final block of the address space can never be materialized
    assert_eq!(d.write(&[1], usize::MAX), Err(ScullError::OutOfMemory));
    assert_eq!(d.read(1, usize::MAX), Err(ScullError::OutOfMemory));
    assert_eq!(d.capacity(), 0);
}

#[test]
fn empty_transfers_short_circuit() {
    let mut d = ScullDevice::new();
    assert_eq!(d.seek(SeekFrom::Start(usize::MAX)), Ok(usize::MAX));
    // a zero-length transfer returns before any offset arithmetic
    assert_eq!(d.read(0, usize::MAX), Ok(vec![]));
    assert_eq!(d.write(&[], usize::MAX), Ok(0));
    assert_eq!(d.capacity(), 0);
}

#[test]
fn saturating_seek_clamps_at_the_top() {
    let mut d = ScullDevice::new();
    assert_eq!(d.seek(SeekFrom::Start(usize::MAX - 1)), Ok(usize::MAX - 1));
    assert_eq!(d.seek(SeekFrom::Current(5)), Ok(usize::MAX));
}
