use trigram_index::chunk::be_u64;
use trigram_index::chunk::next_chunk_offset;
use trigram_index::chunk::payload_len;
use trigram_index::chunk::round_up;

#[test]
fn big_endian_decoding() {
    assert_eq!(be_u64(0, 0, 0, 0, 0, 0, 0, 0), 0);
    assert_eq!(be_u64(0, 0, 0, 0, 0, 0, 1, 2), 258);
    assert_eq!(be_u64(0, 0, 0, 0, 0, 0, 0, 255), 255);
    assert_eq!(be_u64(1, 0, 0, 0, 0, 0, 0, 0), 1 << 56);
    assert_eq!(
        be_u64(255, 255, 255, 255, 255, 255, 255, 255),
        u64::MAX
    );
    assert_eq!(
        be_u64(0x01, 0x23, 0x45, 0x67, 0x89, 0xAB, 0xCD, 0xEF),
        0x0123456789ABCDEF
    );
}

#[test]
fn rounding_to_sixteen() {
    assert_eq!(round_up(0), 0);
    assert_eq!(round_up(1), 16);
    assert_eq!(round_up(15), 16);
    assert_eq!(round_up(16), 16);
    assert_eq!(round_up(17), 32);
    assert_eq!(round_up(160), 160);
}

#[test]
fn payload_lengths() {
    assert_eq!(payload_len(100, 10), Some(74));
    assert_eq!(payload_len(26, 10), Some(0));
    assert_eq!(payload_len(25, 10), None);
    assert_eq!(payload_len(10, 10), None);
    assert_eq!(payload_len(0, 0), None);
    assert_eq!(payload_len(16, 0), Some(0));
}

#[test]
fn next_chunk_offsets() {
    // payload of 74 bytes starting at 32 ends at 106; the next
    // chunk starts at the next 16-byte boundary, 112.
    assert_eq!(next_chunk_offset(32, 100, 10), Some(112));
    // a chunk ending exactly on a boundary stays there
    assert_eq!(next_chunk_offset(32, 48, 0), Some(64));
    // malformed header
    assert_eq!(next_chunk_offset(32, 10, 10), None);
    // offset overflow
    assert_eq!(next_chunk_offset(u64::MAX - 4, 26, 10), None);
}
