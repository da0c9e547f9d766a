use mdminecraft_world::chunk::{ChunkPos};
use mdminecraft_world::persist::{REGION_MAGIC, REGION_VERSION, RegionHeader, chunk_to_region};

#[test]
fn region_header_roundtrip() {
    let header = RegionHeader::new(0xDEADBEEF, 1234);
    let bytes = header.to_bytes();
    let decoded = RegionHeader::from_bytes(&bytes).unwrap();

    assert_eq!(decoded.magic, REGION_MAGIC);
    assert_eq!(decoded.version, REGION_VERSION);
    assert_eq!(decoded.crc32, 0xDEADBEEF);
    assert_eq!(decoded.payload_len, 1234);
}

#[test]
fn chunk_to_region_coords() {
    assert_eq!(chunk_to_region(ChunkPos::new(0, 0)), (0, 0));
    assert_eq!(chunk_to_region(ChunkPos::new(31, 31)), (0, 0));
    assert_eq!(chunk_to_region(ChunkPos::new(32, 32)), (1, 1));
    assert_eq!(chunk_to_region(ChunkPos::new(-1, -1)), (-1, -1));
    assert_eq!(chunk_to_region(ChunkPos::new(-32, -32)), (-1, -1));
    assert_eq!(chunk_to_region(ChunkPos::new(-33, -33)), (-2, -2));
}

#[test]
fn chunk_to_region_negative_coords() {
    // Test negative chunk coords map to negative regions
    let pos = ChunkPos::new(-1, -1);
    let (rx, rz) = chunk_to_region(pos);
    assert_eq!(rx, -1);
    assert_eq!(rz, -1);

    let pos2 = ChunkPos::new(-32, -32);
    let (rx2, rz2) = chunk_to_region(pos2);
    assert_eq!(rx2, -1);
    assert_eq!(rz2, -1);
}

#[test]
fn region_header_too_short_fails() {
    // Test parsing a header that's too short
    let short_bytes = vec![0u8; 10]; // Too short
    let result = RegionHeader::from_bytes(&short_bytes);
    assert!(result.is_err());
}

#[test]
fn region_header_invalid_magic_fails() {
    // Create bytes with wrong magic
    let mut bytes = vec![0u8; 14];
    // Set wrong magic (not REGION_MAGIC)
    bytes[0] = 0xFF;
    bytes[1] = 0xFF;
    bytes[2] = 0xFF;
    bytes[3] = 0xFF;

    let result = RegionHeader::from_bytes(&bytes);
    assert!(result.is_err());
}

#[test]
fn chunk_to_region_boundary_values() {
    // Test boundary values
    let pos = ChunkPos::new(31, 31); // Last chunk in region (0,0)
    let (rx, rz) = chunk_to_region(pos);
    assert_eq!(rx, 0);
    assert_eq!(rz, 0);

    let pos2 = ChunkPos::new(32, 32); // First chunk in region (1,1)
    let (rx2, rz2) = chunk_to_region(pos2);
    assert_eq!(rx2, 1);
    assert_eq!(rz2, 1);
}

use mdminecraft_world::chunk::{Voxel, CHUNK_VOLUME};
use mdminecraft_world::persist::{
    chunk_from_voxels, decode_region_file, decode_world_blob, encode_region_file, encode_world_blob,
    PersistError, WorldBlobHeader, WORLD_STATE_MAGIC,
};

fn framed_file(magic: u32, version: u16, crc: u32, payload: &[u8]) -> Vec<u8> {
    let mut bytes = Vec::new();
    bytes.extend_from_slice(&magic.to_le_bytes());
    bytes.extend_from_slice(&version.to_le_bytes());
    bytes.extend_from_slice(&crc.to_le_bytes());
    bytes.extend_from_slice(&(payload.len() as u32).to_le_bytes());
    bytes.extend_from_slice(payload);
    bytes
}

#[test]
fn region_file_roundtrips_through_compression() {
    let data: Vec<u8> = (0..2000u32).map(|i| (i % 7) as u8).collect();
    let file = encode_region_file(&data).expect("encode");
    assert_eq!(&file[0..4], &REGION_MAGIC.to_le_bytes());
    // The framed payload is compressed, so it is not the raw data.
    assert_ne!(&file[14..], &data[..]);
    assert_eq!(decode_region_file(&file).expect("decode"), data);
}

#[test]
fn region_file_errors_name_what_is_wrong() {
    assert_eq!(decode_region_file(&[0u8; 5]), Err(PersistError::HeaderTooShort));

    let wrong_magic = framed_file(0x1234_5678, REGION_VERSION, 0, &[]);
    assert_eq!(
        decode_region_file(&wrong_magic),
        Err(PersistError::InvalidMagic { expected: REGION_MAGIC, found: 0x1234_5678 })
    );

    let wrong_version = framed_file(REGION_MAGIC, 9, 0, &[]);
    assert_eq!(
        decode_region_file(&wrong_version),
        Err(PersistError::UnsupportedVersion { expected_version: REGION_VERSION, found_version: 9 })
    );

    let mut truncated = framed_file(REGION_MAGIC, REGION_VERSION, 0, b"abcdef");
    truncated.truncate(16);
    assert_eq!(decode_region_file(&truncated), Err(PersistError::PayloadTruncated));
}

#[test]
fn region_file_checksum_is_crc32_of_the_payload() {
    // CRC-32 (IEEE) of "123456789" is 0xCBF43926.
    let bad_crc = framed_file(REGION_MAGIC, REGION_VERSION, 7, b"123456789");
    assert_eq!(
        decode_region_file(&bad_crc),
        Err(PersistError::CrcMismatch { expected: 7, computed: 0xCBF4_3926 })
    );

    // With the right checksum the payload reaches the decompressor, which refuses it.
    let good_crc = framed_file(REGION_MAGIC, REGION_VERSION, 0xCBF4_3926, b"123456789");
    assert_eq!(decode_region_file(&good_crc), Err(PersistError::DecompressionFailed));
}

#[test]
fn world_blob_roundtrip_and_version_check() {
    let data = b"world state payload".to_vec();
    let file = encode_world_blob(WORLD_STATE_MAGIC, 2, &data).expect("encode");
    let (header, decoded) = decode_world_blob(&file, WORLD_STATE_MAGIC, Some(2)).expect("decode");
    assert_eq!(header.magic, WORLD_STATE_MAGIC);
    assert_eq!(header.version, 2);
    assert_eq!(decoded, data);

    let (any_version, _) = decode_world_blob(&file, WORLD_STATE_MAGIC, None).expect("decode");
    assert_eq!(any_version.version, 2);

    assert_eq!(
        decode_world_blob(&file, WORLD_STATE_MAGIC, Some(1)).map(|(h, _)| h.version),
        Err(PersistError::UnsupportedVersion { expected_version: 1, found_version: 2 })
    );
    assert_eq!(
        decode_world_blob(&file, REGION_MAGIC, None).map(|(h, _)| h.version),
        Err(PersistError::InvalidMagic { expected: REGION_MAGIC, found: WORLD_STATE_MAGIC })
    );
}

#[test]
fn world_blob_header_roundtrip() {
    let header = WorldBlobHeader::new(0xAABB_CCDD, 513, 0x0102_0304, 99);
    let bytes = header.to_bytes();
    assert_eq!(bytes.len(), 14);
    assert_eq!(&bytes[0..4], &[0xDD, 0xCC, 0xBB, 0xAA]);
    assert_eq!(WorldBlobHeader::from_bytes(&bytes), Ok(header));
    assert_eq!(WorldBlobHeader::from_bytes(&bytes[..13]), Err(PersistError::HeaderTooShort));
}

#[test]
fn chunk_payload_must_hold_every_voxel() {
    let short = vec![Voxel::default(); 10];
    assert_eq!(
        chunk_from_voxels(ChunkPos::new(0, 0), &short).map(|_| ()),
        Err(PersistError::InvalidChunkData { expected_voxels: CHUNK_VOLUME, found_voxels: 10 })
    );
    let mut full = vec![Voxel::default(); CHUNK_VOLUME];
    full[3 * 256 + 2 * 16 + 1].id = 42;
    let chunk = chunk_from_voxels(ChunkPos::new(4, -2), &full).expect("chunk");
    assert_eq!(chunk.voxel(1, 3, 2).id, 42);
    assert_eq!(chunk.position(), ChunkPos::new(4, -2));
}

#[test]
fn persist_error_messages() {
    assert_eq!(PersistError::HeaderTooShort.message(), "header too short");
    assert_eq!(PersistError::CrcMismatch { expected: 1, computed: 2 }.message(), "CRC32 mismatch");
    assert_eq!(PersistError::DecompressionFailed.message(), "failed to decompress");
}
