use hoard_chunker::backup_metadata::{BackupMetadata, FileMetadataMap, SerializationType};
use hoard_chunker::chunk::Chunk;
use hoard_chunker::chunk_table::ChunkMap;
use hoard_chunker::errors::BackupError;
use hoard_chunker::file_chunk::FileChunk;
use hoard_chunker::file_metadata::FileMetadata;
use hoard_chunker::symlink::Symlink;

fn sample_manifest() -> BackupMetadata {
    let digest_a: String = "aa".repeat(32);
    let digest_b: String = "0f".repeat(32);
    let mut chunk_map = ChunkMap::new();
    chunk_map.insert(Chunk { hash: digest_a.clone(), length: 5 });
    chunk_map.insert(Chunk { hash: digest_b.clone(), length: 7 });
    let mut fm = FileMetadata::new("/in/a \"quoted\" \\ name\u{0007}.txt".to_string());
    fm.add_chunk(
        digest_a.clone(),
        FileChunk { hash: digest_a.clone(), offset: 0, length: 5 },
    );
    fm.add_chunk(
        digest_b.clone(),
        FileChunk { hash: digest_b.clone(), offset: 5, length: 7 },
    );
    let mut files = FileMetadataMap::new();
    files.insert(fm);
    let mut m = BackupMetadata::new_with_data(chunk_map, files, Vec::new());
    m.insert_symlink(Symlink::new("/in/link".to_string(), "a.txt".to_string()));
    m
}

fn assert_same_manifest(a: &BackupMetadata, b: &BackupMetadata) {
    assert_eq!(a.chunk_map.entries.len(), b.chunk_map.entries.len());
    for (x, y) in a.chunk_map.entries.iter().zip(b.chunk_map.entries.iter()) {
        assert_eq!(x.hash, y.hash);
        assert_eq!(x.length, y.length);
    }
    assert_eq!(a.file_metadata_map.entries.len(), b.file_metadata_map.entries.len());
    for (x, y) in a.file_metadata_map.entries.iter().zip(b.file_metadata_map.entries.iter()) {
        assert_eq!(x.path, y.path);
        assert_eq!(x.chunks, y.chunks);
    }
    assert_eq!(a.symlinks, b.symlinks);
}

#[test]
fn manifest_binary_round_trip() {
    let m = sample_manifest();
    let bytes = m.serialize(SerializationType::MessagePack);
    let back = BackupMetadata::deserialize(&bytes).expect("binary manifest rejected");
    assert_same_manifest(&m, &back);
}

#[test]
fn manifest_text_round_trip() {
    let m = sample_manifest();
    let bytes = m.serialize(SerializationType::JSON);
    let back = BackupMetadata::deserialize(&bytes).expect("text manifest rejected");
    assert_same_manifest(&m, &back);
}

#[test]
fn corrupt_manifest_is_rejected() {
    let m = sample_manifest();
    let mut bytes = m.serialize(SerializationType::MessagePack);
    let mid = bytes.len() / 2;
    bytes.truncate(mid);
    let r = BackupMetadata::deserialize(&bytes);
    assert_eq!(r.unwrap_err(), BackupError::ManifestCorrupt);
    let garbage = vec![0x00u8, 0x01, 0x02];
    assert_eq!(BackupMetadata::deserialize(&garbage).unwrap_err(), BackupError::ManifestCorrupt);
}

#[test]
fn empty_manifest_round_trips_both_forms() {
    let m = BackupMetadata::new();
    let b1 = m.serialize(SerializationType::MessagePack);
    let b2 = m.serialize(SerializationType::JSON);
    let r1 = BackupMetadata::deserialize(&b1).expect("binary manifest rejected");
    let r2 = BackupMetadata::deserialize(&b2).expect("text manifest rejected");
    assert_same_manifest(&m, &r1);
    assert_same_manifest(&m, &r2);
}

#[test]
fn text_form_is_real_json() {
    let m = sample_manifest();
    let bytes = m.serialize(SerializationType::JSON);
    let value: serde_json::Value = serde_json::from_slice(&bytes).expect("not valid JSON");
    let obj = value.as_object().expect("not a JSON object");
    assert!(obj.contains_key("chunk_map"));
    assert!(obj.contains_key("file_metadata_map"));
    assert!(obj.contains_key("symlinks"));
    assert_eq!(obj["symlinks"].as_array().unwrap().len(), 1);
    assert_eq!(obj["symlinks"][0]["to"], serde_json::Value::String("a.txt".to_string()));
}

#[test]
fn binary_form_is_real_message_pack() {
    let m = sample_manifest();
    let bytes = m.serialize(SerializationType::MessagePack);
    let value: serde_json::Value = rmp_serde::from_slice(&bytes).expect("not valid MessagePack");
    let obj = value.as_object().expect("not a MessagePack map");
    assert!(obj.contains_key("chunk_map"));
    assert!(obj.contains_key("file_metadata_map"));
    assert!(obj.contains_key("symlinks"));
}
