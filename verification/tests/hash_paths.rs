use hoard_chunker::backup_config::BackupConfig;
use hoard_chunker::chunk::Chunk;
use hoard_chunker::chunk_path;
use hoard_chunker::chunk_writer::ChunkWriter;

#[test]
fn chunk_split_hash_gives_fanout_components() {
    let c = Chunk { hash: "deadbeef".to_string(), length: 4 };
    assert_eq!(c.split_hash(), vec!["de".to_string(), "deadbeef".to_string()]);
}

#[test]
fn hash_path_totality() {
    // every 64-character hexadecimal digest maps to its first two
    // characters, a separator, and the digest itself
    let digest: String = "ab".chars().chain("0123456789abcdef".chars().cycle().take(62)).collect();
    assert_eq!(digest.len(), 64);
    let fan = chunk_path::split_hash(&digest);
    assert_eq!(fan, "ab");
    let path = chunk_path::split_hash_as_path("repo", digest.clone());
    assert_eq!(path, format!("repo/ab/{}", digest));
    let bare = chunk_path::split_hash_as_path("", digest.clone());
    assert_eq!(bare, format!("ab/{}", digest));
}

#[test]
fn chunk_writer_places_chunk_under_fanout() {
    let cfg = BackupConfig::new(16384, "in".to_string(), "out".to_string());
    let writer = ChunkWriter::new(cfg);
    let digest: String = "7e".repeat(32);
    let chunk = Chunk { hash: digest.clone(), length: 3 };
    let (path, bytes) = writer.write(&chunk, vec![1, 2, 3]).expect("write failed");
    assert_eq!(path, format!("out/7e/{}", digest));
    assert_eq!(bytes, vec![1, 2, 3]);
}
