use hoard_chunker::backup_config::BackupConfig;
use hoard_chunker::backup_metadata::BackupMetadata;
use hoard_chunker::backup_service::{BackupService, WalkEntry};
use hoard_chunker::chunk_storage::LocalChunkStorage;
use hoard_chunker::file_chunker::FileChunker;
use hoard_chunker::DEFAULT_AVERAGE_SIZE;

fn payload(len: usize, seed: u64) -> Vec<u8> {
    let mut state = seed.wrapping_mul(6364136223846793005).wrapping_add(1442695040888963407);
    let mut out = Vec::with_capacity(len);
    for _ in 0..len {
        state = state.wrapping_mul(6364136223846793005).wrapping_add(1442695040888963407);
        out.push((state >> 33) as u8);
    }
    out
}

#[test]
fn edit_middle_shares_most_chunks() {
    let cfg = BackupConfig::new(DEFAULT_AVERAGE_SIZE, "in".to_string(), "out".to_string());
    let size = 10 * 1024 * 1024;
    let mut data = payload(size, 42);

    let mut first = BackupService::new(
        cfg.clone(),
        FileChunker::new(cfg.clone()),
        LocalChunkStorage::new(cfg.clone()),
    );
    let base = first
        .backup(BackupMetadata::new(), &vec![WalkEntry::File { path: "big".to_string(), data: data.clone() }]);

    data[size / 2] ^= 0xff;
    let mut second = BackupService::new(
        cfg.clone(),
        FileChunker::new(cfg.clone()),
        LocalChunkStorage::new(cfg.clone()),
    );
    let edited = second
        .backup(BackupMetadata::new(), &vec![WalkEntry::File { path: "big".to_string(), data: data.clone() }]);

    let shared = edited
        .chunk_map
        .entries
        .iter()
        .filter(|c| base.chunk_map.entries.iter().any(|b| b.hash == c.hash))
        .count();
    assert!(shared > 0);

    // some shared chunk lies entirely before the edited byte
    let rec = &edited.file_metadata_map.entries[0];
    let before_edit = rec.chunks.iter().any(|c| {
        (c.offset + c.length as u64) <= (size / 2) as u64
            && base.chunk_map.entries.iter().any(|b| b.hash == c.hash)
    });
    assert!(before_edit);
}
