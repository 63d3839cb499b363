use hoard_chunker::backup_config::BackupConfig;
use hoard_chunker::backup_metadata::BackupMetadata;
use hoard_chunker::backup_service::{BackupService, WalkEntry};
use hoard_chunker::chunk_reader_writer::ChunkReaderWriter;
use hoard_chunker::chunk_storage::LocalChunkStorage;
use hoard_chunker::errors::BackupError;
use hoard_chunker::file_chunker::FileChunker;
use hoard_chunker::restore_service::{RestoreService, RestoredFile};
use hoard_chunker::DEFAULT_AVERAGE_SIZE;

fn config(input: &str, output: &str) -> BackupConfig {
    BackupConfig::new(DEFAULT_AVERAGE_SIZE, input.to_string(), output.to_string())
}

fn service(cfg: &BackupConfig) -> BackupService {
    BackupService::new(cfg.clone(), FileChunker::new(cfg.clone()), LocalChunkStorage::new(cfg.clone()))
}

/// Deterministic pseudo-random payload.
fn payload(len: usize, seed: u64) -> Vec<u8> {
    let mut state = seed.wrapping_mul(6364136223846793005).wrapping_add(1442695040888963407);
    let mut out = Vec::with_capacity(len);
    for _ in 0..len {
        state = state.wrapping_mul(6364136223846793005).wrapping_add(1442695040888963407);
        out.push((state >> 33) as u8);
    }
    out
}

fn restore_all(cfg_out: &str, storage: LocalChunkStorage, metadata: &BackupMetadata) -> Vec<RestoredFile> {
    let cfg = config("unused", cfg_out);
    let mut rs = RestoreService::new(cfg, storage, ChunkReaderWriter::new());
    rs.restore(metadata).expect("restore failed")
}

#[test]
fn empty_file_produces_no_chunks() {
    let cfg = config("in", "out");
    let mut svc = service(&cfg);
    let entries = vec![WalkEntry::File { path: "a.bin".to_string(), data: Vec::new() }];
    let metadata = svc.backup(BackupMetadata::new(), &entries);
    assert_eq!(metadata.chunk_map.entries.len(), 0);
    assert_eq!(metadata.file_metadata_map.entries.len(), 1);
    assert_eq!(metadata.file_metadata_map.entries[0].chunks.len(), 0);
    let restored = restore_all("r", svc.chunk_storage, &metadata);
    assert_eq!(restored.len(), 1);
    assert_eq!(restored[0].path, "r/a.bin");
    assert!(restored[0].data.is_empty());
}

#[test]
fn single_small_file_round_trip() {
    let cfg = config("in", "out");
    let mut svc = service(&cfg);
    let data = "Hello, world!".as_bytes().to_vec();
    assert_eq!(data.len(), 13);
    let entries = vec![WalkEntry::File { path: "hello.txt".to_string(), data: data.clone() }];
    let metadata = svc.backup(BackupMetadata::new(), &entries);
    assert_eq!(metadata.chunk_map.entries.len(), 1);
    assert_eq!(metadata.chunk_map.entries[0].length, 13);
    let restored = restore_all("r", svc.chunk_storage, &metadata);
    assert_eq!(restored.len(), 1);
    assert_eq!(restored[0].data, data);
}

#[test]
fn duplicate_content_shares_chunks() {
    let cfg = config("in", "out");
    let data = payload(128 * 1024, 7);

    let mut only_x = service(&cfg);
    let x_entries = vec![WalkEntry::File { path: "x".to_string(), data: data.clone() }];
    let x_metadata = only_x.backup(BackupMetadata::new(), &x_entries);
    let x_chunks = x_metadata.chunk_map.entries.len();
    assert!(x_chunks >= 1);

    let mut both = service(&cfg);
    let entries = vec![
        WalkEntry::File { path: "x".to_string(), data: data.clone() },
        WalkEntry::File { path: "y".to_string(), data: data.clone() },
    ];
    let metadata = both.backup(BackupMetadata::new(), &entries);
    assert_eq!(metadata.chunk_map.entries.len(), x_chunks);
    assert_eq!(both.chunk_storage.blob_count(), x_chunks);

    // y references the same digests as x
    let x_rec = &metadata.file_metadata_map.entries[0];
    let y_rec = &metadata.file_metadata_map.entries[1];
    assert_eq!(x_rec.chunks.len(), y_rec.chunks.len());
    for (a, b) in x_rec.chunks.iter().zip(y_rec.chunks.iter()) {
        assert_eq!(a.hash, b.hash);
    }

    let restored = restore_all("r", both.chunk_storage, &metadata);
    assert_eq!(restored.len(), 2);
    assert_eq!(restored[0].data, data);
    assert_eq!(restored[1].data, data);
}

#[test]
fn symlink_recorded_without_chunks() {
    let cfg = config("in", "out");
    let mut svc = service(&cfg);
    let entries = vec![WalkEntry::Link { from: "in/link".to_string(), to: "target.txt".to_string() }];
    let metadata = svc.backup(BackupMetadata::new(), &entries);
    assert_eq!(metadata.symlinks.len(), 1);
    assert_eq!(metadata.symlinks[0].from, "in/link");
    assert_eq!(metadata.symlinks[0].to, "target.txt");
    assert_eq!(metadata.chunk_map.entries.len(), 0);
    assert_eq!(metadata.file_metadata_map.entries.len(), 0);
}

#[test]
fn incremental_no_change_writes_no_blob() {
    let cfg = config("in", "out");
    let data = payload(200 * 1024, 11);
    let entries = vec![
        WalkEntry::File { path: "f".to_string(), data: data.clone() },
        WalkEntry::Link { from: "in/link".to_string(), to: "f".to_string() },
    ];

    let mut first = service(&cfg);
    let m1 = first.backup(BackupMetadata::new(), &entries);
    let blobs_after_first = first.chunk_storage.blob_count();

    let mut second = service(&cfg);
    let m2 = second.backup(m1, &entries);
    // no new blob was stored on the unchanged second pass
    assert_eq!(second.chunk_storage.blob_count(), 0);

    // the persisted maps agree with the first pass
    let m1_again = first.backup(BackupMetadata::new(), &entries);
    assert_eq!(m2.chunk_map.entries.len(), m1_again.chunk_map.entries.len());
    for (a, b) in m2.chunk_map.entries.iter().zip(m1_again.chunk_map.entries.iter()) {
        assert_eq!(a.hash, b.hash);
        assert_eq!(a.length, b.length);
    }
    assert_eq!(m2.file_metadata_map.entries.len(), m1_again.file_metadata_map.entries.len());
    // the second manifest's symlink list equals the first's: no duplicates
    assert_eq!(m2.symlinks, m1_again.symlinks);
    assert_eq!(m2.symlinks.len(), 1);
    let _ = blobs_after_first;
}

#[test]
fn repeated_content_in_one_file_round_trips() {
    // one file holding the same bytes twice: the offset-keyed record keeps
    // both occurrences and restore rebuilds the whole file
    let cfg = config("in", "out");
    let mut svc = service(&cfg);
    let half = payload(128 * 1024, 21);
    let mut data = half.clone();
    data.extend_from_slice(&half);
    let entries = vec![WalkEntry::File { path: "twice".to_string(), data: data.clone() }];
    let metadata = svc.backup(BackupMetadata::new(), &entries);
    let rec = &metadata.file_metadata_map.entries[0];
    // every byte of the file is covered by some record chunk
    let total: u64 = rec.chunks.iter().map(|c| c.length as u64).sum();
    assert_eq!(total, data.len() as u64);
    let restored = restore_all("r", svc.chunk_storage, &metadata);
    assert_eq!(restored.len(), 1);
    assert_eq!(restored[0].data, data);
}

#[test]
fn chunk_sizes_respect_bounds() {
    let cfg = config("in", "out");
    assert_eq!(cfg.min_size(), DEFAULT_AVERAGE_SIZE / 4);
    assert_eq!(cfg.max_size(), DEFAULT_AVERAGE_SIZE * 4);
    let mut svc = service(&cfg);
    let data = payload(1024 * 1024, 3);
    let entries = vec![WalkEntry::File { path: "big".to_string(), data: data.clone() }];
    let metadata = svc.backup(BackupMetadata::new(), &entries);
    let rec = &metadata.file_metadata_map.entries[0];
    let sorted = rec.sorted_by_offset();
    let min = cfg.min_size() as usize;
    let max = cfg.max_size() as usize;
    let mut end: u64 = 0;
    for (k, c) in sorted.iter().enumerate() {
        assert_eq!(c.offset, end);
        assert!(1 <= c.length && c.length <= max);
        if k + 1 < sorted.len() {
            assert!(c.length >= min);
        }
        end += c.length as u64;
    }
    assert_eq!(end, data.len() as u64);
}

#[test]
fn store_compresses_and_recovers_chunk_bytes() {
    let cfg = config("in", "out");
    let mut storage = LocalChunkStorage::new(cfg);
    let digest: String = "00".repeat(32);
    let data = vec![0u8; 4096];
    storage.store_chunk(&digest, &data);
    // the on-disk form is the compressed encoding, not the raw bytes
    assert_eq!(storage.blobs.len(), 1);
    assert!(storage.blobs[0].data != data);
    let back = storage.load_chunk(&digest).expect("load failed");
    assert_eq!(back, data);
}

#[test]
fn restore_missing_chunk_is_not_found() {
    let cfg = config("in", "out");
    let mut metadata = BackupMetadata::new();
    let digest: String = "ab".repeat(32);
    let mut fm = hoard_chunker::file_metadata::FileMetadata::new("f".to_string());
    fm.add_chunk(
        digest.clone(),
        hoard_chunker::file_chunk::FileChunk { hash: digest.clone(), offset: 0, length: 3 },
    );
    metadata.file_metadata_map.insert(fm);
    let mut rs = RestoreService::new(cfg.clone(), LocalChunkStorage::new(cfg), ChunkReaderWriter::new());
    let r = rs.restore(&metadata);
    assert_eq!(r.unwrap_err(), BackupError::NotFound);
}

#[test]
fn read_chunk_rejects_bytes_that_are_no_blob() {
    let rw = ChunkReaderWriter::new();
    let junk = vec![1u8, 2, 3, 4];
    assert_eq!(rw.read_chunk(&junk).unwrap_err(), BackupError::IoError);
}

#[test]
fn chunk_reader_writer_prepares_blob() {
    let rw = ChunkReaderWriter::new();
    let digest: String = "1f".repeat(32);
    let data = vec![7u8; 2048];
    let (path, compressed) = rw.write_chunk(&digest, &data, &"repo".to_string());
    assert_eq!(path, format!("repo/1f/{}", digest));
    assert!(compressed != data);
    let back = rw.read_chunk(&compressed).expect("read_chunk failed");
    assert_eq!(back, data);
}
