use hoard_chunker::file_chunk::FileChunk;
use hoard_chunker::file_metadata::FileMetadata;

fn chunk(hash: &str, offset: u64) -> FileChunk {
    FileChunk { hash: hash.to_string(), offset, length: 8 }
}

#[test]
fn file_metadata_fingerprint_equal() {
    let hashes = ["123", "456", "789"];
    let mut chunks: Vec<FileChunk> = Vec::new();
    let mut second_chunks: Vec<FileChunk> = Vec::new();

    for (index, hash) in hashes.iter().enumerate() {
        chunks.push(chunk(hash, index as u64));
    }
    for (index, hash) in hashes.iter().enumerate().rev() {
        second_chunks.push(chunk(hash, index as u64));
    }

    let file_metadata = FileMetadata { path: "".to_string(), chunks };
    let second_file_metadata = FileMetadata { path: "".to_string(), chunks: second_chunks };
    assert_eq!(file_metadata.fingerprint(), second_file_metadata.fingerprint());
}

#[test]
fn file_metadata_fingerprint_not_equal() {
    let hashes = ["123", "456", "789"];
    let other_hashes = ["234", "567", "890"];
    let mut chunks: Vec<FileChunk> = Vec::new();
    let mut second_chunks: Vec<FileChunk> = Vec::new();

    for (index, hash) in hashes.iter().enumerate() {
        chunks.push(chunk(hash, index as u64));
    }
    for (index, hash) in other_hashes.iter().enumerate() {
        second_chunks.push(chunk(hash, index as u64));
    }

    let file_metadata = FileMetadata { path: "".to_string(), chunks };
    let second_file_metadata = FileMetadata { path: "".to_string(), chunks: second_chunks };
    assert_ne!(file_metadata.fingerprint(), second_file_metadata.fingerprint());
}

#[test]
fn file_metadata_file_metadata_fingerprint_equal() {
    let hashes = ["123", "456", "789"];
    let mut first = FileMetadata::new("".to_string());
    let mut second = FileMetadata::new("".to_string());

    for (index, hash) in hashes.iter().enumerate() {
        first.add_chunk(hash.to_string(), chunk(hash, index as u64));
    }
    for (index, hash) in hashes.iter().enumerate().rev() {
        second.add_chunk(hash.to_string(), chunk(hash, index as u64));
    }
    assert_eq!(first.fingerprint(), second.fingerprint());
}

#[test]
fn file_metadata_file_metadata_fingerprint_not_equal() {
    let hashes = ["123", "456", "789"];
    let other_hashes = ["234", "567", "890"];
    let mut first = FileMetadata::new("".to_string());
    let mut second = FileMetadata::new("".to_string());

    for (index, hash) in hashes.iter().enumerate() {
        first.add_chunk(hash.to_string(), chunk(hash, index as u64));
    }
    for (index, hash) in other_hashes.iter().enumerate() {
        second.add_chunk(hash.to_string(), chunk(hash, index as u64));
    }
    assert_ne!(first.fingerprint(), second.fingerprint());
}

#[test]
fn fingerprint_is_digest_of_ordered_digests() {
    // the fingerprint is the content hash of the digest strings taken in
    // ascending offset order
    let mut fm = FileMetadata::new("f".to_string());
    fm.add_chunk("456".to_string(), chunk("456", 1));
    fm.add_chunk("123".to_string(), chunk("123", 0));
    let expected = blake3::hash("123456".as_bytes()).to_hex().to_string();
    assert_eq!(fm.fingerprint(), expected);
}
