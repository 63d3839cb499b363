use vstd::prelude::*;
use vstd::arithmetic::div_mod::{lemma_div_denominator, lemma_fundamental_div_mod};
use vstd::utf8::{decode_utf8, encode_utf8, valid_utf8};
use crate::chunk::{Chunk, ChunkView};
use crate::chunk_table::chunk_map_views;
use crate::file_chunk::{FileChunk, FileChunkView};
use crate::file_metadata::{chunk_views, FileMetadata, FileRecordView};
use crate::symlink::{symlink_views, Symlink, SymlinkView};

verus! {

// The compact manifest form: a self-describing, length-prefixed binary
// object.  Every string carries a one-byte tag and a four-byte big-endian
// length; every unsigned number a one-byte tag and eight big-endian bytes;
// maps and arrays a one-byte tag and a four-byte big-endian entry count.
/// The string tag.
pub const TAG_STR: u8 = 0xdb;

/// The unsigned-number tag.
pub const TAG_UINT: u8 = 0xcf;

/// The map tag.
pub const TAG_MAP: u8 = 0xdf;

/// The array tag.
pub const TAG_ARRAY: u8 = 0xdd;

/// A number's four big-endian base-256 digits.
pub open spec fn spec_be32(n: int) -> Seq<u8> {
    seq![
        ((n / 0x1000000) % 256) as u8,
        ((n / 0x10000) % 256) as u8,
        ((n / 0x100) % 256) as u8,
        (n % 256) as u8,
    ]
}

/// The number four big-endian digits denote.
pub open spec fn spec_be32_val(b: Seq<u8>) -> int {
    (b[0] as int) * 0x1000000 + (b[1] as int) * 0x10000 + (b[2] as int) * 0x100 + (b[3] as int)
}

/// A number's eight big-endian base-256 digits.
pub open spec fn spec_be64(n: int) -> Seq<u8> {
    spec_be32(n / 0x100000000) + spec_be32(n % 0x100000000)
}

/// The number eight big-endian digits denote.
pub open spec fn spec_be64_val(b: Seq<u8>) -> int {
    spec_be32_val(b.subrange(0, 4)) * 0x100000000 + spec_be32_val(b.subrange(4, 8))
}

pub proof fn lemma_be32_roundtrip(n: int)
    requires
        0 <= n < 0x100000000,
    ensures
        spec_be32(n).len() == 4,
        spec_be32_val(spec_be32(n)) == n,
{
    lemma_fundamental_div_mod(n, 0x100);
    lemma_div_denominator(n, 0x100, 0x100);
    lemma_div_denominator(n, 0x10000, 0x100);
    lemma_fundamental_div_mod(n / 0x100, 0x100);
    lemma_fundamental_div_mod(n / 0x10000, 0x100);
    lemma_fundamental_div_mod(n / 0x1000000, 0x100);
    assert(n / 0x1000000 < 0x100) by (nonlinear_arith)
        requires
            0 <= n < 0x100000000,
    ;
    assert((n / 0x1000000) % 0x100 == n / 0x1000000);
}

pub proof fn lemma_be64_roundtrip(n: int)
    requires
        0 <= n < 0x10000000000000000,
    ensures
        spec_be64(n).len() == 8,
        spec_be64_val(spec_be64(n)) == n,
{
    assert(n / 0x100000000 < 0x100000000) by (nonlinear_arith)
        requires
            0 <= n < 0x10000000000000000,
    ;
    lemma_fundamental_div_mod(n, 0x100000000);
    assert(0 <= n % 0x100000000 < 0x100000000);
    lemma_be32_roundtrip(n / 0x100000000);
    lemma_be32_roundtrip(n % 0x100000000);
    assert(spec_be64(n).subrange(0, 4) =~= spec_be32(n / 0x100000000));
    assert(spec_be64(n).subrange(4, 8) =~= spec_be32(n % 0x100000000));
}

/// Appends a number's four big-endian digits.
#[verifier::rlimit(100)]
#[verifier::spinoff_prover]
pub fn emit_be32(out: &mut Vec<u8>, n: u32)
    ensures
        final(out)@ == old(out)@ + spec_be32(n as int),
{
    out.push((n / 0x1000000) as u8);
    out.push(((n / 0x10000) % 256) as u8);
    out.push(((n / 0x100) % 256) as u8);
    out.push((n % 256) as u8);
    proof {
        assert((n as int / 0x1000000) % 256 == n as int / 0x1000000) by (nonlinear_arith)
            requires
                0 <= n < 0x100000000,
        ;
        assert(final(out)@ =~= old(out)@ + spec_be32(n as int));
    }
}

/// Appends a number's eight big-endian digits.
#[verifier::rlimit(100)]
#[verifier::spinoff_prover]
pub fn emit_be64(out: &mut Vec<u8>, n: u64)
    ensures
        final(out)@ == old(out)@ + spec_be64(n as int),
{
    let hi = (n / 0x100000000) as u32;
    let lo = (n % 0x100000000) as u32;
    emit_be32(out, hi);
    emit_be32(out, lo);
    proof {
        assert(final(out)@ =~= old(out)@ + spec_be64(n as int));
    }
}

/// Reads four big-endian digits as a number.
#[verifier::rlimit(100)]
#[verifier::spinoff_prover]
pub fn take_be32(buf: &Vec<u8>, pos: usize) -> (r: Option<(u32, usize)>)
    ensures
        match r {
            Some(p) => pos + 4 <= buf@.len() && p.0 as int == spec_be32_val(
                buf@.subrange(pos as int, pos as int + 4),
            ) && p.1 == pos + 4 && 0 <= spec_be32_val(buf@.subrange(pos as int, pos as int + 4))
                < 0x100000000,
            None => pos + 4 > buf@.len(),
        },
{
    if buf.len() < 4 || pos > buf.len() - 4 {
        return None;
    }
    let b0 = buf[pos] as u32;
    let b1 = buf[pos + 1] as u32;
    let b2 = buf[pos + 2] as u32;
    let b3 = buf[pos + 3] as u32;
    let v = b0 * 0x1000000 + b1 * 0x10000 + b2 * 0x100 + b3;
    proof {
        assert(buf@.subrange(pos as int, pos as int + 4)[0] == buf@[pos as int]);
    }
    Some((v, pos + 4))
}

/// Reads eight big-endian digits as a number.
#[verifier::rlimit(100)]
#[verifier::spinoff_prover]
pub fn take_be64(buf: &Vec<u8>, pos: usize) -> (r: Option<(u64, usize)>)
    ensures
        match r {
            Some(p) => pos + 8 <= buf@.len() && p.0 as int == spec_be64_val(
                buf@.subrange(pos as int, pos as int + 8),
            ) && p.1 == pos + 8 && 0 <= spec_be64_val(buf@.subrange(pos as int, pos as int + 8))
                < 0x10000000000000000,
            None => pos + 8 > buf@.len(),
        },
{
    if buf.len() < 8 || pos > buf.len() - 8 {
        return None;
    }
    let hi = match take_be32(buf, pos) {
        Some(p) => p.0,
        None => {
            return None;
        },
    };
    let lo = match take_be32(buf, pos + 4) {
        Some(p) => p.0,
        None => {
            return None;
        },
    };
    let v = (hi as u64) * 0x100000000 + (lo as u64);
    proof {
        let whole = buf@.subrange(pos as int, pos as int + 8);
        assert(whole.subrange(0, 4) =~= buf@.subrange(pos as int, pos as int + 4));
        assert(whole.subrange(4, 8) =~= buf@.subrange(pos as int + 4, pos as int + 8));
    }
    Some((v, pos + 8))
}

/// The serial form of a string: tag, UTF-8 length, UTF-8 bytes.
pub open spec fn spec_str_bytes(s: Seq<char>) -> Seq<u8> {
    seq![TAG_STR] + spec_be32(encode_utf8(s).len() as int) + encode_utf8(s)
}

/// The serial form of an unsigned number: tag and eight digits.
pub open spec fn spec_uint_bytes(n: int) -> Seq<u8> {
    seq![TAG_UINT] + spec_be64(n)
}

/// The serial form of a map header: tag and entry count.
pub open spec fn spec_map_header(n: int) -> Seq<u8> {
    seq![TAG_MAP] + spec_be32(n)
}

/// The serial form of an array header: tag and element count.
pub open spec fn spec_array_header(n: int) -> Seq<u8> {
    seq![TAG_ARRAY] + spec_be32(n)
}

/// A string whose UTF-8 form fits behind a four-byte length.
pub open spec fn str_encodable(s: Seq<char>) -> bool {
    encode_utf8(s).len() < 0x100000000
}

/// What reading a string at `pos` yields.
pub open spec fn spec_parse_str(buf: Seq<u8>, pos: int) -> Option<(Seq<char>, int)> {
    if pos < 0 || pos + 5 > buf.len() {
        None
    } else if buf[pos] != TAG_STR {
        None
    } else {
        let n = spec_be32_val(buf.subrange(pos + 1, pos + 5));
        if pos + 5 + n > buf.len() || n < 0 {
            None
        } else {
            let bytes = buf.subrange(pos + 5, pos + 5 + n);
            if valid_utf8(bytes) {
                Some((decode_utf8(bytes), pos + 5 + n))
            } else {
                None
            }
        }
    }
}

/// What reading an unsigned number at `pos` yields.
pub open spec fn spec_parse_uint(buf: Seq<u8>, pos: int) -> Option<(int, int)> {
    if pos < 0 || pos + 9 > buf.len() {
        None
    } else if buf[pos] != TAG_UINT {
        None
    } else {
        Some((spec_be64_val(buf.subrange(pos + 1, pos + 9)), pos + 9))
    }
}

/// What reading a map or array header at `pos` yields.
pub open spec fn spec_parse_header(buf: Seq<u8>, pos: int, tag: u8) -> Option<(int, int)> {
    if pos < 0 || pos + 5 > buf.len() {
        None
    } else if buf[pos] != tag {
        None
    } else {
        Some((spec_be32_val(buf.subrange(pos + 1, pos + 5)), pos + 5))
    }
}

/// Relies on String::from_utf8: it accepts exactly valid UTF-8 and
/// preserves the bytes.
#[verifier::external_body]
pub(crate) fn bytes_to_string(v: Vec<u8>) -> (r: Option<String>)
    ensures
        r is Some <==> valid_utf8(v@),
        match r {
            Some(s) => encode_utf8(s@) == v@,
            None => true,
        },
{
    match String::from_utf8(v) {
        Ok(s) => Some(s),
        Err(_) => None,
    }
}

/// Appends a string's serial form.
#[verifier::rlimit(100)]
#[verifier::spinoff_prover]
pub fn emit_str(out: &mut Vec<u8>, s: &str)
    requires
        str_encodable(s@),
    ensures
        final(out)@ == old(out)@ + spec_str_bytes(s@),
{
    let mut bytes = s.as_bytes_vec();
    out.push(TAG_STR);
    emit_be32(out, bytes.len() as u32);
    out.append(&mut bytes);
    proof {
        assert(final(out)@ =~= old(out)@ + spec_str_bytes(s@));
    }
}

/// Appends an unsigned number's serial form.
#[verifier::rlimit(100)]
#[verifier::spinoff_prover]
pub fn emit_uint(out: &mut Vec<u8>, n: u64)
    ensures
        final(out)@ == old(out)@ + spec_uint_bytes(n as int),
{
    out.push(TAG_UINT);
    emit_be64(out, n);
    proof {
        assert(final(out)@ =~= old(out)@ + spec_uint_bytes(n as int));
    }
}

/// Appends a map header.
#[verifier::rlimit(100)]
#[verifier::spinoff_prover]
pub fn emit_map_header(out: &mut Vec<u8>, n: u32)
    ensures
        final(out)@ == old(out)@ + spec_map_header(n as int),
{
    out.push(TAG_MAP);
    emit_be32(out, n);
    proof {
        assert(final(out)@ =~= old(out)@ + spec_map_header(n as int));
    }
}

/// Appends an array header.
#[verifier::rlimit(100)]
#[verifier::spinoff_prover]
pub fn emit_array_header(out: &mut Vec<u8>, n: u32)
    ensures
        final(out)@ == old(out)@ + spec_array_header(n as int),
{
    out.push(TAG_ARRAY);
    emit_be32(out, n);
    proof {
        assert(final(out)@ =~= old(out)@ + spec_array_header(n as int));
    }
}

/// Reads a string.
#[verifier::rlimit(100)]
#[verifier::spinoff_prover]
pub fn take_str(buf: &Vec<u8>, pos: usize) -> (r: Option<(String, usize)>)
    ensures
        match r {
            Some(p) => spec_parse_str(buf@, pos as int) == Some((p.0@, p.1 as int)) && p.1
                <= buf@.len(),
            None => spec_parse_str(buf@, pos as int) is None,
        },
{
    if buf.len() < 5 || pos > buf.len() - 5 {
        return None;
    }
    if buf[pos] != TAG_STR {
        return None;
    }
    let (n32, p1) = match take_be32(buf, pos + 1) {
        Some(p) => p,
        None => {
            return None;
        },
    };
    let n = n32 as usize;
    if n > buf.len() - p1 {
        return None;
    }
    let bytes = crate::file_chunker::copy_range(buf, p1, n);
    match bytes_to_string(bytes) {
        Some(s) => {
            proof {
                broadcast use vstd::utf8::encode_utf8_decode_utf8;

            }
            Some((s, p1 + n))
        },
        None => None,
    }
}

/// Reads an unsigned number.
#[verifier::rlimit(100)]
#[verifier::spinoff_prover]
pub fn take_uint(buf: &Vec<u8>, pos: usize) -> (r: Option<(u64, usize)>)
    ensures
        match r {
            Some(p) => spec_parse_uint(buf@, pos as int) == Some((p.0 as int, p.1 as int)) && p.1
                <= buf@.len(),
            None => spec_parse_uint(buf@, pos as int) is None,
        },
{
    if buf.len() < 9 || pos > buf.len() - 9 {
        return None;
    }
    if buf[pos] != TAG_UINT {
        return None;
    }
    match take_be64(buf, pos + 1) {
        Some(p) => Some((p.0, p.1)),
        None => None,
    }
}

/// Reads a map or array header.
#[verifier::rlimit(100)]
#[verifier::spinoff_prover]
pub fn take_header(buf: &Vec<u8>, pos: usize, tag: u8) -> (r: Option<(u32, usize)>)
    ensures
        match r {
            Some(p) => spec_parse_header(buf@, pos as int, tag) == Some((p.0 as int, p.1 as int))
                && p.1 <= buf@.len(),
            None => spec_parse_header(buf@, pos as int, tag) is None,
        },
{
    if buf.len() < 5 || pos > buf.len() - 5 {
        return None;
    }
    if buf[pos] != tag {
        return None;
    }
    match take_be32(buf, pos + 1) {
        Some(p) => Some((p.0, p.1)),
        None => None,
    }
}

/// Reading a string's serial form yields the string.
#[verifier::rlimit(100)]
#[verifier::spinoff_prover]
pub proof fn lemma_parse_str_of(buf: Seq<u8>, pos: int, s: Seq<char>)
    requires
        0 <= pos,
        str_encodable(s),
        pos + spec_str_bytes(s).len() <= buf.len(),
        buf.subrange(pos, pos + spec_str_bytes(s).len() as int) == spec_str_bytes(s),
    ensures
        spec_parse_str(buf, pos) == Some((s, pos + spec_str_bytes(s).len() as int)),
{
    broadcast use vstd::utf8::encode_utf8_valid_utf8;
    broadcast use vstd::utf8::encode_utf8_decode_utf8;

    let eb = encode_utf8(s);
    lemma_be32_roundtrip(eb.len() as int);
    let sb = spec_str_bytes(s);
    assert(buf[pos] == sb[0]) by {
        assert(buf.subrange(pos, pos + sb.len() as int)[0] == buf[pos]);
    }
    assert(sb[0] == TAG_STR);
    assert(buf.subrange(pos + 1, pos + 5) =~= sb.subrange(1, 5)) by {
        assert forall|q: int| 0 <= q < 4 implies buf.subrange(pos + 1, pos + 5)[q] == sb.subrange(
            1,
            5,
        )[q] by {
            assert(buf.subrange(pos, pos + sb.len() as int)[q + 1] == buf[pos + 1 + q]);
        }
    }
    assert(sb.subrange(1, 5) =~= spec_be32(eb.len() as int));
    assert(buf.subrange(pos + 5, pos + 5 + eb.len()) =~= eb) by {
        assert forall|q: int| 0 <= q < eb.len() implies buf.subrange(
            pos + 5,
            pos + 5 + eb.len(),
        )[q] == eb[q] by {
            assert(buf.subrange(pos, pos + sb.len() as int)[q + 5] == buf[pos + 5 + q]);
            assert(sb[q + 5] == eb[q]);
        }
    }
}

/// Reading a number's serial form yields the number.
#[verifier::rlimit(100)]
#[verifier::spinoff_prover]
pub proof fn lemma_parse_uint_of(buf: Seq<u8>, pos: int, n: int)
    requires
        0 <= pos,
        0 <= n < 0x10000000000000000,
        pos + 9 <= buf.len(),
        buf.subrange(pos, pos + 9) == spec_uint_bytes(n),
    ensures
        spec_parse_uint(buf, pos) == Some((n, pos + 9)),
{
    lemma_be64_roundtrip(n);
    let sb = spec_uint_bytes(n);
    assert(buf[pos] == sb[0]) by {
        assert(buf.subrange(pos, pos + 9)[0] == buf[pos]);
    }
    assert(sb[0] == TAG_UINT);
    assert(buf.subrange(pos + 1, pos + 9) =~= spec_be64(n)) by {
        assert forall|q: int| 0 <= q < 8 implies buf.subrange(pos + 1, pos + 9)[q] == spec_be64(
            n,
        )[q] by {
            assert(buf.subrange(pos, pos + 9)[q + 1] == buf[pos + 1 + q]);
            assert(sb[q + 1] == spec_be64(n)[q]);
        }
    }
}

/// Reading a header's serial form yields the count.
#[verifier::rlimit(100)]
#[verifier::spinoff_prover]
pub proof fn lemma_parse_header_of(buf: Seq<u8>, pos: int, n: int, tag: u8)
    requires
        0 <= pos,
        0 <= n < 0x100000000,
        pos + 5 <= buf.len(),
        buf.subrange(pos, pos + 5) == seq![tag] + spec_be32(n),
    ensures
        spec_parse_header(buf, pos, tag) == Some((n, pos + 5)),
{
    lemma_be32_roundtrip(n);
    let sb = seq![tag] + spec_be32(n);
    assert(buf[pos] == sb[0]) by {
        assert(buf.subrange(pos, pos + 5)[0] == buf[pos]);
    }
    assert(buf.subrange(pos + 1, pos + 5) =~= spec_be32(n)) by {
        assert forall|q: int| 0 <= q < 4 implies buf.subrange(pos + 1, pos + 5)[q] == spec_be32(
            n,
        )[q] by {
            assert(buf.subrange(pos, pos + 5)[q + 1] == buf[pos + 1 + q]);
            assert(sb[q + 1] == spec_be32(n)[q]);
        }
    }
}

/// The serial form of one chunk record.
pub open spec fn spec_chunk_bytes(c: ChunkView) -> Seq<u8> {
    spec_map_header(2) + spec_str_bytes("hash"@) + spec_str_bytes(c.hash) + spec_str_bytes(
        "length"@,
    ) + spec_uint_bytes(c.length as int)
}

/// One chunk-index entry: the digest key, then the record.
pub open spec fn spec_chunk_entry_bytes(c: ChunkView) -> Seq<u8> {
    spec_str_bytes(c.hash) + spec_chunk_bytes(c)
}

/// The chunk-index entries in storage order.
pub open spec fn spec_chunk_entries_bytes(s: Seq<ChunkView>) -> Seq<u8>
    decreases s.len(),
{
    if s.len() == 0 {
        Seq::empty()
    } else {
        spec_chunk_entry_bytes(s[0]) + spec_chunk_entries_bytes(s.drop_first())
    }
}

/// The serial form of one file chunk.
pub open spec fn spec_file_chunk_bytes(c: FileChunkView) -> Seq<u8> {
    spec_map_header(3) + spec_str_bytes("hash"@) + spec_str_bytes(c.hash) + spec_str_bytes(
        "offset"@,
    ) + spec_uint_bytes(c.offset as int) + spec_str_bytes("length"@) + spec_uint_bytes(
        c.length as int,
    )
}

/// One record-chunk entry: the digest key, then the occurrence.
pub open spec fn spec_fc_entry_bytes(c: FileChunkView) -> Seq<u8> {
    spec_str_bytes(c.hash) + spec_file_chunk_bytes(c)
}

/// A record's chunk entries in storage order.
pub open spec fn spec_fc_entries_bytes(s: Seq<FileChunkView>) -> Seq<u8>
    decreases s.len(),
{
    if s.len() == 0 {
        Seq::empty()
    } else {
        spec_fc_entry_bytes(s[0]) + spec_fc_entries_bytes(s.drop_first())
    }
}

/// The serial form of one file record.
pub open spec fn spec_record_bytes(r: FileRecordView) -> Seq<u8> {
    spec_map_header(2) + spec_str_bytes("path"@) + spec_str_bytes(r.path) + spec_str_bytes(
        "chunks"@,
    ) + spec_map_header(r.chunks.len() as int) + spec_fc_entries_bytes(r.chunks)
}

/// One file-map entry: the path key, then the record.
pub open spec fn spec_record_entry_bytes(r: FileRecordView) -> Seq<u8> {
    spec_str_bytes(r.path) + spec_record_bytes(r)
}

/// The file-map entries in storage order.
pub open spec fn spec_record_entries_bytes(s: Seq<FileRecordView>) -> Seq<u8>
    decreases s.len(),
{
    if s.len() == 0 {
        Seq::empty()
    } else {
        spec_record_entry_bytes(s[0]) + spec_record_entries_bytes(s.drop_first())
    }
}

/// The serial form of one symbolic link.
pub open spec fn spec_symlink_bytes(l: SymlinkView) -> Seq<u8> {
    spec_map_header(2) + spec_str_bytes("from"@) + spec_str_bytes(l.from) + spec_str_bytes("to"@)
        + spec_str_bytes(l.to)
}

/// The symlink entries in list order.
pub open spec fn spec_symlink_entries_bytes(s: Seq<SymlinkView>) -> Seq<u8>
    decreases s.len(),
{
    if s.len() == 0 {
        Seq::empty()
    } else {
        spec_symlink_bytes(s[0]) + spec_symlink_entries_bytes(s.drop_first())
    }
}

/// The serial form of a whole manifest: the chunk index, the file map, and
/// the symlink list, under their three field names.
pub open spec fn spec_manifest_bytes(
    chunks: Seq<ChunkView>,
    files: Seq<FileRecordView>,
    links: Seq<SymlinkView>,
) -> Seq<u8> {
    spec_map_header(3) + spec_str_bytes("chunk_map"@) + spec_map_header(chunks.len() as int)
        + spec_chunk_entries_bytes(chunks) + spec_str_bytes("file_metadata_map"@)
        + spec_map_header(files.len() as int) + spec_record_entries_bytes(files) + spec_str_bytes(
        "symlinks"@,
    ) + spec_array_header(links.len() as int) + spec_symlink_entries_bytes(links)
}

/// Fits the serial string form.
pub open spec fn chunks_encodable(s: Seq<ChunkView>) -> bool {
    s.len() < 0x100000000 && (forall|i: int|
        0 <= i < s.len() ==> str_encodable((#[trigger] s[i]).hash))
}

/// Fits the serial string form.
pub open spec fn record_encodable(r: FileRecordView) -> bool {
    &&& str_encodable(r.path)
    &&& r.chunks.len() < 0x100000000
    &&& forall|i: int| 0 <= i < r.chunks.len() ==> str_encodable((#[trigger] r.chunks[i]).hash)
}

/// Fits the serial string form.
pub open spec fn records_encodable(s: Seq<FileRecordView>) -> bool {
    s.len() < 0x100000000 && (forall|i: int| 0 <= i < s.len() ==> record_encodable(#[trigger] s[i]))
}

/// Fits the serial string form.
pub open spec fn links_encodable(s: Seq<SymlinkView>) -> bool {
    s.len() < 0x100000000 && (forall|i: int|
        0 <= i < s.len() ==> str_encodable((#[trigger] s[i]).from) && str_encodable(s[i].to))
}

/// Every string and every count of the manifest fits its length prefix.
pub open spec fn manifest_encodable(
    chunks: Seq<ChunkView>,
    files: Seq<FileRecordView>,
    links: Seq<SymlinkView>,
) -> bool {
    chunks_encodable(chunks) && records_encodable(files) && links_encodable(links)
}

/// Appends one chunk record.
#[verifier::rlimit(100)]
#[verifier::spinoff_prover]
fn emit_chunk(out: &mut Vec<u8>, c: &Chunk)
    requires
        str_encodable(c.hash@),
    ensures
        final(out)@ == old(out)@ + spec_chunk_bytes(c@),
{
    proof {
        reveal_strlit("hash");
        reveal_strlit("length");
        broadcast use vstd::utf8::is_ascii_chars_encode_utf8;

        assert(vstd::utf8::is_ascii_chars("hash"@));
        assert(vstd::utf8::is_ascii_chars("length"@));
    }
    emit_map_header(out, 2);
    emit_str(out, "hash");
    emit_str(out, c.hash.as_str());
    emit_str(out, "length");
    emit_uint(out, c.length as u64);
    proof {
        assert(final(out)@ =~= old(out)@ + spec_chunk_bytes(c@));
    }
}

/// Appends one file chunk.
#[verifier::rlimit(100)]
#[verifier::spinoff_prover]
fn emit_file_chunk(out: &mut Vec<u8>, c: &FileChunk)
    requires
        str_encodable(c.hash@),
    ensures
        final(out)@ == old(out)@ + spec_file_chunk_bytes(c@),
{
    proof {
        reveal_strlit("hash");
        reveal_strlit("offset");
        reveal_strlit("length");
        broadcast use vstd::utf8::is_ascii_chars_encode_utf8;

        assert(vstd::utf8::is_ascii_chars("hash"@));
        assert(vstd::utf8::is_ascii_chars("offset"@));
        assert(vstd::utf8::is_ascii_chars("length"@));
    }
    emit_map_header(out, 3);
    emit_str(out, "hash");
    emit_str(out, c.hash.as_str());
    emit_str(out, "offset");
    emit_uint(out, c.offset);
    emit_str(out, "length");
    emit_uint(out, c.length as u64);
    proof {
        assert(final(out)@ =~= old(out)@ + spec_file_chunk_bytes(c@));
    }
}

/// Appends one file record.
#[verifier::rlimit(100)]
#[verifier::spinoff_prover]
fn emit_record(out: &mut Vec<u8>, r: &FileMetadata)
    requires
        record_encodable(r@),
    ensures
        final(out)@ == old(out)@ + spec_record_bytes(r@),
{
    proof {
        reveal_strlit("path");
        reveal_strlit("chunks");
        broadcast use vstd::utf8::is_ascii_chars_encode_utf8;

        assert(vstd::utf8::is_ascii_chars("path"@));
        assert(vstd::utf8::is_ascii_chars("chunks"@));
    }
    emit_map_header(out, 2);
    emit_str(out, "path");
    emit_str(out, r.path.as_str());
    emit_str(out, "chunks");
    emit_map_header(out, r.chunks.len() as u32);
    let ghost mid = out@;
    let mut i: usize = 0;
    proof {
        assert(chunk_views(r.chunks@).take(0) =~= Seq::<FileChunkView>::empty());
    }
    while i < r.chunks.len()
        invariant
            i <= r.chunks@.len(),
            record_encodable(r@),
            out@ == mid + spec_fc_entries_bytes(chunk_views(r.chunks@).take(i as int)),
        decreases r.chunks@.len() - i,
    {
        let ghost cv = chunk_views(r.chunks@);
        proof {
            assert(cv[i as int] == r.chunks@[i as int]@);
            assert(str_encodable(cv[i as int].hash));
            lemma_fc_entries_push(cv.take(i as int), cv[i as int]);
            assert(cv.take(i as int + 1) =~= cv.take(i as int).push(cv[i as int]));
        }
        emit_str(out, r.chunks[i].hash.as_str());
        emit_file_chunk(out, &r.chunks[i]);
        i += 1;
    }
    proof {
        assert(chunk_views(r.chunks@).take(r.chunks@.len() as int) =~= chunk_views(r.chunks@));
        assert(final(out)@ =~= old(out)@ + spec_record_bytes(r@));
    }
}

/// Appends one symbolic link.
#[verifier::rlimit(100)]
#[verifier::spinoff_prover]
fn emit_symlink(out: &mut Vec<u8>, l: &Symlink)
    requires
        str_encodable(l.from@),
        str_encodable(l.to@),
    ensures
        final(out)@ == old(out)@ + spec_symlink_bytes(l@),
{
    proof {
        reveal_strlit("from");
        reveal_strlit("to");
        broadcast use vstd::utf8::is_ascii_chars_encode_utf8;

        assert(vstd::utf8::is_ascii_chars("from"@));
        assert(vstd::utf8::is_ascii_chars("to"@));
    }
    emit_map_header(out, 2);
    emit_str(out, "from");
    emit_str(out, l.from.as_str());
    emit_str(out, "to");
    emit_str(out, l.to.as_str());
    proof {
        assert(final(out)@ =~= old(out)@ + spec_symlink_bytes(l@));
    }
}

#[verifier::rlimit(100)]
#[verifier::spinoff_prover]
pub proof fn lemma_chunk_entries_push(s: Seq<ChunkView>, x: ChunkView)
    ensures
        spec_chunk_entries_bytes(s.push(x)) =~= spec_chunk_entries_bytes(s)
            + spec_chunk_entry_bytes(x),
    decreases s.len(),
{
    reveal_with_fuel(spec_chunk_entries_bytes, 3);
    if s.len() == 0 {
        assert(s.push(x) =~= seq![x]);
        assert(seq![x].drop_first() =~= Seq::<ChunkView>::empty());
    } else {
        assert(s.push(x)[0] == s[0]);
        assert(s.push(x).drop_first() =~= s.drop_first().push(x));
        lemma_chunk_entries_push(s.drop_first(), x);
    }
}

#[verifier::rlimit(100)]
#[verifier::spinoff_prover]
pub proof fn lemma_fc_entries_push(s: Seq<FileChunkView>, x: FileChunkView)
    ensures
        spec_fc_entries_bytes(s.push(x)) =~= spec_fc_entries_bytes(s) + spec_fc_entry_bytes(x),
    decreases s.len(),
{
    reveal_with_fuel(spec_fc_entries_bytes, 3);
    if s.len() == 0 {
        assert(s.push(x) =~= seq![x]);
        assert(seq![x].drop_first() =~= Seq::<FileChunkView>::empty());
    } else {
        assert(s.push(x)[0] == s[0]);
        assert(s.push(x).drop_first() =~= s.drop_first().push(x));
        lemma_fc_entries_push(s.drop_first(), x);
    }
}

#[verifier::rlimit(100)]
#[verifier::spinoff_prover]
pub proof fn lemma_record_entries_push(s: Seq<FileRecordView>, x: FileRecordView)
    ensures
        spec_record_entries_bytes(s.push(x)) =~= spec_record_entries_bytes(s)
            + spec_record_entry_bytes(x),
    decreases s.len(),
{
    reveal_with_fuel(spec_record_entries_bytes, 3);
    if s.len() == 0 {
        assert(s.push(x) =~= seq![x]);
        assert(seq![x].drop_first() =~= Seq::<FileRecordView>::empty());
    } else {
        assert(s.push(x)[0] == s[0]);
        assert(s.push(x).drop_first() =~= s.drop_first().push(x));
        lemma_record_entries_push(s.drop_first(), x);
    }
}

#[verifier::rlimit(100)]
#[verifier::spinoff_prover]
pub proof fn lemma_symlink_entries_push(s: Seq<SymlinkView>, x: SymlinkView)
    ensures
        spec_symlink_entries_bytes(s.push(x)) =~= spec_symlink_entries_bytes(s)
            + spec_symlink_bytes(x),
    decreases s.len(),
{
    reveal_with_fuel(spec_symlink_entries_bytes, 3);
    if s.len() == 0 {
        assert(s.push(x) =~= seq![x]);
        assert(seq![x].drop_first() =~= Seq::<SymlinkView>::empty());
    } else {
        assert(s.push(x)[0] == s[0]);
        assert(s.push(x).drop_first() =~= s.drop_first().push(x));
        lemma_symlink_entries_push(s.drop_first(), x);
    }
}

/// Writes a whole manifest in the compact binary form.
#[verifier::rlimit(100)]
#[verifier::spinoff_prover]
pub fn encode_manifest(
    chunk_entries: &Vec<Chunk>,
    file_entries: &Vec<FileMetadata>,
    symlinks: &Vec<Symlink>,
) -> (r: Vec<u8>)
    requires
        manifest_encodable(
            chunk_map_views(chunk_entries@),
            file_entries@.map_values(|f: FileMetadata| f@),
            symlink_views(symlinks@),
        ),
    ensures
        r@ == spec_manifest_bytes(
            chunk_map_views(chunk_entries@),
            file_entries@.map_values(|f: FileMetadata| f@),
            symlink_views(symlinks@),
        ),
{
    proof {
        reveal_strlit("chunk_map");
        reveal_strlit("file_metadata_map");
        reveal_strlit("symlinks");
        broadcast use vstd::utf8::is_ascii_chars_encode_utf8;

        assert(vstd::utf8::is_ascii_chars("chunk_map"@));
        assert(vstd::utf8::is_ascii_chars("file_metadata_map"@));
        assert(vstd::utf8::is_ascii_chars("symlinks"@));
    }
    let ghost cvs = chunk_map_views(chunk_entries@);
    let ghost fvs = file_entries@.map_values(|f: FileMetadata| f@);
    let ghost lvs = symlink_views(symlinks@);
    let mut out: Vec<u8> = Vec::new();
    emit_map_header(&mut out, 3);
    emit_str(&mut out, "chunk_map");
    emit_map_header(&mut out, chunk_entries.len() as u32);
    let ghost m1 = out@;
    let mut i: usize = 0;
    proof {
        assert(cvs.take(0) =~= Seq::<ChunkView>::empty());
    }
    while i < chunk_entries.len()
        invariant
            i <= chunk_entries@.len(),
            cvs == chunk_map_views(chunk_entries@),
            chunks_encodable(cvs),
            cvs.len() == chunk_entries@.len(),
            out@ == m1 + spec_chunk_entries_bytes(cvs.take(i as int)),
        decreases chunk_entries@.len() - i,
    {
        proof {
            assert(cvs[i as int] == chunk_entries@[i as int]@);
            lemma_chunk_entries_push(cvs.take(i as int), cvs[i as int]);
            assert(cvs.take(i as int + 1) =~= cvs.take(i as int).push(cvs[i as int]));
        }
        emit_str(&mut out, chunk_entries[i].hash.as_str());
        emit_chunk(&mut out, &chunk_entries[i]);
        i += 1;
    }
    proof {
        assert(cvs.take(cvs.len() as int) =~= cvs);
    }
    emit_str(&mut out, "file_metadata_map");
    emit_map_header(&mut out, file_entries.len() as u32);
    let ghost m2 = out@;
    let mut i: usize = 0;
    proof {
        assert(fvs.take(0) =~= Seq::<FileRecordView>::empty());
    }
    while i < file_entries.len()
        invariant
            i <= file_entries@.len(),
            fvs == file_entries@.map_values(|f: FileMetadata| f@),
            records_encodable(fvs),
            fvs.len() == file_entries@.len(),
            out@ == m2 + spec_record_entries_bytes(fvs.take(i as int)),
        decreases file_entries@.len() - i,
    {
        proof {
            assert(fvs[i as int] == file_entries@[i as int]@);
            lemma_record_entries_push(fvs.take(i as int), fvs[i as int]);
            assert(fvs.take(i as int + 1) =~= fvs.take(i as int).push(fvs[i as int]));
        }
        emit_str(&mut out, file_entries[i].path.as_str());
        emit_record(&mut out, &file_entries[i]);
        i += 1;
    }
    proof {
        assert(fvs.take(fvs.len() as int) =~= fvs);
    }
    emit_str(&mut out, "symlinks");
    emit_array_header(&mut out, symlinks.len() as u32);
    let ghost m3 = out@;
    let mut i: usize = 0;
    proof {
        assert(lvs.take(0) =~= Seq::<SymlinkView>::empty());
    }
    while i < symlinks.len()
        invariant
            i <= symlinks@.len(),
            lvs == symlink_views(symlinks@),
            links_encodable(lvs),
            lvs.len() == symlinks@.len(),
            out@ == m3 + spec_symlink_entries_bytes(lvs.take(i as int)),
        decreases symlinks@.len() - i,
    {
        proof {
            assert(lvs[i as int] == symlinks@[i as int]@);
            lemma_symlink_entries_push(lvs.take(i as int), lvs[i as int]);
            assert(lvs.take(i as int + 1) =~= lvs.take(i as int).push(lvs[i as int]));
        }
        emit_symlink(&mut out, &symlinks[i]);
        i += 1;
    }
    proof {
        assert(lvs.take(lvs.len() as int) =~= lvs);
        assert(out@ =~= spec_manifest_bytes(cvs, fvs, lvs));
    }
    out
}

/// What reading one chunk record at `pos` yields.
pub open spec fn spec_parse_chunk(buf: Seq<u8>, pos: int) -> Option<(ChunkView, int)> {
    match spec_parse_header(buf, pos, TAG_MAP) {
        Some((n, p1)) => if n == 2 {
            match spec_parse_str(buf, p1) {
                Some((k1, p2)) => if k1 == "hash"@ {
                    match spec_parse_str(buf, p2) {
                        Some((h, p3)) => match spec_parse_str(buf, p3) {
                            Some((k2, p4)) => if k2 == "length"@ {
                                match spec_parse_uint(buf, p4) {
                                    Some((v, p5)) => if v <= usize::MAX as int {
                                        Some((ChunkView { hash: h, length: v as usize }, p5))
                                    } else {
                                        None
                                    },
                                    None => None,
                                }
                            } else {
                                None
                            },
                            None => None,
                        },
                        None => None,
                    }
                } else {
                    None
                },
                None => None,
            }
        } else {
            None
        },
        None => None,
    }
}

/// What reading one file chunk at `pos` yields.
pub open spec fn spec_parse_file_chunk(buf: Seq<u8>, pos: int) -> Option<(FileChunkView, int)> {
    match spec_parse_header(buf, pos, TAG_MAP) {
        Some((n, p1)) => if n == 3 {
            match spec_parse_str(buf, p1) {
                Some((k1, p2)) => if k1 == "hash"@ {
                    match spec_parse_str(buf, p2) {
                        Some((h, p3)) => match spec_parse_str(buf, p3) {
                            Some((k2, p4)) => if k2 == "offset"@ {
                                match spec_parse_uint(buf, p4) {
                                    Some((off, p5)) => match spec_parse_str(buf, p5) {
                                        Some((k3, p6)) => if k3 == "length"@ {
                                            match spec_parse_uint(buf, p6) {
                                                Some((v, p7)) => if v <= usize::MAX as int {
                                                    Some(
                                                        (
                                                            FileChunkView {
                                                                hash: h,
                                                                offset: off as u64,
                                                                length: v as usize,
                                                            },
                                                            p7,
                                                        ),
                                                    )
                                                } else {
                                                    None
                                                },
                                                None => None,
                                            }
                                        } else {
                                            None
                                        },
                                        None => None,
                                    },
                                    None => None,
                                }
                            } else {
                                None
                            },
                            None => None,
                        },
                        None => None,
                    }
                } else {
                    None
                },
                None => None,
            }
        } else {
            None
        },
        None => None,
    }
}

/// What reading `n` record-chunk entries at `pos` yields.
pub open spec fn spec_parse_fc_entries(buf: Seq<u8>, pos: int, n: int) -> Option<
    (Seq<FileChunkView>, int),
>
    decreases n,
{
    if n <= 0 {
        Some((Seq::empty(), pos))
    } else {
        match spec_parse_str(buf, pos) {
            Some((k, p1)) => match spec_parse_file_chunk(buf, p1) {
                Some((c, p2)) => if c.hash == k {
                    match spec_parse_fc_entries(buf, p2, n - 1) {
                        Some((rest, p3)) => Some((seq![c] + rest, p3)),
                        None => None,
                    }
                } else {
                    None
                },
                None => None,
            },
            None => None,
        }
    }
}

/// What reading one file record at `pos` yields.
pub open spec fn spec_parse_record(buf: Seq<u8>, pos: int) -> Option<(FileRecordView, int)> {
    match spec_parse_header(buf, pos, TAG_MAP) {
        Some((n, p1)) => if n == 2 {
            match spec_parse_str(buf, p1) {
                Some((k1, p2)) => if k1 == "path"@ {
                    match spec_parse_str(buf, p2) {
                        Some((path, p3)) => match spec_parse_str(buf, p3) {
                            Some((k2, p4)) => if k2 == "chunks"@ {
                                match spec_parse_header(buf, p4, TAG_MAP) {
                                    Some((m, p5)) => match spec_parse_fc_entries(buf, p5, m) {
                                        Some((chunks, p6)) => Some(
                                            (FileRecordView { path, chunks }, p6),
                                        ),
                                        None => None,
                                    },
                                    None => None,
                                }
                            } else {
                                None
                            },
                            None => None,
                        },
                        None => None,
                    }
                } else {
                    None
                },
                None => None,
            }
        } else {
            None
        },
        None => None,
    }
}

/// What reading one symbolic link at `pos` yields.
pub open spec fn spec_parse_symlink(buf: Seq<u8>, pos: int) -> Option<(SymlinkView, int)> {
    match spec_parse_header(buf, pos, TAG_MAP) {
        Some((n, p1)) => if n == 2 {
            match spec_parse_str(buf, p1) {
                Some((k1, p2)) => if k1 == "from"@ {
                    match spec_parse_str(buf, p2) {
                        Some((from, p3)) => match spec_parse_str(buf, p3) {
                            Some((k2, p4)) => if k2 == "to"@ {
                                match spec_parse_str(buf, p4) {
                                    Some((to, p5)) => Some((SymlinkView { from, to }, p5)),
                                    None => None,
                                }
                            } else {
                                None
                            },
                            None => None,
                        },
                        None => None,
                    }
                } else {
                    None
                },
                None => None,
            }
        } else {
            None
        },
        None => None,
    }
}

/// What reading `n` chunk-index entries at `pos` yields.
pub open spec fn spec_parse_chunk_entries(buf: Seq<u8>, pos: int, n: int) -> Option<
    (Seq<ChunkView>, int),
>
    decreases n,
{
    if n <= 0 {
        Some((Seq::empty(), pos))
    } else {
        match spec_parse_str(buf, pos) {
            Some((k, p1)) => match spec_parse_chunk(buf, p1) {
                Some((c, p2)) => if c.hash == k {
                    match spec_parse_chunk_entries(buf, p2, n - 1) {
                        Some((rest, p3)) => Some((seq![c] + rest, p3)),
                        None => None,
                    }
                } else {
                    None
                },
                None => None,
            },
            None => None,
        }
    }
}

/// What reading `n` file-map entries at `pos` yields.
pub open spec fn spec_parse_record_entries(buf: Seq<u8>, pos: int, n: int) -> Option<
    (Seq<FileRecordView>, int),
>
    decreases n,
{
    if n <= 0 {
        Some((Seq::empty(), pos))
    } else {
        match spec_parse_str(buf, pos) {
            Some((k, p1)) => match spec_parse_record(buf, p1) {
                Some((r, p2)) => if r.path == k {
                    match spec_parse_record_entries(buf, p2, n - 1) {
                        Some((rest, p3)) => Some((seq![r] + rest, p3)),
                        None => None,
                    }
                } else {
                    None
                },
                None => None,
            },
            None => None,
        }
    }
}

/// What reading `n` symlink entries at `pos` yields.
pub open spec fn spec_parse_symlink_entries(buf: Seq<u8>, pos: int, n: int) -> Option<
    (Seq<SymlinkView>, int),
>
    decreases n,
{
    if n <= 0 {
        Some((Seq::empty(), pos))
    } else {
        match spec_parse_symlink(buf, pos) {
            Some((l, p1)) => match spec_parse_symlink_entries(buf, p1, n - 1) {
                Some((rest, p2)) => Some((seq![l] + rest, p2)),
                None => None,
            },
            None => None,
        }
    }
}

/// What reading a whole manifest at `pos` yields.
pub open spec fn spec_parse_manifest(buf: Seq<u8>, pos: int) -> Option<
    ((Seq<ChunkView>, Seq<FileRecordView>, Seq<SymlinkView>), int),
> {
    match spec_parse_header(buf, pos, TAG_MAP) {
        Some((n, p1)) => if n == 3 {
            match spec_parse_str(buf, p1) {
                Some((k1, p2)) => if k1 == "chunk_map"@ {
                    match spec_parse_header(buf, p2, TAG_MAP) {
                        Some((cn, p3)) => match spec_parse_chunk_entries(buf, p3, cn) {
                            Some((chunks, p4)) => match spec_parse_str(buf, p4) {
                                Some((k2, p5)) => if k2 == "file_metadata_map"@ {
                                    match spec_parse_header(buf, p5, TAG_MAP) {
                                        Some((fnn, p6)) => match spec_parse_record_entries(
                                            buf,
                                            p6,
                                            fnn,
                                        ) {
                                            Some((files, p7)) => match spec_parse_str(buf, p7) {
                                                Some((k3, p8)) => if k3 == "symlinks"@ {
                                                    match spec_parse_header(buf, p8, TAG_ARRAY) {
                                                        Some((ln, p9)) => match spec_parse_symlink_entries(
                                                            buf,
                                                            p9,
                                                            ln,
                                                        ) {
                                                            Some((links, p10)) => Some(
                                                                ((chunks, files, links), p10),
                                                            ),
                                                            None => None,
                                                        },
                                                        None => None,
                                                    }
                                                } else {
                                                    None
                                                },
                                                None => None,
                                            },
                                            None => None,
                                        },
                                        None => None,
                                    }
                                } else {
                                    None
                                },
                                None => None,
                            },
                            None => None,
                        },
                        None => None,
                    }
                } else {
                    None
                },
                None => None,
            }
        } else {
            None
        },
        None => None,
    }
}

/// Whether a string equals the given literal.
pub(crate) fn key_eq(k: &String, lit: &str) -> (r: bool)
    ensures
        r == (k@ == lit@),
{
    let l = lit.to_owned();
    *k == l
}

/// Reads one chunk record.
#[verifier::rlimit(100)]
#[verifier::spinoff_prover]
fn take_chunk(buf: &Vec<u8>, pos: usize) -> (r: Option<(Chunk, usize)>)
    ensures
        match r {
            Some(p) => spec_parse_chunk(buf@, pos as int) == Some((p.0@, p.1 as int)) && p.1
                <= buf@.len(),
            None => spec_parse_chunk(buf@, pos as int) is None,
        },
{
    let (n, p1) = match take_header(buf, pos, TAG_MAP) {
        Some(x) => x,
        None => {
            return None;
        },
    };
    if n != 2 {
        return None;
    }
    let (k1, p2) = match take_str(buf, p1) {
        Some(x) => x,
        None => {
            return None;
        },
    };
    if !key_eq(&k1, "hash") {
        return None;
    }
    let (h, p3) = match take_str(buf, p2) {
        Some(x) => x,
        None => {
            return None;
        },
    };
    let (k2, p4) = match take_str(buf, p3) {
        Some(x) => x,
        None => {
            return None;
        },
    };
    if !key_eq(&k2, "length") {
        return None;
    }
    let (v, p5) = match take_uint(buf, p4) {
        Some(x) => x,
        None => {
            return None;
        },
    };
    if v > usize::MAX as u64 {
        return None;
    }
    Some((Chunk { hash: h, length: v as usize }, p5))
}

/// Reads one file chunk.
#[verifier::rlimit(100)]
#[verifier::spinoff_prover]
fn take_file_chunk(buf: &Vec<u8>, pos: usize) -> (r: Option<(FileChunk, usize)>)
    ensures
        match r {
            Some(p) => spec_parse_file_chunk(buf@, pos as int) == Some((p.0@, p.1 as int)) && p.1
                <= buf@.len(),
            None => spec_parse_file_chunk(buf@, pos as int) is None,
        },
{
    let (n, p1) = match take_header(buf, pos, TAG_MAP) {
        Some(x) => x,
        None => {
            return None;
        },
    };
    if n != 3 {
        return None;
    }
    let (k1, p2) = match take_str(buf, p1) {
        Some(x) => x,
        None => {
            return None;
        },
    };
    if !key_eq(&k1, "hash") {
        return None;
    }
    let (h, p3) = match take_str(buf, p2) {
        Some(x) => x,
        None => {
            return None;
        },
    };
    let (k2, p4) = match take_str(buf, p3) {
        Some(x) => x,
        None => {
            return None;
        },
    };
    if !key_eq(&k2, "offset") {
        return None;
    }
    let (off, p5) = match take_uint(buf, p4) {
        Some(x) => x,
        None => {
            return None;
        },
    };
    let (k3, p6) = match take_str(buf, p5) {
        Some(x) => x,
        None => {
            return None;
        },
    };
    if !key_eq(&k3, "length") {
        return None;
    }
    let (v, p7) = match take_uint(buf, p6) {
        Some(x) => x,
        None => {
            return None;
        },
    };
    if v > usize::MAX as u64 {
        return None;
    }
    Some((FileChunk { hash: h, offset: off, length: v as usize }, p7))
}

/// Reads one symbolic link.
#[verifier::rlimit(100)]
#[verifier::spinoff_prover]
fn take_symlink(buf: &Vec<u8>, pos: usize) -> (r: Option<(Symlink, usize)>)
    ensures
        match r {
            Some(p) => spec_parse_symlink(buf@, pos as int) == Some((p.0@, p.1 as int)) && p.1
                <= buf@.len(),
            None => spec_parse_symlink(buf@, pos as int) is None,
        },
{
    let (n, p1) = match take_header(buf, pos, TAG_MAP) {
        Some(x) => x,
        None => {
            return None;
        },
    };
    if n != 2 {
        return None;
    }
    let (k1, p2) = match take_str(buf, p1) {
        Some(x) => x,
        None => {
            return None;
        },
    };
    if !key_eq(&k1, "from") {
        return None;
    }
    let (from, p3) = match take_str(buf, p2) {
        Some(x) => x,
        None => {
            return None;
        },
    };
    let (k2, p4) = match take_str(buf, p3) {
        Some(x) => x,
        None => {
            return None;
        },
    };
    if !key_eq(&k2, "to") {
        return None;
    }
    let (to, p5) = match take_str(buf, p4) {
        Some(x) => x,
        None => {
            return None;
        },
    };
    Some((Symlink { from, to }, p5))
}

/// Reads `n` chunk-index entries.
#[verifier::rlimit(100)]
#[verifier::spinoff_prover]
fn take_chunk_entries(buf: &Vec<u8>, pos: usize, n: u32) -> (r: Option<(Vec<Chunk>, usize)>)
    ensures
        match r {
            Some(p) => spec_parse_chunk_entries(buf@, pos as int, n as int) == Some(
                (chunk_map_views(p.0@), p.1 as int),
            ),
            None => spec_parse_chunk_entries(buf@, pos as int, n as int) is None,
        },
{
    let mut acc: Vec<Chunk> = Vec::new();
    let mut cur: usize = pos;
    let mut i: u32 = 0;
    proof {
        assert(chunk_map_views(acc@) =~= Seq::<ChunkView>::empty());
    }
    while i < n
        invariant
            i <= n,
            i > 0 ==> cur <= buf@.len(),
            spec_parse_chunk_entries(buf@, pos as int, n as int) == (match spec_parse_chunk_entries(
                buf@,
                cur as int,
                (n - i) as int,
            ) {
                Some(p) => Some((chunk_map_views(acc@) + p.0, p.1)),
                None => None::<(Seq<ChunkView>, int)>,
            }),
        decreases n - i,
    {
        let (k, p1) = match take_str(buf, cur) {
            Some(x) => x,
            None => {
                return None;
            },
        };
        let (c, p2) = match take_chunk(buf, p1) {
            Some(x) => x,
            None => {
                return None;
            },
        };
        if !(k == c.hash) {
            return None;
        }
        proof {
            let inner = spec_parse_chunk_entries(buf@, p2 as int, (n - i - 1) as int);
            if inner is Some {
                let pair = inner->Some_0;
                assert(chunk_map_views(acc@) + (seq![c@] + pair.0) =~= chunk_map_views(
                    acc@.push(c),
                ) + pair.0);
            }
        }
        acc.push(c);
        cur = p2;
        i += 1;
    }
    proof {
        assert(chunk_map_views(acc@) + Seq::<ChunkView>::empty() =~= chunk_map_views(acc@));
    }
    Some((acc, cur))
}

/// Reads `n` record-chunk entries.
#[verifier::rlimit(100)]
#[verifier::spinoff_prover]
fn take_fc_entries(buf: &Vec<u8>, pos: usize, n: u32) -> (r: Option<(Vec<FileChunk>, usize)>)
    ensures
        match r {
            Some(p) => spec_parse_fc_entries(buf@, pos as int, n as int) == Some(
                (chunk_views(p.0@), p.1 as int),
            ),
            None => spec_parse_fc_entries(buf@, pos as int, n as int) is None,
        },
{
    let mut acc: Vec<FileChunk> = Vec::new();
    let mut cur: usize = pos;
    let mut i: u32 = 0;
    proof {
        assert(chunk_views(acc@) =~= Seq::<FileChunkView>::empty());
    }
    while i < n
        invariant
            i <= n,
            i > 0 ==> cur <= buf@.len(),
            spec_parse_fc_entries(buf@, pos as int, n as int) == (match spec_parse_fc_entries(
                buf@,
                cur as int,
                (n - i) as int,
            ) {
                Some(p) => Some((chunk_views(acc@) + p.0, p.1)),
                None => None::<(Seq<FileChunkView>, int)>,
            }),
        decreases n - i,
    {
        let (k, p1) = match take_str(buf, cur) {
            Some(x) => x,
            None => {
                return None;
            },
        };
        let (c, p2) = match take_file_chunk(buf, p1) {
            Some(x) => x,
            None => {
                return None;
            },
        };
        if !(k == c.hash) {
            return None;
        }
        proof {
            let inner = spec_parse_fc_entries(buf@, p2 as int, (n - i - 1) as int);
            if inner is Some {
                let pair = inner->Some_0;
                assert(chunk_views(acc@) + (seq![c@] + pair.0) =~= chunk_views(acc@.push(c))
                    + pair.0);
            }
        }
        acc.push(c);
        cur = p2;
        i += 1;
    }
    proof {
        assert(chunk_views(acc@) + Seq::<FileChunkView>::empty() =~= chunk_views(acc@));
    }
    Some((acc, cur))
}

/// Reads one file record.
#[verifier::rlimit(100)]
#[verifier::spinoff_prover]
fn take_record(buf: &Vec<u8>, pos: usize) -> (r: Option<(FileMetadata, usize)>)
    ensures
        match r {
            Some(p) => spec_parse_record(buf@, pos as int) == Some((p.0@, p.1 as int)),
            None => spec_parse_record(buf@, pos as int) is None,
        },
{
    let (n, p1) = match take_header(buf, pos, TAG_MAP) {
        Some(x) => x,
        None => {
            return None;
        },
    };
    if n != 2 {
        return None;
    }
    let (k1, p2) = match take_str(buf, p1) {
        Some(x) => x,
        None => {
            return None;
        },
    };
    if !key_eq(&k1, "path") {
        return None;
    }
    let (path, p3) = match take_str(buf, p2) {
        Some(x) => x,
        None => {
            return None;
        },
    };
    let (k2, p4) = match take_str(buf, p3) {
        Some(x) => x,
        None => {
            return None;
        },
    };
    if !key_eq(&k2, "chunks") {
        return None;
    }
    let (m, p5) = match take_header(buf, p4, TAG_MAP) {
        Some(x) => x,
        None => {
            return None;
        },
    };
    let (chunks, p6) = match take_fc_entries(buf, p5, m) {
        Some(x) => x,
        None => {
            return None;
        },
    };
    Some((FileMetadata { path, chunks }, p6))
}

/// Reads `n` file-map entries.
#[verifier::rlimit(100)]
#[verifier::spinoff_prover]
fn take_record_entries(buf: &Vec<u8>, pos: usize, n: u32) -> (r: Option<(Vec<FileMetadata>, usize)>)
    ensures
        match r {
            Some(p) => spec_parse_record_entries(buf@, pos as int, n as int) == Some(
                (p.0@.map_values(|f: FileMetadata| f@), p.1 as int),
            ),
            None => spec_parse_record_entries(buf@, pos as int, n as int) is None,
        },
{
    let mut acc: Vec<FileMetadata> = Vec::new();
    let mut cur: usize = pos;
    let mut i: u32 = 0;
    proof {
        assert(acc@.map_values(|f: FileMetadata| f@) =~= Seq::<FileRecordView>::empty());
    }
    while i < n
        invariant
            i <= n,
            spec_parse_record_entries(buf@, pos as int, n as int) == (match spec_parse_record_entries(
                buf@,
                cur as int,
                (n - i) as int,
            ) {
                Some(p) => Some((acc@.map_values(|f: FileMetadata| f@) + p.0, p.1)),
                None => None::<(Seq<FileRecordView>, int)>,
            }),
        decreases n - i,
    {
        let (k, p1) = match take_str(buf, cur) {
            Some(x) => x,
            None => {
                return None;
            },
        };
        let (fm, p2) = match take_record(buf, p1) {
            Some(x) => x,
            None => {
                return None;
            },
        };
        if !(k == fm.path) {
            return None;
        }
        proof {
            let inner = spec_parse_record_entries(buf@, p2 as int, (n - i - 1) as int);
            if inner is Some {
                let pair = inner->Some_0;
                assert(acc@.map_values(|f: FileMetadata| f@) + (seq![fm@] + pair.0) =~= acc@.push(
                    fm,
                ).map_values(|f: FileMetadata| f@) + pair.0);
            }
        }
        acc.push(fm);
        cur = p2;
        i += 1;
    }
    proof {
        assert(acc@.map_values(|f: FileMetadata| f@) + Seq::<FileRecordView>::empty()
            =~= acc@.map_values(|f: FileMetadata| f@));
    }
    Some((acc, cur))
}

/// Reads `n` symlink entries.
#[verifier::rlimit(100)]
#[verifier::spinoff_prover]
fn take_symlink_entries(buf: &Vec<u8>, pos: usize, n: u32) -> (r: Option<(Vec<Symlink>, usize)>)
    ensures
        match r {
            Some(p) => spec_parse_symlink_entries(buf@, pos as int, n as int) == Some(
                (symlink_views(p.0@), p.1 as int),
            ),
            None => spec_parse_symlink_entries(buf@, pos as int, n as int) is None,
        },
{
    let mut acc: Vec<Symlink> = Vec::new();
    let mut cur: usize = pos;
    let mut i: u32 = 0;
    proof {
        assert(symlink_views(acc@) =~= Seq::<SymlinkView>::empty());
    }
    while i < n
        invariant
            i <= n,
            i > 0 ==> cur <= buf@.len(),
            spec_parse_symlink_entries(buf@, pos as int, n as int) == (match spec_parse_symlink_entries(
                buf@,
                cur as int,
                (n - i) as int,
            ) {
                Some(p) => Some((symlink_views(acc@) + p.0, p.1)),
                None => None::<(Seq<SymlinkView>, int)>,
            }),
        decreases n - i,
    {
        let (l, p1) = match take_symlink(buf, cur) {
            Some(x) => x,
            None => {
                return None;
            },
        };
        proof {
            let inner = spec_parse_symlink_entries(buf@, p1 as int, (n - i - 1) as int);
            if inner is Some {
                let pair = inner->Some_0;
                assert(symlink_views(acc@) + (seq![l@] + pair.0) =~= symlink_views(acc@.push(l))
                    + pair.0);
            }
        }
        acc.push(l);
        cur = p1;
        i += 1;
    }
    proof {
        assert(symlink_views(acc@) + Seq::<SymlinkView>::empty() =~= symlink_views(acc@));
    }
    Some((acc, cur))
}

/// Reads a whole manifest from the compact binary form.  The reader
/// accepts exactly the canonical encoding this crate writes (fixed-width
/// tags and lengths); other, more compact encodings of the same schema are
/// treated as not this form.
#[verifier::rlimit(100)]
#[verifier::spinoff_prover]
pub fn decode_manifest(buf: &Vec<u8>) -> (r: Option<(Vec<Chunk>, Vec<FileMetadata>, Vec<Symlink>)>)
    ensures
        match r {
            Some(p) => match spec_parse_manifest(buf@, 0) {
                Some(q) => q.0.0 == chunk_map_views(p.0@) && q.0.1 == p.1@.map_values(
                    |f: FileMetadata| f@,
                ) && q.0.2 == symlink_views(p.2@),
                None => false,
            },
            None => spec_parse_manifest(buf@, 0) is None,
        },
{
    let (n, p1) = match take_header(buf, 0, TAG_MAP) {
        Some(x) => x,
        None => {
            return None;
        },
    };
    if n != 3 {
        return None;
    }
    let (k1, p2) = match take_str(buf, p1) {
        Some(x) => x,
        None => {
            return None;
        },
    };
    if !key_eq(&k1, "chunk_map") {
        return None;
    }
    let (cn, p3) = match take_header(buf, p2, TAG_MAP) {
        Some(x) => x,
        None => {
            return None;
        },
    };
    let (chunks, p4) = match take_chunk_entries(buf, p3, cn) {
        Some(x) => x,
        None => {
            return None;
        },
    };
    let (k2, p5) = match take_str(buf, p4) {
        Some(x) => x,
        None => {
            return None;
        },
    };
    if !key_eq(&k2, "file_metadata_map") {
        return None;
    }
    let (fnn, p6) = match take_header(buf, p5, TAG_MAP) {
        Some(x) => x,
        None => {
            return None;
        },
    };
    let (files, p7) = match take_record_entries(buf, p6, fnn) {
        Some(x) => x,
        None => {
            return None;
        },
    };
    let (k3, p8) = match take_str(buf, p7) {
        Some(x) => x,
        None => {
            return None;
        },
    };
    if !key_eq(&k3, "symlinks") {
        return None;
    }
    let (ln, p9) = match take_header(buf, p8, TAG_ARRAY) {
        Some(x) => x,
        None => {
            return None;
        },
    };
    let (links, _p10) = match take_symlink_entries(buf, p9, ln) {
        Some(x) => x,
        None => {
            return None;
        },
    };
    Some((chunks, files, links))
}

/// A slice holding a concatenation splits at the seam.
pub proof fn lemma_split_at(buf: Seq<u8>, pos: int, a: Seq<u8>, b: Seq<u8>)
    requires
        0 <= pos,
        pos + a.len() + b.len() <= buf.len(),
        buf.subrange(pos, pos + a.len() + b.len()) == a + b,
    ensures
        buf.subrange(pos, pos + a.len() as int) == a,
        buf.subrange(pos + a.len() as int, pos + a.len() + b.len()) == b,
{
    assert(buf.subrange(pos, pos + a.len() as int) =~= a) by {
        assert forall|q: int| 0 <= q < a.len() implies buf.subrange(pos, pos + a.len() as int)[q]
            == a[q] by {
            assert(buf.subrange(pos, pos + a.len() + b.len())[q] == buf[pos + q]);
        }
    }
    assert(buf.subrange(pos + a.len() as int, pos + a.len() + b.len()) =~= b) by {
        assert forall|q: int| 0 <= q < b.len() implies buf.subrange(
            pos + a.len() as int,
            pos + a.len() + b.len(),
        )[q] == b[q] by {
            assert(buf.subrange(pos, pos + a.len() + b.len())[q + a.len()] == buf[pos + a.len()
                + q]);
        }
    }
}

/// The field names are short ASCII strings.
proof fn lemma_keys_encodable()
    ensures
        str_encodable("hash"@) && encode_utf8("hash"@).len() == 4,
        str_encodable("length"@) && encode_utf8("length"@).len() == 6,
        str_encodable("offset"@) && encode_utf8("offset"@).len() == 6,
        str_encodable("path"@) && encode_utf8("path"@).len() == 4,
        str_encodable("chunks"@) && encode_utf8("chunks"@).len() == 6,
        str_encodable("from"@) && encode_utf8("from"@).len() == 4,
        str_encodable("to"@) && encode_utf8("to"@).len() == 2,
        str_encodable("chunk_map"@) && encode_utf8("chunk_map"@).len() == 9,
        str_encodable("file_metadata_map"@) && encode_utf8("file_metadata_map"@).len() == 17,
        str_encodable("symlinks"@) && encode_utf8("symlinks"@).len() == 8,
{
    reveal_strlit("hash");
    reveal_strlit("length");
    reveal_strlit("offset");
    reveal_strlit("path");
    reveal_strlit("chunks");
    reveal_strlit("from");
    reveal_strlit("to");
    reveal_strlit("chunk_map");
    reveal_strlit("file_metadata_map");
    reveal_strlit("symlinks");
    broadcast use vstd::utf8::is_ascii_chars_encode_utf8;

    assert(vstd::utf8::is_ascii_chars("hash"@));
    assert(vstd::utf8::is_ascii_chars("length"@));
    assert(vstd::utf8::is_ascii_chars("offset"@));
    assert(vstd::utf8::is_ascii_chars("path"@));
    assert(vstd::utf8::is_ascii_chars("chunks"@));
    assert(vstd::utf8::is_ascii_chars("from"@));
    assert(vstd::utf8::is_ascii_chars("to"@));
    assert(vstd::utf8::is_ascii_chars("chunk_map"@));
    assert(vstd::utf8::is_ascii_chars("file_metadata_map"@));
    assert(vstd::utf8::is_ascii_chars("symlinks"@));
}

/// Reading a header's serial form, stated over the named header shapes.
proof fn lemma_parse_map_header_of(buf: Seq<u8>, pos: int, n: int)
    requires
        0 <= pos,
        0 <= n < 0x100000000,
        pos + 5 <= buf.len(),
        buf.subrange(pos, pos + 5) == spec_map_header(n),
    ensures
        spec_parse_header(buf, pos, TAG_MAP) == Some((n, pos + 5)),
{
    lemma_parse_header_of(buf, pos, n, TAG_MAP);
}

proof fn lemma_parse_array_header_of(buf: Seq<u8>, pos: int, n: int)
    requires
        0 <= pos,
        0 <= n < 0x100000000,
        pos + 5 <= buf.len(),
        buf.subrange(pos, pos + 5) == spec_array_header(n),
    ensures
        spec_parse_header(buf, pos, TAG_ARRAY) == Some((n, pos + 5)),
{
    lemma_parse_header_of(buf, pos, n, TAG_ARRAY);
}

/// Reading one chunk record's serial form yields the record.
proof fn lemma_parse_chunk_of(buf: Seq<u8>, pos: int, c: ChunkView)
    requires
        0 <= pos,
        str_encodable(c.hash),
        pos + spec_chunk_bytes(c).len() <= buf.len(),
        buf.subrange(pos, pos + spec_chunk_bytes(c).len() as int) == spec_chunk_bytes(c),
    ensures
        spec_parse_chunk(buf, pos) == Some((c, pos + spec_chunk_bytes(c).len() as int)),
{
    lemma_keys_encodable();
    let h = spec_map_header(2);
    let k1 = spec_str_bytes("hash"@);
    let s1 = spec_str_bytes(c.hash);
    let k2 = spec_str_bytes("length"@);
    let u = spec_uint_bytes(c.length as int);
    let whole = spec_chunk_bytes(c);
    assert(whole == h + k1 + s1 + k2 + u);
    assert(h + k1 + s1 + k2 + u =~= ((h + k1 + s1 + k2) + u));
    lemma_split_at(buf, pos, h + k1 + s1 + k2, u);
    assert(h + k1 + s1 + k2 =~= ((h + k1 + s1) + k2));
    lemma_split_at(buf, pos, h + k1 + s1, k2);
    assert(h + k1 + s1 =~= ((h + k1) + s1));
    lemma_split_at(buf, pos, h + k1, s1);
    lemma_split_at(buf, pos, h, k1);
    lemma_parse_map_header_of(buf, pos, 2);
    lemma_parse_str_of(buf, pos + 5, "hash"@);
    lemma_parse_str_of(buf, pos + 5 + k1.len(), c.hash);
    lemma_parse_str_of(buf, pos + 5 + k1.len() + s1.len(), "length"@);
    lemma_parse_uint_of(buf, pos + 5 + k1.len() + s1.len() + k2.len(), c.length as int);
}

/// Reading one file chunk's serial form yields the chunk.
#[verifier::rlimit(100)]
#[verifier::spinoff_prover]
proof fn lemma_parse_file_chunk_of(buf: Seq<u8>, pos: int, c: FileChunkView)
    requires
        0 <= pos,
        str_encodable(c.hash),
        pos + spec_file_chunk_bytes(c).len() <= buf.len(),
        buf.subrange(pos, pos + spec_file_chunk_bytes(c).len() as int) == spec_file_chunk_bytes(c),
    ensures
        spec_parse_file_chunk(buf, pos) == Some((c, pos + spec_file_chunk_bytes(c).len() as int)),
{
    lemma_keys_encodable();
    let h = spec_map_header(3);
    let k1 = spec_str_bytes("hash"@);
    let s1 = spec_str_bytes(c.hash);
    let k2 = spec_str_bytes("offset"@);
    let u1 = spec_uint_bytes(c.offset as int);
    let k3 = spec_str_bytes("length"@);
    let u2 = spec_uint_bytes(c.length as int);
    let whole = spec_file_chunk_bytes(c);
    assert(whole == h + k1 + s1 + k2 + u1 + k3 + u2);
    assert(h + k1 + s1 + k2 + u1 + k3 + u2 =~= ((h + k1 + s1 + k2 + u1 + k3) + u2));
    lemma_split_at(buf, pos, h + k1 + s1 + k2 + u1 + k3, u2);
    assert(h + k1 + s1 + k2 + u1 + k3 =~= ((h + k1 + s1 + k2 + u1) + k3));
    lemma_split_at(buf, pos, h + k1 + s1 + k2 + u1, k3);
    assert(h + k1 + s1 + k2 + u1 =~= ((h + k1 + s1 + k2) + u1));
    lemma_split_at(buf, pos, h + k1 + s1 + k2, u1);
    assert(h + k1 + s1 + k2 =~= ((h + k1 + s1) + k2));
    lemma_split_at(buf, pos, h + k1 + s1, k2);
    assert(h + k1 + s1 =~= ((h + k1) + s1));
    lemma_split_at(buf, pos, h + k1, s1);
    lemma_split_at(buf, pos, h, k1);
    lemma_parse_map_header_of(buf, pos, 3);
    lemma_parse_str_of(buf, pos + 5, "hash"@);
    lemma_parse_str_of(buf, pos + 5 + k1.len(), c.hash);
    lemma_parse_str_of(buf, pos + 5 + k1.len() + s1.len(), "offset"@);
    lemma_parse_uint_of(buf, pos + 5 + k1.len() + s1.len() + k2.len(), c.offset as int);
    lemma_parse_str_of(buf, pos + 5 + k1.len() + s1.len() + k2.len() + 9, "length"@);
    lemma_parse_uint_of(
        buf,
        pos + 5 + k1.len() + s1.len() + k2.len() + 9 + k3.len(),
        c.length as int,
    );
}

/// Reading one symbolic link's serial form yields the link.
proof fn lemma_parse_symlink_of(buf: Seq<u8>, pos: int, l: SymlinkView)
    requires
        0 <= pos,
        str_encodable(l.from),
        str_encodable(l.to),
        pos + spec_symlink_bytes(l).len() <= buf.len(),
        buf.subrange(pos, pos + spec_symlink_bytes(l).len() as int) == spec_symlink_bytes(l),
    ensures
        spec_parse_symlink(buf, pos) == Some((l, pos + spec_symlink_bytes(l).len() as int)),
{
    lemma_keys_encodable();
    let h = spec_map_header(2);
    let k1 = spec_str_bytes("from"@);
    let s1 = spec_str_bytes(l.from);
    let k2 = spec_str_bytes("to"@);
    let s2 = spec_str_bytes(l.to);
    let whole = spec_symlink_bytes(l);
    assert(whole == h + k1 + s1 + k2 + s2);
    assert(h + k1 + s1 + k2 + s2 =~= ((h + k1 + s1 + k2) + s2));
    lemma_split_at(buf, pos, h + k1 + s1 + k2, s2);
    assert(h + k1 + s1 + k2 =~= ((h + k1 + s1) + k2));
    lemma_split_at(buf, pos, h + k1 + s1, k2);
    assert(h + k1 + s1 =~= ((h + k1) + s1));
    lemma_split_at(buf, pos, h + k1, s1);
    lemma_split_at(buf, pos, h, k1);
    lemma_parse_map_header_of(buf, pos, 2);
    lemma_parse_str_of(buf, pos + 5, "from"@);
    lemma_parse_str_of(buf, pos + 5 + k1.len(), l.from);
    lemma_parse_str_of(buf, pos + 5 + k1.len() + s1.len(), "to"@);
    lemma_parse_str_of(buf, pos + 5 + k1.len() + s1.len() + k2.len(), l.to);
}

/// Reading the chunk entries' serial form yields the entries.
#[verifier::rlimit(100)]
#[verifier::spinoff_prover]
proof fn lemma_parse_chunk_entries_of(buf: Seq<u8>, pos: int, s: Seq<ChunkView>)
    requires
        0 <= pos,
        forall|i: int| 0 <= i < s.len() ==> str_encodable((#[trigger] s[i]).hash),
        pos + spec_chunk_entries_bytes(s).len() <= buf.len(),
        buf.subrange(pos, pos + spec_chunk_entries_bytes(s).len() as int)
            == spec_chunk_entries_bytes(s),
    ensures
        spec_parse_chunk_entries(buf, pos, s.len() as int) == Some(
            (s, pos + spec_chunk_entries_bytes(s).len() as int),
        ),
    decreases s.len(),
{
    if s.len() == 0 {
        assert(s =~= Seq::<ChunkView>::empty());
    } else {
        let key = spec_str_bytes(s[0].hash);
        let body = spec_chunk_bytes(s[0]);
        let rest = spec_chunk_entries_bytes(s.drop_first());
        assert(spec_chunk_entries_bytes(s) == (key + body) + rest);
        lemma_split_at(buf, pos, key + body, rest);
        lemma_split_at(buf, pos, key, body);
        lemma_parse_str_of(buf, pos, s[0].hash);
        lemma_parse_chunk_of(buf, pos + key.len(), s[0]);
        lemma_parse_chunk_entries_of(buf, pos + key.len() + body.len(), s.drop_first());
        assert(seq![s[0]] + s.drop_first() =~= s);
    }
}

/// Reading the record-chunk entries' serial form yields the entries.
#[verifier::rlimit(100)]
#[verifier::spinoff_prover]
proof fn lemma_parse_fc_entries_of(buf: Seq<u8>, pos: int, s: Seq<FileChunkView>)
    requires
        0 <= pos,
        forall|i: int| 0 <= i < s.len() ==> str_encodable((#[trigger] s[i]).hash),
        pos + spec_fc_entries_bytes(s).len() <= buf.len(),
        buf.subrange(pos, pos + spec_fc_entries_bytes(s).len() as int) == spec_fc_entries_bytes(s),
    ensures
        spec_parse_fc_entries(buf, pos, s.len() as int) == Some(
            (s, pos + spec_fc_entries_bytes(s).len() as int),
        ),
    decreases s.len(),
{
    if s.len() == 0 {
        assert(s =~= Seq::<FileChunkView>::empty());
    } else {
        let key = spec_str_bytes(s[0].hash);
        let body = spec_file_chunk_bytes(s[0]);
        let rest = spec_fc_entries_bytes(s.drop_first());
        assert(spec_fc_entries_bytes(s) == (key + body) + rest);
        lemma_split_at(buf, pos, key + body, rest);
        lemma_split_at(buf, pos, key, body);
        lemma_parse_str_of(buf, pos, s[0].hash);
        lemma_parse_file_chunk_of(buf, pos + key.len(), s[0]);
        lemma_parse_fc_entries_of(buf, pos + key.len() + body.len(), s.drop_first());
        assert(seq![s[0]] + s.drop_first() =~= s);
    }
}

/// Reading one file record's serial form yields the record.
#[verifier::rlimit(100)]
#[verifier::spinoff_prover]
proof fn lemma_parse_record_of(buf: Seq<u8>, pos: int, r: FileRecordView)
    requires
        0 <= pos,
        record_encodable(r),
        pos + spec_record_bytes(r).len() <= buf.len(),
        buf.subrange(pos, pos + spec_record_bytes(r).len() as int) == spec_record_bytes(r),
    ensures
        spec_parse_record(buf, pos) == Some((r, pos + spec_record_bytes(r).len() as int)),
{
    lemma_keys_encodable();
    let h = spec_map_header(2);
    let k1 = spec_str_bytes("path"@);
    let s1 = spec_str_bytes(r.path);
    let k2 = spec_str_bytes("chunks"@);
    let mh = spec_map_header(r.chunks.len() as int);
    let ents = spec_fc_entries_bytes(r.chunks);
    let whole = spec_record_bytes(r);
    assert(whole == h + k1 + s1 + k2 + mh + ents);
    assert(h + k1 + s1 + k2 + mh + ents =~= ((h + k1 + s1 + k2 + mh) + ents));
    lemma_split_at(buf, pos, h + k1 + s1 + k2 + mh, ents);
    assert(h + k1 + s1 + k2 + mh =~= ((h + k1 + s1 + k2) + mh));
    lemma_split_at(buf, pos, h + k1 + s1 + k2, mh);
    assert(h + k1 + s1 + k2 =~= ((h + k1 + s1) + k2));
    lemma_split_at(buf, pos, h + k1 + s1, k2);
    assert(h + k1 + s1 =~= ((h + k1) + s1));
    lemma_split_at(buf, pos, h + k1, s1);
    lemma_split_at(buf, pos, h, k1);
    lemma_parse_map_header_of(buf, pos, 2);
    lemma_parse_str_of(buf, pos + 5, "path"@);
    lemma_parse_str_of(buf, pos + 5 + k1.len(), r.path);
    lemma_parse_str_of(buf, pos + 5 + k1.len() + s1.len(), "chunks"@);
    lemma_parse_map_header_of(
        buf,
        pos + 5 + k1.len() + s1.len() + k2.len(),
        r.chunks.len() as int,
    );
    lemma_parse_fc_entries_of(buf, pos + 5 + k1.len() + s1.len() + k2.len() + 5, r.chunks);
}

/// Reading the file-map entries' serial form yields the entries.
#[verifier::rlimit(100)]
#[verifier::spinoff_prover]
proof fn lemma_parse_record_entries_of(buf: Seq<u8>, pos: int, s: Seq<FileRecordView>)
    requires
        0 <= pos,
        forall|i: int| 0 <= i < s.len() ==> record_encodable(#[trigger] s[i]),
        pos + spec_record_entries_bytes(s).len() <= buf.len(),
        buf.subrange(pos, pos + spec_record_entries_bytes(s).len() as int)
            == spec_record_entries_bytes(s),
    ensures
        spec_parse_record_entries(buf, pos, s.len() as int) == Some(
            (s, pos + spec_record_entries_bytes(s).len() as int),
        ),
    decreases s.len(),
{
    if s.len() == 0 {
        assert(s =~= Seq::<FileRecordView>::empty());
    } else {
        let key = spec_str_bytes(s[0].path);
        let body = spec_record_bytes(s[0]);
        let rest = spec_record_entries_bytes(s.drop_first());
        assert(spec_record_entries_bytes(s) == (key + body) + rest);
        lemma_split_at(buf, pos, key + body, rest);
        lemma_split_at(buf, pos, key, body);
        lemma_parse_str_of(buf, pos, s[0].path);
        lemma_parse_record_of(buf, pos + key.len(), s[0]);
        lemma_parse_record_entries_of(buf, pos + key.len() + body.len(), s.drop_first());
        assert(seq![s[0]] + s.drop_first() =~= s);
    }
}

/// Reading the symlink entries' serial form yields the entries.
#[verifier::rlimit(100)]
#[verifier::spinoff_prover]
proof fn lemma_parse_symlink_entries_of(buf: Seq<u8>, pos: int, s: Seq<SymlinkView>)
    requires
        0 <= pos,
        forall|i: int|
            0 <= i < s.len() ==> str_encodable((#[trigger] s[i]).from) && str_encodable(s[i].to),
        pos + spec_symlink_entries_bytes(s).len() <= buf.len(),
        buf.subrange(pos, pos + spec_symlink_entries_bytes(s).len() as int)
            == spec_symlink_entries_bytes(s),
    ensures
        spec_parse_symlink_entries(buf, pos, s.len() as int) == Some(
            (s, pos + spec_symlink_entries_bytes(s).len() as int),
        ),
    decreases s.len(),
{
    if s.len() == 0 {
        assert(s =~= Seq::<SymlinkView>::empty());
    } else {
        let body = spec_symlink_bytes(s[0]);
        let rest = spec_symlink_entries_bytes(s.drop_first());
        assert(spec_symlink_entries_bytes(s) == body + rest);
        lemma_split_at(buf, pos, body, rest);
        lemma_parse_symlink_of(buf, pos, s[0]);
        lemma_parse_symlink_entries_of(buf, pos + body.len(), s.drop_first());
        assert(seq![s[0]] + s.drop_first() =~= s);
    }
}

/// Manifest round trip in the binary form: reading back what was written
/// yields the same chunk index, the same file map, and the same symlink
/// list, value for value.
/// Where each piece of a manifest's serial form lies.
#[verifier::rlimit(100)]
#[verifier::spinoff_prover]
proof fn lemma_manifest_pieces(
    chunks: Seq<ChunkView>,
    files: Seq<FileRecordView>,
    links: Seq<SymlinkView>,
)
    ensures
        ({
            let buf = spec_manifest_bytes(chunks, files, links);
            let h = spec_map_header(3);
            let k1 = spec_str_bytes("chunk_map"@);
            let ch = spec_map_header(chunks.len() as int);
            let ce = spec_chunk_entries_bytes(chunks);
            let k2 = spec_str_bytes("file_metadata_map"@);
            let fh = spec_map_header(files.len() as int);
            let fe = spec_record_entries_bytes(files);
            let k3 = spec_str_bytes("symlinks"@);
            let lh = spec_array_header(links.len() as int);
            let le = spec_symlink_entries_bytes(links);
            let p1 = 5int;
            let p2 = p1 + k1.len() as int;
            let p3 = p2 + 5;
            let p4 = p3 + ce.len() as int;
            let p5 = p4 + k2.len() as int;
            let p6 = p5 + 5;
            let p7 = p6 + fe.len() as int;
            let p8 = p7 + k3.len() as int;
            let p9 = p8 + 5;
            let p10 = p9 + le.len() as int;
            &&& buf.len() == p10
            &&& buf.subrange(0, p1) == h
            &&& buf.subrange(p1, p2) == k1
            &&& buf.subrange(p2, p3) == ch
            &&& buf.subrange(p3, p4) == ce
            &&& buf.subrange(p4, p5) == k2
            &&& buf.subrange(p5, p6) == fh
            &&& buf.subrange(p6, p7) == fe
            &&& buf.subrange(p7, p8) == k3
            &&& buf.subrange(p8, p9) == lh
            &&& buf.subrange(p9, p10) == le
        }),
{
    let buf = spec_manifest_bytes(chunks, files, links);
    let h = spec_map_header(3);
    let k1 = spec_str_bytes("chunk_map"@);
    let ch = spec_map_header(chunks.len() as int);
    let ce = spec_chunk_entries_bytes(chunks);
    let k2 = spec_str_bytes("file_metadata_map"@);
    let fh = spec_map_header(files.len() as int);
    let fe = spec_record_entries_bytes(files);
    let k3 = spec_str_bytes("symlinks"@);
    let lh = spec_array_header(links.len() as int);
    let le = spec_symlink_entries_bytes(links);
    assert(buf == h + k1 + ch + ce + k2 + fh + fe + k3 + lh + le);
    assert(buf.subrange(0, buf.len() as int) =~= buf);
    lemma_split_at(buf, 0, h + k1 + ch + ce + k2 + fh + fe + k3 + lh, le);
    lemma_split_at(buf, 0, h + k1 + ch + ce + k2 + fh + fe + k3, lh);
    lemma_split_at(buf, 0, h + k1 + ch + ce + k2 + fh + fe, k3);
    lemma_split_at(buf, 0, h + k1 + ch + ce + k2 + fh, fe);
    lemma_split_at(buf, 0, h + k1 + ch + ce + k2, fh);
    lemma_split_at(buf, 0, h + k1 + ch + ce, k2);
    lemma_split_at(buf, 0, h + k1 + ch, ce);
    lemma_split_at(buf, 0, h + k1, ch);
    lemma_split_at(buf, 0, h, k1);
}

/// Manifest round trip in the binary form: reading back what was written
/// yields the same chunk index, the same file map, and the same symlink
/// list, value for value.
#[verifier::rlimit(100)]
#[verifier::spinoff_prover]
pub proof fn lemma_manifest_roundtrip(
    chunks: Seq<ChunkView>,
    files: Seq<FileRecordView>,
    links: Seq<SymlinkView>,
)
    requires
        manifest_encodable(chunks, files, links),
    ensures
        spec_parse_manifest(spec_manifest_bytes(chunks, files, links), 0) == Some(
            ((chunks, files, links), spec_manifest_bytes(chunks, files, links).len() as int),
        ),
{
    lemma_keys_encodable();
    lemma_manifest_pieces(chunks, files, links);
    let buf = spec_manifest_bytes(chunks, files, links);
    let k1 = spec_str_bytes("chunk_map"@);
    let ce = spec_chunk_entries_bytes(chunks);
    let k2 = spec_str_bytes("file_metadata_map"@);
    let fe = spec_record_entries_bytes(files);
    let k3 = spec_str_bytes("symlinks"@);
    let le = spec_symlink_entries_bytes(links);
    let p1 = 5int;
    let p2 = p1 + k1.len() as int;
    let p3 = p2 + 5;
    let p4 = p3 + ce.len() as int;
    let p5 = p4 + k2.len() as int;
    let p6 = p5 + 5;
    let p7 = p6 + fe.len() as int;
    let p8 = p7 + k3.len() as int;
    let p9 = p8 + 5;
    let p10 = p9 + le.len() as int;
    lemma_parse_map_header_of(buf, 0, 3);
    lemma_parse_str_of(buf, p1, "chunk_map"@);
    lemma_parse_map_header_of(buf, p2, chunks.len() as int);
    lemma_parse_chunk_entries_of(buf, p3, chunks);
    lemma_parse_str_of(buf, p4, "file_metadata_map"@);
    lemma_parse_map_header_of(buf, p5, files.len() as int);
    lemma_parse_record_entries_of(buf, p6, files);
    lemma_parse_str_of(buf, p7, "symlinks"@);
    lemma_parse_array_header_of(buf, p8, links.len() as int);
    lemma_parse_symlink_entries_of(buf, p9, links);
}

} // verus!
