use vstd::prelude::*;
use vstd::utf8::{decode_utf8, encode_utf8, valid_utf8};
use crate::chunk::{Chunk, ChunkView};
use crate::chunk_table::chunk_map_views;
use crate::file_chunk::{FileChunk, FileChunkView};
use crate::file_metadata::{chunk_views, FileMetadata, FileRecordView};
use crate::symlink::{symlink_views, Symlink, SymlinkView};

verus! {

// The textual manifest form: a JSON object without any whitespace of its
// own.  Strings escape the quote, the backslash, and control bytes; all
// other bytes stand as themselves, so any UTF-8 text passes through.
// Numbers are plain decimal.
/// The lowercase hexadecimal character of a nibble, as a byte.
pub open spec fn hex_char(n: u8) -> u8 {
    if n < 10 {
        (0x30 + n) as u8
    } else {
        (0x57 + n) as u8
    }
}

/// Whether a byte is a lowercase hexadecimal character.
pub open spec fn is_hex_byte(b: u8) -> bool {
    (0x30 <= b <= 0x39) || (0x61 <= b <= 0x66)
}

/// The nibble a lowercase hexadecimal character denotes.
pub open spec fn hex_val(b: u8) -> u8 {
    if b <= 0x39 {
        (b - 0x30) as u8
    } else {
        (b - 0x57) as u8
    }
}

/// How one byte of string content is written: quote and backslash escaped,
/// control bytes as a six-byte escape, everything else as itself.
pub open spec fn esc_byte(b: u8) -> Seq<u8> {
    if b == 0x22 {
        seq![0x5cu8, 0x22u8]
    } else if b == 0x5c {
        seq![0x5cu8, 0x5cu8]
    } else if b < 0x20 {
        seq![0x5cu8, 0x75u8, 0x30u8, 0x30u8, hex_char(b / 16), hex_char(b % 16)]
    } else {
        seq![b]
    }
}

/// A byte sequence with every byte written as its escape.
pub open spec fn esc_bytes(s: Seq<u8>) -> Seq<u8>
    decreases s.len(),
{
    if s.len() == 0 {
        Seq::empty()
    } else {
        esc_byte(s[0]) + esc_bytes(s.drop_first())
    }
}

/// The textual form of a string: its UTF-8 bytes, escaped, in quotes.
pub open spec fn spec_jstr(s: Seq<char>) -> Seq<u8> {
    seq![0x22u8] + esc_bytes(encode_utf8(s)) + seq![0x22u8]
}

/// The decimal digits of a non-negative number.
pub open spec fn spec_dec(n: int) -> Seq<u8>
    decreases n,
{
    if n < 10 {
        seq![(0x30 + if n >= 0 { n } else { 0 }) as u8]
    } else {
        spec_dec(n / 10).push((0x30 + n % 10) as u8)
    }
}

/// The textual form of one chunk record.
pub open spec fn spec_jchunk(c: ChunkView) -> Seq<u8> {
    seq![0x7bu8] + spec_jstr("hash"@) + seq![0x3au8] + spec_jstr(c.hash) + seq![0x2cu8]
        + spec_jstr("length"@) + seq![0x3au8] + spec_dec(c.length as int) + seq![0x7du8]
}

/// One textual chunk-index entry: the digest key, a colon, the record.
pub open spec fn spec_jchunk_entry(c: ChunkView) -> Seq<u8> {
    spec_jstr(c.hash) + seq![0x3au8] + spec_jchunk(c)
}

/// The textual chunk-index entries, comma separated.
pub open spec fn spec_jchunk_entries(s: Seq<ChunkView>) -> Seq<u8>
    decreases s.len(),
{
    if s.len() == 0 {
        Seq::empty()
    } else if s.len() == 1 {
        spec_jchunk_entry(s[0])
    } else {
        spec_jchunk_entry(s[0]) + seq![0x2cu8] + spec_jchunk_entries(s.drop_first())
    }
}

/// The textual form of one file chunk.
pub open spec fn spec_jfile_chunk(c: FileChunkView) -> Seq<u8> {
    seq![0x7bu8] + spec_jstr("hash"@) + seq![0x3au8] + spec_jstr(c.hash) + seq![0x2cu8]
        + spec_jstr("offset"@) + seq![0x3au8] + spec_dec(c.offset as int) + seq![0x2cu8]
        + spec_jstr("length"@) + seq![0x3au8] + spec_dec(c.length as int) + seq![0x7du8]
}

/// One textual record-chunk entry.
pub open spec fn spec_jfc_entry(c: FileChunkView) -> Seq<u8> {
    spec_jstr(c.hash) + seq![0x3au8] + spec_jfile_chunk(c)
}

/// The textual record-chunk entries, comma separated.
pub open spec fn spec_jfc_entries(s: Seq<FileChunkView>) -> Seq<u8>
    decreases s.len(),
{
    if s.len() == 0 {
        Seq::empty()
    } else if s.len() == 1 {
        spec_jfc_entry(s[0])
    } else {
        spec_jfc_entry(s[0]) + seq![0x2cu8] + spec_jfc_entries(s.drop_first())
    }
}

/// The textual form of one file record.
pub open spec fn spec_jrecord(r: FileRecordView) -> Seq<u8> {
    seq![0x7bu8] + spec_jstr("path"@) + seq![0x3au8] + spec_jstr(r.path) + seq![0x2cu8]
        + spec_jstr("chunks"@) + seq![0x3au8] + seq![0x7bu8] + spec_jfc_entries(r.chunks)
        + seq![0x7du8] + seq![0x7du8]
}

/// One textual file-map entry.
pub open spec fn spec_jrecord_entry(r: FileRecordView) -> Seq<u8> {
    spec_jstr(r.path) + seq![0x3au8] + spec_jrecord(r)
}

/// The textual file-map entries, comma separated.
pub open spec fn spec_jrecord_entries(s: Seq<FileRecordView>) -> Seq<u8>
    decreases s.len(),
{
    if s.len() == 0 {
        Seq::empty()
    } else if s.len() == 1 {
        spec_jrecord_entry(s[0])
    } else {
        spec_jrecord_entry(s[0]) + seq![0x2cu8] + spec_jrecord_entries(s.drop_first())
    }
}

/// The textual form of one symbolic link.
pub open spec fn spec_jsymlink(l: SymlinkView) -> Seq<u8> {
    seq![0x7bu8] + spec_jstr("from"@) + seq![0x3au8] + spec_jstr(l.from) + seq![0x2cu8]
        + spec_jstr("to"@) + seq![0x3au8] + spec_jstr(l.to) + seq![0x7du8]
}

/// The textual symlink entries, comma separated.
pub open spec fn spec_jsymlink_entries(s: Seq<SymlinkView>) -> Seq<u8>
    decreases s.len(),
{
    if s.len() == 0 {
        Seq::empty()
    } else if s.len() == 1 {
        spec_jsymlink(s[0])
    } else {
        spec_jsymlink(s[0]) + seq![0x2cu8] + spec_jsymlink_entries(s.drop_first())
    }
}

/// The textual form of a whole manifest.
pub open spec fn spec_json_manifest_bytes(
    chunks: Seq<ChunkView>,
    files: Seq<FileRecordView>,
    links: Seq<SymlinkView>,
) -> Seq<u8> {
    seq![0x7bu8] + spec_jstr("chunk_map"@) + seq![0x3au8] + seq![0x7bu8] + spec_jchunk_entries(
        chunks,
    ) + seq![0x7du8] + seq![0x2cu8] + spec_jstr("file_metadata_map"@) + seq![0x3au8]
        + seq![0x7bu8] + spec_jrecord_entries(files) + seq![0x7du8] + seq![0x2cu8] + spec_jstr(
        "symlinks"@,
    ) + seq![0x3au8] + seq![0x5bu8] + spec_jsymlink_entries(links) + seq![0x5du8] + seq![0x7du8]
}

/// The lowercase hexadecimal character of a nibble.
fn hexc(n: u8) -> (r: u8)
    requires
        n < 16,
    ensures
        r == hex_char(n),
{
    if n < 10 {
        0x30 + n
    } else {
        0x57 + n
    }
}

/// One byte of string content written as its escape.
#[verifier::rlimit(100)]
#[verifier::spinoff_prover]
pub proof fn lemma_esc_push(s: Seq<u8>, b: u8)
    ensures
        esc_bytes(s.push(b)) =~= esc_bytes(s) + esc_byte(b),
    decreases s.len(),
{
    reveal_with_fuel(esc_bytes, 3);
    if s.len() == 0 {
        assert(s.push(b) =~= seq![b]);
        assert(seq![b].drop_first() =~= Seq::<u8>::empty());
    } else {
        assert(s.push(b)[0] == s[0]);
        assert(s.push(b).drop_first() =~= s.drop_first().push(b));
        lemma_esc_push(s.drop_first(), b);
    }
}

/// Appends a string's textual form.
#[verifier::rlimit(100)]
#[verifier::spinoff_prover]
pub fn emit_jstr(out: &mut Vec<u8>, s: &str)
    ensures
        final(out)@ == old(out)@ + spec_jstr(s@),
{
    out.push(0x22);
    let bytes = s.as_bytes_vec();
    let ghost start = out@;
    let mut k: usize = 0;
    proof {
        assert(esc_bytes(bytes@.take(0)) =~= Seq::<u8>::empty());
        assert(out@ =~= start + esc_bytes(bytes@.take(0)));
    }
    while k < bytes.len()
        invariant
            k <= bytes@.len(),
            out@ == start + esc_bytes(bytes@.take(k as int)),
        decreases bytes@.len() - k,
    {
        let b = bytes[k];
        proof {
            lemma_esc_push(bytes@.take(k as int), b);
            assert(bytes@.take(k as int + 1) =~= bytes@.take(k as int).push(b));
        }
        if b == 0x22 {
            out.push(0x5c);
            out.push(0x22);
        } else if b == 0x5c {
            out.push(0x5c);
            out.push(0x5c);
        } else if b < 0x20 {
            out.push(0x5c);
            out.push(0x75);
            out.push(0x30);
            out.push(0x30);
            out.push(hexc(b / 16));
            out.push(hexc(b % 16));
        } else {
            out.push(b);
        }
        proof {
            assert(out@ =~= start + esc_bytes(bytes@.take(k as int + 1)));
        }
        k += 1;
    }
    proof {
        assert(bytes@.take(bytes@.len() as int) =~= bytes@);
    }
    out.push(0x22);
    proof {
        assert(final(out)@ =~= old(out)@ + spec_jstr(s@));
    }
}

/// Appends a number's decimal digits.
#[verifier::rlimit(100)]
#[verifier::spinoff_prover]
pub fn emit_dec(out: &mut Vec<u8>, n: u64)
    ensures
        final(out)@ == old(out)@ + spec_dec(n as int),
    decreases n,
{
    if n < 10 {
        out.push(0x30 + n as u8);
        proof {
            assert(final(out)@ =~= old(out)@ + spec_dec(n as int));
        }
    } else {
        emit_dec(out, n / 10);
        out.push(0x30 + (n % 10) as u8);
        proof {
            assert(final(out)@ =~= old(out)@ + spec_dec(n as int));
        }
    }
}

/// Appends one chunk record.
#[verifier::rlimit(100)]
#[verifier::spinoff_prover]
fn emit_jchunk(out: &mut Vec<u8>, c: &Chunk)
    ensures
        final(out)@ == old(out)@ + spec_jchunk(c@),
{
    out.push(0x7b);
    emit_jstr(out, "hash");
    out.push(0x3a);
    emit_jstr(out, c.hash.as_str());
    out.push(0x2c);
    emit_jstr(out, "length");
    out.push(0x3a);
    emit_dec(out, c.length as u64);
    out.push(0x7d);
    proof {
        assert(final(out)@ =~= old(out)@ + spec_jchunk(c@));
    }
}

/// Appends one file chunk.
#[verifier::rlimit(100)]
#[verifier::spinoff_prover]
fn emit_jfile_chunk(out: &mut Vec<u8>, c: &FileChunk)
    ensures
        final(out)@ == old(out)@ + spec_jfile_chunk(c@),
{
    out.push(0x7b);
    emit_jstr(out, "hash");
    out.push(0x3a);
    emit_jstr(out, c.hash.as_str());
    out.push(0x2c);
    emit_jstr(out, "offset");
    out.push(0x3a);
    emit_dec(out, c.offset);
    out.push(0x2c);
    emit_jstr(out, "length");
    out.push(0x3a);
    emit_dec(out, c.length as u64);
    out.push(0x7d);
    proof {
        assert(final(out)@ =~= old(out)@ + spec_jfile_chunk(c@));
    }
}

#[verifier::rlimit(100)]
#[verifier::spinoff_prover]
pub proof fn lemma_jchunk_entries_push(s: Seq<ChunkView>, x: ChunkView)
    ensures
        spec_jchunk_entries(s.push(x)) =~= if s.len() == 0 {
            spec_jchunk_entry(x)
        } else {
            spec_jchunk_entries(s) + seq![0x2cu8] + spec_jchunk_entry(x)
        },
    decreases s.len(),
{
    reveal_with_fuel(spec_jchunk_entries, 4);
    if s.len() == 0 {
        assert(s.push(x) =~= seq![x]);
    } else {
        assert(s.push(x)[0] == s[0]);
        assert(s.push(x).drop_first() =~= s.drop_first().push(x));
        lemma_jchunk_entries_push(s.drop_first(), x);
        if s.len() == 1 {
            assert(s.drop_first() =~= Seq::<ChunkView>::empty());
        }
    }
}

#[verifier::rlimit(100)]
#[verifier::spinoff_prover]
pub proof fn lemma_jfc_entries_push(s: Seq<FileChunkView>, x: FileChunkView)
    ensures
        spec_jfc_entries(s.push(x)) =~= if s.len() == 0 {
            spec_jfc_entry(x)
        } else {
            spec_jfc_entries(s) + seq![0x2cu8] + spec_jfc_entry(x)
        },
    decreases s.len(),
{
    reveal_with_fuel(spec_jfc_entries, 4);
    if s.len() == 0 {
        assert(s.push(x) =~= seq![x]);
    } else {
        assert(s.push(x)[0] == s[0]);
        assert(s.push(x).drop_first() =~= s.drop_first().push(x));
        lemma_jfc_entries_push(s.drop_first(), x);
        if s.len() == 1 {
            assert(s.drop_first() =~= Seq::<FileChunkView>::empty());
        }
    }
}

#[verifier::rlimit(100)]
#[verifier::spinoff_prover]
pub proof fn lemma_jrecord_entries_push(s: Seq<FileRecordView>, x: FileRecordView)
    ensures
        spec_jrecord_entries(s.push(x)) =~= if s.len() == 0 {
            spec_jrecord_entry(x)
        } else {
            spec_jrecord_entries(s) + seq![0x2cu8] + spec_jrecord_entry(x)
        },
    decreases s.len(),
{
    reveal_with_fuel(spec_jrecord_entries, 4);
    if s.len() == 0 {
        assert(s.push(x) =~= seq![x]);
    } else {
        assert(s.push(x)[0] == s[0]);
        assert(s.push(x).drop_first() =~= s.drop_first().push(x));
        lemma_jrecord_entries_push(s.drop_first(), x);
        if s.len() == 1 {
            assert(s.drop_first() =~= Seq::<FileRecordView>::empty());
        }
    }
}

#[verifier::rlimit(100)]
#[verifier::spinoff_prover]
pub proof fn lemma_jsymlink_entries_push(s: Seq<SymlinkView>, x: SymlinkView)
    ensures
        spec_jsymlink_entries(s.push(x)) =~= if s.len() == 0 {
            spec_jsymlink(x)
        } else {
            spec_jsymlink_entries(s) + seq![0x2cu8] + spec_jsymlink(x)
        },
    decreases s.len(),
{
    reveal_with_fuel(spec_jsymlink_entries, 4);
    if s.len() == 0 {
        assert(s.push(x) =~= seq![x]);
    } else {
        assert(s.push(x)[0] == s[0]);
        assert(s.push(x).drop_first() =~= s.drop_first().push(x));
        lemma_jsymlink_entries_push(s.drop_first(), x);
        if s.len() == 1 {
            assert(s.drop_first() =~= Seq::<SymlinkView>::empty());
        }
    }
}

/// Appends one file record.
#[verifier::rlimit(100)]
#[verifier::spinoff_prover]
fn emit_jrecord(out: &mut Vec<u8>, r: &FileMetadata)
    ensures
        final(out)@ == old(out)@ + spec_jrecord(r@),
{
    out.push(0x7b);
    emit_jstr(out, "path");
    out.push(0x3a);
    emit_jstr(out, r.path.as_str());
    out.push(0x2c);
    emit_jstr(out, "chunks");
    out.push(0x3a);
    out.push(0x7b);
    let ghost mid = out@;
    let ghost cv = chunk_views(r.chunks@);
    let mut i: usize = 0;
    proof {
        assert(spec_jfc_entries(cv.take(0)) =~= Seq::<u8>::empty());
        assert(out@ =~= mid + spec_jfc_entries(cv.take(0)));
    }
    while i < r.chunks.len()
        invariant
            i <= r.chunks@.len(),
            cv == chunk_views(r.chunks@),
            cv.len() == r.chunks@.len(),
            out@ == mid + spec_jfc_entries(cv.take(i as int)),
        decreases r.chunks@.len() - i,
    {
        proof {
            assert(cv[i as int] == r.chunks@[i as int]@);
            lemma_jfc_entries_push(cv.take(i as int), cv[i as int]);
            assert(cv.take(i as int + 1) =~= cv.take(i as int).push(cv[i as int]));
        }
        if i > 0 {
            out.push(0x2c);
        }
        emit_jstr(out, r.chunks[i].hash.as_str());
        out.push(0x3a);
        emit_jfile_chunk(out, &r.chunks[i]);
        i += 1;
    }
    proof {
        assert(cv.take(cv.len() as int) =~= cv);
    }
    out.push(0x7d);
    out.push(0x7d);
    proof {
        assert(final(out)@ =~= old(out)@ + spec_jrecord(r@));
    }
}

/// Appends one symbolic link.
#[verifier::rlimit(100)]
#[verifier::spinoff_prover]
fn emit_jsymlink(out: &mut Vec<u8>, l: &Symlink)
    ensures
        final(out)@ == old(out)@ + spec_jsymlink(l@),
{
    out.push(0x7b);
    emit_jstr(out, "from");
    out.push(0x3a);
    emit_jstr(out, l.from.as_str());
    out.push(0x2c);
    emit_jstr(out, "to");
    out.push(0x3a);
    emit_jstr(out, l.to.as_str());
    out.push(0x7d);
    proof {
        assert(final(out)@ =~= old(out)@ + spec_jsymlink(l@));
    }
}

/// Writes a whole manifest in the textual form.
#[verifier::rlimit(100)]
#[verifier::spinoff_prover]
pub fn encode_json_manifest(
    chunk_entries: &Vec<Chunk>,
    file_entries: &Vec<FileMetadata>,
    symlinks: &Vec<Symlink>,
) -> (r: Vec<u8>)
    ensures
        r@ == spec_json_manifest_bytes(
            chunk_map_views(chunk_entries@),
            file_entries@.map_values(|f: FileMetadata| f@),
            symlink_views(symlinks@),
        ),
{
    let ghost cvs = chunk_map_views(chunk_entries@);
    let ghost fvs = file_entries@.map_values(|f: FileMetadata| f@);
    let ghost lvs = symlink_views(symlinks@);
    let mut out: Vec<u8> = Vec::new();
    out.push(0x7b);
    emit_jstr(&mut out, "chunk_map");
    out.push(0x3a);
    out.push(0x7b);
    let ghost m1 = out@;
    let mut i: usize = 0;
    proof {
        assert(spec_jchunk_entries(cvs.take(0)) =~= Seq::<u8>::empty());
        assert(out@ =~= m1 + spec_jchunk_entries(cvs.take(0)));
    }
    while i < chunk_entries.len()
        invariant
            i <= chunk_entries@.len(),
            cvs == chunk_map_views(chunk_entries@),
            cvs.len() == chunk_entries@.len(),
            out@ == m1 + spec_jchunk_entries(cvs.take(i as int)),
        decreases chunk_entries@.len() - i,
    {
        proof {
            assert(cvs[i as int] == chunk_entries@[i as int]@);
            lemma_jchunk_entries_push(cvs.take(i as int), cvs[i as int]);
            assert(cvs.take(i as int + 1) =~= cvs.take(i as int).push(cvs[i as int]));
        }
        if i > 0 {
            out.push(0x2c);
        }
        emit_jstr(&mut out, chunk_entries[i].hash.as_str());
        out.push(0x3a);
        emit_jchunk(&mut out, &chunk_entries[i]);
        i += 1;
    }
    proof {
        assert(cvs.take(cvs.len() as int) =~= cvs);
    }
    out.push(0x7d);
    out.push(0x2c);
    emit_jstr(&mut out, "file_metadata_map");
    out.push(0x3a);
    out.push(0x7b);
    let ghost m2 = out@;
    let mut i: usize = 0;
    proof {
        assert(spec_jrecord_entries(fvs.take(0)) =~= Seq::<u8>::empty());
        assert(out@ =~= m2 + spec_jrecord_entries(fvs.take(0)));
    }
    while i < file_entries.len()
        invariant
            i <= file_entries@.len(),
            fvs == file_entries@.map_values(|f: FileMetadata| f@),
            fvs.len() == file_entries@.len(),
            out@ == m2 + spec_jrecord_entries(fvs.take(i as int)),
        decreases file_entries@.len() - i,
    {
        proof {
            assert(fvs[i as int] == file_entries@[i as int]@);
            lemma_jrecord_entries_push(fvs.take(i as int), fvs[i as int]);
            assert(fvs.take(i as int + 1) =~= fvs.take(i as int).push(fvs[i as int]));
        }
        if i > 0 {
            out.push(0x2c);
        }
        emit_jstr(&mut out, file_entries[i].path.as_str());
        out.push(0x3a);
        emit_jrecord(&mut out, &file_entries[i]);
        i += 1;
    }
    proof {
        assert(fvs.take(fvs.len() as int) =~= fvs);
    }
    out.push(0x7d);
    out.push(0x2c);
    emit_jstr(&mut out, "symlinks");
    out.push(0x3a);
    out.push(0x5b);
    let ghost m3 = out@;
    let mut i: usize = 0;
    proof {
        assert(spec_jsymlink_entries(lvs.take(0)) =~= Seq::<u8>::empty());
        assert(out@ =~= m3 + spec_jsymlink_entries(lvs.take(0)));
    }
    while i < symlinks.len()
        invariant
            i <= symlinks@.len(),
            lvs == symlink_views(symlinks@),
            lvs.len() == symlinks@.len(),
            out@ == m3 + spec_jsymlink_entries(lvs.take(i as int)),
        decreases symlinks@.len() - i,
    {
        proof {
            assert(lvs[i as int] == symlinks@[i as int]@);
            lemma_jsymlink_entries_push(lvs.take(i as int), lvs[i as int]);
            assert(lvs.take(i as int + 1) =~= lvs.take(i as int).push(lvs[i as int]));
        }
        if i > 0 {
            out.push(0x2c);
        }
        emit_jsymlink(&mut out, &symlinks[i]);
        i += 1;
    }
    proof {
        assert(lvs.take(lvs.len() as int) =~= lvs);
    }
    out.push(0x5d);
    out.push(0x7d);
    proof {
        assert(out@ =~= spec_json_manifest_bytes(cvs, fvs, lvs));
    }
    out
}

/// One step past `pos` when the byte there is `b`.
pub open spec fn spec_expect(buf: Seq<u8>, pos: int, b: u8) -> Option<int> {
    if 0 <= pos < buf.len() && buf[pos] == b {
        Some(pos + 1)
    } else {
        None
    }
}

/// The unescaped content bytes from `pos` up to the closing quote.
pub open spec fn spec_scan_jstr(buf: Seq<u8>, pos: int) -> Option<(Seq<u8>, int)>
    decreases buf.len() - pos,
{
    if pos < 0 || pos >= buf.len() {
        None
    } else if buf[pos] == 0x22 {
        Some((Seq::empty(), pos + 1))
    } else if buf[pos] == 0x5c {
        if pos + 1 < buf.len() && (buf[pos + 1] == 0x22 || buf[pos + 1] == 0x5c) {
            match spec_scan_jstr(buf, pos + 2) {
                Some(p) => Some((seq![buf[pos + 1]] + p.0, p.1)),
                None => None,
            }
        } else if pos + 5 < buf.len() && buf[pos + 1] == 0x75 && buf[pos + 2] == 0x30 && buf[pos
            + 3] == 0x30 && is_hex_byte(buf[pos + 4]) && is_hex_byte(buf[pos + 5]) {
            match spec_scan_jstr(buf, pos + 6) {
                Some(p) => Some(
                    (seq![(hex_val(buf[pos + 4]) * 16 + hex_val(buf[pos + 5])) as u8] + p.0, p.1),
                ),
                None => None,
            }
        } else {
            None
        }
    } else if buf[pos] >= 0x20 {
        match spec_scan_jstr(buf, pos + 1) {
            Some(p) => Some((seq![buf[pos]] + p.0, p.1)),
            None => None,
        }
    } else {
        None
    }
}

/// What reading a textual string at `pos` yields.
pub open spec fn spec_parse_jstr(buf: Seq<u8>, pos: int) -> Option<(Seq<char>, int)> {
    if pos < 0 || pos >= buf.len() || buf[pos] != 0x22 {
        None
    } else {
        match spec_scan_jstr(buf, pos + 1) {
            Some(p) => if valid_utf8(p.0) {
                Some((decode_utf8(p.0), p.1))
            } else {
                None
            },
            None => None,
        }
    }
}

/// Whether a byte is a decimal digit.
pub open spec fn is_digit_byte(b: u8) -> bool {
    0x30 <= b <= 0x39
}

/// The value of the digits from `pos`, folded onto `acc`; too-large values
/// are rejected.
pub open spec fn spec_scan_num(buf: Seq<u8>, pos: int, acc: int) -> Option<(int, int)>
    decreases buf.len() - pos,
{
    if pos < 0 {
        None
    } else if pos >= buf.len() || !is_digit_byte(buf[pos]) {
        Some((acc, pos))
    } else {
        let acc2 = acc * 10 + (buf[pos] - 0x30);
        if acc2 >= 0x10000000000000000 {
            None
        } else {
            spec_scan_num(buf, pos + 1, acc2)
        }
    }
}

/// What reading a decimal number at `pos` yields.
pub open spec fn spec_parse_jnum(buf: Seq<u8>, pos: int) -> Option<(int, int)> {
    if 0 <= pos < buf.len() && is_digit_byte(buf[pos]) {
        spec_scan_num(buf, pos, 0)
    } else {
        None
    }
}

/// What reading one textual chunk record at `pos` yields.
pub open spec fn spec_parse_jchunk(buf: Seq<u8>, pos: int) -> Option<(ChunkView, int)> {
    match spec_expect(buf, pos, 0x7b) {
        Some(p1) => match spec_parse_jstr(buf, p1) {
            Some((k1, p2)) => if k1 == "hash"@ {
                match spec_expect(buf, p2, 0x3a) {
                    Some(p3) => match spec_parse_jstr(buf, p3) {
                        Some((h, p4)) => match spec_expect(buf, p4, 0x2c) {
                            Some(p5) => match spec_parse_jstr(buf, p5) {
                                Some((k2, p6)) => if k2 == "length"@ {
                                    match spec_expect(buf, p6, 0x3a) {
                                        Some(p7) => match spec_parse_jnum(buf, p7) {
                                            Some((v, p8)) => if v <= usize::MAX as int {
                                                match spec_expect(buf, p8, 0x7d) {
                                                    Some(p9) => Some(
                                                        (
                                                            ChunkView {
                                                                hash: h,
                                                                length: v as usize,
                                                            },
                                                            p9,
                                                        ),
                                                    ),
                                                    None => None,
                                                }
                                            } else {
                                                None
                                            },
                                            None => None,
                                        },
                                        None => None,
                                    }
                                } else {
                                    None
                                },
                                None => None,
                            },
                            None => None,
                        },
                        None => None,
                    },
                    None => None,
                }
            } else {
                None
            },
            None => None,
        },
        None => None,
    }
}

/// What reading one textual file chunk at `pos` yields.
pub open spec fn spec_parse_jfile_chunk(buf: Seq<u8>, pos: int) -> Option<(FileChunkView, int)> {
    match spec_expect(buf, pos, 0x7b) {
        Some(p1) => match spec_parse_jstr(buf, p1) {
            Some((k1, p2)) => if k1 == "hash"@ {
                match spec_expect(buf, p2, 0x3a) {
                    Some(p3) => match spec_parse_jstr(buf, p3) {
                        Some((h, p4)) => match spec_expect(buf, p4, 0x2c) {
                            Some(p5) => match spec_parse_jstr(buf, p5) {
                                Some((k2, p6)) => if k2 == "offset"@ {
                                    match spec_expect(buf, p6, 0x3a) {
                                        Some(p7) => match spec_parse_jnum(buf, p7) {
                                            Some((off, p8)) => match spec_expect(buf, p8, 0x2c) {
                                                Some(p9) => match spec_parse_jstr(buf, p9) {
                                                    Some((k3, p10)) => if k3 == "length"@ {
                                                        match spec_expect(buf, p10, 0x3a) {
                                                            Some(p11) => match spec_parse_jnum(
                                                                buf,
                                                                p11,
                                                            ) {
                                                                Some((v, p12)) => if v
                                                                    <= usize::MAX as int {
                                                                    match spec_expect(
                                                                        buf,
                                                                        p12,
                                                                        0x7d,
                                                                    ) {
                                                                        Some(p13) => Some(
                                                                            (
                                                                                FileChunkView {
                                                                                    hash: h,
                                                                                    offset: off as u64,
                                                                                    length: v as usize,
                                                                                },
                                                                                p13,
                                                                            ),
                                                                        ),
                                                                        None => None,
                                                                    }
                                                                } else {
                                                                    None
                                                                },
                                                                None => None,
                                                            },
                                                            None => None,
                                                        }
                                                    } else {
                                                        None
                                                    },
                                                    None => None,
                                                },
                                                None => None,
                                            },
                                            None => None,
                                        },
                                        None => None,
                                    }
                                } else {
                                    None
                                },
                                None => None,
                            },
                            None => None,
                        },
                        None => None,
                    },
                    None => None,
                }
            } else {
                None
            },
            None => None,
        },
        None => None,
    }
}

/// What reading one textual symbolic link at `pos` yields.
pub open spec fn spec_parse_jsymlink(buf: Seq<u8>, pos: int) -> Option<(SymlinkView, int)> {
    match spec_expect(buf, pos, 0x7b) {
        Some(p1) => match spec_parse_jstr(buf, p1) {
            Some((k1, p2)) => if k1 == "from"@ {
                match spec_expect(buf, p2, 0x3a) {
                    Some(p3) => match spec_parse_jstr(buf, p3) {
                        Some((from, p4)) => match spec_expect(buf, p4, 0x2c) {
                            Some(p5) => match spec_parse_jstr(buf, p5) {
                                Some((k2, p6)) => if k2 == "to"@ {
                                    match spec_expect(buf, p6, 0x3a) {
                                        Some(p7) => match spec_parse_jstr(buf, p7) {
                                            Some((to, p8)) => match spec_expect(buf, p8, 0x7d) {
                                                Some(p9) => Some((SymlinkView { from, to }, p9)),
                                                None => None,
                                            },
                                            None => None,
                                        },
                                        None => None,
                                    }
                                } else {
                                    None
                                },
                                None => None,
                            },
                            None => None,
                        },
                        None => None,
                    },
                    None => None,
                }
            } else {
                None
            },
            None => None,
        },
        None => None,
    }
}

/// One textual chunk-index entry: key, colon, record, matching digests.
pub open spec fn spec_parse_jchunk_entry(buf: Seq<u8>, pos: int) -> Option<(ChunkView, int)> {
    match spec_parse_jstr(buf, pos) {
        Some((k, p1)) => match spec_expect(buf, p1, 0x3a) {
            Some(p2) => match spec_parse_jchunk(buf, p2) {
                Some((c, p3)) => if c.hash == k {
                    Some((c, p3))
                } else {
                    None
                },
                None => None,
            },
            None => None,
        },
        None => None,
    }
}

/// One or more textual chunk-index entries, comma separated, up to the
/// closing brace (consumed).
pub open spec fn spec_parse_jchunk_entries1(buf: Seq<u8>, pos: int) -> Option<
    (Seq<ChunkView>, int),
>
    decreases buf.len() - pos,
{
    if pos < 0 || pos >= buf.len() {
        None
    } else {
        match spec_parse_jchunk_entry(buf, pos) {
            Some((c, p)) => if p <= pos || p >= buf.len() {
                None
            } else if buf[p] == 0x7d {
                Some((seq![c], p + 1))
            } else if buf[p] == 0x2c {
                match spec_parse_jchunk_entries1(buf, p + 1) {
                    Some((rest, p2)) => Some((seq![c] + rest, p2)),
                    None => None,
                }
            } else {
                None
            },
            None => None,
        }
    }
}

/// A textual chunk map: a brace-wrapped entry list, possibly empty.
pub open spec fn spec_parse_jchunk_map(buf: Seq<u8>, pos: int) -> Option<(Seq<ChunkView>, int)> {
    match spec_expect(buf, pos, 0x7b) {
        Some(p1) => if p1 < buf.len() && buf[p1] == 0x7d {
            Some((Seq::empty(), p1 + 1))
        } else {
            spec_parse_jchunk_entries1(buf, p1)
        },
        None => None,
    }
}

/// A textual record-chunk map: a brace-wrapped entry list, possibly empty.
pub open spec fn spec_parse_jfc_map(buf: Seq<u8>, pos: int) -> Option<(Seq<FileChunkView>, int)> {
    match spec_expect(buf, pos, 0x7b) {
        Some(p1) => if p1 < buf.len() && buf[p1] == 0x7d {
            Some((Seq::empty(), p1 + 1))
        } else {
            spec_parse_jfc_entries1(buf, p1)
        },
        None => None,
    }
}

/// A textual file map: a brace-wrapped entry list, possibly empty.
pub open spec fn spec_parse_jrecord_map(buf: Seq<u8>, pos: int) -> Option<
    (Seq<FileRecordView>, int),
> {
    match spec_expect(buf, pos, 0x7b) {
        Some(p1) => if p1 < buf.len() && buf[p1] == 0x7d {
            Some((Seq::empty(), p1 + 1))
        } else {
            spec_parse_jrecord_entries1(buf, p1)
        },
        None => None,
    }
}

/// A textual symlink list: a bracket-wrapped entry list, possibly empty.
pub open spec fn spec_parse_jsymlink_array(buf: Seq<u8>, pos: int) -> Option<
    (Seq<SymlinkView>, int),
> {
    match spec_expect(buf, pos, 0x5b) {
        Some(p1) => if p1 < buf.len() && buf[p1] == 0x5d {
            Some((Seq::empty(), p1 + 1))
        } else {
            spec_parse_jsymlink_entries1(buf, p1)
        },
        None => None,
    }
}

/// One textual record-chunk entry.
pub open spec fn spec_parse_jfc_entry(buf: Seq<u8>, pos: int) -> Option<(FileChunkView, int)> {
    match spec_parse_jstr(buf, pos) {
        Some((k, p1)) => match spec_expect(buf, p1, 0x3a) {
            Some(p2) => match spec_parse_jfile_chunk(buf, p2) {
                Some((c, p3)) => if c.hash == k {
                    Some((c, p3))
                } else {
                    None
                },
                None => None,
            },
            None => None,
        },
        None => None,
    }
}

/// One or more textual record-chunk entries up to the closing brace.
pub open spec fn spec_parse_jfc_entries1(buf: Seq<u8>, pos: int) -> Option<
    (Seq<FileChunkView>, int),
>
    decreases buf.len() - pos,
{
    if pos < 0 || pos >= buf.len() {
        None
    } else {
        match spec_parse_jfc_entry(buf, pos) {
            Some((c, p)) => if p <= pos || p >= buf.len() {
                None
            } else if buf[p] == 0x7d {
                Some((seq![c], p + 1))
            } else if buf[p] == 0x2c {
                match spec_parse_jfc_entries1(buf, p + 1) {
                    Some((rest, p2)) => Some((seq![c] + rest, p2)),
                    None => None,
                }
            } else {
                None
            },
            None => None,
        }
    }
}

/// What reading one textual file record at `pos` yields.
pub open spec fn spec_parse_jrecord(buf: Seq<u8>, pos: int) -> Option<(FileRecordView, int)> {
    match spec_expect(buf, pos, 0x7b) {
        Some(p1) => match spec_parse_jstr(buf, p1) {
            Some((k1, p2)) => if k1 == "path"@ {
                match spec_expect(buf, p2, 0x3a) {
                    Some(p3) => match spec_parse_jstr(buf, p3) {
                        Some((path, p4)) => match spec_expect(buf, p4, 0x2c) {
                            Some(p5) => match spec_parse_jstr(buf, p5) {
                                Some((k2, p6)) => if k2 == "chunks"@ {
                                    match spec_expect(buf, p6, 0x3a) {
                                        Some(p7) => match spec_parse_jfc_map(buf, p7) {
                                            Some((chunks, p9)) => match spec_expect(buf, p9, 0x7d) {
                                                Some(p10) => Some(
                                                    (FileRecordView { path, chunks }, p10),
                                                ),
                                                None => None,
                                            },
                                            None => None,
                                        },
                                        None => None,
                                    }
                                } else {
                                    None
                                },
                                None => None,
                            },
                            None => None,
                        },
                        None => None,
                    },
                    None => None,
                }
            } else {
                None
            },
            None => None,
        },
        None => None,
    }
}

/// One textual file-map entry.
pub open spec fn spec_parse_jrecord_entry(buf: Seq<u8>, pos: int) -> Option<(FileRecordView, int)> {
    match spec_parse_jstr(buf, pos) {
        Some((k, p1)) => match spec_expect(buf, p1, 0x3a) {
            Some(p2) => match spec_parse_jrecord(buf, p2) {
                Some((r, p3)) => if r.path == k {
                    Some((r, p3))
                } else {
                    None
                },
                None => None,
            },
            None => None,
        },
        None => None,
    }
}

/// One or more textual file-map entries up to the closing brace.
pub open spec fn spec_parse_jrecord_entries1(buf: Seq<u8>, pos: int) -> Option<
    (Seq<FileRecordView>, int),
>
    decreases buf.len() - pos,
{
    if pos < 0 || pos >= buf.len() {
        None
    } else {
        match spec_parse_jrecord_entry(buf, pos) {
            Some((r, p)) => if p <= pos || p >= buf.len() {
                None
            } else if buf[p] == 0x7d {
                Some((seq![r], p + 1))
            } else if buf[p] == 0x2c {
                match spec_parse_jrecord_entries1(buf, p + 1) {
                    Some((rest, p2)) => Some((seq![r] + rest, p2)),
                    None => None,
                }
            } else {
                None
            },
            None => None,
        }
    }
}

/// One or more textual symlink entries up to the closing bracket.
pub open spec fn spec_parse_jsymlink_entries1(buf: Seq<u8>, pos: int) -> Option<
    (Seq<SymlinkView>, int),
>
    decreases buf.len() - pos,
{
    if pos < 0 || pos >= buf.len() {
        None
    } else {
        match spec_parse_jsymlink(buf, pos) {
            Some((l, p)) => if p <= pos || p >= buf.len() {
                None
            } else if buf[p] == 0x5d {
                Some((seq![l], p + 1))
            } else if buf[p] == 0x2c {
                match spec_parse_jsymlink_entries1(buf, p + 1) {
                    Some((rest, p2)) => Some((seq![l] + rest, p2)),
                    None => None,
                }
            } else {
                None
            },
            None => None,
        }
    }
}

/// What reading a whole textual manifest at `pos` yields.
pub open spec fn spec_parse_json_manifest(buf: Seq<u8>, pos: int) -> Option<
    ((Seq<ChunkView>, Seq<FileRecordView>, Seq<SymlinkView>), int),
> {
    match spec_expect(buf, pos, 0x7b) {
        Some(p1) => match spec_parse_jstr(buf, p1) {
            Some((k1, p2)) => if k1 == "chunk_map"@ {
                match spec_expect(buf, p2, 0x3a) {
                    Some(p3) => match spec_parse_jchunk_map(buf, p3) {
                        Some((chunks, p4)) => match spec_expect(buf, p4, 0x2c) {
                            Some(p5) => match spec_parse_jstr(buf, p5) {
                                Some((k2, p6)) => if k2 == "file_metadata_map"@ {
                                    match spec_expect(buf, p6, 0x3a) {
                                        Some(p7) => match spec_parse_jrecord_map(buf, p7) {
                                            Some((files, p8)) => match spec_expect(buf, p8, 0x2c) {
                                                Some(p9) => match spec_parse_jstr(buf, p9) {
                                                    Some((k3, p10)) => if k3 == "symlinks"@ {
                                                        match spec_expect(buf, p10, 0x3a) {
                                                            Some(p11) => match spec_parse_jsymlink_array(
                                                                buf,
                                                                p11,
                                                            ) {
                                                                Some((links, p12)) => match spec_expect(
                                                                    buf,
                                                                    p12,
                                                                    0x7d,
                                                                ) {
                                                                    Some(p13) => Some(
                                                                        ((chunks, files, links), p13),
                                                                    ),
                                                                    None => None,
                                                                },
                                                                None => None,
                                                            },
                                                            None => None,
                                                        }
                                                    } else {
                                                        None
                                                    },
                                                    None => None,
                                                },
                                                None => None,
                                            },
                                            None => None,
                                        },
                                        None => None,
                                    }
                                } else {
                                    None
                                },
                                None => None,
                            },
                            None => None,
                        },
                        None => None,
                    },
                    None => None,
                }
            } else {
                None
            },
            None => None,
        },
        None => None,
    }
}

/// Steps past `pos` when the byte there is `b`.
#[verifier::rlimit(100)]
#[verifier::spinoff_prover]
fn take_expect(buf: &Vec<u8>, pos: usize, b: u8) -> (r: Option<usize>)
    ensures
        match r {
            Some(p) => spec_expect(buf@, pos as int, b) == Some(p as int) && p <= buf@.len(),
            None => spec_expect(buf@, pos as int, b) is None,
        },
{
    if pos < buf.len() && buf[pos] == b {
        Some(pos + 1)
    } else {
        None
    }
}

/// The nibble of a lowercase hexadecimal character.
fn hexv(b: u8) -> (r: u8)
    requires
        is_hex_byte(b),
    ensures
        r == hex_val(b),
{
    if b <= 0x39 {
        b - 0x30
    } else {
        b - 0x57
    }
}

/// Reads a textual string.
#[verifier::rlimit(100)]
#[verifier::spinoff_prover]
fn take_jstr(buf: &Vec<u8>, pos: usize) -> (r: Option<(String, usize)>)
    ensures
        match r {
            Some(p) => spec_parse_jstr(buf@, pos as int) == Some((p.0@, p.1 as int)) && p.1
                <= buf@.len(),
            None => spec_parse_jstr(buf@, pos as int) is None,
        },
{
    if pos >= buf.len() || buf[pos] != 0x22 {
        return None;
    }
    let ghost start = pos as int + 1;
    let mut acc: Vec<u8> = Vec::new();
    let mut cur: usize = pos + 1;
    proof {
        assert(acc@ + Seq::<u8>::empty() =~= acc@);
    }
    loop
        invariant
            pos < buf@.len(),
            buf@[pos as int] == 0x22,
            start == pos as int + 1,
            cur <= buf@.len(),
            spec_scan_jstr(buf@, start) == (match spec_scan_jstr(buf@, cur as int) {
                Some(p) => Some((acc@ + p.0, p.1)),
                None => None::<(Seq<u8>, int)>,
            }),
        decreases buf@.len() - cur,
    {
        if cur >= buf.len() {
            return None;
        }
        let b = buf[cur];
        if b == 0x22 {
            proof {
                assert(spec_scan_jstr(buf@, cur as int) == Some(
                    (Seq::<u8>::empty(), cur as int + 1),
                ));
                assert(acc@ + Seq::<u8>::empty() =~= acc@);
            }
            let ghost accv = acc@;
            match crate::codec_bin::bytes_to_string(acc) {
                Some(st) => {
                    proof {
                        broadcast use vstd::utf8::encode_utf8_decode_utf8;

                        assert(decode_utf8(accv) == st@);
                    }
                    return Some((st, cur + 1));
                },
                None => {
                    return None;
                },
            }
        } else if b == 0x5c {
            if cur + 1 >= buf.len() {
                return None;
            }
            let e = buf[cur + 1];
            if e == 0x22 || e == 0x5c {
                proof {
                    let inner = spec_scan_jstr(buf@, cur as int + 2);
                    if inner is Some {
                        let pr = inner->Some_0;
                        assert(acc@ + (seq![e] + pr.0) =~= acc@.push(e) + pr.0);
                    }
                }
                acc.push(e);
                cur = cur + 2;
            } else if e == 0x75 {
                if buf.len() - cur <= 5 {
                    return None;
                }
                let h1 = buf[cur + 4];
                let h2 = buf[cur + 5];
                if buf[cur + 2] != 0x30 || buf[cur + 3] != 0x30 {
                    return None;
                }
                let h1_ok = (0x30 <= h1 && h1 <= 0x39) || (0x61 <= h1 && h1 <= 0x66);
                let h2_ok = (0x30 <= h2 && h2 <= 0x39) || (0x61 <= h2 && h2 <= 0x66);
                if !h1_ok || !h2_ok {
                    return None;
                }
                let v = hexv(h1) * 16 + hexv(h2);
                proof {
                    let inner = spec_scan_jstr(buf@, cur as int + 6);
                    if inner is Some {
                        let pr = inner->Some_0;
                        assert(acc@ + (seq![v] + pr.0) =~= acc@.push(v) + pr.0);
                    }
                }
                acc.push(v);
                cur = cur + 6;
            } else {
                return None;
            }
        } else if b >= 0x20 {
            proof {
                let inner = spec_scan_jstr(buf@, cur as int + 1);
                if inner is Some {
                    let pr = inner->Some_0;
                    assert(acc@ + (seq![b] + pr.0) =~= acc@.push(b) + pr.0);
                }
            }
            acc.push(b);
            cur = cur + 1;
        } else {
            return None;
        }
    }
}

/// Reads a decimal number.
#[verifier::rlimit(100)]
#[verifier::spinoff_prover]
fn take_jnum(buf: &Vec<u8>, pos: usize) -> (r: Option<(u64, usize)>)
    ensures
        match r {
            Some(p) => spec_parse_jnum(buf@, pos as int) == Some((p.0 as int, p.1 as int)) && p.1
                <= buf@.len(),
            None => spec_parse_jnum(buf@, pos as int) is None,
        },
{
    if pos >= buf.len() || buf[pos] < 0x30 || buf[pos] > 0x39 {
        return None;
    }
    let mut v: u64 = 0;
    let mut cur: usize = pos;
    while cur < buf.len() && 0x30 <= buf[cur] && buf[cur] <= 0x39
        invariant
            pos <= cur <= buf@.len(),
            spec_scan_num(buf@, pos as int, 0) == spec_scan_num(buf@, cur as int, v as int),
        decreases buf@.len() - cur,
    {
        let d = buf[cur] - 0x30;
        let v10 = match v.checked_mul(10) {
            Some(x) => x,
            None => {
                return None;
            },
        };
        let v2 = match v10.checked_add(d as u64) {
            Some(x) => x,
            None => {
                return None;
            },
        };
        v = v2;
        cur = cur + 1;
    }
    Some((v, cur))
}

/// Reads one textual chunk record.
#[verifier::rlimit(100)]
#[verifier::spinoff_prover]
fn take_jchunk(buf: &Vec<u8>, pos: usize) -> (r: Option<(Chunk, usize)>)
    ensures
        match r {
            Some(p) => spec_parse_jchunk(buf@, pos as int) == Some((p.0@, p.1 as int)) && p.1
                <= buf@.len(),
            None => spec_parse_jchunk(buf@, pos as int) is None,
        },
{
    let p1 = match take_expect(buf, pos, 0x7b) {
        Some(x) => x,
        None => {
            return None;
        },
    };
    let (k1, p2) = match take_jstr(buf, p1) {
        Some(x) => x,
        None => {
            return None;
        },
    };
    if !crate::codec_bin::key_eq(&k1, "hash") {
        return None;
    }
    let p3 = match take_expect(buf, p2, 0x3a) {
        Some(x) => x,
        None => {
            return None;
        },
    };
    let (h, p4) = match take_jstr(buf, p3) {
        Some(x) => x,
        None => {
            return None;
        },
    };
    let p5 = match take_expect(buf, p4, 0x2c) {
        Some(x) => x,
        None => {
            return None;
        },
    };
    let (k2, p6) = match take_jstr(buf, p5) {
        Some(x) => x,
        None => {
            return None;
        },
    };
    if !crate::codec_bin::key_eq(&k2, "length") {
        return None;
    }
    let p7 = match take_expect(buf, p6, 0x3a) {
        Some(x) => x,
        None => {
            return None;
        },
    };
    let (v, p8) = match take_jnum(buf, p7) {
        Some(x) => x,
        None => {
            return None;
        },
    };
    if v > usize::MAX as u64 {
        return None;
    }
    let p9 = match take_expect(buf, p8, 0x7d) {
        Some(x) => x,
        None => {
            return None;
        },
    };
    Some((Chunk { hash: h, length: v as usize }, p9))
}

/// Reads one textual file chunk.
#[verifier::rlimit(100)]
#[verifier::spinoff_prover]
fn take_jfile_chunk(buf: &Vec<u8>, pos: usize) -> (r: Option<(FileChunk, usize)>)
    ensures
        match r {
            Some(p) => spec_parse_jfile_chunk(buf@, pos as int) == Some((p.0@, p.1 as int)) && p.1
                <= buf@.len(),
            None => spec_parse_jfile_chunk(buf@, pos as int) is None,
        },
{
    let p1 = match take_expect(buf, pos, 0x7b) {
        Some(x) => x,
        None => {
            return None;
        },
    };
    let (k1, p2) = match take_jstr(buf, p1) {
        Some(x) => x,
        None => {
            return None;
        },
    };
    if !crate::codec_bin::key_eq(&k1, "hash") {
        return None;
    }
    let p3 = match take_expect(buf, p2, 0x3a) {
        Some(x) => x,
        None => {
            return None;
        },
    };
    let (h, p4) = match take_jstr(buf, p3) {
        Some(x) => x,
        None => {
            return None;
        },
    };
    let p5 = match take_expect(buf, p4, 0x2c) {
        Some(x) => x,
        None => {
            return None;
        },
    };
    let (k2, p6) = match take_jstr(buf, p5) {
        Some(x) => x,
        None => {
            return None;
        },
    };
    if !crate::codec_bin::key_eq(&k2, "offset") {
        return None;
    }
    let p7 = match take_expect(buf, p6, 0x3a) {
        Some(x) => x,
        None => {
            return None;
        },
    };
    let (off, p8) = match take_jnum(buf, p7) {
        Some(x) => x,
        None => {
            return None;
        },
    };
    let p9 = match take_expect(buf, p8, 0x2c) {
        Some(x) => x,
        None => {
            return None;
        },
    };
    let (k3, p10) = match take_jstr(buf, p9) {
        Some(x) => x,
        None => {
            return None;
        },
    };
    if !crate::codec_bin::key_eq(&k3, "length") {
        return None;
    }
    let p11 = match take_expect(buf, p10, 0x3a) {
        Some(x) => x,
        None => {
            return None;
        },
    };
    let (v, p12) = match take_jnum(buf, p11) {
        Some(x) => x,
        None => {
            return None;
        },
    };
    if v > usize::MAX as u64 {
        return None;
    }
    let p13 = match take_expect(buf, p12, 0x7d) {
        Some(x) => x,
        None => {
            return None;
        },
    };
    Some((FileChunk { hash: h, offset: off, length: v as usize }, p13))
}

/// Reads one textual symbolic link.
#[verifier::rlimit(100)]
#[verifier::spinoff_prover]
fn take_jsymlink(buf: &Vec<u8>, pos: usize) -> (r: Option<(Symlink, usize)>)
    ensures
        match r {
            Some(p) => spec_parse_jsymlink(buf@, pos as int) == Some((p.0@, p.1 as int)) && p.1
                <= buf@.len(),
            None => spec_parse_jsymlink(buf@, pos as int) is None,
        },
{
    let p1 = match take_expect(buf, pos, 0x7b) {
        Some(x) => x,
        None => {
            return None;
        },
    };
    let (k1, p2) = match take_jstr(buf, p1) {
        Some(x) => x,
        None => {
            return None;
        },
    };
    if !crate::codec_bin::key_eq(&k1, "from") {
        return None;
    }
    let p3 = match take_expect(buf, p2, 0x3a) {
        Some(x) => x,
        None => {
            return None;
        },
    };
    let (from, p4) = match take_jstr(buf, p3) {
        Some(x) => x,
        None => {
            return None;
        },
    };
    let p5 = match take_expect(buf, p4, 0x2c) {
        Some(x) => x,
        None => {
            return None;
        },
    };
    let (k2, p6) = match take_jstr(buf, p5) {
        Some(x) => x,
        None => {
            return None;
        },
    };
    if !crate::codec_bin::key_eq(&k2, "to") {
        return None;
    }
    let p7 = match take_expect(buf, p6, 0x3a) {
        Some(x) => x,
        None => {
            return None;
        },
    };
    let (to, p8) = match take_jstr(buf, p7) {
        Some(x) => x,
        None => {
            return None;
        },
    };
    let p9 = match take_expect(buf, p8, 0x7d) {
        Some(x) => x,
        None => {
            return None;
        },
    };
    Some((Symlink { from, to }, p9))
}

/// Reads a comma-separated chunk-entry list up to its closing brace.
#[verifier::rlimit(100)]
#[verifier::spinoff_prover]
fn take_jchunk_entries1(buf: &Vec<u8>, pos: usize) -> (r: Option<(Vec<Chunk>, usize)>)
    ensures
        match r {
            Some(p) => spec_parse_jchunk_entries1(buf@, pos as int) == Some(
                (chunk_map_views(p.0@), p.1 as int),
            ) && p.1 <= buf@.len(),
            None => spec_parse_jchunk_entries1(buf@, pos as int) is None,
        },
{
    let mut acc: Vec<Chunk> = Vec::new();
    let mut cur: usize = pos;
    proof {
        assert(chunk_map_views(acc@) =~= Seq::<ChunkView>::empty());
    }
    loop
        invariant
            spec_parse_jchunk_entries1(buf@, pos as int) == (match spec_parse_jchunk_entries1(
                buf@,
                cur as int,
            ) {
                Some(p) => Some((chunk_map_views(acc@) + p.0, p.1)),
                None => None::<(Seq<ChunkView>, int)>,
            }),
        decreases buf@.len() - cur,
    {
        if cur >= buf.len() {
            return None;
        }
        let (k, p1) = match take_jstr(buf, cur) {
            Some(x) => x,
            None => {
                return None;
            },
        };
        let p2 = match take_expect(buf, p1, 0x3a) {
            Some(x) => x,
            None => {
                return None;
            },
        };
        let (c, p3) = match take_jchunk(buf, p2) {
            Some(x) => x,
            None => {
                return None;
            },
        };
        if !(k == c.hash) {
            return None;
        }
        if p3 <= cur || p3 >= buf.len() {
            return None;
        }
        if buf[p3] == 0x7d {
            proof {
                assert(chunk_map_views(acc@) + seq![c@] =~= chunk_map_views(acc@.push(c)));
            }
            acc.push(c);
            return Some((acc, p3 + 1));
        } else if buf[p3] == 0x2c {
            proof {
                let inner = spec_parse_jchunk_entries1(buf@, p3 as int + 1);
                if inner is Some {
                    let pr = inner->Some_0;
                    assert(chunk_map_views(acc@) + (seq![c@] + pr.0) =~= chunk_map_views(
                        acc@.push(c),
                    ) + pr.0);
                }
            }
            acc.push(c);
            cur = p3 + 1;
        } else {
            return None;
        }
    }
}

/// Reads a comma-separated record-chunk list up to its closing brace.
#[verifier::rlimit(100)]
#[verifier::spinoff_prover]
fn take_jfc_entries1(buf: &Vec<u8>, pos: usize) -> (r: Option<(Vec<FileChunk>, usize)>)
    ensures
        match r {
            Some(p) => spec_parse_jfc_entries1(buf@, pos as int) == Some(
                (chunk_views(p.0@), p.1 as int),
            ) && p.1 <= buf@.len(),
            None => spec_parse_jfc_entries1(buf@, pos as int) is None,
        },
{
    let mut acc: Vec<FileChunk> = Vec::new();
    let mut cur: usize = pos;
    proof {
        assert(chunk_views(acc@) =~= Seq::<FileChunkView>::empty());
    }
    loop
        invariant
            spec_parse_jfc_entries1(buf@, pos as int) == (match spec_parse_jfc_entries1(
                buf@,
                cur as int,
            ) {
                Some(p) => Some((chunk_views(acc@) + p.0, p.1)),
                None => None::<(Seq<FileChunkView>, int)>,
            }),
        decreases buf@.len() - cur,
    {
        if cur >= buf.len() {
            return None;
        }
        let (k, p1) = match take_jstr(buf, cur) {
            Some(x) => x,
            None => {
                return None;
            },
        };
        let p2 = match take_expect(buf, p1, 0x3a) {
            Some(x) => x,
            None => {
                return None;
            },
        };
        let (c, p3) = match take_jfile_chunk(buf, p2) {
            Some(x) => x,
            None => {
                return None;
            },
        };
        if !(k == c.hash) {
            return None;
        }
        if p3 <= cur || p3 >= buf.len() {
            return None;
        }
        if buf[p3] == 0x7d {
            proof {
                assert(chunk_views(acc@) + seq![c@] =~= chunk_views(acc@.push(c)));
            }
            acc.push(c);
            return Some((acc, p3 + 1));
        } else if buf[p3] == 0x2c {
            proof {
                let inner = spec_parse_jfc_entries1(buf@, p3 as int + 1);
                if inner is Some {
                    let pr = inner->Some_0;
                    assert(chunk_views(acc@) + (seq![c@] + pr.0) =~= chunk_views(acc@.push(c))
                        + pr.0);
                }
            }
            acc.push(c);
            cur = p3 + 1;
        } else {
            return None;
        }
    }
}

/// Reads one textual file record.
#[verifier::rlimit(100)]
#[verifier::spinoff_prover]
fn take_jrecord(buf: &Vec<u8>, pos: usize) -> (r: Option<(FileMetadata, usize)>)
    ensures
        match r {
            Some(p) => spec_parse_jrecord(buf@, pos as int) == Some((p.0@, p.1 as int)) && p.1
                <= buf@.len(),
            None => spec_parse_jrecord(buf@, pos as int) is None,
        },
{
    let p1 = match take_expect(buf, pos, 0x7b) {
        Some(x) => x,
        None => {
            return None;
        },
    };
    let (k1, p2) = match take_jstr(buf, p1) {
        Some(x) => x,
        None => {
            return None;
        },
    };
    if !crate::codec_bin::key_eq(&k1, "path") {
        return None;
    }
    let p3 = match take_expect(buf, p2, 0x3a) {
        Some(x) => x,
        None => {
            return None;
        },
    };
    let (path, p4) = match take_jstr(buf, p3) {
        Some(x) => x,
        None => {
            return None;
        },
    };
    let p5 = match take_expect(buf, p4, 0x2c) {
        Some(x) => x,
        None => {
            return None;
        },
    };
    let (k2, p6) = match take_jstr(buf, p5) {
        Some(x) => x,
        None => {
            return None;
        },
    };
    if !crate::codec_bin::key_eq(&k2, "chunks") {
        return None;
    }
    let p7 = match take_expect(buf, p6, 0x3a) {
        Some(x) => x,
        None => {
            return None;
        },
    };
    let p8 = match take_expect(buf, p7, 0x7b) {
        Some(x) => x,
        None => {
            return None;
        },
    };
    let (chunks, p9) = if p8 < buf.len() && buf[p8] == 0x7d {
        (Vec::new(), p8 + 1)
    } else {
        match take_jfc_entries1(buf, p8) {
            Some(x) => x,
            None => {
                return None;
            },
        }
    };
    proof {
        if p8 < buf@.len() && buf@[p8 as int] == 0x7d {
            assert(chunk_views(chunks@) =~= Seq::<FileChunkView>::empty());
        }
    }
    let p10 = match take_expect(buf, p9, 0x7d) {
        Some(x) => x,
        None => {
            return None;
        },
    };
    Some((FileMetadata { path, chunks }, p10))
}

/// Reads a comma-separated file-map entry list up to its closing brace.
#[verifier::rlimit(100)]
#[verifier::spinoff_prover]
fn take_jrecord_entries1(buf: &Vec<u8>, pos: usize) -> (r: Option<(Vec<FileMetadata>, usize)>)
    ensures
        match r {
            Some(p) => spec_parse_jrecord_entries1(buf@, pos as int) == Some(
                (p.0@.map_values(|f: FileMetadata| f@), p.1 as int),
            ) && p.1 <= buf@.len(),
            None => spec_parse_jrecord_entries1(buf@, pos as int) is None,
        },
{
    let mut acc: Vec<FileMetadata> = Vec::new();
    let mut cur: usize = pos;
    proof {
        assert(acc@.map_values(|f: FileMetadata| f@) =~= Seq::<FileRecordView>::empty());
    }
    loop
        invariant
            spec_parse_jrecord_entries1(buf@, pos as int) == (match spec_parse_jrecord_entries1(
                buf@,
                cur as int,
            ) {
                Some(p) => Some((acc@.map_values(|f: FileMetadata| f@) + p.0, p.1)),
                None => None::<(Seq<FileRecordView>, int)>,
            }),
        decreases buf@.len() - cur,
    {
        if cur >= buf.len() {
            return None;
        }
        let (k, p1) = match take_jstr(buf, cur) {
            Some(x) => x,
            None => {
                return None;
            },
        };
        let p2 = match take_expect(buf, p1, 0x3a) {
            Some(x) => x,
            None => {
                return None;
            },
        };
        let (fm, p3) = match take_jrecord(buf, p2) {
            Some(x) => x,
            None => {
                return None;
            },
        };
        if !(k == fm.path) {
            return None;
        }
        if p3 <= cur || p3 >= buf.len() {
            return None;
        }
        if buf[p3] == 0x7d {
            proof {
                assert(acc@.map_values(|f: FileMetadata| f@) + seq![fm@] =~= acc@.push(
                    fm,
                ).map_values(|f: FileMetadata| f@));
            }
            acc.push(fm);
            return Some((acc, p3 + 1));
        } else if buf[p3] == 0x2c {
            proof {
                let inner = spec_parse_jrecord_entries1(buf@, p3 as int + 1);
                if inner is Some {
                    let pr = inner->Some_0;
                    assert(acc@.map_values(|f: FileMetadata| f@) + (seq![fm@] + pr.0)
                        =~= acc@.push(fm).map_values(|f: FileMetadata| f@) + pr.0);
                }
            }
            acc.push(fm);
            cur = p3 + 1;
        } else {
            return None;
        }
    }
}

/// Reads a comma-separated symlink list up to its closing bracket.
#[verifier::rlimit(100)]
#[verifier::spinoff_prover]
fn take_jsymlink_entries1(buf: &Vec<u8>, pos: usize) -> (r: Option<(Vec<Symlink>, usize)>)
    ensures
        match r {
            Some(p) => spec_parse_jsymlink_entries1(buf@, pos as int) == Some(
                (symlink_views(p.0@), p.1 as int),
            ) && p.1 <= buf@.len(),
            None => spec_parse_jsymlink_entries1(buf@, pos as int) is None,
        },
{
    let mut acc: Vec<Symlink> = Vec::new();
    let mut cur: usize = pos;
    proof {
        assert(symlink_views(acc@) =~= Seq::<SymlinkView>::empty());
    }
    loop
        invariant
            spec_parse_jsymlink_entries1(buf@, pos as int) == (match spec_parse_jsymlink_entries1(
                buf@,
                cur as int,
            ) {
                Some(p) => Some((symlink_views(acc@) + p.0, p.1)),
                None => None::<(Seq<SymlinkView>, int)>,
            }),
        decreases buf@.len() - cur,
    {
        if cur >= buf.len() {
            return None;
        }
        let (l, p1) = match take_jsymlink(buf, cur) {
            Some(x) => x,
            None => {
                return None;
            },
        };
        if p1 <= cur || p1 >= buf.len() {
            return None;
        }
        if buf[p1] == 0x5d {
            proof {
                assert(symlink_views(acc@) + seq![l@] =~= symlink_views(acc@.push(l)));
            }
            acc.push(l);
            return Some((acc, p1 + 1));
        } else if buf[p1] == 0x2c {
            proof {
                let inner = spec_parse_jsymlink_entries1(buf@, p1 as int + 1);
                if inner is Some {
                    let pr = inner->Some_0;
                    assert(symlink_views(acc@) + (seq![l@] + pr.0) =~= symlink_views(acc@.push(l))
                        + pr.0);
                }
            }
            acc.push(l);
            cur = p1 + 1;
        } else {
            return None;
        }
    }
}

/// Reads a whole manifest from the textual form.
#[verifier::rlimit(100)]
#[verifier::spinoff_prover]
pub fn decode_json_manifest(buf: &Vec<u8>) -> (r: Option<
    (Vec<Chunk>, Vec<FileMetadata>, Vec<Symlink>),
>)
    ensures
        match r {
            Some(p) => match spec_parse_json_manifest(buf@, 0) {
                Some(q) => q.0.0 == chunk_map_views(p.0@) && q.0.1 == p.1@.map_values(
                    |f: FileMetadata| f@,
                ) && q.0.2 == symlink_views(p.2@),
                None => false,
            },
            None => spec_parse_json_manifest(buf@, 0) is None,
        },
{
    let p1 = match take_expect(buf, 0, 0x7b) {
        Some(x) => x,
        None => {
            return None;
        },
    };
    let (k1, p2) = match take_jstr(buf, p1) {
        Some(x) => x,
        None => {
            return None;
        },
    };
    if !crate::codec_bin::key_eq(&k1, "chunk_map") {
        return None;
    }
    let p3 = match take_expect(buf, p2, 0x3a) {
        Some(x) => x,
        None => {
            return None;
        },
    };
    let p3b = match take_expect(buf, p3, 0x7b) {
        Some(x) => x,
        None => {
            return None;
        },
    };
    let (chunks, p4) = if p3b < buf.len() && buf[p3b] == 0x7d {
        (Vec::new(), p3b + 1)
    } else {
        match take_jchunk_entries1(buf, p3b) {
            Some(x) => x,
            None => {
                return None;
            },
        }
    };
    proof {
        if p3b < buf@.len() && buf@[p3b as int] == 0x7d {
            assert(chunk_map_views(chunks@) =~= Seq::<ChunkView>::empty());
        }
    }
    let p5 = match take_expect(buf, p4, 0x2c) {
        Some(x) => x,
        None => {
            return None;
        },
    };
    let (k2, p6) = match take_jstr(buf, p5) {
        Some(x) => x,
        None => {
            return None;
        },
    };
    if !crate::codec_bin::key_eq(&k2, "file_metadata_map") {
        return None;
    }
    let p7 = match take_expect(buf, p6, 0x3a) {
        Some(x) => x,
        None => {
            return None;
        },
    };
    let p8 = match take_expect(buf, p7, 0x7b) {
        Some(x) => x,
        None => {
            return None;
        },
    };
    let (files, p9) = if p8 < buf.len() && buf[p8] == 0x7d {
        (Vec::new(), p8 + 1)
    } else {
        match take_jrecord_entries1(buf, p8) {
            Some(x) => x,
            None => {
                return None;
            },
        }
    };
    proof {
        if p8 < buf@.len() && buf@[p8 as int] == 0x7d {
            assert(files@.map_values(|f: FileMetadata| f@) =~= Seq::<FileRecordView>::empty());
        }
    }
    let p10 = match take_expect(buf, p9, 0x2c) {
        Some(x) => x,
        None => {
            return None;
        },
    };
    let (k3, p11) = match take_jstr(buf, p10) {
        Some(x) => x,
        None => {
            return None;
        },
    };
    if !crate::codec_bin::key_eq(&k3, "symlinks") {
        return None;
    }
    let p12 = match take_expect(buf, p11, 0x3a) {
        Some(x) => x,
        None => {
            return None;
        },
    };
    let p13 = match take_expect(buf, p12, 0x5b) {
        Some(x) => x,
        None => {
            return None;
        },
    };
    let (links, p14) = if p13 < buf.len() && buf[p13] == 0x5d {
        (Vec::new(), p13 + 1)
    } else {
        match take_jsymlink_entries1(buf, p13) {
            Some(x) => x,
            None => {
                return None;
            },
        }
    };
    proof {
        if p13 < buf@.len() && buf@[p13 as int] == 0x5d {
            assert(symlink_views(links@) =~= Seq::<SymlinkView>::empty());
        }
    }
    let _p15 = match take_expect(buf, p14, 0x7d) {
        Some(x) => x,
        None => {
            return None;
        },
    };
    Some((chunks, files, links))
}

/// The value of a digit string folded onto an accumulator, most
/// significant digit first.
pub open spec fn dec_fold(acc: int, ds: Seq<u8>) -> int
    decreases ds.len(),
{
    if ds.len() == 0 {
        acc
    } else {
        dec_fold(acc * 10 + (ds[0] - 0x30), ds.drop_first())
    }
}

/// Folding grows the accumulator.
proof fn lemma_dec_fold_grows(acc: int, ds: Seq<u8>)
    requires
        0 <= acc,
        forall|j: int| 0 <= j < ds.len() ==> is_digit_byte(#[trigger] ds[j]),
    ensures
        dec_fold(acc, ds) >= acc,
    decreases ds.len(),
{
    if ds.len() > 0 {
        lemma_dec_fold_grows(acc * 10 + (ds[0] - 0x30), ds.drop_first());
    }
}

/// One more digit at the end multiplies and adds.
proof fn lemma_dec_fold_push(acc: int, ds: Seq<u8>, d: u8)
    ensures
        dec_fold(acc, ds.push(d)) == dec_fold(acc, ds) * 10 + (d - 0x30),
    decreases ds.len(),
{
    reveal_with_fuel(dec_fold, 3);
    if ds.len() == 0 {
        assert(ds.push(d) =~= seq![d]);
        assert(seq![d].drop_first() =~= Seq::<u8>::empty());
    } else {
        assert(ds.push(d)[0] == ds[0]);
        assert(ds.push(d).drop_first() =~= ds.drop_first().push(d));
        lemma_dec_fold_push(acc * 10 + (ds[0] - 0x30), ds.drop_first(), d);
    }
}

/// The decimal digits of a number denote the number.
proof fn lemma_dec_digits(n: int)
    requires
        0 <= n,
    ensures
        spec_dec(n).len() >= 1,
        forall|j: int| 0 <= j < spec_dec(n).len() ==> is_digit_byte(#[trigger] spec_dec(n)[j]),
        dec_fold(0, spec_dec(n)) == n,
    decreases n,
{
    if n < 10 {
        reveal_with_fuel(dec_fold, 2);
        assert(spec_dec(n) =~= seq![(0x30 + n) as u8]);
        assert(seq![(0x30 + n) as u8].drop_first() =~= Seq::<u8>::empty());
    } else {
        lemma_dec_digits(n / 10);
        lemma_dec_fold_push(0, spec_dec(n / 10), (0x30 + n % 10) as u8);
        assert(forall|j: int|
            0 <= j < spec_dec(n / 10).len() ==> #[trigger] spec_dec(n)[j] == spec_dec(n / 10)[j]);
    }
}

/// Scanning a digit string located in the buffer folds it onto the
/// accumulator, provided the folded value stays within range and the next
/// byte is not a digit.
proof fn lemma_scan_digits(buf: Seq<u8>, pos: int, acc: int, ds: Seq<u8>)
    requires
        0 <= pos,
        0 <= acc,
        pos + ds.len() <= buf.len(),
        forall|j: int| 0 <= j < ds.len() ==> is_digit_byte(#[trigger] ds[j]),
        buf.subrange(pos, pos + ds.len() as int) == ds,
        pos + ds.len() == buf.len() || !is_digit_byte(buf[pos + ds.len()]),
        dec_fold(acc, ds) < 0x10000000000000000,
    ensures
        spec_scan_num(buf, pos, acc) == Some((dec_fold(acc, ds), pos + ds.len() as int)),
    decreases ds.len(),
{
    if ds.len() == 0 {
    } else {
        assert(buf[pos] == ds[0]) by {
            assert(buf.subrange(pos, pos + ds.len() as int)[0] == buf[pos]);
        }
        let acc2 = acc * 10 + (ds[0] - 0x30);
        lemma_dec_fold_grows(acc2, ds.drop_first());
        assert(dec_fold(acc, ds) == dec_fold(acc2, ds.drop_first()));
        assert(buf.subrange(pos + 1, pos + ds.len() as int) =~= ds.drop_first()) by {
            assert forall|q: int| 0 <= q < ds.len() - 1 implies buf.subrange(
                pos + 1,
                pos + ds.len() as int,
            )[q] == ds.drop_first()[q] by {
                assert(buf.subrange(pos, pos + ds.len() as int)[q + 1] == buf[pos + 1 + q]);
            }
        }
        lemma_scan_digits(buf, pos + 1, acc2, ds.drop_first());
    }
}

/// Reading a number's decimal form yields the number.
proof fn lemma_parse_jnum_of(buf: Seq<u8>, pos: int, n: int)
    requires
        0 <= pos,
        0 <= n < 0x10000000000000000,
        pos + spec_dec(n).len() <= buf.len(),
        buf.subrange(pos, pos + spec_dec(n).len() as int) == spec_dec(n),
        pos + spec_dec(n).len() == buf.len() || !is_digit_byte(buf[pos + spec_dec(n).len()]),
    ensures
        spec_parse_jnum(buf, pos) == Some((n, pos + spec_dec(n).len() as int)),
{
    lemma_dec_digits(n);
    assert(buf[pos] == spec_dec(n)[0]) by {
        assert(buf.subrange(pos, pos + spec_dec(n).len() as int)[0] == buf[pos]);
    }
    lemma_scan_digits(buf, pos, 0, spec_dec(n));
}

/// The hexadecimal rendering of a nibble reads back as the nibble.
proof fn lemma_hex_roundtrip(n: u8)
    requires
        n < 16,
    ensures
        is_hex_byte(hex_char(n)),
        hex_val(hex_char(n)) == n,
{
}

/// Scanning escaped content up to a closing quote recovers the content.
#[verifier::rlimit(100)]
#[verifier::spinoff_prover]
proof fn lemma_scan_esc(buf: Seq<u8>, pos: int, s: Seq<u8>)
    requires
        0 <= pos,
        pos + esc_bytes(s).len() + 1 <= buf.len(),
        buf.subrange(pos, pos + esc_bytes(s).len() as int) == esc_bytes(s),
        buf[pos + esc_bytes(s).len()] == 0x22,
    ensures
        spec_scan_jstr(buf, pos) == Some((s, pos + esc_bytes(s).len() + 1)),
    decreases s.len(),
{
    if s.len() == 0 {
    } else {
        let e = esc_byte(s[0]);
        let rest = esc_bytes(s.drop_first());
        assert(esc_bytes(s) == e + rest);
        crate::codec_bin::lemma_split_at(buf, pos, e, rest);
        assert(buf.subrange(pos + e.len() as int, pos + e.len() + rest.len())
            == rest);
        lemma_scan_esc(buf, pos + e.len() as int, s.drop_first());
        assert(buf[pos] == e[0]) by {
            assert(buf.subrange(pos, pos + e.len() as int)[0] == buf[pos]);
        }
        let b = s[0];
        if b == 0x22 || b == 0x5c {
            assert(buf[pos + 1] == e[1]) by {
                assert(buf.subrange(pos, pos + e.len() as int)[1] == buf[pos + 1]);
            }
            assert(seq![buf[pos + 1]] + s.drop_first() =~= s);
        } else if b < 0x20 {
            assert forall|q: int| 0 <= q < 6 implies buf[pos + q] == e[q] by {
                assert(buf.subrange(pos, pos + e.len() as int)[q] == buf[pos + q]);
            }
            lemma_hex_roundtrip(b / 16);
            lemma_hex_roundtrip(b % 16);
            assert((hex_val(e[4]) * 16 + hex_val(e[5])) as u8 == b);
            assert(seq![(hex_val(buf[pos + 4]) * 16 + hex_val(buf[pos + 5])) as u8]
                + s.drop_first() =~= s);
        } else {
            assert(seq![buf[pos]] + s.drop_first() =~= s);
        }
    }
}

/// Reading a string's textual form yields the string.
#[verifier::rlimit(100)]
#[verifier::spinoff_prover]
proof fn lemma_parse_jstr_of(buf: Seq<u8>, pos: int, s: Seq<char>)
    requires
        0 <= pos,
        pos + spec_jstr(s).len() <= buf.len(),
        buf.subrange(pos, pos + spec_jstr(s).len() as int) == spec_jstr(s),
    ensures
        spec_parse_jstr(buf, pos) == Some((s, pos + spec_jstr(s).len() as int)),
{
    broadcast use vstd::utf8::encode_utf8_valid_utf8;
    broadcast use vstd::utf8::encode_utf8_decode_utf8;

    let eb = esc_bytes(encode_utf8(s));
    let whole = spec_jstr(s);
    assert(whole == seq![0x22u8] + eb + seq![0x22u8]);
    assert(buf[pos] == whole[0]) by {
        assert(buf.subrange(pos, pos + whole.len() as int)[0] == buf[pos]);
    }
    assert(buf.subrange(pos + 1, pos + 1 + eb.len()) =~= eb) by {
        assert forall|q: int| 0 <= q < eb.len() implies buf.subrange(
            pos + 1,
            pos + 1 + eb.len(),
        )[q] == eb[q] by {
            assert(buf.subrange(pos, pos + whole.len() as int)[q + 1] == buf[pos + 1 + q]);
            assert(whole[q + 1] == eb[q]);
        }
    }
    assert(buf[pos + 1 + eb.len()] == 0x22) by {
        assert(buf.subrange(pos, pos + whole.len() as int)[whole.len() - 1] == buf[pos
            + whole.len() - 1]);
        assert(whole[whole.len() - 1] == 0x22);
    }
    lemma_scan_esc(buf, pos + 1, encode_utf8(s));
}

/// Reading one chunk record's textual form yields the record.
#[verifier::rlimit(100)]
#[verifier::spinoff_prover]
proof fn lemma_parse_jchunk_of(buf: Seq<u8>, pos: int, c: ChunkView)
    requires
        0 <= pos,
        pos + spec_jchunk(c).len() <= buf.len(),
        buf.subrange(pos, pos + spec_jchunk(c).len() as int) == spec_jchunk(c),
    ensures
        spec_parse_jchunk(buf, pos) == Some((c, pos + spec_jchunk(c).len() as int)),
{
    let b1 = seq![0x7bu8];
    let k1 = spec_jstr("hash"@);
    let c1 = seq![0x3au8];
    let s1 = spec_jstr(c.hash);
    let m1 = seq![0x2cu8];
    let k2 = spec_jstr("length"@);
    let c2 = seq![0x3au8];
    let u1 = spec_dec(c.length as int);
    let b2 = seq![0x7du8];
    let whole = spec_jchunk(c);
    assert(whole == b1 + k1 + c1 + s1 + m1 + k2 + c2 + u1 + b2);
    crate::codec_bin::lemma_split_at(buf, pos, b1 + k1 + c1 + s1 + m1 + k2 + c2 + u1, b2);
    crate::codec_bin::lemma_split_at(buf, pos, b1 + k1 + c1 + s1 + m1 + k2 + c2, u1);
    crate::codec_bin::lemma_split_at(buf, pos, b1 + k1 + c1 + s1 + m1 + k2, c2);
    crate::codec_bin::lemma_split_at(buf, pos, b1 + k1 + c1 + s1 + m1, k2);
    crate::codec_bin::lemma_split_at(buf, pos, b1 + k1 + c1 + s1, m1);
    crate::codec_bin::lemma_split_at(buf, pos, b1 + k1 + c1, s1);
    crate::codec_bin::lemma_split_at(buf, pos, b1 + k1, c1);
    crate::codec_bin::lemma_split_at(buf, pos, b1, k1);
    let p1 = pos + 1;
    let p2 = p1 + k1.len() as int;
    let p3 = p2 + 1;
    let p4 = p3 + s1.len() as int;
    let p5 = p4 + 1;
    let p6 = p5 + k2.len() as int;
    let p7 = p6 + 1;
    let p8 = p7 + u1.len() as int;
    assert(buf[pos] == 0x7b) by {
        assert(buf.subrange(pos, p1)[0] == buf[pos]);
    }
    lemma_parse_jstr_of(buf, p1, "hash"@);
    assert(buf[p2] == 0x3a) by {
        assert(buf.subrange(p2, p3)[0] == buf[p2]);
    }
    lemma_parse_jstr_of(buf, p3, c.hash);
    assert(buf[p4] == 0x2c) by {
        assert(buf.subrange(p4, p5)[0] == buf[p4]);
    }
    lemma_parse_jstr_of(buf, p5, "length"@);
    assert(buf[p6] == 0x3a) by {
        assert(buf.subrange(p6, p7)[0] == buf[p6]);
    }
    assert(buf[p8] == 0x7d) by {
        assert(buf.subrange(p8, p8 + 1)[0] == buf[p8]);
    }
    lemma_parse_jnum_of(buf, p7, c.length as int);
}

/// Reading one file chunk's textual form yields the chunk.
#[verifier::rlimit(100)]
#[verifier::spinoff_prover]
proof fn lemma_parse_jfile_chunk_of(buf: Seq<u8>, pos: int, c: FileChunkView)
    requires
        0 <= pos,
        pos + spec_jfile_chunk(c).len() <= buf.len(),
        buf.subrange(pos, pos + spec_jfile_chunk(c).len() as int) == spec_jfile_chunk(c),
    ensures
        spec_parse_jfile_chunk(buf, pos) == Some((c, pos + spec_jfile_chunk(c).len() as int)),
{
    let b1 = seq![0x7bu8];
    let k1 = spec_jstr("hash"@);
    let c1 = seq![0x3au8];
    let s1 = spec_jstr(c.hash);
    let m1 = seq![0x2cu8];
    let k2 = spec_jstr("offset"@);
    let c2 = seq![0x3au8];
    let u1 = spec_dec(c.offset as int);
    let m2 = seq![0x2cu8];
    let k3 = spec_jstr("length"@);
    let c3 = seq![0x3au8];
    let u2 = spec_dec(c.length as int);
    let b2 = seq![0x7du8];
    let whole = spec_jfile_chunk(c);
    assert(whole == b1 + k1 + c1 + s1 + m1 + k2 + c2 + u1 + m2 + k3 + c3 + u2 + b2);
    crate::codec_bin::lemma_split_at(
        buf,
        pos,
        b1 + k1 + c1 + s1 + m1 + k2 + c2 + u1 + m2 + k3 + c3 + u2,
        b2,
    );
    crate::codec_bin::lemma_split_at(
        buf,
        pos,
        b1 + k1 + c1 + s1 + m1 + k2 + c2 + u1 + m2 + k3 + c3,
        u2,
    );
    crate::codec_bin::lemma_split_at(buf, pos, b1 + k1 + c1 + s1 + m1 + k2 + c2 + u1 + m2 + k3, c3);
    crate::codec_bin::lemma_split_at(buf, pos, b1 + k1 + c1 + s1 + m1 + k2 + c2 + u1 + m2, k3);
    crate::codec_bin::lemma_split_at(buf, pos, b1 + k1 + c1 + s1 + m1 + k2 + c2 + u1, m2);
    crate::codec_bin::lemma_split_at(buf, pos, b1 + k1 + c1 + s1 + m1 + k2 + c2, u1);
    crate::codec_bin::lemma_split_at(buf, pos, b1 + k1 + c1 + s1 + m1 + k2, c2);
    crate::codec_bin::lemma_split_at(buf, pos, b1 + k1 + c1 + s1 + m1, k2);
    crate::codec_bin::lemma_split_at(buf, pos, b1 + k1 + c1 + s1, m1);
    crate::codec_bin::lemma_split_at(buf, pos, b1 + k1 + c1, s1);
    crate::codec_bin::lemma_split_at(buf, pos, b1 + k1, c1);
    crate::codec_bin::lemma_split_at(buf, pos, b1, k1);
    let p1 = pos + 1;
    let p2 = p1 + k1.len() as int;
    let p3 = p2 + 1;
    let p4 = p3 + s1.len() as int;
    let p5 = p4 + 1;
    let p6 = p5 + k2.len() as int;
    let p7 = p6 + 1;
    let p8 = p7 + u1.len() as int;
    let p9 = p8 + 1;
    let p10 = p9 + k3.len() as int;
    let p11 = p10 + 1;
    let p12 = p11 + u2.len() as int;
    assert(buf[pos] == 0x7b) by {
        assert(buf.subrange(pos, p1)[0] == buf[pos]);
    }
    lemma_parse_jstr_of(buf, p1, "hash"@);
    assert(buf[p2] == 0x3a) by {
        assert(buf.subrange(p2, p3)[0] == buf[p2]);
    }
    lemma_parse_jstr_of(buf, p3, c.hash);
    assert(buf[p4] == 0x2c) by {
        assert(buf.subrange(p4, p5)[0] == buf[p4]);
    }
    lemma_parse_jstr_of(buf, p5, "offset"@);
    assert(buf[p6] == 0x3a) by {
        assert(buf.subrange(p6, p7)[0] == buf[p6]);
    }
    assert(buf[p8] == 0x2c) by {
        assert(buf.subrange(p8, p9)[0] == buf[p8]);
    }
    lemma_parse_jnum_of(buf, p7, c.offset as int);
    lemma_parse_jstr_of(buf, p9, "length"@);
    assert(buf[p10] == 0x3a) by {
        assert(buf.subrange(p10, p11)[0] == buf[p10]);
    }
    assert(buf[p12] == 0x7d) by {
        assert(buf.subrange(p12, p12 + 1)[0] == buf[p12]);
    }
    lemma_parse_jnum_of(buf, p11, c.length as int);
}

/// Reading one symbolic link's textual form yields the link.
#[verifier::rlimit(100)]
#[verifier::spinoff_prover]
proof fn lemma_parse_jsymlink_of(buf: Seq<u8>, pos: int, l: SymlinkView)
    requires
        0 <= pos,
        pos + spec_jsymlink(l).len() <= buf.len(),
        buf.subrange(pos, pos + spec_jsymlink(l).len() as int) == spec_jsymlink(l),
    ensures
        spec_parse_jsymlink(buf, pos) == Some((l, pos + spec_jsymlink(l).len() as int)),
{
    let b1 = seq![0x7bu8];
    let k1 = spec_jstr("from"@);
    let c1 = seq![0x3au8];
    let s1 = spec_jstr(l.from);
    let m1 = seq![0x2cu8];
    let k2 = spec_jstr("to"@);
    let c2 = seq![0x3au8];
    let s2 = spec_jstr(l.to);
    let b2 = seq![0x7du8];
    let whole = spec_jsymlink(l);
    assert(whole == b1 + k1 + c1 + s1 + m1 + k2 + c2 + s2 + b2);
    crate::codec_bin::lemma_split_at(buf, pos, b1 + k1 + c1 + s1 + m1 + k2 + c2 + s2, b2);
    crate::codec_bin::lemma_split_at(buf, pos, b1 + k1 + c1 + s1 + m1 + k2 + c2, s2);
    crate::codec_bin::lemma_split_at(buf, pos, b1 + k1 + c1 + s1 + m1 + k2, c2);
    crate::codec_bin::lemma_split_at(buf, pos, b1 + k1 + c1 + s1 + m1, k2);
    crate::codec_bin::lemma_split_at(buf, pos, b1 + k1 + c1 + s1, m1);
    crate::codec_bin::lemma_split_at(buf, pos, b1 + k1 + c1, s1);
    crate::codec_bin::lemma_split_at(buf, pos, b1 + k1, c1);
    crate::codec_bin::lemma_split_at(buf, pos, b1, k1);
    let p1 = pos + 1;
    let p2 = p1 + k1.len() as int;
    let p3 = p2 + 1;
    let p4 = p3 + s1.len() as int;
    let p5 = p4 + 1;
    let p6 = p5 + k2.len() as int;
    let p7 = p6 + 1;
    let p8 = p7 + s2.len() as int;
    assert(buf[pos] == 0x7b) by {
        assert(buf.subrange(pos, p1)[0] == buf[pos]);
    }
    lemma_parse_jstr_of(buf, p1, "from"@);
    assert(buf[p2] == 0x3a) by {
        assert(buf.subrange(p2, p3)[0] == buf[p2]);
    }
    lemma_parse_jstr_of(buf, p3, l.from);
    assert(buf[p4] == 0x2c) by {
        assert(buf.subrange(p4, p5)[0] == buf[p4]);
    }
    lemma_parse_jstr_of(buf, p5, "to"@);
    assert(buf[p6] == 0x3a) by {
        assert(buf.subrange(p6, p7)[0] == buf[p6]);
    }
    lemma_parse_jstr_of(buf, p7, l.to);
    assert(buf[p8] == 0x7d) by {
        assert(buf.subrange(p8, p8 + 1)[0] == buf[p8]);
    }
}

/// Reading one textual chunk-index entry yields the entry.
#[verifier::rlimit(100)]
#[verifier::spinoff_prover]
proof fn lemma_parse_jchunk_entry_of(buf: Seq<u8>, pos: int, c: ChunkView)
    requires
        0 <= pos,
        pos + spec_jchunk_entry(c).len() <= buf.len(),
        buf.subrange(pos, pos + spec_jchunk_entry(c).len() as int) == spec_jchunk_entry(c),
    ensures
        spec_parse_jchunk_entry(buf, pos) == Some((c, pos + spec_jchunk_entry(c).len() as int)),
        spec_jchunk_entry(c).len() >= 1,
{
    let key = spec_jstr(c.hash);
    let colon = seq![0x3au8];
    let body = spec_jchunk(c);
    assert(spec_jchunk_entry(c) == key + colon + body);
    crate::codec_bin::lemma_split_at(buf, pos, key + colon, body);
    crate::codec_bin::lemma_split_at(buf, pos, key, colon);
    let p1 = pos + key.len() as int;
    let p2 = p1 + 1;
    lemma_parse_jstr_of(buf, pos, c.hash);
    assert(buf[p1] == 0x3a) by {
        assert(buf.subrange(p1, p2)[0] == buf[p1]);
    }
    lemma_parse_jchunk_of(buf, p2, c);
}

/// Reading one textual record-chunk entry yields the entry.
#[verifier::rlimit(100)]
#[verifier::spinoff_prover]
proof fn lemma_parse_jfc_entry_of(buf: Seq<u8>, pos: int, c: FileChunkView)
    requires
        0 <= pos,
        pos + spec_jfc_entry(c).len() <= buf.len(),
        buf.subrange(pos, pos + spec_jfc_entry(c).len() as int) == spec_jfc_entry(c),
    ensures
        spec_parse_jfc_entry(buf, pos) == Some((c, pos + spec_jfc_entry(c).len() as int)),
        spec_jfc_entry(c).len() >= 1,
{
    let key = spec_jstr(c.hash);
    let colon = seq![0x3au8];
    let body = spec_jfile_chunk(c);
    assert(spec_jfc_entry(c) == key + colon + body);
    crate::codec_bin::lemma_split_at(buf, pos, key + colon, body);
    crate::codec_bin::lemma_split_at(buf, pos, key, colon);
    let p1 = pos + key.len() as int;
    let p2 = p1 + 1;
    lemma_parse_jstr_of(buf, pos, c.hash);
    assert(buf[p1] == 0x3a) by {
        assert(buf.subrange(p1, p2)[0] == buf[p1]);
    }
    lemma_parse_jfile_chunk_of(buf, p2, c);
}

/// Reading one or more textual chunk-index entries, up to and including the
/// closing brace, yields the entries.
#[verifier::rlimit(100)]
#[verifier::spinoff_prover]
proof fn lemma_parse_jchunk_entries1_of(buf: Seq<u8>, pos: int, s: Seq<ChunkView>)
    requires
        0 <= pos,
        s.len() >= 1,
        pos + spec_jchunk_entries(s).len() + 1 <= buf.len(),
        buf.subrange(pos, pos + spec_jchunk_entries(s).len() as int) == spec_jchunk_entries(s),
        buf[pos + spec_jchunk_entries(s).len()] == 0x7d,
    ensures
        spec_parse_jchunk_entries1(buf, pos) == Some(
            (s, pos + spec_jchunk_entries(s).len() + 1),
        ),
    decreases s.len(),
{
    let entry = spec_jchunk_entry(s[0]);
    if s.len() == 1 {
        assert(spec_jchunk_entries(s) == entry);
        lemma_parse_jchunk_entry_of(buf, pos, s[0]);
        assert(seq![s[0]] =~= s);
    } else {
        let rest = spec_jchunk_entries(s.drop_first());
        assert(spec_jchunk_entries(s) == (entry + seq![0x2cu8]) + rest);
        crate::codec_bin::lemma_split_at(buf, pos, entry + seq![0x2cu8], rest);
        crate::codec_bin::lemma_split_at(buf, pos, entry, seq![0x2cu8]);
        lemma_parse_jchunk_entry_of(buf, pos, s[0]);
        let p1 = pos + entry.len() as int;
        assert(buf[p1] == 0x2c) by {
            assert(buf.subrange(p1, p1 + 1)[0] == buf[p1]);
        }
        lemma_parse_jchunk_entries1_of(buf, p1 + 1, s.drop_first());
        assert(seq![s[0]] + s.drop_first() =~= s);
    }
}

/// Reading one or more textual record-chunk entries, up to and including
/// the closing brace, yields the entries.
#[verifier::rlimit(100)]
#[verifier::spinoff_prover]
proof fn lemma_parse_jfc_entries1_of(buf: Seq<u8>, pos: int, s: Seq<FileChunkView>)
    requires
        0 <= pos,
        s.len() >= 1,
        pos + spec_jfc_entries(s).len() + 1 <= buf.len(),
        buf.subrange(pos, pos + spec_jfc_entries(s).len() as int) == spec_jfc_entries(s),
        buf[pos + spec_jfc_entries(s).len()] == 0x7d,
    ensures
        spec_parse_jfc_entries1(buf, pos) == Some((s, pos + spec_jfc_entries(s).len() + 1)),
    decreases s.len(),
{
    let entry = spec_jfc_entry(s[0]);
    if s.len() == 1 {
        assert(spec_jfc_entries(s) == entry);
        lemma_parse_jfc_entry_of(buf, pos, s[0]);
        assert(seq![s[0]] =~= s);
    } else {
        let rest = spec_jfc_entries(s.drop_first());
        assert(spec_jfc_entries(s) == (entry + seq![0x2cu8]) + rest);
        crate::codec_bin::lemma_split_at(buf, pos, entry + seq![0x2cu8], rest);
        crate::codec_bin::lemma_split_at(buf, pos, entry, seq![0x2cu8]);
        lemma_parse_jfc_entry_of(buf, pos, s[0]);
        let p1 = pos + entry.len() as int;
        assert(buf[p1] == 0x2c) by {
            assert(buf.subrange(p1, p1 + 1)[0] == buf[p1]);
        }
        lemma_parse_jfc_entries1_of(buf, p1 + 1, s.drop_first());
        assert(seq![s[0]] + s.drop_first() =~= s);
    }
}

/// Reading one or more textual symlink entries, up to and including the
/// closing bracket, yields the entries.
#[verifier::rlimit(100)]
#[verifier::spinoff_prover]
proof fn lemma_parse_jsymlink_entries1_of(buf: Seq<u8>, pos: int, s: Seq<SymlinkView>)
    requires
        0 <= pos,
        s.len() >= 1,
        pos + spec_jsymlink_entries(s).len() + 1 <= buf.len(),
        buf.subrange(pos, pos + spec_jsymlink_entries(s).len() as int) == spec_jsymlink_entries(
            s,
        ),
        buf[pos + spec_jsymlink_entries(s).len()] == 0x5d,
    ensures
        spec_parse_jsymlink_entries1(buf, pos) == Some(
            (s, pos + spec_jsymlink_entries(s).len() + 1),
        ),
    decreases s.len(),
{
    let entry = spec_jsymlink(s[0]);
    if s.len() == 1 {
        assert(spec_jsymlink_entries(s) == entry);
        lemma_parse_jsymlink_of(buf, pos, s[0]);
        assert(seq![s[0]] =~= s);
    } else {
        let rest = spec_jsymlink_entries(s.drop_first());
        assert(spec_jsymlink_entries(s) == (entry + seq![0x2cu8]) + rest);
        crate::codec_bin::lemma_split_at(buf, pos, entry + seq![0x2cu8], rest);
        crate::codec_bin::lemma_split_at(buf, pos, entry, seq![0x2cu8]);
        lemma_parse_jsymlink_of(buf, pos, s[0]);
        let p1 = pos + entry.len() as int;
        assert(buf[p1] == 0x2c) by {
            assert(buf.subrange(p1, p1 + 1)[0] == buf[p1]);
        }
        lemma_parse_jsymlink_entries1_of(buf, p1 + 1, s.drop_first());
        assert(seq![s[0]] + s.drop_first() =~= s);
    }
}

/// Reading one file record's textual form yields the record.
#[verifier::rlimit(100)]
#[verifier::spinoff_prover]
proof fn lemma_parse_jrecord_of(buf: Seq<u8>, pos: int, r: FileRecordView)
    requires
        0 <= pos,
        pos + spec_jrecord(r).len() <= buf.len(),
        buf.subrange(pos, pos + spec_jrecord(r).len() as int) == spec_jrecord(r),
    ensures
        spec_parse_jrecord(buf, pos) == Some((r, pos + spec_jrecord(r).len() as int)),
{
    let b1 = seq![0x7bu8];
    let k1 = spec_jstr("path"@);
    let c1 = seq![0x3au8];
    let s1 = spec_jstr(r.path);
    let m1 = seq![0x2cu8];
    let k2 = spec_jstr("chunks"@);
    let c2 = seq![0x3au8];
    let b2 = seq![0x7bu8];
    let ents = spec_jfc_entries(r.chunks);
    let b3 = seq![0x7du8];
    let b4 = seq![0x7du8];
    let whole = spec_jrecord(r);
    assert(whole == b1 + k1 + c1 + s1 + m1 + k2 + c2 + b2 + ents + b3 + b4);
    crate::codec_bin::lemma_split_at(buf, pos, b1 + k1 + c1 + s1 + m1 + k2 + c2 + b2 + ents + b3, b4);
    crate::codec_bin::lemma_split_at(buf, pos, b1 + k1 + c1 + s1 + m1 + k2 + c2 + b2 + ents, b3);
    crate::codec_bin::lemma_split_at(buf, pos, b1 + k1 + c1 + s1 + m1 + k2 + c2 + b2, ents);
    crate::codec_bin::lemma_split_at(buf, pos, b1 + k1 + c1 + s1 + m1 + k2 + c2, b2);
    crate::codec_bin::lemma_split_at(buf, pos, b1 + k1 + c1 + s1 + m1 + k2, c2);
    crate::codec_bin::lemma_split_at(buf, pos, b1 + k1 + c1 + s1 + m1, k2);
    crate::codec_bin::lemma_split_at(buf, pos, b1 + k1 + c1 + s1, m1);
    crate::codec_bin::lemma_split_at(buf, pos, b1 + k1 + c1, s1);
    crate::codec_bin::lemma_split_at(buf, pos, b1 + k1, c1);
    crate::codec_bin::lemma_split_at(buf, pos, b1, k1);
    let p1 = pos + 1;
    let p2 = p1 + k1.len() as int;
    let p3 = p2 + 1;
    let p4 = p3 + s1.len() as int;
    let p5 = p4 + 1;
    let p6 = p5 + k2.len() as int;
    let p7 = p6 + 1;
    let p8 = p7 + 1;
    let p9 = p8 + ents.len() as int;
    let p10 = p9 + 1;
    assert(buf[pos] == 0x7b) by {
        assert(buf.subrange(pos, p1)[0] == buf[pos]);
    }
    lemma_parse_jstr_of(buf, p1, "path"@);
    assert(buf[p2] == 0x3a) by {
        assert(buf.subrange(p2, p3)[0] == buf[p2]);
    }
    lemma_parse_jstr_of(buf, p3, r.path);
    assert(buf[p4] == 0x2c) by {
        assert(buf.subrange(p4, p5)[0] == buf[p4]);
    }
    lemma_parse_jstr_of(buf, p5, "chunks"@);
    assert(buf[p6] == 0x3a) by {
        assert(buf.subrange(p6, p7)[0] == buf[p6]);
    }
    assert(buf[p7] == 0x7b) by {
        assert(buf.subrange(p7, p8)[0] == buf[p7]);
    }
    assert(buf[p9] == 0x7d) by {
        assert(buf.subrange(p9, p10)[0] == buf[p9]);
    }
    assert(buf[p10] == 0x7d) by {
        assert(buf.subrange(p10, p10 + 1)[0] == buf[p10]);
    }
    lemma_parse_jfc_map_of(buf, p7, r.chunks);
    if r.chunks.len() == 0 {
        assert(r =~= (FileRecordView { path: r.path, chunks: Seq::empty() }));
    }
}

/// Reading a textual record-chunk map yields the entries.
#[verifier::rlimit(100)]
#[verifier::spinoff_prover]
proof fn lemma_parse_jfc_map_of(buf: Seq<u8>, pos: int, s: Seq<FileChunkView>)
    requires
        0 <= pos,
        pos + spec_jfc_entries(s).len() + 2 <= buf.len(),
        buf[pos] == 0x7b,
        buf.subrange(pos + 1, pos + 1 + spec_jfc_entries(s).len() as int) == spec_jfc_entries(s),
        buf[pos + 1 + spec_jfc_entries(s).len()] == 0x7d,
    ensures
        spec_parse_jfc_map(buf, pos) == Some((s, pos + spec_jfc_entries(s).len() + 2)),
{
    if s.len() == 0 {
        assert(s =~= Seq::<FileChunkView>::empty());
    } else {
        assert(buf[pos + 1] == 0x22) by {
            let entry = spec_jfc_entry(s[0]);
            assert(spec_jfc_entries(s)[0] == entry[0]);
            assert(entry[0] == spec_jstr(s[0].hash)[0]);
            assert(buf.subrange(pos + 1, pos + 1 + spec_jfc_entries(s).len() as int)[0] == buf[pos
                + 1]);
        }
        lemma_parse_jfc_entries1_of(buf, pos + 1, s);
    }
}

/// Reading a textual chunk map yields the entries.
#[verifier::rlimit(100)]
#[verifier::spinoff_prover]
proof fn lemma_parse_jchunk_map_of(buf: Seq<u8>, pos: int, s: Seq<ChunkView>)
    requires
        0 <= pos,
        pos + spec_jchunk_entries(s).len() + 2 <= buf.len(),
        buf[pos] == 0x7b,
        buf.subrange(pos + 1, pos + 1 + spec_jchunk_entries(s).len() as int)
            == spec_jchunk_entries(s),
        buf[pos + 1 + spec_jchunk_entries(s).len()] == 0x7d,
    ensures
        spec_parse_jchunk_map(buf, pos) == Some((s, pos + spec_jchunk_entries(s).len() + 2)),
{
    if s.len() == 0 {
        assert(s =~= Seq::<ChunkView>::empty());
    } else {
        assert(buf[pos + 1] == 0x22) by {
            let entry = spec_jchunk_entry(s[0]);
            assert(spec_jchunk_entries(s)[0] == entry[0]);
            assert(entry[0] == spec_jstr(s[0].hash)[0]);
            assert(buf.subrange(pos + 1, pos + 1 + spec_jchunk_entries(s).len() as int)[0]
                == buf[pos + 1]);
        }
        lemma_parse_jchunk_entries1_of(buf, pos + 1, s);
    }
}

/// Reading a textual file map yields the entries.
#[verifier::rlimit(100)]
#[verifier::spinoff_prover]
proof fn lemma_parse_jrecord_map_of(buf: Seq<u8>, pos: int, s: Seq<FileRecordView>)
    requires
        0 <= pos,
        pos + spec_jrecord_entries(s).len() + 2 <= buf.len(),
        buf[pos] == 0x7b,
        buf.subrange(pos + 1, pos + 1 + spec_jrecord_entries(s).len() as int)
            == spec_jrecord_entries(s),
        buf[pos + 1 + spec_jrecord_entries(s).len()] == 0x7d,
    ensures
        spec_parse_jrecord_map(buf, pos) == Some((s, pos + spec_jrecord_entries(s).len() + 2)),
{
    if s.len() == 0 {
        assert(s =~= Seq::<FileRecordView>::empty());
    } else {
        assert(buf[pos + 1] == 0x22) by {
            let entry = spec_jrecord_entry(s[0]);
            assert(spec_jrecord_entries(s)[0] == entry[0]);
            assert(entry[0] == spec_jstr(s[0].path)[0]);
            assert(buf.subrange(pos + 1, pos + 1 + spec_jrecord_entries(s).len() as int)[0]
                == buf[pos + 1]);
        }
        lemma_parse_jrecord_entries1_of(buf, pos + 1, s);
    }
}

/// Reading a textual symlink list yields the entries.
#[verifier::rlimit(100)]
#[verifier::spinoff_prover]
proof fn lemma_parse_jsymlink_array_of(buf: Seq<u8>, pos: int, s: Seq<SymlinkView>)
    requires
        0 <= pos,
        pos + spec_jsymlink_entries(s).len() + 2 <= buf.len(),
        buf[pos] == 0x5b,
        buf.subrange(pos + 1, pos + 1 + spec_jsymlink_entries(s).len() as int)
            == spec_jsymlink_entries(s),
        buf[pos + 1 + spec_jsymlink_entries(s).len()] == 0x5d,
    ensures
        spec_parse_jsymlink_array(buf, pos) == Some(
            (s, pos + spec_jsymlink_entries(s).len() + 2),
        ),
{
    if s.len() == 0 {
        assert(s =~= Seq::<SymlinkView>::empty());
    } else {
        assert(buf[pos + 1] == 0x7b) by {
            let entry = spec_jsymlink(s[0]);
            assert(spec_jsymlink_entries(s)[0] == entry[0]);
            assert(buf.subrange(pos + 1, pos + 1 + spec_jsymlink_entries(s).len() as int)[0]
                == buf[pos + 1]);
        }
        lemma_parse_jsymlink_entries1_of(buf, pos + 1, s);
    }
}

/// Reading one textual file-map entry yields the entry.
#[verifier::rlimit(100)]
#[verifier::spinoff_prover]
proof fn lemma_parse_jrecord_entry_of(buf: Seq<u8>, pos: int, r: FileRecordView)
    requires
        0 <= pos,
        pos + spec_jrecord_entry(r).len() <= buf.len(),
        buf.subrange(pos, pos + spec_jrecord_entry(r).len() as int) == spec_jrecord_entry(r),
    ensures
        spec_parse_jrecord_entry(buf, pos) == Some(
            (r, pos + spec_jrecord_entry(r).len() as int),
        ),
        spec_jrecord_entry(r).len() >= 1,
{
    let key = spec_jstr(r.path);
    let colon = seq![0x3au8];
    let body = spec_jrecord(r);
    assert(spec_jrecord_entry(r) == key + colon + body);
    crate::codec_bin::lemma_split_at(buf, pos, key + colon, body);
    crate::codec_bin::lemma_split_at(buf, pos, key, colon);
    let p1 = pos + key.len() as int;
    let p2 = p1 + 1;
    lemma_parse_jstr_of(buf, pos, r.path);
    assert(buf[p1] == 0x3a) by {
        assert(buf.subrange(p1, p2)[0] == buf[p1]);
    }
    lemma_parse_jrecord_of(buf, p2, r);
}

/// Reading one or more textual file-map entries, up to and including the
/// closing brace, yields the entries.
#[verifier::rlimit(100)]
#[verifier::spinoff_prover]
proof fn lemma_parse_jrecord_entries1_of(buf: Seq<u8>, pos: int, s: Seq<FileRecordView>)
    requires
        0 <= pos,
        s.len() >= 1,
        pos + spec_jrecord_entries(s).len() + 1 <= buf.len(),
        buf.subrange(pos, pos + spec_jrecord_entries(s).len() as int) == spec_jrecord_entries(s),
        buf[pos + spec_jrecord_entries(s).len()] == 0x7d,
    ensures
        spec_parse_jrecord_entries1(buf, pos) == Some(
            (s, pos + spec_jrecord_entries(s).len() + 1),
        ),
    decreases s.len(),
{
    let entry = spec_jrecord_entry(s[0]);
    if s.len() == 1 {
        assert(spec_jrecord_entries(s) == entry);
        lemma_parse_jrecord_entry_of(buf, pos, s[0]);
        assert(seq![s[0]] =~= s);
    } else {
        let rest = spec_jrecord_entries(s.drop_first());
        assert(spec_jrecord_entries(s) == (entry + seq![0x2cu8]) + rest);
        crate::codec_bin::lemma_split_at(buf, pos, entry + seq![0x2cu8], rest);
        crate::codec_bin::lemma_split_at(buf, pos, entry, seq![0x2cu8]);
        lemma_parse_jrecord_entry_of(buf, pos, s[0]);
        let p1 = pos + entry.len() as int;
        assert(buf[p1] == 0x2c) by {
            assert(buf.subrange(p1, p1 + 1)[0] == buf[p1]);
        }
        lemma_parse_jrecord_entries1_of(buf, p1 + 1, s.drop_first());
        assert(seq![s[0]] + s.drop_first() =~= s);
    }
}

/// Where each piece of a textual manifest lies.
#[verifier::rlimit(100)]
#[verifier::spinoff_prover]
proof fn lemma_json_manifest_pieces(
    chunks: Seq<ChunkView>,
    files: Seq<FileRecordView>,
    links: Seq<SymlinkView>,
)
    ensures
        ({
            let buf = spec_json_manifest_bytes(chunks, files, links);
            let k1 = spec_jstr("chunk_map"@);
            let ce = spec_jchunk_entries(chunks);
            let k2 = spec_jstr("file_metadata_map"@);
            let fe = spec_jrecord_entries(files);
            let k3 = spec_jstr("symlinks"@);
            let le = spec_jsymlink_entries(links);
            let p1 = 1int;
            let p2 = p1 + k1.len() as int;
            let p3 = p2 + 1;
            let p4 = p3 + 1;
            let p5 = p4 + ce.len() as int;
            let p6 = p5 + 1;
            let p7 = p6 + 1;
            let p8 = p7 + k2.len() as int;
            let p9 = p8 + 1;
            let p10 = p9 + 1;
            let p11 = p10 + fe.len() as int;
            let p12 = p11 + 1;
            let p13 = p12 + 1;
            let p14 = p13 + k3.len() as int;
            let p15 = p14 + 1;
            let p16 = p15 + 1;
            let p17 = p16 + le.len() as int;
            let p18 = p17 + 1;
            let p19 = p18 + 1;
            &&& buf.len() == p19
            &&& buf[0] == 0x7b
            &&& buf.subrange(p1, p2) == k1
            &&& buf[p2] == 0x3a
            &&& buf[p3] == 0x7b
            &&& buf.subrange(p4, p5) == ce
            &&& buf[p5] == 0x7d
            &&& buf[p6] == 0x2c
            &&& buf.subrange(p7, p8) == k2
            &&& buf[p8] == 0x3a
            &&& buf[p9] == 0x7b
            &&& buf.subrange(p10, p11) == fe
            &&& buf[p11] == 0x7d
            &&& buf[p12] == 0x2c
            &&& buf.subrange(p13, p14) == k3
            &&& buf[p14] == 0x3a
            &&& buf[p15] == 0x5b
            &&& buf.subrange(p16, p17) == le
            &&& buf[p17] == 0x5d
            &&& buf[p18] == 0x7d
        }),
{
    let buf = spec_json_manifest_bytes(chunks, files, links);
    let b1 = seq![0x7bu8];
    let k1 = spec_jstr("chunk_map"@);
    let c1 = seq![0x3au8];
    let b2 = seq![0x7bu8];
    let ce = spec_jchunk_entries(chunks);
    let b3 = seq![0x7du8];
    let m1 = seq![0x2cu8];
    let k2 = spec_jstr("file_metadata_map"@);
    let c2 = seq![0x3au8];
    let b4 = seq![0x7bu8];
    let fe = spec_jrecord_entries(files);
    let b5 = seq![0x7du8];
    let m2 = seq![0x2cu8];
    let k3 = spec_jstr("symlinks"@);
    let c3 = seq![0x3au8];
    let r1 = seq![0x5bu8];
    let le = spec_jsymlink_entries(links);
    let r2 = seq![0x5du8];
    let b6 = seq![0x7du8];
    assert(buf == b1 + k1 + c1 + b2 + ce + b3 + m1 + k2 + c2 + b4 + fe + b5 + m2 + k3 + c3 + r1
        + le + r2 + b6);
    assert(buf.subrange(0, buf.len() as int) =~= buf);
    crate::codec_bin::lemma_split_at(
        buf,
        0,
        b1 + k1 + c1 + b2 + ce + b3 + m1 + k2 + c2 + b4 + fe + b5 + m2 + k3 + c3 + r1 + le + r2,
        b6,
    );
    crate::codec_bin::lemma_split_at(
        buf,
        0,
        b1 + k1 + c1 + b2 + ce + b3 + m1 + k2 + c2 + b4 + fe + b5 + m2 + k3 + c3 + r1 + le,
        r2,
    );
    crate::codec_bin::lemma_split_at(
        buf,
        0,
        b1 + k1 + c1 + b2 + ce + b3 + m1 + k2 + c2 + b4 + fe + b5 + m2 + k3 + c3 + r1,
        le,
    );
    crate::codec_bin::lemma_split_at(
        buf,
        0,
        b1 + k1 + c1 + b2 + ce + b3 + m1 + k2 + c2 + b4 + fe + b5 + m2 + k3 + c3,
        r1,
    );
    crate::codec_bin::lemma_split_at(
        buf,
        0,
        b1 + k1 + c1 + b2 + ce + b3 + m1 + k2 + c2 + b4 + fe + b5 + m2 + k3,
        c3,
    );
    crate::codec_bin::lemma_split_at(
        buf,
        0,
        b1 + k1 + c1 + b2 + ce + b3 + m1 + k2 + c2 + b4 + fe + b5 + m2,
        k3,
    );
    crate::codec_bin::lemma_split_at(
        buf,
        0,
        b1 + k1 + c1 + b2 + ce + b3 + m1 + k2 + c2 + b4 + fe + b5,
        m2,
    );
    crate::codec_bin::lemma_split_at(buf, 0, b1 + k1 + c1 + b2 + ce + b3 + m1 + k2 + c2 + b4 + fe, b5);
    crate::codec_bin::lemma_split_at(buf, 0, b1 + k1 + c1 + b2 + ce + b3 + m1 + k2 + c2 + b4, fe);
    crate::codec_bin::lemma_split_at(buf, 0, b1 + k1 + c1 + b2 + ce + b3 + m1 + k2 + c2, b4);
    crate::codec_bin::lemma_split_at(buf, 0, b1 + k1 + c1 + b2 + ce + b3 + m1 + k2, c2);
    crate::codec_bin::lemma_split_at(buf, 0, b1 + k1 + c1 + b2 + ce + b3 + m1, k2);
    crate::codec_bin::lemma_split_at(buf, 0, b1 + k1 + c1 + b2 + ce + b3, m1);
    crate::codec_bin::lemma_split_at(buf, 0, b1 + k1 + c1 + b2 + ce, b3);
    crate::codec_bin::lemma_split_at(buf, 0, b1 + k1 + c1 + b2, ce);
    crate::codec_bin::lemma_split_at(buf, 0, b1 + k1 + c1, b2);
    crate::codec_bin::lemma_split_at(buf, 0, b1 + k1, c1);
    crate::codec_bin::lemma_split_at(buf, 0, b1, k1);
    let k1l = k1.len() as int;
    let k2l = k2.len() as int;
    let k3l = k3.len() as int;
    assert(buf[0] == 0x7b) by {
        assert(buf.subrange(0, 1)[0] == buf[0]);
    }
    assert(buf[1 + k1l] == 0x3a) by {
        assert(buf.subrange(1 + k1l, 2 + k1l)[0] == buf[1 + k1l]);
    }
    assert(buf[2 + k1l] == 0x7b) by {
        assert(buf.subrange(2 + k1l, 3 + k1l)[0] == buf[2 + k1l]);
    }
    let q5 = 3 + k1l + ce.len() as int;
    assert(buf[q5] == 0x7d) by {
        assert(buf.subrange(q5, q5 + 1)[0] == buf[q5]);
    }
    assert(buf[q5 + 1] == 0x2c) by {
        assert(buf.subrange(q5 + 1, q5 + 2)[0] == buf[q5 + 1]);
    }
    let q8 = q5 + 2 + k2l;
    assert(buf[q8] == 0x3a) by {
        assert(buf.subrange(q8, q8 + 1)[0] == buf[q8]);
    }
    assert(buf[q8 + 1] == 0x7b) by {
        assert(buf.subrange(q8 + 1, q8 + 2)[0] == buf[q8 + 1]);
    }
    let q11 = q8 + 2 + fe.len() as int;
    assert(buf[q11] == 0x7d) by {
        assert(buf.subrange(q11, q11 + 1)[0] == buf[q11]);
    }
    assert(buf[q11 + 1] == 0x2c) by {
        assert(buf.subrange(q11 + 1, q11 + 2)[0] == buf[q11 + 1]);
    }
    let q14 = q11 + 2 + k3l;
    assert(buf[q14] == 0x3a) by {
        assert(buf.subrange(q14, q14 + 1)[0] == buf[q14]);
    }
    assert(buf[q14 + 1] == 0x5b) by {
        assert(buf.subrange(q14 + 1, q14 + 2)[0] == buf[q14 + 1]);
    }
    let q17 = q14 + 2 + le.len() as int;
    assert(buf[q17] == 0x5d) by {
        assert(buf.subrange(q17, q17 + 1)[0] == buf[q17]);
    }
    assert(buf[q17 + 1] == 0x7d) by {
        assert(buf.subrange(q17 + 1, q17 + 2)[0] == buf[q17 + 1]);
    }
}

/// Manifest round trip in the textual form: reading back what was written
/// yields the same chunk index, the same file map, and the same symlink
/// list, value for value.
#[verifier::rlimit(100)]
#[verifier::spinoff_prover]
pub proof fn lemma_json_manifest_roundtrip(
    chunks: Seq<ChunkView>,
    files: Seq<FileRecordView>,
    links: Seq<SymlinkView>,
)
    ensures
        spec_parse_json_manifest(spec_json_manifest_bytes(chunks, files, links), 0) == Some(
            (
                (chunks, files, links),
                spec_json_manifest_bytes(chunks, files, links).len() as int,
            ),
        ),
{
    lemma_json_manifest_pieces(chunks, files, links);
    let buf = spec_json_manifest_bytes(chunks, files, links);
    let k1 = spec_jstr("chunk_map"@);
    let ce = spec_jchunk_entries(chunks);
    let k2 = spec_jstr("file_metadata_map"@);
    let fe = spec_jrecord_entries(files);
    let k3 = spec_jstr("symlinks"@);
    let le = spec_jsymlink_entries(links);
    let p1 = 1int;
    let p2 = p1 + k1.len() as int;
    let p3 = p2 + 1;
    let p5 = p3 + 1 + ce.len() as int;
    let p7 = p5 + 2;
    let p8 = p7 + k2.len() as int;
    let p9 = p8 + 1;
    let p11 = p9 + 1 + fe.len() as int;
    let p13 = p11 + 2;
    let p14 = p13 + k3.len() as int;
    let p15 = p14 + 1;
    let p17 = p15 + 1 + le.len() as int;
    lemma_parse_jstr_of(buf, p1, "chunk_map"@);
    lemma_parse_jchunk_map_of(buf, p3, chunks);
    lemma_parse_jstr_of(buf, p7, "file_metadata_map"@);
    lemma_parse_jrecord_map_of(buf, p9, files);
    lemma_parse_jstr_of(buf, p13, "symlinks"@);
    lemma_parse_jsymlink_array_of(buf, p15, links);
}

} // verus!
