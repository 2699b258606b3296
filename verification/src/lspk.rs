//! Parser for the LSPK package container: header validation, decompression
//! of the packed file table, and extraction of one entry's payload.

use vstd::prelude::*;
use vstd::slice::{slice_subrange, slice_to_vec};
use crate::bytes::{le16, le32, le64, read_le16, read_le32, read_le64};
use crate::codec;
use crate::codec::{CodecError, Method};

verus! {

/// The one package format version this reader supports.
pub const SUPPORTED_VERSION: u32 = 18;

/// Width in bytes of one packed file-entry record.
pub const ENTRY_SIZE: usize = 272;

/// Width in bytes of the fixed name buffer inside a record.
pub const NAME_SIZE: usize = 256;

/// The fixed four-byte signature every archive must start with: `LSPK`.
pub open spec fn magic() -> Seq<u8> {
    seq![0x4Cu8, 0x53u8, 0x50u8, 0x4Bu8]
}

#[derive(PartialEq, Eq, Structural, Clone, Copy, Debug)]
pub enum FormatError {
    /// The buffer does not start with the fixed four-byte signature.
    BadMagic,
    /// The version field differs from the one supported value.
    UnsupportedVersion,
    /// A declared byte range (file table or entry) extends past the buffer,
    /// or a declared count or size is negative or does not fit.
    Truncated,
    /// An entry's name bytes are not valid UTF-8 text.
    InvalidName,
    /// The extracted payload is not valid UTF-8 text.
    InvalidPayload,
    /// The compressed file table could not be decompressed to exactly the
    /// declared number of records.
    TableDecompressionFailed,
}

/// Fixed-size record describing one stored file of the archive, decoded
/// field by field from its packed little-endian layout.
#[derive(Debug)]
pub struct FileEntry {
    /// Name bytes up to the first NUL of the fixed-width name buffer.
    pub name: Vec<u8>,
    /// Low 32 bits of the absolute byte offset of the stored payload.
    pub offset_low: u32,
    /// High 16 bits of the absolute byte offset of the stored payload.
    pub offset_high: u16,
    /// Archive part index, passed through unused.
    pub archive_part: u8,
    /// Flags byte; the low nibble encodes the compression method.
    pub flags: u8,
    /// Stored (possibly compressed) size in bytes.
    pub size_on_disk: u32,
    /// Size in bytes after decompression.
    pub uncompressed_size: u32,
}

/// Parsed archive header fields.
#[derive(Debug)]
pub struct Header {
    pub version: u32,
    pub table_offset: u64,
    pub table_size: u32,
}

/// Index of the first NUL byte of `s`, or `s.len()` if there is none.
pub open spec fn first_nul(s: Seq<u8>) -> int
    decreases s.len(),
{
    if s.len() == 0 {
        0
    } else if s[0] == 0 {
        0
    } else {
        1 + first_nul(s.drop_first())
    }
}

/// The longest NUL-free prefix of `s`: the text portion of a fixed-width
/// name buffer.
pub open spec fn trimmed(s: Seq<u8>) -> Seq<u8> {
    s.subrange(0, first_nul(s))
}

/// `first_nul` is exactly the index of the first zero byte (or the length).
pub proof fn lemma_first_nul_at(s: Seq<u8>, j: int)
    requires
        0 <= j <= s.len(),
        forall|k: int| 0 <= k < j ==> s[k] != 0,
        j < s.len() ==> s[j] == 0,
    ensures
        first_nul(s) == j,
    decreases s.len(),
{
    if s.len() == 0 {
    } else if s[0] == 0 {
        assert(j == 0);
    } else {
        assert(j >= 1);
        let t = s.drop_first();
        assert(forall|k: int| 0 <= k < j - 1 ==> t[k] != 0);
        lemma_first_nul_at(t, j - 1);
    }
}

/// True when the buffer begins with the fixed signature.
pub open spec fn has_magic(a: Seq<u8>) -> bool {
    a.len() >= 4 && a.subrange(0, 4) == magic()
}

/// The version field, read from its fixed offset.
pub open spec fn spec_version(a: Seq<u8>) -> nat {
    le32(a, 4)
}

/// The file-table byte offset, read from its fixed offset.
pub open spec fn spec_table_offset(a: Seq<u8>) -> nat {
    le64(a, 8)
}

/// The file-table byte size, read from its fixed offset.
pub open spec fn spec_table_size(a: Seq<u8>) -> nat {
    le32(a, 16)
}

/// True when the declared file-table range lies inside the buffer.
pub open spec fn table_in_bounds(a: Seq<u8>) -> bool {
    spec_table_offset(a) + spec_table_size(a) <= a.len()
}

/// True when the header is well-formed: signature, supported version, and a
/// file-table range inside the buffer.
pub open spec fn header_ok(a: Seq<u8>) -> bool {
    &&& has_magic(a)
    &&& a.len() >= 20
    &&& spec_version(a) == SUPPORTED_VERSION
    &&& table_in_bounds(a)
}

/// Validate the archive header and read its fields.
///
/// The signature is checked before any other field, then the version, then
/// the file-table range, so a buffer failing an early check reports that
/// check's error.
pub fn parse_header(archive: &[u8]) -> (r: Result<Header, FormatError>)
    ensures
        !has_magic(archive@) ==> r == Err::<Header, FormatError>(FormatError::BadMagic),
        has_magic(archive@) && archive@.len() < 8 ==> r == Err::<Header, FormatError>(
            FormatError::Truncated,
        ),
        has_magic(archive@) && archive@.len() >= 8 && spec_version(archive@) != SUPPORTED_VERSION
            ==> r == Err::<Header, FormatError>(FormatError::UnsupportedVersion),
        has_magic(archive@) && spec_version(archive@) == SUPPORTED_VERSION && 8 <= archive@.len()
            < 20 ==> r == Err::<Header, FormatError>(FormatError::Truncated),
        has_magic(archive@) && archive@.len() >= 20 && spec_version(archive@) == SUPPORTED_VERSION
            && !table_in_bounds(archive@) ==> r == Err::<Header, FormatError>(
            FormatError::Truncated,
        ),
        r matches Ok(h) ==> header_ok(archive@) && h.version == SUPPORTED_VERSION
            && h.table_offset as nat == spec_table_offset(archive@) && h.table_size as nat
            == spec_table_size(archive@),
        header_ok(archive@) ==> r is Ok,
{
    let n = archive.len();
    if n < 4 || archive[0] != 0x4C || archive[1] != 0x53 || archive[2] != 0x50 || archive[3]
        != 0x4B {
        proof {
            if n >= 4 && archive@.subrange(0, 4) == magic() {
                assert(archive@.subrange(0, 4)[0] == 0x4C);
                assert(archive@.subrange(0, 4)[1] == 0x53);
                assert(archive@.subrange(0, 4)[2] == 0x50);
                assert(archive@.subrange(0, 4)[3] == 0x4B);
            }
        }
        return Err(FormatError::BadMagic);
    }
    assert(archive@.subrange(0, 4) =~= magic());
    if n < 8 {
        return Err(FormatError::Truncated);
    }
    let version = read_le32(archive, 4);
    if version != SUPPORTED_VERSION {
        return Err(FormatError::UnsupportedVersion);
    }
    if n < 20 {
        return Err(FormatError::Truncated);
    }
    let table_offset = read_le64(archive, 8);
    let table_size = read_le32(archive, 16);
    if table_offset > n as u64 || table_size as u64 > n as u64 - table_offset {
        return Err(FormatError::Truncated);
    }
    Ok(Header { version, table_offset, table_size })
}

/// True when `e` holds exactly the fields of record `i` of the decompressed
/// file-table buffer `buf`.
pub open spec fn entry_decodes(e: FileEntry, buf: Seq<u8>, i: int) -> bool {
    let base = i * ENTRY_SIZE;
    &&& e.name@ == trimmed(buf.subrange(base, base + NAME_SIZE))
    &&& e.offset_low as nat == le32(buf, base + 256)
    &&& e.offset_high as nat == le16(buf, base + 260)
    &&& e.archive_part == buf[base + 262]
    &&& e.flags == buf[base + 263]
    &&& e.size_on_disk as nat == le32(buf, base + 264)
    &&& e.uncompressed_size as nat == le32(buf, base + 268)
}

/// Decode `count` contiguous fixed-size records from the decompressed
/// file-table buffer, preserving their on-disk order.
pub fn parse_entries(buf: &[u8], count: usize) -> (r: Vec<FileEntry>)
    requires
        buf@.len() == count * ENTRY_SIZE,
    ensures
        r@.len() == count,
        forall|i: int| 0 <= i < count ==> entry_decodes(#[trigger] r@[i], buf@, i),
{
    let blen = buf.len();
    let mut out: Vec<FileEntry> = Vec::new();
    let mut i: usize = 0;
    while i < count
        invariant
            buf@.len() == count * ENTRY_SIZE,
            count * ENTRY_SIZE <= usize::MAX,
            i <= count,
            out@.len() == i,
            forall|k: int| 0 <= k < i ==> entry_decodes(#[trigger] out@[k], buf@, k),
        decreases count - i,
    {
        assert((i + 1) * ENTRY_SIZE <= count * ENTRY_SIZE && i * ENTRY_SIZE + ENTRY_SIZE == (i + 1)
            * ENTRY_SIZE) by (nonlinear_arith)
            requires
                i < count,
        ;
        let base = i * ENTRY_SIZE;
        let name_field = slice_subrange(buf, base, base + NAME_SIZE);
        let mut nul: usize = 0;
        while nul < NAME_SIZE && name_field[nul] != 0
            invariant
                name_field@.len() == NAME_SIZE,
                nul <= NAME_SIZE,
                forall|k: int| 0 <= k < nul ==> name_field@[k] != 0,
            decreases NAME_SIZE - nul,
        {
            nul += 1;
        }
        proof {
            lemma_first_nul_at(name_field@, nul as int);
        }
        let name = slice_to_vec(slice_subrange(name_field, 0, nul));
        let entry = FileEntry {
            name,
            offset_low: read_le32(buf, base + 256),
            offset_high: read_le16(buf, base + 260),
            archive_part: buf[base + 262],
            flags: buf[base + 263],
            size_on_disk: read_le32(buf, base + 264),
            uncompressed_size: read_le32(buf, base + 268),
        };
        proof {
            assert(name_field@ == buf@.subrange(base as int, base as int + NAME_SIZE));
            assert(entry.name@ =~= trimmed(buf@.subrange(base as int, base as int + NAME_SIZE)));
            assert(entry_decodes(entry, buf@, i as int));
        }
        out.push(entry);
        i += 1;
    }
    out
}

/// The compressed file-table blob declared by a well-formed header.
pub open spec fn spec_table(a: Seq<u8>) -> Seq<u8> {
    a.subrange(spec_table_offset(a) as int, (spec_table_offset(a) + spec_table_size(a)) as int)
}

/// The signed 32-bit value whose unsigned little-endian reading is `v`.
pub open spec fn as_signed32(v: nat) -> int {
    if v < 0x80000000 {
        v as int
    } else {
        v - 0x100000000
    }
}

/// The declared record count of the file table (signed on disk).
pub open spec fn spec_entry_count(a: Seq<u8>) -> int {
    as_signed32(le32(spec_table(a), 0))
}

/// The declared compressed-blob size of the file table (signed on disk).
pub open spec fn spec_compressed_size(a: Seq<u8>) -> int {
    as_signed32(le32(spec_table(a), 4))
}

/// True when the file table's own declared sizes are consistent: enough
/// bytes for its two counters, a nonnegative record count and blob size, and
/// the blob inside the declared table range.
pub open spec fn table_ok(a: Seq<u8>) -> bool {
    &&& spec_table_size(a) >= 8
    &&& spec_entry_count(a) >= 0
    &&& spec_compressed_size(a) >= 0
    &&& 8 + spec_compressed_size(a) <= spec_table_size(a)
    &&& spec_entry_count(a) * ENTRY_SIZE <= usize::MAX
}

/// The compressed blob inside the file table.
pub open spec fn spec_table_blob(a: Seq<u8>) -> Seq<u8> {
    spec_table(a).subrange(8, 8 + spec_compressed_size(a))
}

/// The decompressed file-table buffer.
pub open spec fn spec_entries_buf(a: Seq<u8>) -> Seq<u8> {
    codec::lz4_block_of(spec_table_blob(a))
}

/// Parse a whole archive buffer: validate the header, bounds-check and
/// decompress the file table with the block codec, and decode its records in
/// on-disk order.
///
/// On success the records are exactly the fields of the decompressed
/// file-table buffer; the table must decompress to exactly
/// `count * ENTRY_SIZE` bytes or parsing fails.
pub fn parse(archive: &[u8]) -> (r: Result<(Header, Vec<FileEntry>), FormatError>)
    ensures
        !has_magic(archive@) ==> r == Err::<(Header, Vec<FileEntry>), FormatError>(
            FormatError::BadMagic,
        ),
        has_magic(archive@) && archive@.len() >= 8 && spec_version(archive@) != SUPPORTED_VERSION
            ==> r == Err::<(Header, Vec<FileEntry>), FormatError>(FormatError::UnsupportedVersion),
        has_magic(archive@) && archive@.len() >= 20 && spec_version(archive@) == SUPPORTED_VERSION
            && !table_in_bounds(archive@) ==> r == Err::<(Header, Vec<FileEntry>), FormatError>(
            FormatError::Truncated,
        ),
        header_ok(archive@) && !table_ok(archive@) ==> r == Err::<
            (Header, Vec<FileEntry>),
            FormatError,
        >(FormatError::Truncated),
        r matches Ok(p) ==> {
            &&& header_ok(archive@)
            &&& table_ok(archive@)
            &&& p.0.version == SUPPORTED_VERSION
            &&& p.0.table_offset as nat == spec_table_offset(archive@)
            &&& p.0.table_size as nat == spec_table_size(archive@)
            &&& spec_entries_buf(archive@).len() == spec_entry_count(archive@) * ENTRY_SIZE
            &&& p.1@.len() == spec_entry_count(archive@)
            &&& forall|i: int|
                0 <= i < p.1@.len() ==> entry_decodes(
                    #[trigger] p.1@[i],
                    spec_entries_buf(archive@),
                    i,
                )
        },
        header_ok(archive@) && table_ok(archive@) ==> (r matches Err(e) ==> e
            == FormatError::TableDecompressionFailed),
        header_ok(archive@) && table_ok(archive@) && codec::lz4_block_valid(spec_table_blob(archive@))
            && spec_entries_buf(archive@).len() == spec_entry_count(archive@) * ENTRY_SIZE ==> r
            is Ok,
{
    let header = match parse_header(archive) {
        Ok(h) => h,
        Err(e) => {
            return Err(e);
        },
    };
    let n = archive.len();
    assert(header.table_offset as nat + header.table_size as nat <= n as nat);
    let table_start = header.table_offset as usize;
    let table_end = table_start + header.table_size as usize;
    let table = slice_subrange(archive, table_start, table_end);
    assert(table@ == spec_table(archive@));
    if table.len() < 8 {
        return Err(FormatError::Truncated);
    }
    let count_raw = read_le32(table, 0);
    let compressed_raw = read_le32(table, 4);
    // The two counters are signed on disk: reject negative values.
    if count_raw >= 0x80000000 || compressed_raw >= 0x80000000 {
        return Err(FormatError::Truncated);
    }
    let count = count_raw as usize;
    let compressed_size = compressed_raw as usize;
    assert(count == spec_entry_count(archive@) && compressed_size == spec_compressed_size(
        archive@,
    ));
    if compressed_size > table.len() - 8 {
        return Err(FormatError::Truncated);
    }
    let expected64 = count as u64 * ENTRY_SIZE as u64;
    if expected64 > usize::MAX as u64 {
        return Err(FormatError::Truncated);
    }
    let expected = expected64 as usize;
    let blob = slice_subrange(table, 8, 8 + compressed_size);
    assert(blob@ == spec_table_blob(archive@));
    let buf = match codec::lz4_decompress(blob, expected) {
        Ok(b) => b,
        Err(_) => {
            return Err(FormatError::TableDecompressionFailed);
        },
    };
    let entries = parse_entries(buf.as_slice(), count);
    Ok((header, entries))
}

/// The absolute byte offset of an entry's stored payload, reassembled from
/// its split 16-bit high and 32-bit low halves.
pub open spec fn spec_entry_offset(e: FileEntry) -> nat {
    (e.offset_high as nat) * 0x100000000 + e.offset_low as nat
}

pub fn entry_offset(e: &FileEntry) -> (r: u64)
    ensures
        r as nat == spec_entry_offset(*e),
{
    (e.offset_high as u64) * 0x100000000 + (e.offset_low as u64)
}

/// True when the entry's declared stored range lies inside the archive.
pub open spec fn entry_in_bounds(e: FileEntry, a: Seq<u8>) -> bool {
    spec_entry_offset(e) + e.size_on_disk <= a.len()
}

/// The stored (still compressed) bytes of an entry.
pub open spec fn spec_stored_bytes(e: FileEntry, a: Seq<u8>) -> Seq<u8> {
    a.subrange(spec_entry_offset(e) as int, spec_entry_offset(e) + e.size_on_disk)
}

#[derive(PartialEq, Eq, Structural, Clone, Copy, Debug)]
pub enum ExtractError {
    Format(FormatError),
    Codec(CodecError),
}

/// Resolve an entry's absolute byte range, bounds-check it against the
/// archive, and hand the stored bytes through the codec dispatch: stored
/// entries come back unchanged, block-compressed ones are decompressed to
/// exactly the declared uncompressed size.
pub fn extract(archive: &[u8], e: &FileEntry) -> (r: Result<Vec<u8>, ExtractError>)
    ensures
        !entry_in_bounds(*e, archive@) ==> r == Err::<Vec<u8>, ExtractError>(
            ExtractError::Format(FormatError::Truncated),
        ),
        entry_in_bounds(*e, archive@) ==> {
            let stored = spec_stored_bytes(*e, archive@);
            let method = codec::spec_method_of(e.flags);
            &&& method == Method::Stored ==> (r matches Ok(v) && v@ == stored)
            &&& method == Method::Lz4 ==> {
                &&& r is Ok <==> codec::lz4_block_valid(stored) && codec::lz4_block_of(
                    stored,
                ).len() == e.uncompressed_size
                &&& r matches Ok(v) ==> v@ == codec::lz4_block_of(stored) && v@.len()
                    == e.uncompressed_size
                &&& r matches Err(err) ==> err == ExtractError::Codec(
                    CodecError::DecompressionFailed,
                )
            }
            &&& method == Method::Zlib || method == Method::Unrecognized ==> r == Err::<
                Vec<u8>,
                ExtractError,
            >(ExtractError::Codec(CodecError::UnsupportedMethod))
        },
{
    let offset = entry_offset(e);
    let n = archive.len();
    if offset > n as u64 || e.size_on_disk as u64 > n as u64 - offset {
        return Err(ExtractError::Format(FormatError::Truncated));
    }
    let start = offset as usize;
    let stored = slice_subrange(archive, start, start + e.size_on_disk as usize);
    let method = codec::method_of(e.flags);
    match codec::decompress(method, stored, e.uncompressed_size as usize) {
        Ok(v) => Ok(v),
        Err(err) => Err(ExtractError::Codec(err)),
    }
}

} // verus!
