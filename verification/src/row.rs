//! The packed on-disk record: a 46-byte little-endian header followed by an
//! opaque payload.  The header carries two CRC32C checksums: one over the
//! header bytes past the checksum field itself, one over the payload.

use crate::crc::{crc32c, crc32c_of};
use vstd::bytes::{
    lemma_auto_spec_u16_to_from_le_bytes, lemma_auto_spec_u32_to_from_le_bytes,
    lemma_auto_spec_u64_to_from_le_bytes, spec_u16_from_le_bytes, spec_u16_to_le_bytes,
    spec_u32_from_le_bytes, spec_u32_to_le_bytes, spec_u64_from_le_bytes, spec_u64_to_le_bytes,
    u16_to_le_bytes, u32_from_le_bytes, u32_to_le_bytes, u64_from_le_bytes, u64_to_le_bytes,
};
use vstd::prelude::*;
use vstd::slice::{slice_subrange, slice_to_vec};

verus! {

/// Low fourteen bits of the tag field: the record kind.
pub const TAG_MASK: u16 = 0x3fff;

/// On-disk size of the row header, checksum field included.
pub const ROW_HEADER_SIZE: usize = 46;

/// A payload length at or above this limit is refused while parsing, as a
/// guard against runaway allocation.
pub const ROW_LEN_LIMIT: u32 = 2048;

/// Errors of the log core; the reader, the writer and the directory scanner
/// each surface the variants that apply to them.
#[derive(Debug, PartialEq, Eq, Structural, Clone, Copy)]
pub enum LogError {
    /// A row header or payload ends before its stated size.
    ShortRead,
    /// The file ends inside a row marker or inside the header block.
    UnexpectedEof,
    /// Stored and computed header checksums differ (stored, computed).
    HeaderCrcMismatch(u32, u32),
    /// Stored and computed payload checksums differ (stored, computed).
    DataCrcMismatch(u32, u32),
    /// The stated payload length is at or above `ROW_LEN_LIMIT`.
    LenExceedsLimit,
    /// A row began with neither the row marker nor the end-of-file marker.
    InvalidMarker(u32),
    /// The file does not begin with the expected filetype literal.
    InvalidFiletype,
    /// The file's version line is not the supported version.
    InvalidVersion,
    /// Another process holds the directory lock.
    Locked,
    /// A flush failed earlier; the writer refuses appends until the file is
    /// truncated back to its confirmed length.
    Poisoned,
    /// A shard record names a shard type other than the three known ones.
    InvalidShardType(u8),
    /// A shard record carries an unsupported version byte.
    InvalidRecordVersion(u8),
}

/// Mathematical image of a row: every field a plain value, the six auxiliary
/// bytes and the payload as byte sequences.
#[verifier::ext_equal]
pub struct RowV {
    pub header_crc32c: u32,
    pub lsn: i64,
    pub scn: i64,
    pub tag: u16,
    pub shard_id: u16,
    pub aux: Seq<u8>,
    pub tm: u64,
    pub len: u32,
    pub data_crc32c: u32,
    pub data: Seq<u8>,
}

/// A single log record.  The wall-clock stamp is carried as the bit image of
/// the eight `tm` bytes; this crate never interprets it as a number.
#[derive(Debug)]
pub struct Row {
    pub header_crc32c: u32,
    pub lsn: i64,
    pub scn: i64,
    pub tag: u16,
    pub shard_id: u16,
    pub aux: [u8; 6],
    pub tm: u64,
    pub len: u32,
    pub data_crc32c: u32,
    pub data: Vec<u8>,
}

impl View for Row {
    type V = RowV;

    open spec fn view(&self) -> RowV {
        RowV {
            header_crc32c: self.header_crc32c,
            lsn: self.lsn,
            scn: self.scn,
            tag: self.tag,
            shard_id: self.shard_id,
            aux: self.aux@,
            tm: self.tm,
            len: self.len,
            data_crc32c: self.data_crc32c,
            data: self.data@,
        }
    }
}

impl RowV {
    /// Structural health: six auxiliary bytes, payload under the limit, and
    /// the length field equal to the payload's length.
    pub open spec fn wf(self) -> bool {
        &&& self.aux.len() == 6
        &&& self.len < ROW_LEN_LIMIT
        &&& self.len as int == self.data.len()
    }

    /// Both checksums agree with the bytes they cover.
    pub open spec fn crc_valid(self) -> bool {
        &&& self.data_crc32c == crc32c_of(self.data)
        &&& self.header_crc32c == crc32c_of(spec_header_tail(self))
    }
}

impl Row {
    pub open spec fn wf(self) -> bool {
        self@.wf()
    }

    pub open spec fn crc_valid(self) -> bool {
        self@.crc_valid()
    }
}

/// Header bytes past the checksum field: bytes [4..46] of the header.
pub open spec fn spec_header_tail(r: RowV) -> Seq<u8> {
    spec_u64_to_le_bytes(r.lsn as u64) + spec_u64_to_le_bytes(r.scn as u64)
        + spec_u16_to_le_bytes(r.tag) + spec_u16_to_le_bytes(r.shard_id) + r.aux
        + spec_u64_to_le_bytes(r.tm) + spec_u32_to_le_bytes(r.len)
        + spec_u32_to_le_bytes(r.data_crc32c)
}

/// The full 46 header bytes.
pub open spec fn spec_header_bytes(r: RowV) -> Seq<u8> {
    spec_u32_to_le_bytes(r.header_crc32c) + spec_header_tail(r)
}

/// Header and payload: the row's whole on-disk image, marker excluded.
pub open spec fn spec_row_bytes(r: RowV) -> Seq<u8> {
    spec_header_bytes(r) + r.data
}

/// Where each field sits inside the 42 tail bytes.
pub proof fn lemma_tail_fields(r: RowV)
    requires
        r.aux.len() == 6,
    ensures
        spec_header_tail(r).len() == 42,
        spec_header_tail(r).subrange(0, 8) == spec_u64_to_le_bytes(r.lsn as u64),
        spec_header_tail(r).subrange(8, 16) == spec_u64_to_le_bytes(r.scn as u64),
        spec_header_tail(r).subrange(16, 18) == spec_u16_to_le_bytes(r.tag),
        spec_header_tail(r).subrange(18, 20) == spec_u16_to_le_bytes(r.shard_id),
        spec_header_tail(r).subrange(20, 26) == r.aux,
        spec_header_tail(r).subrange(26, 34) == spec_u64_to_le_bytes(r.tm),
        spec_header_tail(r).subrange(34, 38) == spec_u32_to_le_bytes(r.len),
        spec_header_tail(r).subrange(38, 42) == spec_u32_to_le_bytes(r.data_crc32c),
{
    lemma_auto_spec_u16_to_from_le_bytes();
    lemma_auto_spec_u32_to_from_le_bytes();
    lemma_auto_spec_u64_to_from_le_bytes();
    let t = spec_header_tail(r);
    assert(t.subrange(0, 8) =~= spec_u64_to_le_bytes(r.lsn as u64));
    assert(t.subrange(8, 16) =~= spec_u64_to_le_bytes(r.scn as u64));
    assert(t.subrange(16, 18) =~= spec_u16_to_le_bytes(r.tag));
    assert(t.subrange(18, 20) =~= spec_u16_to_le_bytes(r.shard_id));
    assert(t.subrange(20, 26) =~= r.aux);
    assert(t.subrange(26, 34) =~= spec_u64_to_le_bytes(r.tm));
    assert(t.subrange(34, 38) =~= spec_u32_to_le_bytes(r.len));
    assert(t.subrange(38, 42) =~= spec_u32_to_le_bytes(r.data_crc32c));
}

/// Append a slice's bytes to a vector.
pub fn push_bytes(out: &mut Vec<u8>, other: &[u8])
    ensures
        final(out)@ == old(out)@ + other@,
{
    out.extend_from_slice(other);
    proof {
        assert forall|i: int| 0 <= i < out@.len() implies out@[i] == (old(out)@ + other@)[i] by {
            if i >= old(out)@.len() {
                assert(cloned::<u8>(other@[i - old(out)@.len()], out@[i]));
            }
        }
        assert(out@ =~= old(out)@ + other@);
    }
}

/// Serialize the 42 header bytes past the checksum field.
fn header_tail_bytes(r: &Row) -> (out: Vec<u8>)
    ensures
        out@ == spec_header_tail(r@),
{
    let mut out: Vec<u8> = Vec::new();
    let mut piece = u64_to_le_bytes(r.lsn as u64);
    out.append(&mut piece);
    let mut piece = u64_to_le_bytes(r.scn as u64);
    out.append(&mut piece);
    let mut piece = u16_to_le_bytes(r.tag);
    out.append(&mut piece);
    let mut piece = u16_to_le_bytes(r.shard_id);
    out.append(&mut piece);
    push_bytes(&mut out, r.aux.as_slice());
    let mut piece = u64_to_le_bytes(r.tm);
    out.append(&mut piece);
    let mut piece = u32_to_le_bytes(r.len);
    out.append(&mut piece);
    let mut piece = u32_to_le_bytes(r.data_crc32c);
    out.append(&mut piece);
    proof {
        assert(out@ =~= spec_header_tail(r@));
    }
    out
}

impl Row {
    /// Recompute both checksums: the payload checksum first, then the header
    /// checksum over the tail bytes (which include the payload checksum).
    /// Must run before `write`; afterwards the row satisfies `crc_valid`.
    pub fn update_crc(&mut self)
        ensures
            final(self).data_crc32c == crc32c_of(old(self).data@),
            final(self).crc_valid(),
            final(self).lsn == old(self).lsn,
            final(self).scn == old(self).scn,
            final(self).tag == old(self).tag,
            final(self).shard_id == old(self).shard_id,
            final(self).aux == old(self).aux,
            final(self).tm == old(self).tm,
            final(self).len == old(self).len,
            final(self).data == old(self).data,
    {
        self.data_crc32c = crc32c(self.data.as_slice());
        let tail = header_tail_bytes(self);
        self.header_crc32c = crc32c(tail.as_slice());
    }

    /// Serialize the row: 46 header bytes, then the payload.
    pub fn write(&self) -> (out: Vec<u8>)
        ensures
            out@ == spec_row_bytes(self@),
    {
        let mut out = u32_to_le_bytes(self.header_crc32c);
        let mut tail = header_tail_bytes(self);
        out.append(&mut tail);
        push_bytes(&mut out, self.data.as_slice());
        proof {
            assert(out@ =~= spec_row_bytes(self@));
        }
        out
    }

    /// The payload.
    pub fn data(&self) -> (d: &Vec<u8>)
        ensures
            d@ == self@.data,
    {
        &self.data
    }

    /// The payload, writable in place; its length cannot change through
    /// this view, so the row's shape is preserved.
    pub fn data_mut(&mut self) -> (d: &mut [u8])
        ensures
            d@ == old(self).data@,
            final(self).data@ == final(d)@,
            final(self).header_crc32c == old(self).header_crc32c,
            final(self).lsn == old(self).lsn,
            final(self).scn == old(self).scn,
            final(self).tag == old(self).tag,
            final(self).shard_id == old(self).shard_id,
            final(self).aux == old(self).aux,
            final(self).tm == old(self).tm,
            final(self).len == old(self).len,
            final(self).data_crc32c == old(self).data_crc32c,
    {
        self.data.as_mut_slice()
    }
}

/// A signed value survives the trip through its unsigned bit image.
pub proof fn lemma_i64_cast_roundtrip(x: i64)
    ensures
        (x as u64) as i64 == x,
{
    assert((x as u64) as i64 == x) by (bit_vector);
}

/// An unsigned value survives the trip through its signed bit image.
pub proof fn lemma_u64_cast_roundtrip(x: u64)
    ensures
        (x as i64) as u64 == x,
{
    assert((x as i64) as u64 == x) by (bit_vector);
}

/// What parsing a row at `pos` yields: the row and the position past it, or
/// the first failure in the order the parser checks — a short header, a
/// header checksum mismatch, an oversized payload length, a short payload,
/// a payload checksum mismatch.
pub open spec fn spec_row_read(s: Seq<u8>, pos: int) -> Result<(RowV, int), LogError>
    recommends
        0 <= pos <= s.len(),
{
    if s.len() - pos < 46 {
        Err(LogError::ShortRead)
    } else {
        let stored_h = spec_u32_from_le_bytes(s.subrange(pos, pos + 4));
        let computed_h = crc32c_of(s.subrange(pos + 4, pos + 46));
        if computed_h != stored_h {
            Err(LogError::HeaderCrcMismatch(stored_h, computed_h))
        } else {
            let len = spec_u32_from_le_bytes(s.subrange(pos + 38, pos + 42));
            if len >= ROW_LEN_LIMIT {
                Err(LogError::LenExceedsLimit)
            } else if s.len() - (pos + 46) < len {
                Err(LogError::ShortRead)
            } else {
                let stored_d = spec_u32_from_le_bytes(s.subrange(pos + 42, pos + 46));
                let data = s.subrange(pos + 46, pos + 46 + len);
                let computed_d = crc32c_of(data);
                if computed_d != stored_d {
                    Err(LogError::DataCrcMismatch(stored_d, computed_d))
                } else {
                    Ok(
                        (
                            RowV {
                                header_crc32c: stored_h,
                                lsn: spec_u64_from_le_bytes(s.subrange(pos + 4, pos + 12)) as i64,
                                scn: spec_u64_from_le_bytes(s.subrange(pos + 12, pos + 20)) as i64,
                                tag: spec_u16_from_le_bytes(s.subrange(pos + 20, pos + 22)),
                                shard_id: spec_u16_from_le_bytes(s.subrange(pos + 22, pos + 24)),
                                aux: s.subrange(pos + 24, pos + 30),
                                tm: spec_u64_from_le_bytes(s.subrange(pos + 30, pos + 38)),
                                len: len,
                                data_crc32c: stored_d,
                                data: data,
                            },
                            pos + 46 + len,
                        ),
                    )
                }
            }
        }
    }
}

impl Row {
    /// Parse a row at `pos`.  On success the returned position sits just past
    /// the payload and the row reproduces exactly the bytes it was read from
    /// (see `lemma_row_read_ok`).
    pub fn read(buf: &[u8], pos: usize) -> (r: Result<(Row, usize), LogError>)
        requires
            pos <= buf@.len(),
        ensures
            match r {
                Ok((row, end)) => {
                    &&& spec_row_read(buf@, pos as int) == Ok::<(RowV, int), LogError>(
                        (row@, end as int),
                    )
                    &&& row.wf()
                    &&& row.crc_valid()
                    &&& pos < end <= buf@.len()
                },
                Err(e) => spec_row_read(buf@, pos as int) == Err::<(RowV, int), LogError>(e),
            },
    {
        if buf.len() - pos < ROW_HEADER_SIZE {
            return Err(LogError::ShortRead);
        }
        let stored_h = u32_from_le_bytes(slice_subrange(buf, pos, pos + 4));
        let computed_h = crc32c(slice_subrange(buf, pos + 4, pos + 46));
        if computed_h != stored_h {
            return Err(LogError::HeaderCrcMismatch(stored_h, computed_h));
        }
        let len = u32_from_le_bytes(slice_subrange(buf, pos + 38, pos + 42));
        if len >= ROW_LEN_LIMIT {
            return Err(LogError::LenExceedsLimit);
        }
        if buf.len() - (pos + 46) < len as usize {
            return Err(LogError::ShortRead);
        }
        let stored_d = u32_from_le_bytes(slice_subrange(buf, pos + 42, pos + 46));
        let data: Vec<u8> = slice_to_vec(slice_subrange(buf, pos + 46, pos + 46 + len as usize));
        let computed_d = crc32c(data.as_slice());
        if computed_d != stored_d {
            return Err(LogError::DataCrcMismatch(stored_d, computed_d));
        }
        let a0 = buf[pos + 24];
        let a1 = buf[pos + 25];
        let a2 = buf[pos + 26];
        let a3 = buf[pos + 27];
        let a4 = buf[pos + 28];
        let a5 = buf[pos + 29];
        let aux = [a0, a1, a2, a3, a4, a5];
        let row = Row {
            header_crc32c: stored_h,
            lsn: #[verifier::truncate] (u64_from_le_bytes(slice_subrange(buf, pos + 4, pos + 12))
                as i64),
            scn: #[verifier::truncate] (u64_from_le_bytes(slice_subrange(buf, pos + 12, pos + 20))
                as i64),
            tag: u16_from_le_bytes_at(buf, pos + 20),
            shard_id: u16_from_le_bytes_at(buf, pos + 22),
            aux: aux,
            tm: u64_from_le_bytes(slice_subrange(buf, pos + 30, pos + 38)),
            len: len,
            data_crc32c: stored_d,
            data: data,
        };
        let end = pos + 46 + len as usize;
        proof {
            let s = buf@;
            let p = pos as int;
            assert(row@.aux =~= s.subrange(p + 24, p + 30));
            assert(spec_row_read(s, p) is Ok);
            let rv = spec_row_read(s, p)->Ok_0.0;
            let e = spec_row_read(s, p)->Ok_0.1;
            assert(row@ =~= rv);
            assert(end as int == e);
            assert(spec_row_read(s, p) == Ok::<(RowV, int), LogError>((row@, end as int)));
            lemma_row_read_ok(s, p, row@, end as int);
        }
        Ok((row, end))
    }
}

/// Read a little-endian `u16` at an offset of a slice.
fn u16_from_le_bytes_at(buf: &[u8], pos: usize) -> (x: u16)
    requires
        pos + 2 <= buf@.len(),
    ensures
        x == spec_u16_from_le_bytes(buf@.subrange(pos as int, pos + 2)),
{
    let l = buf.len();
    vstd::bytes::u16_from_le_bytes(slice_subrange(buf, pos, pos + 2))
}

/// A row parsed successfully is well formed, checksum-consistent, and is the
/// exact image of the bytes it came from: re-serializing it reproduces them.
pub proof fn lemma_row_read_ok(s: Seq<u8>, pos: int, r: RowV, end: int)
    requires
        0 <= pos <= s.len(),
        spec_row_read(s, pos) == Ok::<(RowV, int), LogError>((r, end)),
    ensures
        r.wf(),
        r.crc_valid(),
        end == pos + 46 + r.len,
        spec_row_bytes(r) == s.subrange(pos, end),
{
    lemma_auto_spec_u16_to_from_le_bytes();
    lemma_auto_spec_u32_to_from_le_bytes();
    lemma_auto_spec_u64_to_from_le_bytes();
    lemma_u64_cast_roundtrip(spec_u64_from_le_bytes(s.subrange(pos + 4, pos + 12)));
    lemma_u64_cast_roundtrip(spec_u64_from_le_bytes(s.subrange(pos + 12, pos + 20)));
    lemma_tail_fields(r);
    assert(spec_header_tail(r) =~= s.subrange(pos + 4, pos + 46));
    assert(spec_row_bytes(r) =~= s.subrange(pos, end));
}

/// The record kinds carried in the low fourteen bits of the tag field.
#[derive(Debug, PartialEq, Eq, Structural, Clone, Copy)]
pub enum Tag {
    SnapInitial,
    SnapData,
    WalData,
    SnapFinal,
    WalFinal,
    RunCrc,
    Nop,
    RaftAppend,
    RaftCommit,
    RaftVote,
    ShardCreate,
    ShardAlter,
    ShardFinal,
    Tlv,
    SysTag(u8),
    UserTag(u8),
}

/// The kind a raw tag word decodes to.
pub open spec fn spec_tag_new(repr: u16) -> Tag {
    let k = repr & TAG_MASK;
    if k == 1 {
        Tag::SnapInitial
    } else if k == 2 {
        Tag::SnapData
    } else if k == 3 {
        Tag::WalData
    } else if k == 4 {
        Tag::SnapFinal
    } else if k == 5 {
        Tag::WalFinal
    } else if k == 6 {
        Tag::RunCrc
    } else if k == 7 {
        Tag::Nop
    } else if k == 8 {
        Tag::RaftAppend
    } else if k == 9 {
        Tag::RaftCommit
    } else if k == 10 {
        Tag::RaftVote
    } else if k == 11 {
        Tag::ShardCreate
    } else if k == 12 {
        Tag::ShardAlter
    } else if k == 13 {
        Tag::ShardFinal
    } else if k == 14 {
        Tag::Tlv
    } else if k < 32 {
        Tag::SysTag(k as u8)
    } else {
        Tag::UserTag((k >> 5) as u8)
    }
}

/// The raw word a kind maps back to (kinds one to fourteen; for the numbered
/// system and user kinds, the stored number itself).
pub open spec fn spec_tag_as_u16(t: Tag) -> u16 {
    match t {
        Tag::SnapInitial => 1,
        Tag::SnapData => 2,
        Tag::WalData => 3,
        Tag::SnapFinal => 4,
        Tag::WalFinal => 5,
        Tag::RunCrc => 6,
        Tag::Nop => 7,
        Tag::RaftAppend => 8,
        Tag::RaftCommit => 9,
        Tag::RaftVote => 10,
        Tag::ShardCreate => 11,
        Tag::ShardAlter => 12,
        Tag::ShardFinal => 13,
        Tag::Tlv => 14,
        Tag::SysTag(n) => n as u16,
        Tag::UserTag(n) => n as u16,
    }
}

impl Tag {
    pub fn new(repr: u16) -> (t: Tag)
        ensures
            t == spec_tag_new(repr),
    {
        let k = repr & TAG_MASK;
        match k {
            1 => Tag::SnapInitial,
            2 => Tag::SnapData,
            3 => Tag::WalData,
            4 => Tag::SnapFinal,
            5 => Tag::WalFinal,
            6 => Tag::RunCrc,
            7 => Tag::Nop,
            8 => Tag::RaftAppend,
            9 => Tag::RaftCommit,
            10 => Tag::RaftVote,
            11 => Tag::ShardCreate,
            12 => Tag::ShardAlter,
            13 => Tag::ShardFinal,
            14 => Tag::Tlv,
            t if t < 32 => Tag::SysTag(t as u8),
            t => Tag::UserTag(#[verifier::truncate] ((t >> 5) as u8)),
        }
    }

    pub fn as_u16(&self) -> (r: u16)
        ensures
            r == spec_tag_as_u16(*self),
    {
        match self {
            Tag::SnapInitial => 1,
            Tag::SnapData => 2,
            Tag::WalData => 3,
            Tag::SnapFinal => 4,
            Tag::WalFinal => 5,
            Tag::RunCrc => 6,
            Tag::Nop => 7,
            Tag::RaftAppend => 8,
            Tag::RaftCommit => 9,
            Tag::RaftVote => 10,
            Tag::ShardCreate => 11,
            Tag::ShardAlter => 12,
            Tag::ShardFinal => 13,
            Tag::Tlv => 14,
            Tag::SysTag(t) => *t as u16,
            Tag::UserTag(t) => *t as u16,
        }
    }
}

/// The category in the top two bits of the tag field.
#[derive(Debug, PartialEq, Eq, Structural, Clone, Copy)]
pub enum TagType {
    SNAP,
    WAL,
    SYS,
    INVALID,
}

/// The raw word of each category.
pub open spec fn spec_tag_type_bits(t: TagType) -> u16 {
    match t {
        TagType::SNAP => 0x4000,
        TagType::WAL => 0x8000,
        TagType::SYS => 0xc000,
        TagType::INVALID => 0,
    }
}

/// The category a raw tag word carries.
pub open spec fn spec_tag_type_new(repr: u16) -> TagType {
    let c = repr & !TAG_MASK;
    if c == 0x4000 {
        TagType::SNAP
    } else if c == 0x8000 {
        TagType::WAL
    } else if c == 0xc000 {
        TagType::SYS
    } else {
        TagType::INVALID
    }
}

impl TagType {
    pub fn new(repr: u16) -> (t: TagType)
        ensures
            t == spec_tag_type_new(repr),
    {
        match repr & !TAG_MASK {
            0x4000 => TagType::SNAP,
            0x8000 => TagType::WAL,
            0xc000 => TagType::SYS,
            _ => TagType::INVALID,
        }
    }
}

/// The kind of shard a shard record describes.
#[derive(Debug, PartialEq, Eq, Structural, Clone, Copy)]
pub enum ShardType {
    POR,
    RAFT,
    PART,
}

impl ShardType {
    pub fn new(repr: u8) -> (r: Result<ShardType, LogError>)
        ensures
            repr == 0 ==> r == Ok::<ShardType, LogError>(ShardType::POR),
            repr == 1 ==> r == Ok::<ShardType, LogError>(ShardType::RAFT),
            repr == 2 ==> r == Ok::<ShardType, LogError>(ShardType::PART),
            repr > 2 ==> r == Err::<ShardType, LogError>(LogError::InvalidShardType(repr)),
    {
        match repr {
            0 => Ok(ShardType::POR),
            1 => Ok(ShardType::RAFT),
            2 => Ok(ShardType::PART),
            _ => Err(LogError::InvalidShardType(repr)),
        }
    }
}

impl Row {
    /// The record kind in the low fourteen tag bits.
    pub fn tag(&self) -> (t: Tag)
        ensures
            t == spec_tag_new(self.tag),
    {
        proof {
            let t = self.tag;
            assert((t & 0x3fffu16) & 0x3fffu16 == t & 0x3fffu16) by (bit_vector);
        }
        Tag::new(self.tag & TAG_MASK)
    }

    /// Stamp a category onto the tag's top two bits, keeping the kind.
    pub fn set_tag_category(&mut self, cat: TagType)
        ensures
            final(self).tag == ((old(self).tag & TAG_MASK) | spec_tag_type_bits(cat)),
            (*final(self) == Row { tag: final(self).tag, ..*old(self) }),
    {
        let bits: u16 = match cat {
            TagType::SNAP => 0x4000,
            TagType::WAL => 0x8000,
            TagType::SYS => 0xc000,
            TagType::INVALID => 0,
        };
        self.tag = (self.tag & TAG_MASK) | bits;
    }

    /// The category in the top two tag bits.
    pub fn tag_type(&self) -> (t: TagType)
        ensures
            t == spec_tag_type_new(self.tag),
    {
        proof {
            let t = self.tag;
            assert((t & !0x3fffu16) & !0x3fffu16 == t & !0x3fffu16) by (bit_vector);
        }
        TagType::new(self.tag & !TAG_MASK)
    }
}

/// Index of the first zero byte, or the length when none occurs.
pub open spec fn spec_first_zero(s: Seq<u8>) -> int
    decreases s.len(),
{
    if s.len() == 0 {
        0
    } else if s[0] == 0 {
        0
    } else {
        1 + spec_first_zero(s.subrange(1, s.len() as int))
    }
}

proof fn lemma_first_zero_bounds(s: Seq<u8>)
    ensures
        0 <= spec_first_zero(s) <= s.len(),
        forall|i: int| 0 <= i < spec_first_zero(s) ==> s[i] != 0,
        spec_first_zero(s) < s.len() ==> s[spec_first_zero(s)] == 0,
    decreases s.len(),
{
    if s.len() > 0 && s[0] != 0 {
        let t = s.subrange(1, s.len() as int);
        lemma_first_zero_bounds(t);
        assert forall|i: int| 0 <= i < spec_first_zero(s) implies s[i] != 0 by {
            if i >= 1 {
                assert(s[i] == t[i - 1]);
            }
        }
        if spec_first_zero(s) < s.len() {
            assert(s[spec_first_zero(s)] == t[spec_first_zero(t)]);
        }
    }
}

/// The first zero sits exactly where the first zero is: a position with only
/// nonzero bytes before it, holding a zero itself unless it is the end.
proof fn lemma_first_zero_at(s: Seq<u8>, k: int)
    requires
        0 <= k <= s.len(),
        forall|i: int| 0 <= i < k ==> s[i] != 0,
        k < s.len() ==> s[k] == 0,
    ensures
        spec_first_zero(s) == k,
{
    lemma_first_zero_bounds(s);
    let fz = spec_first_zero(s);
    if fz < k {
        assert(s[fz] != 0);
        assert(s[fz] == 0);
    }
    if fz > k {
        assert(s[k] != 0);
    }
}

/// Index of the first zero byte of a slice, or its length when none occurs.
fn first_zero_index(s: &[u8]) -> (n: usize)
    ensures
        n as int == spec_first_zero(s@),
        n <= s@.len(),
{
    let len = s.len();
    let mut n: usize = 0;
    while n < len
        invariant
            n <= len,
            len == s@.len(),
            forall|i: int| 0 <= i < n ==> s@[i] != 0,
        decreases len - n,
    {
        if s[n] == 0 {
            proof {
                lemma_first_zero_at(s@, n as int);
            }
            return n;
        }
        n = n + 1;
    }
    proof {
        lemma_first_zero_at(s@, n as int);
    }
    n
}

/// A cursor over a byte buffer that hands out little-endian fixed-width
/// values; reading past the end is ruled out by contract.
pub struct LittleEndianReader {
    pub buf: Vec<u8>,
    pub pos: usize,
}

impl LittleEndianReader {
    pub fn new(buf: Vec<u8>) -> (r: LittleEndianReader)
        ensures
            r.buf@ == buf@,
            r.pos == 0,
    {
        LittleEndianReader { buf, pos: 0 }
    }

    pub fn read_u8(&mut self) -> (v: u8)
        requires
            old(self).pos + 1 <= old(self).buf@.len(),
        ensures
            v == old(self).buf@[old(self).pos as int],
            final(self).buf == old(self).buf,
            final(self).pos == old(self).pos + 1,
    {
        let l = self.buf.len();
        let v = self.buf[self.pos];
        self.pos = self.pos + 1;
        v
    }

    pub fn read_u16(&mut self) -> (v: u16)
        requires
            old(self).pos + 2 <= old(self).buf@.len(),
        ensures
            v == spec_u16_from_le_bytes(old(self).buf@.subrange(old(self).pos as int, old(self).pos + 2)),
            final(self).buf == old(self).buf,
            final(self).pos == old(self).pos + 2,
    {
        let l = self.buf.len();
        let v = u16_from_le_bytes_at(self.buf.as_slice(), self.pos);
        self.pos = self.pos + 2;
        v
    }

    pub fn read_u32(&mut self) -> (v: u32)
        requires
            old(self).pos + 4 <= old(self).buf@.len(),
        ensures
            v == spec_u32_from_le_bytes(old(self).buf@.subrange(old(self).pos as int, old(self).pos + 4)),
            final(self).buf == old(self).buf,
            final(self).pos == old(self).pos + 4,
    {
        let l = self.buf.len();
        let v = u32_from_le_bytes(slice_subrange(self.buf.as_slice(), self.pos, self.pos + 4));
        self.pos = self.pos + 4;
        v
    }

    pub fn read_u64(&mut self) -> (v: u64)
        requires
            old(self).pos + 8 <= old(self).buf@.len(),
        ensures
            v == spec_u64_from_le_bytes(old(self).buf@.subrange(old(self).pos as int, old(self).pos + 8)),
            final(self).buf == old(self).buf,
            final(self).pos == old(self).pos + 8,
    {
        let l = self.buf.len();
        let v = u64_from_le_bytes(slice_subrange(self.buf.as_slice(), self.pos, self.pos + 8));
        self.pos = self.pos + 8;
        v
    }

    pub fn read_i64(&mut self) -> (v: i64)
        requires
            old(self).pos + 8 <= old(self).buf@.len(),
        ensures
            v == spec_u64_from_le_bytes(old(self).buf@.subrange(old(self).pos as int, old(self).pos + 8)) as i64,
            final(self).buf == old(self).buf,
            final(self).pos == old(self).pos + 8,
    {
        let l = self.buf.len();
        let v = u64_from_le_bytes(slice_subrange(self.buf.as_slice(), self.pos, self.pos + 8));
        self.pos = self.pos + 8;
        #[verifier::truncate] (v as i64)
    }

    /// Read a fixed-width field of `len` bytes holding a zero-padded name:
    /// the bytes before the first zero are returned, the cursor moves past
    /// the whole field.
    pub fn read_str(&mut self, len: usize) -> (v: Vec<u8>)
        requires
            old(self).pos + len <= old(self).buf@.len(),
        ensures
            ({
                let w = old(self).buf@.subrange(old(self).pos as int, old(self).pos + len);
                v@ == w.subrange(0, spec_first_zero(w))
            }),
            final(self).buf == old(self).buf,
            final(self).pos == old(self).pos + len,
    {
        let l = self.buf.len();
        let field = slice_subrange(self.buf.as_slice(), self.pos, self.pos + len);
        let n = first_zero_index(field);
        let v = slice_to_vec(slice_subrange(field, 0, n));
        self.pos = self.pos + len;
        v
    }

    /// Give the buffer back, together with how far the cursor got.
    pub fn into_cursor(self) -> (r: (Vec<u8>, usize))
        ensures
            r.0@ == self.buf@,
            r.1 == self.pos,
    {
        (self.buf, self.pos)
    }
}

/// A well-formed, checksum-valid row's image parses back to the row,
/// wherever in a larger buffer the image sits.
pub proof fn lemma_row_parse_at(s: Seq<u8>, p: int, r: RowV)
    requires
        r.wf(),
        r.crc_valid(),
        0 <= p,
        p + 46 + r.len <= s.len(),
        s.subrange(p, p + 46 + r.len) == spec_row_bytes(r),
    ensures
        spec_row_read(s, p) == Ok::<(RowV, int), LogError>((r, p + 46 + r.len)),
{
    lemma_auto_spec_u16_to_from_le_bytes();
    lemma_auto_spec_u32_to_from_le_bytes();
    lemma_auto_spec_u64_to_from_le_bytes();
    lemma_i64_cast_roundtrip(r.lsn);
    lemma_i64_cast_roundtrip(r.scn);
    lemma_tail_fields(r);
    let b = spec_row_bytes(r);
    let t = spec_header_tail(r);
    assert(b.len() == 46 + r.len);
    let e = 46 + r.len as int;
    s.lemma_slice_of_slice(p, p + e, 0, 4);
    s.lemma_slice_of_slice(p, p + e, 4, 46);
    s.lemma_slice_of_slice(p, p + e, 4, 12);
    s.lemma_slice_of_slice(p, p + e, 12, 20);
    s.lemma_slice_of_slice(p, p + e, 20, 22);
    s.lemma_slice_of_slice(p, p + e, 22, 24);
    s.lemma_slice_of_slice(p, p + e, 24, 30);
    s.lemma_slice_of_slice(p, p + e, 30, 38);
    s.lemma_slice_of_slice(p, p + e, 38, 42);
    s.lemma_slice_of_slice(p, p + e, 42, 46);
    s.lemma_slice_of_slice(p, p + e, 46, e);
    assert(b.subrange(0, 4) =~= spec_u32_to_le_bytes(r.header_crc32c));
    assert(b.subrange(4, 46) =~= t);
    assert(b.subrange(4, 12) =~= t.subrange(0, 8));
    assert(b.subrange(12, 20) =~= t.subrange(8, 16));
    assert(b.subrange(20, 22) =~= t.subrange(16, 18));
    assert(b.subrange(22, 24) =~= t.subrange(18, 20));
    assert(b.subrange(24, 30) =~= t.subrange(20, 26));
    assert(b.subrange(30, 38) =~= t.subrange(26, 34));
    assert(b.subrange(38, 42) =~= t.subrange(34, 38));
    assert(b.subrange(42, 46) =~= t.subrange(38, 42));
    assert(b.subrange(46, e) =~= r.data);
    assert(s.len() - p >= 46);
    let parsed = spec_row_read(s, p);
    assert(parsed is Ok);
    assert(parsed->Ok_0.0 =~= r);
    assert(parsed->Ok_0.1 == p + 46 + r.len);
}

/// A row image cut anywhere inside its payload still carries a valid
/// header, so the parser reports a short read, not corruption.
pub proof fn lemma_row_read_torn(s: Seq<u8>, p: int, r: RowV)
    requires
        r.wf(),
        r.crc_valid(),
        0 <= p,
        s.len() - p >= 46,
        s.len() - p < 46 + r.len,
        s.subrange(p, s.len() as int) == spec_row_bytes(r).subrange(0, s.len() - p),
    ensures
        spec_row_read(s, p) == Err::<(RowV, int), LogError>(LogError::ShortRead),
{
    lemma_auto_spec_u32_to_from_le_bytes();
    lemma_tail_fields(r);
    let avail = s.len() - p;
    let b = spec_row_bytes(r);
    let t = spec_header_tail(r);
    assert(b.len() == 46 + r.len);
    let pre = b.subrange(0, avail);
    s.lemma_slice_of_slice(p, s.len() as int, 0, 4);
    s.lemma_slice_of_slice(p, s.len() as int, 4, 46);
    s.lemma_slice_of_slice(p, s.len() as int, 38, 42);
    b.lemma_slice_of_slice(0, avail, 0, 4);
    b.lemma_slice_of_slice(0, avail, 4, 46);
    b.lemma_slice_of_slice(0, avail, 38, 42);
    assert(b.subrange(0, 4) =~= spec_u32_to_le_bytes(r.header_crc32c));
    assert(b.subrange(4, 46) =~= t);
    assert(b.subrange(38, 42) =~= t.subrange(34, 38));
    assert(s.subrange(p, p + 4) == spec_u32_to_le_bytes(r.header_crc32c));
    assert(s.subrange(p + 4, p + 46) == t);
    assert(s.subrange(p + 38, p + 42) == spec_u32_to_le_bytes(r.len));
    assert(s.len() - (p + 46) < r.len);
}

/// Read a little-endian `u32` at an offset of a slice.
fn u32_from_le_bytes_at(buf: &[u8], pos: usize) -> (x: u32)
    requires
        pos + 4 <= buf@.len(),
    ensures
        x == spec_u32_from_le_bytes(buf@.subrange(pos as int, pos + 4)),
{
    let l = buf.len();
    u32_from_le_bytes(slice_subrange(buf, pos, pos + 4))
}

/// Read a little-endian `u64` at an offset of a slice.
fn u64_from_le_bytes_at(buf: &[u8], pos: usize) -> (x: u64)
    requires
        pos + 8 <= buf@.len(),
    ensures
        x == spec_u64_from_le_bytes(buf@.subrange(pos as int, pos + 8)),
{
    let l = buf.len();
    u64_from_le_bytes(slice_subrange(buf, pos, pos + 8))
}

/// A sixteen-byte zero-padded name field: the bytes before the first zero.
pub open spec fn spec_str_field(data: Seq<u8>, pos: int) -> Seq<u8> {
    let w = data.subrange(pos, pos + 16);
    w.subrange(0, spec_first_zero(w))
}

/// Extract a sixteen-byte zero-padded name field.
fn str_field(data: &[u8], pos: usize) -> (v: Vec<u8>)
    requires
        pos + 16 <= data@.len(),
    ensures
        v@ == spec_str_field(data@, pos as int),
{
    let l = data.len();
    let field = slice_subrange(data, pos, pos + 16);
    let n = first_zero_index(field);
    slice_to_vec(slice_subrange(field, 0, n))
}

/// What stands inside a raft record after its flags, term and inner tag.
#[derive(Debug, PartialEq, Eq, Structural, Clone, Copy)]
pub enum RaftInner {
    RunCrc { scn: u64, crc_log: u32 },
    Nop,
    Other { inner_tag: Tag },
}

/// The parsed inner framing of a row's payload, the part the cat tool
/// renders.  Opaque payloads stay opaque.
#[derive(Debug, PartialEq, Eq, Clone)]
pub enum RowInfo {
    SnapInitial { count: u32, crc_log: u32, crc_mod: u32 },
    SnapInitialCompact { ver: u8, count: u32, flags: u32 },
    SnapInitialUnknown,
    RunCrc { scn: i64, crc_log: u32 },
    Raft { flags: u16, term: u64, inner: RaftInner },
    RaftVote { flags: u16, term: u64, peer_id: u8 },
    Shard {
        shard_type: ShardType,
        estimated_row_count: u32,
        mod_name: Vec<u8>,
        master: Vec<u8>,
        replicas: Vec<Vec<u8>>,
        aux: Vec<u8>,
    },
    Data,
    Nothing,
}

/// Mathematical image of `RowInfo`.
#[verifier::ext_equal]
pub enum RowInfoV {
    SnapInitial { count: u32, crc_log: u32, crc_mod: u32 },
    SnapInitialCompact { ver: u8, count: u32, flags: u32 },
    SnapInitialUnknown,
    RunCrc { scn: i64, crc_log: u32 },
    Raft { flags: u16, term: u64, inner: RaftInner },
    RaftVote { flags: u16, term: u64, peer_id: u8 },
    Shard {
        shard_type: ShardType,
        estimated_row_count: u32,
        mod_name: Seq<u8>,
        master: Seq<u8>,
        replicas: Seq<Seq<u8>>,
        aux: Seq<u8>,
    },
    Data,
    Nothing,
}

impl View for RowInfo {
    type V = RowInfoV;

    open spec fn view(&self) -> RowInfoV {
        match self {
            RowInfo::SnapInitial { count, crc_log, crc_mod } => RowInfoV::SnapInitial {
                count: *count,
                crc_log: *crc_log,
                crc_mod: *crc_mod,
            },
            RowInfo::SnapInitialCompact { ver, count, flags } => RowInfoV::SnapInitialCompact {
                ver: *ver,
                count: *count,
                flags: *flags,
            },
            RowInfo::SnapInitialUnknown => RowInfoV::SnapInitialUnknown,
            RowInfo::RunCrc { scn, crc_log } => RowInfoV::RunCrc {
                scn: *scn,
                crc_log: *crc_log,
            },
            RowInfo::Raft { flags, term, inner } => RowInfoV::Raft {
                flags: *flags,
                term: *term,
                inner: *inner,
            },
            RowInfo::RaftVote { flags, term, peer_id } => RowInfoV::RaftVote {
                flags: *flags,
                term: *term,
                peer_id: *peer_id,
            },
            RowInfo::Shard {
                shard_type,
                estimated_row_count,
                mod_name,
                master,
                replicas,
                aux,
            } => RowInfoV::Shard {
                shard_type: *shard_type,
                estimated_row_count: *estimated_row_count,
                mod_name: mod_name@,
                master: master@,
                replicas: replicas.deep_view(),
                aux: aux@,
            },
            RowInfo::Data => RowInfoV::Data,
            RowInfo::Nothing => RowInfoV::Nothing,
        }
    }
}

/// What a payload means under its tag, exactly as the parser reads it:
/// which framing applies, where each field sits, and the first shortfall
/// or bad byte that makes the record unreadable.
pub open spec fn spec_parse_row_info(tag: u16, scn: i64, data: Seq<u8>) -> Result<
    RowInfoV,
    LogError,
> {
    let kind = spec_tag_new(tag);
    if kind == Tag::SnapInitial {
        if data.len() == 12 {
            Ok(
                RowInfoV::SnapInitial {
                    count: spec_u32_from_le_bytes(data.subrange(0, 4)),
                    crc_log: spec_u32_from_le_bytes(data.subrange(4, 8)),
                    crc_mod: spec_u32_from_le_bytes(data.subrange(8, 12)),
                },
            )
        } else if scn == -1 {
            if data.len() < 9 {
                Err(LogError::ShortRead)
            } else {
                Ok(
                    RowInfoV::SnapInitialCompact {
                        ver: data[0],
                        count: spec_u32_from_le_bytes(data.subrange(1, 5)),
                        flags: spec_u32_from_le_bytes(data.subrange(5, 9)),
                    },
                )
            }
        } else {
            Ok(RowInfoV::SnapInitialUnknown)
        }
    } else if kind == Tag::RunCrc {
        if data.len() == 16 {
            Ok(
                RowInfoV::RunCrc {
                    scn: spec_u64_from_le_bytes(data.subrange(0, 8)) as i64,
                    crc_log: spec_u32_from_le_bytes(data.subrange(8, 12)),
                },
            )
        } else if data.len() < 8 {
            Err(LogError::ShortRead)
        } else {
            Ok(
                RowInfoV::RunCrc {
                    scn: -1 as i64,
                    crc_log: spec_u32_from_le_bytes(data.subrange(0, 4)),
                },
            )
        }
    } else if kind == Tag::RaftAppend || kind == Tag::RaftCommit {
        if data.len() < 12 {
            Err(LogError::ShortRead)
        } else {
            let flags = spec_u16_from_le_bytes(data.subrange(0, 2));
            let term = spec_u64_from_le_bytes(data.subrange(2, 10));
            let inner_tag = spec_tag_new(spec_u16_from_le_bytes(data.subrange(10, 12)));
            if inner_tag == Tag::RunCrc {
                if data.len() < 28 {
                    Err(LogError::ShortRead)
                } else {
                    Ok(
                        RowInfoV::Raft {
                            flags,
                            term,
                            inner: RaftInner::RunCrc {
                                scn: spec_u64_from_le_bytes(data.subrange(12, 20)),
                                crc_log: spec_u32_from_le_bytes(data.subrange(20, 24)),
                            },
                        },
                    )
                }
            } else if inner_tag == Tag::Nop {
                Ok(RowInfoV::Raft { flags, term, inner: RaftInner::Nop })
            } else {
                Ok(RowInfoV::Raft { flags, term, inner: RaftInner::Other { inner_tag } })
            }
        }
    } else if kind == Tag::RaftVote {
        if data.len() < 11 {
            Err(LogError::ShortRead)
        } else {
            Ok(
                RowInfoV::RaftVote {
                    flags: spec_u16_from_le_bytes(data.subrange(0, 2)),
                    term: spec_u64_from_le_bytes(data.subrange(2, 10)),
                    peer_id: data[10],
                },
            )
        }
    } else if kind == Tag::ShardCreate || kind == Tag::ShardAlter {
        if data.len() < 2 {
            Err(LogError::ShortRead)
        } else if data[0] != 1 {
            Err(LogError::InvalidRecordVersion(data[0]))
        } else if data[1] > 2 {
            Err(LogError::InvalidShardType(data[1]))
        } else if data.len() < 104 {
            Err(LogError::ShortRead)
        } else {
            let aux_len = spec_u16_from_le_bytes(data.subrange(102, 104));
            if data.len() < 104 + aux_len {
                Err(LogError::ShortRead)
            } else {
                Ok(
                    RowInfoV::Shard {
                        shard_type: if data[1] == 0 {
                            ShardType::POR
                        } else if data[1] == 1 {
                            ShardType::RAFT
                        } else {
                            ShardType::PART
                        },
                        estimated_row_count: spec_u32_from_le_bytes(data.subrange(2, 6)),
                        mod_name: spec_str_field(data, 6),
                        master: spec_str_field(data, 22),
                        replicas: seq![
                            spec_str_field(data, 38),
                            spec_str_field(data, 54),
                            spec_str_field(data, 70),
                            spec_str_field(data, 86),
                        ],
                        aux: data.subrange(104, 104 + aux_len),
                    },
                )
            }
        }
    } else if kind == Tag::SnapData || kind == Tag::WalData || (kind matches Tag::UserTag(_)) {
        Ok(RowInfoV::Data)
    } else {
        Ok(RowInfoV::Nothing)
    }
}

/// Parse the inner framing of a payload.  Kinds whose payload the log
/// treats as opaque yield `Data` or `Nothing` untouched; the framed kinds
/// are read field by field.
pub fn parse_row_info(tag: u16, scn: i64, data: &[u8]) -> (r: Result<RowInfo, LogError>)
    requires
        spec_tag_new(tag) != Tag::Tlv,
    ensures
        match r {
            Ok(info) => spec_parse_row_info(tag, scn, data@) == Ok::<RowInfoV, LogError>(info@),
            Err(e) => spec_parse_row_info(tag, scn, data@) == Err::<RowInfoV, LogError>(e),
        },
{
    let l = data.len();
    let kind = Tag::new(tag);
    match kind {
        Tag::SnapInitial => {
            if data.len() == 12 {
                Ok(
                    RowInfo::SnapInitial {
                        count: u32_from_le_bytes_at(data, 0),
                        crc_log: u32_from_le_bytes_at(data, 4),
                        crc_mod: u32_from_le_bytes_at(data, 8),
                    },
                )
            } else if scn == -1 {
                if data.len() < 9 {
                    Err(LogError::ShortRead)
                } else {
                    Ok(
                        RowInfo::SnapInitialCompact {
                            ver: data[0],
                            count: u32_from_le_bytes_at(data, 1),
                            flags: u32_from_le_bytes_at(data, 5),
                        },
                    )
                }
            } else {
                Ok(RowInfo::SnapInitialUnknown)
            }
        },
        Tag::RunCrc => {
            if data.len() == 16 {
                Ok(
                    RowInfo::RunCrc {
                        scn: #[verifier::truncate] (u64_from_le_bytes_at(data, 0) as i64),
                        crc_log: u32_from_le_bytes_at(data, 8),
                    },
                )
            } else if data.len() < 8 {
                Err(LogError::ShortRead)
            } else {
                Ok(RowInfo::RunCrc { scn: -1, crc_log: u32_from_le_bytes_at(data, 0) })
            }
        },
        Tag::RaftAppend | Tag::RaftCommit => {
            if data.len() < 12 {
                return Err(LogError::ShortRead);
            }
            let flags = u16_from_le_bytes_at(data, 0);
            let term = u64_from_le_bytes_at(data, 2);
            let inner_tag = Tag::new(u16_from_le_bytes_at(data, 10));
            match inner_tag {
                Tag::RunCrc => {
                    if data.len() < 28 {
                        Err(LogError::ShortRead)
                    } else {
                        Ok(
                            RowInfo::Raft {
                                flags,
                                term,
                                inner: RaftInner::RunCrc {
                                    scn: u64_from_le_bytes_at(data, 12),
                                    crc_log: u32_from_le_bytes_at(data, 20),
                                },
                            },
                        )
                    }
                },
                Tag::Nop => Ok(RowInfo::Raft { flags, term, inner: RaftInner::Nop }),
                _ => Ok(RowInfo::Raft { flags, term, inner: RaftInner::Other { inner_tag } }),
            }
        },
        Tag::RaftVote => {
            if data.len() < 11 {
                Err(LogError::ShortRead)
            } else {
                Ok(
                    RowInfo::RaftVote {
                        flags: u16_from_le_bytes_at(data, 0),
                        term: u64_from_le_bytes_at(data, 2),
                        peer_id: data[10],
                    },
                )
            }
        },
        Tag::ShardCreate | Tag::ShardAlter => {
            if data.len() < 2 {
                return Err(LogError::ShortRead);
            }
            let ver = data[0];
            if ver != 1 {
                return Err(LogError::InvalidRecordVersion(ver));
            }
            let shard_type = match ShardType::new(data[1]) {
                Ok(t) => t,
                Err(e) => {
                    return Err(e);
                },
            };
            if data.len() < 104 {
                return Err(LogError::ShortRead);
            }
            let aux_len = u16_from_le_bytes_at(data, 102);
            if data.len() < 104 + aux_len as usize {
                return Err(LogError::ShortRead);
            }
            let mut replicas: Vec<Vec<u8>> = Vec::new();
            replicas.push(str_field(data, 38));
            replicas.push(str_field(data, 54));
            replicas.push(str_field(data, 70));
            replicas.push(str_field(data, 86));
            let info = RowInfo::Shard {
                shard_type,
                estimated_row_count: u32_from_le_bytes_at(data, 2),
                mod_name: str_field(data, 6),
                master: str_field(data, 22),
                replicas,
                aux: slice_to_vec(slice_subrange(data, 104, 104 + aux_len as usize)),
            };
            proof {
                let expect = spec_parse_row_info(tag, scn, data@)->Ok_0;
                assert(info@ =~~= expect);
            }
            Ok(info)
        },
        Tag::SnapData | Tag::WalData | Tag::UserTag(_) => Ok(RowInfo::Data),
        _ => Ok(RowInfo::Nothing),
    }
}

/// Round trip (the codec law): serializing a well-formed, checksum-valid row
/// and parsing the result yields the row back, byte for byte.
pub proof fn lemma_row_roundtrip(r: RowV)
    requires
        r.wf(),
        r.crc_valid(),
    ensures
        spec_row_read(spec_row_bytes(r), 0) == Ok::<(RowV, int), LogError>(
            (r, 46 + r.len as int),
        ),
{
    let s = spec_row_bytes(r);
    lemma_auto_spec_u32_to_from_le_bytes();
    lemma_tail_fields(r);
    assert(s.len() == 46 + r.len);
    assert(s.subrange(0, 46 + r.len as int) =~= s);
    lemma_row_parse_at(s, 0, r);
}

} // verus!
